//! The reader: a lexical tokenizer and a single-token-lookahead
//! recursive-descent parser from text to terms.
//!
//! Whitespace and commas are pure separators. `~@` and the punctuation
//! characters `( ) [ ] { } ' ` ~ ^ @` are single tokens; a
//! double-quoted string is a single token even when unterminated (it is
//! rejected later, by the atom grammar, not here); a line comment
//! starting with `;` is discarded whole; everything else is a run of
//! non-delimiter characters.

use crate::form::err_view;
use crate::form::form_view;
use crate::form::forms_of;
use crate::form::lemma_forms_of;
use crate::form::lemma_pairs_of;
use crate::form::pairs_of;
use crate::form::res_form;
use crate::form::str_eq;
use crate::form::strs_of;
use crate::form::ErrV;
use crate::form::Form;
use crate::form::MalErr;
use crate::form::MalForm;
use crate::form::KW0;
use crate::form::KW1;
use vstd::prelude::*;
use vstd::string::*;

verus! {

/// A separator: whitespace or a comma, never part of a token.
pub open spec fn sp_is_sep(c: char) -> bool {
    c == ' ' || c == '\t' || c == '\n' || c == '\r' || c == '\u{b}' || c == '\u{c}' || c == ','
}

/// The punctuation characters that form single-character tokens.
pub open spec fn sp_is_special(c: char) -> bool {
    c == '(' || c == ')' || c == '[' || c == ']' || c == '{' || c == '}' || c == '\'' || c == '`'
        || c == '~' || c == '^' || c == '@'
}

/// A character that ends a bare token. `~`, `^` and `@` do not: they
/// only open tokens of their own when they stand first.
pub open spec fn sp_is_bare_delim(c: char) -> bool {
    sp_is_sep(c) || c == '(' || c == ')' || c == '[' || c == ']' || c == '{' || c == '}'
        || c == '\'' || c == '"' || c == '`' || c == ';'
}

/// The first index at or after `i` holding a non-separator.
pub open spec fn sp_skip_seps(s: Seq<char>, i: int) -> int
    decreases s.len() - i,
        when 0 <= i <= s.len()
{
    if i >= s.len() {
        i
    } else if sp_is_sep(s[i]) {
        sp_skip_seps(s, i + 1)
    } else {
        i
    }
}

/// The end (exclusive) of a string token whose opening quote stands
/// just before `i`: after the closing quote, or the end of input for
/// an unterminated string. A backslash escapes the next character.
pub open spec fn sp_str_end(s: Seq<char>, i: int) -> int
    decreases s.len() - i,
        when 0 <= i <= s.len()
{
    if i >= s.len() {
        i
    } else if s[i] == '"' {
        i + 1
    } else if s[i] == '\\' {
        if i + 2 <= s.len() {
            sp_str_end(s, i + 2)
        } else {
            s.len() as int
        }
    } else {
        sp_str_end(s, i + 1)
    }
}

/// The end (exclusive) of a bare token starting at or before `i`.
pub open spec fn sp_bare_end(s: Seq<char>, i: int) -> int
    decreases s.len() - i,
        when 0 <= i <= s.len()
{
    if i >= s.len() {
        i
    } else if sp_is_bare_delim(s[i]) {
        i
    } else {
        sp_bare_end(s, i + 1)
    }
}

/// The end (exclusive) of a line comment: the next newline or the end
/// of input.
pub open spec fn sp_line_end(s: Seq<char>, i: int) -> int
    decreases s.len() - i,
        when 0 <= i <= s.len()
{
    if i >= s.len() {
        i
    } else if s[i] == '\n' {
        i
    } else {
        sp_line_end(s, i + 1)
    }
}

/// The end (exclusive) of the token starting at `i`; `s[i]` is not a
/// separator.
pub open spec fn sp_token_end(s: Seq<char>, i: int) -> int {
    if s[i] == '~' && i + 1 < s.len() && s[i + 1] == '@' {
        i + 2
    } else if sp_is_special(s[i]) {
        i + 1
    } else if s[i] == '"' {
        sp_str_end(s, i + 1)
    } else if s[i] == ';' {
        sp_line_end(s, i)
    } else {
        sp_bare_end(s, i)
    }
}

/// The tokens of `s` from position `i` on. The bounds tests on `j` and
/// `e` only make the recursion well-founded; the range lemmas below
/// show they always pass.
pub open spec fn sp_tokenize_from(s: Seq<char>, i: int) -> Seq<Seq<char>>
    decreases s.len() - i,
        when 0 <= i <= s.len()
{
    let j = sp_skip_seps(s, i);
    if !(i <= j < s.len()) {
        Seq::empty()
    } else {
        let e = sp_token_end(s, j);
        if !(j < e <= s.len()) {
            Seq::empty()
        } else {
            let tok = s.subrange(j, e);
            let rest = sp_tokenize_from(s, e);
            if s[j] == ';' {
                rest
            } else {
                seq![tok] + rest
            }
        }
    }
}

/// The token sequence of an input line: what the parser works on.
pub open spec fn sp_tokenize(s: Seq<char>) -> Seq<Seq<char>> {
    sp_tokenize_from(s, 0)
}

proof fn lemma_skip_seps_range(s: Seq<char>, i: int)
    requires
        0 <= i <= s.len(),
    ensures
        i <= sp_skip_seps(s, i) <= s.len(),
        sp_skip_seps(s, i) < s.len() ==> !sp_is_sep(s[sp_skip_seps(s, i)]),
    decreases s.len() - i,
{
    if i < s.len() && sp_is_sep(s[i]) {
        lemma_skip_seps_range(s, i + 1);
    }
}

proof fn lemma_str_end_range(s: Seq<char>, i: int)
    requires
        0 <= i <= s.len(),
    ensures
        i <= sp_str_end(s, i) <= s.len(),
    decreases s.len() - i,
{
    if i < s.len() && s[i] != '"' {
        if s[i] == '\\' {
            if i + 2 <= s.len() {
                lemma_str_end_range(s, i + 2);
            }
        } else {
            lemma_str_end_range(s, i + 1);
        }
    }
}

proof fn lemma_bare_end_range(s: Seq<char>, i: int)
    requires
        0 <= i <= s.len(),
    ensures
        i <= sp_bare_end(s, i) <= s.len(),
    decreases s.len() - i,
{
    if i < s.len() && !sp_is_bare_delim(s[i]) {
        lemma_bare_end_range(s, i + 1);
    }
}

proof fn lemma_line_end_range(s: Seq<char>, i: int)
    requires
        0 <= i <= s.len(),
    ensures
        i <= sp_line_end(s, i) <= s.len(),
    decreases s.len() - i,
{
    if i < s.len() && s[i] != '\n' {
        lemma_line_end_range(s, i + 1);
    }
}

proof fn lemma_token_end_range(s: Seq<char>, i: int)
    requires
        0 <= i < s.len(),
        !sp_is_sep(s[i]),
    ensures
        i < sp_token_end(s, i) <= s.len(),
{
    if s[i] == '~' && i + 1 < s.len() && s[i + 1] == '@' {
    } else if sp_is_special(s[i]) {
    } else if s[i] == '"' {
        lemma_str_end_range(s, i + 1);
    } else if s[i] == ';' {
        lemma_line_end_range(s, i + 1);
    } else {
        lemma_bare_end_range(s, i + 1);
    }
}

fn is_sep_exec(c: char) -> (r: bool)
    ensures
        r == sp_is_sep(c),
{
    c == ' ' || c == '\t' || c == '\n' || c == '\r' || c == '\u{b}' || c == '\u{c}' || c == ','
}

fn is_special_exec(c: char) -> (r: bool)
    ensures
        r == sp_is_special(c),
{
    c == '(' || c == ')' || c == '[' || c == ']' || c == '{' || c == '}' || c == '\'' || c == '`'
        || c == '~' || c == '^' || c == '@'
}

fn is_bare_delim_exec(c: char) -> (r: bool)
    ensures
        r == sp_is_bare_delim(c),
{
    is_sep_exec(c) || c == '(' || c == ')' || c == '[' || c == ']' || c == '{' || c == '}'
        || c == '\'' || c == '"' || c == '`' || c == ';'
}

fn skip_seps(s: &str, i: usize, n: usize) -> (r: usize)
    requires
        i <= n == s@.len(),
    ensures
        r == sp_skip_seps(s@, i as int),
        i <= r <= n,
        r < n ==> !sp_is_sep(s@[r as int]),
{
    let mut cur: usize = i;
    while cur < n
        invariant
            i <= cur <= n,
            n == s@.len(),
            sp_skip_seps(s@, i as int) == sp_skip_seps(s@, cur as int),
        decreases n - cur,
    {
        if !is_sep_exec(s.get_char(cur)) {
            return cur;
        }
        cur += 1;
    }
    cur
}

fn str_end(s: &str, i: usize, n: usize) -> (r: usize)
    requires
        i <= n == s@.len(),
    ensures
        r == sp_str_end(s@, i as int),
        i <= r <= n,
{
    let mut cur: usize = i;
    while cur < n
        invariant
            i <= cur <= n,
            n == s@.len(),
            sp_str_end(s@, i as int) == sp_str_end(s@, cur as int),
        decreases n - cur,
    {
        let c = s.get_char(cur);
        if c == '"' {
            return cur + 1;
        }
        if c == '\\' {
            if n - cur >= 2 {
                cur += 2;
            } else {
                return n;
            }
        } else {
            cur += 1;
        }
    }
    cur
}

fn bare_end(s: &str, i: usize, n: usize) -> (r: usize)
    requires
        i <= n == s@.len(),
    ensures
        r == sp_bare_end(s@, i as int),
        i <= r <= n,
{
    let mut cur: usize = i;
    while cur < n
        invariant
            i <= cur <= n,
            n == s@.len(),
            sp_bare_end(s@, i as int) == sp_bare_end(s@, cur as int),
        decreases n - cur,
    {
        if is_bare_delim_exec(s.get_char(cur)) {
            return cur;
        }
        cur += 1;
    }
    cur
}

fn line_end(s: &str, i: usize, n: usize) -> (r: usize)
    requires
        i <= n == s@.len(),
    ensures
        r == sp_line_end(s@, i as int),
        i <= r <= n,
{
    let mut cur: usize = i;
    while cur < n
        invariant
            i <= cur <= n,
            n == s@.len(),
            sp_line_end(s@, i as int) == sp_line_end(s@, cur as int),
        decreases n - cur,
    {
        if s.get_char(cur) == '\n' {
            return cur;
        }
        cur += 1;
    }
    cur
}

fn token_end(s: &str, i: usize, n: usize) -> (r: usize)
    requires
        i < n == s@.len(),
        !sp_is_sep(s@[i as int]),
    ensures
        r == sp_token_end(s@, i as int),
        i < r <= n,
{
    proof {
        lemma_token_end_range(s@, i as int);
    }
    let c = s.get_char(i);
    if c == '~' && i + 1 < n && s.get_char(i + 1) == '@' {
        i + 2
    } else if is_special_exec(c) {
        i + 1
    } else if c == '"' {
        str_end(s, i + 1, n)
    } else if c == ';' {
        line_end(s, i, n)
    } else {
        bare_end(s, i, n)
    }
}

/// Splits one line of input into its tokens. Separators and comments
/// leave no trace; every token is a non-empty slice of the input.
pub fn tokenize(text: String) -> (r: Vec<String>)
    ensures
        strs_of(r@) == sp_tokenize(text@),
{
    let s = text.as_str();
    let n = s.unicode_len();
    let mut out: Vec<String> = Vec::new();
    let mut i: usize = 0;
    loop
        invariant
            i <= n,
            n == s@.len(),
            strs_of(out@) + sp_tokenize_from(s@, i as int) =~= sp_tokenize(text@),
        decreases n - i,
    {
        let j = skip_seps(s, i, n);
        if j == n {
            proof {
                assert(sp_tokenize_from(s@, i as int) =~= Seq::<Seq<char>>::empty());
                assert(strs_of(out@) =~= sp_tokenize(text@));
            }
            return out;
        }
        let e = token_end(s, j, n);
        proof {
            assert(sp_tokenize_from(s@, i as int) == if s@[j as int] == ';' {
                sp_tokenize_from(s@, e as int)
            } else {
                seq![s@.subrange(j as int, e as int)] + sp_tokenize_from(s@, e as int)
            });
        }
        if s.get_char(j) != ';' {
            let ghost prev = out@;
            let tok = s.substring_char(j, e).to_owned();
            let ghost tv = tok@;
            out.push(tok);
            proof {
                assert(strs_of(out@) =~= strs_of(prev).push(tv));
                assert(strs_of(out@) + sp_tokenize_from(s@, e as int) =~= strs_of(prev) + (
                seq![tv] + sp_tokenize_from(s@, e as int)));
            }
        }
        proof {
            assert(strs_of(out@) + sp_tokenize_from(s@, e as int) =~= sp_tokenize(text@));
        }
        i = e;
    }
}

/// An ASCII decimal digit.
pub open spec fn sp_is_digit(c: char) -> bool {
    48 <= c as int && c as int <= 57
}

/// An ASCII letter. Symbols must open with a letter or one of the
/// four operator characters.
pub open spec fn sp_is_alpha(c: char) -> bool {
    (97 <= c as int && c as int <= 122) || (65 <= c as int && c as int <= 90)
}

/// The value of a run of decimal digits.
pub open spec fn sp_digits_val(s: Seq<char>) -> int
    decreases s.len(),
{
    if s.len() == 0 {
        0
    } else {
        sp_digits_val(s.drop_last()) * 10 + (s.last() as int - 48)
    }
}

/// Whether a token matches the integer grammar: an optional sign
/// followed by one or more digits and nothing else.
pub open spec fn sp_is_int_token(tok: Seq<char>) -> bool {
    if tok.len() == 0 {
        false
    } else {
        let start: int = if tok[0] == '+' || tok[0] == '-' {
            1
        } else {
            0
        };
        tok.len() > start && (forall|j: int|
            start <= j < tok.len() ==> sp_is_digit(#[trigger] tok[j]))
    }
}

/// The signed value of an integer token.
pub open spec fn sp_int_tok_val(tok: Seq<char>) -> int {
    if tok.len() > 0 && tok[0] == '-' {
        -sp_digits_val(tok.drop_first())
    } else if tok.len() > 0 && tok[0] == '+' {
        sp_digits_val(tok.drop_first())
    } else {
        sp_digits_val(tok)
    }
}

/// A character that may open a symbol: a letter, one of the four
/// operator characters, or one of `= < >`, so that the comparison
/// builtins can be named.
pub open spec fn sp_is_sym_start(c: char) -> bool {
    sp_is_alpha(c) || c == '+' || c == '-' || c == '*' || c == '/' || c == '=' || c == '<' || c
        == '>'
}

/// What a single token denotes: an integer, one of the three named
/// literals, a symbol, a string, or an error. Note the order: the
/// integer grammar wins over the symbol rule for tokens such as `+5`.
pub open spec fn sp_read_atom(tok: Seq<char>) -> Result<Form, ErrV> {
    if tok.len() == 0 {
        Result::Err(ErrV::UnknownToken(tok))
    } else if sp_is_int_token(tok) {
        let n = sp_int_tok_val(tok);
        if i64::MIN <= n && n <= i64::MAX {
            Result::Ok(Form::Int(n))
        } else {
            Result::Err(ErrV::IntOutOfRange)
        }
    } else if sp_is_sym_start(tok[0]) {
        if tok == "nil"@ {
            Result::Ok(Form::Nil)
        } else if tok == "true"@ {
            Result::Ok(Form::Bool(true))
        } else if tok == "false"@ {
            Result::Ok(Form::Bool(false))
        } else {
            Result::Ok(Form::Symbol(tok))
        }
    } else if tok[0] == '"' {
        if tok.len() >= 2 && tok.last() == '"' {
            Result::Ok(Form::Str(tok.subrange(1, tok.len() - 1)))
        } else {
            Result::Err(ErrV::UnbalancedString)
        }
    } else {
        Result::Err(ErrV::UnknownToken(tok))
    }
}

/// What a map-key token denotes: the interior of a string token, or a
/// keyword token `:name` turned into a string carrying the reserved
/// keyword prefix. Any other token is a malformed map key.
pub open spec fn sp_key_str(tok: Seq<char>) -> Result<Seq<char>, ErrV> {
    if tok.len() >= 1 && tok[0] == '"' {
        if tok.len() >= 2 && tok.last() == '"' {
            Result::Ok(tok.subrange(1, tok.len() - 1))
        } else {
            Result::Err(ErrV::UnbalancedString)
        }
    } else if tok.len() >= 1 && tok[0] == ':' {
        Result::Ok(seq![KW0, KW1] + tok.drop_first())
    } else {
        Result::Err(ErrV::BadMapKey)
    }
}

proof fn lemma_int_tok_val_cases(tok: Seq<char>)
    requires
        tok.len() > 0,
    ensures
        tok[0] == '-' ==> sp_int_tok_val(tok) == -sp_digits_val(tok.drop_first()),
        tok[0] == '+' ==> sp_int_tok_val(tok) == sp_digits_val(tok.drop_first()),
        (tok[0] != '-' && tok[0] != '+') ==> sp_int_tok_val(tok) == sp_digits_val(tok),
{
}

proof fn lemma_digits_val_nonneg(s: Seq<char>)
    requires
        forall|j: int| 0 <= j < s.len() ==> sp_is_digit(#[trigger] s[j]),
    ensures
        sp_digits_val(s) >= 0,
    decreases s.len(),
{
    if s.len() > 0 {
        lemma_digits_val_nonneg(s.drop_last());
    }
}

proof fn lemma_digits_val_step(s: Seq<char>, k: int)
    requires
        0 <= k < s.len(),
    ensures
        sp_digits_val(s.subrange(0, k + 1)) == sp_digits_val(s.subrange(0, k)) * 10 + (
        s[k] as int - 48),
{
    assert(s.subrange(0, k + 1).drop_last() =~= s.subrange(0, k));
    assert(s.subrange(0, k + 1).last() == s[k]);
}

proof fn lemma_digits_val_prefix_le(s: Seq<char>, k: int)
    requires
        0 <= k <= s.len(),
        forall|j: int| 0 <= j < s.len() ==> sp_is_digit(#[trigger] s[j]),
    ensures
        sp_digits_val(s.subrange(0, k)) <= sp_digits_val(s),
    decreases s.len() - k,
{
    if k < s.len() {
        lemma_digits_val_step(s, k);
        assert(forall|j: int|
            0 <= j < s.subrange(0, k).len() ==> sp_is_digit(#[trigger] s.subrange(0, k)[j]));
        lemma_digits_val_nonneg(s.subrange(0, k));
        lemma_digits_val_prefix_le(s, k + 1);
    } else {
        assert(s.subrange(0, s.len() as int) =~= s);
    }
}

fn is_digit_exec(c: char) -> (r: bool)
    ensures
        r == sp_is_digit(c),
{
    let u = c as u32;
    48 <= u && u <= 57
}

fn is_alpha_exec(c: char) -> (r: bool)
    ensures
        r == sp_is_alpha(c),
{
    let u = c as u32;
    (97 <= u && u <= 122) || (65 <= u && u <= 90)
}

fn all_digits(t: &str, start: usize, n: usize) -> (r: bool)
    requires
        start <= n == t@.len(),
    ensures
        r == (forall|j: int| start <= j < n ==> sp_is_digit(#[trigger] t@[j])),
{
    let mut i: usize = start;
    while i < n
        invariant
            start <= i <= n,
            n == t@.len(),
            forall|j: int| start <= j < i ==> sp_is_digit(#[trigger] t@[j]),
        decreases n - i,
    {
        if !is_digit_exec(t.get_char(i)) {
            return false;
        }
        i += 1;
    }
    true
}

/// Reads one token as an atom.
fn read_atom(t: &str) -> (r: Result<MalForm, MalErr>)
    ensures
        res_form(r, sp_read_atom(t@)),
{
    let n = t.unicode_len();
    if n == 0 {
        return Result::Err(MalErr::UnknownToken(t.to_owned()));
    }
    let c0 = t.get_char(0);
    let signed: bool = c0 == '+' || c0 == '-';
    let start: usize = if signed {
        1
    } else {
        0
    };
    let ghost digits: Seq<char> = if signed {
        t@.drop_first()
    } else {
        t@
    };
    proof {
        assert(digits =~= t@.subrange(start as int, n as int));
    }
    let is_int: bool = n > start && all_digits(t, start, n);
    proof {
        assert(forall|j: int|
            0 <= j < digits.len() ==> #[trigger] digits[j] == t@[j + start]);
        assert(start as int == if t@[0] == '+' || t@[0] == '-' {
            1int
        } else {
            0int
        });
        assert(is_int == sp_is_int_token(t@));
        if is_int {
            assert forall|j: int| 0 <= j < digits.len() implies sp_is_digit(
                #[trigger] digits[j],
            ) by {
                assert(digits[j] == t@[j + start]);
            }
        }
    }
    if is_int {
        let mut acc: u128 = 0;
        let mut i: usize = start;
        while i < n
            invariant
                start <= i <= n,
                n == t@.len(),
                sp_is_int_token(t@),
                c0 == t@[0],
                start as int == if t@[0] == '+' || t@[0] == '-' {
                    1int
                } else {
                    0int
                },
                digits == t@.subrange(start as int, n as int),
                forall|j: int| 0 <= j < digits.len() ==> sp_is_digit(#[trigger] digits[j]),
                forall|j: int| 0 <= j < digits.len() ==> digits[j] == t@[j + start],
                acc == sp_digits_val(digits.subrange(0, i - start)),
                acc <= 0x8000_0000_0000_0000u128,
            decreases n - i,
        {
            proof {
                assert(digits[i - start] == t@[i as int]);
                assert(sp_is_digit(t@[i as int]));
            }
            let d: u32 = (t.get_char(i) as u32) - 48;
            let next_acc: u128 = acc * 10 + (d as u128);
            proof {
                lemma_digits_val_step(digits, i - start);
            }
            if next_acc > 0x8000_0000_0000_0000u128 {
                proof {
                    lemma_digits_val_prefix_le(digits, i - start + 1);
                    assert(digits.subrange(0, digits.len() as int) =~= digits);
                    assert(sp_digits_val(digits.subrange(0, i - start + 1)) == next_acc as int);
                    assert(sp_digits_val(digits) >= next_acc as int);
                    assert(sp_digits_val(digits) > 0x8000_0000_0000_0000);
                    lemma_int_tok_val_cases(t@);
                    if c0 == '-' || c0 == '+' {
                        assert(digits =~= t@.drop_first());
                    } else {
                        assert(digits =~= t@);
                    }
                    assert(sp_int_tok_val(t@) > i64::MAX || sp_int_tok_val(t@) < i64::MIN);
                }
                return Result::Err(MalErr::IntOutOfRange);
            }
            acc = next_acc;
            i += 1;
        }
        proof {
            assert(digits.subrange(0, digits.len() as int) =~= digits);
            assert(acc == sp_digits_val(digits));
            lemma_digits_val_nonneg(digits);
            lemma_int_tok_val_cases(t@);
            if c0 == '-' || c0 == '+' {
                assert(digits =~= t@.drop_first());
            } else {
                assert(digits =~= t@);
            }
        }
        if signed && c0 == '-' {
            if acc == 0x8000_0000_0000_0000u128 {
                Result::Ok(MalForm::Int(i64::MIN))
            } else {
                Result::Ok(MalForm::Int(-(acc as i64)))
            }
        } else {
            if acc >= 0x8000_0000_0000_0000u128 {
                Result::Err(MalErr::IntOutOfRange)
            } else {
                Result::Ok(MalForm::Int(acc as i64))
            }
        }
    } else if is_alpha_exec(c0) || c0 == '+' || c0 == '-' || c0 == '*' || c0 == '/' || c0 == '='
        || c0 == '<' || c0 == '>' {
        if str_eq(t, "nil") {
            Result::Ok(MalForm::Nil)
        } else if str_eq(t, "true") {
            Result::Ok(MalForm::Bool(true))
        } else if str_eq(t, "false") {
            Result::Ok(MalForm::Bool(false))
        } else {
            Result::Ok(MalForm::Symbol(t.to_owned()))
        }
    } else if c0 == '"' {
        if n >= 2 && t.get_char(n - 1) == '"' {
            Result::Ok(MalForm::Str(t.substring_char(1, n - 1).to_owned()))
        } else {
            Result::Err(MalErr::UnbalancedString)
        }
    } else {
        Result::Err(MalErr::UnknownToken(t.to_owned()))
    }
}

/// Reads one token as a map key.
fn key_str(t: &str) -> (r: Result<String, MalErr>)
    ensures
        match (r, sp_key_str(t@)) {
            (Result::Ok(s), Result::Ok(k)) => s@ == k,
            (Result::Err(e), Result::Err(g)) => err_view(e) == g,
            _ => false,
        },
{
    let n = t.unicode_len();
    if n >= 1 && t.get_char(0) == '"' {
        if n >= 2 && t.get_char(n - 1) == '"' {
            Result::Ok(t.substring_char(1, n - 1).to_owned())
        } else {
            Result::Err(MalErr::UnbalancedString)
        }
    } else if n >= 1 && t.get_char(0) == ':' {
        let mut s = String::new();
        s.push(KW0);
        s.push(KW1);
        s.append(t.substring_char(1, n));
        proof {
            assert(s@ =~= seq![KW0, KW1] + t@.drop_first());
        }
        Result::Ok(s)
    } else {
        Result::Err(MalErr::BadMapKey)
    }
}

/// The outcome of reading one form: a term or an error, and the
/// position just past what was consumed.
pub struct ReadOut {
    pub res: Result<Form, ErrV>,
    pub next: int,
}

/// The outcome of reading forms up to a closing token.
pub struct ReadSeqOut {
    pub res: Result<Seq<Form>, ErrV>,
    pub next: int,
}

/// The outcome of reading map entries up to the closing brace, in
/// reading order, duplicates and all.
pub struct ReadMapOut {
    pub res: Result<Seq<(Seq<char>, Form)>, ErrV>,
    pub next: int,
}

/// The first index of `k` among the entries, or `-1`.
pub open spec fn sp_find_key(ps: Seq<(Seq<char>, Form)>, k: Seq<char>) -> int
    decreases ps.len(),
{
    if ps.len() == 0 {
        -1
    } else if ps[0].0 == k {
        0
    } else {
        let r = sp_find_key(ps.drop_first(), k);
        if r == -1 {
            -1
        } else {
            r + 1
        }
    }
}

/// Insertion into a map: an existing key keeps its place and takes
/// the new value; a new key goes to the end.
pub open spec fn sp_map_insert(ps: Seq<(Seq<char>, Form)>, k: Seq<char>, v: Form) -> Seq<
    (Seq<char>, Form),
> {
    let j = sp_find_key(ps, k);
    if j == -1 {
        ps.push((k, v))
    } else {
        ps.update(j, (k, v))
    }
}

/// The map built by inserting the raw entries left to right into
/// `acc`: keys are unique, the first occurrence fixes the place, the
/// last occurrence fixes the value.
pub open spec fn sp_dedup(acc: Seq<(Seq<char>, Form)>, entries: Seq<(Seq<char>, Form)>) -> Seq<
    (Seq<char>, Form),
>
    decreases entries.len(),
{
    if entries.len() == 0 {
        acc
    } else {
        sp_dedup(sp_map_insert(acc, entries[0].0, entries[0].1), entries.drop_first())
    }
}

proof fn lemma_find_key(ps: Seq<(Seq<char>, Form)>, k: Seq<char>)
    ensures
        sp_find_key(ps, k) == -1 ==> forall|j: int| 0 <= j < ps.len() ==> (#[trigger] ps[j]).0
            != k,
        sp_find_key(ps, k) != -1 ==> 0 <= sp_find_key(ps, k) < ps.len() && ps[sp_find_key(
            ps,
            k,
        )].0 == k && forall|j: int| 0 <= j < sp_find_key(ps, k) ==> (#[trigger] ps[j]).0 != k,
    decreases ps.len(),
{
    if ps.len() == 0 {
    } else if ps[0].0 == k {
    } else {
        lemma_find_key(ps.drop_first(), k);
        let r = sp_find_key(ps.drop_first(), k);
        if r == -1 {
            assert forall|j: int| 0 <= j < ps.len() implies (#[trigger] ps[j]).0 != k by {
                if j > 0 {
                    assert(ps.drop_first()[j - 1] == ps[j]);
                }
            }
        } else {
            assert(ps.drop_first()[r] == ps[r + 1]);
            assert forall|j: int| 0 <= j < r + 1 implies (#[trigger] ps[j]).0 != k by {
                if j > 0 {
                    assert(ps.drop_first()[j - 1] == ps[j]);
                }
            }
        }
    }
}

fn map_insert(m: &mut Vec<(String, MalForm)>, k: String, v: MalForm)
    ensures
        pairs_of(final(m)@) == sp_map_insert(pairs_of(old(m)@), k@, v@),
{
    proof {
        lemma_pairs_of(m@);
        lemma_find_key(pairs_of(m@), k@);
    }
    let ghost ps = pairs_of(m@);
    let mut i: usize = 0;
    while i < m.len()
        invariant
            m@ == old(m)@,
            ps == pairs_of(m@),
            ps.len() == m@.len(),
            forall|j: int| 0 <= j < m@.len() ==> ps[j] == (m@[j].0@, form_view(m@[j].1)),
            0 <= i <= m@.len(),
            forall|j: int| 0 <= j < i ==> (#[trigger] ps[j]).0 != k@,
            sp_find_key(ps, k@) == -1 ==> forall|j: int| 0 <= j < ps.len() ==> (
            #[trigger] ps[j]).0 != k@,
            sp_find_key(ps, k@) != -1 ==> 0 <= sp_find_key(ps, k@) < ps.len() && ps[sp_find_key(
                ps,
                k@,
            )].0 == k@ && forall|j: int| 0 <= j < sp_find_key(ps, k@) ==> (#[trigger] ps[j]).0
                != k@,
        decreases m@.len() - i,
    {
        if str_eq(m[i].0.as_str(), k.as_str()) {
            let ghost kv = k@;
            let ghost vv = v@;
            proof {
                assert(ps[i as int].0 == kv);
                if sp_find_key(ps, kv) == -1 {
                    assert(ps[i as int].0 != kv);
                }
                assert(sp_find_key(ps, kv) == i as int);
            }
            m[i] = (k, v);
            proof {
                lemma_pairs_of(m@);
                assert(pairs_of(m@) =~= ps.update(i as int, (kv, vv)));
                assert(sp_map_insert(ps, kv, vv) == ps.update(i as int, (kv, vv)));
            }
            return ;
        }
        i += 1;
    }
    let ghost kv = k@;
    let ghost vv = v@;
    proof {
        assert(sp_find_key(ps, kv) == -1) by {
            if sp_find_key(ps, kv) != -1 {
                assert(ps[sp_find_key(ps, kv)].0 == kv);
            }
        }
    }
    m.push((k, v));
    proof {
        lemma_pairs_of(m@);
        assert(pairs_of(m@) =~= ps.push((kv, vv)));
    }
}

fn build_map(entries: Vec<(String, MalForm)>) -> (m: Vec<(String, MalForm)>)
    ensures
        pairs_of(m@) == sp_dedup(Seq::empty(), pairs_of(entries@)),
{
    proof {
        lemma_pairs_of(entries@);
    }
    let ghost es = pairs_of(entries@);
    let mut out: Vec<(String, MalForm)> = Vec::new();
    let mut i: usize = 0;
    proof {
        assert(pairs_of(out@) =~= Seq::<(Seq<char>, Form)>::empty());
        assert(es.skip(0) =~= es);
    }
    while i < entries.len()
        invariant
            es == pairs_of(entries@),
            es.len() == entries@.len(),
            forall|j: int| 0 <= j < entries@.len() ==> es[j] == (
                entries@[j].0@,
                form_view(entries@[j].1),
            ),
            0 <= i <= entries@.len(),
            sp_dedup(pairs_of(out@), es.skip(i as int)) == sp_dedup(Seq::empty(), es),
        decreases entries@.len() - i,
    {
        let k = entries[i].0.clone();
        let v = entries[i].1.clone();
        proof {
            assert(es.skip(i as int)[0] == es[i as int]);
            assert(es.skip(i as int).drop_first() =~= es.skip(i as int + 1));
        }
        map_insert(&mut out, k, v);
        i += 1;
    }
    proof {
        assert(es.skip(es.len() as int) =~= Seq::<(Seq<char>, Form)>::empty());
    }
    out
}

/// One form, by single-token-lookahead recursive descent over the
/// token sequence, starting at `i`.
pub open spec fn sp_read_form(toks: Seq<Seq<char>>, i: int) -> ReadOut
    decreases toks.len() - i, 0int,
        when 0 <= i <= toks.len()
{
    if i >= toks.len() {
        ReadOut { res: Result::Err(ErrV::UnexpectedEof), next: i }
    } else if toks[i] == "("@ {
        let o = sp_read_seq(toks, i + 1, ')');
        ReadOut {
            res: match o.res {
                Result::Ok(fs) => Result::Ok(Form::List(fs)),
                Result::Err(e) => Result::Err(e),
            },
            next: o.next,
        }
    } else if toks[i] == "["@ {
        let o = sp_read_seq(toks, i + 1, ']');
        ReadOut {
            res: match o.res {
                Result::Ok(fs) => Result::Ok(Form::Vector(fs)),
                Result::Err(e) => Result::Err(e),
            },
            next: o.next,
        }
    } else if toks[i] == "{"@ {
        let o = sp_read_map(toks, i + 1);
        ReadOut {
            res: match o.res {
                Result::Ok(es) => Result::Ok(Form::MapForm(sp_dedup(Seq::empty(), es))),
                Result::Err(e) => Result::Err(e),
            },
            next: o.next,
        }
    } else {
        ReadOut { res: sp_read_atom(toks[i]), next: i + 1 }
    }
}

/// Forms up to the closing token `end`; reaching the end of input
/// first is an unbalanced error. The bounds test on `o.next` only
/// makes the recursion well-founded; reading always advances.
pub open spec fn sp_read_seq(toks: Seq<Seq<char>>, i: int, end: char) -> ReadSeqOut
    decreases toks.len() - i, 1int,
        when 0 <= i <= toks.len()
{
    if i >= toks.len() {
        ReadSeqOut { res: Result::Err(ErrV::Unbalanced), next: i }
    } else if toks[i] == seq![end] {
        ReadSeqOut { res: Result::Ok(Seq::empty()), next: i + 1 }
    } else {
        let o = sp_read_form(toks, i);
        match o.res {
            Result::Err(e) => ReadSeqOut { res: Result::Err(e), next: o.next },
            Result::Ok(f) => {
                if !(i < o.next <= toks.len()) {
                    ReadSeqOut { res: Result::Err(ErrV::Unbalanced), next: o.next }
                } else {
                    let rest = sp_read_seq(toks, o.next, end);
                    ReadSeqOut {
                        res: match rest.res {
                            Result::Ok(fs) => Result::Ok(seq![f] + fs),
                            Result::Err(e) => Result::Err(e),
                        },
                        next: rest.next,
                    }
                }
            },
        }
    }
}

/// Map entries up to the closing brace: a string-shaped key token,
/// then a value form, pairwise. The bounds test on `o.next` only
/// makes the recursion well-founded.
pub open spec fn sp_read_map(toks: Seq<Seq<char>>, i: int) -> ReadMapOut
    decreases toks.len() - i, 1int,
        when 0 <= i <= toks.len()
{
    if i >= toks.len() {
        ReadMapOut { res: Result::Err(ErrV::Unbalanced), next: i }
    } else if toks[i] == "}"@ {
        ReadMapOut { res: Result::Ok(Seq::empty()), next: i + 1 }
    } else {
        match sp_key_str(toks[i]) {
            Result::Err(e) => ReadMapOut { res: Result::Err(e), next: i },
            Result::Ok(k) => {
                let o = sp_read_form(toks, i + 1);
                match o.res {
                    Result::Err(e) => ReadMapOut { res: Result::Err(e), next: o.next },
                    Result::Ok(v) => {
                        if !(i + 1 < o.next <= toks.len()) {
                            ReadMapOut { res: Result::Err(ErrV::Unbalanced), next: o.next }
                        } else {
                            let rest = sp_read_map(toks, o.next);
                            ReadMapOut {
                                res: match rest.res {
                                    Result::Ok(es) => Result::Ok(seq![(k, v)] + es),
                                    Result::Err(e) => Result::Err(e),
                                },
                                next: rest.next,
                            }
                        }
                    },
                }
            },
        }
    }
}

/// What reading a whole line yields: the first form of its token
/// sequence.
pub open spec fn sp_read_str(s: Seq<char>) -> Result<Form, ErrV> {
    sp_read_form(sp_tokenize(s), 0).res
}

fn read_form_at(toks: &Vec<String>, i: usize) -> (out: (Result<MalForm, MalErr>, usize))
    requires
        i <= toks@.len(),
    ensures
        ({
            let o = sp_read_form(strs_of(toks@), i as int);
            &&& res_form(out.0, o.res)
            &&& out.1 == o.next
            &&& i <= out.1 <= toks@.len()
            &&& (out.0 is Ok ==> i < out.1)
        }),
    decreases toks@.len() - i, 0int,
{
    let ghost tv = strs_of(toks@);
    let n = toks.len();
    if i >= n {
        return (Result::Err(MalErr::UnexpectedEof), i);
    }
    let t = &toks[i];
    if str_eq(t.as_str(), "(") {
        let (r, j) = read_seq_at(toks, i + 1, ')');
        match r {
            Result::Ok(v) => (Result::Ok(MalForm::List(v)), j),
            Result::Err(e) => (Result::Err(e), j),
        }
    } else if str_eq(t.as_str(), "[") {
        let (r, j) = read_seq_at(toks, i + 1, ']');
        match r {
            Result::Ok(v) => (Result::Ok(MalForm::Vector(v)), j),
            Result::Err(e) => (Result::Err(e), j),
        }
    } else if str_eq(t.as_str(), "{") {
        let (r, j) = read_map_at(toks, i + 1);
        match r {
            Result::Ok(entries) => {
                let m = build_map(entries);
                (Result::Ok(MalForm::MapForm(m)), j)
            },
            Result::Err(e) => (Result::Err(e), j),
        }
    } else {
        let r = read_atom(t.as_str());
        (r, i + 1)
    }
}

fn read_seq_at(toks: &Vec<String>, i: usize, end: char) -> (out: (
    Result<Vec<MalForm>, MalErr>,
    usize,
))
    requires
        i <= toks@.len(),
    ensures
        ({
            let o = sp_read_seq(strs_of(toks@), i as int, end);
            &&& match (out.0, o.res) {
                (Result::Ok(v), Result::Ok(fs)) => forms_of(v@) == fs,
                (Result::Err(e), Result::Err(g)) => err_view(e) == g,
                _ => false,
            }
            &&& out.1 == o.next
            &&& i <= out.1 <= toks@.len()
        }),
    decreases toks@.len() - i, 1int,
{
    let ghost tv = strs_of(toks@);
    let n = toks.len();
    if i >= n {
        return (Result::Err(MalErr::Unbalanced), i);
    }
    let t = &toks[i];
    if t.unicode_len() == 1 && t.get_char(0) == end {
        proof {
            assert(tv[i as int] =~= seq![end]);
        }
        let empty: Vec<MalForm> = Vec::new();
        proof {
            assert(forms_of(empty@) =~= Seq::<Form>::empty());
        }
        return (Result::Ok(empty), i + 1);
    }
    proof {
        assert(seq![end].len() == 1);
        assert(seq![end][0] == end);
        assert(tv[i as int] != seq![end]);
    }
    let (r, j) = read_form_at(toks, i);
    match r {
        Result::Err(e) => (Result::Err(e), j),
        Result::Ok(f) => {
            let (rr, k) = read_seq_at(toks, j, end);
            match rr {
                Result::Err(e) => (Result::Err(e), k),
                Result::Ok(mut v) => {
                    let ghost prev = v@;
                    v.insert(0, f);
                    proof {
                        lemma_forms_of(prev);
                        lemma_forms_of(v@);
                        assert(forms_of(v@) =~= seq![form_view(f)] + forms_of(prev));
                    }
                    (Result::Ok(v), k)
                },
            }
        },
    }
}

fn read_map_at(toks: &Vec<String>, i: usize) -> (out: (
    Result<Vec<(String, MalForm)>, MalErr>,
    usize,
))
    requires
        i <= toks@.len(),
    ensures
        ({
            let o = sp_read_map(strs_of(toks@), i as int);
            &&& match (out.0, o.res) {
                (Result::Ok(v), Result::Ok(es)) => pairs_of(v@) == es,
                (Result::Err(e), Result::Err(g)) => err_view(e) == g,
                _ => false,
            }
            &&& out.1 == o.next
            &&& i <= out.1 <= toks@.len()
        }),
    decreases toks@.len() - i, 1int,
{
    let ghost tv = strs_of(toks@);
    let n = toks.len();
    if i >= n {
        return (Result::Err(MalErr::Unbalanced), i);
    }
    let t = &toks[i];
    if str_eq(t.as_str(), "}") {
        let empty: Vec<(String, MalForm)> = Vec::new();
        proof {
            assert(pairs_of(empty@) =~= Seq::<(Seq<char>, Form)>::empty());
        }
        return (Result::Ok(empty), i + 1);
    }
    match key_str(t.as_str()) {
        Result::Err(e) => (Result::Err(e), i),
        Result::Ok(k) => {
            let (r, j) = read_form_at(toks, i + 1);
            match r {
                Result::Err(e) => (Result::Err(e), j),
                Result::Ok(v) => {
                    let (rr, kk) = read_map_at(toks, j);
                    match rr {
                        Result::Err(e) => (Result::Err(e), kk),
                        Result::Ok(mut ps) => {
                            let ghost prev = ps@;
                            let ghost kv = k@;
                            ps.insert(0, (k, v));
                            proof {
                                lemma_pairs_of(prev);
                                lemma_pairs_of(ps@);
                                assert(pairs_of(ps@) =~= seq![(kv, form_view(v))] + pairs_of(
                                    prev,
                                ));
                            }
                            (Result::Ok(ps), kk)
                        },
                    }
                },
            }
        },
    }
}

/// Reads one line of text into a term: tokenize, then parse the first
/// form. Exactly the inputs the grammar accepts yield `Ok`; every
/// rejection is the reader error the grammar assigns to it.
pub fn read_str(text: String) -> (r: Result<MalForm, MalErr>)
    ensures
        res_form(r, sp_read_str(text@)),
{
    let toks = tokenize(text);
    let (r, _next) = read_form_at(&toks, 0);
    r
}

} // verus!
