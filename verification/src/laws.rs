//! Cross-component laws: what printing and reading guarantee of each
//! other.
//!
//! The reader is the inverse of the printer on self-describing
//! literal text. The proofs here establish that for the atoms whose
//! canonical text the printer computes digit by digit: every integer,
//! and the three named literals. The same property on compound
//! shapes is exercised by the test suite.

use crate::form::Form;
use crate::printer::sp_digit_char;
use crate::printer::sp_int_str;
use crate::printer::sp_nat_str;
use crate::printer::sp_print;
use crate::reader::sp_bare_end;
use crate::reader::sp_digits_val;
use crate::reader::sp_is_bare_delim;
use crate::reader::sp_is_digit;
use crate::reader::sp_is_int_token;
use crate::reader::sp_is_sym_start;
use crate::reader::sp_int_tok_val;
use crate::reader::sp_read_atom;
use crate::reader::sp_read_str;
use crate::reader::sp_tokenize;
use crate::reader::sp_tokenize_from;
use vstd::prelude::*;

verus! {

proof fn lemma_digit_char_val(d: int)
    requires
        0 <= d <= 9,
    ensures
        sp_is_digit(sp_digit_char(d)),
        sp_digit_char(d) as int - 48 == d,
{
}

proof fn lemma_nat_str_digits(n: int)
    requires
        n >= 0,
    ensures
        sp_nat_str(n).len() >= 1,
        forall|j: int| 0 <= j < sp_nat_str(n).len() ==> sp_is_digit(#[trigger] sp_nat_str(n)[j]),
    decreases n,
{
    if n < 10 {
        lemma_digit_char_val(n);
    } else {
        lemma_nat_str_digits(n / 10);
        lemma_digit_char_val(n % 10);
        let s = sp_nat_str(n / 10);
        assert(sp_nat_str(n) == s.push(sp_digit_char(n % 10)));
        assert(forall|j: int|
            0 <= j < s.len() ==> #[trigger] s.push(sp_digit_char(n % 10))[j] == s[j]);
    }
}

proof fn lemma_nat_str_val(n: int)
    requires
        n >= 0,
    ensures
        sp_digits_val(sp_nat_str(n)) == n,
    decreases n,
{
    if n < 10 {
        lemma_digit_char_val(n);
        assert(sp_nat_str(n) == seq![sp_digit_char(n)]);
        assert(seq![sp_digit_char(n)].drop_last() =~= Seq::<char>::empty());
        assert(seq![sp_digit_char(n)].last() == sp_digit_char(n));
        assert(sp_digits_val(Seq::<char>::empty()) == 0);
        assert(sp_digits_val(seq![sp_digit_char(n)]) == sp_digit_char(n) as int - 48);
    } else {
        lemma_nat_str_val(n / 10);
        lemma_digit_char_val(n % 10);
        let s = sp_nat_str(n / 10);
        let c = sp_digit_char(n % 10);
        assert(sp_nat_str(n) == s.push(c));
        assert(s.push(c).drop_last() =~= s);
        assert(s.push(c).last() == c);
        assert(sp_digits_val(s.push(c)) == sp_digits_val(s) * 10 + (c as int - 48));
        vstd::arithmetic::div_mod::lemma_fundamental_div_mod(n, 10);
    }
}

proof fn lemma_bare_end_all(s: Seq<char>, i: int)
    requires
        0 <= i <= s.len(),
        forall|j: int| i <= j < s.len() ==> !sp_is_bare_delim(#[trigger] s[j]),
    ensures
        sp_bare_end(s, i) == s.len(),
    decreases s.len() - i,
{
    if i < s.len() {
        lemma_bare_end_all(s, i + 1);
    }
}

/// A non-empty run of characters that neither separate nor open
/// another token is one single bare token.
proof fn lemma_single_bare_token(s: Seq<char>)
    requires
        s.len() >= 1,
        forall|j: int| 0 <= j < s.len() ==> !sp_is_bare_delim(#[trigger] s[j]),
        s[0] != '~',
        s[0] != '^',
        s[0] != '@',
        s[0] != '[',
        s[0] != ']',
        s[0] != '{',
        s[0] != '}',
    ensures
        sp_tokenize(s) == seq![s],
{
    lemma_bare_end_all(s, 0);
    assert(s.subrange(0, s.len() as int) =~= s);
    assert(sp_tokenize_from(s, s.len() as int) =~= Seq::<Seq<char>>::empty());
    assert(seq![s] + Seq::<Seq<char>>::empty() =~= seq![s]);
}

proof fn lemma_int_text_chars(n: int)
    requires
        i64::MIN <= n <= i64::MAX,
    ensures
        sp_int_str(n).len() >= 1,
        forall|j: int|
            0 <= j < sp_int_str(n).len() ==> (sp_is_digit(#[trigger] sp_int_str(n)[j])
                || sp_int_str(n)[j] == '-'),
{
    if n < 0 {
        lemma_nat_str_digits(-n);
        let t = seq!['-'] + sp_nat_str(-n);
        assert(t[0] == '-');
        assert(forall|j: int| 1 <= j < t.len() ==> #[trigger] t[j] == sp_nat_str(-n)[j - 1]);
    } else {
        lemma_nat_str_digits(n);
    }
}

/// Reading back the printed text of an integer yields that integer:
/// the atom grammar inverts decimal printing on the whole signed
/// 64-bit range.
pub proof fn lemma_int_atom_round_trip(n: int)
    requires
        i64::MIN <= n <= i64::MAX,
    ensures
        sp_read_atom(sp_int_str(n)) == Result::<Form, crate::form::ErrV>::Ok(Form::Int(n)),
{
    let t = sp_int_str(n);
    if n < 0 {
        lemma_nat_str_digits(-n);
        lemma_nat_str_val(-n);
        assert(t == seq!['-'] + sp_nat_str(-n));
        assert(t[0] == '-');
        assert(t.drop_first() =~= sp_nat_str(-n));
        assert(sp_is_int_token(t));
        assert(sp_int_tok_val(t) == -sp_digits_val(sp_nat_str(-n)));
        assert(sp_int_tok_val(t) == n);
    } else {
        lemma_nat_str_digits(n);
        lemma_nat_str_val(n);
        assert(t == sp_nat_str(n));
        assert(sp_is_digit(t[0]));
        assert(t[0] != '+' && t[0] != '-');
        assert(sp_is_int_token(t));
        assert(sp_int_tok_val(t) == n);
    }
}

/// One direction of the round-trip property, for integers: printing
/// an integer term and reading the text back yields the same term.
pub proof fn lemma_int_round_trip(n: int)
    requires
        i64::MIN <= n <= i64::MAX,
    ensures
        sp_read_str(sp_print(Form::Int(n))) == Result::<Form, crate::form::ErrV>::Ok(
            Form::Int(n),
        ),
{
    let t = sp_int_str(n);
    assert(sp_print(Form::Int(n)) == t);
    lemma_int_text_chars(n);
    assert(forall|j: int| 0 <= j < t.len() ==> !sp_is_bare_delim(#[trigger] t[j]));
    lemma_single_bare_token(t);
    assert(sp_tokenize(t) == seq![t]);
    reveal_strlit("(");
    reveal_strlit("[");
    reveal_strlit("{");
    assert(t != "("@ && t != "["@ && t != "{"@);
    lemma_int_atom_round_trip(n);
    assert(seq![t][0] == t);
}

/// One direction of the round-trip property, for the named literals:
/// printing `nil`, `true` or `false` and reading the text back yields
/// the same term.
pub proof fn lemma_literal_round_trip()
    ensures
        sp_read_str(sp_print(Form::Nil)) == Result::<Form, crate::form::ErrV>::Ok(Form::Nil),
        sp_read_str(sp_print(Form::Bool(true))) == Result::<Form, crate::form::ErrV>::Ok(
            Form::Bool(true),
        ),
        sp_read_str(sp_print(Form::Bool(false))) == Result::<Form, crate::form::ErrV>::Ok(
            Form::Bool(false),
        ),
{
    reveal_strlit("nil");
    reveal_strlit("true");
    reveal_strlit("false");
    reveal_strlit("(");
    reveal_strlit("[");
    reveal_strlit("{");
    lemma_single_bare_token("nil"@);
    lemma_single_bare_token("true"@);
    lemma_single_bare_token("false"@);
    assert(!sp_is_int_token("nil"@)) by {
        assert(!sp_is_digit("nil"@[0]));
    }
    assert(!sp_is_int_token("true"@)) by {
        assert(!sp_is_digit("true"@[0]));
    }
    assert(!sp_is_int_token("false"@)) by {
        assert(!sp_is_digit("false"@[0]));
    }
    assert(sp_read_atom("nil"@) == Result::<Form, crate::form::ErrV>::Ok(Form::Nil));
    assert(sp_read_atom("true"@) == Result::<Form, crate::form::ErrV>::Ok(Form::Bool(true)));
    assert(sp_read_atom("false"@) == Result::<Form, crate::form::ErrV>::Ok(Form::Bool(false)));
}

/// One direction of the round-trip property, for symbols: printing a
/// symbol and reading the text back yields the same symbol, for every
/// name the atom grammar itself would produce: it opens with a symbol
/// character, contains no separator and no token-opening punctuation,
/// and is neither a named literal nor shaped like an integer.
pub proof fn lemma_symbol_round_trip(name: Seq<char>)
    requires
        name.len() >= 1,
        sp_is_sym_start(name[0]),
        forall|j: int| 0 <= j < name.len() ==> !sp_is_bare_delim(#[trigger] name[j]),
        name != "nil"@,
        name != "true"@,
        name != "false"@,
        !sp_is_int_token(name),
    ensures
        sp_read_str(sp_print(Form::Symbol(name))) == Result::<Form, crate::form::ErrV>::Ok(
            Form::Symbol(name),
        ),
{
    assert(sp_print(Form::Symbol(name)) == name);
    lemma_single_bare_token(name);
    assert(sp_tokenize(name) == seq![name]);
    reveal_strlit("(");
    reveal_strlit("[");
    reveal_strlit("{");
    assert(name != "("@ && name != "["@ && name != "{"@);
    assert(seq![name][0] == name);
}

proof fn lemma_str_end_plain(text: Seq<char>, s: Seq<char>, i: int)
    requires
        text == seq!['"'] + s + seq!['"'],
        forall|j: int| 0 <= j < s.len() ==> #[trigger] s[j] != '"' && s[j] != '\\',
        1 <= i <= s.len() + 1,
    ensures
        crate::reader::sp_str_end(text, i) == text.len(),
    decreases text.len() - i,
{
    if i == s.len() + 1 {
        assert(text[i] == '"');
    } else {
        assert(text[i] == s[i - 1]);
        lemma_str_end_plain(text, s, i + 1);
    }
}

/// One direction of the round-trip property, for strings: printing a
/// string value and reading the text back yields the same value, for
/// every text free of quotes and backslashes that does not carry the
/// keyword prefix.
pub proof fn lemma_string_round_trip(s: Seq<char>)
    requires
        forall|j: int| 0 <= j < s.len() ==> #[trigger] s[j] != '"' && s[j] != '\\',
        !crate::printer::sp_is_kw(s),
    ensures
        sp_read_str(sp_print(Form::Str(s))) == Result::<Form, crate::form::ErrV>::Ok(
            Form::Str(s),
        ),
{
    let text = seq!['"'] + s + seq!['"'];
    assert(sp_print(Form::Str(s)) =~= text);
    assert(text[0] == '"');
    lemma_str_end_plain(text, s, 1);
    assert(crate::reader::sp_token_end(text, 0) == text.len());
    assert(text.subrange(0, text.len() as int) =~= text);
    assert(sp_tokenize_from(text, text.len() as int) =~= Seq::<Seq<char>>::empty());
    assert(sp_tokenize(text) =~= seq![text]);
    reveal_strlit("(");
    reveal_strlit("[");
    reveal_strlit("{");
    assert(text != "("@ && text != "["@ && text != "{"@);
    assert(seq![text][0] == text);
    assert(!sp_is_int_token(text)) by {
        assert(!sp_is_digit(text[0]));
    }
    assert(!sp_is_sym_start(text[0]));
    assert(text.last() == '"');
    assert(text.subrange(1, text.len() - 1) =~= s);
}

} // verus!
