//! The printer: renders a term back to canonical text, the inverse of
//! the reader for all self-describing literal shapes.
//!
//! Lists print as `(a b c)`, vectors as `[a b c]`, maps as
//! `{key val, key val}` in insertion order, strings quoted unless they
//! carry the keyword prefix, in which case they print as `:name`.
//! Closures and builtins print as opaque placeholders and never round
//! trip.

use crate::form::form_view;
use crate::form::forms_of;
use crate::form::lemma_forms_of;
use crate::form::lemma_pairs_of;
use crate::form::pairs_of;
use crate::form::Form;
use crate::form::MalForm;
use crate::form::KW0;
use crate::form::KW1;
use vstd::prelude::*;
use vstd::string::*;

verus! {

/// The character of one decimal digit.
pub open spec fn sp_digit_char(d: int) -> char {
    if d == 0 {
        '0'
    } else if d == 1 {
        '1'
    } else if d == 2 {
        '2'
    } else if d == 3 {
        '3'
    } else if d == 4 {
        '4'
    } else if d == 5 {
        '5'
    } else if d == 6 {
        '6'
    } else if d == 7 {
        '7'
    } else if d == 8 {
        '8'
    } else {
        '9'
    }
}

/// The decimal digits of a non-negative number, most significant
/// first.
pub open spec fn sp_nat_str(n: int) -> Seq<char>
    decreases n,
        when n >= 0
{
    if n < 10 {
        seq![sp_digit_char(n)]
    } else {
        sp_nat_str(n / 10).push(sp_digit_char(n % 10))
    }
}

/// The decimal text of an integer.
pub open spec fn sp_int_str(n: int) -> Seq<char> {
    if n < 0 {
        seq!['-'] + sp_nat_str(-n)
    } else {
        sp_nat_str(n)
    }
}

/// Whether a string value carries the reserved keyword prefix.
pub open spec fn sp_is_kw(s: Seq<char>) -> bool {
    s.len() >= 2 && s[0] == KW0 && s[1] == KW1
}

/// How a string value prints: as `:name` under the keyword
/// convention, else quoted.
pub open spec fn sp_print_string(s: Seq<char>) -> Seq<char> {
    if sp_is_kw(s) {
        seq![':'] + s.skip(2)
    } else {
        seq!['"'] + s + seq!['"']
    }
}

/// The canonical text of a term.
pub open spec fn sp_print(f: Form) -> Seq<char>
    decreases f, 0int, 0int,
{
    match f {
        Form::Int(n) => sp_int_str(n),
        Form::Bool(b) => if b {
            "true"@
        } else {
            "false"@
        },
        Form::Nil => "nil"@,
        Form::Symbol(s) => s,
        Form::Str(s) => sp_print_string(s),
        Form::List(v) => seq!['('] + sp_print_items(v) + seq![')'],
        Form::Vector(v) => seq!['['] + sp_print_items(v) + seq![']'],
        Form::MapForm(ps) => seq!['{'] + sp_print_entries(ps) + seq!['}'],
        Form::Closure(_) => "<fn>"@,
        Form::Builtin(_) => "<fn_special>"@,
    }
}

/// The elements of a list or vector, separated by single spaces.
pub open spec fn sp_print_items(v: Seq<Form>) -> Seq<char>
    decreases v, 1int, v.len(),
{
    if v.len() == 0 {
        Seq::empty()
    } else if v.len() == 1 {
        sp_print(v[0])
    } else {
        sp_print(v[0]) + seq![' '] + sp_print_items(v.drop_first())
    }
}

/// The entries of a map, `key value` separated by `, `.
pub open spec fn sp_print_entries(ps: Seq<(Seq<char>, Form)>) -> Seq<char>
    decreases ps, 1int, ps.len(),
{
    if ps.len() == 0 {
        Seq::empty()
    } else if ps.len() == 1 {
        sp_print_string(ps[0].0) + seq![' '] + sp_print(ps[0].1)
    } else {
        sp_print_string(ps[0].0) + seq![' '] + sp_print(ps[0].1) + seq![','] + seq![' ']
            + sp_print_entries(ps.drop_first())
    }
}

fn digit_char_exec(d: u64) -> (c: char)
    requires
        d < 10,
    ensures
        c == sp_digit_char(d as int),
{
    if d == 0 {
        '0'
    } else if d == 1 {
        '1'
    } else if d == 2 {
        '2'
    } else if d == 3 {
        '3'
    } else if d == 4 {
        '4'
    } else if d == 5 {
        '5'
    } else if d == 6 {
        '6'
    } else if d == 7 {
        '7'
    } else if d == 8 {
        '8'
    } else {
        '9'
    }
}

fn print_nat(n: u64, out: &mut String)
    ensures
        final(out)@ == old(out)@ + sp_nat_str(n as int),
    decreases n,
{
    if n < 10 {
        out.push(digit_char_exec(n));
        proof {
            assert(old(out)@.push(sp_digit_char(n as int)) =~= old(out)@ + sp_nat_str(n as int));
        }
    } else {
        let ghost mid = old(out)@ + sp_nat_str(n as int / 10);
        print_nat(n / 10, out);
        out.push(digit_char_exec(n % 10));
        proof {
            assert(mid.push(sp_digit_char(n as int % 10)) =~= old(out)@ + sp_nat_str(n as int));
        }
    }
}

fn print_int(n: i64, out: &mut String)
    ensures
        final(out)@ == old(out)@ + sp_int_str(n as int),
{
    if n < 0 {
        let ghost pre = old(out)@;
        out.push('-');
        let mag: u64 = if n == i64::MIN {
            0x8000_0000_0000_0000u64
        } else {
            (-n) as u64
        };
        print_nat(mag, out);
        proof {
            assert(pre.push('-') + sp_nat_str(mag as int) =~= pre + sp_int_str(n as int));
        }
    } else {
        print_nat(n as u64, out);
    }
}

fn print_string(s: &str, out: &mut String)
    ensures
        final(out)@ == old(out)@ + sp_print_string(s@),
{
    let n = s.unicode_len();
    if n >= 2 && s.get_char(0) == KW0 && s.get_char(1) == KW1 {
        let ghost pre = old(out)@;
        out.push(':');
        out.append(s.substring_char(2, n));
        proof {
            assert(pre.push(':') + s@.subrange(2, n as int) =~= pre + sp_print_string(s@));
        }
    } else {
        let ghost pre = old(out)@;
        out.push('"');
        out.append(s);
        out.push('"');
        proof {
            assert((pre.push('"') + s@).push('"') =~= pre + sp_print_string(s@));
        }
    }
}

fn print_form(f: &MalForm, out: &mut String)
    ensures
        final(out)@ == old(out)@ + sp_print(f@),
    decreases f@, 0int, 0int,
{
    let ghost pre = old(out)@;
    match f {
        MalForm::Int(n) => {
            print_int(*n, out);
        },
        MalForm::Bool(b) => {
            if *b {
                out.append("true");
            } else {
                out.append("false");
            }
        },
        MalForm::Nil => {
            out.append("nil");
        },
        MalForm::Symbol(s) => {
            out.append(s.as_str());
        },
        MalForm::Str(s) => {
            print_string(s.as_str(), out);
        },
        MalForm::List(v) => {
            proof {
                assert(forms_of(v@).skip(0) =~= forms_of(v@));
                assert(f@ == Form::List(forms_of(v@)));
                assert(f@->List_0 == forms_of(v@));
                assert(decreases_to!(f@ => f@->List_0));
            }
            out.push('(');
            print_items(v, 0, out);
            out.push(')');
            proof {
                assert(((pre.push('(') + sp_print_items(forms_of(v@))).push(')')) =~= pre
                    + sp_print(f@));
            }
        },
        MalForm::Vector(v) => {
            proof {
                assert(forms_of(v@).skip(0) =~= forms_of(v@));
                assert(f@ == Form::Vector(forms_of(v@)));
                assert(f@->Vector_0 == forms_of(v@));
                assert(decreases_to!(f@ => f@->Vector_0));
            }
            out.push('[');
            print_items(v, 0, out);
            out.push(']');
            proof {
                assert(((pre.push('[') + sp_print_items(forms_of(v@))).push(']')) =~= pre
                    + sp_print(f@));
            }
        },
        MalForm::MapForm(m) => {
            proof {
                assert(pairs_of(m@).skip(0) =~= pairs_of(m@));
                assert(f@ == Form::MapForm(pairs_of(m@)));
                assert(f@->MapForm_0 == pairs_of(m@));
                assert(decreases_to!(f@ => f@->MapForm_0));
            }
            out.push('{');
            print_entries(m, 0, out);
            out.push('}');
            proof {
                assert(((pre.push('{') + sp_print_entries(pairs_of(m@))).push('}')) =~= pre
                    + sp_print(f@));
            }
        },
        MalForm::Closure(_) => {
            out.append("<fn>");
        },
        MalForm::Builtin(_) => {
            out.append("<fn_special>");
        },
    }
}

fn print_items(v: &Vec<MalForm>, start: usize, out: &mut String)
    requires
        start <= v@.len(),
    ensures
        final(out)@ == old(out)@ + sp_print_items(forms_of(v@).skip(start as int)),
    decreases forms_of(v@), 1int, v@.len() - start,
{
    proof {
        lemma_forms_of(v@);
    }
    let ghost items = forms_of(v@).skip(start as int);
    if start >= v.len() {
        proof {
            assert(items =~= Seq::<Form>::empty());
            assert(sp_print_items(items) == Seq::<char>::empty());
            assert(old(out)@ + sp_print_items(items) =~= old(out)@);
        }
        return ;
    }
    proof {
        assert(items[0] == forms_of(v@)[start as int]);
        assert(forms_of(v@)[start as int] == form_view(v@[start as int]));
        assert(decreases_to!(forms_of(v@) => forms_of(v@)[start as int]));
    }
    let ghost pre = old(out)@;
    print_form(&v[start], out);
    if start + 1 < v.len() {
        out.push(' ');
        let ghost mid = pre + sp_print(items[0]) + seq![' '];
        proof {
            assert(out@ =~= mid);
        }
        print_items(v, start + 1, out);
        proof {
            assert(items.drop_first() =~= forms_of(v@).skip(start as int + 1));
            assert(mid + sp_print_items(items.drop_first()) =~= pre + sp_print_items(items));
        }
    } else {
        proof {
            assert(items.len() == 1);
            assert(pre + sp_print(items[0]) =~= pre + sp_print_items(items));
        }
    }
}

fn print_entries(m: &Vec<(String, MalForm)>, start: usize, out: &mut String)
    requires
        start <= m@.len(),
    ensures
        final(out)@ == old(out)@ + sp_print_entries(pairs_of(m@).skip(start as int)),
    decreases pairs_of(m@), 1int, m@.len() - start,
{
    proof {
        lemma_pairs_of(m@);
    }
    let ghost entries = pairs_of(m@).skip(start as int);
    if start >= m.len() {
        proof {
            assert(entries =~= Seq::<(Seq<char>, Form)>::empty());
            assert(sp_print_entries(entries) == Seq::<char>::empty());
            assert(old(out)@ + sp_print_entries(entries) =~= old(out)@);
        }
        return ;
    }
    proof {
        assert(entries[0] == pairs_of(m@)[start as int]);
        assert(pairs_of(m@)[start as int] == (m@[start as int].0@, form_view(m@[start as int].1)));
        assert(decreases_to!(pairs_of(m@) => pairs_of(m@)[start as int]));
        assert(decreases_to!(pairs_of(m@)[start as int] => pairs_of(m@)[start as int].1));
    }
    let ghost pre = old(out)@;
    print_string(m[start].0.as_str(), out);
    out.push(' ');
    let ghost mid1 = pre + sp_print_string(entries[0].0) + seq![' '];
    proof {
        assert(out@ =~= mid1);
    }
    print_form(&m[start].1, out);
    if start + 1 < m.len() {
        out.push(',');
        out.push(' ');
        let ghost mid2 = mid1 + sp_print(entries[0].1) + seq![','] + seq![' '];
        proof {
            assert(out@ =~= mid2);
        }
        print_entries(m, start + 1, out);
        proof {
            assert(entries.drop_first() =~= pairs_of(m@).skip(start as int + 1));
            assert(mid2 + sp_print_entries(entries.drop_first()) =~= pre + sp_print_entries(
                entries,
            ));
        }
    } else {
        proof {
            assert(entries.len() == 1);
            assert(mid1 + sp_print(entries[0].1) =~= pre + sp_print_entries(entries));
        }
    }
}

/// Renders a term as its canonical text.
pub fn pr_str(form: &MalForm) -> (r: String)
    ensures
        r@ == sp_print(form@),
{
    let mut out = String::new();
    print_form(form, &mut out);
    proof {
        assert(out@ =~= sp_print(form@));
    }
    out
}

} // verus!
