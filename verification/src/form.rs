//! The term model: the tagged union of all values the language can hold,
//! its ghost counterpart used in specifications, and the error type.

use vstd::prelude::*;
use vstd::string::*;

verus! {

/// The native operations pre-registered in the default environment.
/// The set is closed by design: integer arithmetic and integer
/// comparison, nothing else.
#[derive(Clone, Copy, Debug, PartialEq, Eq, Structural)]
pub enum BuiltinOp {
    Add,
    Sub,
    Mul,
    Div,
    CmpEq,
    CmpLt,
    CmpLe,
    CmpGt,
    CmpGe,
}

/// A user-defined function value: parameter names, the body forms
/// (evaluated as an implicit `do`), and the index of the captured
/// scope in the environment arena.
#[derive(Debug)]
pub struct MalFn {
    pub params: Vec<String>,
    pub body: Vec<MalForm>,
    pub env: usize,
}

/// The universal value type of the language.
///
/// A term is immutable once constructed: evaluation only produces new
/// terms. A `Str` whose text begins with the two-character keyword
/// prefix (see [`KW0`] and [`KW1`]) is printed as `:name`.
#[derive(Debug)]
pub enum MalForm {
    Int(i64),
    Bool(bool),
    Nil,
    Symbol(String),
    Str(String),
    List(Vec<MalForm>),
    Vector(Vec<MalForm>),
    MapForm(Vec<(String, MalForm)>),
    Closure(MalFn),
    Builtin(BuiltinOp),
}

/// First character of the reserved prefix marking keyword strings.
pub const KW0: char = '\u{0}';

/// Second character of the reserved prefix marking keyword strings.
pub const KW1: char = ':';

/// Ghost counterpart of [`MalFn`].
#[verifier::ext_equal]
pub struct ClosureV {
    pub params: Seq<Seq<char>>,
    pub body: Seq<Form>,
    pub env: int,
}

/// Ghost counterpart of [`MalForm`]: the mathematical model every
/// contract speaks of. Text is a sequence of characters, collections
/// are sequences, integers are unbounded.
#[verifier::ext_equal]
pub enum Form {
    Int(int),
    Bool(bool),
    Nil,
    Symbol(Seq<char>),
    Str(Seq<char>),
    List(Seq<Form>),
    Vector(Seq<Form>),
    MapForm(Seq<(Seq<char>, Form)>),
    Closure(ClosureV),
    Builtin(BuiltinOp),
}

/// The model of a sequence of parameter or binding names.
pub open spec fn strs_of(s: Seq<String>) -> Seq<Seq<char>> {
    s.map_values(|x: String| x@)
}

/// The model of a term.
pub open spec fn form_view(t: MalForm) -> Form
    decreases t, 0int,
{
    match t {
        MalForm::Int(n) => Form::Int(n as int),
        MalForm::Bool(b) => Form::Bool(b),
        MalForm::Nil => Form::Nil,
        MalForm::Symbol(s) => Form::Symbol(s@),
        MalForm::Str(s) => Form::Str(s@),
        MalForm::List(v) => Form::List(forms_of(v@)),
        MalForm::Vector(v) => Form::Vector(forms_of(v@)),
        MalForm::MapForm(m) => Form::MapForm(pairs_of(m@)),
        MalForm::Closure(f) => Form::Closure(fn_view(f)),
        MalForm::Builtin(op) => Form::Builtin(op),
    }
}

/// The model of a sequence of terms, element by element.
pub open spec fn forms_of(s: Seq<MalForm>) -> Seq<Form>
    decreases s, 1int,
{
    if s.len() == 0 {
        Seq::empty()
    } else {
        seq![form_view(s[0])] + forms_of(s.drop_first())
    }
}

/// The model of a sequence of map entries, entry by entry.
pub open spec fn pairs_of(s: Seq<(String, MalForm)>) -> Seq<(Seq<char>, Form)>
    decreases s, 1int,
{
    if s.len() == 0 {
        Seq::empty()
    } else {
        seq![(s[0].0@, form_view(s[0].1))] + pairs_of(s.drop_first())
    }
}

/// The model of a closure value.
pub open spec fn fn_view(f: MalFn) -> ClosureV
    decreases f, 1int,
{
    ClosureV { params: strs_of(f.params@), body: forms_of(f.body@), env: f.env as int }
}

impl View for MalForm {
    type V = Form;

    open spec fn view(&self) -> Form {
        form_view(*self)
    }
}

/// `forms_of` maps `form_view` over the sequence: same length,
/// corresponding elements.
pub broadcast proof fn lemma_forms_of(s: Seq<MalForm>)
    ensures
        (#[trigger] forms_of(s)).len() == s.len(),
        forall|i: int| 0 <= i < s.len() ==> forms_of(s)[i] == form_view(s[i]),
    decreases s.len(),
{
    if s.len() > 0 {
        lemma_forms_of(s.drop_first());
    }
}

/// `pairs_of` maps the entry view over the sequence: same length,
/// corresponding entries.
pub broadcast proof fn lemma_pairs_of(s: Seq<(String, MalForm)>)
    ensures
        (#[trigger] pairs_of(s)).len() == s.len(),
        forall|i: int| 0 <= i < s.len() ==> pairs_of(s)[i] == (s[i].0@, form_view(s[i].1)),
    decreases s.len(),
{
    if s.len() > 0 {
        lemma_pairs_of(s.drop_first());
    }
}

/// Whether an executable outcome models a specified outcome: the same
/// success or failure, with the same model.
pub open spec fn res_form(r: Result<MalForm, MalErr>, s: Result<Form, ErrV>) -> bool {
    match (r, s) {
        (Result::Ok(t), Result::Ok(f)) => form_view(t) == f,
        (Result::Err(e), Result::Err(g)) => err_view(e) == g,
        _ => false,
    }
}

/// Relies on `String::push`: appends the given character to the end
/// of the string.
pub assume_specification[ String::push ](s: &mut String, c: char)
    ensures
        final(s)@ == old(s)@.push(c),
;

/// Character-wise string equality, decided without trusting any
/// derived implementation.
pub fn str_eq(a: &str, b: &str) -> (r: bool)
    ensures
        r == (a@ == b@),
{
    let alen: usize = a.unicode_len();
    let blen: usize = b.unicode_len();
    if alen != blen {
        return false;
    }
    let mut i: usize = 0;
    while i < alen
        invariant
            alen == a@.len(),
            blen == b@.len(),
            alen == blen,
            0 <= i <= alen,
            forall|j: int| 0 <= j < i ==> a@[j] == b@[j],
        decreases alen - i,
    {
        if a.get_char(i) != b.get_char(i) {
            return false;
        }
        i += 1;
    }
    proof {
        assert(a@ =~= b@);
    }
    true
}

fn clone_forms(v: &Vec<MalForm>) -> (res: Vec<MalForm>)
    ensures
        forms_of(res@) == forms_of(v@),
        res@.len() == v@.len(),
    decreases *v, 1int,
{
    let mut out: Vec<MalForm> = Vec::new();
    let mut i: usize = 0;
    while i < v.len()
        invariant
            0 <= i <= v@.len(),
            out@.len() == i,
            forall|j: int| 0 <= j < i ==> form_view(out@[j]) == form_view(v@[j]),
        decreases v@.len() - i,
    {
        let c = v[i].clone();
        out.push(c);
        i += 1;
    }
    proof {
        lemma_forms_of(out@);
        lemma_forms_of(v@);
        assert(forms_of(out@) =~= forms_of(v@));
    }
    out
}

fn clone_pairs(v: &Vec<(String, MalForm)>) -> (res: Vec<(String, MalForm)>)
    ensures
        pairs_of(res@) == pairs_of(v@),
        res@.len() == v@.len(),
    decreases *v, 1int,
{
    let mut out: Vec<(String, MalForm)> = Vec::new();
    let mut i: usize = 0;
    while i < v.len()
        invariant
            0 <= i <= v@.len(),
            out@.len() == i,
            forall|j: int| 0 <= j < i ==> out@[j].0@ == v@[j].0@ && form_view(out@[j].1)
                == form_view(v@[j].1),
        decreases v@.len() - i,
    {
        let k = v[i].0.clone();
        let c = v[i].1.clone();
        out.push((k, c));
        i += 1;
    }
    proof {
        lemma_pairs_of(out@);
        lemma_pairs_of(v@);
        assert(pairs_of(out@) =~= pairs_of(v@));
    }
    out
}

fn clone_strings(v: &Vec<String>) -> (res: Vec<String>)
    ensures
        res@ == v@,
{
    let mut out: Vec<String> = Vec::new();
    let mut i: usize = 0;
    while i < v.len()
        invariant
            0 <= i <= v@.len(),
            out@ == v@.subrange(0, i as int),
        decreases v@.len() - i,
    {
        let s = v[i].clone();
        out.push(s);
        i += 1;
    }
    proof {
        assert(out@ =~= v@);
    }
    out
}

impl Clone for MalFn {
    /// A copy of a closure models the same closure.
    fn clone(&self) -> (res: Self)
        ensures
            fn_view(res) == fn_view(*self),
        decreases *self, 2int,
    {
        MalFn { params: clone_strings(&self.params), body: clone_forms(&self.body), env: self.env }
    }
}

impl Clone for MalForm {
    /// A copy of a term models the same term.
    fn clone(&self) -> (res: Self)
        ensures
            res@ == self@,
        decreases *self, 2int,
    {
        match self {
            MalForm::Int(n) => MalForm::Int(*n),
            MalForm::Bool(b) => MalForm::Bool(*b),
            MalForm::Nil => MalForm::Nil,
            MalForm::Symbol(s) => MalForm::Symbol(s.clone()),
            MalForm::Str(s) => MalForm::Str(s.clone()),
            MalForm::List(v) => MalForm::List(clone_forms(v)),
            MalForm::Vector(v) => MalForm::Vector(clone_forms(v)),
            MalForm::MapForm(m) => MalForm::MapForm(clone_pairs(m)),
            MalForm::Closure(f) => MalForm::Closure(f.clone()),
            MalForm::Builtin(op) => MalForm::Builtin(*op),
        }
    }
}

fn eq_forms(a: &Vec<MalForm>, b: &Vec<MalForm>) -> (r: bool)
    ensures
        r == (forms_of(a@) == forms_of(b@)),
    decreases *a, 1int,
{
    proof {
        lemma_forms_of(a@);
        lemma_forms_of(b@);
    }
    if a.len() != b.len() {
        return false;
    }
    let mut i: usize = 0;
    while i < a.len()
        invariant
            a@.len() == b@.len(),
            0 <= i <= a@.len(),
            forms_of(a@).len() == a@.len(),
            forms_of(b@).len() == b@.len(),
            forall|j: int| 0 <= j < a@.len() ==> forms_of(a@)[j] == form_view(a@[j]),
            forall|j: int| 0 <= j < b@.len() ==> forms_of(b@)[j] == form_view(b@[j]),
            forall|j: int| 0 <= j < i ==> form_view(a@[j]) == form_view(b@[j]),
        decreases a@.len() - i,
    {
        if !a[i].form_eq(&b[i]) {
            proof {
                assert(forms_of(a@)[i as int] != forms_of(b@)[i as int]);
            }
            return false;
        }
        i += 1;
    }
    proof {
        assert(forms_of(a@) =~= forms_of(b@));
    }
    true
}

fn eq_pairs(a: &Vec<(String, MalForm)>, b: &Vec<(String, MalForm)>) -> (r: bool)
    ensures
        r == (pairs_of(a@) == pairs_of(b@)),
    decreases *a, 1int,
{
    proof {
        lemma_pairs_of(a@);
        lemma_pairs_of(b@);
    }
    if a.len() != b.len() {
        return false;
    }
    let mut i: usize = 0;
    while i < a.len()
        invariant
            a@.len() == b@.len(),
            0 <= i <= a@.len(),
            pairs_of(a@).len() == a@.len(),
            pairs_of(b@).len() == b@.len(),
            forall|j: int| 0 <= j < a@.len() ==> pairs_of(a@)[j] == (a@[j].0@, form_view(a@[j].1)),
            forall|j: int| 0 <= j < b@.len() ==> pairs_of(b@)[j] == (b@[j].0@, form_view(b@[j].1)),
            forall|j: int| 0 <= j < i ==> a@[j].0@ == b@[j].0@ && form_view(a@[j].1) == form_view(
                b@[j].1,
            ),
        decreases a@.len() - i,
    {
        if !str_eq(a[i].0.as_str(), b[i].0.as_str()) {
            proof {
                assert(pairs_of(a@)[i as int] != pairs_of(b@)[i as int]);
            }
            return false;
        }
        if !a[i].1.form_eq(&b[i].1) {
            proof {
                assert(pairs_of(a@)[i as int] != pairs_of(b@)[i as int]);
            }
            return false;
        }
        i += 1;
    }
    proof {
        assert(pairs_of(a@) =~= pairs_of(b@));
    }
    true
}

fn eq_strings(a: &Vec<String>, b: &Vec<String>) -> (r: bool)
    ensures
        r == (strs_of(a@) == strs_of(b@)),
{
    if a.len() != b.len() {
        return false;
    }
    let mut i: usize = 0;
    while i < a.len()
        invariant
            a@.len() == b@.len(),
            0 <= i <= a@.len(),
            forall|j: int| 0 <= j < i ==> a@[j]@ == b@[j]@,
        decreases a@.len() - i,
    {
        if !str_eq(a[i].as_str(), b[i].as_str()) {
            proof {
                assert(strs_of(a@)[i as int] != strs_of(b@)[i as int]);
            }
            return false;
        }
        i += 1;
    }
    proof {
        assert(strs_of(a@) =~= strs_of(b@));
    }
    true
}

impl MalForm {
    /// Structural equality of the terms' models: every variant is
    /// compared by contents; closures are equal when parameters, body
    /// and captured scope agree.
    pub fn form_eq(&self, other: &MalForm) -> (r: bool)
        ensures
            r == (self@ == other@),
        decreases *self, 2int,
    {
        match (self, other) {
            (MalForm::Int(a), MalForm::Int(b)) => a == b,
            (MalForm::Bool(a), MalForm::Bool(b)) => a == b,
            (MalForm::Nil, MalForm::Nil) => true,
            (MalForm::Symbol(a), MalForm::Symbol(b)) => str_eq(a.as_str(), b.as_str()),
            (MalForm::Str(a), MalForm::Str(b)) => str_eq(a.as_str(), b.as_str()),
            (MalForm::List(a), MalForm::List(b)) => eq_forms(a, b),
            (MalForm::Vector(a), MalForm::Vector(b)) => eq_forms(a, b),
            (MalForm::MapForm(a), MalForm::MapForm(b)) => eq_pairs(a, b),
            (MalForm::Closure(a), MalForm::Closure(b)) => {
                let pe = eq_strings(&a.params, &b.params);
                let be = eq_forms(&a.body, &b.body);
                pe && be && a.env == b.env
            },
            (MalForm::Builtin(a), MalForm::Builtin(b)) => a == b,
            _ => false,
        }
    }
}

impl PartialEq for MalForm {
    fn eq(&self, other: &MalForm) -> (r: bool) {
        self.form_eq(other)
    }
}

impl vstd::std_specs::cmp::PartialEqSpecImpl for MalForm {
    open spec fn obeys_eq_spec() -> bool {
        true
    }

    open spec fn eq_spec(&self, other: &MalForm) -> bool {
        self@ == other@
    }
}

/// Ghost counterpart of [`MalErr`].
#[verifier::ext_equal]
pub enum ErrV {
    UnexpectedEof,
    Unbalanced,
    UnbalancedString,
    UnknownToken(Seq<char>),
    BadMapKey,
    IntOutOfRange,
    UnboundSymbol(Seq<char>),
    BadSpecialForm(Seq<char>),
    NonBooleanCond,
    NotInvokable,
    ArityMismatch,
    TypeMismatch,
    DivideByZero,
    Overflow,
    DepthLimit,
}

/// The single flat error type: every failure of reading or evaluation
/// is one of these, and every one is recoverable at the top level.
#[derive(Debug, PartialEq)]
pub enum MalErr {
    /// The reader needed a term but the input ended.
    UnexpectedEof,
    /// A `(`, `[` or `{` was never closed.
    Unbalanced,
    /// A string token had no closing double quote.
    UnbalancedString,
    /// A token that no atom grammar accepts.
    UnknownToken(String),
    /// A map key that is not a string-shaped token.
    BadMapKey,
    /// An integer literal outside the signed 64-bit range.
    IntOutOfRange,
    /// A symbol bound in no scope of the chain.
    UnboundSymbol(String),
    /// A special form applied to the wrong number or shape of
    /// arguments; carries the form's name.
    BadSpecialForm(String),
    /// An `if` condition that did not evaluate to a boolean.
    NonBooleanCond,
    /// The head of an evaluated list is neither a closure nor a
    /// builtin.
    NotInvokable,
    /// A closure or builtin applied to the wrong number of arguments.
    ArityMismatch,
    /// A builtin applied to a non-integer argument.
    TypeMismatch,
    /// Integer division by zero.
    DivideByZero,
    /// Arithmetic outside the signed 64-bit range.
    Overflow,
    /// The evaluation depth budget was exhausted.
    DepthLimit,
}

/// The model of an error value.
pub open spec fn err_view(e: MalErr) -> ErrV {
    match e {
        MalErr::UnexpectedEof => ErrV::UnexpectedEof,
        MalErr::Unbalanced => ErrV::Unbalanced,
        MalErr::UnbalancedString => ErrV::UnbalancedString,
        MalErr::UnknownToken(t) => ErrV::UnknownToken(t@),
        MalErr::BadMapKey => ErrV::BadMapKey,
        MalErr::IntOutOfRange => ErrV::IntOutOfRange,
        MalErr::UnboundSymbol(s) => ErrV::UnboundSymbol(s@),
        MalErr::BadSpecialForm(s) => ErrV::BadSpecialForm(s@),
        MalErr::NonBooleanCond => ErrV::NonBooleanCond,
        MalErr::NotInvokable => ErrV::NotInvokable,
        MalErr::ArityMismatch => ErrV::ArityMismatch,
        MalErr::TypeMismatch => ErrV::TypeMismatch,
        MalErr::DivideByZero => ErrV::DivideByZero,
        MalErr::Overflow => ErrV::Overflow,
        MalErr::DepthLimit => ErrV::DepthLimit,
    }
}

impl View for MalErr {
    type V = ErrV;

    open spec fn view(&self) -> ErrV {
        err_view(*self)
    }
}

/// The text of an error's message.
pub open spec fn sp_err_msg(e: ErrV) -> Seq<char> {
    match e {
        ErrV::UnexpectedEof => "Unexpected end of input!"@,
        ErrV::Unbalanced => "unbalanced"@,
        ErrV::UnbalancedString => "unbalanced string"@,
        ErrV::UnknownToken(t) => "unknown token: "@ + t,
        ErrV::BadMapKey => "map key must be a string"@,
        ErrV::IntOutOfRange => "integer literal out of range"@,
        ErrV::UnboundSymbol(s) => "symbol '"@ + s + "' not found"@,
        ErrV::BadSpecialForm(s) => "bad arguments to "@ + s,
        ErrV::NonBooleanCond => "'if' cond_expr should evaluate to bool"@,
        ErrV::NotInvokable => "head of a list is not invokable"@,
        ErrV::ArityMismatch => "wrong number of arguments"@,
        ErrV::TypeMismatch => "not a number"@,
        ErrV::DivideByZero => "division by zero"@,
        ErrV::Overflow => "integer overflow"@,
        ErrV::DepthLimit => "evaluation depth limit reached"@,
    }
}

impl MalErr {
    /// The human-readable message reported to the user.
    pub fn message(&self) -> (r: String)
        ensures
            r@ == sp_err_msg(self@),
    {
        match self {
            MalErr::UnexpectedEof => String::from_str("Unexpected end of input!"),
            MalErr::Unbalanced => String::from_str("unbalanced"),
            MalErr::UnbalancedString => String::from_str("unbalanced string"),
            MalErr::UnknownToken(t) => String::from_str("unknown token: ").concat(t.as_str()),
            MalErr::BadMapKey => String::from_str("map key must be a string"),
            MalErr::IntOutOfRange => String::from_str("integer literal out of range"),
            MalErr::UnboundSymbol(s) => {
                let r = String::from_str("symbol '").concat(s.as_str());
                r.concat("' not found")
            },
            MalErr::BadSpecialForm(s) => String::from_str("bad arguments to ").concat(s.as_str()),
            MalErr::NonBooleanCond => String::from_str("'if' cond_expr should evaluate to bool"),
            MalErr::NotInvokable => String::from_str("head of a list is not invokable"),
            MalErr::ArityMismatch => String::from_str("wrong number of arguments"),
            MalErr::TypeMismatch => String::from_str("not a number"),
            MalErr::DivideByZero => String::from_str("division by zero"),
            MalErr::Overflow => String::from_str("integer overflow"),
            MalErr::DepthLimit => String::from_str("evaluation depth limit reached"),
        }
    }
}

} // verus!
