//! The environment: a chain of scopes mapping names to terms.
//!
//! Scopes live in an arena owned by [`Env`]; the chain is stored as
//! parent indices, which keeps the parent alive for as long as any
//! child or closure refers to it and keeps the chain acyclic by
//! construction (a parent index is always smaller than the child's).

use crate::form::form_view;
use crate::form::forms_of;
use crate::form::lemma_forms_of;
use crate::form::str_eq;
use crate::form::strs_of;
use crate::form::Form;
use crate::form::MalForm;
use vstd::prelude::*;
use vstd::string::*;

verus! {

/// One link of the scope chain: an optional parent index and the
/// bindings made in this scope, newest last.
#[derive(Debug)]
pub struct Scope {
    pub outer: Option<usize>,
    pub names: Vec<String>,
    pub vals: Vec<MalForm>,
}

/// Ghost counterpart of [`Scope`].
#[verifier::ext_equal]
pub struct ScopeV {
    pub outer: Option<int>,
    pub names: Seq<Seq<char>>,
    pub vals: Seq<Form>,
}

/// The model of a scope.
pub open spec fn scope_view(s: Scope) -> ScopeV {
    ScopeV {
        outer: match s.outer {
            Option::None => Option::None,
            Option::Some(o) => Option::Some(o as int),
        },
        names: strs_of(s.names@),
        vals: forms_of(s.vals@),
    }
}

/// A well-formed environment: a root exists, every scope's binding
/// columns line up, and every parent index points strictly downward.
pub open spec fn env_wf(e: Seq<ScopeV>) -> bool {
    &&& e.len() >= 1
    &&& forall|i: int|
        0 <= i < e.len() ==> (#[trigger] e[i]).names.len() == e[i].vals.len()
    &&& forall|i: int|
        0 <= i < e.len() ==> match (#[trigger] e[i]).outer {
            Option::None => true,
            Option::Some(o) => 0 <= o < i,
        }
}

/// Lookup in one scope's bindings: the newest binding of a name
/// shadows older ones.
pub open spec fn sp_assoc(names: Seq<Seq<char>>, vals: Seq<Form>, k: Seq<char>) -> Option<Form>
    decreases names.len(),
{
    if names.len() == 0 || vals.len() == 0 {
        Option::None
    } else if names.last() == k {
        Option::Some(vals.last())
    } else {
        sp_assoc(names.drop_last(), vals.drop_last(), k)
    }
}

/// Lookup along the chain: the current scope first, then its parent,
/// `None` only when no scope in the chain binds the name.
pub open spec fn sp_env_get(e: Seq<ScopeV>, scope: int, k: Seq<char>) -> Option<Form>
    decreases scope,
{
    if !(0 <= scope < e.len()) {
        Option::None
    } else {
        match sp_assoc(e[scope].names, e[scope].vals, k) {
            Option::Some(v) => Option::Some(v),
            Option::None => match e[scope].outer {
                Option::None => Option::None,
                Option::Some(o) => if 0 <= o < scope {
                    sp_env_get(e, o, k)
                } else {
                    Option::None
                },
            },
        }
    }
}

/// The environment after binding `k` to `v` in scope `scope` alone.
pub open spec fn sp_env_define(e: Seq<ScopeV>, scope: int, k: Seq<char>, v: Form) -> Seq<ScopeV> {
    if !(0 <= scope < e.len()) {
        e
    } else {
        e.update(
            scope,
            ScopeV {
                outer: e[scope].outer,
                names: e[scope].names.push(k),
                vals: e[scope].vals.push(v),
            },
        )
    }
}

/// The environment after creating a child scope of `parent`.
pub open spec fn sp_env_child(e: Seq<ScopeV>, parent: int) -> Seq<ScopeV> {
    e.push(ScopeV { outer: Option::Some(parent), names: Seq::empty(), vals: Seq::empty() })
}

/// A binding just made is what lookup finds: defining `k` in a scope
/// and looking `k` up from that scope yields the defined value.
pub proof fn lemma_define_then_get(e: Seq<ScopeV>, scope: int, k: Seq<char>, v: Form)
    requires
        0 <= scope < e.len(),
    ensures
        sp_env_get(sp_env_define(e, scope, k, v), scope, k) == Option::Some(v),
{
    let e2 = sp_env_define(e, scope, k, v);
    assert(e2[scope].names.last() == k);
    assert(e2[scope].vals.last() == v);
}

fn assoc_get(names: &Vec<String>, vals: &Vec<MalForm>, k: &str) -> (r: Option<MalForm>)
    requires
        names@.len() == vals@.len(),
    ensures
        match r {
            Option::Some(t) => sp_assoc(strs_of(names@), forms_of(vals@), k@) == Option::Some(t@),
            Option::None => sp_assoc(strs_of(names@), forms_of(vals@), k@) is None,
        },
{
    proof {
        lemma_forms_of(vals@);
    }
    let ghost sn = strs_of(names@);
    let ghost sv = forms_of(vals@);
    proof {
        assert(sn.subrange(0, sn.len() as int) =~= sn);
        assert(sv.subrange(0, sv.len() as int) =~= sv);
    }
    let mut j: usize = names.len();
    while j > 0
        invariant
            names@.len() == vals@.len(),
            0 <= j <= names@.len(),
            sn == strs_of(names@),
            sv == forms_of(vals@),
            sn.len() == names@.len(),
            sv.len() == vals@.len(),
            forall|i: int| 0 <= i < vals@.len() ==> sv[i] == form_view(vals@[i]),
            sp_assoc(sn, sv, k@) == sp_assoc(
                sn.subrange(0, j as int),
                sv.subrange(0, j as int),
                k@,
            ),
        decreases j,
    {
        let ghost jj = j as int;
        if str_eq(names[j - 1].as_str(), k) {
            let v = vals[j - 1].clone();
            proof {
                assert(sn.subrange(0, jj).last() == k@);
                assert(sv.subrange(0, jj).last() == form_view(vals@[jj - 1]));
            }
            return Option::Some(v);
        }
        j = j - 1;
        proof {
            assert(sn.subrange(0, jj).drop_last() =~= sn.subrange(0, jj - 1));
            assert(sv.subrange(0, jj).drop_last() =~= sv.subrange(0, jj - 1));
            assert(sn.subrange(0, jj).last() == names@[jj - 1]@);
        }
    }
    proof {
        assert(sn.subrange(0, 0) =~= Seq::<Seq<char>>::empty());
        assert(sv.subrange(0, 0) =~= Seq::<Form>::empty());
    }
    Option::None
}

/// The arena of scopes. Scope `0` is the root of the chain; the
/// evaluator allocates further scopes on `let*` and on closure
/// invocation.
#[derive(Debug)]
pub struct Env {
    scopes: Vec<Scope>,
}

impl View for Env {
    type V = Seq<ScopeV>;

    closed spec fn view(&self) -> Seq<ScopeV> {
        self.scopes@.map_values(|s: Scope| scope_view(s))
    }
}

impl Env {
    /// A fresh environment holding only an empty root scope.
    pub fn new() -> (e: Env)
        ensures
            e@ == seq![
                ScopeV { outer: Option::None, names: Seq::empty(), vals: Seq::empty() },
            ],
            env_wf(e@),
    {
        let mut scopes: Vec<Scope> = Vec::new();
        scopes.push(Scope { outer: Option::None, names: Vec::new(), vals: Vec::new() });
        let e = Env { scopes };
        proof {
            assert(e@ =~~= seq![
                ScopeV { outer: Option::None, names: Seq::empty(), vals: Seq::empty() },
            ]);
        }
        e
    }

    /// The number of scopes in the arena.
    pub fn scope_count(&self) -> (n: usize)
        ensures
            n == self@.len(),
    {
        self.scopes.len()
    }

    /// Binds `k` to `v` in scope `scope` alone, inserting or
    /// overwriting: the new binding shadows any older one of the same
    /// name in this scope.
    pub fn set(&mut self, scope: usize, k: &str, v: MalForm)
        requires
            scope < old(self)@.len(),
        ensures
            final(self)@ == sp_env_define(old(self)@, scope as int, k@, v@),
            final(self)@.len() == old(self)@.len(),
            env_wf(old(self)@) ==> env_wf(final(self)@),
    {
        let ghost old_view = self@;
        let name = k.to_owned();
        let sc = &mut self.scopes[scope];
        sc.names.push(name);
        sc.vals.push(v);
        proof {
            lemma_forms_of(old(self).scopes@[scope as int].vals@);
            lemma_forms_of(self.scopes@[scope as int].vals@);
            assert(forms_of(self.scopes@[scope as int].vals@) =~= forms_of(
                old(self).scopes@[scope as int].vals@,
            ).push(v@));
            assert(strs_of(self.scopes@[scope as int].names@) =~= strs_of(
                old(self).scopes@[scope as int].names@,
            ).push(k@));
            assert(self@ =~= sp_env_define(old_view, scope as int, k@, v@));
        }
    }

    /// Looks a name up along the chain, innermost scope first;
    /// `None` exactly when no scope in the chain binds it.
    pub fn get(&self, scope: usize, k: &str) -> (r: Option<MalForm>)
        requires
            env_wf(self@),
            scope < self@.len(),
        ensures
            match r {
                Option::Some(t) => sp_env_get(self@, scope as int, k@) == Option::Some(t@),
                Option::None => sp_env_get(self@, scope as int, k@) is None,
            },
    {
        let mut cur: usize = scope;
        loop
            invariant
                env_wf(self@),
                cur < self@.len(),
                sp_env_get(self@, scope as int, k@) == sp_env_get(self@, cur as int, k@),
            decreases cur,
        {
            let sc = &self.scopes[cur];
            proof {
                assert(self@[cur as int] == scope_view(self.scopes@[cur as int]));
                lemma_forms_of(sc.vals@);
                assert(self@[cur as int].names.len() == self@[cur as int].vals.len());
                assert(sc.names@.len() == sc.vals@.len());
            }
            match assoc_get(&sc.names, &sc.vals, k) {
                Option::Some(v) => {
                    return Option::Some(v);
                },
                Option::None => {
                    match sc.outer {
                        Option::None => {
                            return Option::None;
                        },
                        Option::Some(o) => {
                            cur = o;
                        },
                    }
                },
            }
        }
    }

    /// Creates a child scope whose outer reference is `parent` and
    /// returns its index.
    pub fn with_outer(&mut self, parent: usize) -> (child: usize)
        requires
            parent < old(self)@.len(),
        ensures
            final(self)@ == sp_env_child(old(self)@, parent as int),
            child == old(self)@.len(),
            final(self)@.len() == old(self)@.len() + 1,
            env_wf(old(self)@) ==> env_wf(final(self)@),
    {
        let idx = self.scopes.len();
        self.scopes.push(Scope { outer: Option::Some(parent), names: Vec::new(), vals: Vec::new() });
        proof {
            assert(self@ =~~= sp_env_child(old(self)@, parent as int));
        }
        idx
    }
}

} // verus!
