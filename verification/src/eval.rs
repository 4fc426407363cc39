//! The evaluator: reduces a term to a value against an environment
//! chain, dispatching on the five special forms and applying closures
//! and builtins.
//!
//! Evaluation carries a fuel budget that only closure invocation
//! consumes; when it runs out the evaluation fails with a depth
//! error. This guards the otherwise unbounded recursion through
//! user-defined functions, as the rest of the recursion is structural.

use crate::env::env_wf;
use crate::env::sp_env_child;
use crate::env::sp_env_define;
use crate::env::sp_env_get;
use crate::env::Env;
use crate::env::ScopeV;
use crate::form::err_view;
use crate::form::form_view;
use crate::form::forms_of;
use crate::form::lemma_forms_of;
use crate::form::lemma_pairs_of;
use crate::form::pairs_of;
use crate::form::res_form;
use crate::form::str_eq;
use crate::form::strs_of;
use crate::form::BuiltinOp;
use crate::form::ClosureV;
use crate::form::ErrV;
use crate::form::Form;
use crate::form::MalErr;
use crate::form::MalFn;
use crate::form::MalForm;
use crate::printer::sp_print;
use crate::printer::pr_str;
use crate::reader::read_str;
use crate::reader::sp_read_str;
use vstd::prelude::*;
use vstd::string::*;

verus! {

/// The closure-invocation depth budget of one evaluation.
pub const EVAL_FUEL: u64 = 10000;

/// Truncating integer division, the semantics of the `/` builtin:
/// the quotient is rounded toward zero.
pub open spec fn sp_div_trunc(a: int, b: int) -> int {
    if a >= 0 && b > 0 {
        a / b
    } else if a <= 0 && b < 0 {
        (-a) / (-b)
    } else if a < 0 {
        -((-a) / b)
    } else {
        -(a / (-b))
    }
}

/// One step of an arithmetic fold: the operation applied to the
/// accumulator and the next integer, failing on overflow of the
/// signed 64-bit range and on division by zero.
pub open spec fn sp_arith_step(op: BuiltinOp, a: int, b: int) -> Result<int, ErrV> {
    match op {
        BuiltinOp::Add => {
            let r = a + b;
            if i64::MIN <= r && r <= i64::MAX {
                Result::Ok(r)
            } else {
                Result::Err(ErrV::Overflow)
            }
        },
        BuiltinOp::Sub => {
            let r = a - b;
            if i64::MIN <= r && r <= i64::MAX {
                Result::Ok(r)
            } else {
                Result::Err(ErrV::Overflow)
            }
        },
        BuiltinOp::Mul => {
            let r = a * b;
            if i64::MIN <= r && r <= i64::MAX {
                Result::Ok(r)
            } else {
                Result::Err(ErrV::Overflow)
            }
        },
        BuiltinOp::Div => {
            if b == 0 {
                Result::Err(ErrV::DivideByZero)
            } else if a == i64::MIN && b == -1 {
                Result::Err(ErrV::Overflow)
            } else {
                Result::Ok(sp_div_trunc(a, b))
            }
        },
        _ => Result::Err(ErrV::TypeMismatch),
    }
}

/// A left fold of an arithmetic builtin over the remaining arguments:
/// each must be an integer, and each step must stay in range.
pub open spec fn sp_arith_fold(op: BuiltinOp, acc: int, args: Seq<Form>) -> Result<int, ErrV>
    decreases args.len(),
{
    if args.len() == 0 {
        Result::Ok(acc)
    } else {
        match args[0] {
            Form::Int(n) => match sp_arith_step(op, acc, n) {
                Result::Err(e) => Result::Err(e),
                Result::Ok(r) => sp_arith_fold(op, r, args.drop_first()),
            },
            _ => Result::Err(ErrV::TypeMismatch),
        }
    }
}

/// What a builtin returns on given arguments. `+` and `*` fold over
/// all arguments with identity 0 and 1; `-` and `/` require at least
/// one argument and left-fold from the first. A comparison takes
/// exactly two arguments and is false on any non-integer pair: the
/// tie-break policy is "not equal, not less, not greater".
pub open spec fn sp_apply_builtin(op: BuiltinOp, args: Seq<Form>) -> Result<Form, ErrV> {
    match op {
        BuiltinOp::Add => match sp_arith_fold(op, 0, args) {
            Result::Ok(n) => Result::Ok(Form::Int(n)),
            Result::Err(e) => Result::Err(e),
        },
        BuiltinOp::Mul => match sp_arith_fold(op, 1, args) {
            Result::Ok(n) => Result::Ok(Form::Int(n)),
            Result::Err(e) => Result::Err(e),
        },
        BuiltinOp::Sub | BuiltinOp::Div => {
            if args.len() == 0 {
                Result::Err(ErrV::ArityMismatch)
            } else {
                match args[0] {
                    Form::Int(n) => match sp_arith_fold(op, n, args.drop_first()) {
                        Result::Ok(r) => Result::Ok(Form::Int(r)),
                        Result::Err(e) => Result::Err(e),
                    },
                    _ => Result::Err(ErrV::TypeMismatch),
                }
            }
        },
        _ => {
            if args.len() != 2 {
                Result::Err(ErrV::ArityMismatch)
            } else {
                match (args[0], args[1]) {
                    (Form::Int(a), Form::Int(b)) => Result::Ok(
                        Form::Bool(
                            match op {
                                BuiltinOp::CmpEq => a == b,
                                BuiltinOp::CmpLt => a < b,
                                BuiltinOp::CmpLe => a <= b,
                                BuiltinOp::CmpGt => a > b,
                                _ => a >= b,
                            },
                        ),
                    ),
                    _ => Result::Ok(Form::Bool(false)),
                }
            }
        },
    }
}

/// The outcome of one evaluation: a value or an error, and the
/// environment as it stands afterwards. Bindings made before a
/// failure stay.
pub struct EvalOut {
    pub res: Result<Form, ErrV>,
    pub env: Seq<ScopeV>,
}

/// The outcome of evaluating a sequence of terms element-wise.
pub struct EvalSeqOut {
    pub res: Result<Seq<Form>, ErrV>,
    pub env: Seq<ScopeV>,
}

/// The outcome of evaluating the values of a map's entries.
pub struct EvalMapOut {
    pub res: Result<Seq<(Seq<char>, Form)>, ErrV>,
    pub env: Seq<ScopeV>,
}

/// The outcome of working through a `let*` binding list.
pub struct BindOut {
    pub err: Option<ErrV>,
    pub env: Seq<ScopeV>,
}

/// The parameter names of a `fn*` parameter list, or `None` if one
/// is not a symbol.
pub open spec fn sp_param_names(ps: Seq<Form>) -> Option<Seq<Seq<char>>>
    decreases ps.len(),
{
    if ps.len() == 0 {
        Option::Some(Seq::empty())
    } else {
        match ps[0] {
            Form::Symbol(s) => match sp_param_names(ps.drop_first()) {
                Option::Some(rest) => Option::Some(seq![s] + rest),
                Option::None => Option::None,
            },
            _ => Option::None,
        }
    }
}

/// What a `fn*` form produces: a closure capturing the current
/// scope, the parameter names, and the body forms.
pub open spec fn sp_make_fn(scope: int, v: Seq<Form>) -> Result<Form, ErrV> {
    if v.len() < 2 {
        Result::Err(ErrV::BadSpecialForm("fn*"@))
    } else {
        let ps = match v[1] {
            Form::List(ps) => Option::Some(ps),
            Form::Vector(ps) => Option::Some(ps),
            _ => Option::None,
        };
        match ps {
            Option::None => Result::Err(ErrV::BadSpecialForm("fn*"@)),
            Option::Some(ps) => match sp_param_names(ps) {
                Option::None => Result::Err(ErrV::BadSpecialForm("fn*"@)),
                Option::Some(names) => Result::Ok(
                    Form::Closure(ClosureV { params: names, body: v.skip(2), env: scope }),
                ),
            },
        }
    }
}

/// The environment after binding each parameter positionally to the
/// corresponding argument in scope `scope`.
pub open spec fn sp_bind_params(
    env: Seq<ScopeV>,
    scope: int,
    params: Seq<Seq<char>>,
    args: Seq<Form>,
    k: int,
) -> Seq<ScopeV>
    decreases params.len() - k,
        when 0 <= k <= params.len()
{
    if k >= params.len() || k >= args.len() {
        env
    } else {
        sp_bind_params(sp_env_define(env, scope, params[k], args[k]), scope, params, args, k + 1)
    }
}

/// Evaluates one term. Dispatch: a non-list delegates to
/// [`sp_eval_ast`]; an empty list evaluates to itself; a list headed
/// by a special-form symbol is handled by that form; any other list
/// is evaluated element-wise and its head applied to the rest.
pub open spec fn sp_eval(fuel: nat, env: Seq<ScopeV>, scope: int, f: Form) -> EvalOut
    decreases fuel, f, 1int, 0int,
{
    match f {
        Form::List(v) => {
            if v.len() == 0 {
                EvalOut { res: Result::Ok(f), env }
            } else if v[0] == Form::Symbol("do"@) {
                sp_eval_do(fuel, env, scope, v.drop_first())
            } else if v[0] == Form::Symbol("fn*"@) {
                EvalOut { res: sp_make_fn(scope, v), env }
            } else if v[0] == Form::Symbol("if"@) {
                if v.len() < 3 {
                    EvalOut { res: Result::Err(ErrV::BadSpecialForm("if"@)), env }
                } else {
                    let c = sp_eval(fuel, env, scope, v[1]);
                    match c.res {
                        Result::Err(e) => EvalOut { res: Result::Err(e), env: c.env },
                        Result::Ok(Form::Bool(b)) => if b {
                            sp_eval(fuel, c.env, scope, v[2])
                        } else {
                            sp_eval_do(fuel, c.env, scope, v.skip(3))
                        },
                        Result::Ok(_) => EvalOut {
                            res: Result::Err(ErrV::NonBooleanCond),
                            env: c.env,
                        },
                    }
                }
            } else if v[0] == Form::Symbol("def!"@) {
                if v.len() != 3 {
                    EvalOut { res: Result::Err(ErrV::BadSpecialForm("def!"@)), env }
                } else {
                    match v[1] {
                        Form::Symbol(name) => {
                            let r = sp_eval(fuel, env, scope, v[2]);
                            match r.res {
                                Result::Err(e) => EvalOut { res: Result::Err(e), env: r.env },
                                Result::Ok(val) => EvalOut {
                                    res: Result::Ok(val),
                                    env: sp_env_define(r.env, scope, name, val),
                                },
                            }
                        },
                        _ => EvalOut { res: Result::Err(ErrV::BadSpecialForm("def!"@)), env },
                    }
                }
            } else if v[0] == Form::Symbol("let*"@) {
                sp_eval_let(fuel, env, scope, v)
            } else {
                let r = sp_eval_seq(fuel, env, scope, v);
                match r.res {
                    Result::Err(e) => EvalOut { res: Result::Err(e), env: r.env },
                    Result::Ok(vals) => match vals[0] {
                        Form::Builtin(op) => EvalOut {
                            res: sp_apply_builtin(op, vals.drop_first()),
                            env: r.env,
                        },
                        Form::Closure(c) => if fuel == 0 {
                            EvalOut { res: Result::Err(ErrV::DepthLimit), env: r.env }
                        } else {
                            sp_invoke((fuel - 1) as nat, r.env, c, vals.drop_first())
                        },
                        _ => EvalOut { res: Result::Err(ErrV::NotInvokable), env: r.env },
                    },
                }
            }
        },
        _ => sp_eval_ast(fuel, env, scope, f),
    }
}

/// Evaluates the sub-terms of a non-special shape: a symbol is looked
/// up, the elements of a list or vector and the values of a map are
/// evaluated left to right, and every other term evaluates to itself.
pub open spec fn sp_eval_ast(fuel: nat, env: Seq<ScopeV>, scope: int, f: Form) -> EvalOut
    decreases fuel, f, 0int, 0int,
{
    match f {
        Form::Symbol(s) => match sp_env_get(env, scope, s) {
            Option::Some(v) => EvalOut { res: Result::Ok(v), env },
            Option::None => EvalOut { res: Result::Err(ErrV::UnboundSymbol(s)), env },
        },
        Form::List(v) => {
            let r = sp_eval_seq(fuel, env, scope, v);
            EvalOut {
                res: match r.res {
                    Result::Ok(vals) => Result::Ok(Form::List(vals)),
                    Result::Err(e) => Result::Err(e),
                },
                env: r.env,
            }
        },
        Form::Vector(v) => {
            let r = sp_eval_seq(fuel, env, scope, v);
            EvalOut {
                res: match r.res {
                    Result::Ok(vals) => Result::Ok(Form::Vector(vals)),
                    Result::Err(e) => Result::Err(e),
                },
                env: r.env,
            }
        },
        Form::MapForm(ps) => {
            let r = sp_eval_map(fuel, env, scope, ps);
            EvalOut {
                res: match r.res {
                    Result::Ok(es) => Result::Ok(Form::MapForm(es)),
                    Result::Err(e) => Result::Err(e),
                },
                env: r.env,
            }
        },
        _ => EvalOut { res: Result::Ok(f), env },
    }
}

/// Evaluates terms left to right, threading the environment; the
/// first error stops the walk and is the result.
pub open spec fn sp_eval_seq(fuel: nat, env: Seq<ScopeV>, scope: int, fs: Seq<Form>) -> EvalSeqOut
    decreases fuel, fs, 0int, 0int,
{
    if fs.len() == 0 {
        EvalSeqOut { res: Result::Ok(Seq::empty()), env }
    } else {
        let r = sp_eval(fuel, env, scope, fs[0]);
        match r.res {
            Result::Err(e) => EvalSeqOut { res: Result::Err(e), env: r.env },
            Result::Ok(v) => {
                let rest = sp_eval_seq(fuel, r.env, scope, fs.drop_first());
                EvalSeqOut {
                    res: match rest.res {
                        Result::Ok(vs) => Result::Ok(seq![v] + vs),
                        Result::Err(e) => Result::Err(e),
                    },
                    env: rest.env,
                }
            },
        }
    }
}

/// Evaluates terms left to right and keeps the last value, or `Nil`
/// when there are none: the meaning of `do`, of an implicit else
/// body, and of a function body.
pub open spec fn sp_eval_do(fuel: nat, env: Seq<ScopeV>, scope: int, fs: Seq<Form>) -> EvalOut
    decreases fuel, fs, 1int, 0int,
{
    let r = sp_eval_seq(fuel, env, scope, fs);
    match r.res {
        Result::Err(e) => EvalOut { res: Result::Err(e), env: r.env },
        Result::Ok(vs) => EvalOut {
            res: Result::Ok(
                if vs.len() == 0 {
                    Form::Nil
                } else {
                    vs.last()
                },
            ),
            env: r.env,
        },
    }
}

/// Evaluates the values of a map's entries left to right, keeping the
/// keys.
pub open spec fn sp_eval_map(
    fuel: nat,
    env: Seq<ScopeV>,
    scope: int,
    ps: Seq<(Seq<char>, Form)>,
) -> EvalMapOut
    decreases fuel, ps, 0int, 0int,
{
    if ps.len() == 0 {
        EvalMapOut { res: Result::Ok(Seq::empty()), env }
    } else {
        let r = sp_eval(fuel, env, scope, ps[0].1);
        match r.res {
            Result::Err(e) => EvalMapOut { res: Result::Err(e), env: r.env },
            Result::Ok(v) => {
                let rest = sp_eval_map(fuel, r.env, scope, ps.drop_first());
                EvalMapOut {
                    res: match rest.res {
                        Result::Ok(es) => Result::Ok(seq![(ps[0].0, v)] + es),
                        Result::Err(e) => Result::Err(e),
                    },
                    env: rest.env,
                }
            },
        }
    }
}

/// Works through a `let*` binding list pairwise: each name must be a
/// symbol, each value is evaluated in the new scope itself, so later
/// bindings see earlier ones; an odd-length list is malformed.
pub open spec fn sp_eval_binds(
    fuel: nat,
    env: Seq<ScopeV>,
    scope: int,
    binds: Seq<Form>,
    k: int,
) -> BindOut
    decreases fuel, binds, 0int, binds.len() - k,
        when 0 <= k <= binds.len()
{
    if k >= binds.len() {
        BindOut { err: Option::None, env }
    } else if k + 1 >= binds.len() {
        BindOut { err: Option::Some(ErrV::BadSpecialForm("let*"@)), env }
    } else {
        match binds[k] {
            Form::Symbol(name) => {
                let r = sp_eval(fuel, env, scope, binds[k + 1]);
                match r.res {
                    Result::Err(e) => BindOut { err: Option::Some(e), env: r.env },
                    Result::Ok(val) => sp_eval_binds(
                        fuel,
                        sp_env_define(r.env, scope, name, val),
                        scope,
                        binds,
                        k + 2,
                    ),
                }
            },
            _ => BindOut { err: Option::Some(ErrV::BadSpecialForm("let*"@)), env },
        }
    }
}

/// The `let*` form: a child scope is created, the binding list is
/// worked through in it, and the body is evaluated there as an
/// implicit `do`.
pub open spec fn sp_eval_let(fuel: nat, env: Seq<ScopeV>, scope: int, v: Seq<Form>) -> EvalOut
    decreases fuel, v, 0int, 0int,
{
    if v.len() < 2 {
        EvalOut { res: Result::Err(ErrV::BadSpecialForm("let*"@)), env }
    } else {
        let binds = match v[1] {
            Form::List(b) => Option::Some(b),
            Form::Vector(b) => Option::Some(b),
            _ => Option::None,
        };
        match binds {
            Option::None => EvalOut { res: Result::Err(ErrV::BadSpecialForm("let*"@)), env },
            Option::Some(b) => {
                let child = env.len() as int;
                let env1 = sp_env_child(env, scope);
                let br = sp_eval_binds(fuel, env1, child, b, 0);
                match br.err {
                    Option::Some(e) => EvalOut { res: Result::Err(e), env: br.env },
                    Option::None => sp_eval_do(fuel, br.env, child, v.skip(2)),
                }
            },
        }
    }
}

/// Closure invocation: exactly as many arguments as parameters, each
/// bound positionally in a child scope of the captured environment,
/// then the body evaluated there. The bounds test on the captured
/// index only keeps the definition total; the arena never shrinks, so
/// a captured index is always in range.
pub open spec fn sp_invoke(fuel: nat, env: Seq<ScopeV>, c: ClosureV, args: Seq<Form>) -> EvalOut
    decreases fuel, c.body, 2int, 0int,
{
    if c.params.len() != args.len() {
        EvalOut { res: Result::Err(ErrV::ArityMismatch), env }
    } else if !(0 <= c.env < env.len()) {
        EvalOut { res: Result::Err(ErrV::NotInvokable), env }
    } else {
        let child = env.len() as int;
        let env1 = sp_env_child(env, c.env);
        let env2 = sp_bind_params(env1, child, c.params, args, 0);
        sp_eval_do(fuel, env2, child, c.body)
    }
}

fn div_trunc(a: i64, b: i64) -> (q: i64)
    requires
        b != 0,
        !(a == i64::MIN && b == -1),
    ensures
        q as int == sp_div_trunc(a as int, b as int),
{
    let ua: u64 = if a < 0 {
        if a == i64::MIN {
            0x8000_0000_0000_0000u64
        } else {
            (-a) as u64
        }
    } else {
        a as u64
    };
    let ub: u64 = if b < 0 {
        if b == i64::MIN {
            0x8000_0000_0000_0000u64
        } else {
            (-b) as u64
        }
    } else {
        b as u64
    };
    let uq: u64 = ua / ub;
    proof {
        vstd::arithmetic::div_mod::lemma_fundamental_div_mod(ua as int, ub as int);
        assert(uq as int <= ua as int) by (nonlinear_arith)
            requires
                uq as int * ub as int <= ua as int,
                ub as int >= 1,
                uq as int >= 0,
        ;
        if a == i64::MIN && b < 0 {
            assert(ub as int >= 2);
            assert(uq as int * 2 <= ua as int) by (nonlinear_arith)
                requires
                    uq as int * ub as int <= ua as int,
                    ub as int >= 2,
                    uq as int >= 0,
            ;
        }
    }
    if (a < 0) != (b < 0) {
        if uq == 0x8000_0000_0000_0000u64 {
            i64::MIN
        } else {
            -(uq as i64)
        }
    } else {
        uq as i64
    }
}

fn arith_step(op: BuiltinOp, acc: i64, n: i64) -> (r: Result<i64, MalErr>)
    ensures
        match (r, sp_arith_step(op, acc as int, n as int)) {
            (Result::Ok(a), Result::Ok(b)) => a as int == b,
            (Result::Err(e), Result::Err(g)) => err_view(e) == g,
            _ => false,
        },
{
    match op {
        BuiltinOp::Add => {
            let wide: i128 = acc as i128 + n as i128;
            if wide < i64::MIN as i128 || wide > i64::MAX as i128 {
                Result::Err(MalErr::Overflow)
            } else {
                Result::Ok(wide as i64)
            }
        },
        BuiltinOp::Sub => {
            let wide: i128 = acc as i128 - n as i128;
            if wide < i64::MIN as i128 || wide > i64::MAX as i128 {
                Result::Err(MalErr::Overflow)
            } else {
                Result::Ok(wide as i64)
            }
        },
        BuiltinOp::Mul => {
            proof {
                assert(-0x8000_0000_0000_0000 * 0x8000_0000_0000_0000 <= acc as int * n as int
                    <= 0x8000_0000_0000_0000 * 0x8000_0000_0000_0000) by (nonlinear_arith)
                    requires
                        -0x8000_0000_0000_0000 <= acc as int <= 0x7fff_ffff_ffff_ffff,
                        -0x8000_0000_0000_0000 <= n as int <= 0x7fff_ffff_ffff_ffff,
                ;
            }
            let wide: i128 = acc as i128 * n as i128;
            if wide < i64::MIN as i128 || wide > i64::MAX as i128 {
                Result::Err(MalErr::Overflow)
            } else {
                Result::Ok(wide as i64)
            }
        },
        BuiltinOp::Div => {
            if n == 0 {
                Result::Err(MalErr::DivideByZero)
            } else if acc == i64::MIN && n == -1 {
                Result::Err(MalErr::Overflow)
            } else {
                Result::Ok(div_trunc(acc, n))
            }
        },
        _ => Result::Err(MalErr::TypeMismatch),
    }
}

fn arith_fold(op: BuiltinOp, acc0: i64, args: &Vec<MalForm>, k: usize) -> (r: Result<i64, MalErr>)
    requires
        k <= args@.len(),
    ensures
        match (r, sp_arith_fold(op, acc0 as int, forms_of(args@).skip(k as int))) {
            (Result::Ok(a), Result::Ok(b)) => a as int == b,
            (Result::Err(e), Result::Err(g)) => err_view(e) == g,
            _ => false,
        },
{
    proof {
        lemma_forms_of(args@);
    }
    let ghost full = forms_of(args@);
    let mut acc: i64 = acc0;
    let mut i: usize = k;
    while i < args.len()
        invariant
            k <= i <= args@.len(),
            full == forms_of(args@),
            full.len() == args@.len(),
            forall|j: int| 0 <= j < args@.len() ==> full[j] == form_view(args@[j]),
            sp_arith_fold(op, acc0 as int, full.skip(k as int)) == sp_arith_fold(
                op,
                acc as int,
                full.skip(i as int),
            ),
        decreases args@.len() - i,
    {
        proof {
            assert(full.skip(i as int)[0] == full[i as int]);
            assert(full.skip(i as int).drop_first() =~= full.skip(i as int + 1));
        }
        match &args[i] {
            MalForm::Int(n) => {
                match arith_step(op, acc, *n) {
                    Result::Ok(a) => {
                        acc = a;
                    },
                    Result::Err(e) => {
                        return Result::Err(e);
                    },
                }
            },
            _ => {
                return Result::Err(MalErr::TypeMismatch);
            },
        }
        i += 1;
    }
    proof {
        assert(full.skip(args@.len() as int) =~= Seq::<Form>::empty());
    }
    Result::Ok(acc)
}

fn apply_builtin(op: BuiltinOp, args: &Vec<MalForm>, start: usize) -> (r: Result<MalForm, MalErr>)
    requires
        start <= args@.len(),
    ensures
        res_form(r, sp_apply_builtin(op, forms_of(args@).skip(start as int))),
{
    proof {
        lemma_forms_of(args@);
    }
    let ghost fs = forms_of(args@).skip(start as int);
    match op {
        BuiltinOp::Add => {
            match arith_fold(op, 0, args, start) {
                Result::Ok(n) => Result::Ok(MalForm::Int(n)),
                Result::Err(e) => Result::Err(e),
            }
        },
        BuiltinOp::Mul => {
            match arith_fold(op, 1, args, start) {
                Result::Ok(n) => Result::Ok(MalForm::Int(n)),
                Result::Err(e) => Result::Err(e),
            }
        },
        BuiltinOp::Sub | BuiltinOp::Div => {
            if start >= args.len() {
                proof {
                    assert(fs.len() == 0);
                }
                Result::Err(MalErr::ArityMismatch)
            } else {
                proof {
                    assert(fs[0] == forms_of(args@)[start as int]);
                    assert(fs.drop_first() =~= forms_of(args@).skip(start as int + 1));
                }
                match &args[start] {
                    MalForm::Int(n) => {
                        match arith_fold(op, *n, args, start + 1) {
                            Result::Ok(r) => Result::Ok(MalForm::Int(r)),
                            Result::Err(e) => Result::Err(e),
                        }
                    },
                    _ => Result::Err(MalErr::TypeMismatch),
                }
            }
        },
        _ => {
            if args.len() - start != 2 {
                Result::Err(MalErr::ArityMismatch)
            } else {
                proof {
                    assert(fs[0] == forms_of(args@)[start as int]);
                    assert(fs[1] == forms_of(args@)[start as int + 1]);
                }
                let first_int: Option<i64> = match &args[start] {
                    MalForm::Int(a) => Option::Some(*a),
                    _ => Option::None,
                };
                let second_int: Option<i64> = match &args[start + 1] {
                    MalForm::Int(b) => Option::Some(*b),
                    _ => Option::None,
                };
                match (first_int, second_int) {
                    (Option::Some(a), Option::Some(b)) => {
                        let res: bool = match op {
                            BuiltinOp::CmpEq => a == b,
                            BuiltinOp::CmpLt => a < b,
                            BuiltinOp::CmpLe => a <= b,
                            BuiltinOp::CmpGt => a > b,
                            _ => a >= b,
                        };
                        Result::Ok(MalForm::Bool(res))
                    },
                    _ => Result::Ok(MalForm::Bool(false)),
                }
            }
        },
    }
}

proof fn lemma_param_names_none(ps: Seq<Form>, i: int)
    requires
        0 <= i < ps.len(),
        !(ps[i] is Symbol),
    ensures
        sp_param_names(ps) is None,
    decreases ps.len(),
{
    if i > 0 {
        assert(ps.drop_first()[i - 1] == ps[i]);
        lemma_param_names_none(ps.drop_first(), i - 1);
    }
}

proof fn lemma_param_names_all(ps: Seq<Form>, names: Seq<Seq<char>>)
    requires
        names.len() == ps.len(),
        forall|j: int| 0 <= j < ps.len() ==> ps[j] == Form::Symbol(#[trigger] names[j]),
    ensures
        sp_param_names(ps) == Option::Some(names),
    decreases ps.len(),
{
    if ps.len() == 0 {
        assert(names =~= Seq::<Seq<char>>::empty());
    } else {
        assert forall|j: int| 0 <= j < ps.drop_first().len() implies ps.drop_first()[j]
            == Form::Symbol(#[trigger] names.drop_first()[j]) by {
            assert(ps.drop_first()[j] == ps[j + 1]);
            assert(names.drop_first()[j] == names[j + 1]);
        }
        lemma_param_names_all(ps.drop_first(), names.drop_first());
        assert(ps[0] == Form::Symbol(names[0]));
        assert(seq![names[0]] + names.drop_first() =~= names);
    }
}

fn make_fn(scope: usize, v: &Vec<MalForm>) -> (r: Result<MalForm, MalErr>)
    ensures
        res_form(r, sp_make_fn(scope as int, forms_of(v@))),
{
    proof {
        lemma_forms_of(v@);
    }
    let ghost vf = forms_of(v@);
    if v.len() < 2 {
        return Result::Err(MalErr::BadSpecialForm(String::from_str("fn*")));
    }
    let ps_opt: Option<&Vec<MalForm>> = match &v[1] {
        MalForm::List(p) => Option::Some(p),
        MalForm::Vector(p) => Option::Some(p),
        _ => Option::None,
    };
    match ps_opt {
        Option::None => Result::Err(MalErr::BadSpecialForm(String::from_str("fn*"))),
        Option::Some(p) => {
            proof {
                lemma_forms_of(p@);
                assert(vf[1] == form_view(v@[1]));
                match v@[1] {
                    MalForm::List(bb) => {
                        assert(vf[1]->List_0 == forms_of(p@));
                    },
                    MalForm::Vector(bb) => {
                        assert(vf[1]->Vector_0 == forms_of(p@));
                    },
                    _ => {},
                }
            }
            let ghost pf = forms_of(p@);
            let mut names: Vec<String> = Vec::new();
            let mut i: usize = 0;
            while i < p.len()
                invariant
                    0 <= i <= p@.len(),
                    v@.len() >= 2,
                    vf == forms_of(v@),
                    vf.len() == v@.len(),
                    vf[1] == Form::List(pf) || vf[1] == Form::Vector(pf),
                    pf == forms_of(p@),
                    pf.len() == p@.len(),
                    forall|j: int| 0 <= j < p@.len() ==> pf[j] == form_view(p@[j]),
                    names@.len() == i,
                    forall|j: int|
                        0 <= j < i ==> pf[j] == Form::Symbol(#[trigger] strs_of(names@)[j]),
                decreases p@.len() - i,
            {
                let ghost prev = names@;
                match &p[i] {
                    MalForm::Symbol(s) => {
                        names.push(s.clone());
                        proof {
                            assert forall|j: int| 0 <= j < i + 1 implies pf[j] == Form::Symbol(
                                #[trigger] strs_of(names@)[j],
                            ) by {
                                assert(strs_of(names@)[j] == names@[j]@);
                                if j < i {
                                    assert(names@[j] == prev[j]);
                                    assert(strs_of(prev)[j] == prev[j]@);
                                } else {
                                    assert(pf[j] == form_view(p@[j]));
                                }
                            }
                        }
                    },
                    _ => {
                        proof {
                            lemma_param_names_none(pf, i as int);
                        }
                        return Result::Err(MalErr::BadSpecialForm(String::from_str("fn*")));
                    },
                }
                i += 1;
            }
            proof {
                lemma_param_names_all(pf, strs_of(names@));
            }
            let mut body: Vec<MalForm> = Vec::new();
            let mut j: usize = 2;
            while j < v.len()
                invariant
                    2 <= j <= v@.len() || (v@.len() < 2 && j == 2),
                    v@.len() >= 2,
                    vf == forms_of(v@),
                    vf.len() == v@.len(),
                    forall|jj: int| 0 <= jj < v@.len() ==> vf[jj] == form_view(v@[jj]),
                    body@.len() == j - 2,
                    forall|jj: int|
                        0 <= jj < j - 2 ==> form_view(body@[jj]) == vf[jj + 2],
                decreases v@.len() - j,
            {
                let c = v[j].clone();
                body.push(c);
                j += 1;
            }
            proof {
                lemma_forms_of(body@);
                assert(forms_of(body@) =~= vf.skip(2));
            }
            Result::Ok(MalForm::Closure(MalFn { params: names, body, env: scope }))
        },
    }
}

fn bind_params(env: &mut Env, scope: usize, params: &Vec<String>, args: &Vec<MalForm>, start: usize)
    requires
        env_wf(old(env)@),
        scope < old(env)@.len(),
        start <= args@.len(),
        params@.len() == args@.len() - start,
    ensures
        final(env)@ == sp_bind_params(
            old(env)@,
            scope as int,
            strs_of(params@),
            forms_of(args@).skip(start as int),
            0,
        ),
        env_wf(final(env)@),
        final(env)@.len() == old(env)@.len(),
{
    proof {
        lemma_forms_of(args@);
    }
    let ghost pv = strs_of(params@);
    let ghost av = forms_of(args@).skip(start as int);
    let mut k: usize = 0;
    let alen: usize = args.len();
    proof {
        assert(av.len() == params@.len());
    }
    while k < params.len()
        invariant
            alen == args@.len(),
            env_wf(env@),
            scope < env@.len(),
            env@.len() == old(env)@.len(),
            0 <= k <= params@.len(),
            pv == strs_of(params@),
            av == forms_of(args@).skip(start as int),
            av.len() == params@.len(),
            start + params@.len() <= args@.len(),
            forall|j: int| 0 <= j < params@.len() ==> av[j] == form_view(args@[start + j]),
            sp_bind_params(old(env)@, scope as int, pv, av, 0) == sp_bind_params(
                env@,
                scope as int,
                pv,
                av,
                k as int,
            ),
        decreases params@.len() - k,
    {
        let val = args[start + k].clone();
        env.set(scope, params[k].as_str(), val);
        k += 1;
    }
}

/// Applies a closure: binds each parameter positionally to the
/// corresponding argument in a fresh child scope of the captured
/// environment, then evaluates the body there as an implicit `do`.
/// Supplying a number of arguments other than the parameter count is
/// an arity error.
fn invoke(env: &mut Env, f: &MalFn, args: &Vec<MalForm>, start: usize, fuel: u64) -> (r: Result<
    MalForm,
    MalErr,
>)
    requires
        env_wf(old(env)@),
        start <= args@.len(),
    ensures
        ({
            let o = sp_invoke(
                fuel as nat,
                old(env)@,
                crate::form::fn_view(*f),
                forms_of(args@).skip(start as int),
            );
            &&& final(env)@ == o.env
            &&& res_form(r, o.res)
        }),
        env_wf(final(env)@),
        old(env)@.len() <= final(env)@.len(),
    decreases fuel, forms_of(f.body@), 2int, 0int,
{
    proof {
        lemma_forms_of(args@);
    }
    let ghost c = crate::form::fn_view(*f);
    let ghost av = forms_of(args@).skip(start as int);
    if f.params.len() != args.len() - start {
        return Result::Err(MalErr::ArityMismatch);
    }
    if f.env >= env.scope_count() {
        return Result::Err(MalErr::NotInvokable);
    }
    let child = env.with_outer(f.env);
    bind_params(env, child, &f.params, args, start);
    proof {
        assert(forms_of(f.body@).skip(0) =~= forms_of(f.body@));
    }
    eval_do(env, child, &f.body, 0, fuel)
}

/// Evaluates the sub-terms of a non-special shape: a symbol is looked
/// up in the environment, list and vector elements and map values are
/// evaluated left to right, and every other term evaluates to itself.
pub fn eval_ast(env: &mut Env, scope: usize, form: &MalForm, fuel: u64) -> (r: Result<
    MalForm,
    MalErr,
>)
    requires
        env_wf(old(env)@),
        scope < old(env)@.len(),
    ensures
        ({
            let o = sp_eval_ast(fuel as nat, old(env)@, scope as int, form@);
            &&& final(env)@ == o.env
            &&& res_form(r, o.res)
        }),
        env_wf(final(env)@),
        old(env)@.len() <= final(env)@.len(),
    decreases fuel, form@, 0int, 0int,
{
    match form {
        MalForm::Symbol(s) => {
            match env.get(scope, s.as_str()) {
                Option::Some(v) => Result::Ok(v),
                Option::None => Result::Err(MalErr::UnboundSymbol(s.clone())),
            }
        },
        MalForm::List(v) => {
            proof {
                assert(form@->List_0 == forms_of(v@));
                assert(decreases_to!(form@ => form@->List_0));
                assert(forms_of(v@).skip(0) =~= forms_of(v@));
            }
            match eval_seq(env, scope, v, 0, fuel) {
                Result::Ok(vals) => Result::Ok(MalForm::List(vals)),
                Result::Err(e) => Result::Err(e),
            }
        },
        MalForm::Vector(v) => {
            proof {
                assert(form@->Vector_0 == forms_of(v@));
                assert(decreases_to!(form@ => form@->Vector_0));
                assert(forms_of(v@).skip(0) =~= forms_of(v@));
            }
            match eval_seq(env, scope, v, 0, fuel) {
                Result::Ok(vals) => Result::Ok(MalForm::Vector(vals)),
                Result::Err(e) => Result::Err(e),
            }
        },
        MalForm::MapForm(m) => {
            proof {
                assert(form@->MapForm_0 == pairs_of(m@));
                assert(decreases_to!(form@ => form@->MapForm_0));
                assert(pairs_of(m@).skip(0) =~= pairs_of(m@));
            }
            match eval_map(env, scope, m, 0, fuel) {
                Result::Ok(es) => Result::Ok(MalForm::MapForm(es)),
                Result::Err(e) => Result::Err(e),
            }
        },
        _ => Result::Ok(form.clone()),
    }
}

fn eval_seq(env: &mut Env, scope: usize, v: &Vec<MalForm>, start: usize, fuel: u64) -> (out:
    Result<Vec<MalForm>, MalErr>)
    requires
        env_wf(old(env)@),
        scope < old(env)@.len(),
        start <= v@.len(),
    ensures
        ({
            let o = sp_eval_seq(
                fuel as nat,
                old(env)@,
                scope as int,
                forms_of(v@).skip(start as int),
            );
            &&& final(env)@ == o.env
            &&& match (out, o.res) {
                (Result::Ok(rv), Result::Ok(fs2)) => forms_of(rv@) == fs2 && rv@.len() == v@.len()
                    - start,
                (Result::Err(e), Result::Err(g)) => err_view(e) == g,
                _ => false,
            }
        }),
        env_wf(final(env)@),
        old(env)@.len() <= final(env)@.len(),
    decreases fuel, forms_of(v@), 0int, v@.len() - start,
{
    proof {
        lemma_forms_of(v@);
    }
    let ghost fs = forms_of(v@).skip(start as int);
    if start >= v.len() {
        proof {
            assert(fs =~= Seq::<Form>::empty());
        }
        let empty: Vec<MalForm> = Vec::new();
        proof {
            assert(forms_of(empty@) =~= Seq::<Form>::empty());
        }
        return Result::Ok(empty);
    }
    proof {
        assert(fs[0] == forms_of(v@)[start as int]);
        assert(decreases_to!(forms_of(v@) => forms_of(v@)[start as int]));
    }
    match eval(env, scope, &v[start], fuel) {
        Result::Err(e) => Result::Err(e),
        Result::Ok(val) => {
            proof {
                assert(fs.drop_first() =~= forms_of(v@).skip(start as int + 1));
            }
            let ghost vv = form_view(val);
            match eval_seq(env, scope, v, start + 1, fuel) {
                Result::Err(e) => Result::Err(e),
                Result::Ok(mut rest) => {
                    let ghost prev = rest@;
                    rest.insert(0, val);
                    proof {
                        lemma_forms_of(prev);
                        lemma_forms_of(rest@);
                        assert(forms_of(rest@) =~= seq![vv] + forms_of(prev));
                    }
                    Result::Ok(rest)
                },
            }
        },
    }
}

fn eval_map(env: &mut Env, scope: usize, m: &Vec<(String, MalForm)>, start: usize, fuel: u64) -> (out:
    Result<Vec<(String, MalForm)>, MalErr>)
    requires
        env_wf(old(env)@),
        scope < old(env)@.len(),
        start <= m@.len(),
    ensures
        ({
            let o = sp_eval_map(fuel as nat, old(env)@, scope as int, pairs_of(m@).skip(start as int));
            &&& final(env)@ == o.env
            &&& match (out, o.res) {
                (Result::Ok(rv), Result::Ok(es)) => pairs_of(rv@) == es,
                (Result::Err(e), Result::Err(g)) => err_view(e) == g,
                _ => false,
            }
        }),
        env_wf(final(env)@),
        old(env)@.len() <= final(env)@.len(),
    decreases fuel, pairs_of(m@), 0int, m@.len() - start,
{
    proof {
        lemma_pairs_of(m@);
    }
    let ghost es = pairs_of(m@).skip(start as int);
    if start >= m.len() {
        proof {
            assert(es =~= Seq::<(Seq<char>, Form)>::empty());
        }
        let empty: Vec<(String, MalForm)> = Vec::new();
        proof {
            assert(pairs_of(empty@) =~= Seq::<(Seq<char>, Form)>::empty());
        }
        return Result::Ok(empty);
    }
    proof {
        assert(es[0] == pairs_of(m@)[start as int]);
        assert(decreases_to!(pairs_of(m@) => pairs_of(m@)[start as int]));
        assert(decreases_to!(pairs_of(m@)[start as int] => pairs_of(m@)[start as int].1));
    }
    let key = m[start].0.clone();
    match eval(env, scope, &m[start].1, fuel) {
        Result::Err(e) => Result::Err(e),
        Result::Ok(val) => {
            proof {
                assert(es.drop_first() =~= pairs_of(m@).skip(start as int + 1));
            }
            let ghost kv = key@;
            let ghost vv = form_view(val);
            match eval_map(env, scope, m, start + 1, fuel) {
                Result::Err(e) => Result::Err(e),
                Result::Ok(mut rest) => {
                    let ghost prev = rest@;
                    rest.insert(0, (key, val));
                    proof {
                        lemma_pairs_of(prev);
                        lemma_pairs_of(rest@);
                        assert(pairs_of(rest@) =~= seq![(kv, vv)] + pairs_of(prev));
                    }
                    Result::Ok(rest)
                },
            }
        },
    }
}

/// Evaluates terms left to right and returns the last value, or
/// `Nil` when there are none.
fn eval_do(env: &mut Env, scope: usize, v: &Vec<MalForm>, start: usize, fuel: u64) -> (r: Result<
    MalForm,
    MalErr,
>)
    requires
        env_wf(old(env)@),
        scope < old(env)@.len(),
        start <= v@.len(),
    ensures
        ({
            let o = sp_eval_do(fuel as nat, old(env)@, scope as int, forms_of(v@).skip(start as int));
            &&& final(env)@ == o.env
            &&& res_form(r, o.res)
        }),
        env_wf(final(env)@),
        old(env)@.len() <= final(env)@.len(),
    decreases fuel, forms_of(v@), 1int, 0int,
{
    proof {
        lemma_forms_of(v@);
    }
    match eval_seq(env, scope, v, start, fuel) {
        Result::Err(e) => Result::Err(e),
        Result::Ok(mut vals) => {
            proof {
                lemma_forms_of(vals@);
            }
            match vals.pop() {
                Option::Some(last) => {
                    proof {
                        let fs2 = sp_eval_seq(
                            fuel as nat,
                            old(env)@,
                            scope as int,
                            forms_of(v@).skip(start as int),
                        ).res->Ok_0;
                        assert(form_view(last) == fs2.last());
                    }
                    Result::Ok(last)
                },
                Option::None => Result::Ok(MalForm::Nil),
            }
        },
    }
}

fn eval_binds(env: &mut Env, scope: usize, b: &Vec<MalForm>, k: usize, fuel: u64) -> (r: Result<
    (),
    MalErr,
>)
    requires
        env_wf(old(env)@),
        scope < old(env)@.len(),
        k <= b@.len(),
    ensures
        ({
            let o = sp_eval_binds(fuel as nat, old(env)@, scope as int, forms_of(b@), k as int);
            &&& final(env)@ == o.env
            &&& match (r, o.err) {
                (Result::Ok(()), Option::None) => true,
                (Result::Err(e), Option::Some(g)) => err_view(e) == g,
                _ => false,
            }
        }),
        env_wf(final(env)@),
        old(env)@.len() <= final(env)@.len(),
    decreases fuel, forms_of(b@), 0int, b@.len() - k,
{
    proof {
        lemma_forms_of(b@);
    }
    let ghost bf = forms_of(b@);
    if k >= b.len() {
        return Result::Ok(());
    }
    if k + 1 >= b.len() {
        return Result::Err(MalErr::BadSpecialForm(String::from_str("let*")));
    }
    match &b[k] {
        MalForm::Symbol(name) => {
            proof {
                assert(bf[k + 1] == form_view(b@[k as int + 1]));
                assert(decreases_to!(bf => bf[k + 1]));
            }
            match eval(env, scope, &b[k + 1], fuel) {
                Result::Err(e) => Result::Err(e),
                Result::Ok(val) => {
                    env.set(scope, name.as_str(), val);
                    eval_binds(env, scope, b, k + 2, fuel)
                },
            }
        },
        _ => Result::Err(MalErr::BadSpecialForm(String::from_str("let*"))),
    }
}

fn eval_let(env: &mut Env, scope: usize, v: &Vec<MalForm>, fuel: u64) -> (r: Result<
    MalForm,
    MalErr,
>)
    requires
        env_wf(old(env)@),
        scope < old(env)@.len(),
    ensures
        ({
            let o = sp_eval_let(fuel as nat, old(env)@, scope as int, forms_of(v@));
            &&& final(env)@ == o.env
            &&& res_form(r, o.res)
        }),
        env_wf(final(env)@),
        old(env)@.len() <= final(env)@.len(),
    decreases fuel, forms_of(v@), 2int, 0int,
{
    proof {
        lemma_forms_of(v@);
    }
    let ghost vf = forms_of(v@);
    if v.len() < 2 {
        return Result::Err(MalErr::BadSpecialForm(String::from_str("let*")));
    }
    let binds_opt: Option<&Vec<MalForm>> = match &v[1] {
        MalForm::List(b) => Option::Some(b),
        MalForm::Vector(b) => Option::Some(b),
        _ => Option::None,
    };
    match binds_opt {
        Option::None => Result::Err(MalErr::BadSpecialForm(String::from_str("let*"))),
        Option::Some(b) => {
            proof {
                lemma_forms_of(b@);
                assert(vf[1] == form_view(v@[1]));
                assert(decreases_to!(vf => vf[1]));
                match v@[1] {
                    MalForm::List(bb) => {
                        assert(vf[1]->List_0 == forms_of(b@));
                        assert(decreases_to!(vf[1] => vf[1]->List_0));
                    },
                    MalForm::Vector(bb) => {
                        assert(vf[1]->Vector_0 == forms_of(b@));
                        assert(decreases_to!(vf[1] => vf[1]->Vector_0));
                    },
                    _ => {},
                }
            }
            let child = env.with_outer(scope);
            match eval_binds(env, child, b, 0, fuel) {
                Result::Err(e) => Result::Err(e),
                Result::Ok(()) => {
                    proof {
                        assert(vf.skip(2) == forms_of(v@).skip(2));
                    }
                    eval_do(env, child, v, 2, fuel)
                },
            }
        },
    }
}

/// Evaluates one term against the environment. Dispatch: a non-list
/// delegates to [`eval_ast`]; an empty list evaluates to itself; a
/// list headed by one of the special-form symbols `do`, `fn*`, `if`,
/// `def!`, `let*` is handled by that form; any other list is
/// evaluated element-wise and its head, which must then be a closure
/// or a builtin, is applied to the remaining values.
pub fn eval(env: &mut Env, scope: usize, form: &MalForm, fuel: u64) -> (r: Result<MalForm, MalErr>)
    requires
        env_wf(old(env)@),
        scope < old(env)@.len(),
    ensures
        ({
            let o = sp_eval(fuel as nat, old(env)@, scope as int, form@);
            &&& final(env)@ == o.env
            &&& res_form(r, o.res)
        }),
        env_wf(final(env)@),
        old(env)@.len() <= final(env)@.len(),
    decreases fuel, form@, 1int, 0int,
{
    let v: &Vec<MalForm> = match form {
        MalForm::List(v) => v,
        _ => {
            return eval_ast(env, scope, form, fuel);
        },
    };
    proof {
        lemma_forms_of(v@);
        assert(form@->List_0 == forms_of(v@));
        assert(decreases_to!(form@ => form@->List_0));
    }
    let ghost vf = forms_of(v@);
    if v.len() == 0 {
        return Result::Ok(form.clone());
    }
    proof {
        assert(vf[0] == form_view(v@[0]));
        assert(decreases_to!(vf => vf[0]));
    }
    match &v[0] {
        MalForm::Symbol(s) => {
            if str_eq(s.as_str(), "do") {
                proof {
                    assert(vf.drop_first() =~= vf.skip(1));
                }
                return eval_do(env, scope, v, 1, fuel);
            }
            if str_eq(s.as_str(), "fn*") {
                return make_fn(scope, v);
            }
            if str_eq(s.as_str(), "if") {
                if v.len() < 3 {
                    return Result::Err(MalErr::BadSpecialForm(String::from_str("if")));
                }
                proof {
                    assert(vf[1] == form_view(v@[1]));
                    assert(decreases_to!(vf => vf[1]));
                }
                match eval(env, scope, &v[1], fuel) {
                    Result::Err(e) => {
                        return Result::Err(e);
                    },
                    Result::Ok(cv) => {
                        match cv {
                            MalForm::Bool(bb) => {
                                if bb {
                                    proof {
                                        assert(vf[2] == form_view(v@[2]));
                                        assert(decreases_to!(vf => vf[2]));
                                    }
                                    return eval(env, scope, &v[2], fuel);
                                } else {
                                    return eval_do(env, scope, v, 3, fuel);
                                }
                            },
                            _ => {
                                return Result::Err(MalErr::NonBooleanCond);
                            },
                        }
                    },
                }
            }
            if str_eq(s.as_str(), "def!") {
                if v.len() != 3 {
                    return Result::Err(MalErr::BadSpecialForm(String::from_str("def!")));
                }
                match &v[1] {
                    MalForm::Symbol(name) => {
                        proof {
                            assert(vf[2] == form_view(v@[2]));
                            assert(decreases_to!(vf => vf[2]));
                        }
                        match eval(env, scope, &v[2], fuel) {
                            Result::Err(e) => {
                                return Result::Err(e);
                            },
                            Result::Ok(val) => {
                                let ghost ev = env@;
                                let valc = val.clone();
                                env.set(scope, name.as_str(), valc);
                                proof {
                                    assert(env@ == sp_env_define(
                                        ev,
                                        scope as int,
                                        name@,
                                        form_view(val),
                                    ));
                                }
                                return Result::Ok(val);
                            },
                        }
                    },
                    _ => {
                        return Result::Err(MalErr::BadSpecialForm(String::from_str("def!")));
                    },
                }
            }
            if str_eq(s.as_str(), "let*") {
                return eval_let(env, scope, v, fuel);
            }
        },
        _ => {},
    }
    proof {
        assert(vf.skip(0) =~= vf);
    }
    match eval_seq(env, scope, v, 0, fuel) {
        Result::Err(e) => Result::Err(e),
        Result::Ok(vals) => {
            proof {
                lemma_forms_of(vals@);
                assert(forms_of(vals@)[0] == form_view(vals@[0]));
                assert(forms_of(vals@).drop_first() =~= forms_of(vals@).skip(1));
            }
            match &vals[0] {
                MalForm::Builtin(op) => apply_builtin(*op, &vals, 1),
                MalForm::Closure(mf) => {
                    if fuel == 0 {
                        Result::Err(MalErr::DepthLimit)
                    } else {
                        invoke(env, mf, &vals, 1, fuel - 1)
                    }
                },
                _ => Result::Err(MalErr::NotInvokable),
            }
        },
    }
}

/// The outcome of one read-eval-print round.
pub struct RepOut {
    pub res: Result<Seq<char>, ErrV>,
    pub env: Seq<ScopeV>,
}

/// One read-eval-print round: read the line into a term, evaluate it
/// in the root scope, print the value. A read error leaves the
/// environment untouched; an evaluation error keeps the bindings made
/// before it.
pub open spec fn sp_rep(s: Seq<char>, env: Seq<ScopeV>) -> RepOut {
    match sp_read_str(s) {
        Result::Err(e) => RepOut { res: Result::Err(e), env },
        Result::Ok(f) => {
            let o = sp_eval(EVAL_FUEL as nat, env, 0, f);
            match o.res {
                Result::Err(e) => RepOut { res: Result::Err(e), env: o.env },
                Result::Ok(v) => RepOut { res: Result::Ok(sp_print(v)), env: o.env },
            }
        },
    }
}

/// The root environment of a fresh session: the nine builtins and
/// nothing else.
pub open spec fn sp_default_env() -> Seq<ScopeV> {
    seq![
        ScopeV {
            outer: Option::None,
            names: seq!["+"@, "-"@, "*"@, "/"@, "="@, "<"@, "<="@, ">"@, ">="@],
            vals: seq![
                Form::Builtin(BuiltinOp::Add),
                Form::Builtin(BuiltinOp::Sub),
                Form::Builtin(BuiltinOp::Mul),
                Form::Builtin(BuiltinOp::Div),
                Form::Builtin(BuiltinOp::CmpEq),
                Form::Builtin(BuiltinOp::CmpLt),
                Form::Builtin(BuiltinOp::CmpLe),
                Form::Builtin(BuiltinOp::CmpGt),
                Form::Builtin(BuiltinOp::CmpGe),
            ],
        },
    ]
}

/// A fresh environment with the builtin operations bound in the root
/// scope.
pub fn default_env() -> (e: Env)
    ensures
        e@ == sp_default_env(),
        env_wf(e@),
{
    let mut e = Env::new();
    e.set(0, "+", MalForm::Builtin(BuiltinOp::Add));
    e.set(0, "-", MalForm::Builtin(BuiltinOp::Sub));
    e.set(0, "*", MalForm::Builtin(BuiltinOp::Mul));
    e.set(0, "/", MalForm::Builtin(BuiltinOp::Div));
    e.set(0, "=", MalForm::Builtin(BuiltinOp::CmpEq));
    e.set(0, "<", MalForm::Builtin(BuiltinOp::CmpLt));
    e.set(0, "<=", MalForm::Builtin(BuiltinOp::CmpLe));
    e.set(0, ">", MalForm::Builtin(BuiltinOp::CmpGt));
    e.set(0, ">=", MalForm::Builtin(BuiltinOp::CmpGe));
    proof {
        assert(e@ =~~= sp_default_env());
    }
    e
}

/// Law: in the default environment each operator name resolves to
/// its builtin, and nothing else is bound.
pub proof fn lemma_default_env_lookup()
    ensures
        sp_env_get(sp_default_env(), 0, "+"@) == Option::Some(Form::Builtin(BuiltinOp::Add)),
        sp_env_get(sp_default_env(), 0, "-"@) == Option::Some(Form::Builtin(BuiltinOp::Sub)),
        sp_env_get(sp_default_env(), 0, "*"@) == Option::Some(Form::Builtin(BuiltinOp::Mul)),
        sp_env_get(sp_default_env(), 0, "/"@) == Option::Some(Form::Builtin(BuiltinOp::Div)),
        sp_env_get(sp_default_env(), 0, "="@) == Option::Some(Form::Builtin(BuiltinOp::CmpEq)),
        sp_env_get(sp_default_env(), 0, "<"@) == Option::Some(Form::Builtin(BuiltinOp::CmpLt)),
        sp_env_get(sp_default_env(), 0, "<="@) == Option::Some(Form::Builtin(BuiltinOp::CmpLe)),
        sp_env_get(sp_default_env(), 0, ">"@) == Option::Some(Form::Builtin(BuiltinOp::CmpGt)),
        sp_env_get(sp_default_env(), 0, ">="@) == Option::Some(Form::Builtin(BuiltinOp::CmpGe)),
{
    reveal_strlit("+");
    reveal_strlit("-");
    reveal_strlit("*");
    reveal_strlit("/");
    reveal_strlit("=");
    reveal_strlit("<");
    reveal_strlit("<=");
    reveal_strlit(">");
    reveal_strlit(">=");
    reveal_with_fuel(crate::env::sp_assoc, 11);
    assert(!("+"@ =~= "-"@)) by {
        assert("+"@[0] != "-"@[0]);
    }
    assert("+"@ != "-"@);
    assert(!("+"@ =~= "*"@)) by {
        assert("+"@[0] != "*"@[0]);
    }
    assert("+"@ != "*"@);
    assert(!("+"@ =~= "/"@)) by {
        assert("+"@[0] != "/"@[0]);
    }
    assert("+"@ != "/"@);
    assert(!("+"@ =~= "="@)) by {
        assert("+"@[0] != "="@[0]);
    }
    assert("+"@ != "="@);
    assert(!("+"@ =~= "<"@)) by {
        assert("+"@[0] != "<"@[0]);
    }
    assert("+"@ != "<"@);
    assert(!("+"@ =~= ">"@)) by {
        assert("+"@[0] != ">"@[0]);
    }
    assert("+"@ != ">"@);
    assert(!("-"@ =~= "*"@)) by {
        assert("-"@[0] != "*"@[0]);
    }
    assert("-"@ != "*"@);
    assert(!("-"@ =~= "/"@)) by {
        assert("-"@[0] != "/"@[0]);
    }
    assert("-"@ != "/"@);
    assert(!("-"@ =~= "="@)) by {
        assert("-"@[0] != "="@[0]);
    }
    assert("-"@ != "="@);
    assert(!("-"@ =~= "<"@)) by {
        assert("-"@[0] != "<"@[0]);
    }
    assert("-"@ != "<"@);
    assert(!("-"@ =~= ">"@)) by {
        assert("-"@[0] != ">"@[0]);
    }
    assert("-"@ != ">"@);
    assert(!("*"@ =~= "/"@)) by {
        assert("*"@[0] != "/"@[0]);
    }
    assert("*"@ != "/"@);
    assert(!("*"@ =~= "="@)) by {
        assert("*"@[0] != "="@[0]);
    }
    assert("*"@ != "="@);
    assert(!("*"@ =~= "<"@)) by {
        assert("*"@[0] != "<"@[0]);
    }
    assert("*"@ != "<"@);
    assert(!("*"@ =~= ">"@)) by {
        assert("*"@[0] != ">"@[0]);
    }
    assert("*"@ != ">"@);
    assert(!("/"@ =~= "="@)) by {
        assert("/"@[0] != "="@[0]);
    }
    assert("/"@ != "="@);
    assert(!("/"@ =~= "<"@)) by {
        assert("/"@[0] != "<"@[0]);
    }
    assert("/"@ != "<"@);
    assert(!("/"@ =~= ">"@)) by {
        assert("/"@[0] != ">"@[0]);
    }
    assert("/"@ != ">"@);
    assert(!("="@ =~= "<"@)) by {
        assert("="@[0] != "<"@[0]);
    }
    assert("="@ != "<"@);
    assert(!("="@ =~= ">"@)) by {
        assert("="@[0] != ">"@[0]);
    }
    assert("="@ != ">"@);
    assert(!("<"@ =~= ">"@)) by {
        assert("<"@[0] != ">"@[0]);
    }
    assert("<"@ != ">"@);
    assert(!("<="@ =~= ">="@)) by {
        assert("<="@[0] != ">="@[0]);
    }
    assert("<="@ != ">="@);
    assert(!("+"@ =~= "<="@));
    assert("+"@ != "<="@);
    assert(!("+"@ =~= ">="@));
    assert("+"@ != ">="@);
    assert(!("-"@ =~= "<="@));
    assert("-"@ != "<="@);
    assert(!("-"@ =~= ">="@));
    assert("-"@ != ">="@);
    assert(!("*"@ =~= "<="@));
    assert("*"@ != "<="@);
    assert(!("*"@ =~= ">="@));
    assert("*"@ != ">="@);
    assert(!("/"@ =~= "<="@));
    assert("/"@ != "<="@);
    assert(!("/"@ =~= ">="@));
    assert("/"@ != ">="@);
    assert(!("="@ =~= "<="@));
    assert("="@ != "<="@);
    assert(!("="@ =~= ">="@));
    assert("="@ != ">="@);
    assert(!("<"@ =~= "<="@));
    assert("<"@ != "<="@);
    assert(!("<"@ =~= ">="@));
    assert("<"@ != ">="@);
    assert(!(">"@ =~= "<="@));
    assert(">"@ != "<="@);
    assert(!(">"@ =~= ">="@));
    assert(">"@ != ">="@);
    let sc = sp_default_env()[0];
    assert(sc.names.len() == 9);
}

/// One read-eval-print round on one line of input: the pure
/// value-in/value-out interface that a surrounding loop consumes. A
/// read error leaves the environment untouched; an evaluation error
/// keeps the bindings made before it; every error is recoverable and
/// the environment stays well-formed for the next line.
pub fn rep(input: String, env: &mut Env) -> (r: Result<String, MalErr>)
    requires
        env_wf(old(env)@),
    ensures
        ({
            let o = sp_rep(input@, old(env)@);
            &&& final(env)@ == o.env
            &&& match (r, o.res) {
                (Result::Ok(s), Result::Ok(t)) => s@ == t,
                (Result::Err(e), Result::Err(g)) => err_view(e) == g,
                _ => false,
            }
        }),
        env_wf(final(env)@),
{
    let ghost iv = input@;
    match read_str(input) {
        Result::Err(e) => Result::Err(e),
        Result::Ok(f) => {
            match eval(env, 0, &f, EVAL_FUEL) {
                Result::Err(e) => Result::Err(e),
                Result::Ok(v) => Result::Ok(pr_str(&v)),
            }
        },
    }
}

/// Law: evaluating a bare symbol that no scope in the chain binds
/// fails with the unbound-symbol error for that name and leaves the
/// environment exactly as it was.
pub proof fn lemma_unbound_symbol(fuel: nat, env: Seq<ScopeV>, scope: int, name: Seq<char>)
    requires
        (sp_env_get(env, scope, name) is None),
    ensures
        (sp_eval(fuel, env, scope, Form::Symbol(name)) == EvalOut {
            res: Result::Err(ErrV::UnboundSymbol(name)),
            env,
        }),
{
    let o = sp_eval(fuel, env, scope, Form::Symbol(name));
    let a = sp_eval_ast(fuel, env, scope, Form::Symbol(name));
    assert(o == a);
    assert(a.env == env);
    assert(a.res == Result::<Form, ErrV>::Err(ErrV::UnboundSymbol(name)));
}

/// Law: evaluating a bare symbol that some scope binds yields the
/// bound value and leaves the environment exactly as it was.
pub proof fn lemma_bound_symbol(fuel: nat, env: Seq<ScopeV>, scope: int, name: Seq<char>, v: Form)
    requires
        (sp_env_get(env, scope, name) == Option::Some(v)),
    ensures
        (sp_eval(fuel, env, scope, Form::Symbol(name)) == EvalOut { res: Result::Ok(v), env }),
{
    let o = sp_eval(fuel, env, scope, Form::Symbol(name));
    let a = sp_eval_ast(fuel, env, scope, Form::Symbol(name));
    assert(o == a);
    assert(a.env == env);
    assert(a.res == Result::<Form, ErrV>::Ok(v));
}

/// Law: evaluation never discards a scope: the arena after an
/// evaluation holds at least the scopes it held before.
pub proof fn lemma_eval_env_grows(fuel: nat, env: Seq<ScopeV>, scope: int, f: Form)
    ensures
        sp_eval(fuel, env, scope, f).env.len() >= env.len(),
    decreases fuel, f, 1int, 0int,
{
    let o = sp_eval(fuel, env, scope, f);
    match f {
        Form::List(v) => {
            if v.len() == 0 {
                assert(o.env == env);
            } else if v[0] == Form::Symbol("do"@) {
                lemma_do_env_grows(fuel, env, scope, v.drop_first());
                assert(o == sp_eval_do(fuel, env, scope, v.drop_first()));
            } else if v[0] == Form::Symbol("fn*"@) {
                assert(o.env == env);
            } else if v[0] == Form::Symbol("if"@) {
                if v.len() >= 3 {
                    lemma_eval_env_grows(fuel, env, scope, v[1]);
                    let c = sp_eval(fuel, env, scope, v[1]);
                    match c.res {
                        Result::Ok(Form::Bool(b)) => {
                            if b {
                                lemma_eval_env_grows(fuel, c.env, scope, v[2]);
                                assert(o == sp_eval(fuel, c.env, scope, v[2]));
                            } else {
                                lemma_do_env_grows(fuel, c.env, scope, v.skip(3));
                                assert(o == sp_eval_do(fuel, c.env, scope, v.skip(3)));
                            }
                        },
                        _ => {
                            assert(o.env == c.env || o.env == env);
                        },
                    }
                } else {
                    assert(o.env == env);
                }
            } else if v[0] == Form::Symbol("def!"@) {
                if v.len() == 3 {
                    match v[1] {
                        Form::Symbol(name) => {
                            lemma_eval_env_grows(fuel, env, scope, v[2]);
                            let r = sp_eval(fuel, env, scope, v[2]);
                            assert(o.env == r.env || o.env == sp_env_define(
                                r.env,
                                scope,
                                name,
                                r.res->Ok_0,
                            ));
                        },
                        _ => {
                            assert(o.env == env);
                        },
                    }
                } else {
                    assert(o.env == env);
                }
            } else if v[0] == Form::Symbol("let*"@) {
                lemma_let_env_grows(fuel, env, scope, v);
                assert(o == sp_eval_let(fuel, env, scope, v));
            } else {
                lemma_seq_env_grows(fuel, env, scope, v);
                let r = sp_eval_seq(fuel, env, scope, v);
                match r.res {
                    Result::Ok(vals) => {
                        match vals[0] {
                            Form::Closure(c) => {
                                if fuel > 0 {
                                    lemma_invoke_env_grows(
                                        (fuel - 1) as nat,
                                        r.env,
                                        c,
                                        vals.drop_first(),
                                    );
                                    assert(o == sp_invoke(
                                        (fuel - 1) as nat,
                                        r.env,
                                        c,
                                        vals.drop_first(),
                                    ));
                                } else {
                                    assert(o.env == r.env);
                                }
                            },
                            _ => {
                                assert(o.env == r.env);
                            },
                        }
                    },
                    _ => {
                        assert(o.env == r.env);
                    },
                }
            }
        },
        Form::Vector(v) => {
            let a = sp_eval_ast(fuel, env, scope, f);
            assert(o == a);
            lemma_seq_env_grows(fuel, env, scope, v);
            assert(a.env == sp_eval_seq(fuel, env, scope, v).env);
        },
        Form::MapForm(ps) => {
            let a = sp_eval_ast(fuel, env, scope, f);
            assert(o == a);
            lemma_map_env_grows(fuel, env, scope, ps);
            assert(a.env == sp_eval_map(fuel, env, scope, ps).env);
        },
        _ => {
            let a = sp_eval_ast(fuel, env, scope, f);
            assert(o == a);
            assert(a.env == env);
        },
    }
}

proof fn lemma_seq_env_grows(fuel: nat, env: Seq<ScopeV>, scope: int, fs: Seq<Form>)
    ensures
        sp_eval_seq(fuel, env, scope, fs).env.len() >= env.len(),
    decreases fuel, fs, 0int, 0int,
{
    if fs.len() > 0 {
        lemma_eval_env_grows(fuel, env, scope, fs[0]);
        let r = sp_eval(fuel, env, scope, fs[0]);
        match r.res {
            Result::Ok(v) => {
                lemma_seq_env_grows(fuel, r.env, scope, fs.drop_first());
            },
            _ => {},
        }
    }
}

proof fn lemma_do_env_grows(fuel: nat, env: Seq<ScopeV>, scope: int, fs: Seq<Form>)
    ensures
        sp_eval_do(fuel, env, scope, fs).env.len() >= env.len(),
    decreases fuel, fs, 1int, 0int,
{
    lemma_seq_env_grows(fuel, env, scope, fs);
}

proof fn lemma_map_env_grows(fuel: nat, env: Seq<ScopeV>, scope: int, ps: Seq<(Seq<char>, Form)>)
    ensures
        sp_eval_map(fuel, env, scope, ps).env.len() >= env.len(),
    decreases fuel, ps, 0int, 0int,
{
    if ps.len() > 0 {
        lemma_eval_env_grows(fuel, env, scope, ps[0].1);
        let r = sp_eval(fuel, env, scope, ps[0].1);
        match r.res {
            Result::Ok(v) => {
                lemma_map_env_grows(fuel, r.env, scope, ps.drop_first());
            },
            _ => {},
        }
    }
}

proof fn lemma_binds_env_grows(fuel: nat, env: Seq<ScopeV>, scope: int, binds: Seq<Form>, k: int)
    requires
        0 <= k <= binds.len(),
    ensures
        sp_eval_binds(fuel, env, scope, binds, k).env.len() >= env.len(),
    decreases fuel, binds, 0int, binds.len() - k,
{
    if k < binds.len() && k + 1 < binds.len() {
        match binds[k] {
            Form::Symbol(name) => {
                lemma_eval_env_grows(fuel, env, scope, binds[k + 1]);
                let r = sp_eval(fuel, env, scope, binds[k + 1]);
                match r.res {
                    Result::Ok(val) => {
                        lemma_binds_env_grows(
                            fuel,
                            sp_env_define(r.env, scope, name, val),
                            scope,
                            binds,
                            k + 2,
                        );
                    },
                    _ => {},
                }
            },
            _ => {},
        }
    }
}

proof fn lemma_let_env_grows(fuel: nat, env: Seq<ScopeV>, scope: int, v: Seq<Form>)
    ensures
        sp_eval_let(fuel, env, scope, v).env.len() >= env.len(),
    decreases fuel, v, 2int, 0int,
{
    if v.len() >= 2 {
        match v[1] {
            Form::List(b) => {
                lemma_binds_env_grows(fuel, sp_env_child(env, scope), env.len() as int, b, 0);
                let br = sp_eval_binds(fuel, sp_env_child(env, scope), env.len() as int, b, 0);
                if br.err is None {
                    lemma_do_env_grows(fuel, br.env, env.len() as int, v.skip(2));
                }
            },
            Form::Vector(b) => {
                lemma_binds_env_grows(fuel, sp_env_child(env, scope), env.len() as int, b, 0);
                let br = sp_eval_binds(fuel, sp_env_child(env, scope), env.len() as int, b, 0);
                if br.err is None {
                    lemma_do_env_grows(fuel, br.env, env.len() as int, v.skip(2));
                }
            },
            _ => {},
        }
    }
}

proof fn lemma_bind_params_env_len(
    env: Seq<ScopeV>,
    scope: int,
    params: Seq<Seq<char>>,
    args: Seq<Form>,
    k: int,
)
    requires
        0 <= k <= params.len(),
    ensures
        sp_bind_params(env, scope, params, args, k).len() == env.len(),
    decreases params.len() - k,
{
    if k < params.len() && k < args.len() {
        lemma_bind_params_env_len(sp_env_define(env, scope, params[k], args[k]), scope, params, args, k + 1);
    }
}

proof fn lemma_invoke_env_grows(fuel: nat, env: Seq<ScopeV>, c: ClosureV, args: Seq<Form>)
    ensures
        sp_invoke(fuel, env, c, args).env.len() >= env.len(),
    decreases fuel, c.body, 2int, 0int,
{
    if c.params.len() == args.len() && 0 <= c.env < env.len() {
        let env1 = sp_env_child(env, c.env);
        lemma_bind_params_env_len(env1, env.len() as int, c.params, args, 0);
        let env2 = sp_bind_params(env1, env.len() as int, c.params, args, 0);
        lemma_do_env_grows(fuel, env2, env.len() as int, c.body);
    }
}

/// Law: evaluation writes bindings only into the scope it was given
/// and into scopes it creates: every other pre-existing scope is left
/// exactly as it was.
pub proof fn lemma_frame_eval(fuel: nat, env: Seq<ScopeV>, scope: int, f: Form)
    ensures
        forall|i: int|
            0 <= i < env.len() && i != scope ==> #[trigger] sp_eval(fuel, env, scope, f).env[i]
                == env[i],
    decreases fuel, f, 1int, 0int,
{
    let o = sp_eval(fuel, env, scope, f);
    match f {
        Form::List(v) => {
            if v.len() == 0 {
            } else if v[0] == Form::Symbol("do"@) {
                lemma_frame_do(fuel, env, scope, v.drop_first());
                assert(o == sp_eval_do(fuel, env, scope, v.drop_first()));
            } else if v[0] == Form::Symbol("fn*"@) {
            } else if v[0] == Form::Symbol("if"@) {
                if v.len() >= 3 {
                    lemma_frame_eval(fuel, env, scope, v[1]);
                    lemma_eval_env_grows(fuel, env, scope, v[1]);
                    let c = sp_eval(fuel, env, scope, v[1]);
                    match c.res {
                        Result::Ok(Form::Bool(b)) => {
                            if b {
                                lemma_frame_eval(fuel, c.env, scope, v[2]);
                                assert(o == sp_eval(fuel, c.env, scope, v[2]));
                            } else {
                                lemma_frame_do(fuel, c.env, scope, v.skip(3));
                                assert(o == sp_eval_do(fuel, c.env, scope, v.skip(3)));
                            }
                        },
                        _ => {
                            assert(o.env == c.env || o.env == env);
                        },
                    }
                }
            } else if v[0] == Form::Symbol("def!"@) {
                if v.len() == 3 {
                    match v[1] {
                        Form::Symbol(name) => {
                            lemma_frame_eval(fuel, env, scope, v[2]);
                            lemma_eval_env_grows(fuel, env, scope, v[2]);
                            let r = sp_eval(fuel, env, scope, v[2]);
                            assert(o.env == r.env || o.env == sp_env_define(
                                r.env,
                                scope,
                                name,
                                r.res->Ok_0,
                            ));
                        },
                        _ => {},
                    }
                }
            } else if v[0] == Form::Symbol("let*"@) {
                lemma_frame_let(fuel, env, scope, v);
                assert(o == sp_eval_let(fuel, env, scope, v));
            } else {
                lemma_frame_seq(fuel, env, scope, v);
                lemma_seq_env_grows(fuel, env, scope, v);
                let r = sp_eval_seq(fuel, env, scope, v);
                match r.res {
                    Result::Ok(vals) => {
                        match vals[0] {
                            Form::Closure(c) => {
                                if fuel > 0 {
                                    lemma_frame_invoke((fuel - 1) as nat, r.env, c, vals.drop_first());
                                    assert(o == sp_invoke(
                                        (fuel - 1) as nat,
                                        r.env,
                                        c,
                                        vals.drop_first(),
                                    ));
                                } else {
                                    assert(o.env == r.env);
                                }
                            },
                            _ => {
                                assert(o.env == r.env);
                            },
                        }
                    },
                    _ => {
                        assert(o.env == r.env);
                    },
                }
            }
        },
        Form::Vector(v) => {
            let a = sp_eval_ast(fuel, env, scope, f);
            assert(o == a);
            lemma_frame_seq(fuel, env, scope, v);
            assert(a.env == sp_eval_seq(fuel, env, scope, v).env);
        },
        Form::MapForm(ps) => {
            let a = sp_eval_ast(fuel, env, scope, f);
            assert(o == a);
            lemma_frame_map(fuel, env, scope, ps);
            assert(a.env == sp_eval_map(fuel, env, scope, ps).env);
        },
        _ => {
            let a = sp_eval_ast(fuel, env, scope, f);
            assert(o == a);
            assert(a.env == env);
        },
    }
}

proof fn lemma_frame_seq(fuel: nat, env: Seq<ScopeV>, scope: int, fs: Seq<Form>)
    ensures
        forall|i: int|
            0 <= i < env.len() && i != scope ==> #[trigger] sp_eval_seq(
                fuel,
                env,
                scope,
                fs,
            ).env[i] == env[i],
    decreases fuel, fs, 0int, 0int,
{
    if fs.len() > 0 {
        lemma_frame_eval(fuel, env, scope, fs[0]);
        lemma_eval_env_grows(fuel, env, scope, fs[0]);
        let r = sp_eval(fuel, env, scope, fs[0]);
        match r.res {
            Result::Ok(v) => {
                lemma_frame_seq(fuel, r.env, scope, fs.drop_first());
            },
            _ => {},
        }
    }
}

proof fn lemma_frame_do(fuel: nat, env: Seq<ScopeV>, scope: int, fs: Seq<Form>)
    ensures
        forall|i: int|
            0 <= i < env.len() && i != scope ==> #[trigger] sp_eval_do(fuel, env, scope, fs).env[i]
                == env[i],
    decreases fuel, fs, 1int, 0int,
{
    lemma_frame_seq(fuel, env, scope, fs);
}

proof fn lemma_frame_map(fuel: nat, env: Seq<ScopeV>, scope: int, ps: Seq<(Seq<char>, Form)>)
    ensures
        forall|i: int|
            0 <= i < env.len() && i != scope ==> #[trigger] sp_eval_map(
                fuel,
                env,
                scope,
                ps,
            ).env[i] == env[i],
    decreases fuel, ps, 0int, 0int,
{
    if ps.len() > 0 {
        lemma_frame_eval(fuel, env, scope, ps[0].1);
        lemma_eval_env_grows(fuel, env, scope, ps[0].1);
        let r = sp_eval(fuel, env, scope, ps[0].1);
        match r.res {
            Result::Ok(v) => {
                lemma_frame_map(fuel, r.env, scope, ps.drop_first());
            },
            _ => {},
        }
    }
}

proof fn lemma_frame_binds(fuel: nat, env: Seq<ScopeV>, scope: int, binds: Seq<Form>, k: int)
    requires
        0 <= k <= binds.len(),
    ensures
        forall|i: int|
            0 <= i < env.len() && i != scope ==> #[trigger] sp_eval_binds(
                fuel,
                env,
                scope,
                binds,
                k,
            ).env[i] == env[i],
    decreases fuel, binds, 0int, binds.len() - k,
{
    if k < binds.len() && k + 1 < binds.len() {
        match binds[k] {
            Form::Symbol(name) => {
                lemma_frame_eval(fuel, env, scope, binds[k + 1]);
                lemma_eval_env_grows(fuel, env, scope, binds[k + 1]);
                let r = sp_eval(fuel, env, scope, binds[k + 1]);
                match r.res {
                    Result::Ok(val) => {
                        lemma_frame_binds(
                            fuel,
                            sp_env_define(r.env, scope, name, val),
                            scope,
                            binds,
                            k + 2,
                        );
                    },
                    _ => {},
                }
            },
            _ => {},
        }
    }
}

proof fn lemma_bind_params_frame(
    env: Seq<ScopeV>,
    scope: int,
    params: Seq<Seq<char>>,
    args: Seq<Form>,
    k: int,
)
    requires
        0 <= k <= params.len(),
    ensures
        forall|i: int|
            0 <= i < env.len() && i != scope ==> #[trigger] sp_bind_params(
                env,
                scope,
                params,
                args,
                k,
            )[i] == env[i],
    decreases params.len() - k,
{
    if k < params.len() && k < args.len() {
        let e2 = sp_env_define(env, scope, params[k], args[k]);
        lemma_bind_params_frame(e2, scope, params, args, k + 1);
        assert forall|i: int| 0 <= i < env.len() && i != scope implies #[trigger] sp_bind_params(
            env,
            scope,
            params,
            args,
            k,
        )[i] == env[i] by {
            assert(sp_bind_params(env, scope, params, args, k) == sp_bind_params(
                e2,
                scope,
                params,
                args,
                k + 1,
            ));
            assert(sp_bind_params(e2, scope, params, args, k + 1)[i] == e2[i]);
            assert(e2[i] == env[i]);
        }
    } else {
        assert(sp_bind_params(env, scope, params, args, k) == env);
    }
}

/// Law: applying a closure leaves every scope that existed before the
/// call untouched: the call's parameter bindings live only in the
/// fresh child scope, so the closure's captured environment is
/// unaffected by the invocation.
pub proof fn lemma_frame_invoke(fuel: nat, env: Seq<ScopeV>, c: ClosureV, args: Seq<Form>)
    ensures
        forall|i: int|
            0 <= i < env.len() ==> #[trigger] sp_invoke(fuel, env, c, args).env[i] == env[i],
    decreases fuel, c.body, 2int, 0int,
{
    if c.params.len() == args.len() && 0 <= c.env < env.len() {
        let child = env.len() as int;
        let env1 = sp_env_child(env, c.env);
        lemma_bind_params_frame(env1, child, c.params, args, 0);
        lemma_bind_params_env_len(env1, child, c.params, args, 0);
        let env2 = sp_bind_params(env1, child, c.params, args, 0);
        lemma_frame_do(fuel, env2, child, c.body);
    }
}

proof fn lemma_frame_let(fuel: nat, env: Seq<ScopeV>, scope: int, v: Seq<Form>)
    ensures
        forall|i: int|
            0 <= i < env.len() ==> #[trigger] sp_eval_let(fuel, env, scope, v).env[i] == env[i],
    decreases fuel, v, 2int, 0int,
{
    let o = sp_eval_let(fuel, env, scope, v);
    if v.len() >= 2 {
        match v[1] {
            Form::List(b) => {
                lemma_frame_let_inner(fuel, env, scope, v, b);
            },
            Form::Vector(b) => {
                lemma_frame_let_inner(fuel, env, scope, v, b);
            },
            _ => {},
        }
    }
}

proof fn lemma_frame_let_inner(fuel: nat, env: Seq<ScopeV>, scope: int, v: Seq<Form>, b: Seq<Form>)
    requires
        v.len() >= 2,
        v[1] == Form::List(b) || v[1] == Form::Vector(b),
    ensures
        forall|i: int|
            0 <= i < env.len() ==> #[trigger] sp_eval_let(fuel, env, scope, v).env[i] == env[i],
    decreases fuel, v, 1int, 0int,
{
    let child = env.len() as int;
    let env1 = sp_env_child(env, scope);
    lemma_frame_binds(fuel, env1, child, b, 0);
    let br = sp_eval_binds(fuel, env1, child, b, 0);
    if br.err is None {
        lemma_binds_env_grows(fuel, env1, child, b, 0);
        lemma_frame_do(fuel, br.env, child, v.skip(2));
    }
}

/// Frame of a lookup: a lookup from `scope` reads only the scopes of
/// its chain, which all lie at or below `scope`; two environments that
/// agree up to `scope` answer it alike.
proof fn lemma_env_get_frame(e1: Seq<ScopeV>, e2: Seq<ScopeV>, scope: int, k: Seq<char>)
    requires
        scope < e1.len(),
        scope < e2.len(),
        forall|i: int| 0 <= i <= scope ==> e1[i] == e2[i],
    ensures
        sp_env_get(e1, scope, k) == sp_env_get(e2, scope, k),
    decreases scope,
{
    if 0 <= scope {
        match e1[scope].outer {
            Option::Some(o) => {
                if 0 <= o < scope {
                    lemma_env_get_frame(e1, e2, o, k);
                }
            },
            Option::None => {},
        }
    }
}

/// Law: `let*` bindings do not leak. Evaluating a `let*` form leaves
/// every scope that existed before it untouched, so every lookup
/// afterwards resolves exactly as it did before.
pub proof fn lemma_let_does_not_leak(
    fuel: nat,
    env: Seq<ScopeV>,
    scope: int,
    v: Seq<Form>,
    name: Seq<char>,
)
    requires
        0 <= scope < env.len(),
        v.len() >= 1,
        v[0] == Form::Symbol("let*"@),
    ensures
        (forall|i: int|
            0 <= i < env.len() ==> #[trigger] sp_eval(fuel, env, scope, Form::List(v)).env[i]
                == env[i]),
        (sp_env_get(sp_eval(fuel, env, scope, Form::List(v)).env, scope, name) == sp_env_get(
            env,
            scope,
            name,
        )),
{
    reveal_strlit("let*");
    reveal_strlit("do");
    reveal_strlit("fn*");
    reveal_strlit("if");
    reveal_strlit("def!");
    assert(!("let*"@ =~= "do"@));
    assert("let*"@ != "do"@);
    assert(!("let*"@ =~= "fn*"@)) by {
        assert("let*"@[0] != "fn*"@[0]);
    }
    assert("let*"@ != "fn*"@);
    assert(!("let*"@ =~= "if"@));
    assert("let*"@ != "if"@);
    assert(!("let*"@ =~= "def!"@)) by {
        assert("let*"@[0] != "def!"@[0]);
    }
    assert("let*"@ != "def!"@);
    let o = sp_eval(fuel, env, scope, Form::List(v));
    assert(o == sp_eval_let(fuel, env, scope, v));
    lemma_frame_let(fuel, env, scope, v);
    lemma_let_env_grows(fuel, env, scope, v);
    lemma_env_get_frame(o.env, env, scope, name);
}

/// Law: after a successful `(def! name expr)`, the form's value is the
/// value of `expr`, and the name resolves in the same scope to that
/// value: `def!` bindings persist.
pub proof fn lemma_def_binds(fuel: nat, env: Seq<ScopeV>, scope: int, name: Seq<char>, expr: Form)
    requires
        0 <= scope < env.len(),
        (sp_eval(fuel, env, scope, Form::List(
            seq![Form::Symbol("def!"@), Form::Symbol(name), expr],
        )).res is Ok),
    ensures
        ({
            let o = sp_eval(
                fuel,
                env,
                scope,
                Form::List(seq![Form::Symbol("def!"@), Form::Symbol(name), expr]),
            );
            &&& o.res == sp_eval(fuel, env, scope, expr).res
            &&& sp_env_get(o.env, scope, name) == Option::Some(o.res->Ok_0)
        }),
{
    let v = seq![Form::Symbol("def!"@), Form::Symbol(name), expr];
    assert(v.len() == 3);
    assert(v[0] == Form::Symbol("def!"@));
    assert(v[1] == Form::Symbol(name));
    assert(v[2] == expr);
    let r = sp_eval(fuel, env, scope, expr);
    let o = sp_eval(fuel, env, scope, Form::List(v));
    reveal_strlit("def!");
    reveal_strlit("do");
    reveal_strlit("fn*");
    reveal_strlit("if");
    assert(!("def!"@ =~= "do"@));
    assert(!("def!"@ =~= "fn*"@));
    assert(!("def!"@ =~= "if"@));
    match r.res {
        Result::Ok(val) => {
            lemma_eval_env_grows(fuel, env, scope, expr);
            assert(o.env == sp_env_define(r.env, scope, name, val));
            crate::env::lemma_define_then_get(r.env, scope, name, val);
        },
        Result::Err(e) => {
            assert(o.res is Err);
        },
    }
}

} // verus!
