use mal::env::Env;
use mal::eval::default_env;
use mal::eval::eval;
use mal::eval::rep;
use mal::eval::EVAL_FUEL;
use mal::form::MalErr;
use mal::form::MalForm;
use mal::printer::pr_str;
use mal::reader::read_str;
use mal::reader::tokenize;

fn run(env: &mut Env, text: &str) -> Result<MalForm, MalErr> {
    let form = read_str(String::from(text))?;
    eval(env, 0, &form, EVAL_FUEL)
}

#[test]
fn eval_test() {
    let mut repl_env = default_env();
    assert_eq!(
        run(&mut repl_env, "(+ 1 (* 2 3) (/ 7 3) (- 4 1))").unwrap(),
        MalForm::Int(12)
    );
}

#[test]
fn pr_str_test() {
    let text = "(+ 17 (* 25 36))";
    assert_eq!(pr_str(&read_str(String::from(text)).unwrap()), text);
}

#[test]
fn map_test() {
    assert_eq!(
        pr_str(&read_str(String::from(r#"{ "a" { :c 0 } "b" 1 }"#)).unwrap()),
        r#"{"a" {:c 0}, "b" 1}"#
    )
}

#[test]
fn tokenize_test() {
    assert_eq!(
        tokenize(String::from(", ( + 1, 2, ) ,")),
        vec!["(", "+", "1", "2", ")"]
    );
    assert_eq!(
        tokenize(String::from(r#"(str "he(ll)o" "world")"#)),
        vec!["(", "str", r#""he(ll)o""#, r#""world""#, ")"]
    );
    assert_eq!(tokenize(String::from(r#""okay""#)), vec![r#""okay""#]);
    assert_eq!(tokenize(String::from(r#""okay"#)), vec![r#""okay"#]);
    assert_eq!(tokenize(String::from(r#"okay""#)), vec!["okay", "\""]);
    assert_eq!(
        tokenize(String::from(r#""ok"ay""#)),
        vec![r#""ok""#, "ay", "\""]
    );
    assert_eq!(tokenize(String::from("\"")), vec!["\""]);
}

#[test]
fn read_test() {
    assert_eq!(
        read_str(String::from("(+ 1 2)")),
        Ok(MalForm::List(vec![
            MalForm::Symbol(String::from("+")),
            MalForm::Int(1),
            MalForm::Int(2)
        ]))
    );
    assert_eq!(
        read_str(String::from("(+ 17 (* 25 36))")),
        Ok(MalForm::List(vec![
            MalForm::Symbol(String::from("+")),
            MalForm::Int(17),
            MalForm::List(vec![
                MalForm::Symbol(String::from("*")),
                MalForm::Int(25),
                MalForm::Int(36)
            ])
        ])),
    );
}

#[test]
fn def_and_let_scopes() {
    let mut env = default_env();
    assert_eq!(run(&mut env, "(def! x 5)").unwrap(), MalForm::Int(5));
    assert_eq!(
        run(&mut env, "(let* (y (+ x 1)) (+ x y))").unwrap(),
        MalForm::Int(11)
    );
    // the let* binding of y does not leak into the outer scope
    assert!(matches!(
        run(&mut env, "y"),
        Err(MalErr::UnboundSymbol(_))
    ));
    // the def! binding of x persists
    assert_eq!(run(&mut env, "x").unwrap(), MalForm::Int(5));
}

#[test]
fn let_sees_earlier_bindings() {
    let mut env = default_env();
    assert_eq!(
        run(&mut env, "(let* (a 1 b (+ a 1)) b)").unwrap(),
        MalForm::Int(2)
    );
}

#[test]
fn def_overwrites() {
    let mut env = default_env();
    run(&mut env, "(def! x 1)").unwrap();
    run(&mut env, "(def! x 2)").unwrap();
    assert_eq!(run(&mut env, "x").unwrap(), MalForm::Int(2));
}

#[test]
fn closure_application() {
    let mut env = default_env();
    assert_eq!(
        run(&mut env, "((fn* (a b) (+ a b)) 3 4)").unwrap(),
        MalForm::Int(7)
    );
    // the call's temporary parameter bindings are gone afterwards
    assert!(matches!(
        run(&mut env, "a"),
        Err(MalErr::UnboundSymbol(_))
    ));
}

#[test]
fn closure_captures_lexically() {
    let mut env = default_env();
    run(&mut env, "(def! x 10)").unwrap();
    run(&mut env, "(def! f (fn* (a) (+ a x)))").unwrap();
    assert_eq!(run(&mut env, "(f 1)").unwrap(), MalForm::Int(11));
    // f resolves x in its captured scope, not in the caller's let*
    assert_eq!(
        run(&mut env, "(let* (x 100) (f 1))").unwrap(),
        MalForm::Int(11)
    );
}

#[test]
fn if_branches() {
    let mut env = default_env();
    assert_eq!(
        run(&mut env, r#"(if (= 1 1) "yes" "no")"#).unwrap(),
        MalForm::Str(String::from("yes"))
    );
    assert_eq!(
        run(&mut env, r#"(if (= 1 2) "yes" "no")"#).unwrap(),
        MalForm::Str(String::from("no"))
    );
    // an empty else body yields nil
    assert_eq!(run(&mut env, "(if (= 1 2) 1)").unwrap(), MalForm::Nil);
}

#[test]
fn unbound_symbol_is_an_error() {
    let mut env = default_env();
    let before = env.scope_count();
    assert!(matches!(
        run(&mut env, "foo"),
        Err(MalErr::UnboundSymbol(_))
    ));
    // the environment is left unchanged
    assert_eq!(env.scope_count(), before);
    assert_eq!(run(&mut env, "(+ 1 1)").unwrap(), MalForm::Int(2));
}

#[test]
fn do_form() {
    let mut env = default_env();
    assert_eq!(run(&mut env, "(do 1 2 3)").unwrap(), MalForm::Int(3));
    assert_eq!(run(&mut env, "(do)").unwrap(), MalForm::Nil);
}

#[test]
fn empty_list_evaluates_to_itself() {
    let mut env = default_env();
    assert_eq!(run(&mut env, "()").unwrap(), MalForm::List(vec![]));
}

#[test]
fn vectors_and_maps_evaluate_elementwise() {
    let mut env = default_env();
    assert_eq!(
        run(&mut env, "[(+ 1 2) 4]").unwrap(),
        MalForm::Vector(vec![MalForm::Int(3), MalForm::Int(4)])
    );
    let m = run(&mut env, r#"{"a" (+ 1 2)}"#).unwrap();
    assert_eq!(pr_str(&m), r#"{"a" 3}"#);
}

#[test]
fn arithmetic_folds() {
    let mut env = default_env();
    assert_eq!(run(&mut env, "(+)").unwrap(), MalForm::Int(0));
    assert_eq!(run(&mut env, "(*)").unwrap(), MalForm::Int(1));
    assert_eq!(run(&mut env, "(- 5)").unwrap(), MalForm::Int(5));
    assert_eq!(run(&mut env, "(- 10 1 2)").unwrap(), MalForm::Int(7));
    assert_eq!(run(&mut env, "(/ 7 3)").unwrap(), MalForm::Int(2));
    // division truncates toward zero
    assert_eq!(run(&mut env, "(/ -7 3)").unwrap(), MalForm::Int(-2));
    assert_eq!(run(&mut env, "(/ 7 -3)").unwrap(), MalForm::Int(-2));
}

#[test]
fn comparisons() {
    let mut env = default_env();
    assert_eq!(run(&mut env, "(< 1 2)").unwrap(), MalForm::Bool(true));
    assert_eq!(run(&mut env, "(<= 2 2)").unwrap(), MalForm::Bool(true));
    assert_eq!(run(&mut env, "(> 1 2)").unwrap(), MalForm::Bool(false));
    assert_eq!(run(&mut env, "(>= 1 2)").unwrap(), MalForm::Bool(false));
    assert_eq!(run(&mut env, "(= 1 2)").unwrap(), MalForm::Bool(false));
    // any non-integer pair compares as not equal, not less, not greater
    assert_eq!(run(&mut env, "(= true true)").unwrap(), MalForm::Bool(false));
    assert_eq!(run(&mut env, r#"(< "a" "b")"#).unwrap(), MalForm::Bool(false));
}

#[test]
fn reader_errors() {
    assert!(matches!(
        read_str(String::from("")),
        Err(MalErr::UnexpectedEof)
    ));
    assert!(matches!(
        read_str(String::from("(1 2")),
        Err(MalErr::Unbalanced)
    ));
    assert!(matches!(
        read_str(String::from("[1 2")),
        Err(MalErr::Unbalanced)
    ));
    assert!(matches!(
        read_str(String::from(r#""abc"#)),
        Err(MalErr::UnbalancedString)
    ));
    assert!(matches!(
        read_str(String::from(")")),
        Err(MalErr::UnknownToken(_))
    ));
    assert!(matches!(
        read_str(String::from("~")),
        Err(MalErr::UnknownToken(_))
    ));
    assert!(matches!(
        read_str(String::from("{1 2}")),
        Err(MalErr::BadMapKey)
    ));
    assert!(matches!(
        read_str(String::from("99999999999999999999999")),
        Err(MalErr::IntOutOfRange)
    ));
}

#[test]
fn comments_and_separators_are_dropped() {
    assert_eq!(tokenize(String::from("1 ; a comment")), vec!["1"]);
    assert_eq!(
        read_str(String::from(",,(+ 1,,, 2),")),
        read_str(String::from("(+ 1 2)"))
    );
}

#[test]
fn int_literal_edges() {
    let mut env = default_env();
    assert_eq!(
        run(&mut env, "-9223372036854775808").unwrap(),
        MalForm::Int(i64::MIN)
    );
    assert_eq!(
        run(&mut env, "9223372036854775807").unwrap(),
        MalForm::Int(i64::MAX)
    );
    assert_eq!(run(&mut env, "+5").unwrap(), MalForm::Int(5));
    assert_eq!(run(&mut env, "007").unwrap(), MalForm::Int(7));
    assert_eq!(
        pr_str(&MalForm::Int(i64::MIN)),
        "-9223372036854775808"
    );
}

#[test]
fn eval_errors() {
    let mut env = default_env();
    assert!(matches!(
        run(&mut env, "(if 1 2 3)"),
        Err(MalErr::NonBooleanCond)
    ));
    assert!(matches!(
        run(&mut env, "(1 2)"),
        Err(MalErr::NotInvokable)
    ));
    assert!(matches!(
        run(&mut env, "((fn* (a) a) 1 2)"),
        Err(MalErr::ArityMismatch)
    ));
    assert!(matches!(run(&mut env, "(-)"), Err(MalErr::ArityMismatch)));
    assert!(matches!(
        run(&mut env, "(< 1 2 3)"),
        Err(MalErr::ArityMismatch)
    ));
    assert!(matches!(
        run(&mut env, "(+ 1 true)"),
        Err(MalErr::TypeMismatch)
    ));
    assert!(matches!(
        run(&mut env, "(/ 1 0)"),
        Err(MalErr::DivideByZero)
    ));
    assert!(matches!(
        run(&mut env, "(+ 9223372036854775807 1)"),
        Err(MalErr::Overflow)
    ));
    assert!(matches!(
        run(&mut env, "(- -9223372036854775808 1)"),
        Err(MalErr::Overflow)
    ));
    assert!(matches!(
        run(&mut env, "(/ -9223372036854775808 -1)"),
        Err(MalErr::Overflow)
    ));
    assert!(matches!(
        run(&mut env, "(def! 1 2)"),
        Err(MalErr::BadSpecialForm(_))
    ));
    assert!(matches!(
        run(&mut env, "(let* (1 2) 3)"),
        Err(MalErr::BadSpecialForm(_))
    ));
    assert!(matches!(
        run(&mut env, "(let* (a) 3)"),
        Err(MalErr::BadSpecialForm(_))
    ));
    assert!(matches!(
        run(&mut env, "(fn* 1 2)"),
        Err(MalErr::BadSpecialForm(_))
    ));
    assert!(matches!(
        run(&mut env, "(if 1)"),
        Err(MalErr::BadSpecialForm(_))
    ));
}

#[test]
fn recursion_hits_the_depth_limit() {
    let mut env = default_env();
    run(&mut env, "(def! f (fn* () (f)))").unwrap();
    let call = read_str(String::from("(f)")).unwrap();
    assert!(matches!(
        eval(&mut env, 0, &call, 50),
        Err(MalErr::DepthLimit)
    ));
}

#[test]
fn rep_round() {
    let mut env = default_env();
    assert_eq!(rep(String::from("(+ 1 1)"), &mut env).unwrap(), "2");
    assert_eq!(rep(String::from("(def! x 41)"), &mut env).unwrap(), "41");
    assert_eq!(rep(String::from("(+ x 1)"), &mut env).unwrap(), "42");
    let err = rep(String::from("nope"), &mut env).unwrap_err();
    assert_eq!(err.message(), "symbol 'nope' not found");
}

#[test]
fn print_literals() {
    let mut env = default_env();
    assert_eq!(pr_str(&run(&mut env, "nil").unwrap()), "nil");
    assert_eq!(pr_str(&run(&mut env, "true").unwrap()), "true");
    assert_eq!(pr_str(&run(&mut env, "false").unwrap()), "false");
    assert_eq!(pr_str(&run(&mut env, "-42").unwrap()), "-42");
    assert_eq!(pr_str(&run(&mut env, r#""hi""#).unwrap()), r#""hi""#);
    assert_eq!(pr_str(&run(&mut env, "[1 2 3]").unwrap()), "[1 2 3]");
    assert_eq!(pr_str(&run(&mut env, "(fn* (a) a)").unwrap()), "<fn>");
    assert_eq!(pr_str(&run(&mut env, "+").unwrap()), "<fn_special>");
}

#[test]
fn print_read_round_trip_on_literals() {
    // whitespace already canonical: printing what was read gives the text back
    for text in [
        "(1 2 (3 4) [5 [6]] nil true false sym \"str\")",
        "[]",
        "()",
        "(+ 1 (* 2 3))",
    ] {
        assert_eq!(pr_str(&read_str(String::from(text)).unwrap()), text);
    }
    // non-canonical whitespace normalizes to single spaces
    assert_eq!(
        pr_str(&read_str(String::from("( 1,  2 )")).unwrap()),
        "(1 2)"
    );
}

#[test]
fn keyword_map_keys_round_trip() {
    let text = "{:k 1, :l 2}";
    assert_eq!(pr_str(&read_str(String::from(text)).unwrap()), text);
}

#[test]
fn duplicate_map_keys_keep_place_take_last_value() {
    assert_eq!(
        pr_str(&read_str(String::from(r#"{"a" 1 "b" 2 "a" 3}"#)).unwrap()),
        r#"{"a" 3, "b" 2}"#
    );
}
