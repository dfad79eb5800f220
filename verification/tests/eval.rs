use volang::ast::{Atom, Expr};
use volang::eval::{eval, Env, EvalErr};
use volang::parse::parser;

const FUEL: u64 = 1000;

fn name(n: &str) -> Expr {
    Expr::Constant(Atom::Name(n.to_string()))
}

fn string(s: &str) -> Expr {
    Expr::Constant(Atom::String(s.to_string()))
}

fn run(src: &str) -> (Env, String) {
    let (rest, exprs) = parser(src);
    assert_eq!(rest, "", "program did not parse whole: {src}");
    let mut env = Env::new();
    let mut out = String::new();
    for e in exprs {
        eval(e, &mut env, &mut out, FUEL).unwrap();
    }
    (env, out)
}

#[test]
fn constants_evaluate_to_themselves() {
    let mut env = Env::new();
    let mut out = String::new();
    assert_eq!(
        eval(string("hi"), &mut env, &mut out, FUEL).unwrap(),
        string("hi")
    );
    assert_eq!(eval(Expr::Void, &mut env, &mut out, FUEL).unwrap(), Expr::Void);
    let clo = Expr::Closure(vec!["a".to_string()], vec![Expr::Void]);
    assert_eq!(eval(clo.clone(), &mut env, &mut out, FUEL).unwrap(), clo);
    assert_eq!(out, "");
}

#[test]
fn lookup_is_non_forcing() {
    // Binding then referencing without evaluating in between: the lookup
    // hands back the unevaluated call, not its result.
    let mut env = Env::new();
    let mut out = String::new();
    let bind = Expr::Let(
        "x".to_string(),
        Box::new(Expr::Call("echo".to_string(), vec![])),
    );
    assert_eq!(eval(bind, &mut env, &mut out, FUEL).unwrap(), Expr::Void);
    let fetched = eval(name("x"), &mut env, &mut out, FUEL).unwrap();
    assert_eq!(fetched, Expr::Call("echo".to_string(), vec![]));
    assert_eq!(out, "", "the stored echo call must not have run");
}

#[test]
fn env_stores_raw_and_last_write_wins() {
    let mut env = Env::new();
    env.insert("x".to_string(), string("first"));
    env.insert("y".to_string(), Expr::Void);
    env.insert("x".to_string(), string("second"));
    assert_eq!(env.get(&"x".to_string()), Some(string("second")));
    assert_eq!(env.get(&"y".to_string()), Some(Expr::Void));
    assert_eq!(env.get(&"z".to_string()), None);
}

#[test]
fn unbound_name_is_fatal() {
    let mut env = Env::new();
    let mut out = String::new();
    assert_eq!(
        eval(name("nope"), &mut env, &mut out, FUEL),
        Err(EvalErr::UnboundName("nope".to_string()))
    );
}

#[test]
fn calling_an_absent_name_is_fatal() {
    let mut env = Env::new();
    let mut out = String::new();
    assert_eq!(
        eval(Expr::Call("g".to_string(), vec![]), &mut env, &mut out, FUEL),
        Err(EvalErr::NotAFunction("g".to_string()))
    );
}

#[test]
fn calling_a_non_closure_is_fatal() {
    let mut env = Env::new();
    let mut out = String::new();
    eval(
        Expr::Let("x".to_string(), Box::new(string("s"))),
        &mut env,
        &mut out,
        FUEL,
    )
    .unwrap();
    assert_eq!(
        eval(Expr::Call("x".to_string(), vec![]), &mut env, &mut out, FUEL),
        Err(EvalErr::NotAFunction("x".to_string()))
    );
}

#[test]
fn exhausted_depth_is_reported() {
    let mut env = Env::new();
    let mut out = String::new();
    assert_eq!(
        eval(Expr::Void, &mut env, &mut out, 0),
        Err(EvalErr::DepthExceeded)
    );
}

#[test]
fn closure_call_yields_void_even_for_valued_body() {
    let mut env = Env::new();
    let mut out = String::new();
    let clo = Expr::Closure(vec!["x".to_string()], vec![string("value")]);
    eval(
        Expr::Let("f".to_string(), Box::new(clo)),
        &mut env,
        &mut out,
        FUEL,
    )
    .unwrap();
    let r = eval(
        Expr::Call("f".to_string(), vec![string("a")]),
        &mut env,
        &mut out,
        FUEL,
    )
    .unwrap();
    assert_eq!(r, Expr::Void);
    assert_eq!(out, "");
}

#[test]
fn closure_does_not_mutate_caller_environment() {
    let mut env = Env::new();
    let mut out = String::new();
    eval(
        Expr::Let("x".to_string(), Box::new(string("outer"))),
        &mut env,
        &mut out,
        FUEL,
    )
    .unwrap();
    let body = Expr::Let("x".to_string(), Box::new(string("inner")));
    let clo = Expr::Closure(vec![], vec![body]);
    eval(
        Expr::Let("f".to_string(), Box::new(clo)),
        &mut env,
        &mut out,
        FUEL,
    )
    .unwrap();
    eval(Expr::Call("f".to_string(), vec![]), &mut env, &mut out, FUEL).unwrap();
    // The caller still sees its own binding.
    assert_eq!(eval(name("x"), &mut env, &mut out, FUEL).unwrap(), string("outer"));
}

#[test]
fn surplus_arguments_are_evaluated_but_never_bound() {
    let mut env = Env::new();
    let mut out = String::new();
    // f takes one parameter and echoes it.
    let clo = Expr::Closure(
        vec!["a".to_string()],
        vec![Expr::Call("echo".to_string(), vec![name("a")])],
    );
    eval(
        Expr::Let("f".to_string(), Box::new(clo)),
        &mut env,
        &mut out,
        FUEL,
    )
    .unwrap();
    // The surplus argument is an echo itself: its effect must show up,
    // before the body's own output.
    let surplus = Expr::Call("echo".to_string(), vec![string("z")]);
    eval(
        Expr::Call("f".to_string(), vec![string("x"), surplus]),
        &mut env,
        &mut out,
        FUEL,
    )
    .unwrap();
    assert_eq!(out, "Constant(String(\"z\"))Constant(String(\"x\"))");
}

#[test]
fn surplus_parameters_stay_unbound() {
    let mut env = Env::new();
    let mut out = String::new();
    let clo = Expr::Closure(
        vec!["a".to_string(), "b".to_string()],
        vec![Expr::Call("echo".to_string(), vec![name("b")])],
    );
    eval(
        Expr::Let("f".to_string(), Box::new(clo)),
        &mut env,
        &mut out,
        FUEL,
    )
    .unwrap();
    assert_eq!(
        eval(
            Expr::Call("f".to_string(), vec![string("x")]),
            &mut env,
            &mut out,
            FUEL,
        ),
        Err(EvalErr::UnboundName("b".to_string()))
    );
}

#[test]
fn greeting_scenario_prints_exactly_once() {
    let (_, out) = run("vo greeting = \"hi\" echo(greeting)");
    assert_eq!(out, "Constant(String(\"hi\"))");
}

#[test]
fn double_scenario_prints_twice_with_no_separator() {
    let (_, out) = run("vo double = |x| echo(x,x) double(\"a\")");
    assert_eq!(out, "Constant(String(\"a\"))Constant(String(\"a\"))");
}

#[test]
fn echo_renders_debug_text() {
    assert_eq!(Expr::Void.debug_text(), "Void");
    assert_eq!(
        string("hi").debug_text(),
        "Constant(String(\"hi\"))"
    );
    assert_eq!(
        Expr::Constant(Atom::Float("1.5".to_string())).debug_text(),
        "Constant(Float(1.5))"
    );
    assert_eq!(
        Expr::Let("x".to_string(), Box::new(Expr::Void)).debug_text(),
        "Let(\"x\", Void)"
    );
    assert_eq!(
        Expr::Call("f".to_string(), vec![name("x"), Expr::Void]).debug_text(),
        "Call(\"f\", [Constant(Name(\"x\")), Void])"
    );
    assert_eq!(
        Expr::Closure(vec!["a".to_string(), "b".to_string()], vec![Expr::Void]).debug_text(),
        "Closure([\"a\", \"b\"], [Void])"
    );
}

#[test]
fn to_text_renders_display_text() {
    assert_eq!(Atom::String("hi".to_string()).to_text(), "\"hi\"");
    assert_eq!(Atom::Float("1.5".to_string()).to_text(), "1.5");
    assert_eq!(Atom::Name("x".to_string()).to_text(), "x");
    assert_eq!(string("hi").to_text(), "\"hi\"");
    assert_eq!(Expr::Void.to_text(), "");
}
