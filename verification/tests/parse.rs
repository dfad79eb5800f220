use volang::ast::{Atom, Expr};
use volang::parse::{
    parse_atom, parse_call, parse_closure, parse_constant, parse_expr, parse_float, parse_let,
    parse_name, parse_string, parser, ws,
};

#[test]
fn test_parse_string() {
    let input = "\"Hello, world!\"";
    let (_, result) = parse_string(input).unwrap();
    assert_eq!(result, Atom::String("Hello, world!".to_string()));
}

#[test]
fn test_parse_name() {
    let input = "test";
    let (_, result) = parse_name(input).unwrap();
    assert_eq!(result, Atom::Name("test".to_string()));
}

#[test]
fn test_parse_float() {
    let input = "1.0";
    let (_, result) = parse_float(input).unwrap();
    assert_eq!(result, Atom::Float("1.0".to_string()));
}

#[test]
fn test_parse_call() {
    let input = "echo(\"Hello, world!\")";
    let (_, result) = parse_call(input).unwrap();
    assert_eq!(
        result,
        Expr::Call(
            "echo".to_string(),
            vec![Expr::Constant(Atom::String("Hello, world!".to_string()))]
        )
    );
}

#[test]
fn test_parse_let() {
    let test_cases = vec!["vo a = \"test\"", "vo   a    =    \"test\"   "];
    for tc in test_cases {
        let (_, result) = parse_let(tc).unwrap();
        assert_eq!(
            result,
            Expr::Let(
                "a".to_string(),
                Box::new(Expr::Constant(Atom::String("test".to_string())))
            )
        )
    }
}

#[test]
fn test_parse_closure() {
    let test_cases = vec![
        (
            "|a| \"hello\"",
            Expr::Closure(
                vec!["a".to_string()],
                vec![Expr::Constant(Atom::String("hello".to_string()))],
            ),
        ),
        (
            "|a, b| \"hello\"",
            Expr::Closure(
                vec!["a".to_string(), "b".to_string()],
                vec![Expr::Constant(Atom::String("hello".to_string()))],
            ),
        ),
    ];

    for (input, expected) in test_cases {
        let (_, result) = parse_closure(input).unwrap();
        assert_eq!(result, expected);
    }
}

#[test]
fn string_round_trips_byte_for_byte() {
    let (rest, result) = parse_expr("\"a b\tc, |x| vo = 1.5\"").unwrap();
    assert_eq!(rest, "");
    assert_eq!(
        result,
        Expr::Constant(Atom::String("a b\tc, |x| vo = 1.5".to_string()))
    );
}

#[test]
fn string_without_closing_quote_fails() {
    assert!(parse_string("\"abc").is_err());
}

#[test]
fn call_arity_three_in_order() {
    let (rest, result) = parse_call("f(a,b,c)").unwrap();
    assert_eq!(rest, "");
    assert_eq!(
        result,
        Expr::Call(
            "f".to_string(),
            vec![
                Expr::Constant(Atom::Name("a".to_string())),
                Expr::Constant(Atom::Name("b".to_string())),
                Expr::Constant(Atom::Name("c".to_string())),
            ]
        )
    );
}

#[test]
fn call_arity_zero() {
    let (rest, result) = parse_call("f()").unwrap();
    assert_eq!(rest, "");
    assert_eq!(result, Expr::Call("f".to_string(), vec![]));
}

#[test]
fn let_with_extra_whitespace_everywhere() {
    let (rest, result) = parse_expr("vo \t n \n =  42").unwrap();
    assert_eq!(rest, "");
    assert_eq!(
        result,
        Expr::Let(
            "n".to_string(),
            Box::new(Expr::Constant(Atom::Float("42".to_string())))
        )
    );
}

#[test]
fn let_wins_over_call_named_vo() {
    // `vo` followed by a binding is always a binding, never a call.
    let (_, result) = parse_expr("vo a = b").unwrap();
    assert!(matches!(result, Expr::Let(_, _)));
}

#[test]
fn float_is_tried_before_name() {
    let (rest, result) = parse_atom("1.5e3rest").unwrap();
    assert_eq!(result, Atom::Float("1.5e3".to_string()));
    assert_eq!(rest, "rest");
}

#[test]
fn float_forms() {
    let cases = vec![
        ("-2.5", "-2.5", ""),
        ("+3", "+3", ""),
        ("3.", "3.", ""),
        (".5", ".5", ""),
        ("3e2", "3e2", ""),
        ("2E-4x", "2E-4", "x"),
        ("3exyz", "3", "exyz"),
    ];
    for (input, lexeme, rest) in cases {
        let (r, result) = parse_float(input).unwrap();
        assert_eq!(result, Atom::Float(lexeme.to_string()), "input {input}");
        assert_eq!(r, rest, "input {input}");
    }
    assert!(parse_float("abc").is_err());
    assert!(parse_float("-x").is_err());
    assert!(parse_float(".x").is_err());
}

#[test]
fn constant_wraps_atom() {
    let (_, result) = parse_constant("hi").unwrap();
    assert_eq!(result, Expr::Constant(Atom::Name("hi".to_string())));
}

#[test]
fn expr_rejects_leftover_only_input() {
    assert!(parse_expr("= x").is_err());
    assert!(parse_expr("").is_err());
}

#[test]
fn closure_empty_params() {
    let (rest, result) = parse_closure("|| echo()").unwrap();
    assert_eq!(rest, "");
    assert_eq!(
        result,
        Expr::Closure(vec![], vec![Expr::Call("echo".to_string(), vec![])])
    );
}

#[test]
fn ws_strips_leading_whitespace() {
    assert_eq!(ws("  \t\n\rx y "), "x y ");
    assert_eq!(ws("xy"), "xy");
    assert_eq!(ws("   "), "");
}

#[test]
fn parser_reads_whole_program() {
    let (rest, exprs) = parser("vo a = 1.0 echo(a)");
    assert_eq!(rest, "");
    assert_eq!(exprs.len(), 2);
    assert_eq!(
        exprs[0],
        Expr::Let(
            "a".to_string(),
            Box::new(Expr::Constant(Atom::Float("1.0".to_string())))
        )
    );
    assert_eq!(
        exprs[1],
        Expr::Call(
            "echo".to_string(),
            vec![Expr::Constant(Atom::Name("a".to_string()))]
        )
    );
}

#[test]
fn parser_on_empty_input() {
    let (rest, exprs) = parser("");
    assert_eq!(rest, "");
    assert!(exprs.is_empty());
}

#[test]
fn named_function_declaration_is_not_valid_syntax() {
    // Closures are anonymous values bound via `vo`, not named declarations:
    // the leftover input after the leading call shows the parse failed.
    let (rest, exprs) = parser("double(x) = |x| echo(x, x)");
    assert_eq!(rest, "= |x| echo(x, x)");
    assert_eq!(exprs.len(), 1);
    assert_eq!(
        exprs[0],
        Expr::Call(
            "double".to_string(),
            vec![Expr::Constant(Atom::Name("x".to_string()))]
        )
    );
}
