use regdef::inliner::InlinedExpression;
use regdef::lexer::Builtin;
use regdef::parser::{Definition, Expression};

fn def<'a>(name: &'a str, value: Expression<'a>) -> Definition<'a> {
    Definition { name, value }
}

#[test]
fn inline_expands_root() {
    let source = "x := ONEOF \"ab\"\nEXPORT := x + NOTHING + DIGIT";
    let defs = vec![
        (def("x", Expression::Oneof("ab".to_owned())), 0..15),
        (
            def(
                "EXPORT",
                Expression::Joined(vec![
                    Expression::Ident("x"),
                    Expression::Nothing,
                    Expression::Builtin(Builtin::Digit),
                ]),
            ),
            16..44,
        ),
    ];
    let r = regdef::inliner::inline("defs.txt", source, "EXPORT", defs).unwrap();
    assert_eq!(
        r,
        InlinedExpression::Joined(vec![
            InlinedExpression::Alternative(vec![
                InlinedExpression::Literal("a".to_owned()),
                InlinedExpression::Literal("b".to_owned()),
            ]),
            InlinedExpression::Joined(vec![]),
            InlinedExpression::Builtin(Builtin::Digit),
        ])
    );
}

#[test]
fn inline_reports_redefinitions() {
    let source = "a := \"x\"\na := \"y\"\na := \"z\"";
    let defs = vec![
        (def("a", Expression::Literal("x".to_owned())), 0..8),
        (def("a", Expression::Literal("y".to_owned())), 9..17),
        (def("a", Expression::Literal("z".to_owned())), 18..26),
    ];
    let ds = regdef::inliner::inline("defs.txt", source, "a", defs).unwrap_err();
    assert_eq!(ds.len(), 2);
    assert_eq!(ds[0].error, "Redefinition of a");
    assert_eq!(ds[0].path, "defs.txt");
    assert_eq!(ds[0].resolve_positions(), Some(((2, 1), (2, 9))));
    assert_eq!(ds[1].error, "Redefinition of a");
    assert_eq!(ds[1].resolve_positions(), Some(((3, 1), (3, 9))));
}

#[test]
fn inline_reports_missing_root() {
    let defs = vec![(def("a", Expression::Literal("x".to_owned())), 0..8)];
    let ds = regdef::inliner::inline("defs.txt", "a := \"x\"", "ROOT", defs).unwrap_err();
    assert_eq!(ds.len(), 1);
    assert_eq!(ds[0].error, "ROOT is not defined");
    assert_eq!(ds[0].resolve_positions(), None);
}

#[test]
fn inline_reports_loop() {
    let defs = vec![
        (def("a", Expression::Optional(Box::new(Expression::Ident("b")))), 0..12),
        (def("b", Expression::Ident("a")), 13..19),
    ];
    let ds = regdef::inliner::inline("defs.txt", "", "a", defs).unwrap_err();
    assert_eq!(ds.len(), 1);
    assert_eq!(ds[0].error, "recursive loop detected: b, a all depend on each other");
}

fn export_defs<'a>() -> Vec<Definition<'a>> {
    vec![
        def("x", Expression::Oneof("ab".to_owned())),
        def(
            "EXPORT",
            Expression::Joined(vec![Expression::Ident("x"), Expression::Literal("c".to_owned())]),
        ),
    ]
}

#[test]
fn inline_agrees_with_process() {
    let processed = regdef::processor::process(export_defs()).unwrap();
    assert_eq!(
        processed,
        regdef::processor::InlinedExpression::Joined(vec![
            regdef::processor::InlinedExpression::Alternative(vec![
                regdef::processor::InlinedExpression::Char('a'),
                regdef::processor::InlinedExpression::Char('b'),
            ]),
            regdef::processor::InlinedExpression::Literal("c".to_owned()),
        ])
    );
    let spans = vec![0..13, 14..30];
    let listed = export_defs().into_iter().zip(spans).collect::<Vec<_>>();
    let inlined = regdef::inliner::inline("defs.txt", "", "EXPORT", listed).unwrap();
    assert_eq!(
        inlined,
        InlinedExpression::Joined(vec![
            InlinedExpression::Alternative(vec![
                InlinedExpression::Literal("a".to_owned()),
                InlinedExpression::Literal("b".to_owned()),
            ]),
            InlinedExpression::Literal("c".to_owned()),
        ])
    );
}

#[test]
fn inline_and_process_reject_repeated_names() {
    let twice = || vec![def("EXPORT", Expression::Nothing), def("EXPORT", Expression::Nothing)];
    assert_eq!(
        regdef::processor::process(twice()).unwrap_err(),
        "duplicate definition: EXPORT"
    );
    let listed = twice().into_iter().zip(vec![0..17, 18..35]).collect::<Vec<_>>();
    let ds = regdef::inliner::inline("defs.txt", "", "EXPORT", listed).unwrap_err();
    assert_eq!(ds.len(), 1);
    assert_eq!(ds[0].error, "Redefinition of EXPORT");
    assert!(ds[0].span.is_some());
}
