use regdef::diagnostic::{Diagnostic, Span};
use regdef::generator::generate;
use regdef::lexer::{lex, Builtin, Ident, Token};
use regdef::parser::{parse, Definition, Expression};
use regdef::processor::{process, InlinedExpression};
use regdef::{compile, RegexKind};

#[test]
fn lex_tokens() {
    let tokens = lex("x := OPTIONAL MULTIPLE ONEOF NOTHING DIGIT y_2 \"q\" + / ; note\r\n\r\n").unwrap();
    assert_eq!(
        tokens,
        vec![
            Token::Ident(Ident::Definition("x")),
            Token::Define,
            Token::Optional,
            Token::Multiple,
            Token::Oneof,
            Token::Nothing,
            Token::Ident(Ident::Builtin(Builtin::Digit)),
            Token::Ident(Ident::Definition("y_2")),
            Token::Literal("q".to_owned()),
            Token::Join,
            Token::Alt,
            Token::Newline,
            Token::Newline,
        ]
    );
}

#[test]
fn lex_keyword_prefix_is_a_name() {
    let tokens = lex("OPTIONALS NOTHINGx").unwrap();
    assert_eq!(
        tokens,
        vec![
            Token::Ident(Ident::Definition("OPTIONALS")),
            Token::Ident(Ident::Definition("NOTHINGx")),
        ]
    );
}

#[test]
fn lex_line_breaks() {
    assert_eq!(lex("\r\r\n\n").unwrap(), vec![Token::Newline, Token::Newline, Token::Newline]);
}

#[test]
fn lex_unicode_word() {
    assert_eq!(lex("été").unwrap(), vec![Token::Ident(Ident::Definition("été"))]);
}

#[test]
fn lex_escapes() {
    assert_eq!(
        lex(r#""a\tb\"c""#).unwrap(),
        vec![Token::Literal("a\tb\"c".to_owned())]
    );
}

#[test]
fn lex_error_unknown_char() {
    assert_eq!(lex("EXPORT := @").unwrap_err(), r#"unexpected "@" at 1:11"#);
}

#[test]
fn lex_error_colon() {
    assert_eq!(lex("a\nb : c").unwrap_err(), r#"unexpected ":" at 2:3"#);
}

#[test]
fn lex_error_unterminated_literal() {
    assert_eq!(lex("EXPORT := \"abc").unwrap_err(), r#"unexpected "\"abc" at 1:11"#);
}

#[test]
fn lex_error_bad_escape() {
    assert_eq!(lex(r#"x := "\q""#).unwrap_err(), r#"unexpected "\"\\q\"" at 1:6"#);
}

#[test]
fn lex_error_escaped_line_break() {
    assert_eq!(lex("x := \"a\\\nb\"").unwrap_err(), r#"unexpected "\"a\\" at 1:6"#);
}

#[test]
fn builtin_names() {
    assert_eq!("DIGIT".parse::<Builtin>(), Ok(Builtin::Digit));
    assert_eq!("WCHAR".parse::<Builtin>(), Ok(Builtin::WordChar));
    assert_eq!("WHITESPACE".parse::<Builtin>(), Ok(Builtin::WhiteSpace));
    assert_eq!("SPACE".parse::<Builtin>(), Ok(Builtin::Space));
    assert_eq!("TAB".parse::<Builtin>(), Ok(Builtin::Tab));
    assert_eq!("CR".parse::<Builtin>(), Ok(Builtin::CarriageReturn));
    assert_eq!("LF".parse::<Builtin>(), Ok(Builtin::Linefeed));
    assert_eq!("VTAB".parse::<Builtin>(), Ok(Builtin::VerticalTab));
    assert_eq!("FORMFEED".parse::<Builtin>(), Ok(Builtin::FormFeed));
    assert_eq!("NUL".parse::<Builtin>(), Ok(Builtin::Nul));
    assert_eq!("digit".parse::<Builtin>(), Err(()));
}

#[test]
fn builtin_build() {
    assert_eq!(Builtin::Digit.build(), "\\d");
    assert_eq!(Builtin::WordChar.build(), "\\w");
    assert_eq!(Builtin::WhiteSpace.build(), "\\s");
    assert_eq!(Builtin::Space.build(), " ");
    assert_eq!(Builtin::Tab.build(), "\\t");
    assert_eq!(Builtin::CarriageReturn.build(), "\\r");
    assert_eq!(Builtin::Linefeed.build(), "\\n");
    assert_eq!(Builtin::VerticalTab.build(), "\\v");
    assert_eq!(Builtin::FormFeed.build(), "\\f");
    assert_eq!(Builtin::Nul.build(), "\\0");
}

#[test]
fn builtin_contains() {
    assert!(Builtin::Digit.contains('7'));
    assert!(!Builtin::Digit.contains('a'));
    assert!(Builtin::WordChar.contains('Z'));
    assert!(!Builtin::WordChar.contains('_'));
    assert!(Builtin::WhiteSpace.contains('\u{a0}'));
    assert!(Builtin::WhiteSpace.contains('\x0b'));
    assert!(!Builtin::WhiteSpace.contains('x'));
    assert!(Builtin::Nul.contains('\0'));
}

#[test]
fn builtin_contains_builtin() {
    assert!(Builtin::WordChar.contains_builtin(Builtin::Digit));
    assert!(Builtin::WhiteSpace.contains_builtin(Builtin::Tab));
    assert!(Builtin::Tab.contains_builtin(Builtin::Tab));
    assert!(!Builtin::Digit.contains_builtin(Builtin::WordChar));
    assert!(!Builtin::WhiteSpace.contains_builtin(Builtin::Nul));
}

#[test]
fn parse_definitions() {
    let tokens = lex("\n a := OPTIONAL MULTIPLE \"x\" / ONEOF \"yz\" + b\n\nEXPORT := NOTHING\n").unwrap();
    let defs = parse(&tokens).unwrap();
    assert_eq!(
        defs,
        vec![
            Definition {
                name: "a",
                value: Expression::Joined(vec![
                    Expression::Alternative(vec![
                        Expression::Multiple(Box::new(Expression::Optional(Box::new(
                            Expression::Literal("x".to_owned())
                        )))),
                        Expression::Oneof("yz".to_owned()),
                    ]),
                    Expression::Ident("b"),
                ]),
            },
            Definition { name: "EXPORT", value: Expression::Nothing },
        ]
    );
}

#[test]
fn parse_empty_file() {
    let tokens = lex("\n\n").unwrap();
    assert_eq!(parse(&tokens).unwrap(), vec![]);
}

#[test]
fn parse_error_missing_value() {
    let tokens = lex("EXPORT :=").unwrap();
    assert_eq!(parse(&tokens).unwrap_err(), "unexpected end of input at token 2");
}

#[test]
fn parse_error_two_on_a_line() {
    let tokens = lex("EXPORT := \"a\" \"b\"").unwrap();
    assert_eq!(parse(&tokens).unwrap_err(), "unexpected literal at token 3");
}

#[test]
fn parse_error_trailing_alt() {
    let tokens = lex("EXPORT := \"a\" /\n").unwrap();
    assert_eq!(parse(&tokens).unwrap_err(), "unexpected line break at token 4");
}

#[test]
fn parse_error_class_as_name() {
    let tokens = lex("DIGIT := \"a\"").unwrap();
    assert_eq!(parse(&tokens).unwrap_err(), "unexpected name at token 0");
}

fn processed(input: &str) -> Result<InlinedExpression, String> {
    let tokens = lex(input).unwrap();
    let defs = parse(&tokens).unwrap();
    process(defs)
}

#[test]
fn process_inlines() {
    assert_eq!(
        processed("a := ONEOF \"xy\"\nEXPORT := a + DIGIT").unwrap(),
        InlinedExpression::Joined(vec![
            InlinedExpression::Alternative(vec![
                InlinedExpression::Char('x'),
                InlinedExpression::Char('y'),
            ]),
            InlinedExpression::Builtin(Builtin::Digit),
        ])
    );
}

#[test]
fn process_duplicate() {
    assert_eq!(
        processed("a := \"x\"\nEXPORT := a\na := \"y\"").unwrap_err(),
        "duplicate definition: a"
    );
}

#[test]
fn process_no_export() {
    assert_eq!(processed("a := \"x\"").unwrap_err(), "EXPORT is not defined");
}

#[test]
fn process_undefined() {
    assert_eq!(processed("EXPORT := b").unwrap_err(), "b is not defined");
}

#[test]
fn process_loop() {
    assert_eq!(
        processed("EXPORT := a\na := b\nb := a").unwrap_err(),
        "recursive loop detected: a, b all depend on each other"
    );
}

#[test]
fn process_self_reference() {
    assert_eq!(
        processed("EXPORT := EXPORT").unwrap_err(),
        "recursive loop detected: EXPORT all depend on each other"
    );
}

#[test]
fn process_name_used_twice() {
    assert_eq!(
        processed("x := \"a\"\nEXPORT := x + x").unwrap_err(),
        "recursive loop detected: x all depend on each other"
    );
}

#[test]
fn generate_other_engines() {
    for kind in [
        RegexKind::PosixEre,
        RegexKind::Pcre,
        RegexKind::Ecmascript,
        RegexKind::Python,
        RegexKind::Java,
    ] {
        assert_eq!(
            generate(InlinedExpression::Char('a'), kind).unwrap_err(),
            "Only RE2 is supported as of now"
        );
    }
}

#[test]
fn generate_shapes() {
    let e = InlinedExpression::Joined(vec![
        InlinedExpression::Literal("a.b".to_owned()),
        InlinedExpression::Optional(Box::new(InlinedExpression::Literal("c\nd".to_owned()))),
        InlinedExpression::ZeroOrMore(Box::new(InlinedExpression::Builtin(Builtin::Space))),
        InlinedExpression::Alternative(vec![
            InlinedExpression::Char('['),
            InlinedExpression::Builtin(Builtin::Digit),
            InlinedExpression::Literal("xy".to_owned()),
            InlinedExpression::Char('-'),
        ]),
        InlinedExpression::Alternative(vec![
            InlinedExpression::Char('a'),
            InlinedExpression::Literal("bc".to_owned()),
        ]),
        InlinedExpression::Nothing,
    ]);
    assert_eq!(generate(e, RegexKind::Re2).unwrap(), r"a\.b(?:c\nd)? *(?:[-\[\d]|xy)(?:a|bc)");
}

#[test]
fn build_re2_atoms() {
    assert_eq!(InlinedExpression::Char('+').build_re2(), (r"\+".to_owned(), true));
    assert_eq!(InlinedExpression::Literal("ab".to_owned()).build_re2(), ("ab".to_owned(), false));
    assert_eq!(InlinedExpression::Nothing.build_re2(), (String::new(), true));
    assert_eq!(InlinedExpression::Alternative(vec![]).build_re2(), ("(?:)".to_owned(), true));
}

#[test]
fn compile_error_from_lexer() {
    assert_eq!(compile("EXPORT := ?", RegexKind::Re2).unwrap_err(), r#"unexpected "?" at 1:11"#);
}

#[test]
fn compile_other_engine() {
    assert_eq!(
        compile("EXPORT := \"a\"", RegexKind::Pcre).unwrap_err(),
        "Only RE2 is supported as of now"
    );
}

#[test]
fn compile_whitespace_class() {
    assert_eq!(
        compile("EXPORT := \" \" / TAB / WHITESPACE / \"a\"", RegexKind::Re2).unwrap(),
        r"[\s\ta]"
    );
}

#[test]
fn diagnostic_positions() {
    let d = Diagnostic {
        path: "defs.txt",
        source: "ab\ncd",
        error: "bad".to_owned(),
        span: Some(Span::from(3..5)),
    };
    assert_eq!(d.resolve_positions(), Some(((2, 1), (2, 3))));
    let none = Diagnostic { path: "defs.txt", source: "ab", error: "bad".to_owned(), span: None };
    assert_eq!(none.resolve_positions(), None);
}

#[test]
fn diagnostic_positions_count_bytes() {
    let d = Diagnostic {
        path: "defs.txt",
        source: "é\nx",
        error: "bad".to_owned(),
        span: Some(Span::from(1..3)),
    };
    assert_eq!(d.resolve_positions(), Some(((1, 2), (2, 1))));
}

#[test]
fn diagnostic_positions_ordered() {
    let source = "a\nbb\nccc";
    for (start, end) in [(1, 8), (0, 0), (2, 5), (4, 4), (0, 9)] {
        let d = Diagnostic {
            path: "defs.txt",
            source,
            error: "bad".to_owned(),
            span: Some(Span::from(start..end)),
        };
        let ((l1, c1), (l2, c2)) = d.resolve_positions().unwrap();
        assert!(l1 < l2 || (l1 == l2 && c1 <= c2));
    }
    let d = Diagnostic {
        path: "defs.txt",
        source,
        error: "bad".to_owned(),
        span: Some(Span::from(1..8)),
    };
    assert_eq!(d.resolve_positions(), Some(((1, 2), (3, 4))));
}

#[test]
fn lex_error_message_position() {
    assert_eq!(
        regdef::lexer::error_message("ab\ncd", 4, "\"d\""),
        "unexpected \"d\" at 2:2"
    );
    assert_eq!(regdef::lexer::error_message("x", 0, "?"), "unexpected ? at 1:1");
}

fn read_literal(t: &str) -> String {
    let mut out = String::new();
    let mut chars = t.chars();
    while let Some(c) = chars.next() {
        if c == '\\' {
            match chars.next() {
                Some('n') => out.push('\n'),
                Some('r') => out.push('\r'),
                Some('t') => out.push('\t'),
                Some('v') => out.push('\x0b'),
                Some('f') => out.push('\x0c'),
                Some(e) => out.push(e),
                None => out.push('\\'),
            }
        } else {
            out.push(c);
        }
    }
    out
}

#[test]
fn literal_reads_back() {
    for l in ["a.b", "\\n", "x\ny", "\t-[]", "$^{}|~&#", "é\x0b\x0c\r", ""] {
        let printed = generate(InlinedExpression::Literal(l.to_owned()), RegexKind::Re2).unwrap();
        assert_eq!(read_literal(&printed), l);
    }
    assert_eq!(
        generate(InlinedExpression::Literal("a\\n.".to_owned()), RegexKind::Re2).unwrap(),
        "a\\\\n\\."
    );
}

#[test]
fn diagnostic_message() {
    let d = Diagnostic {
        path: "defs.txt",
        source: "ab\ncd",
        error: "Redefinition of a".to_owned(),
        span: Some(Span::from(3..5)),
    };
    assert_eq!(
        d.message(),
        "An error occurred in defs.txt at 2:1 (to 2:3):\nRedefinition of a\n"
    );
    let none = Diagnostic { path: "defs.txt", source: "", error: "EXPORT is not defined".to_owned(), span: None };
    assert_eq!(none.message(), "An error occurred in defs.txt:\nEXPORT is not defined\n");
}
