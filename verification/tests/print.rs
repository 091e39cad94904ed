use std::collections::HashMap;

use regdef::lexer::Builtin;
use regdef::parser::Expression;
use regdef::RegexKind;

#[test]
fn print_literal_escapes_meta_and_whitespace() {
    let defs: HashMap<&str, Expression> = HashMap::new();
    let e = Expression::Literal("a.b\n".to_owned());
    assert_eq!(regdef::compiler::compile(&e, &defs, RegexKind::Re2), "a\\.b\\n");
}

#[test]
fn print_joined_and_alternative() {
    let defs: HashMap<&str, Expression> = HashMap::new();
    let e = Expression::Joined(vec![
        Expression::Literal("x".to_owned()),
        Expression::Alternative(vec![
            Expression::Builtin(Builtin::Digit),
            Expression::Literal("+".to_owned()),
        ]),
    ]);
    assert_eq!(regdef::compiler::compile(&e, &defs, RegexKind::Re2), "x(?:\\d|\\+)");
}

#[test]
fn print_space_and_empty_join() {
    let defs: HashMap<&str, Expression> = HashMap::new();
    assert_eq!(
        regdef::compiler::compile(&Expression::Builtin(Builtin::Space), &defs, RegexKind::Re2),
        " "
    );
    assert_eq!(
        regdef::compiler::compile(&Expression::Joined(vec![]), &defs, RegexKind::Re2),
        ""
    );
    assert_eq!(
        regdef::compiler::compile(&Expression::Alternative(vec![]), &defs, RegexKind::Re2),
        "(?:)"
    );
}
