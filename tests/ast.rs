use brainfuck::{Ast, Operator};

#[test]
fn parse_keeps_comments_and_renders_back() {
    let src = "++ [->+<] hello, world.";
    let ast = Ast::parse_str(src).unwrap();
    assert_eq!(ast.to_string(), src);
}

#[test]
fn parse_builds_nested_loops() {
    let ast = Ast::parse_str("+[-[>]]").unwrap();
    assert_eq!(ast.0.len(), 2);
    assert!(matches!(ast.0[0], Operator::Incr));
    match &ast.0[1] {
        Operator::Sub(body) => {
            assert_eq!(body.0.len(), 2);
            assert!(matches!(body.0[0], Operator::Decr));
            match &body.0[1] {
                Operator::Sub(inner) => {
                    assert_eq!(inner.0.len(), 1);
                    assert!(matches!(inner.0[0], Operator::Next));
                }
                _ => panic!("expected a loop"),
            }
        }
        _ => panic!("expected a loop"),
    }
}

#[test]
fn parse_rejects_unmatched_close() {
    assert_eq!(Ast::parse_str("+]").err().unwrap(), "Unmatched `]`.");
    assert_eq!(Ast::parse_str("[]]").err().unwrap(), "Unmatched `]`.");
    assert_eq!(Ast::parse_str("][").err().unwrap(), "Unmatched `]`.");
}

#[test]
fn parse_rejects_unmatched_open() {
    assert_eq!(Ast::parse_str("[").err().unwrap(), "Unmatched `[`.");
    assert_eq!(Ast::parse_str("[[-]").err().unwrap(), "Unmatched `[`.");
}

#[test]
fn parse_of_empty_source_is_empty_program() {
    let ast = Ast::parse_str("").unwrap();
    assert_eq!(ast.0.len(), 0);
    assert_eq!(ast.to_string(), "");
}

#[test]
fn round_trip_reparses_to_same_text() {
    let src = "a[b[c]d]e,.<>";
    let first = Ast::parse_str(src).unwrap();
    let again = Ast::parse_str(&first.to_string()).unwrap();
    assert_eq!(again.to_string(), first.to_string());
    assert_eq!(again.0.len(), first.0.len());
}

#[test]
fn operator_from_char_and_text() {
    assert!(matches!(Operator::from_char('+'), Operator::Incr));
    assert!(matches!(Operator::from_char('-'), Operator::Decr));
    assert!(matches!(Operator::from_char('<'), Operator::Prev));
    assert!(matches!(Operator::from_char('>'), Operator::Next));
    assert!(matches!(Operator::from_char('['), Operator::Skip));
    assert!(matches!(Operator::from_char(']'), Operator::Loop));
    assert!(matches!(Operator::from_char('.'), Operator::Put));
    assert!(matches!(Operator::from_char(','), Operator::Get));
    assert!(matches!(Operator::from_char('x'), Operator::Nop('x')));
    assert_eq!(Operator::from_char('x').to_string(), "x");
    assert_eq!(Operator::from_char(',').to_string(), ",");
}
