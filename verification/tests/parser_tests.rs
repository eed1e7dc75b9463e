use flexiglob::{compile_pattern, ParseErrorKind, ParsedPattern};

fn leaf(pat: &str) -> ParsedPattern {
    ParsedPattern::Leaf {
        pattern: pat.to_string(),
        tokens: compile_pattern(pat).unwrap(),
    }
}

#[test]
fn test_parser_basic() {
    let pat1 = ParsedPattern::parse(".text*", |_| false).unwrap();
    assert_eq!(pat1, leaf(".text*"));

    let pat2 = ParsedPattern::parse("REVERSE(.text*)", |op| op == "REVERSE").unwrap();
    assert_eq!(
        pat2,
        ParsedPattern::Operator {
            name: "REVERSE".to_string(),
            inner: Box::new(leaf(".text*"))
        }
    );
}

#[test]
fn test_parser_nested() {
    let pat = ParsedPattern::parse("REVERSE(SORT(.text*))", |op| op == "REVERSE" || op == "SORT").unwrap();
    assert_eq!(
        pat,
        ParsedPattern::Operator {
            name: "REVERSE".to_string(),
            inner: Box::new(ParsedPattern::Operator {
                name: "SORT".to_string(),
                inner: Box::new(leaf(".text*"))
            })
        }
    );
}

#[test]
fn test_parser_errors() {
    // Unknown operator
    let err1 = ParsedPattern::parse("SORT_XYZ(.text*)", |op| op == "SORT").unwrap_err();
    assert!(matches!(err1.kind, ParseErrorKind::InvalidOperator(_)));
    assert_eq!(err1.span, 0..8);

    // Mismatched paren
    let err2 = ParsedPattern::parse("SORT(.text*", |op| op == "SORT").unwrap_err();
    assert!(matches!(err2.kind, ParseErrorKind::MismatchedParentheses));
    assert_eq!(err2.span, 4..5);

    // Unexpected trailing chars
    let err3 = ParsedPattern::parse("SORT(.text*)foo", |op| op == "SORT").unwrap_err();
    assert!(matches!(err3.kind, ParseErrorKind::UnexpectedTrailingCharacters));
    assert_eq!(err3.span, 12..15);
}
