use flexiglob::parser::identifier_from_classes;
use flexiglob::paths::{normalize, traversal_root};
use flexiglob::{
    compile_pattern, wildcard_match, FnOperator, GlobOperator, GlobberBuilder, MatchToken, ParseErrorKind,
    ParsedPattern, ReverseOp, ScanHint,
};

fn matches(pattern: &str, candidate: &str) -> bool {
    wildcard_match(&compile_pattern(pattern).unwrap(), candidate)
}

#[test]
fn star_never_crosses_a_separator() {
    assert!(matches("*", ""));
    assert!(matches("*", "abc"));
    assert!(!matches("*", "a/b"));
    assert!(!matches("*", "/"));
}

#[test]
fn globstar_matches_everything() {
    assert!(matches("**", ""));
    assert!(matches("**", "a/b/c"));
    assert!(matches("**", "/"));
}

#[test]
fn globstar_separator_may_match_no_directory() {
    assert!(matches("a/**/b", "a/b"));
    assert!(matches("a/**/b", "a/x/y/b"));
    assert!(!matches("a/**/b", "ab"));
}

#[test]
fn question_mark_is_one_non_separator_char() {
    assert!(matches("?", "x"));
    assert!(matches("?", "é"));
    assert!(!matches("?", ""));
    assert!(!matches("?", "xy"));
    assert!(!matches("?", "/"));
}

#[test]
fn bracket_sets_and_negated_sets() {
    assert!(matches("[abc]", "b"));
    assert!(!matches("[abc]", "d"));
    assert!(matches("[^abc]", "d"));
    assert!(!matches("[^abc]", "a"));
    assert!(!matches("[^abc]", "/"));
    assert!(matches("[/]", "/"));
    assert!(matches("[a-c]", "b"));
    assert!(!matches("[a-c]", "d"));
}

#[test]
fn plain_pattern_matches_exactly_itself() {
    assert!(matches("src/lib.rs", "src/lib.rs"));
    assert!(!matches("src/lib.rs", "src/lib.r"));
    assert!(!matches("src/lib.rs", "src/lib.rss"));
    let tokens = compile_pattern("ab").unwrap();
    assert_eq!(tokens, vec![MatchToken::Char('a'), MatchToken::Char('b')]);
}

#[test]
fn escapes_are_literals() {
    assert_eq!(compile_pattern("\\*").unwrap(), vec![MatchToken::Char('*')]);
    assert_eq!(compile_pattern("\\(").unwrap(), vec![MatchToken::Char('(')]);
    assert!(matches("\\[x\\]", "[x]"));
    assert!(matches("a\\\\b", "a\\b"));
}

#[test]
fn double_star_compiles_to_one_token() {
    assert_eq!(compile_pattern("**").unwrap(), vec![MatchToken::AnySeq]);
    assert_eq!(compile_pattern("*").unwrap(), vec![MatchToken::AnySeqNoSeparator]);
    assert_eq!(compile_pattern("***").unwrap(), vec![MatchToken::AnySeq, MatchToken::AnySeqNoSeparator]);
}

#[test]
fn invalid_escape_messages_and_spans() {
    let e = compile_pattern("a\\b").unwrap_err();
    assert_eq!(e.kind, ParseErrorKind::InvalidEscape('b'));
    assert_eq!(e.span, 1..3);
    assert_eq!(
        e.message,
        "Backslash is the escape character; use '/' as the path separator in flexiglob patterns"
    );

    let e2 = compile_pattern("\\!").unwrap_err();
    assert_eq!(e2.kind, ParseErrorKind::InvalidEscape('!'));
    assert_eq!(e2.span, 0..2);
    assert_eq!(e2.message, "'\\!' is not a recognized escape sequence");

    // A non-ASCII letter is alphanumeric; it takes two bytes.
    let e3 = compile_pattern("\\é").unwrap_err();
    assert_eq!(e3.kind, ParseErrorKind::InvalidEscape('é'));
    assert_eq!(e3.span, 0..3);
    assert!(e3.message.starts_with("Backslash is the escape character"));

    let e4 = compile_pattern("[\\q]").unwrap_err();
    assert_eq!(e4.kind, ParseErrorKind::InvalidEscape('q'));
    assert_eq!(e4.span, 1..3);
}

#[test]
fn bracket_errors() {
    let e = compile_pattern("x[ab").unwrap_err();
    assert_eq!(e.kind, ParseErrorKind::UnterminatedBracketSet);
    assert_eq!(e.span, 1..4);
    assert_eq!(e.message, "Unterminated bracket set");

    let e2 = compile_pattern("[a\\").unwrap_err();
    assert_eq!(e2.kind, ParseErrorKind::UnterminatedBracketSet);
    assert_eq!(e2.span, 0..3);
    assert_eq!(e2.message, "Dangling backslash inside bracket set");

    let e3 = compile_pattern("[^]").unwrap_err();
    assert_eq!(e3.kind, ParseErrorKind::EmptyBrackets);
    assert_eq!(e3.span, 0..3);
    assert_eq!(e3.message, "Empty brackets '[]' never match anything");

    // "a-]" reads as a descending range, so the set is not closed.
    let e4 = compile_pattern("[a-]").unwrap_err();
    assert_eq!(e4.kind, ParseErrorKind::UnterminatedBracketSet);
}

#[test]
fn dangling_backslash_message() {
    let e = compile_pattern("ab\\").unwrap_err();
    assert_eq!(e.kind, ParseErrorKind::UnexpectedTrailingCharacters);
    assert_eq!(e.span, 2..3);
    assert_eq!(e.message, "Dangling backslash at end of pattern");
}

#[test]
fn parenthesis_errors_and_messages() {
    let e = ParsedPattern::parse("SORT(x", |_| true).unwrap_err();
    assert_eq!(e.kind, ParseErrorKind::MismatchedParentheses);
    assert_eq!(e.message, "Missing closing parenthesis for operator");
    assert_eq!(e.to_string(), "Missing closing parenthesis for operator at 4..5");

    let e2 = ParsedPattern::parse("SORT(x)yz", |_| true).unwrap_err();
    assert_eq!(e2.kind, ParseErrorKind::UnexpectedTrailingCharacters);
    assert_eq!(e2.span, 7..9);
    assert_eq!(e2.message, "Unexpected trailing characters after operator closing parenthesis: 'yz'");

    // Escaped parentheses still count towards the operator's nesting depth.
    let e3 = ParsedPattern::parse("SORT(a\\))", |_| true).unwrap_err();
    assert_eq!(e3.kind, ParseErrorKind::UnexpectedTrailingCharacters);
    assert_eq!(e3.span, 8..9);
}

#[test]
fn invalid_operator_message_and_span() {
    let e = ParsedPattern::parse("  NOPE(x)", |_| false).unwrap_err();
    assert_eq!(e.kind, ParseErrorKind::InvalidOperator("NOPE".to_string()));
    assert_eq!(e.span, 2..6);
    assert_eq!(e.message, "Invalid or unrecognized operator name 'NOPE'");
    assert_eq!(e.to_string(), "Invalid or unrecognized operator name 'NOPE' at 2..6");
}

#[test]
fn blank_pattern_is_empty_at_its_end() {
    let e = ParsedPattern::parse("  \t ", |_| true).unwrap_err();
    assert_eq!(e.kind, ParseErrorKind::EmptyPattern);
    assert_eq!(e.span, 4..4);
    assert_eq!(e.message, "Empty pattern string");
    let e2 = ParsedPattern::parse("OP(  )", |_| true).unwrap_err();
    assert_eq!(e2.kind, ParseErrorKind::EmptyPattern);
    assert_eq!(e2.span, 5..5);
}

#[test]
fn whitespace_around_patterns_is_ignored() {
    let p = ParsedPattern::parse("  OP ( \u{3000}x* ) ", |op| op == "OP").unwrap();
    assert_eq!(
        p,
        ParsedPattern::Operator {
            name: "OP".to_string(),
            inner: Box::new(ParsedPattern::Leaf {
                pattern: "x*".to_string(),
                tokens: compile_pattern("x*").unwrap(),
            }),
        }
    );
}

#[test]
fn operator_names_are_unicode_identifiers() {
    let p = ParsedPattern::parse("Ünï_1(x)", |op| op == "Ünï_1").unwrap();
    assert!(matches!(p, ParsedPattern::Operator { ref name, .. } if name == "Ünï_1"));
    let e = ParsedPattern::parse("_x(y)", |_| false).unwrap_err();
    assert_eq!(e.kind, ParseErrorKind::InvalidOperator("_x".to_string()));
    // A name that is not an identifier makes the whole input a wildcard.
    let leaf = ParsedPattern::parse("a.b(c)", |_| true).unwrap();
    assert!(matches!(leaf, ParsedPattern::Leaf { .. }));
}

#[test]
fn leaf_errors_are_shifted_to_the_whole_input() {
    let e = ParsedPattern::parse("OP( ä[x)", |_| true).unwrap_err();
    assert_eq!(e.kind, ParseErrorKind::UnterminatedBracketSet);
    assert_eq!(e.span, 6..8);
}

#[test]
fn duplicate_registration_is_refused() {
    let mut builder = GlobberBuilder::<String>::new();
    assert!(builder.register_operator(ReverseOp).is_ok());
    let e = builder.register_operator(ReverseOp).unwrap_err();
    assert_eq!(e.kind, ParseErrorKind::DuplicateOperator("REVERSE".to_string()));
    assert_eq!(e.span, 0..0);
    assert_eq!(e.message, "operator 'REVERSE' is already registered");
    // The first registration stays in force.
    let g = builder.compile("REVERSE(*)").unwrap();
    let res = g.run(&["a".to_string(), "b".to_string()], |s| s);
    assert_eq!(res, vec!["b".to_string(), "a".to_string()]);
}

#[test]
fn reverse_twice_restores_order() {
    let g = GlobberBuilder::<String>::new()
        .with_operator(ReverseOp)
        .compile("REVERSE(REVERSE(*))")
        .unwrap();
    let input = vec!["c".to_string(), "a".to_string(), "b".to_string()];
    assert_eq!(g.run(&input, |s| s), input);
}

#[test]
fn reverse_op_and_fn_operator_names() {
    assert_eq!(GlobOperator::<u8>::name(&ReverseOp), "REVERSE");
    let op = FnOperator::new("KEEP", |_v: &mut Vec<u8>| {});
    assert_eq!(op.name(), "KEEP");
    let mut v = vec![1u8, 2, 3];
    GlobOperator::<u8>::apply(&ReverseOp, &mut v);
    assert_eq!(v, vec![3, 2, 1]);
}

#[test]
fn leaf_run_keeps_candidate_order_and_filters() {
    let g = GlobberBuilder::<String>::new().compile("*.rs").unwrap();
    let input: Vec<String> = ["b.rs", "a.txt", "a.rs", "dir/c.rs"].iter().map(|s| s.to_string()).collect();
    assert_eq!(g.run(&input, |s| s), vec!["b.rs".to_string(), "a.rs".to_string()]);
}

#[test]
fn trace_reports_every_stage() {
    let g = GlobberBuilder::<String>::new()
        .with_operator(ReverseOp)
        .compile("REVERSE(x*)")
        .unwrap();
    let log = std::cell::RefCell::new(Vec::new());
    let trace = |label: &str, items: &[String]| log.borrow_mut().push((label.to_string(), items.len()));
    let input = vec!["x1".to_string(), "y".to_string(), "x2".to_string()];
    let res = g.run_with_trace(&input, |s| s, &trace);
    assert_eq!(res, vec!["x2".to_string(), "x1".to_string()]);
    assert_eq!(
        log.into_inner(),
        vec![("Leaf matched 'x*'".to_string(), 2), ("Applied operator 'REVERSE'".to_string(), 2)]
    );
}

fn hint_of(pattern: &str) -> (String, bool, bool) {
    let builder = GlobberBuilder::<String>::new().with_operator(FnOperator::new("SORT_SIZE", |_v: &mut Vec<String>| {}));
    let g = builder.compile(pattern).unwrap();
    let h: ScanHint = g.scan_hint();
    (h.root.to_string(), h.is_recursive, h.is_literal)
}

#[test]
fn scan_hints() {
    assert_eq!(hint_of("src/**/*.rs"), ("src/".to_string(), true, false));
    assert_eq!(hint_of("src/parser/*.rs"), ("src/parser/".to_string(), false, false));
    assert_eq!(hint_of("src/parser/ast.rs"), ("src/parser/ast.rs".to_string(), false, true));
    assert_eq!(hint_of(".text*"), ("".to_string(), false, false));
    assert_eq!(hint_of("src/foo\\*.rs"), ("src/foo\\*.rs".to_string(), false, true));
    assert_eq!(hint_of("SORT_SIZE(src/**/*.rs)"), ("src/".to_string(), true, false));
    assert_eq!(hint_of("a/b[xy]/c"), ("a/".to_string(), false, false));
}

#[test]
fn path_helpers() {
    assert_eq!(normalize("a\\b\\c.rs"), "a/b/c.rs");
    assert_eq!(normalize("plain"), "plain");
    let root = ScanHint { root: "", is_recursive: false, is_literal: false };
    assert_eq!(traversal_root(&root), ".");
    let root2 = ScanHint { root: "src/", is_recursive: true, is_literal: false };
    assert_eq!(traversal_root(&root2), "src/");
}

#[test]
fn error_text_of_larger_spans() {
    let e = ParsedPattern::parse("0123456789ABCDEF\\", |_| true).unwrap_err();
    assert_eq!(e.to_string(), "Dangling backslash at end of pattern at 16..17");
}

#[test]
fn identifier_shape_from_character_classes() {
    assert!(identifier_from_classes(&vec!['a', '1'], true, &vec![true, true]));
    assert!(identifier_from_classes(&vec!['_', 'x'], false, &vec![false, true]));
    assert!(!identifier_from_classes(&vec!['1', 'x'], false, &vec![true, true]));
    assert!(!identifier_from_classes(&vec!['a', '-'], true, &vec![true, false]));
    assert!(!identifier_from_classes(&vec![], true, &vec![]));
}

#[test]
fn clones_keep_every_part() {
    let e = ParsedPattern::parse("DUP(x)", |_| false).unwrap_err();
    let c = e.clone();
    assert_eq!(c.kind, ParseErrorKind::InvalidOperator("DUP".to_string()));
    assert_eq!(c, e);
    let p = ParsedPattern::parse("A(B([ab]*))", |_| true).unwrap();
    assert_eq!(p.clone(), p);
}

#[test]
fn operators_run_innermost_first() {
    let drop_first = FnOperator::new("DROP_FIRST", |v: &mut Vec<String>| {
        if !v.is_empty() {
            v.remove(0);
        }
    });
    let builder = GlobberBuilder::<String>::new().with_operator(ReverseOp).with_operator(drop_first);
    let input: Vec<String> = ["a", "b", "c"].iter().map(|s| s.to_string()).collect();
    let g = builder.compile("REVERSE(DROP_FIRST(*))").unwrap();
    assert_eq!(g.run(&input, |s| s), vec!["c".to_string(), "b".to_string()]);
}

#[test]
fn operator_stage_is_inner_run_then_operator() {
    let input: Vec<String> = ["x3", "y", "x1", "x2"].iter().map(|s| s.to_string()).collect();
    let inner = GlobberBuilder::<String>::new().compile("x*").unwrap().run(&input, |s| s);
    let outer = GlobberBuilder::<String>::new()
        .with_operator(ReverseOp)
        .compile("REVERSE(x*)")
        .unwrap()
        .run(&input, |s| s);
    let mut reversed = inner.clone();
    reversed.reverse();
    assert_eq!(outer, reversed);
}

#[test]
fn compile_error_spans_start_at_backslash_or_bracket() {
    for pattern in ["a\\q", "x[", "[]", "é[a\\", "ab\\", "[\\z]", "ü\\é"] {
        let e = compile_pattern(pattern).unwrap_err();
        assert!(e.span.start < e.span.end, "{}", pattern);
        assert!(e.span.end <= pattern.len());
        assert!(pattern.is_char_boundary(e.span.start) && pattern.is_char_boundary(e.span.end));
        let first = pattern.as_bytes()[e.span.start];
        assert!(first == b'\\' || first == b'[', "{}", pattern);
    }
}

#[test]
fn paren_free_pattern_is_its_trimmed_compiled_text() {
    let p = ParsedPattern::parse("  src/*.rs\t", |_| true).unwrap();
    assert_eq!(
        p,
        ParsedPattern::Leaf { pattern: "src/*.rs".to_string(), tokens: compile_pattern("src/*.rs").unwrap() }
    );
    assert_eq!(ParsedPattern::parse("   ", |_| true).unwrap_err().kind, ParseErrorKind::EmptyPattern);
}

#[test]
fn scan_hint_root_is_a_prefix() {
    for pattern in ["src/**/*.rs", "src/parser/ast.rs", ".text*", "a/b[xy]/c", "x/y?z"] {
        let (root, _, literal) = hint_of(pattern);
        assert!(pattern.starts_with(root.as_str()));
        assert_eq!(literal, root == pattern);
        if !literal {
            assert!(root.is_empty() || root.ends_with('/'));
        }
    }
}

#[test]
fn leading_whitespace_only_moves_spans() {
    for body in ["REVERSE(x*)", "a\\q", "[", "X(a", "é[b"] {
        let plain = ParsedPattern::parse(body, |n| n == "REVERSE");
        let padded_input = format!("   {}", body);
        let padded = ParsedPattern::parse(&padded_input, |n| n == "REVERSE");
        match (plain, padded) {
            (Ok(a), Ok(b)) => assert_eq!(a, b),
            (Err(a), Err(b)) => {
                assert_eq!(a.kind, b.kind);
                assert_eq!(a.message, b.message);
                assert_eq!(b.span, a.span.start + 3..a.span.end + 3);
            }
            _ => panic!("outcomes differ for {}", body),
        }
    }
}

#[test]
fn matches_start_with_the_scan_root() {
    let g = GlobberBuilder::<String>::new().compile("src/**/*.rs").unwrap();
    let root = g.scan_hint().root.to_string();
    let input: Vec<String> = ["src/a.rs", "src/x/y.rs", "lib/src/a.rs"].iter().map(|s| s.to_string()).collect();
    for m in g.run(&input, |s| s) {
        assert!(m.starts_with(root.as_str()));
    }
    assert!(wildcard_match(&[], ""));
    assert!(!wildcard_match(&[], "a"));
}

#[test]
fn paren_free_errors_are_compile_errors_moved_by_leading_whitespace() {
    for body in ["a\\q", "x[", "[]", "ab\\"] {
        let input = format!(" \t{}  ", body);
        let parsed = ParsedPattern::parse(&input, |_| true).unwrap_err();
        let compiled = compile_pattern(body).unwrap_err();
        assert_eq!(parsed.kind, compiled.kind);
        assert_eq!(parsed.message, compiled.message);
        assert_eq!(parsed.span, compiled.span.start + 2..compiled.span.end + 2);
    }
}

#[test]
fn literal_pattern_matches_exactly_its_root() {
    let (root, _, literal) = hint_of("src/parser/ast.rs");
    assert!(literal);
    assert!(matches("src/parser/ast.rs", &root));
    assert!(!matches("src/parser/ast.rs", "src/parser/ast.rsx"));
    assert!(!matches("src/parser/ast.rs", "src/parser/"));
}

fn render(p: &ParsedPattern) -> String {
    match p {
        ParsedPattern::Leaf { pattern, .. } => pattern.clone(),
        ParsedPattern::Operator { name, inner } => format!("{}({})", name, render(inner)),
    }
}

#[test]
fn rendered_pattern_parses_back() {
    for input in ["  REVERSE ( SORT(  src/(a)*.rs ) ) ", "(.text*)", "A((x))", "X ( [()] )"] {
        let valid = |n: &str| n == "REVERSE" || n == "SORT" || n == "A" || n == "X";
        let p = ParsedPattern::parse(input, valid).unwrap();
        let again = ParsedPattern::parse(&render(&p), valid).unwrap();
        assert_eq!(again, p, "{}", input);
    }
}
