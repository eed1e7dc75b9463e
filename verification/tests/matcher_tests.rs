use flexiglob::{compile_pattern, wildcard_match};

#[test]
fn test_wildcard_matching() {
    let tok1 = compile_pattern("*.elf").unwrap();
    assert!(wildcard_match(&tok1, "main.elf"));
    assert!(wildcard_match(&tok1, "utils.elf"));
    assert!(!wildcard_match(&tok1, "main.elf.old"));

    let tok2 = compile_pattern("a?b").unwrap();
    assert!(wildcard_match(&tok2, "axb"));
    assert!(wildcard_match(&tok2, "a_b"));
    assert!(!wildcard_match(&tok2, "ab"));
    assert!(!wildcard_match(&tok2, "axxxb"));

    let tok3 = compile_pattern("*.foo[12]").unwrap();
    assert!(wildcard_match(&tok3, "test.foo1"));
    assert!(wildcard_match(&tok3, "test.foo2"));
    assert!(!wildcard_match(&tok3, "test.foo3"));

    let tok4 = compile_pattern("foo\\*bar").unwrap();
    assert!(wildcard_match(&tok4, "foo*bar"));
    assert!(!wildcard_match(&tok4, "fooxbar"));

    // Test all escape characters specified in README:
    // \* (star), \? (question), \[ (open bracket), \] (close bracket), \" (double quote), \\ (backslash)
    let tok5 = compile_pattern("a\\*b\\?c\\[d\\]e\\\"f\\\\g").unwrap();
    assert!(wildcard_match(&tok5, "a*b?c[d]e\"f\\g"));
    assert!(!wildcard_match(&tok5, "axbxc[d]e\"f\\g"));
}

#[test]
fn test_backtracking() {
    let tok = compile_pattern("a*b*c").unwrap();
    assert!(wildcard_match(&tok, "abc"));
    assert!(wildcard_match(&tok, "axbxc"));
    assert!(wildcard_match(&tok, "abxbxc"));
    assert!(!wildcard_match(&tok, "axb"));
}

#[test]
fn test_ranges() {
    let tok = compile_pattern("foo[a-z0-9]").unwrap();
    assert!(wildcard_match(&tok, "fooa"));
    assert!(wildcard_match(&tok, "foo5"));
    assert!(!wildcard_match(&tok, "fooA"));
}

#[test]
fn test_path_aware_matching() {
    // Test single wildcard '*' does not match separators
    let tok_star = compile_pattern("src/*.rs").unwrap();
    assert!(wildcard_match(&tok_star, "src/lib.rs"));
    assert!(wildcard_match(&tok_star, "src/main.rs"));
    assert!(!wildcard_match(&tok_star, "src/parser/ast.rs"));
    assert!(!wildcard_match(&tok_star, "lib.rs"));

    // Test double wildcard '**' matches recursively (including separators)
    let tok_globstar = compile_pattern("src/**/*.rs").unwrap();
    assert!(wildcard_match(&tok_globstar, "src/lib.rs"));
    assert!(wildcard_match(&tok_globstar, "src/parser/ast.rs"));
    assert!(wildcard_match(&tok_globstar, "src/parser/ast/node.rs"));
    assert!(!wildcard_match(&tok_globstar, "lib.rs"));

    // Test question mark '?' does not match separators
    let tok_question = compile_pattern("a?b").unwrap();
    assert!(wildcard_match(&tok_question, "axb"));
    assert!(!wildcard_match(&tok_question, "a/b"));
    assert!(wildcard_match(&tok_question, "a\\b")); // '/' is the only separator; '\' is an ordinary char in candidates

    // Test complex nested matching
    let tok_complex = compile_pattern("**/a/*").unwrap();
    assert!(wildcard_match(&tok_complex, "x/a/y"));
    assert!(wildcard_match(&tok_complex, "x/a/y/a/z"));
    assert!(!wildcard_match(&tok_complex, "x/a/y/z")); // second wildcard is single '*', cannot match 'y/z'
}
