use flexiglob::{FnOperator, GlobOperator, GlobberBuilder, ParseErrorKind, ReverseOp};

#[derive(Clone, Debug)]
struct Section {
    name: String,
    size: u64,
}

struct SortBySize;

impl GlobOperator<Section> for SortBySize {
    fn name(&self) -> &str {
        "SORT_SIZE"
    }

    fn apply(&self, candidates: &mut Vec<Section>) {
        candidates.sort_by_key(|s| s.size);
    }
}

struct FilterGreaterThan {
    min_size: u64,
}

impl GlobOperator<Section> for FilterGreaterThan {
    fn name(&self) -> &str {
        "BIGGER_THAN"
    }

    fn apply(&self, candidates: &mut Vec<Section>) {
        candidates.retain(|s| s.size > self.min_size);
    }
}

fn sections(spec: &[(&str, u64)]) -> Vec<Section> {
    spec.iter().map(|(n, s)| Section { name: n.to_string(), size: *s }).collect()
}

fn names(v: &[Section]) -> Vec<&str> {
    v.iter().map(|s| s.name.as_str()).collect()
}

#[test]
fn readme_struct_and_closure_operators() {
    let candidates = sections(&[(".text.boot", 100), (".text.main", 500), (".data.debug", 200)]);

    let globber = GlobberBuilder::new()
        .with_operator(ReverseOp)
        .with_operator(SortBySize)
        .compile("REVERSE(SORT_SIZE(.text*))")
        .unwrap();
    let results = globber.run(&candidates, |s| &s.name);
    assert_eq!(names(&results), vec![".text.main", ".text.boot"]);

    let globber = GlobberBuilder::new()
        .with_operator(FnOperator::new("INLINE_SORT_SIZE", |candidates: &mut Vec<Section>| {
            candidates.sort_by_key(|s| s.size);
        }))
        .compile("INLINE_SORT_SIZE(.text*)")
        .unwrap();
    let results = globber.run(&candidates, |s| &s.name);
    assert_eq!(names(&results), vec![".text.boot", ".text.main"]);
}

#[test]
fn readme_reverse_example() {
    let globber = GlobberBuilder::<String>::new()
        .with_operator(ReverseOp)
        .compile("REVERSE(stuff[12]*)")
        .unwrap();
    let input: Vec<String> = ["stuff1abc", "stuff2def", "stuff3ghi"].iter().map(|s| s.to_string()).collect();
    assert_eq!(globber.run(&input, |s| s), vec!["stuff2def".to_string(), "stuff1abc".to_string()]);
}

#[test]
fn sort_size_example_with_trace() {
    let candidates = sections(&[(".text.boot", 300), (".text.init", 100), (".text.main", 500), (".data.bss", 200)]);
    let globber = GlobberBuilder::new()
        .with_operator(ReverseOp)
        .with_operator(SortBySize)
        .compile("REVERSE(SORT_SIZE(.text*))")
        .unwrap();
    let stages = std::cell::RefCell::new(Vec::new());
    let trace = |label: &str, items: &[Section]| {
        stages.borrow_mut().push((label.to_string(), items.iter().map(|s| s.size).collect::<Vec<_>>()));
    };
    let results = globber.run_with_trace(&candidates, |s| &s.name, &trace);
    assert_eq!(names(&results), vec![".text.main", ".text.boot", ".text.init"]);
    assert_eq!(
        stages.into_inner(),
        vec![
            ("Leaf matched '.text*'".to_string(), vec![300, 100, 500]),
            ("Applied operator 'SORT_SIZE'".to_string(), vec![100, 300, 500]),
            ("Applied operator 'REVERSE'".to_string(), vec![500, 300, 100]),
        ]
    );
}

#[test]
fn greater_than_example() {
    let candidates = sections(&[(".text.boot", 100), (".text.main", 500), (".data.debug", 200)]);
    let globber = GlobberBuilder::new()
        .with_operator(FilterGreaterThan { min_size: 150 })
        .compile("BIGGER_THAN(.text*)")
        .unwrap();
    let results = globber.run(&candidates, |s| &s.name);
    assert_eq!(names(&results), vec![".text.main"]);
}

#[test]
fn scan_hint_ignores_operator_wrappers() {
    let builder = GlobberBuilder::<String>::new()
        .with_operator(ReverseOp)
        .with_operator(FnOperator::new("SORT", |v: &mut Vec<String>| v.sort()));
    for pattern in ["some/path/*.elf", "SORT(some/path/*.elf)", "REVERSE(SORT(some/path/*.elf))"] {
        let globber = builder.compile(pattern).unwrap();
        assert_eq!(globber.scan_hint().root, "some/path/");
    }
}

#[test]
fn error_reporting_example() {
    let builder = GlobberBuilder::<String>::new()
        .with_operator(ReverseOp)
        .with_operator(FnOperator::new("SORT", |_v: &mut Vec<String>| {}));

    let e = builder.compile("REVERSE(SORT(.text*").err().unwrap();
    assert_eq!(e.kind, ParseErrorKind::MismatchedParentheses);
    assert_eq!(e.span, 7..8);
    assert_eq!(e.message, "Missing closing parenthesis for operator");

    let e = builder.compile("REVERSE(SORTR(.text*))").err().unwrap();
    assert_eq!(e.kind, ParseErrorKind::InvalidOperator("SORTR".to_string()));
    assert_eq!(e.span, 8..13);
    assert_eq!(e.message, "Invalid or unrecognized operator name 'SORTR'");

    let e = builder.compile("SORT(.text[a-z)").err().unwrap();
    assert_eq!(e.kind, ParseErrorKind::UnterminatedBracketSet);
    assert_eq!(e.span, 10..14);
    assert_eq!(e.message, "Unterminated bracket set");

    let e = builder.compile("REVERSE(.text*)extra").err().unwrap();
    assert_eq!(e.kind, ParseErrorKind::UnexpectedTrailingCharacters);
    assert_eq!(e.span, 15..20);
}

#[test]
fn builder_survives_a_failed_compile() {
    let builder = GlobberBuilder::<String>::new().with_operator(ReverseOp);
    assert!(builder.compile("REVERSE(UNKNOWN(x*))").is_err());
    let globber = builder.compile("REVERSE(x*)").unwrap();
    let input = vec!["x1".to_string(), "x2".to_string()];
    assert_eq!(globber.run(&input, |s| s), vec!["x2".to_string(), "x1".to_string()]);
}
