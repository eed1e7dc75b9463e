use flexiglob::{FnOperator, GlobOperator, GlobberBuilder, ReverseOp};

#[derive(Clone, Debug, PartialEq)]
struct Item {
    name: String,
    val: u32,
}

struct SortValOp;
impl GlobOperator<Item> for SortValOp {
    fn name(&self) -> &str {
        "SORT_VAL"
    }
    fn apply(&self, candidates: &mut Vec<Item>) {
        candidates.sort_by_key(|c| c.val);
    }
}

#[test]
fn test_pipeline_execution() {
    let builder = GlobberBuilder::new()
        .with_operator(ReverseOp)
        .with_operator(SortValOp);
    let globber = builder.compile("REVERSE(SORT_VAL(item*))").unwrap();

    let candidates = vec![
        Item { name: "item1".to_string(), val: 30 },
        Item { name: "item2".to_string(), val: 10 },
        Item { name: "item3".to_string(), val: 20 },
    ];

    // Standard evaluation
    let result = globber.run(&candidates, |item| &item.name);
    assert_eq!(result.len(), 3);
    assert_eq!(result[0].name, "item1"); // Sorted would be item2(10), item3(20), item1(30); Reversed is 1, 3, 2.
    assert_eq!(result[1].name, "item3");
    assert_eq!(result[2].name, "item2");
}

#[test]
fn test_fn_operator() {
    let builder = GlobberBuilder::new()
        .with_operator(ReverseOp)
        .with_operator(FnOperator::new("SORT_VAL", |candidates: &mut Vec<Item>| {
            candidates.sort_by_key(|c| c.val);
        }));
    let globber = builder.compile("REVERSE(SORT_VAL(item*))").unwrap();

    let candidates = vec![
        Item { name: "item1".to_string(), val: 30 },
        Item { name: "item2".to_string(), val: 10 },
        Item { name: "item3".to_string(), val: 20 },
    ];

    let result = globber.run(&candidates, |item| &item.name);
    assert_eq!(result.len(), 3);
    assert_eq!(result[0].name, "item1");
    assert_eq!(result[1].name, "item3");
    assert_eq!(result[2].name, "item2");
}
