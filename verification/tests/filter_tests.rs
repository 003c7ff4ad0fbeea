use vpack_engine::query::{compare_number, get_nested_value, path_segments};
use vpack_engine::{matches_filter, Chunk, ChunkMetadata, FilterOp, MetadataFilter, Number, Value};

fn text(s: &str) -> Value {
    Value::String(s.to_string())
}

fn whole(n: u64) -> Value {
    Value::Number(Number::PosInt(n))
}

fn float(x: f64) -> Value {
    Value::Number(Number::Float(x.to_bits()))
}

fn object(members: Vec<(&str, Value)>) -> Value {
    Value::Object(members.into_iter().map(|(k, v)| (k.to_string(), v)).collect())
}

fn chunk(extra: Vec<(&str, Value)>) -> Chunk {
    Chunk {
        id: "id-1".to_string(),
        text: "some text".to_string(),
        metadata: ChunkMetadata {
            source_plugin: "@vpack/source-fs".to_string(),
            source_id: "docs/a.md".to_string(),
            source_url: None,
            created_at: Some("2024-01-01".to_string()),
            updated_at: None,
            pack_name: "pack".to_string(),
            chunker_plugin: "@vpack/chunker-fixed".to_string(),
            extra: extra.into_iter().map(|(k, v)| (k.to_string(), v)).collect(),
        },
    }
}

fn sample() -> Chunk {
    chunk(vec![
        ("category", text("finance")),
        ("pages", whole(12)),
        ("weight", float(0.75)),
        ("debt", Value::Number(Number::NegInt(-4))),
        ("draft", Value::Null),
        ("tags", Value::Array(vec![text("a"), text("b")])),
        ("author", object(vec![("name", text("Ada")), ("born", whole(1815))])),
    ])
}

fn passes(chunk: &Chunk, field: &str, op: FilterOp, value: Option<Value>) -> bool {
    let filter = MetadataFilter { field: field.to_string(), op, value };
    let first = matches_filter(chunk, &filter);
    let second = matches_filter(chunk, &filter);
    assert_eq!(first, second);
    first
}

#[test]
fn a_path_splits_at_its_dots() {
    assert_eq!(path_segments("category"), vec!["category"]);
    assert_eq!(path_segments("author.name"), vec!["author", "name"]);
    assert_eq!(path_segments("a.b.c"), vec!["a", "b", "c"]);
    assert_eq!(path_segments(""), vec![""]);
    assert_eq!(path_segments("."), vec!["", ""]);
    assert_eq!(path_segments("a..b"), vec!["a", "", "b"]);
    assert_eq!(path_segments("a."), vec!["a", ""]);
    assert_eq!(path_segments(".a"), vec!["", "a"]);
    assert_eq!(path_segments("caf\u{e9}.na\u{ef}ve"), vec!["caf\u{e9}", "na\u{ef}ve"]);
}

#[test]
fn a_path_agrees_with_split() {
    for path in ["", "a", "ab.cd", "..", "x.y.", "\u{4e2d}.\u{6587}.z", "source_plugin"] {
        let expected: Vec<String> = path.split('.').map(|s| s.to_string()).collect();
        assert_eq!(path_segments(path), expected);
    }
}

#[test]
fn nested_values_are_reached_through_objects_only() {
    let root = object(vec![
        ("a", object(vec![("b", object(vec![("c", whole(1))]))])),
        ("list", Value::Array(vec![whole(1)])),
        ("s", text("x")),
    ]);
    assert!(get_nested_value(&root, "a.b.c").unwrap().deep_eq(&whole(1)));
    assert!(get_nested_value(&root, "a.b").unwrap().deep_eq(&object(vec![("c", whole(1))])));
    assert!(get_nested_value(&root, "a.x").is_none());
    assert!(get_nested_value(&root, "a.b.c.d").is_none());
    assert!(get_nested_value(&root, "list.0").is_none());
    assert!(get_nested_value(&root, "s.x").is_none());
    assert!(get_nested_value(&root, "").is_none());
    assert!(get_nested_value(&text("x"), "a").is_none());
}

#[test]
fn eq_with_a_value_wants_the_field_there_and_equal() {
    let c = sample();
    assert!(passes(&c, "source_plugin", FilterOp::Eq, Some(text("@vpack/source-fs"))));
    assert!(!passes(&c, "source_plugin", FilterOp::Eq, Some(text("@vpack/source-notion"))));
    assert!(passes(&c, "category", FilterOp::Eq, Some(text("finance"))));
    assert!(passes(&c, "pages", FilterOp::Eq, Some(whole(12))));
    assert!(!passes(&c, "pages", FilterOp::Eq, Some(float(12.0))));
    assert!(!passes(&c, "missing", FilterOp::Eq, Some(text("finance"))));
    assert!(passes(&c, "author.name", FilterOp::Eq, Some(text("Ada"))));
    assert!(passes(&c, "tags", FilterOp::Eq, Some(Value::Array(vec![text("a"), text("b")]))));
    assert!(passes(&c, "draft", FilterOp::Eq, Some(Value::Null)));
}

#[test]
fn eq_without_a_value_wants_the_field_missing() {
    let c = sample();
    assert!(passes(&c, "missing", FilterOp::Eq, None));
    assert!(passes(&c, "author.missing", FilterOp::Eq, None));
    assert!(!passes(&c, "category", FilterOp::Eq, None));
    assert!(!passes(&c, "draft", FilterOp::Eq, None));
}

#[test]
fn a_fixed_field_that_is_not_set_is_there_as_null() {
    let c = sample();
    assert!(!passes(&c, "source_url", FilterOp::Eq, None));
    assert!(passes(&c, "source_url", FilterOp::Eq, Some(Value::Null)));
    assert!(!passes(&c, "source_url", FilterOp::Exists, None));
    assert!(passes(&c, "source_url", FilterOp::Neq, None));
    assert!(passes(&c, "created_at", FilterOp::Eq, Some(text("2024-01-01"))));
    assert!(passes(&c, "created_at", FilterOp::Exists, None));
    assert!(passes(&c, "updated_at", FilterOp::Eq, Some(Value::Null)));
}

#[test]
fn every_fixed_field_is_addressed_by_its_name() {
    let c = sample();
    assert!(passes(&c, "source_id", FilterOp::Eq, Some(text("docs/a.md"))));
    assert!(passes(&c, "pack_name", FilterOp::Eq, Some(text("pack"))));
    assert!(passes(&c, "chunker_plugin", FilterOp::Eq, Some(text("@vpack/chunker-fixed"))));
    assert!(!passes(&c, "id", FilterOp::Exists, None));
    assert!(!passes(&c, "text", FilterOp::Exists, None));
    assert!(!passes(&c, "extra", FilterOp::Exists, None));
}

#[test]
fn a_further_member_wins_over_a_fixed_field_of_its_name() {
    let c = chunk(vec![("pack_name", text("override")), ("source_url", text("http://x"))]);
    assert!(passes(&c, "pack_name", FilterOp::Eq, Some(text("override"))));
    assert!(!passes(&c, "pack_name", FilterOp::Eq, Some(text("pack"))));
    assert!(passes(&c, "source_url", FilterOp::Exists, None));
}

#[test]
fn neq_with_a_value_passes_what_is_missing_or_different() {
    let c = sample();
    assert!(passes(&c, "category", FilterOp::Neq, Some(text("engineering"))));
    assert!(!passes(&c, "category", FilterOp::Neq, Some(text("finance"))));
    assert!(passes(&c, "missing", FilterOp::Neq, Some(text("finance"))));
}

#[test]
fn neq_without_a_value_wants_the_field_there() {
    let c = sample();
    assert!(passes(&c, "category", FilterOp::Neq, None));
    assert!(passes(&c, "draft", FilterOp::Neq, None));
    assert!(!passes(&c, "missing", FilterOp::Neq, None));
}

#[test]
fn in_wants_an_array_with_the_value_in_it() {
    let c = sample();
    let both = Value::Array(vec![text("engineering"), text("finance")]);
    assert!(passes(&c, "category", FilterOp::In, Some(both)));
    assert!(!passes(&c, "category", FilterOp::In, Some(Value::Array(vec![text("x")]))));
    assert!(!passes(&c, "category", FilterOp::In, Some(Value::Array(vec![]))));
    assert!(!passes(&c, "category", FilterOp::In, Some(text("finance"))));
    assert!(!passes(&c, "category", FilterOp::In, None));
    assert!(!passes(&c, "missing", FilterOp::In, Some(Value::Array(vec![Value::Null]))));
    assert!(passes(&c, "draft", FilterOp::In, Some(Value::Array(vec![Value::Null]))));
}

#[test]
fn nin_wants_an_array_without_the_value_and_the_field_there() {
    let c = sample();
    assert!(passes(&c, "category", FilterOp::Nin, Some(Value::Array(vec![text("x")]))));
    assert!(passes(&c, "category", FilterOp::Nin, Some(Value::Array(vec![]))));
    assert!(!passes(&c, "category", FilterOp::Nin, Some(Value::Array(vec![text("finance")]))));
    assert!(!passes(&c, "missing", FilterOp::Nin, Some(Value::Array(vec![text("x")]))));
    assert!(!passes(&c, "category", FilterOp::Nin, Some(text("x"))));
    assert!(!passes(&c, "category", FilterOp::Nin, None));
}

#[test]
fn gte_and_lte_compare_numbers_as_doubles() {
    let c = sample();
    assert!(passes(&c, "pages", FilterOp::Gte, Some(whole(12))));
    assert!(passes(&c, "pages", FilterOp::Gte, Some(whole(11))));
    assert!(!passes(&c, "pages", FilterOp::Gte, Some(whole(13))));
    assert!(passes(&c, "pages", FilterOp::Lte, Some(whole(12))));
    assert!(passes(&c, "pages", FilterOp::Lte, Some(float(12.5))));
    assert!(!passes(&c, "pages", FilterOp::Lte, Some(float(11.5))));
    assert!(passes(&c, "pages", FilterOp::Gte, Some(float(12.0))));
    assert!(passes(&c, "weight", FilterOp::Gte, Some(float(0.75))));
    assert!(passes(&c, "weight", FilterOp::Lte, Some(whole(1))));
    assert!(!passes(&c, "weight", FilterOp::Gte, Some(whole(1))));
    assert!(passes(&c, "debt", FilterOp::Lte, Some(whole(0))));
    assert!(passes(&c, "debt", FilterOp::Gte, Some(Value::Number(Number::NegInt(-4)))));
    assert!(!passes(&c, "debt", FilterOp::Gte, Some(float(-3.5))));
    assert!(passes(&c, "author.born", FilterOp::Gte, Some(whole(1800))));
}

#[test]
fn gte_and_lte_are_false_without_two_numbers() {
    let c = sample();
    assert!(!passes(&c, "category", FilterOp::Gte, Some(whole(1))));
    assert!(!passes(&c, "category", FilterOp::Lte, Some(whole(1))));
    assert!(!passes(&c, "pages", FilterOp::Gte, Some(text("1"))));
    assert!(!passes(&c, "pages", FilterOp::Gte, None));
    assert!(!passes(&c, "pages", FilterOp::Lte, None));
    assert!(!passes(&c, "missing", FilterOp::Gte, Some(whole(1))));
    assert!(!passes(&c, "draft", FilterOp::Lte, Some(whole(1))));
}

#[test]
fn large_integers_compare_after_rounding_to_doubles() {
    let c = chunk(vec![("big", whole(1 << 53))]);
    assert!(passes(&c, "big", FilterOp::Gte, Some(whole((1 << 53) + 1))));
    assert!(passes(&c, "big", FilterOp::Lte, Some(whole((1 << 53) + 1))));
    assert!(!passes(&c, "big", FilterOp::Gte, Some(whole((1 << 53) + 2))));
}

#[test]
fn compare_number_takes_both_sides_as_options() {
    let twelve = whole(12);
    let half = float(0.5);
    assert!(compare_number(Some(&twelve), Some(&half), true));
    assert!(!compare_number(Some(&twelve), Some(&half), false));
    assert!(compare_number(Some(&half), Some(&half), true));
    assert!(compare_number(Some(&half), Some(&half), false));
    assert!(!compare_number(None, Some(&half), true));
    assert!(!compare_number(Some(&half), None, false));
    assert!(!compare_number(None, None, true));
}

#[test]
fn exists_wants_a_value_that_is_not_null() {
    let c = sample();
    assert!(passes(&c, "category", FilterOp::Exists, None));
    assert!(passes(&c, "author", FilterOp::Exists, None));
    assert!(passes(&c, "author.name", FilterOp::Exists, None));
    assert!(!passes(&c, "draft", FilterOp::Exists, None));
    assert!(!passes(&c, "missing", FilterOp::Exists, None));
    assert!(!passes(&c, "category.deeper", FilterOp::Exists, None));
    assert!(passes(&c, "category", FilterOp::Exists, Some(text("ignored"))));
}

#[test]
fn the_flat_record_holds_fixed_fields_and_further_members() {
    let c = sample();
    let flat = c.metadata.to_value();
    assert!(flat.get(&"source_plugin".to_string()).unwrap().deep_eq(&text("@vpack/source-fs")));
    assert!(flat.get(&"source_url".to_string()).unwrap().deep_eq(&Value::Null));
    assert!(flat.get(&"pages".to_string()).unwrap().deep_eq(&whole(12)));
    match flat {
        Value::Object(members) => assert_eq!(members.len(), 7 + 7),
        _ => panic!("the flat record is an object"),
    }
}
