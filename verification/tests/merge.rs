use yexp::{merge_mapping, merge_value, Mapping, Number, TaggedValue, Value};

fn text(s: &str) -> Value {
    Value::String(s.to_string())
}

fn number(n: u64) -> Value {
    Value::Number(Number::PosInt(n))
}

fn list(items: Vec<Value>) -> Value {
    Value::Sequence(items)
}

fn mapping(entries: Vec<(Value, Value)>) -> Mapping {
    let mut m = Mapping::new();
    for (k, v) in entries {
        m.insert(k, v);
    }
    m
}

fn map(entries: Vec<(&str, Value)>) -> Value {
    Value::Mapping(mapping(entries.into_iter().map(|(k, v)| (text(k), v)).collect()))
}

fn merged(a: Value, b: Value) -> Value {
    match (a, b) {
        (Value::Mapping(a), Value::Mapping(b)) => Value::Mapping(merge_mapping(&a, &b)),
        _ => panic!("two mappings are needed"),
    }
}

fn keys(value: &Value) -> Vec<Value> {
    match value {
        Value::Mapping(m) => (0..m.len()).map(|i| m.key_at(i).clone()).collect(),
        _ => panic!("a mapping is needed"),
    }
}

#[test]
fn null_defers_to_the_fallback() {
    let a = map(vec![("x", Value::Null)]);
    let b = map(vec![("x", number(5))]);
    assert_eq!(merged(a, b), map(vec![("x", number(5))]));
}

#[test]
fn nested_mappings_merge_key_by_key() {
    let a = map(vec![("a", map(vec![("x", number(1))]))]);
    let b = map(vec![("a", map(vec![("x", number(2)), ("y", number(3))]))]);
    assert_eq!(
        merged(a, b),
        map(vec![("a", map(vec![("x", number(1)), ("y", number(3))]))])
    );
}

#[test]
fn override_sequence_replaces_the_fallback_sequence() {
    let a = map(vec![("a", list(vec![number(1), number(2)]))]);
    let b = map(vec![("a", list(vec![number(3), number(4), number(5)]))]);
    assert_eq!(merged(a, b), map(vec![("a", list(vec![number(1), number(2)]))]));
}

#[test]
fn merging_a_mapping_with_itself_changes_nothing() {
    let a = map(vec![
        ("name", text("service")),
        ("unset", Value::Null),
        ("ports", list(vec![number(80), number(443)])),
        ("limits", map(vec![("cpu", number(2)), ("inner", map(vec![("deep", Value::Bool(true))]))])),
    ]);
    assert_eq!(merged(a.clone(), a.clone()), a);
}

#[test]
fn merging_with_itself_drops_the_directive() {
    let a = map(vec![("extend", text("base.yaml")), ("k", number(1))]);
    assert_eq!(merged(a.clone(), a), map(vec![("k", number(1))]));
}

#[test]
fn key_only_in_the_override_keeps_its_value() {
    let a = map(vec![("only", list(vec![number(1)])), ("both", number(1))]);
    let b = map(vec![("both", number(2))]);
    let m = merged(a, b);
    match &m {
        Value::Mapping(m) => assert_eq!(m.get(&text("only")), Some(&list(vec![number(1)]))),
        _ => unreachable!(),
    }
}

#[test]
fn key_only_in_the_fallback_keeps_its_value() {
    let a = map(vec![("both", number(1))]);
    let b = map(vec![("both", number(2)), ("only", map(vec![("x", Value::Null)]))]);
    let m = merged(a, b);
    match &m {
        Value::Mapping(m) => {
            assert_eq!(m.get(&text("only")), Some(&map(vec![("x", Value::Null)])));
            assert_eq!(m.get(&text("both")), Some(&number(1)));
        }
        _ => unreachable!(),
    }
}

#[test]
fn keys_of_the_override_come_first_then_those_of_the_fallback() {
    let a = map(vec![("c", number(1)), ("a", number(2))]);
    let b = map(vec![("b", number(3)), ("a", number(4)), ("d", number(5))]);
    let m = merged(a, b);
    assert_eq!(keys(&m), vec![text("c"), text("a"), text("b"), text("d")]);
    assert_eq!(
        m,
        map(vec![("c", number(1)), ("a", number(2)), ("b", number(3)), ("d", number(5))])
    );
}

#[test]
fn the_directive_is_left_out_of_a_merge() {
    let a = map(vec![("extend", text("a.yaml")), ("k", number(1))]);
    let b = map(vec![("j", number(2)), ("extend", list(vec![text("b.yaml")]))]);
    assert_eq!(merged(a, b), map(vec![("k", number(1)), ("j", number(2))]));
}

#[test]
fn the_directive_is_left_out_of_nested_merges() {
    let a = map(vec![("n", map(vec![("extend", text("x")), ("k", number(1))]))]);
    let b = map(vec![("n", map(vec![("j", number(2))]))]);
    assert_eq!(merged(a, b), map(vec![("n", map(vec![("k", number(1)), ("j", number(2))]))]));
}

#[test]
fn a_value_that_is_not_merged_is_taken_as_it_stands() {
    let nested = map(vec![("extend", text("x")), ("k", number(1))]);
    let a = map(vec![("n", nested.clone())]);
    let b = map(vec![("m", nested.clone())]);
    assert_eq!(merged(a, b), map(vec![("n", nested.clone()), ("m", nested)]));
}

#[test]
fn a_tagged_key_is_no_directive() {
    let key = Value::Tagged(Box::new(TaggedValue { tag: "!x".to_string(), value: text("extend") }));
    let a = mapping(vec![(key.clone(), number(1))]);
    let b = Mapping::new();
    assert_eq!(merge_mapping(&a, &b), mapping(vec![(key, number(1))]));
}

#[test]
fn keys_need_not_be_strings() {
    let a = mapping(vec![(number(1), text("one")), (Value::Bool(true), Value::Null)]);
    let b = mapping(vec![(Value::Bool(true), text("yes")), (Value::Null, text("none"))]);
    assert_eq!(
        merge_mapping(&a, &b),
        mapping(vec![
            (number(1), text("one")),
            (Value::Bool(true), text("yes")),
            (Value::Null, text("none")),
        ])
    );
}

#[test]
fn merging_with_an_empty_mapping() {
    let a = map(vec![("k", number(1)), ("n", Value::Null)]);
    assert_eq!(merged(a.clone(), Value::Mapping(Mapping::new())), a);
    assert_eq!(merged(Value::Mapping(Mapping::new()), a.clone()), a);
    assert_eq!(merge_mapping(&Mapping::new(), &Mapping::new()), Mapping::new());
}

#[test]
fn a_scalar_replaces_a_mapping_and_a_mapping_a_scalar() {
    let a = map(vec![("x", number(1)), ("y", map(vec![("k", number(1))]))]);
    let b = map(vec![("x", map(vec![("k", number(2))])), ("y", number(2))]);
    assert_eq!(merged(a.clone(), b), a);
}

#[test]
fn merge_value_combines_one_key() {
    let m1 = map(vec![("x", number(1))]);
    let m2 = map(vec![("x", number(2)), ("y", number(3))]);
    assert_eq!(merge_value(&m2, &m1), map(vec![("x", number(1)), ("y", number(3))]));
    assert_eq!(merge_value(&number(7), &Value::Null), number(7));
    assert_eq!(merge_value(&Value::Null, &Value::Null), Value::Null);
    assert_eq!(merge_value(&number(7), &text("own")), text("own"));
    assert_eq!(merge_value(&m2, &Value::Null), m2);
    assert_eq!(merge_value(&m2, &number(1)), number(1));
    assert_eq!(merge_value(&Value::Null, &m1), m1);
    assert_eq!(
        merge_value(&list(vec![number(3)]), &list(vec![number(1), number(2)])),
        list(vec![number(1), number(2)])
    );
}

#[test]
fn numbers_of_different_kinds_are_different_keys() {
    let float_one = Value::Number(Number::Float(1.0f64.to_bits()));
    let a = mapping(vec![(number(1), text("int"))]);
    let b = mapping(vec![(float_one.clone(), text("float")), (Value::Number(Number::NegInt(-1)), text("neg"))]);
    assert_eq!(
        merge_mapping(&a, &b),
        mapping(vec![
            (number(1), text("int")),
            (float_one, text("float")),
            (Value::Number(Number::NegInt(-1)), text("neg")),
        ])
    );
}
