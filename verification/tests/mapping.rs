use yexp::{Mapping, Number, TaggedValue, Value};

fn text(s: &str) -> Value {
    Value::String(s.to_string())
}

fn number(n: u64) -> Value {
    Value::Number(Number::PosInt(n))
}

#[test]
fn a_new_mapping_is_empty() {
    let m = Mapping::new();
    assert_eq!(m.len(), 0);
    assert_eq!(m.get(&text("k")), None);
    assert_eq!(m.position(&text("k")), None);
}

#[test]
fn insert_appends_a_new_key() {
    let mut m = Mapping::new();
    m.insert(text("a"), number(1));
    m.insert(text("b"), number(2));
    assert_eq!(m.len(), 2);
    assert_eq!(m.key_at(0), &text("a"));
    assert_eq!(m.value_at(0), &number(1));
    assert_eq!(m.key_at(1), &text("b"));
    assert_eq!(m.value_at(1), &number(2));
    assert_eq!(m.position(&text("b")), Some(1));
}

#[test]
fn insert_overwrites_a_key_in_place() {
    let mut m = Mapping::new();
    m.insert(text("a"), number(1));
    m.insert(text("b"), number(2));
    m.insert(text("a"), number(3));
    assert_eq!(m.len(), 2);
    assert_eq!(m.key_at(0), &text("a"));
    assert_eq!(m.value_at(0), &number(3));
    assert_eq!(m.get(&text("a")), Some(&number(3)));
    assert_eq!(m.get(&text("b")), Some(&number(2)));
}

#[test]
fn remove_keeps_the_order_of_the_rest() {
    let mut m = Mapping::new();
    m.insert(text("a"), number(1));
    m.insert(text("b"), number(2));
    m.insert(text("c"), number(3));
    assert_eq!(m.remove(&text("a")), Some(number(1)));
    assert_eq!(m.len(), 2);
    assert_eq!(m.key_at(0), &text("b"));
    assert_eq!(m.key_at(1), &text("c"));
    assert_eq!(m.remove(&text("a")), None);
    assert_eq!(m.len(), 2);
}

#[test]
fn values_are_the_same_when_they_denote_the_same_tree() {
    let tagged = |tag: &str, v: Value| Value::Tagged(Box::new(TaggedValue { tag: tag.to_string(), value: v }));
    let mut m = Mapping::new();
    m.insert(text("k"), Value::Sequence(vec![number(1), Value::Null, tagged("!t", Value::Bool(false))]));
    let a = Value::Mapping(m);
    let b = a.clone();
    assert!(a.same_as(&b));
    assert_eq!(a, b);

    assert!(!number(1).same_as(&number(2)));
    assert!(!number(1).same_as(&text("1")));
    assert!(!text("a").same_as(&text("b")));
    assert!(!Value::Null.same_as(&Value::Bool(false)));
    assert!(!Value::Bool(true).same_as(&Value::Bool(false)));
    assert!(!Value::Sequence(vec![number(1)]).same_as(&Value::Sequence(vec![number(1), number(1)])));
    assert!(!Value::Sequence(vec![number(1)]).same_as(&Value::Sequence(vec![number(2)])));
    assert!(!tagged("!a", number(1)).same_as(&tagged("!b", number(1))));
    assert!(!tagged("!a", number(1)).same_as(&tagged("!a", number(2))));
    assert!(tagged("!a", number(1)).same_as(&tagged("!a", number(1))));
    assert!(!Value::Number(Number::PosInt(1)).same_as(&Value::Number(Number::NegInt(1))));
}

#[test]
fn mappings_with_other_order_or_values_differ() {
    let mut a = Mapping::new();
    a.insert(text("x"), number(1));
    a.insert(text("y"), number(2));
    let mut b = Mapping::new();
    b.insert(text("y"), number(2));
    b.insert(text("x"), number(1));
    let mut c = Mapping::new();
    c.insert(text("x"), number(1));
    c.insert(text("y"), number(3));
    assert!(!Value::Mapping(a.clone()).same_as(&Value::Mapping(b)));
    assert!(!Value::Mapping(a.clone()).same_as(&Value::Mapping(c)));
    assert!(Value::Mapping(a.clone()).same_as(&Value::Mapping(a)));
}

#[test]
fn a_mapping_can_be_a_key() {
    let mut inner = Mapping::new();
    inner.insert(text("x"), number(1));
    let mut m = Mapping::new();
    m.insert(Value::Mapping(inner.clone()), text("first"));
    m.insert(Value::Mapping(inner.clone()), text("second"));
    assert_eq!(m.len(), 1);
    assert_eq!(m.get(&Value::Mapping(inner)), Some(&text("second")));
}
