use yexp::{Error, ErrorKind, Loaded, Number, Store, Value};

#[test]
fn a_new_store_answers_nothing() {
    let store = Store::new();
    assert_eq!(store.location(&"a".to_string()), None);
    assert_eq!(store.document(&"a".to_string()), None);
}

#[test]
fn a_store_gives_back_what_was_recorded() {
    let mut store = Store::new();
    store.record_location("a".to_string(), Some("/x/a".to_string()));
    store.record_location("b".to_string(), None);
    store.record_document("/x/a".to_string(), Loaded::Document(Value::Bool(true)));
    store.record_document("/x/b".to_string(), Loaded::Malformed);
    assert_eq!(store.location(&"a".to_string()), Some(&Some("/x/a".to_string())));
    assert_eq!(store.location(&"b".to_string()), Some(&None));
    assert_eq!(store.location(&"/x/a".to_string()), None);
    assert_eq!(store.document(&"/x/a".to_string()), Some(&Loaded::Document(Value::Bool(true))));
    assert_eq!(store.document(&"/x/b".to_string()), Some(&Loaded::Malformed));
    assert_eq!(store.document(&"a".to_string()), None);
}

#[test]
fn a_later_answer_replaces_an_earlier_one() {
    let mut store = Store::new();
    store.record_location("a".to_string(), None);
    store.record_location("a".to_string(), Some("/x/a".to_string()));
    store.record_document("/x/a".to_string(), Loaded::Unreadable);
    store.record_document("/x/a".to_string(), Loaded::Document(Value::Number(Number::NegInt(-3))));
    assert_eq!(store.location(&"a".to_string()), Some(&Some("/x/a".to_string())));
    assert_eq!(
        store.document(&"/x/a".to_string()),
        Some(&Loaded::Document(Value::Number(Number::NegInt(-3))))
    );
}

#[test]
fn a_failure_collects_its_trail_from_the_inside_out() {
    let error = Error::new(ErrorKind::ParseError, "/x/leaf".to_string());
    assert_eq!(error.kind, ErrorKind::ParseError);
    assert_eq!(error.file, "/x/leaf".to_string());
    assert!(error.trail.is_empty());
    let error = error.within("/x/leaf".to_string()).within("/x/root".to_string());
    assert_eq!(error.trail, vec!["/x/leaf".to_string(), "/x/root".to_string()]);
    assert_eq!(error.kind, ErrorKind::ParseError);
    assert_eq!(error.file, "/x/leaf".to_string());
}
