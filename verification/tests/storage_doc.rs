//! Storage and wire-document behaviour, observed from outside.

use spark_orm::doc::{Doc, Value};
use spark_orm::model::{DocModel, Model};
use spark_orm::record::Record;
use spark_orm::storage::Inner;

#[test]
fn inline_storage_small_type() {
    let mut s: Inner<u8> = Inner::new(5);
    assert_eq!(*s.get(), 5);
    s.put(9);
    assert_eq!(*s.get(), 9);
    let taken = s.take(0);
    assert_eq!(taken, 9);
    assert_eq!(*s.get(), 0);
}

#[test]
fn heap_storage_large_type_behaves_identically() {
    // 64 * 8 = 512 bytes, well above the inline threshold.
    let mut s: Inner<[u64; 64]> = Inner::new([7; 64]);
    assert_eq!(s.get()[0], 7);
    assert_eq!(s.get()[63], 7);
    let mut v = [7u64; 64];
    v[10] = 42;
    s.put(v);
    assert_eq!(s.get()[10], 42);
    let taken = s.take([0; 64]);
    assert_eq!(taken[10], 42);
    assert_eq!(s.get()[5], 0);
}

#[test]
fn storage_variants_same_observations() {
    // The same sequence of operations on a small-typed and a large-typed
    // storage gives the same observations on the contained payload.
    let mut small: Inner<u64> = Inner::new(3);
    let mut large: Inner<[u64; 64]> = Inner::new([3; 64]);
    assert_eq!(*small.get(), large.get()[0]);
    small.put(8);
    large.put([8; 64]);
    assert_eq!(*small.get(), large.get()[0]);
    assert_eq!(small.take(1), large.take([1; 64])[0]);
    assert_eq!(*small.get(), large.get()[0]);
}

#[test]
fn doc_set_get_remove() {
    let mut d = Doc::new();
    assert!(d.is_empty());
    d.set("score", Value::Int(10));
    d.set("flag", Value::Bool(true));
    assert_eq!(d.len(), 2);
    assert!(matches!(d.get("score"), Some(Value::Int(10))));
    assert!(matches!(d.get("flag"), Some(Value::Bool(true))));
    assert!(d.get("missing").is_none());
    d.set("score", Value::Int(11));
    assert_eq!(d.len(), 2);
    assert!(matches!(d.get("score"), Some(Value::Int(11))));
    d.remove("score");
    assert!(d.get("score").is_none());
    assert_eq!(d.len(), 1);
}

#[test]
fn doc_identifier_detection() {
    let mut d = Doc::new();
    assert_eq!(d.id(), None);
    d.set("_id", Value::Id(77));
    assert_eq!(d.id(), Some(77));
    // A non-identifier value under `_id` is not an identifier.
    let mut e = Doc::new();
    e.set("_id", Value::Int(3));
    assert_eq!(e.id(), None);
}

#[test]
fn doc_satisfies_filters() {
    let mut d = Doc::new();
    d.set("a", Value::Int(1));
    d.set("b", Value::Str("x".to_string()));
    let empty = Doc::new();
    assert!(d.satisfies(&empty));
    let mut f1 = Doc::new();
    f1.set("a", Value::Int(1));
    assert!(d.satisfies(&f1));
    let mut f2 = Doc::new();
    f2.set("a", Value::Int(2));
    assert!(!d.satisfies(&f2));
    let mut f3 = Doc::new();
    f3.set("b", Value::Str("x".to_string()));
    f3.set("a", Value::Int(1));
    assert!(d.satisfies(&f3));
}

#[test]
fn record_codec_round_trip() {
    let r = Record { id: Some(4), score: 9, flag: true, created: 2, updated: 5 };
    let d = r.to_doc();
    assert_eq!(d.id(), Some(4));
    let back = Record::from_doc(&d).expect("canonical form must decode");
    assert_eq!(back, r);

    let fresh = Record { id: None, score: -1, flag: false, created: 0, updated: 0 };
    let d2 = fresh.to_doc();
    assert_eq!(d2.id(), None);
    assert_eq!(Record::from_doc(&d2), Some(fresh));
}

#[test]
fn record_decoder_rejects_wrong_shape() {
    let mut d = Doc::new();
    d.set("foo", Value::Int(1));
    assert_eq!(Record::from_doc(&d), None);

    // Right arity, wrong key.
    let mut e = Doc::new();
    e.set("score", Value::Int(1));
    e.set("flag", Value::Bool(false));
    e.set("created", Value::Int(0));
    e.set("wrong", Value::Int(0));
    assert_eq!(Record::from_doc(&e), None);

    // Right keys, wrong type.
    let mut t = Doc::new();
    t.set("score", Value::Bool(true));
    t.set("flag", Value::Bool(false));
    t.set("created", Value::Int(0));
    t.set("updated", Value::Int(0));
    assert_eq!(Record::from_doc(&t), None);
}

#[test]
fn model_accessors() {
    let mut m: Model<Record> = Model::new("users");
    assert_eq!(*m.inner_ref(), Record { id: None, score: 0, flag: false, created: 0, updated: 0 });
    m.inner_mut().score = 12;
    assert_eq!(m.inner_ref().score, 12);
    m.fill(Record { id: Some(1), score: 3, flag: true, created: 1, updated: 1 });
    assert_eq!(m.inner_ref().id, Some(1));
    let taken = m.take_inner();
    assert_eq!(taken.score, 3);
    assert_eq!(*m.inner_ref(), Record::default());
    let d = m.inner_to_doc();
    assert_eq!(d.id(), None);
    assert_eq!(d.len(), 4);
}
