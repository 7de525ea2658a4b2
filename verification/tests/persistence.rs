//! The save / find / delete lifecycle against the abstract store.

use spark_orm::doc::{Doc, Value};
use spark_orm::model::{FindOutcome, HookEvent, Model};
use spark_orm::record::Record;
use spark_orm::store::{Store, StoreError};

#[test]
fn save_fresh_inserts_under_fresh_identifier() {
    let mut store = Store::new();
    let mut events: Vec<HookEvent> = Vec::new();
    let mut m: Model<Record> = Model::new("users");
    m.inner_mut().score = 10;

    let id = m.save(&mut store, &mut events);
    assert_eq!(id, 1);
    assert_eq!(store.count(), 1);
    assert_eq!(events.len(), 1);
    assert!(matches!(events[0], HookEvent::Created(1)));

    let d = store.doc_at(0);
    assert_eq!(d.id(), Some(1));
    assert!(matches!(d.get("score"), Some(Value::Int(10))));
    // The update stamp is set on every save, the creation stamp on insert.
    assert!(matches!(d.get("updated"), Some(Value::Int(1))));
    assert!(matches!(d.get("created"), Some(Value::Int(1))));
    // The held value does not learn the identifier.
    assert_eq!(m.inner_ref().id, None);
}

#[test]
fn insert_then_update_keeps_one_document() {
    let mut store = Store::new();
    let mut events: Vec<HookEvent> = Vec::new();
    let mut m: Model<Record> = Model::new("users");

    let first = m.save(&mut store, &mut events);
    assert_eq!(store.count(), 1);

    // The caller stores the returned identifier into the value; the next
    // save is an update, not a second insert.
    m.inner_mut().id = Some(first);
    m.inner_mut().score = 42;
    let second = m.save(&mut store, &mut events);
    assert_eq!(second, first);
    assert_eq!(store.count(), 1);
    assert_eq!(events.len(), 2);
    assert!(matches!(events[1], HookEvent::Updated(i) if i == first));
    let d = store.doc_at(0);
    assert!(matches!(d.get("score"), Some(Value::Int(42))));
}

#[test]
fn idempotent_resave_returns_same_identifier() {
    let mut store = Store::new();
    let mut events: Vec<HookEvent> = Vec::new();
    let mut m: Model<Record> = Model::new("users");
    let id0 = m.save(&mut store, &mut events);
    m.inner_mut().id = Some(id0);

    let a = m.save(&mut store, &mut events);
    let b = m.save(&mut store, &mut events);
    assert_eq!(a, id0);
    assert_eq!(b, id0);
    assert_eq!(store.count(), 1);
    // The stored content is the second re-save's: its update stamp.
    let d = store.doc_at(0);
    assert!(matches!(d.get("updated"), Some(Value::Int(3))));
    assert!(matches!(events[1], HookEvent::Updated(_)));
    assert!(matches!(events[2], HookEvent::Updated(_)));
}

#[test]
fn stale_identifier_falls_back_to_insert() {
    let mut store = Store::new();
    let mut events: Vec<HookEvent> = Vec::new();
    let mut m: Model<Record> = Model::new("users");
    let stale = m.save(&mut store, &mut events);
    m.inner_mut().id = Some(stale);

    // The document disappears out-of-band.
    let mut filter = Doc::new();
    filter.set("_id", Value::Id(stale));
    let removed = m.delete(&mut store, &filter, &mut events);
    assert_eq!(removed, 1);
    assert_eq!(store.count(), 0);

    // Saving the value that still carries the stale identifier inserts a
    // new document under a new identifier.
    let fresh = m.save(&mut store, &mut events);
    assert_ne!(fresh, stale);
    assert_eq!(store.count(), 1);
    assert_eq!(store.doc_at(0).id(), Some(fresh));
    assert!(matches!(events.last(), Some(HookEvent::Created(i)) if *i == fresh));
}

#[test]
fn delete_with_zero_matches_still_hooks_once() {
    let mut store = Store::new();
    let mut events: Vec<HookEvent> = Vec::new();
    let m: Model<Record> = Model::new("users");
    let mut filter = Doc::new();
    filter.set("score", Value::Int(999));

    let n = m.delete(&mut store, &filter, &mut events);
    assert_eq!(n, 0);
    assert_eq!(events.len(), 1);
    assert!(matches!(events[0], HookEvent::Deleted));
}

#[test]
fn created_hook_recursing_into_save_persists_both() {
    let mut store = Store::new();
    let mut events: Vec<HookEvent> = Vec::new();
    let mut outer: Model<Record> = Model::new("users");
    outer.inner_mut().score = 1;

    let outer_id = outer.save(&mut store, &mut events);

    // The shell drains the event queue; the "created" handler saves a
    // second entity, which only queues further events instead of growing
    // the call stack.
    let mut cursor = 0;
    while cursor < events.len() {
        let run_handler = matches!(events[cursor], HookEvent::Created(i) if i == outer_id);
        if run_handler {
            let mut inner: Model<Record> = Model::new("users");
            inner.inner_mut().score = 2;
            inner.save(&mut store, &mut events);
        }
        cursor += 1;
    }

    assert_eq!(store.count(), 2);
    let first = store.doc_at(0);
    let second = store.doc_at(1);
    assert_ne!(first.id(), second.id());
    assert!(matches!(first.get("score"), Some(Value::Int(1))));
    assert!(matches!(second.get("score"), Some(Value::Int(2))));
}

#[test]
fn find_one_fills_or_reports() {
    let mut store = Store::new();
    let mut events: Vec<HookEvent> = Vec::new();
    let mut m: Model<Record> = Model::new("users");
    m.inner_mut().score = 5;
    let id = m.save(&mut store, &mut events);

    let mut other: Model<Record> = Model::new("users");
    let mut filter = Doc::new();
    filter.set("_id", Value::Id(id));
    let r = other.find_one(&store, &filter);
    assert!(matches!(r, FindOutcome::Found));
    assert_eq!(other.inner_ref().id, Some(id));
    assert_eq!(other.inner_ref().score, 5);

    let mut none_filter = Doc::new();
    none_filter.set("_id", Value::Id(999));
    assert!(matches!(other.find_one(&store, &none_filter), FindOutcome::NotFound));

    // A matching document of a foreign shape reports a decode failure.
    let mut alien = Doc::new();
    alien.set("foo", Value::Int(1));
    store.insert_one(alien);
    let mut foo_filter = Doc::new();
    foo_filter.set("foo", Value::Int(1));
    let held = *other.inner_ref();
    assert!(matches!(other.find_one(&store, &foo_filter), FindOutcome::DecodeFailed));
    assert_eq!(*other.inner_ref(), held);
}

#[test]
fn raw_update_touches_first_match_and_no_hooks() {
    let mut store = Store::new();
    let mut events: Vec<HookEvent> = Vec::new();
    let mut m: Model<Record> = Model::new("users");
    m.inner_mut().score = 5;
    m.save(&mut store, &mut events);
    m.fill(Record { id: None, score: 5, flag: false, created: 0, updated: 0 });
    m.save(&mut store, &mut events);
    let hook_count = events.len();

    let mut query = Doc::new();
    query.set("score", Value::Int(5));
    let mut set = Doc::new();
    set.set("flag", Value::Bool(true));
    let n = m.update(&mut store, &query, &set);
    assert_eq!(n, Ok(1));
    assert_eq!(events.len(), hook_count);
    // Only the first matching document changed.
    assert!(matches!(store.doc_at(0).get("flag"), Some(Value::Bool(true))));
    assert!(matches!(store.doc_at(1).get("flag"), Some(Value::Bool(false))));
}

#[test]
fn raw_update_refuses_identifier_rewrite() {
    let mut store = Store::new();
    let mut events: Vec<HookEvent> = Vec::new();
    let mut m: Model<Record> = Model::new("users");
    m.inner_mut().score = 7;
    let id = m.save(&mut store, &mut events);

    // Rebinding the matched document's identifier is the store's refusal;
    // nothing changes.
    let mut query = Doc::new();
    query.set("score", Value::Int(7));
    let mut rewrite = Doc::new();
    rewrite.set("_id", Value::Id(id + 50));
    assert_eq!(m.update(&mut store, &query, &rewrite), Err(StoreError::IdentifierRewrite));
    assert_eq!(store.count(), 1);
    assert_eq!(store.doc_at(0).id(), Some(id));

    // Binding it to its own value is allowed, and a miss reports zero.
    let mut same = Doc::new();
    same.set("_id", Value::Id(id));
    assert_eq!(m.update(&mut store, &query, &same), Ok(1));
    let mut miss = Doc::new();
    miss.set("score", Value::Int(1000));
    assert_eq!(m.update(&mut store, &miss, &rewrite), Ok(0));
}

#[test]
fn find_and_collect_decodes_matches_in_order() {
    let mut store = Store::new();
    let mut events: Vec<HookEvent> = Vec::new();
    let mut m: Model<Record> = Model::new("users");
    m.inner_mut().score = 1;
    m.save(&mut store, &mut events);
    m.fill(Record { id: None, score: 2, flag: false, created: 0, updated: 0 });
    m.save(&mut store, &mut events);

    // A document no Record can decode.
    let mut alien = Doc::new();
    alien.set("foo", Value::Int(1));
    store.insert_one(alien);

    let empty = Doc::new();
    let all = m.find_and_collect(&store, &empty);
    assert_eq!(all.len(), 3);
    assert_eq!(all[0].as_ref().map(|r| r.score), Some(1));
    assert_eq!(all[1].as_ref().map(|r| r.score), Some(2));
    assert!(all[2].is_none());

    let mut by_score = Doc::new();
    by_score.set("score", Value::Int(2));
    let hits = m.find(&store, &by_score);
    assert_eq!(hits.len(), 1);
    assert!(matches!(hits[0].get("score"), Some(Value::Int(2))));
}
