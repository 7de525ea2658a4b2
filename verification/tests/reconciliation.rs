//! Index reconciliation: the diff, the degraded mode, and convergence.

use spark_orm::model::{HookEvent, Model};
use spark_orm::reconcile::{reconcile_plan, IndexInfo};
use spark_orm::record::Record;
use spark_orm::store::Store;

fn index_key(info: &IndexInfo) -> &str {
    info.keys[0].as_str()
}

#[test]
fn index_convergence_scenario() {
    // Live indexes on {a, c}; declared attributes {a, b}: after the pass,
    // the collection is indexed on exactly {a, b} — a untouched, c
    // dropped, b created.
    let mut store = Store::new();
    store.create_index(&"a".to_string());
    store.create_index(&"c".to_string());

    let m: Model<Record> = Model::new("users");
    let declared = vec!["a".to_string(), "b".to_string()];
    m.register_attributes(&mut store, &declared);

    let live = store.list_indexes();
    assert_eq!(live.len(), 2);
    assert_eq!(index_key(&live[0]), "a");
    assert_eq!(index_key(&live[1]), "b");
}

#[test]
fn identifier_index_is_never_touched() {
    // The store's own identifier index survives every pass, although it
    // is never declared.
    let mut store = Store::new();
    store.create_index(&"_id".to_string());
    let m: Model<Record> = Model::new("users");
    let declared = vec!["x".to_string()];
    m.register_attributes(&mut store, &declared);

    let live = store.list_indexes();
    assert_eq!(live.len(), 2);
    assert_eq!(index_key(&live[0]), "_id");
    assert_eq!(index_key(&live[1]), "x");
}

#[test]
fn reconciliation_is_a_fixed_point_when_converged() {
    let mut store = Store::new();
    let m: Model<Record> = Model::new("users");
    let declared = vec!["a".to_string(), "b".to_string()];
    m.register_attributes(&mut store, &declared);
    assert_eq!(store.list_indexes().len(), 2);
    // A second pass with the same declaration changes nothing.
    m.register_attributes(&mut store, &declared);
    let live = store.list_indexes();
    assert_eq!(live.len(), 2);
    assert_eq!(index_key(&live[0]), "a");
    assert_eq!(index_key(&live[1]), "b");
}

#[test]
fn plan_degrades_to_create_all_without_listing() {
    let attrs = vec!["a".to_string(), "b".to_string()];
    let plan = reconcile_plan(&attrs, None);
    assert_eq!(plan.create, attrs);
    assert!(plan.drop_names.is_empty());
}

#[test]
fn plan_marks_stale_indexes_by_declared_name() {
    let attrs = vec!["a".to_string()];
    let live = vec![
        IndexInfo { keys: vec!["a".to_string()], name: Some("a_1".to_string()) },
        IndexInfo { keys: vec!["c".to_string()], name: Some("c_custom".to_string()) },
    ];
    let plan = reconcile_plan(&attrs, Some(&live));
    assert!(plan.create.is_empty());
    assert_eq!(plan.drop_names, vec!["c_custom".to_string()]);
}

#[test]
fn plan_leaves_unnamed_stale_indexes_alone() {
    // A stale index the store reported without a declared name cannot be
    // dropped by name; it is left alone.
    let attrs: Vec<String> = Vec::new();
    let live = vec![IndexInfo { keys: vec!["c".to_string()], name: None }];
    let plan = reconcile_plan(&attrs, Some(&live));
    assert!(plan.create.is_empty());
    assert!(plan.drop_names.is_empty());
}

#[test]
fn plan_consumes_one_declared_entry_per_live_key() {
    // A declared list with a repeated attribute keeps the surplus entry
    // in the create set: the diff consumes one occurrence per live index.
    let attrs = vec!["a".to_string(), "a".to_string()];
    let live = vec![IndexInfo { keys: vec!["a".to_string()], name: Some("a_1".to_string()) }];
    let plan = reconcile_plan(&attrs, Some(&live));
    assert_eq!(plan.create, vec!["a".to_string()]);
    assert!(plan.drop_names.is_empty());
}

#[test]
fn plan_handles_compound_index_keys() {
    // Every key of a compound live index is considered: declared keys are
    // consumed, foreign keys mark the index's name for dropping.
    let attrs = vec!["a".to_string(), "b".to_string()];
    let live = vec![IndexInfo {
        keys: vec!["a".to_string(), "z".to_string()],
        name: Some("a_z".to_string()),
    }];
    let plan = reconcile_plan(&attrs, Some(&live));
    assert_eq!(plan.create, vec!["b".to_string()]);
    assert_eq!(plan.drop_names, vec!["a_z".to_string()]);
}

#[test]
fn drop_and_create_index_primitives() {
    let mut store = Store::new();
    store.create_index(&"a".to_string());
    let live = store.list_indexes();
    assert_eq!(live.len(), 1);
    assert_eq!(live[0].name.as_deref(), Some("a_1"));

    // A miss is a silent no-op.
    assert!(!store.drop_index(&"nothing".to_string()));
    assert_eq!(store.list_indexes().len(), 1);

    assert!(store.drop_index(&"a_1".to_string()));
    assert!(store.list_indexes().is_empty());
}

#[test]
fn reconciliation_leaves_documents_alone() {
    let mut store = Store::new();
    let mut events: Vec<HookEvent> = Vec::new();
    let mut m: Model<Record> = Model::new("users");
    m.save(&mut store, &mut events);
    m.register_attributes(&mut store, &vec!["score".to_string()]);
    assert_eq!(store.count(), 1);
    assert_eq!(store.list_indexes().len(), 1);
}
