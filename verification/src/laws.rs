//! The save laws.
//!
//! `save_transition` fully determines what one save does to the abstract
//! store, so the guarantees the persistence layer lives by are proved here
//! once, over every store, every serialized form and every identifier.

use vstd::prelude::*;
use crate::doc::{
    EntryV, has_key, id_key, id_of, lemma_apply_set_effect, lemma_matches_id_filter,
    lemma_remove_key_wf, value_of, wf_doc,
};
use crate::model::{HookEvent, event_id, id_filter_v, save_transition};
use crate::store::{
    StoreV, first_match, insert_transition, lemma_first_match_in_range,
    lemma_insert_transition_wf, lemma_update_transition_wf, some_match, store_has_id,
    update_transition, wf_store,
};

verus! {

/// A store that holds a document identified by `i` has a first match for
/// the identifier filter, and that match carries `i`.
proof fn lemma_id_filter_match(s: StoreV, i: u64)
    requires
        wf_store(s),
        store_has_id(s, i),
    ensures
        some_match(s.docs, id_filter_v(i)),
        id_of(s.docs[first_match(s.docs, id_filter_v(i))]) == Some(i),
        0 <= first_match(s.docs, id_filter_v(i)) < s.docs.len(),
{
    let f = id_filter_v(i);
    let j = choose|j: int| 0 <= j < s.docs.len() && id_of(#[trigger] s.docs[j]) == Some(i);
    lemma_matches_id_filter(s.docs[j], i);
    assert(some_match(s.docs, f));
    lemma_first_match_in_range(s.docs, f);
    let w = first_match(s.docs, f);
    lemma_matches_id_filter(s.docs[w], i);
}

/// A store that holds no document identified by `i` has no match for the
/// identifier filter.
proof fn lemma_id_filter_no_match(s: StoreV, i: u64)
    requires
        wf_store(s),
        !store_has_id(s, i),
    ensures
        !some_match(s.docs, id_filter_v(i)),
{
    if some_match(s.docs, id_filter_v(i)) {
        lemma_first_match_in_range(s.docs, id_filter_v(i));
        let w = first_match(s.docs, id_filter_v(i));
        lemma_matches_id_filter(s.docs[w], i);
        assert(store_has_id(s, i));
    }
}

/// Idempotent re-save: two consecutive saves of a value that carries an
/// identifier the store knows both update in place. No document is
/// created or destroyed, both saves report the same identifier, and the
/// stored document agrees with the second form on all its keys.
pub proof fn lemma_idempotent_resave(s0: StoreV, d1: Seq<EntryV>, d2: Seq<EntryV>, i: u64)
    requires
        wf_store(s0),
        wf_doc(d1),
        wf_doc(d2),
        id_of(d1) == Some(i),
        id_of(d2) == Some(i),
        store_has_id(s0, i),
    ensures
        ({
            let (s1, e1) = save_transition(s0, d1);
            let (s2, e2) = save_transition(s1, d2);
            &&& e1 == HookEvent::Updated(i)
            &&& e2 == HookEvent::Updated(i)
            &&& s2.docs.len() == s0.docs.len()
            &&& wf_store(s2)
            &&& store_has_id(s2, i)
            &&& forall|k: Seq<char>| has_key(d2, k)
                ==> has_key(#[trigger] s2.docs[first_match(s1.docs, id_filter_v(i))], k)
                    && value_of(s2.docs[first_match(s1.docs, id_filter_v(i))], k) == value_of(d2, k)
        }),
{
    let f = id_filter_v(i);
    lemma_id_filter_match(s0, i);
    lemma_update_transition_wf(s0, f, d1);
    let s1 = update_transition(s0, f, d1).0;
    assert(save_transition(s0, d1) == (s1, HookEvent::Updated(i)));
    assert(store_has_id(s1, i)) by {
        let j = choose|j: int| 0 <= j < s0.docs.len() && id_of(#[trigger] s0.docs[j]) == Some(i);
        assert(id_of(s1.docs[j]) == Some(i));
    }
    lemma_id_filter_match(s1, i);
    lemma_update_transition_wf(s1, f, d2);
    let s2 = update_transition(s1, f, d2).0;
    assert(save_transition(s1, d2) == (s2, HookEvent::Updated(i)));
    assert(store_has_id(s2, i)) by {
        let j = choose|j: int| 0 <= j < s1.docs.len() && id_of(#[trigger] s1.docs[j]) == Some(i);
        assert(id_of(s2.docs[j]) == Some(i));
    }
    let w = first_match(s1.docs, f);
    lemma_first_match_in_range(s1.docs, f);
    assert(s2.docs[w] == crate::doc::apply_set(s1.docs[w], d2));
    lemma_apply_set_effect(s1.docs[w], d2);
}

/// Insert-then-update transition: saving a fresh value (no identifier)
/// creates a document under the store's next identifier; a further save
/// of a form now carrying that identifier updates in place, so the
/// document count rises exactly once.
pub proof fn lemma_insert_then_update(s0: StoreV, d1: Seq<EntryV>, d2: Seq<EntryV>)
    requires
        wf_store(s0),
        wf_doc(d1),
        wf_doc(d2),
        id_of(d1) is None,
        id_of(d2) == Some(s0.next_id),
        s0.next_id < u64::MAX,
    ensures
        ({
            let (s1, e1) = save_transition(s0, d1);
            let (s2, e2) = save_transition(s1, d2);
            &&& e1 == HookEvent::Created(s0.next_id)
            &&& s1.docs.len() == s0.docs.len() + 1
            &&& e2 == HookEvent::Updated(s0.next_id)
            &&& s2.docs.len() == s1.docs.len()
            &&& wf_store(s2)
        }),
{
    let stripped = crate::doc::remove_key(d1, id_key());
    lemma_remove_key_wf(d1, id_key());
    lemma_insert_transition_wf(s0, stripped);
    let s1 = insert_transition(s0, stripped).0;
    assert(save_transition(s0, d1) == (s1, HookEvent::Created(s0.next_id)));
    lemma_id_filter_match(s1, s0.next_id);
    lemma_update_transition_wf(s1, id_filter_v(s0.next_id), d2);
    let s2 = update_transition(s1, id_filter_v(s0.next_id), d2).0;
    assert(save_transition(s1, d2) == (s2, HookEvent::Updated(s0.next_id)));
}

/// Stale-identifier fallback: saving a value whose identifier no longer
/// names any stored document falls through to an insert and reports a
/// fresh identifier different from the stale one.
pub proof fn lemma_stale_id_fallback(s0: StoreV, d: Seq<EntryV>, i: u64)
    requires
        wf_store(s0),
        wf_doc(d),
        id_of(d) == Some(i),
        !store_has_id(s0, i),
        i < s0.next_id,
        s0.next_id < u64::MAX,
    ensures
        ({
            let (s1, e1) = save_transition(s0, d);
            &&& e1 == HookEvent::Created(s0.next_id)
            &&& event_id(e1) != Some(i)
            &&& s1.docs.len() == s0.docs.len() + 1
            &&& wf_store(s1)
        }),
{
    lemma_id_filter_no_match(s0, i);
    let stripped = crate::doc::remove_key(d, id_key());
    lemma_remove_key_wf(d, id_key());
    lemma_insert_transition_wf(s0, stripped);
    let s1 = insert_transition(s0, stripped).0;
    assert(save_transition(s0, d) == (s1, HookEvent::Created(s0.next_id)));
}

/// Hook-triggered recursion persists both writes: a save whose `Created`
/// hook makes a second save (of another fresh value) leaves both
/// documents stored, under distinct identifiers.
pub proof fn lemma_hook_recursion_persists(s0: StoreV, d_outer: Seq<EntryV>, d_inner: Seq<EntryV>)
    requires
        wf_store(s0),
        wf_doc(d_outer),
        wf_doc(d_inner),
        id_of(d_outer) is None,
        id_of(d_inner) is None,
        s0.next_id + 1 < u64::MAX,
    ensures
        ({
            let (s1, e1) = save_transition(s0, d_outer);
            let (s2, e2) = save_transition(s1, d_inner);
            &&& e1 == HookEvent::Created(s0.next_id)
            &&& e2 == HookEvent::Created((s0.next_id + 1) as u64)
            &&& event_id(e1) != event_id(e2)
            &&& s2.docs.len() == s0.docs.len() + 2
            &&& store_has_id(s2, s0.next_id)
            &&& store_has_id(s2, (s0.next_id + 1) as u64)
            &&& wf_store(s2)
        }),
{
    let so = crate::doc::remove_key(d_outer, id_key());
    lemma_remove_key_wf(d_outer, id_key());
    lemma_insert_transition_wf(s0, so);
    let s1 = insert_transition(s0, so).0;
    assert(save_transition(s0, d_outer) == (s1, HookEvent::Created(s0.next_id)));
    let si = crate::doc::remove_key(d_inner, id_key());
    lemma_remove_key_wf(d_inner, id_key());
    lemma_insert_transition_wf(s1, si);
    let s2 = insert_transition(s1, si).0;
    assert(save_transition(s1, d_inner) == (s2, HookEvent::Created(s1.next_id)));
    assert(store_has_id(s2, s0.next_id)) by {
        let j = choose|j: int| 0 <= j < s1.docs.len() && id_of(#[trigger] s1.docs[j]) == Some(s0.next_id);
        assert(id_of(s2.docs[j]) == Some(s0.next_id));
    }
}

} // verus!
