//! The per-model persistence façade.
//!
//! A `Model` binds one value of the model type to one named collection.
//! `save` distinguishes update from insert purely by the presence of an
//! identifier inside the serialized form of the held value: an identifier
//! that still matches a stored document yields an update, a stale or
//! absent one falls through to an insert under a fresh identifier.
//!
//! The store round trips and the observer hooks are driven by an
//! unverified shell: each operation here takes the abstract store, applies
//! the exact transition its contract states, and appends the hook events
//! the shell must dispatch after the write. A hook handler that calls back
//! into `save` is therefore one more turn of the shell's event loop, not a
//! deeper stack frame.

use vstd::prelude::*;
use crate::doc::{
    Doc, EntryV, ValueV, id_key, id_of, lemma_matches_id_filter, matches_filter, remove_key,
    value_of,
};
use crate::storage::Inner;
use crate::store::{
    Store, StoreError, StoreV, delete_transition, first_match, insert_transition,
    lemma_first_match_in_range, matching_docs, set_rewrites_id, some_match, update_transition,
};
use crate::reconcile::{
    ReconcilePlan, apply_creates, apply_drops, diff_indexes, reconcile_plan,
    reconcile_transition, strs_view,
};

verus! {

/// A model type that converts to and from the wire-document form.
///
/// The serialization format itself is the model type's affair; this core
/// needs only that a value has a well-formed document form, that encoding
/// realizes it, and that a successful decode inverts it.
pub trait DocModel: Sized {
    /// The wire-document form of this value.
    spec fn doc_of(&self) -> Seq<EntryV>;

    /// Encodes the value.
    fn to_doc(&self) -> (d: Doc)
        ensures
            d@ == self.doc_of(),
            d.wf(),
    ;

    /// Decodes a value from a document: `None` exactly when the document
    /// is no value's wire form.
    fn from_doc(d: &Doc) -> (r: Option<Self>)
        ensures
            r matches Some(m) ==> m.doc_of() == d@,
            (exists|m: Self| (#[trigger] m.doc_of()) == d@) ==> r is Some,
    ;
}

/// Some value of the model type has `d` as its wire form.
pub open spec fn decodable<M: DocModel>(d: Seq<EntryV>) -> bool {
    exists|m: M| (#[trigger] m.doc_of()) == d
}

/// The timestamp capability a model must provide: stamping never touches
/// the identifier inside the wire form.
pub trait ModelTimestamps: DocModel {
    /// Stamps the update time.
    fn updated_at(&mut self)
        ensures
            id_of(final(self).doc_of()) == id_of(old(self).doc_of()),
    ;

    /// Stamps the creation time.
    fn created_at(&mut self)
        ensures
            id_of(final(self).doc_of()) == id_of(old(self).doc_of()),
    ;
}

/// A lifecycle hook owed to the observers, recorded in the order the
/// triggering writes succeeded.
pub enum HookEvent {
    /// A document was inserted under the given identifier.
    Created(u64),
    /// The document with the given identifier was updated.
    Updated(u64),
    /// A delete was attempted (whether or not a document was removed).
    Deleted,
}

/// The identifier filter as a mathematical value.
pub open spec fn id_filter_v(i: u64) -> Seq<EntryV> {
    seq![EntryV { key: id_key(), value: ValueV::Id(i) }]
}

/// Effect of one `save` of a value whose serialized form is `d`: with an
/// identifier that matches a stored document, that document is updated in
/// place; otherwise the form, stripped of any identifier, is inserted
/// under a fresh identifier. The event names the hook owed.
pub open spec fn save_transition(s: StoreV, d: Seq<EntryV>) -> (StoreV, HookEvent) {
    match id_of(d) {
        Some(i) => {
            let (s1, n) = update_transition(s, id_filter_v(i), d);
            if n == Ok::<u64, StoreError>(1) {
                (s1, HookEvent::Updated(i))
            } else {
                let (s2, f) = insert_transition(s, remove_key(d, id_key()));
                (s2, HookEvent::Created(f))
            }
        }
        None => {
            let (s2, f) = insert_transition(s, remove_key(d, id_key()));
            (s2, HookEvent::Created(f))
        }
    }
}

/// The identifier an event names; a delete attempt names none.
pub open spec fn event_id(e: HookEvent) -> Option<u64> {
    match e {
        HookEvent::Created(i) => Some(i),
        HookEvent::Updated(i) => Some(i),
        HookEvent::Deleted => None,
    }
}

/// What `find_one` reports.
pub enum FindOutcome {
    /// A document matched and was decoded into the held value.
    Found,
    /// No document matched; the held value is untouched.
    NotFound,
    /// A document matched but does not have the model's shape; the held
    /// value is untouched.
    DecodeFailed,
}

/// The persistence façade: one held model value, bound to one collection.
pub struct Model<M> {
    /// The held value, inline or heap-backed by size.
    pub inner: Inner<M>,
    /// The collection the value is bound to.
    pub collection_name: String,
}

impl<M: ModelTimestamps + Default> Model<M> {
    /// The held value.
    pub open spec fn value(self) -> M {
        self.inner.value()
    }

    /// The bound collection name.
    pub open spec fn name(self) -> Seq<char> {
        self.collection_name@
    }

    /// Binds a default-constructed value to `collection_name`. The value
    /// is heap-held exactly when the model type outgrows the inline
    /// threshold; nothing else observes the choice.
    pub fn new(collection_name: &str) -> (m: Model<M>)
        ensures
            m.name() == collection_name@,
            call_ensures(M::default, (), m.value()),
            m.inner.is_heap() <==> vstd::layout::size_of::<M>() > crate::storage::HEAP_THRESHOLD,
    {
        Model { inner: Inner::new(M::default()), collection_name: collection_name.to_owned() }
    }

    /// Saves the held value into `store`.
    ///
    /// The update time is stamped first, always. If the serialized form
    /// carries an identifier matching a stored document, that document is
    /// updated and an `Updated` hook is owed. Otherwise the creation time
    /// is stamped, the form is re-serialized, stripped of any identifier,
    /// inserted under a fresh identifier, and a `Created` hook is owed.
    /// The returned identifier is the updated or freshly assigned one; it
    /// is not written back into the held value.
    pub fn save(&mut self, store: &mut Store, events: &mut Vec<HookEvent>) -> (id: u64)
        requires
            old(store).wf(),
            old(store)@.next_id < u64::MAX,
        ensures
            final(store).wf(),
            (final(store)@, final(events)@.last()) == save_transition(old(store)@, final(self).value().doc_of()),
            id_of(final(self).value().doc_of()) == id_of(old(self).value().doc_of()),
            final(events)@ == old(events)@.push(final(events)@.last()),
            event_id(final(events)@.last()) == Some(id),
            final(self).name() == old(self).name(),
            final(self).inner.is_heap() == old(self).inner.is_heap(),
    {
        let mut v = self.inner.take(M::default());
        v.updated_at();
        let d1 = v.to_doc();
        let id_opt = d1.id();
        match id_opt {
            Some(i) => {
                let filter = Doc::id_filter(i);
                proof {
                    if some_match(store@.docs, filter@) {
                        lemma_first_match_in_range(store@.docs, filter@);
                        let w = first_match(store@.docs, filter@);
                        lemma_matches_id_filter(store@.docs[w], i);
                        assert(value_of(store@.docs[w], id_key()) == ValueV::Id(i));
                        assert(value_of(d1@, id_key()) == ValueV::Id(i));
                    }
                    assert(filter@ =~= id_filter_v(i));
                    // The full form carries the matched document's own
                    // identifier, so the store never refuses this update.
                    assert(!set_rewrites_id(store@.docs, filter@, d1@));
                }
                let n = match store.update_one(&filter, &d1) {
                    Ok(n) => n,
                    Err(_) => {
                        proof {
                            assert(false);
                        }
                        0
                    }
                };
                if n >= 1 {
                    self.inner.put(v);
                    events.push(HookEvent::Updated(i));
                    proof {
                        assert(final(self).value().doc_of() == d1@);
                        assert((store@, HookEvent::Updated(i))
                            == save_transition(old(store)@, d1@));
                    }
                    return i;
                }
            }
            None => {}
        }
        let ghost d1v = d1@;
        let ghost id0 = id_of(d1v);
        v.created_at();
        let mut d2 = v.to_doc();
        self.inner.put(v);
        d2.remove("_id");
        let ghost d2v = final(self).value().doc_of();
        proof {
            assert(id_of(d2v) == id0);
            assert(d2@ == remove_key(d2v, id_key()));
            match id0 {
                Some(i) => {
                    assert(!some_match(old(store)@.docs, id_filter_v(i)));
                }
                None => {}
            }
        }
        let new_id = store.insert_one(d2);
        events.push(HookEvent::Created(new_id));
        proof {
            assert((store@, HookEvent::Created(new_id))
                == save_transition(old(store)@, d2v));
        }
        new_id
    }

    /// Looks up at most one document matching `filter`; on a hit the held
    /// value is overwritten with the decoded document, on a miss or a
    /// decode failure it is untouched.
    pub fn find_one(&mut self, store: &Store, filter: &Doc) -> (r: FindOutcome)
        requires
            store.wf(),
        ensures
            (r is NotFound) <==> !some_match(store@.docs, filter@),
            r is Found ==> final(self).value().doc_of()
                == store@.docs[first_match(store@.docs, filter@)],
            r is DecodeFailed ==> !decodable::<M>(store@.docs[first_match(store@.docs, filter@)]),
            !(r is Found) ==> *final(self) == *old(self),
            final(self).name() == old(self).name(),
    {
        match store.find_first(filter) {
            Some(d) => {
                match M::from_doc(d) {
                    Some(m) => {
                        self.inner.put(m);
                        FindOutcome::Found
                    }
                    None => FindOutcome::DecodeFailed,
                }
            }
            None => FindOutcome::NotFound,
        }
    }

    /// Raw single-document update: applies `$set` of `update_doc` to the
    /// first document matching `query`. Reads nothing of the held value
    /// and owes no hook. A modifier that would rewrite the matched
    /// document's identifier comes back as the store's refusal, with
    /// nothing changed.
    pub fn update(&self, store: &mut Store, query: &Doc, update_doc: &Doc) -> (r: Result<u64, StoreError>)
        requires
            old(store).wf(),
            update_doc.wf(),
        ensures
            (final(store)@, r) == update_transition(old(store)@, query@, update_doc@),
            final(store).wf(),
            r is Err <==> set_rewrites_id(old(store)@.docs, query@, update_doc@),
            r is Err ==> final(store)@ == old(store)@,
            r == Ok::<u64, StoreError>(1) <==> (some_match(old(store)@.docs, query@)
                && !set_rewrites_id(old(store)@.docs, query@, update_doc@)),
            r == Ok::<u64, StoreError>(0) <==> !some_match(old(store)@.docs, query@),
    {
        store.update_one(query, update_doc)
    }

    /// All documents matching `filter`, in store order. An empty filter
    /// matches every document.
    pub fn find(&self, store: &Store, filter: &Doc) -> (r: Vec<Doc>)
        requires
            store.wf(),
        ensures
            r@.map_values(|d: Doc| d@) == matching_docs(store@.docs, filter@),
            filter@.len() == 0 ==> r@.len() == store@.docs.len(),
    {
        let r = store.find_all(filter);
        proof {
            if filter@.len() == 0 {
                lemma_empty_filter_matches_all(store@.docs, filter@);
            }
            assert(r@.len() == r@.map_values(|d: Doc| d@).len());
        }
        r
    }

    /// Decodes every document matching `filter`, in store order; a
    /// document that does not have the model's shape decodes to `None`.
    /// An empty filter matches every document.
    pub fn find_and_collect(&self, store: &Store, filter: &Doc) -> (r: Vec<Option<M>>)
        requires
            store.wf(),
        ensures
            r@.len() == matching_docs(store@.docs, filter@).len(),
            forall|i: int| 0 <= i < r@.len() ==> ((#[trigger] r@[i]) matches Some(m)
                ==> m.doc_of() == matching_docs(store@.docs, filter@)[i]),
            forall|i: int| 0 <= i < r@.len() ==> ((#[trigger] r@[i]) is None
                ==> !decodable::<M>(matching_docs(store@.docs, filter@)[i])),
            filter@.len() == 0 ==> r@.len() == store@.docs.len(),
    {
        let ghost ms = matching_docs(store@.docs, filter@);
        let found = store.find_all(filter);
        let mut r: Vec<Option<M>> = Vec::new();
        let n = found.len();
        let mut i: usize = 0;
        proof {
            assert(found@.map_values(|d: Doc| d@).len() == ms.len());
        }
        while i < n
            invariant
                n == found@.len(),
                found@.map_values(|d: Doc| d@) == ms,
                i <= n,
                r@.len() == i,
                forall|j: int| 0 <= j < i ==> ((#[trigger] r@[j]) matches Some(m)
                    ==> m.doc_of() == ms[j]),
                forall|j: int| 0 <= j < i ==> ((#[trigger] r@[j]) is None
                    ==> !decodable::<M>(ms[j])),
            decreases n - i,
        {
            r.push(M::from_doc(&found[i]));
            i += 1;
        }
        proof {
            if filter@.len() == 0 {
                lemma_empty_filter_matches_all(store@.docs, filter@);
            }
        }
        r
    }

    /// Deletes at most one document matching `query` and owes a `Deleted`
    /// hook afterwards — always, whether or not a document was removed:
    /// observers are told of every delete attempt.
    pub fn delete(&self, store: &mut Store, query: &Doc, events: &mut Vec<HookEvent>) -> (n: u64)
        requires
            old(store).wf(),
        ensures
            (final(store)@, n) == delete_transition(old(store)@, query@),
            final(store).wf(),
            n <= 1,
            n == 0 <==> !some_match(old(store)@.docs, query@),
            final(events)@ == old(events)@.push(HookEvent::Deleted),
    {
        let n = store.delete_one(query);
        events.push(HookEvent::Deleted);
        n
    }

    /// Reconciles the collection's indexes against the declared attribute
    /// list: lists the live indexes, drops each stale one by its declared
    /// name, and creates one single-field ascending index per genuinely
    /// missing attribute. The shell runs this pass detached; on the
    /// abstract store the pass is the whole transition at once.
    pub fn register_attributes(&self, store: &mut Store, attributes: &Vec<String>)
        requires
            old(store).wf(),
        ensures
            final(store)@.indexes == reconcile_transition(old(store)@.indexes, strs_view(attributes@)),
            final(store)@.docs == old(store)@.docs,
            final(store)@.next_id == old(store)@.next_id,
            final(store).wf(),
    {
        let ghost idx0 = store@.indexes;
        let plan: ReconcilePlan = reconcile_plan(attributes, Some(store.list_indexes()));
        let ghost drops = strs_view(plan.drop_names@);
        let ghost creates = strs_view(plan.create@);
        proof {
            assert((creates, drops)
                == diff_indexes((strs_view(attributes@), Seq::empty()), idx0));
        }
        let dn = plan.drop_names.len();
        let mut i: usize = 0;
        proof {
            assert(drops.skip(0) =~= drops);
        }
        while i < dn
            invariant
                old(store).wf(),
                dn == drops.len(),
                drops == strs_view(plan.drop_names@),
                i <= dn,
                store@.docs == old(store)@.docs,
                store@.next_id == old(store)@.next_id,
                store.wf(),
                apply_drops(idx0, drops) == apply_drops(store@.indexes, drops.skip(i as int)),
            decreases dn - i,
        {
            proof {
                assert(drops.skip(i as int)[0] == drops[i as int]);
                assert(drops.skip(i as int).skip(1) =~= drops.skip(i as int + 1));
            }
            store.drop_index(&plan.drop_names[i]);
            i += 1;
        }
        proof {
            assert(drops.skip(dn as int) =~= Seq::<Seq<char>>::empty());
        }
        let ghost dropped = store@.indexes;
        let cn = plan.create.len();
        let mut j: usize = 0;
        proof {
            assert(creates.skip(0) =~= creates);
        }
        while j < cn
            invariant
                old(store).wf(),
                cn == creates.len(),
                creates == strs_view(plan.create@),
                j <= cn,
                store@.docs == old(store)@.docs,
                store@.next_id == old(store)@.next_id,
                store.wf(),
                apply_creates(dropped, creates) == apply_creates(store@.indexes, creates.skip(j as int)),
            decreases cn - j,
        {
            proof {
                assert(creates.skip(j as int)[0] == creates[j as int]);
                assert(creates.skip(j as int).skip(1) =~= creates.skip(j as int + 1));
            }
            store.create_index(&plan.create[j]);
            j += 1;
        }
        proof {
            assert(creates.skip(cn as int) =~= Seq::<Seq<char>>::empty());
            assert(store@.indexes == reconcile_transition(idx0, strs_view(attributes@)));
        }
    }

    /// Overwrites the held value wholesale; no store round trip, no hook.
    pub fn fill(&mut self, value: M)
        ensures
            final(self).value() == value,
            final(self).name() == old(self).name(),
            final(self).inner.is_heap() == old(self).inner.is_heap(),
    {
        self.inner.put(value);
    }

    /// Moves the held value out, leaving a default-constructed one.
    pub fn take_inner(&mut self) -> (r: M)
        ensures
            r == old(self).value(),
            call_ensures(M::default, (), final(self).value()),
            final(self).name() == old(self).name(),
            final(self).inner.is_heap() == old(self).inner.is_heap(),
    {
        self.inner.take(M::default())
    }

    /// A shared borrow of the held value.
    pub fn inner_ref(&self) -> (r: &M)
        ensures
            *r == self.value(),
    {
        self.inner.get()
    }

    /// A mutable borrow of the held value.
    pub fn inner_mut(&mut self) -> (r: &mut M)
        ensures
            *r == old(self).value(),
            final(self).value() == *final(r),
            final(self).name() == old(self).name(),
            final(self).inner.is_heap() == old(self).inner.is_heap(),
    {
        self.inner.get_mut()
    }

    /// The wire-document form of the held value.
    pub fn inner_to_doc(&self) -> (d: Doc)
        ensures
            d@ == self.value().doc_of(),
            d.wf(),
    {
        self.inner.get().to_doc()
    }
}

/// The empty filter matches every document, so it selects them all.
pub proof fn lemma_empty_filter_matches_all(docs: Seq<Seq<EntryV>>, f: Seq<EntryV>)
    requires
        f.len() == 0,
    ensures
        matching_docs(docs, f) == docs,
    decreases docs.len(),
{
    if docs.len() > 0 {
        assert(matches_filter(docs[0], f));
        lemma_empty_filter_matches_all(docs.skip(1), f);
        assert(matching_docs(docs, f) =~= docs);
    } else {
        assert(matching_docs(docs, f) =~= docs);
    }
}

} // verus!
