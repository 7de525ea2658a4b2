//! An abstract document store.
//!
//! `Store` is the mathematical model of one collection of the document
//! store: an ordered sequence of well-formed documents, each carrying a
//! unique identifier below the store's next free identifier, together with
//! the collection's secondary-index descriptors. Every operation's effect
//! is stated exactly by a transition function on the abstract state, so the
//! persistence logic built on top can be proved against it.

use vstd::prelude::*;
use vstd::string::StringExecFns;
use crate::doc::{
    Doc, EntryV, Value, ValueV, apply_set, has_key, id_key, id_of, lemma_apply_set_effect,
    lemma_apply_set_wf, lemma_set_key_effect, lemma_set_key_wf, matches_filter, set_key,
    value_eq, value_of, wf_doc,
};
use crate::reconcile::{IndexInfo, IndexInfoV, infos_view};

verus! {

/// The mathematical state of one collection.
pub struct StoreV {
    pub docs: Seq<Seq<EntryV>>,
    pub next_id: u64,
    pub indexes: Seq<IndexInfoV>,
}

/// Every document is well formed, carries an identifier, identifiers are
/// unique, and all of them lie below `next_id`.
pub open spec fn wf_store(s: StoreV) -> bool {
    &&& forall|i: int| 0 <= i < s.docs.len() ==> wf_doc(#[trigger] s.docs[i])
    &&& forall|i: int| 0 <= i < s.docs.len() ==> (#[trigger] id_of(s.docs[i])) is Some
    &&& forall|i: int| 0 <= i < s.docs.len() ==> (#[trigger] id_of(s.docs[i])).unwrap() < s.next_id
    &&& forall|i: int, j: int| 0 <= i < j < s.docs.len()
        ==> id_of(#[trigger] s.docs[i]) != id_of(#[trigger] s.docs[j])
}

/// Some document of `docs` satisfies `f`.
pub open spec fn some_match(docs: Seq<Seq<EntryV>>, f: Seq<EntryV>) -> bool {
    exists|i: int| 0 <= i < docs.len() && matches_filter(#[trigger] docs[i], f)
}

/// The first index of `docs` whose document satisfies `f` (meaningful under
/// `some_match`).
pub open spec fn first_match(docs: Seq<Seq<EntryV>>, f: Seq<EntryV>) -> int
    decreases docs.len(),
{
    if docs.len() == 0 {
        0
    } else if matches_filter(docs[0], f) {
        0
    } else {
        1 + first_match(docs.skip(1), f)
    }
}

/// A store holds a document with identifier `i`.
pub open spec fn store_has_id(s: StoreV, i: u64) -> bool {
    exists|j: int| 0 <= j < s.docs.len() && id_of(#[trigger] s.docs[j]) == Some(i)
}

/// All documents of `docs` that satisfy `f`, in store order.
pub open spec fn matching_docs(docs: Seq<Seq<EntryV>>, f: Seq<EntryV>) -> Seq<Seq<EntryV>>
    decreases docs.len(),
{
    if docs.len() == 0 {
        Seq::empty()
    } else if matches_filter(docs[0], f) {
        seq![docs[0]] + matching_docs(docs.skip(1), f)
    } else {
        matching_docs(docs.skip(1), f)
    }
}

/// Why the store refused an operation.
#[derive(Clone, Copy, Debug, PartialEq, Eq, Structural)]
pub enum StoreError {
    /// The `$set` modifier tried to rewrite the matched document's
    /// identifier, which the store forbids.
    IdentifierRewrite,
}

/// The `$set` modifier would rewrite the identifier of the document it
/// matches, which the store refuses.
pub open spec fn set_rewrites_id(docs: Seq<Seq<EntryV>>, f: Seq<EntryV>, set: Seq<EntryV>) -> bool {
    &&& some_match(docs, f)
    &&& has_key(set, id_key())
    &&& value_of(set, id_key()) != value_of(docs[first_match(docs, f)], id_key())
}

/// Effect of updating the first document that satisfies `f` with the
/// modifier `set`: a modifier rewriting the matched document's identifier
/// is refused whole; otherwise the count of modified documents (0 or 1)
/// comes back.
pub open spec fn update_transition(s: StoreV, f: Seq<EntryV>, set: Seq<EntryV>) -> (StoreV, Result<u64, StoreError>) {
    if set_rewrites_id(s.docs, f, set) {
        (s, Err(StoreError::IdentifierRewrite))
    } else if some_match(s.docs, f) {
        let i = first_match(s.docs, f);
        (StoreV { docs: s.docs.update(i, apply_set(s.docs[i], set)), ..s }, Ok(1))
    } else {
        (s, Ok(0))
    }
}

/// Effect of inserting `d` as a fresh document: the store binds `_id` to
/// the next free identifier and hands that identifier back.
pub open spec fn insert_transition(s: StoreV, d: Seq<EntryV>) -> (StoreV, u64) {
    (
        StoreV {
            docs: s.docs.push(set_key(d, id_key(), ValueV::Id(s.next_id))),
            next_id: (s.next_id + 1) as u64,
            indexes: s.indexes,
        },
        s.next_id,
    )
}

/// Effect of deleting the first document that satisfies `f`.
pub open spec fn delete_transition(s: StoreV, f: Seq<EntryV>) -> (StoreV, u64) {
    if some_match(s.docs, f) {
        (StoreV { docs: s.docs.remove(first_match(s.docs, f)), ..s }, 1)
    } else {
        (s, 0)
    }
}

/// A forward scan that found its first hit at `i` agrees with `first_match`.
pub proof fn lemma_first_match_found(docs: Seq<Seq<EntryV>>, f: Seq<EntryV>, i: int)
    requires
        0 <= i < docs.len(),
        matches_filter(docs[i], f),
        forall|j: int| 0 <= j < i ==> !matches_filter(#[trigger] docs[j], f),
    ensures
        some_match(docs, f),
        first_match(docs, f) == i,
    decreases i,
{
    if i == 0 {
    } else {
        assert(!matches_filter(docs[0], f));
        assert(docs.skip(1)[i - 1] == docs[i]);
        assert(forall|j: int| 0 <= j < i - 1 ==> docs.skip(1)[j] == docs[j + 1]);
        lemma_first_match_found(docs.skip(1), f, i - 1);
    }
}

/// Updating the first match keeps the store well formed and keeps every
/// document's identifier.
pub proof fn lemma_update_transition_wf(s: StoreV, f: Seq<EntryV>, set: Seq<EntryV>)
    requires
        wf_store(s),
        wf_doc(set),
    ensures
        wf_store(update_transition(s, f, set).0),
        update_transition(s, f, set).0.docs.len() == s.docs.len(),
        update_transition(s, f, set).0.next_id == s.next_id,
        update_transition(s, f, set).0.indexes == s.indexes,
        forall|j: int| 0 <= j < s.docs.len()
            ==> id_of(#[trigger] update_transition(s, f, set).0.docs[j]) == id_of(s.docs[j]),
{
    if some_match(s.docs, f) && !set_rewrites_id(s.docs, f, set) {
        let i = first_match(s.docs, f);
        lemma_first_match_in_range(s.docs, f);
        let d0 = s.docs[i];
        let d1 = apply_set(d0, set);
        lemma_apply_set_wf(d0, set);
        lemma_apply_set_effect(d0, set);
        assert(has_key(d0, id_key()));
        if has_key(set, id_key()) {
            assert(value_of(d1, id_key()) == value_of(set, id_key()));
            assert(value_of(d1, id_key()) == value_of(d0, id_key()));
        } else {
            assert(value_of(d1, id_key()) == value_of(d0, id_key()));
        }
        assert(id_of(d1) == id_of(d0));
        let s1 = update_transition(s, f, set).0;
        assert(forall|j: int| 0 <= j < s.docs.len() && j != i ==> s1.docs[j] == s.docs[j]);
    }
}

/// Under `some_match`, `first_match` lies in range and its document
/// satisfies the filter, while no earlier one does.
pub proof fn lemma_first_match_in_range(docs: Seq<Seq<EntryV>>, f: Seq<EntryV>)
    requires
        some_match(docs, f),
    ensures
        0 <= first_match(docs, f) < docs.len(),
        matches_filter(docs[first_match(docs, f)], f),
        forall|j: int| 0 <= j < first_match(docs, f) ==> !matches_filter(#[trigger] docs[j], f),
    decreases docs.len(),
{
    if docs.len() > 0 {
        if matches_filter(docs[0], f) {
        } else {
            let w = choose|i: int| 0 <= i < docs.len() && matches_filter(#[trigger] docs[i], f);
            assert(docs.skip(1)[w - 1] == docs[w]);
            assert(some_match(docs.skip(1), f));
            lemma_first_match_in_range(docs.skip(1), f);
            let m = first_match(docs.skip(1), f);
            assert(docs[1 + m] == docs.skip(1)[m]);
            assert(forall|j: int| 1 <= j < 1 + m ==> docs[j] == docs.skip(1)[j - 1]);
        }
    }
}

/// Inserting keeps the store well formed; the fresh document carries the
/// store's next identifier.
pub proof fn lemma_insert_transition_wf(s: StoreV, d: Seq<EntryV>)
    requires
        wf_store(s),
        wf_doc(d),
        s.next_id < u64::MAX,
    ensures
        wf_store(insert_transition(s, d).0),
        insert_transition(s, d).0.docs.len() == s.docs.len() + 1,
        insert_transition(s, d).1 == s.next_id,
        insert_transition(s, d).0.next_id == s.next_id + 1,
        id_of(insert_transition(s, d).0.docs.last()) == Some(s.next_id),
        store_has_id(insert_transition(s, d).0, s.next_id),
        forall|j: int| 0 <= j < s.docs.len()
            ==> #[trigger] insert_transition(s, d).0.docs[j] == s.docs[j],
{
    let nd = set_key(d, id_key(), ValueV::Id(s.next_id));
    lemma_set_key_wf(d, id_key(), ValueV::Id(s.next_id));
    lemma_set_key_effect(d, id_key(), ValueV::Id(s.next_id));
    assert(id_of(nd) == Some(s.next_id));
    let s1 = insert_transition(s, d).0;
    assert(s1.docs.last() == nd);
    assert(forall|j: int| 0 <= j < s.docs.len() ==> #[trigger] s1.docs[j] == s.docs[j]);
    assert(store_has_id(s1, s.next_id)) by {
        assert(id_of(s1.docs[s.docs.len() as int]) == Some(s.next_id));
    }
}

/// Deleting keeps the store well formed.
pub proof fn lemma_delete_transition_wf(s: StoreV, f: Seq<EntryV>)
    requires
        wf_store(s),
    ensures
        wf_store(delete_transition(s, f).0),
        delete_transition(s, f).0.next_id == s.next_id,
        delete_transition(s, f).0.indexes == s.indexes,
{
    if some_match(s.docs, f) {
        lemma_first_match_in_range(s.docs, f);
        let i = first_match(s.docs, f);
        let r = s.docs.remove(i);
        assert forall|a: int, b: int| 0 <= a < b < r.len() implies
            id_of(#[trigger] r[a]) != id_of(#[trigger] r[b]) by {
            let a0 = if a < i { a } else { a + 1 };
            let b0 = if b < i { b } else { b + 1 };
            assert(r[a] == s.docs[a0]);
            assert(r[b] == s.docs[b0]);
        }
        assert forall|a: int| 0 <= a < r.len() implies wf_doc(#[trigger] r[a])
            && (#[trigger] id_of(r[a])) is Some && id_of(r[a]).unwrap() < s.next_id by {
            let a0 = if a < i { a } else { a + 1 };
            assert(r[a] == s.docs[a0]);
        }
    }
}

/// One collection of the document store, as executable model state.
pub struct Store {
    docs: Vec<Doc>,
    next_id: u64,
    indexes: Vec<IndexInfo>,
}

impl View for Store {
    type V = StoreV;

    closed spec fn view(&self) -> StoreV {
        StoreV {
            docs: self.docs@.map_values(|d: Doc| d@),
            next_id: self.next_id,
            indexes: infos_view(self.indexes@),
        }
    }
}

impl Store {
    /// The store invariant.
    pub open spec fn wf(&self) -> bool {
        wf_store(self@)
    }

    /// An empty collection; identifiers start at 1.
    pub fn new() -> (s: Store)
        ensures
            s@.docs =~= Seq::<Seq<EntryV>>::empty(),
            s@.indexes =~= Seq::<IndexInfoV>::empty(),
            s@.next_id == 1,
            s.wf(),
    {
        Store { docs: Vec::new(), next_id: 1, indexes: Vec::new() }
    }

    /// How many documents the collection holds.
    pub fn count(&self) -> (n: usize)
        ensures
            n == self@.docs.len(),
    {
        self.docs.len()
    }

    /// The document at position `i`, in store order.
    pub fn doc_at(&self, i: usize) -> (d: &Doc)
        requires
            i < self@.docs.len(),
        ensures
            d@ == self@.docs[i as int],
    {
        &self.docs[i]
    }

    /// The position of the first document satisfying `f`, if any.
    fn position_matching(&self, f: &Doc) -> (r: Option<usize>)
        requires
            self.wf(),
        ensures
            match r {
                Some(i) => i < self@.docs.len() && matches_filter(self@.docs[i as int], f@)
                    && some_match(self@.docs, f@) && first_match(self@.docs, f@) == i,
                None => !some_match(self@.docs, f@),
            },
    {
        let n = self.docs.len();
        let mut i: usize = 0;
        while i < n
            invariant
                self.wf(),
                n == self@.docs.len(),
                i <= n,
                forall|j: int| 0 <= j < i ==> !matches_filter(#[trigger] self@.docs[j], f@),
            decreases n - i,
        {
            proof {
                assert(wf_doc(self@.docs[i as int]));
            }
            if self.docs[i].satisfies(f) {
                proof {
                    lemma_first_match_found(self@.docs, f@, i as int);
                }
                return Some(i);
            }
            i += 1;
        }
        None
    }

    /// Applies `$set` of `set` to the first document satisfying `filter`;
    /// hands back how many documents were modified (0 or 1), or the
    /// store's refusal when the modifier would rewrite the matched
    /// document's identifier.
    pub fn update_one(&mut self, filter: &Doc, set: &Doc) -> (r: Result<u64, StoreError>)
        requires
            old(self).wf(),
            set.wf(),
        ensures
            (final(self)@, r) == update_transition(old(self)@, filter@, set@),
            final(self).wf(),
    {
        proof {
            lemma_update_transition_wf(old(self)@, filter@, set@);
        }
        let pos = self.position_matching(filter);
        match pos {
            Some(i) => {
                let rewrites = match set.get("_id") {
                    Some(new_id) => {
                        proof {
                            assert(wf_doc(self@.docs[i as int]));
                        }
                        match self.docs[i].get("_id") {
                            Some(cur_id) => !value_eq(new_id, cur_id),
                            None => true,
                        }
                    }
                    None => false,
                };
                proof {
                    assert(rewrites == set_rewrites_id(old(self)@.docs, filter@, set@));
                }
                if rewrites {
                    return Err(StoreError::IdentifierRewrite);
                }
                let mut d = self.docs.remove(i);
                proof {
                    assert(d.wf());
                }
                d.apply(set);
                self.docs.insert(i, d);
                proof {
                    assert(self@.docs =~= update_transition(old(self)@, filter@, set@).0.docs);
                    assert(self@ == update_transition(old(self)@, filter@, set@).0);
                }
                Ok(1)
            }
            None => Ok(0),
        }
    }

    /// Inserts `d` as a fresh document: binds `_id` to the next free
    /// identifier and hands that identifier back.
    pub fn insert_one(&mut self, d: Doc) -> (id: u64)
        requires
            old(self).wf(),
            d.wf(),
            old(self)@.next_id < u64::MAX,
        ensures
            (final(self)@, id) == insert_transition(old(self)@, d@),
            final(self).wf(),
            id == old(self)@.next_id,
    {
        proof {
            lemma_insert_transition_wf(old(self)@, d@);
        }
        let id = self.next_id;
        let mut nd = d;
        nd.set("_id", Value::Id(id));
        self.docs.push(nd);
        self.next_id = id + 1;
        proof {
            assert(self@.docs =~= insert_transition(old(self)@, d@).0.docs);
            assert(self@ == insert_transition(old(self)@, d@).0);
        }
        id
    }

    /// Deletes the first document satisfying `f`; hands back how many were
    /// removed (0 or 1).
    pub fn delete_one(&mut self, f: &Doc) -> (n: u64)
        requires
            old(self).wf(),
        ensures
            (final(self)@, n) == delete_transition(old(self)@, f@),
            final(self).wf(),
    {
        proof {
            lemma_delete_transition_wf(old(self)@, f@);
        }
        let pos = self.position_matching(f);
        match pos {
            Some(i) => {
                self.docs.remove(i);
                proof {
                    assert(self@.docs =~= delete_transition(old(self)@, f@).0.docs);
                    assert(self@ == delete_transition(old(self)@, f@).0);
                }
                1
            }
            None => 0,
        }
    }

    /// The first document satisfying `f`, if any.
    pub fn find_first(&self, f: &Doc) -> (r: Option<&Doc>)
        requires
            self.wf(),
        ensures
            match r {
                Some(d) => some_match(self@.docs, f@)
                    && d@ == self@.docs[first_match(self@.docs, f@)] && d.wf(),
                None => !some_match(self@.docs, f@),
            },
    {
        match self.position_matching(f) {
            Some(i) => Some(&self.docs[i]),
            None => None,
        }
    }

    /// Every document satisfying `f`, in store order.
    pub fn find_all(&self, f: &Doc) -> (r: Vec<Doc>)
        requires
            self.wf(),
        ensures
            r@.map_values(|d: Doc| d@) == matching_docs(self@.docs, f@),
            forall|i: int| 0 <= i < r@.len() ==> (#[trigger] r@[i]).wf(),
    {
        let ghost all = self@.docs;
        let n = self.docs.len();
        let mut out: Vec<Doc> = Vec::new();
        let mut i: usize = 0;
        proof {
            assert(all.skip(0) =~= all);
            assert(out@.map_values(|d: Doc| d@) =~= Seq::<Seq<EntryV>>::empty());
            assert(Seq::<Seq<EntryV>>::empty() + matching_docs(all, f@) =~= matching_docs(all, f@));
        }
        while i < n
            invariant
                self.wf(),
                n == all.len(),
                all == self@.docs,
                i <= n,
                forall|j: int| 0 <= j < out@.len() ==> (#[trigger] out@[j]).wf(),
                matching_docs(all, f@) == out@.map_values(|d: Doc| d@) + matching_docs(all.skip(i as int), f@),
            decreases n - i,
        {
            let ghost before = out@.map_values(|d: Doc| d@);
            proof {
                assert(all.skip(i as int)[0] == all[i as int]);
                assert(all.skip(i as int).skip(1) =~= all.skip(i as int + 1));
                assert(wf_doc(self@.docs[i as int]));
            }
            if self.docs[i].satisfies(f) {
                out.push(self.docs[i].duplicate());
                proof {
                    assert(out@.map_values(|d: Doc| d@) =~= before.push(all[i as int]));
                    assert(before.push(all[i as int]) =~= before + seq![all[i as int]]);
                    assert(before + (seq![all[i as int]] + matching_docs(all.skip(i as int + 1), f@))
                        =~= (before + seq![all[i as int]]) + matching_docs(all.skip(i as int + 1), f@));
                }
            }
            i += 1;
        }
        proof {
            assert(all.skip(n as int) =~= Seq::<Seq<EntryV>>::empty());
            assert(out@.map_values(|d: Doc| d@) + Seq::<Seq<EntryV>>::empty() =~= out@.map_values(|d: Doc| d@));
        }
        out
    }

    /// The collection's current index descriptors.
    pub fn list_indexes(&self) -> (r: &Vec<IndexInfo>)
        ensures
            infos_view(r@) == self@.indexes,
    {
        &self.indexes
    }

    /// Drops the first index declared under `name`, if any; a miss is a
    /// silent no-op, as a best-effort drop is.
    pub fn drop_index(&mut self, name: &String) -> (hit: bool)
        ensures
            final(self)@.indexes == crate::reconcile::drop_one(old(self)@.indexes, name@),
            final(self)@.docs == old(self)@.docs,
            final(self)@.next_id == old(self)@.next_id,
            final(self).wf() == old(self).wf(),
    {
        let n = self.indexes.len();
        let mut i: usize = 0;
        while i < n
            invariant
                self@ == old(self)@,
                n == self@.indexes.len(),
                i <= n,
                forall|j: int| 0 <= j < i ==> (#[trigger] self@.indexes[j]).name != Some(name@),
            decreases n - i,
        {
            let hit = match &self.indexes[i].name {
                Some(nm) => *nm == *name,
                None => false,
            };
            proof {
                assert(self@.indexes[i as int] == self.indexes@[i as int]@);
            }
            if hit {
                let ghost idx0 = self@.indexes;
                proof {
                    assert(idx0[i as int].name == Some(name@));
                }
                self.indexes.remove(i);
                proof {
                    crate::reconcile::lemma_first_named_found(idx0, name@, i as int);
                    assert(self@.indexes =~= crate::reconcile::drop_one(idx0, name@));
                    assert(self@.docs =~= old(self)@.docs);
                }
                return true;
            }
            i += 1;
        }
        proof {
            assert(self@.indexes =~= crate::reconcile::drop_one(self@.indexes, name@));
        }
        false
    }

    /// Creates one single-field ascending index on `key`, named after it as
    /// the store's convention names single-field indexes.
    pub fn create_index(&mut self, key: &String)
        ensures
            final(self)@.indexes == old(self)@.indexes.push(crate::reconcile::made_index(key@)),
            final(self)@.docs == old(self)@.docs,
            final(self)@.next_id == old(self)@.next_id,
            final(self).wf() == old(self).wf(),
    {
        let mut keys: Vec<String> = Vec::new();
        keys.push(key.clone());
        let mut name: String = key.clone();
        name.append("_1");
        let info = IndexInfo { keys, name: Some(name) };
        proof {
            assert(info@.keys =~= seq![key@]);
            assert(info@ == crate::reconcile::made_index(key@));
        }
        self.indexes.push(info);
        proof {
            assert(self@.indexes =~= old(self)@.indexes.push(crate::reconcile::made_index(key@)));
            assert(self@.docs =~= old(self)@.docs);
        }
    }
}

} // verus!
