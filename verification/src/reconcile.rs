//! Index reconciliation.
//!
//! Given the attribute names a model declares as indexed and the index
//! descriptors a collection currently carries, the reconciler plans the
//! convergence: an attribute already backed by a live index needs nothing;
//! a live index keyed on a non-identifier attribute outside the declared
//! list is marked for dropping by its declared name; what remains of the
//! declared list is created as single-field ascending indexes. When the
//! live listing could not be fetched, the plan degrades to creating every
//! declared attribute.

use vstd::prelude::*;
use crate::doc::id_key;

verus! {

/// One index descriptor: the keyed attribute names and the declared index
/// name, when the store reported one.
pub struct IndexInfo {
    pub keys: Vec<String>,
    pub name: Option<String>,
}

/// The mathematical value of an `IndexInfo`.
pub struct IndexInfoV {
    pub keys: Seq<Seq<char>>,
    pub name: Option<Seq<char>>,
}

impl View for IndexInfo {
    type V = IndexInfoV;

    open spec fn view(&self) -> IndexInfoV {
        IndexInfoV {
            keys: self.keys@.map_values(|k: String| k@),
            name: match self.name {
                Some(n) => Some(n@),
                None => None,
            },
        }
    }
}

/// The views of a list of descriptors.
pub open spec fn infos_view(s: Seq<IndexInfo>) -> Seq<IndexInfoV> {
    s.map_values(|x: IndexInfo| x@)
}

/// The views of a list of names.
pub open spec fn strs_view(s: Seq<String>) -> Seq<Seq<char>> {
    s.map_values(|x: String| x@)
}

/// The first position of `k` in `s` (meaningful when `s` contains `k`).
pub open spec fn first_index_of(s: Seq<Seq<char>>, k: Seq<char>) -> int
    decreases s.len(),
{
    if s.len() == 0 {
        0
    } else if s[0] == k {
        0
    } else {
        1 + first_index_of(s.skip(1), k)
    }
}

/// `s` without its first occurrence of `k` (unchanged when absent).
pub open spec fn remove_first(s: Seq<Seq<char>>, k: Seq<char>) -> Seq<Seq<char>> {
    if s.contains(k) {
        s.remove(first_index_of(s, k))
    } else {
        s
    }
}

/// A forward scan that found its first hit at `i` agrees with
/// `first_index_of`.
pub proof fn lemma_first_index_found(s: Seq<Seq<char>>, k: Seq<char>, i: int)
    requires
        0 <= i < s.len(),
        s[i] == k,
        forall|j: int| 0 <= j < i ==> s[j] != k,
    ensures
        s.contains(k),
        first_index_of(s, k) == i,
    decreases i,
{
    if i == 0 {
    } else {
        assert(s.skip(1)[i - 1] == s[i]);
        assert(forall|j: int| 0 <= j < i - 1 ==> s.skip(1)[j] == s[j + 1]);
        lemma_first_index_found(s.skip(1), k, i - 1);
    }
}

/// One step of the diff, for one key of one live index: an identifier key
/// is skipped; a declared key is consumed as already satisfied; any other
/// key marks the index's declared name for dropping.
pub open spec fn diff_one_key(
    acc: (Seq<Seq<char>>, Seq<Seq<char>>),
    k: Seq<char>,
    name: Option<Seq<char>>,
) -> (Seq<Seq<char>>, Seq<Seq<char>>) {
    if k == id_key() {
        acc
    } else if acc.0.contains(k) {
        (remove_first(acc.0, k), acc.1)
    } else {
        match name {
            Some(n) => (acc.0, acc.1.push(n)),
            None => acc,
        }
    }
}

/// The diff over all keys of one live index.
pub open spec fn diff_keys(
    acc: (Seq<Seq<char>>, Seq<Seq<char>>),
    keys: Seq<Seq<char>>,
    name: Option<Seq<char>>,
) -> (Seq<Seq<char>>, Seq<Seq<char>>)
    decreases keys.len(),
{
    if keys.len() == 0 {
        acc
    } else {
        diff_keys(diff_one_key(acc, keys[0], name), keys.skip(1), name)
    }
}

/// The diff over the whole live index list: what is left of `acc.0` must
/// be created, what was pushed onto `acc.1` must be dropped.
pub open spec fn diff_indexes(
    acc: (Seq<Seq<char>>, Seq<Seq<char>>),
    live: Seq<IndexInfoV>,
) -> (Seq<Seq<char>>, Seq<Seq<char>>)
    decreases live.len(),
{
    if live.len() == 0 {
        acc
    } else {
        diff_indexes(diff_keys(acc, live[0].keys, live[0].name), live.skip(1))
    }
}

/// Whether some index is declared under `n`.
pub open spec fn has_named(idx: Seq<IndexInfoV>, n: Seq<char>) -> bool {
    exists|i: int| 0 <= i < idx.len() && (#[trigger] idx[i]).name == Some(n)
}

/// The first position of an index declared under `n` (meaningful under
/// `has_named`).
pub open spec fn first_named(idx: Seq<IndexInfoV>, n: Seq<char>) -> int
    decreases idx.len(),
{
    if idx.len() == 0 {
        0
    } else if idx[0].name == Some(n) {
        0
    } else {
        1 + first_named(idx.skip(1), n)
    }
}

/// A forward scan that found its first hit at `i` agrees with
/// `first_named`.
pub proof fn lemma_first_named_found(idx: Seq<IndexInfoV>, n: Seq<char>, i: int)
    requires
        0 <= i < idx.len(),
        idx[i].name == Some(n),
        forall|j: int| 0 <= j < i ==> (#[trigger] idx[j]).name != Some(n),
    ensures
        has_named(idx, n),
        first_named(idx, n) == i,
    decreases i,
{
    if i == 0 {
    } else {
        assert(idx.skip(1)[i - 1] == idx[i]);
        assert(forall|j: int| 0 <= j < i - 1 ==> idx.skip(1)[j] == idx[j + 1]);
        lemma_first_named_found(idx.skip(1), n, i - 1);
    }
}

/// Effect of one best-effort drop: the first index declared under `n`
/// leaves; a miss changes nothing.
pub open spec fn drop_one(idx: Seq<IndexInfoV>, n: Seq<char>) -> Seq<IndexInfoV> {
    if has_named(idx, n) {
        idx.remove(first_named(idx, n))
    } else {
        idx
    }
}

/// Effect of dropping each marked name in order.
pub open spec fn apply_drops(idx: Seq<IndexInfoV>, names: Seq<Seq<char>>) -> Seq<IndexInfoV>
    decreases names.len(),
{
    if names.len() == 0 {
        idx
    } else {
        apply_drops(drop_one(idx, names[0]), names.skip(1))
    }
}

/// The descriptor of a created index: single-field ascending on `k`, named
/// as the store's convention names single-field indexes.
pub open spec fn made_index(k: Seq<char>) -> IndexInfoV {
    IndexInfoV { keys: seq![k], name: Some(k + "_1"@) }
}

/// Effect of creating one index per remaining attribute, in order.
pub open spec fn apply_creates(idx: Seq<IndexInfoV>, keys: Seq<Seq<char>>) -> Seq<IndexInfoV>
    decreases keys.len(),
{
    if keys.len() == 0 {
        idx
    } else {
        apply_creates(idx.push(made_index(keys[0])), keys.skip(1))
    }
}

/// The whole reconciliation of one collection's index set against the
/// declared attribute list `attrs`.
pub open spec fn reconcile_transition(idx: Seq<IndexInfoV>, attrs: Seq<Seq<char>>) -> Seq<IndexInfoV> {
    let (rem, drops) = diff_indexes((attrs, Seq::empty()), idx);
    apply_creates(apply_drops(idx, drops), rem)
}

/// No two entries of `s` are equal.
pub open spec fn distinct_strs(s: Seq<Seq<char>>) -> bool {
    forall|i: int, j: int| 0 <= i < j < s.len() ==> s[i] != s[j]
}

/// Every live index is single-field and carries a declared name.
pub open spec fn single_key_named(idx: Seq<IndexInfoV>) -> bool {
    forall|i: int| 0 <= i < idx.len()
        ==> (#[trigger] idx[i]).keys.len() == 1 && idx[i].name is Some
}

/// Some live index is keyed on `k`.
pub open spec fn live_key(idx: Seq<IndexInfoV>, k: Seq<char>) -> bool {
    exists|i: int| 0 <= i < idx.len() && (#[trigger] idx[i]).keys[0] == k
}

/// Some live index named `n` is stale: keyed on a non-identifier
/// attribute outside the declared list.
pub open spec fn stale_named(idx: Seq<IndexInfoV>, attrs: Seq<Seq<char>>, n: Seq<char>) -> bool {
    exists|i: int| 0 <= i < idx.len() && (#[trigger] idx[i]).name == Some(n)
        && idx[i].keys[0] != id_key() && !attrs.contains(idx[i].keys[0])
}

/// Under `contains`, `first_index_of` names the first occurrence.
proof fn lemma_first_index_in_range(s: Seq<Seq<char>>, k: Seq<char>)
    requires
        s.contains(k),
    ensures
        0 <= first_index_of(s, k) < s.len(),
        s[first_index_of(s, k)] == k,
    decreases s.len(),
{
    if s.len() > 0 && s[0] != k {
        let w = choose|i: int| 0 <= i < s.len() && s[i] == k;
        assert(s.skip(1)[w - 1] == s[w]);
        assert(s.skip(1).contains(k));
        lemma_first_index_in_range(s.skip(1), k);
        assert(s[1 + first_index_of(s.skip(1), k)] == s.skip(1)[first_index_of(s.skip(1), k)]);
    }
}

/// What removing the first occurrence leaves, when entries are distinct.
proof fn lemma_remove_first_effect(s: Seq<Seq<char>>, k: Seq<char>)
    requires
        distinct_strs(s),
    ensures
        distinct_strs(remove_first(s, k)),
        forall|k2: Seq<char>| remove_first(s, k).contains(k2) <==> (s.contains(k2) && k2 != k),
{
    if s.contains(k) {
        lemma_first_index_in_range(s, k);
        let w = first_index_of(s, k);
        let r = s.remove(w);
        assert forall|a: int, b: int| 0 <= a < b < r.len() implies r[a] != r[b] by {
            let a0 = if a < w { a } else { a + 1 };
            let b0 = if b < w { b } else { b + 1 };
            assert(r[a] == s[a0] && r[b] == s[b0]);
        }
        assert forall|k2: Seq<char>| r.contains(k2) <==> (s.contains(k2) && k2 != k) by {
            if r.contains(k2) {
                let j = choose|j: int| 0 <= j < r.len() && r[j] == k2;
                let j0 = if j < w { j } else { j + 1 };
                assert(s[j0] == k2);
                assert(j0 != w);
                if k2 == k {
                    assert(s[j0] == s[w]);
                }
            }
            if s.contains(k2) && k2 != k {
                let j = choose|j: int| 0 <= j < s.len() && s[j] == k2;
                assert(j != w);
                if j < w {
                    assert(r[j] == k2);
                } else {
                    assert(r[j - 1] == s[j]);
                }
                assert(r.contains(k2));
            }
        }
    } else {
        if s.contains(k) {
        }
    }
}

/// What the diff leaves and marks, over the whole live list: an attribute
/// survives into the create set exactly when no live index is keyed on
/// it, and a name is marked for dropping exactly when it names a stale
/// index (or was marked before).
proof fn lemma_diff_general(attrs: Seq<Seq<char>>, drops0: Seq<Seq<char>>, idx: Seq<IndexInfoV>)
    requires
        single_key_named(idx),
        forall|i: int, j: int| 0 <= i < j < idx.len()
            ==> (#[trigger] idx[i]).keys[0] != (#[trigger] idx[j]).keys[0],
        distinct_strs(attrs),
        forall|i: int| 0 <= i < attrs.len() ==> s_at(attrs, i) != id_key(),
    ensures
        ({
            let (rem, dr) = diff_indexes((attrs, drops0), idx);
            &&& forall|k: Seq<char>| rem.contains(k) <==> (attrs.contains(k) && !live_key(idx, k))
            &&& distinct_strs(rem)
            &&& forall|k: Seq<char>| rem.contains(k) ==> k != id_key()
            &&& forall|n: Seq<char>| dr.contains(n)
                <==> (drops0.contains(n) || stale_named(idx, attrs, n))
        }),
    decreases idx.len(),
{
    let (rem, dr) = diff_indexes((attrs, drops0), idx);
    if idx.len() == 0 {
        assert forall|n: Seq<char>| !stale_named(idx, attrs, n) by {}
        assert forall|k: Seq<char>| rem.contains(k) implies k != id_key() by {
            let j = choose|j: int| 0 <= j < rem.len() && rem[j] == k;
            assert(s_at(attrs, j) != id_key());
        }
    } else {
        let x = idx[0];
        let k0 = x.keys[0];
        let tail = idx.skip(1);
        assert(x.keys =~= seq![k0]);
        assert(x.keys.skip(1) =~= Seq::<Seq<char>>::empty());
        let acc1 = diff_one_key((attrs, drops0), k0, x.name);
        assert(diff_keys((attrs, drops0), x.keys, x.name)
            == diff_keys(acc1, x.keys.skip(1), x.name));
        assert(diff_keys(acc1, x.keys.skip(1), x.name) == acc1);
        assert(diff_indexes((attrs, drops0), idx)
            == diff_indexes(diff_keys((attrs, drops0), x.keys, x.name), tail));
        assert((rem, dr) == diff_indexes(acc1, tail));
        assert(forall|i: int| 0 <= i < tail.len() ==> tail[i] == idx[i + 1]);
        assert(single_key_named(tail));
        assert forall|i: int, j: int| 0 <= i < j < tail.len() implies
            (#[trigger] tail[i]).keys[0] != (#[trigger] tail[j]).keys[0] by {
            assert(tail[i] == idx[i + 1] && tail[j] == idx[j + 1]);
        }
        if k0 == id_key() {
            assert(acc1 == (attrs, drops0));
            lemma_diff_general(attrs, drops0, tail);
            assert forall|k: Seq<char>| rem.contains(k)
                <==> (attrs.contains(k) && !live_key(idx, k)) by {
                if attrs.contains(k) {
                    assert(k != id_key()) by {
                        let j = choose|j: int| 0 <= j < attrs.len() && attrs[j] == k;
                        assert(s_at(attrs, j) != id_key());
                    }
                    assert(live_key(idx, k) <==> live_key(tail, k)) by {
                        if live_key(idx, k) {
                            let i = choose|i: int| 0 <= i < idx.len()
                                && (#[trigger] idx[i]).keys[0] == k;
                            assert(i != 0);
                            assert(tail[i - 1].keys[0] == k);
                        }
                        if live_key(tail, k) {
                            let i = choose|i: int| 0 <= i < tail.len()
                                && (#[trigger] tail[i]).keys[0] == k;
                            assert(idx[i + 1].keys[0] == k);
                        }
                    }
                }
            }
            assert forall|n: Seq<char>| dr.contains(n)
                <==> (drops0.contains(n) || stale_named(idx, attrs, n)) by {
                assert(stale_named(idx, attrs, n) <==> stale_named(tail, attrs, n)) by {
                    if stale_named(idx, attrs, n) {
                        let i = choose|i: int| 0 <= i < idx.len()
                            && (#[trigger] idx[i]).name == Some(n)
                            && idx[i].keys[0] != id_key() && !attrs.contains(idx[i].keys[0]);
                        assert(i != 0);
                        assert(tail[i - 1] == idx[i]);
                    }
                    if stale_named(tail, attrs, n) {
                        let i = choose|i: int| 0 <= i < tail.len()
                            && (#[trigger] tail[i]).name == Some(n)
                            && tail[i].keys[0] != id_key() && !attrs.contains(tail[i].keys[0]);
                        assert(idx[i + 1] == tail[i]);
                    }
                }
            }
        } else if attrs.contains(k0) {
            let attrs1 = remove_first(attrs, k0);
            assert(acc1 == (attrs1, drops0));
            lemma_remove_first_effect(attrs, k0);
            lemma_first_index_in_range(attrs, k0);
            let w = first_index_of(attrs, k0);
            assert forall|i: int| 0 <= i < attrs1.len() implies s_at(attrs1, i) != id_key() by {
                let i0 = if i < w { i } else { i + 1 };
                assert(attrs1[i] == attrs[i0]);
                assert(s_at(attrs, i0) != id_key());
            }
            lemma_diff_general(attrs1, drops0, tail);
            assert forall|k: Seq<char>| rem.contains(k)
                <==> (attrs.contains(k) && !live_key(idx, k)) by {
                assert(rem.contains(k) <==> (attrs1.contains(k) && !live_key(tail, k)));
                assert(attrs1.contains(k) <==> (attrs.contains(k) && k != k0));
                assert(idx[0].keys[0] == k0);
                if k == k0 {
                    assert(live_key(idx, k0));
                } else {
                    if live_key(idx, k) {
                        let i = choose|i: int| 0 <= i < idx.len()
                            && (#[trigger] idx[i]).keys[0] == k;
                        assert(i != 0);
                        assert(tail[i - 1].keys[0] == k);
                        assert(live_key(tail, k));
                    }
                    if live_key(tail, k) {
                        let i = choose|i: int| 0 <= i < tail.len()
                            && (#[trigger] tail[i]).keys[0] == k;
                        assert(idx[i + 1].keys[0] == k);
                        assert(live_key(idx, k));
                    }
                }
            }
            assert forall|n: Seq<char>| dr.contains(n)
                <==> (drops0.contains(n) || stale_named(idx, attrs, n)) by {
                assert(dr.contains(n) <==> (drops0.contains(n) || stale_named(tail, attrs1, n)));
                assert(stale_named(tail, attrs1, n) <==> stale_named(idx, attrs, n)) by {
                    if stale_named(tail, attrs1, n) {
                        let i = choose|i: int| 0 <= i < tail.len()
                            && (#[trigger] tail[i]).name == Some(n)
                            && tail[i].keys[0] != id_key() && !attrs1.contains(tail[i].keys[0]);
                        assert(idx[i + 1] == tail[i]);
                        // A later index is never keyed on k0 again, so its
                        // staleness does not depend on the consumed entry.
                        assert(idx[i + 1].keys[0] != k0);
                        assert(!attrs.contains(idx[i + 1].keys[0]));
                        assert(stale_named(idx, attrs, n));
                    }
                    if stale_named(idx, attrs, n) {
                        let i = choose|i: int| 0 <= i < idx.len()
                            && (#[trigger] idx[i]).name == Some(n)
                            && idx[i].keys[0] != id_key() && !attrs.contains(idx[i].keys[0]);
                        assert(i != 0);
                        assert(tail[i - 1] == idx[i]);
                        assert(!attrs1.contains(idx[i].keys[0]));
                        assert(stale_named(tail, attrs1, n));
                    }
                }
            }
        } else {
            let n0 = x.name.unwrap();
            assert(x.name == Some(n0));
            let drops1 = drops0.push(n0);
            assert(acc1 == (attrs, drops1));
            lemma_diff_general(attrs, drops1, tail);
            assert forall|k: Seq<char>| rem.contains(k)
                <==> (attrs.contains(k) && !live_key(idx, k)) by {
                assert(rem.contains(k) <==> (attrs.contains(k) && !live_key(tail, k)));
                if attrs.contains(k) {
                    assert(k != k0);
                    if live_key(idx, k) {
                        let i = choose|i: int| 0 <= i < idx.len()
                            && (#[trigger] idx[i]).keys[0] == k;
                        assert(i != 0);
                        assert(tail[i - 1].keys[0] == k);
                    }
                    if live_key(tail, k) {
                        let i = choose|i: int| 0 <= i < tail.len()
                            && (#[trigger] tail[i]).keys[0] == k;
                        assert(idx[i + 1].keys[0] == k);
                    }
                }
            }
            assert forall|n: Seq<char>| dr.contains(n)
                <==> (drops0.contains(n) || stale_named(idx, attrs, n)) by {
                assert(dr.contains(n) <==> (drops1.contains(n) || stale_named(tail, attrs, n)));
                assert(drops1.contains(n) <==> (drops0.contains(n) || n == n0)) by {
                    if drops1.contains(n) {
                        let j = choose|j: int| 0 <= j < drops1.len() && drops1[j] == n;
                        if j < drops0.len() {
                            assert(drops0[j] == n);
                        }
                    }
                    if drops0.contains(n) {
                        let j = choose|j: int| 0 <= j < drops0.len() && drops0[j] == n;
                        assert(drops1[j] == n);
                    }
                    assert(drops1[drops0.len() as int] == n0);
                }
                if n == n0 {
                    assert(stale_named(idx, attrs, n0)) by {
                        assert(idx[0].name == Some(n0));
                    }
                }
                if stale_named(tail, attrs, n) {
                    let i = choose|i: int| 0 <= i < tail.len()
                        && (#[trigger] tail[i]).name == Some(n)
                        && tail[i].keys[0] != id_key() && !attrs.contains(tail[i].keys[0]);
                    assert(idx[i + 1] == tail[i]);
                    assert(stale_named(idx, attrs, n));
                }
                if stale_named(idx, attrs, n) && n != n0 {
                    let i = choose|i: int| 0 <= i < idx.len()
                        && (#[trigger] idx[i]).name == Some(n)
                        && idx[i].keys[0] != id_key() && !attrs.contains(idx[i].keys[0]);
                    assert(i != 0);
                    assert(tail[i - 1] == idx[i]);
                    assert(stale_named(tail, attrs, n));
                }
            }
        }
    }
}

/// Indexing helper for quantified `attrs` entries.
pub open spec fn s_at(s: Seq<Seq<char>>, i: int) -> Seq<char> {
    s[i]
}

/// Under `has_named`, `first_named` lies in range and names its index.
proof fn lemma_first_named_in_range(idx: Seq<IndexInfoV>, n: Seq<char>)
    requires
        has_named(idx, n),
    ensures
        0 <= first_named(idx, n) < idx.len(),
        idx[first_named(idx, n)].name == Some(n),
    decreases idx.len(),
{
    if idx.len() > 0 && idx[0].name != Some(n) {
        let w = choose|i: int| 0 <= i < idx.len() && (#[trigger] idx[i]).name == Some(n);
        assert(idx.skip(1)[w - 1] == idx[w]);
        assert(has_named(idx.skip(1), n));
        lemma_first_named_in_range(idx.skip(1), n);
        let m = first_named(idx.skip(1), n);
        assert(idx[1 + m] == idx.skip(1)[m]);
    }
}

/// What the best-effort drops leave, when the live names are unique:
/// exactly the indexes whose declared name was never marked, with names
/// and keys still pairwise distinct.
proof fn lemma_apply_drops_effect(idx: Seq<IndexInfoV>, names: Seq<Seq<char>>)
    requires
        forall|i: int| 0 <= i < idx.len() ==> (#[trigger] idx[i]).name is Some,
        forall|i: int, j: int| 0 <= i < j < idx.len()
            ==> (#[trigger] idx[i]).name != (#[trigger] idx[j]).name,
        forall|i: int, j: int| 0 <= i < j < idx.len()
            ==> (#[trigger] idx[i]).keys != (#[trigger] idx[j]).keys,
    ensures
        ({
            let after = apply_drops(idx, names);
            &&& forall|j: int| 0 <= j < after.len() ==> idx.contains(#[trigger] after[j])
            &&& forall|i: int| 0 <= i < idx.len()
                ==> (after.contains(#[trigger] idx[i]) <==> !names.contains(idx[i].name.unwrap()))
            &&& forall|i: int| 0 <= i < after.len() ==> (#[trigger] after[i]).name is Some
            &&& forall|i: int, j: int| 0 <= i < j < after.len()
                ==> (#[trigger] after[i]).name != (#[trigger] after[j]).name
            &&& forall|i: int, j: int| 0 <= i < j < after.len()
                ==> (#[trigger] after[i]).keys != (#[trigger] after[j]).keys
        }),
    decreases names.len(),
{
    let after = apply_drops(idx, names);
    if names.len() == 0 {
        assert forall|i: int| 0 <= i < idx.len() implies after.contains(#[trigger] idx[i]) by {
            assert(after[i] == idx[i]);
        }
    } else {
        let n0 = names[0];
        let idx1 = drop_one(idx, n0);
        assert(after == apply_drops(idx1, names.skip(1)));
        // Head-tail decomposition of membership in the name list.
        assert forall|x: Seq<char>| names.contains(x)
            <==> (x == n0 || names.skip(1).contains(x)) by {
            if names.contains(x) {
                let j = choose|j: int| 0 <= j < names.len() && names[j] == x;
                if j > 0 {
                    assert(names.skip(1)[j - 1] == x);
                }
            }
            if names.skip(1).contains(x) {
                let j = choose|j: int| 0 <= j < names.skip(1).len() && names.skip(1)[j] == x;
                assert(names[j + 1] == x);
            }
        }
        if has_named(idx, n0) {
            lemma_first_named_in_range(idx, n0);
            let w = first_named(idx, n0);
            assert(idx1 == idx.remove(w));
            assert(forall|j: int| 0 <= j < w ==> idx1[j] == idx[j]);
            assert(forall|j: int| w <= j < idx1.len() ==> idx1[j] == idx[j + 1]);
            assert forall|a: int, b: int| 0 <= a < b < idx1.len() implies
                (#[trigger] idx1[a]).name != (#[trigger] idx1[b]).name
                && idx1[a].keys != idx1[b].keys by {
                let a0 = if a < w { a } else { a + 1 };
                let b0 = if b < w { b } else { b + 1 };
                assert(idx1[a] == idx[a0] && idx1[b] == idx[b0]);
            }
            assert forall|a: int| 0 <= a < idx1.len() implies (#[trigger] idx1[a]).name is Some by {
                let a0 = if a < w { a } else { a + 1 };
                assert(idx1[a] == idx[a0]);
            }
            lemma_apply_drops_effect(idx1, names.skip(1));
            assert forall|j: int| 0 <= j < after.len() implies idx.contains(#[trigger] after[j]) by {
                assert(idx1.contains(after[j]));
                let p = choose|p: int| 0 <= p < idx1.len() && idx1[p] == after[j];
                let p0 = if p < w { p } else { p + 1 };
                assert(idx[p0] == after[j]);
            }
            assert forall|i: int| 0 <= i < idx.len() implies
                (after.contains(#[trigger] idx[i]) <==> !names.contains(idx[i].name.unwrap())) by {
                if i == w {
                    assert(names.contains(idx[w].name.unwrap()));
                    if after.contains(idx[w]) {
                        assert(idx1.contains(idx[w]));
                        let p = choose|p: int| 0 <= p < idx1.len() && idx1[p] == idx[w];
                        let p0 = if p < w { p } else { p + 1 };
                        assert(idx[p0] == idx[w]);
                        assert(idx[p0].name == idx[w].name);
                    }
                } else {
                    assert(idx[i].name != idx[w].name);
                    assert(idx[i].name.unwrap() != n0);
                    let i1 = if i < w { i } else { i - 1 };
                    assert(idx1[i1] == idx[i]);
                    assert(idx1.contains(idx[i])) by {
                        assert(idx1[i1] == idx[i]);
                    }
                    assert(after.contains(idx[i]) <==> !names.skip(1).contains(idx[i].name.unwrap()));
                }
            }
        } else {
            assert(idx1 == idx);
            lemma_apply_drops_effect(idx, names.skip(1));
            assert forall|i: int| 0 <= i < idx.len() implies
                (after.contains(#[trigger] idx[i]) <==> !names.contains(idx[i].name.unwrap())) by {
                assert(idx[i].name.unwrap() != n0) by {
                    if idx[i].name.unwrap() == n0 {
                        assert(idx[i].name == Some(n0));
                        assert(has_named(idx, n0));
                    }
                }
            }
        }
    }
}

/// Creation appends one descriptor per key, in order, touching nothing
/// that was already there.
proof fn lemma_apply_creates_effect(idx: Seq<IndexInfoV>, keys: Seq<Seq<char>>)
    ensures
        ({
            let after = apply_creates(idx, keys);
            &&& after.len() == idx.len() + keys.len()
            &&& forall|j: int| 0 <= j < idx.len() ==> after[j] == idx[j]
            &&& forall|j: int| 0 <= j < keys.len()
                ==> after[idx.len() + j] == made_index(s_at(keys, j))
        }),
    decreases keys.len(),
{
    if keys.len() > 0 {
        let idx1 = idx.push(made_index(keys[0]));
        lemma_apply_creates_effect(idx1, keys.skip(1));
        let after = apply_creates(idx, keys);
        assert forall|j: int| 0 <= j < keys.len() implies
            after[idx.len() + j] == made_index(s_at(keys, j)) by {
            if j == 0 {
                assert(after[idx.len() as int] == idx1[idx.len() as int]);
            } else {
                assert(after[idx1.len() + (j - 1)] == made_index(s_at(keys.skip(1), j - 1)));
                assert(s_at(keys.skip(1), j - 1) == s_at(keys, j));
            }
        }
    }
}

/// Index convergence: when the live indexes are single-field with unique
/// declared names and unique keys, and the declared attribute list is
/// duplicate-free and does not name the identifier, one reconciliation
/// pass leaves the collection with exactly one single-field index per
/// declared attribute — indexes on undeclared attributes are gone, the
/// identifier index alone survives undeclared.
pub proof fn lemma_index_convergence(idx: Seq<IndexInfoV>, attrs: Seq<Seq<char>>)
    requires
        single_key_named(idx),
        forall|i: int, j: int| 0 <= i < j < idx.len()
            ==> (#[trigger] idx[i]).name != (#[trigger] idx[j]).name,
        forall|i: int, j: int| 0 <= i < j < idx.len()
            ==> (#[trigger] idx[i]).keys[0] != (#[trigger] idx[j]).keys[0],
        distinct_strs(attrs),
        forall|i: int| 0 <= i < attrs.len() ==> s_at(attrs, i) != id_key(),
    ensures
        ({
            let after = reconcile_transition(idx, attrs);
            &&& forall|k: Seq<char>| k != id_key()
                ==> ((exists|i: int| 0 <= i < after.len() && (#[trigger] after[i]).keys == seq![k])
                    <==> attrs.contains(k))
            &&& forall|i: int, j: int| 0 <= i < j < after.len()
                ==> (#[trigger] after[i]).keys != (#[trigger] after[j]).keys
            &&& (live_key(idx, id_key())
                <==> (exists|i: int| 0 <= i < after.len()
                    && (#[trigger] after[i]).keys == seq![id_key()]))
        }),
{
    let (rem, drops) = diff_indexes((attrs, Seq::empty()), idx);
    lemma_diff_general(attrs, Seq::empty(), idx);
    assert(forall|n: Seq<char>| !Seq::<Seq<char>>::empty().contains(n));
    // Single-field keys determine and are determined by their one entry.
    assert forall|i: int| 0 <= i < idx.len() implies (#[trigger] idx[i]).keys
        == seq![idx[i].keys[0]] by {
        assert(idx[i].keys =~= seq![idx[i].keys[0]]);
    }
    assert forall|i: int, j: int| 0 <= i < j < idx.len() implies
        (#[trigger] idx[i]).keys != (#[trigger] idx[j]).keys by {
        if idx[i].keys == idx[j].keys {
            assert(idx[i].keys[0] == idx[j].keys[0]);
        }
    }
    let dropped = apply_drops(idx, drops);
    lemma_apply_drops_effect(idx, drops);
    lemma_apply_creates_effect(dropped, rem);
    let after = reconcile_transition(idx, attrs);
    assert(after == apply_creates(dropped, rem));

    // A marked name always names a stale index, and with unique names the
    // witness is the index itself.
    assert forall|i: int| 0 <= i < idx.len() && drops.contains((#[trigger] idx[i]).name.unwrap())
        implies idx[i].keys[0] != id_key() && !attrs.contains(idx[i].keys[0]) by {
        assert(stale_named(idx, attrs, idx[i].name.unwrap()));
        let w = choose|w: int| 0 <= w < idx.len()
            && (#[trigger] idx[w]).name == Some(idx[i].name.unwrap())
            && idx[w].keys[0] != id_key() && !attrs.contains(idx[w].keys[0]);
        if w < i {
            assert(idx[w].name != idx[i].name);
        } else if i < w {
            assert(idx[i].name != idx[w].name);
        }
    }
    // And a live non-identifier index outside the declared list is marked.
    assert forall|i: int| 0 <= i < idx.len() && (#[trigger] idx[i]).keys[0] != id_key()
        && !attrs.contains(idx[i].keys[0])
        implies drops.contains(idx[i].name.unwrap()) by {
        assert(idx[i].name == Some(idx[i].name.unwrap()));
        assert(stale_named(idx, attrs, idx[i].name.unwrap()));
    }

    assert forall|k: Seq<char>| k != id_key() implies
        ((exists|i: int| 0 <= i < after.len() && (#[trigger] after[i]).keys == seq![k])
            <==> attrs.contains(k)) by {
        if attrs.contains(k) {
            if live_key(idx, k) {
                let i = choose|i: int| 0 <= i < idx.len() && (#[trigger] idx[i]).keys[0] == k;
                assert(!drops.contains(idx[i].name.unwrap()));
                assert(dropped.contains(idx[i]));
                let p = choose|p: int| 0 <= p < dropped.len() && dropped[p] == idx[i];
                assert(after[p] == dropped[p]);
                assert(after[p].keys == seq![k]);
            } else {
                assert(rem.contains(k));
                let j = choose|j: int| 0 <= j < rem.len() && rem[j] == k;
                assert(after[dropped.len() + j] == made_index(s_at(rem, j)));
                assert(after[dropped.len() + j].keys == seq![k]);
            }
        }
        if exists|i: int| 0 <= i < after.len() && (#[trigger] after[i]).keys == seq![k] {
            let i = choose|i: int| 0 <= i < after.len() && (#[trigger] after[i]).keys == seq![k];
            if i < dropped.len() {
                assert(after[i] == dropped[i]);
                assert(idx.contains(dropped[i]));
                let p = choose|p: int| 0 <= p < idx.len() && idx[p] == dropped[i];
                assert(idx[p].keys == seq![k]);
                assert(idx[p].keys[0] == k);
                if !attrs.contains(k) {
                    assert(drops.contains(idx[p].name.unwrap()));
                    assert(!dropped.contains(idx[p]));
                    assert(dropped.contains(idx[p])) by {
                        assert(dropped[i] == idx[p]);
                    }
                }
            } else {
                let j = i - dropped.len();
                assert(after[dropped.len() + j] == made_index(s_at(rem, j)));
                assert(seq![s_at(rem, j)] == seq![k]);
                assert(s_at(rem, j) == seq![k][0]);
                assert(rem.contains(k)) by {
                    assert(rem[j] == k);
                }
            }
        }
    }

    assert forall|i: int, j: int| 0 <= i < j < after.len() implies
        (#[trigger] after[i]).keys != (#[trigger] after[j]).keys by {
        if j < dropped.len() {
            assert(after[i] == dropped[i] && after[j] == dropped[j]);
        } else if i >= dropped.len() {
            let a = i - dropped.len();
            let b = j - dropped.len();
            assert(after[dropped.len() + a] == made_index(s_at(rem, a)));
            assert(after[dropped.len() + b] == made_index(s_at(rem, b)));
            if made_index(s_at(rem, a)).keys == made_index(s_at(rem, b)).keys {
                assert(seq![s_at(rem, a)][0] == seq![s_at(rem, b)][0]);
                assert(s_at(rem, a) == s_at(rem, b));
                assert(rem[a] != rem[b]);
            }
        } else {
            let b = j - dropped.len();
            assert(after[i] == dropped[i]);
            assert(after[dropped.len() + b] == made_index(s_at(rem, b)));
            assert(idx.contains(dropped[i]));
            let p = choose|p: int| 0 <= p < idx.len() && idx[p] == dropped[i];
            if dropped[i].keys == made_index(s_at(rem, b)).keys {
                assert(idx[p].keys[0] == s_at(rem, b));
                assert(live_key(idx, s_at(rem, b)));
                assert(rem.contains(s_at(rem, b))) by {
                    assert(rem[b] == s_at(rem, b));
                }
            }
        }
    }

    assert(live_key(idx, id_key())
        <==> (exists|i: int| 0 <= i < after.len() && (#[trigger] after[i]).keys == seq![id_key()])) by {
        if live_key(idx, id_key()) {
            let i = choose|i: int| 0 <= i < idx.len() && (#[trigger] idx[i]).keys[0] == id_key();
            assert(!drops.contains(idx[i].name.unwrap()));
            assert(dropped.contains(idx[i]));
            let p = choose|p: int| 0 <= p < dropped.len() && dropped[p] == idx[i];
            assert(after[p] == dropped[p]);
            assert(after[p].keys == seq![id_key()]);
        }
        if exists|i: int| 0 <= i < after.len() && (#[trigger] after[i]).keys == seq![id_key()] {
            let i = choose|i: int| 0 <= i < after.len()
                && (#[trigger] after[i]).keys == seq![id_key()];
            if i < dropped.len() {
                assert(after[i] == dropped[i]);
                assert(idx.contains(dropped[i]));
                let p = choose|p: int| 0 <= p < idx.len() && idx[p] == dropped[i];
                assert(idx[p].keys[0] == id_key());
                assert(live_key(idx, id_key()));
            } else {
                let j = i - dropped.len();
                assert(after[dropped.len() + j] == made_index(s_at(rem, j)));
                assert(seq![s_at(rem, j)][0] == seq![id_key()][0]);
                assert(s_at(rem, j) == id_key());
                assert(rem.contains(id_key())) by {
                    assert(rem[j] == id_key());
                }
            }
        }
    }
}

/// What a reconciliation pass will do: the attributes to create indexes
/// for, and the declared names of the indexes to drop.
pub struct ReconcilePlan {
    pub create: Vec<String>,
    pub drop_names: Vec<String>,
}

/// The first position of `k` in `v`, if any.
fn position_of_str(v: &Vec<String>, k: &String) -> (r: Option<usize>)
    ensures
        match r {
            Some(p) => p < v@.len() && v@[p as int]@ == k@ && strs_view(v@).contains(k@)
                && first_index_of(strs_view(v@), k@) == p,
            None => !strs_view(v@).contains(k@),
        },
{
    let n = v.len();
    let mut i: usize = 0;
    while i < n
        invariant
            n == v@.len(),
            i <= n,
            forall|j: int| 0 <= j < i ==> strs_view(v@)[j] != k@,
        decreases n - i,
    {
        if v[i] == *k {
            proof {
                lemma_first_index_found(strs_view(v@), k@, i as int);
            }
            return Some(i);
        }
        i += 1;
    }
    proof {
        if strs_view(v@).contains(k@) {
            let w = choose|j: int| 0 <= j < strs_view(v@).len() && strs_view(v@)[j] == k@;
            assert(strs_view(v@)[w] == k@);
        }
    }
    None
}

/// Plans one reconciliation pass.
///
/// With a live listing, the diff consumes declared attributes already
/// backed by an index and marks stale non-identifier indexes for dropping
/// by their declared name. Without one (the listing failed), the plan
/// degrades to creating every declared attribute and dropping nothing.
pub fn reconcile_plan(attributes: &Vec<String>, live: Option<&Vec<IndexInfo>>) -> (p: ReconcilePlan)
    ensures
        match live {
            Some(l) => (strs_view(p.create@), strs_view(p.drop_names@))
                == diff_indexes((strs_view(attributes@), Seq::empty()), infos_view(l@)),
            None => strs_view(p.create@) == strs_view(attributes@) && p.drop_names@.len() == 0,
        },
{
    let mut attrs: Vec<String> = Vec::new();
    let an = attributes.len();
    let mut ai: usize = 0;
    while ai < an
        invariant
            an == attributes@.len(),
            ai <= an,
            attrs@.len() == ai,
            forall|j: int| 0 <= j < ai ==> strs_view(attrs@)[j] == strs_view(attributes@)[j],
        decreases an - ai,
    {
        attrs.push(attributes[ai].clone());
        ai += 1;
    }
    proof {
        assert(strs_view(attrs@) =~= strs_view(attributes@));
    }
    let mut drops: Vec<String> = Vec::new();

    let l = match live {
        None => {
            return ReconcilePlan { create: attrs, drop_names: drops };
        }
        Some(l) => l,
    };

    let ghost acc0 = (strs_view(attributes@), strs_view(drops@));
    proof {
        assert(strs_view(drops@) =~= Seq::<Seq<char>>::empty());
    }
    let id_name: String = "_id".to_owned();
    let n = l.len();
    let mut i: usize = 0;
    proof {
        assert(infos_view(l@).skip(0) =~= infos_view(l@));
    }
    while i < n
        invariant
            n == l@.len(),
            i <= n,
            id_name@ == id_key(),
            diff_indexes(acc0, infos_view(l@))
                == diff_indexes((strs_view(attrs@), strs_view(drops@)), infos_view(l@).skip(i as int)),
        decreases n - i,
    {
        let ghost live_v = infos_view(l@);
        let ghost acc_entry = (strs_view(attrs@), strs_view(drops@));
        proof {
            assert(live_v.skip(i as int)[0] == live_v[i as int]);
            assert(live_v.skip(i as int).skip(1) =~= live_v.skip(i as int + 1));
        }
        let info = &l[i];
        let kn = info.keys.len();
        let mut j: usize = 0;
        proof {
            assert(info@.keys.skip(0) =~= info@.keys);
        }
        while j < kn
            invariant
                kn == info.keys@.len(),
                j <= kn,
                id_name@ == id_key(),
                info@ == infos_view(l@)[i as int],
                i < l@.len(),
                n == l@.len(),
                diff_keys(acc_entry, info@.keys, info@.name)
                    == diff_keys((strs_view(attrs@), strs_view(drops@)), info@.keys.skip(j as int), info@.name),
            decreases kn - j,
        {
            let ghost keys_v = info@.keys;
            let ghost acc_now = (strs_view(attrs@), strs_view(drops@));
            proof {
                assert(keys_v.skip(j as int)[0] == keys_v[j as int]);
                assert(keys_v.skip(j as int).skip(1) =~= keys_v.skip(j as int + 1));
            }
            let key = &info.keys[j];
            if !(*key == id_name) {
                match position_of_str(&attrs, key) {
                    Some(p) => {
                        attrs.remove(p);
                        proof {
                            assert(strs_view(attrs@) =~= remove_first(acc_now.0, keys_v[j as int]));
                        }
                    }
                    None => {
                        match &info.name {
                            Some(nm) => {
                                drops.push(nm.clone());
                                proof {
                                    assert(strs_view(drops@) =~= acc_now.1.push(nm@));
                                    assert(info@.name == Some(nm@));
                                }
                            }
                            None => {
                                proof {
                                    assert(info@.name is None);
                                }
                            }
                        }
                    }
                }
            }
            proof {
                assert((strs_view(attrs@), strs_view(drops@))
                    == diff_one_key(acc_now, keys_v[j as int], info@.name));
            }
            j += 1;
        }
        proof {
            assert(info@.keys.skip(kn as int) =~= Seq::<Seq<char>>::empty());
        }
        i += 1;
    }
    proof {
        assert(infos_view(l@).skip(n as int) =~= Seq::<IndexInfoV>::empty());
    }
    ReconcilePlan { create: attrs, drop_names: drops }
}

} // verus!
