//! The wire-document model.
//!
//! The store keeps each record as a key-ordered document. This core treats a
//! document as opaque except for one field: the entry literally named `_id`,
//! which carries the store-assigned identifier. Identifiers are modelled as
//! plain integers; field values are plain scalars. Keys inside one document
//! are unique (`wf`), and every operation preserves that.

use vstd::prelude::*;

verus! {

/// A plain field value of a wire document.
pub enum Value {
    /// A store-assigned identifier.
    Id(u64),
    /// A signed integer field.
    Int(i64),
    /// A boolean field.
    Bool(bool),
    /// A text field.
    Str(String),
}

/// The mathematical value of a `Value`.
pub enum ValueV {
    Id(u64),
    Int(i64),
    Bool(bool),
    Str(Seq<char>),
}

impl View for Value {
    type V = ValueV;

    open spec fn view(&self) -> ValueV {
        match self {
            Value::Id(n) => ValueV::Id(*n),
            Value::Int(n) => ValueV::Int(*n),
            Value::Bool(b) => ValueV::Bool(*b),
            Value::Str(s) => ValueV::Str(s@),
        }
    }
}

/// One field of a document: a key and its value.
pub struct Entry {
    pub key: String,
    pub value: Value,
}

/// The mathematical value of an `Entry`.
pub struct EntryV {
    pub key: Seq<char>,
    pub value: ValueV,
}

impl View for Entry {
    type V = EntryV;

    open spec fn view(&self) -> EntryV {
        EntryV { key: self.key@, value: self.value@ }
    }
}

/// The key under which the store-assigned identifier is kept.
pub open spec fn id_key() -> Seq<char> {
    "_id"@
}

/// No two entries of `d` share a key.
pub open spec fn wf_doc(d: Seq<EntryV>) -> bool {
    forall|i: int, j: int| 0 <= i < j < d.len() ==> d[i].key != d[j].key
}

/// Some entry of `d` has key `k`.
pub open spec fn has_key(d: Seq<EntryV>, k: Seq<char>) -> bool {
    exists|i: int| 0 <= i < d.len() && d[i].key == k
}

/// An index of `d` whose entry has key `k` (meaningful under `has_key`).
pub open spec fn key_at(d: Seq<EntryV>, k: Seq<char>) -> int {
    choose|i: int| 0 <= i < d.len() && d[i].key == k
}

/// The value stored under key `k` (meaningful under `has_key`).
pub open spec fn value_of(d: Seq<EntryV>, k: Seq<char>) -> ValueV {
    d[key_at(d, k)].value
}

/// The identifier carried by `d`: the `_id` entry, when present and when it
/// holds an identifier value.
pub open spec fn id_of(d: Seq<EntryV>) -> Option<u64> {
    if has_key(d, id_key()) {
        match value_of(d, id_key()) {
            ValueV::Id(n) => Some(n),
            _ => None,
        }
    } else {
        None
    }
}

/// `d` with key `k` bound to `v`: the entry is overwritten in place when the
/// key is present, appended otherwise.
pub open spec fn set_key(d: Seq<EntryV>, k: Seq<char>, v: ValueV) -> Seq<EntryV> {
    if has_key(d, k) {
        d.update(key_at(d, k), EntryV { key: k, value: v })
    } else {
        d.push(EntryV { key: k, value: v })
    }
}

/// `d` without its entry for key `k` (unchanged when the key is absent).
pub open spec fn remove_key(d: Seq<EntryV>, k: Seq<char>) -> Seq<EntryV> {
    if has_key(d, k) {
        d.remove(key_at(d, k))
    } else {
        d
    }
}

/// `d` after binding every entry of `s` in order, as a `$set` modifier does:
/// keys of `s` overwrite or extend `d`, keys of `d` not in `s` survive.
pub open spec fn apply_set(d: Seq<EntryV>, s: Seq<EntryV>) -> Seq<EntryV>
    decreases s.len(),
{
    if s.len() == 0 {
        d
    } else {
        apply_set(set_key(d, s[0].key, s[0].value), s.skip(1))
    }
}

/// `d` satisfies the filter `f`: every entry of `f` is present in `d` with
/// the same value. The empty filter matches every document.
pub open spec fn matches_filter(d: Seq<EntryV>, f: Seq<EntryV>) -> bool {
    forall|i: int| 0 <= i < f.len() ==> has_key(d, #[trigger] f[i].key) && value_of(d, f[i].key) == f[i].value
}

/// Under `wf_doc`, every witness index for a key agrees with `key_at`.
pub proof fn lemma_key_at_unique(d: Seq<EntryV>, k: Seq<char>, i: int)
    requires
        wf_doc(d),
        0 <= i < d.len(),
        d[i].key == k,
    ensures
        key_at(d, k) == i,
        has_key(d, k),
{
    assert(has_key(d, k));
    let w = key_at(d, k);
    assert(0 <= w < d.len() && d[w].key == k);
    if w < i {
        assert(d[w].key != d[i].key);
    } else if i < w {
        assert(d[i].key != d[w].key);
    }
}

/// Compares two values; equality of the mathematical values.
pub fn value_eq(a: &Value, b: &Value) -> (r: bool)
    ensures
        r == (a@ == b@),
{
    match (a, b) {
        (Value::Id(x), Value::Id(y)) => x == y,
        (Value::Int(x), Value::Int(y)) => x == y,
        (Value::Bool(x), Value::Bool(y)) => x == y,
        (Value::Str(x), Value::Str(y)) => *x == *y,
        _ => false,
    }
}

/// Copies a value.
pub fn value_dup(v: &Value) -> (r: Value)
    ensures
        r@ == v@,
{
    match v {
        Value::Id(n) => Value::Id(*n),
        Value::Int(n) => Value::Int(*n),
        Value::Bool(b) => Value::Bool(*b),
        Value::Str(s) => Value::Str(s.clone()),
    }
}

/// A wire document: an ordered list of keyed entries.
pub struct Doc {
    entries: Vec<Entry>,
}

impl View for Doc {
    type V = Seq<EntryV>;

    closed spec fn view(&self) -> Seq<EntryV> {
        self.entries@.map_values(|e: Entry| e@)
    }
}

impl Doc {
    /// Keys inside this document are unique.
    pub open spec fn wf(&self) -> bool {
        wf_doc(self@)
    }

    /// The empty document.
    pub fn new() -> (d: Doc)
        ensures
            d@ =~= Seq::<EntryV>::empty(),
            d.wf(),
    {
        Doc { entries: Vec::new() }
    }

    /// How many entries the document has.
    pub fn len(&self) -> (n: usize)
        ensures
            n == self@.len(),
    {
        self.entries.len()
    }

    /// Whether the document has no entries.
    pub fn is_empty(&self) -> (r: bool)
        ensures
            r == (self@.len() == 0),
    {
        self.entries.len() == 0
    }

    /// The entry at position `i`.
    pub fn entry_at(&self, i: usize) -> (e: &Entry)
        requires
            i < self@.len(),
        ensures
            e@ == self@[i as int],
    {
        &self.entries[i]
    }

    /// The position of the entry keyed `k`, if any.
    fn position_of(&self, k: &str) -> (r: Option<usize>)
        requires
            self.wf(),
        ensures
            match r {
                Some(i) => i < self@.len() && self@[i as int].key == k@ && has_key(self@, k@)
                    && key_at(self@, k@) == i,
                None => !has_key(self@, k@),
            },
    {
        let key: String = k.to_owned();
        let n = self.entries.len();
        let mut i: usize = 0;
        while i < n
            invariant
                self.wf(),
                key@ == k@,
                n == self@.len(),
                i <= n,
                forall|j: int| 0 <= j < i ==> self@[j].key != k@,
            decreases n - i,
        {
            if self.entries[i].key == key {
                proof {
                    lemma_key_at_unique(self@, k@, i as int);
                }
                return Some(i);
            }
            i += 1;
        }
        proof {
            if has_key(self@, k@) {
                let w = key_at(self@, k@);
                assert(0 <= w < self@.len() && self@[w].key == k@);
            }
        }
        None
    }

    /// The value stored under key `k`, if any.
    pub fn get(&self, k: &str) -> (r: Option<&Value>)
        requires
            self.wf(),
        ensures
            match r {
                Some(v) => has_key(self@, k@) && v@ == value_of(self@, k@),
                None => !has_key(self@, k@),
            },
    {
        match self.position_of(k) {
            Some(i) => Some(&self.entries[i].value),
            None => None,
        }
    }

    /// Binds key `k` to `v`, overwriting an existing entry or appending a
    /// new one.
    pub fn set(&mut self, k: &str, v: Value)
        requires
            old(self).wf(),
        ensures
            final(self)@ == set_key(old(self)@, k@, v@),
            final(self).wf(),
            has_key(final(self)@, k@),
            value_of(final(self)@, k@) == v@,
    {
        let pos = self.position_of(k);
        match pos {
            Some(i) => {
                let ghost d0 = self@;
                self.entries.remove(i);
                self.entries.insert(i, Entry { key: k.to_owned(), value: v });
                proof {
                    assert(self@ =~= set_key(d0, k@, v@));
                    lemma_set_key_wf(d0, k@, v@);
                    lemma_key_at_unique(self@, k@, i as int);
                }
            }
            None => {
                let ghost d0 = self@;
                self.entries.push(Entry { key: k.to_owned(), value: v });
                proof {
                    assert(self@ =~= set_key(d0, k@, v@));
                    lemma_set_key_wf(d0, k@, v@);
                    lemma_key_at_unique(self@, k@, d0.len() as int);
                }
            }
        }
    }

    /// Removes the entry keyed `k`, if present.
    pub fn remove(&mut self, k: &str)
        requires
            old(self).wf(),
        ensures
            final(self)@ == remove_key(old(self)@, k@),
            final(self).wf(),
            !has_key(final(self)@, k@),
    {
        let pos = self.position_of(k);
        match pos {
            Some(i) => {
                let ghost d0 = self@;
                self.entries.remove(i);
                proof {
                    assert(self@ =~= remove_key(d0, k@));
                    lemma_remove_key_wf(d0, k@);
                    if has_key(self@, k@) {
                        let w = key_at(self@, k@);
                        if w < i {
                            assert(d0[w].key == d0[i as int].key);
                        } else {
                            assert(d0[w + 1].key == d0[i as int].key);
                        }
                    }
                }
            }
            None => {}
        }
    }

    /// The identifier carried by this document, if any.
    pub fn id(&self) -> (r: Option<u64>)
        requires
            self.wf(),
        ensures
            r == id_of(self@),
    {
        match self.get("_id") {
            Some(v) => match v {
                Value::Id(n) => Some(*n),
                _ => None,
            },
            None => None,
        }
    }

    /// An entry-by-entry copy.
    pub fn duplicate(&self) -> (d: Doc)
        ensures
            d@ == self@,
    {
        let mut out: Vec<Entry> = Vec::new();
        let n = self.entries.len();
        let mut i: usize = 0;
        while i < n
            invariant
                n == self@.len(),
                i <= n,
                out@.len() == i,
                forall|j: int| 0 <= j < i ==> (#[trigger] out@[j])@ == self@[j],
            decreases n - i,
        {
            let e = &self.entries[i];
            out.push(Entry { key: e.key.clone(), value: value_dup(&e.value) });
            i += 1;
        }
        let d = Doc { entries: out };
        proof {
            assert(d@ =~= self@);
        }
        d
    }

    /// Whether this document satisfies the filter `f`.
    pub fn satisfies(&self, f: &Doc) -> (r: bool)
        requires
            self.wf(),
        ensures
            r == matches_filter(self@, f@),
    {
        let n = f.entries.len();
        let mut i: usize = 0;
        while i < n
            invariant
                self.wf(),
                n == f@.len(),
                i <= n,
                forall|j: int| 0 <= j < i ==> has_key(self@, #[trigger] f@[j].key)
                    && value_of(self@, f@[j].key) == f@[j].value,
            decreases n - i,
        {
            let e = &f.entries[i];
            match self.get(e.key.as_str()) {
                Some(v) => {
                    if !value_eq(v, &e.value) {
                        proof {
                            assert(!(has_key(self@, f@[i as int].key)
                                && value_of(self@, f@[i as int].key) == f@[i as int].value));
                        }
                        return false;
                    }
                }
                None => {
                    proof {
                        assert(!(has_key(self@, f@[i as int].key)
                            && value_of(self@, f@[i as int].key) == f@[i as int].value));
                    }
                    return false;
                }
            }
            i += 1;
        }
        true
    }

    /// Binds every entry of `set` in order, as a `$set` modifier does.
    pub fn apply(&mut self, set: &Doc)
        requires
            old(self).wf(),
        ensures
            final(self)@ == apply_set(old(self)@, set@),
            final(self).wf(),
    {
        let ghost d0 = self@;
        let ghost s = set@;
        let n = set.entries.len();
        let mut i: usize = 0;
        proof {
            assert(s.skip(0) =~= s);
        }
        while i < n
            invariant
                self.wf(),
                n == s.len(),
                s == set@,
                i <= n,
                apply_set(d0, s) == apply_set(self@, s.skip(i as int)),
            decreases n - i,
        {
            let e = &set.entries[i];
            let ghost before = self@;
            self.set(e.key.as_str(), value_dup(&e.value));
            proof {
                assert(s.skip(i as int)[0] == s[i as int]);
                assert(s.skip(i as int).skip(1) =~= s.skip(i as int + 1));
                assert(apply_set(before, s.skip(i as int))
                    == apply_set(set_key(before, s[i as int].key, s[i as int].value), s.skip(i as int + 1)));
            }
            i += 1;
        }
        proof {
            assert(s.skip(n as int) =~= Seq::<EntryV>::empty());
        }
    }

    /// The filter `{ _id: i }` that selects the document identified by `i`.
    pub fn id_filter(i: u64) -> (d: Doc)
        ensures
            d@ =~= seq![EntryV { key: id_key(), value: ValueV::Id(i) }],
            d.wf(),
    {
        let mut d = Doc::new();
        d.set("_id", Value::Id(i));
        proof {
            assert(d@ =~= seq![EntryV { key: id_key(), value: ValueV::Id(i) }]);
        }
        d
    }
}

/// Binding a key preserves key uniqueness.
pub proof fn lemma_set_key_wf(d: Seq<EntryV>, k: Seq<char>, v: ValueV)
    requires
        wf_doc(d),
    ensures
        wf_doc(set_key(d, k, v)),
{
    let r = set_key(d, k, v);
    if has_key(d, k) {
        let w = key_at(d, k);
        assert forall|i: int, j: int| 0 <= i < j < r.len() implies r[i].key != r[j].key by {
            assert(d[i].key != d[j].key);
        }
    } else {
        assert forall|i: int, j: int| 0 <= i < j < r.len() implies r[i].key != r[j].key by {
            if j < d.len() {
                assert(d[i].key != d[j].key);
            } else {
                assert(r[j].key == k);
                if d[i].key == k {
                    assert(has_key(d, k));
                }
            }
        }
    }
}

/// Removing a key preserves key uniqueness.
pub proof fn lemma_remove_key_wf(d: Seq<EntryV>, k: Seq<char>)
    requires
        wf_doc(d),
    ensures
        wf_doc(remove_key(d, k)),
{
    if has_key(d, k) {
        let w = key_at(d, k);
        let r = d.remove(w);
        assert forall|i: int, j: int| 0 <= i < j < r.len() implies r[i].key != r[j].key by {
            let i0 = if i < w { i } else { i + 1 };
            let j0 = if j < w { j } else { j + 1 };
            assert(r[i] == d[i0]);
            assert(r[j] == d[j0]);
            assert(d[i0].key != d[j0].key);
        }
    }
}

/// A `$set` application preserves key uniqueness.
pub proof fn lemma_apply_set_wf(d: Seq<EntryV>, s: Seq<EntryV>)
    requires
        wf_doc(d),
    ensures
        wf_doc(apply_set(d, s)),
    decreases s.len(),
{
    if s.len() > 0 {
        lemma_set_key_wf(d, s[0].key, s[0].value);
        lemma_apply_set_wf(set_key(d, s[0].key, s[0].value), s.skip(1));
    }
}

/// What binding one key does to every key of the document.
pub proof fn lemma_set_key_effect(d: Seq<EntryV>, k: Seq<char>, v: ValueV)
    requires
        wf_doc(d),
    ensures
        has_key(set_key(d, k, v), k),
        value_of(set_key(d, k, v), k) == v,
        forall|k2: Seq<char>| k2 != k ==> (has_key(set_key(d, k, v), k2) <==> has_key(d, k2)),
        forall|k2: Seq<char>| k2 != k && has_key(d, k2)
            ==> value_of(set_key(d, k, v), k2) == value_of(d, k2),
{
    let r = set_key(d, k, v);
    lemma_set_key_wf(d, k, v);
    let w = if has_key(d, k) {
        key_at(d, k)
    } else {
        d.len() as int
    };
    if has_key(d, k) {
        assert(0 <= w < d.len() && d[w].key == k);
    }
    assert(r[w].key == k);
    lemma_key_at_unique(r, k, w);
    assert(value_of(r, k) == v);
    assert forall|k2: Seq<char>| k2 != k implies (has_key(r, k2) <==> has_key(d, k2)) by {
        if has_key(r, k2) {
            let j = choose|j: int| 0 <= j < r.len() && r[j].key == k2;
            assert(j != w);
            assert(d[j].key == k2);
        }
        if has_key(d, k2) {
            let j = choose|j: int| 0 <= j < d.len() && d[j].key == k2;
            assert(j != w);
            assert(r[j].key == k2);
        }
    }
    assert forall|k2: Seq<char>| k2 != k && has_key(d, k2) implies
        value_of(r, k2) == value_of(d, k2) by {
        let j = key_at(d, k2);
        assert(0 <= j < d.len() && d[j].key == k2);
        assert(j != w);
        assert(r[j].key == k2);
        lemma_key_at_unique(r, k2, j);
    }
}

/// What removing one key does to every key of the document.
pub proof fn lemma_remove_key_effect(d: Seq<EntryV>, k: Seq<char>)
    requires
        wf_doc(d),
    ensures
        !has_key(remove_key(d, k), k),
        forall|k2: Seq<char>| k2 != k ==> (has_key(remove_key(d, k), k2) <==> has_key(d, k2)),
        forall|k2: Seq<char>| k2 != k && has_key(d, k2)
            ==> value_of(remove_key(d, k), k2) == value_of(d, k2),
{
    lemma_remove_key_wf(d, k);
    if has_key(d, k) {
        let w = key_at(d, k);
        assert(0 <= w < d.len() && d[w].key == k);
        let r = d.remove(w);
        assert forall|j: int| 0 <= j < r.len() implies r[j].key != k by {
            let j0 = if j < w { j } else { j + 1 };
            assert(r[j] == d[j0]);
            if d[j0].key == k {
                lemma_key_at_unique(d, k, j0);
            }
        }
        assert forall|k2: Seq<char>| k2 != k implies (has_key(r, k2) <==> has_key(d, k2)) by {
            if has_key(r, k2) {
                let j = choose|j: int| 0 <= j < r.len() && r[j].key == k2;
                let j0 = if j < w { j } else { j + 1 };
                assert(d[j0].key == k2);
            }
            if has_key(d, k2) {
                let j = choose|j: int| 0 <= j < d.len() && d[j].key == k2;
                assert(j != w);
                if j < w {
                    assert(r[j].key == k2);
                } else {
                    assert(r[j - 1] == d[j]);
                    assert(r[j - 1].key == k2);
                }
            }
        }
        assert forall|k2: Seq<char>| k2 != k && has_key(d, k2) implies
            value_of(r, k2) == value_of(d, k2) by {
            let j = key_at(d, k2);
            assert(0 <= j < d.len() && d[j].key == k2);
            assert(j != w);
            if j < w {
                assert(r[j] == d[j]);
                lemma_key_at_unique(r, k2, j);
            } else {
                assert(r[j - 1] == d[j]);
                lemma_key_at_unique(r, k2, j - 1);
            }
        }
    }
}

/// Dropping the head entry of a well-formed document keeps it well formed.
pub proof fn lemma_skip_one_wf(s: Seq<EntryV>)
    requires
        wf_doc(s),
        s.len() > 0,
    ensures
        wf_doc(s.skip(1)),
        forall|k: Seq<char>| k != s[0].key ==> (has_key(s.skip(1), k) <==> has_key(s, k)),
        forall|k: Seq<char>| k != s[0].key && has_key(s, k)
            ==> value_of(s.skip(1), k) == value_of(s, k),
        !has_key(s.skip(1), s[0].key),
{
    let t = s.skip(1);
    assert(forall|i: int| 0 <= i < t.len() ==> t[i] == s[i + 1]);
    assert forall|k: Seq<char>| k != s[0].key implies (has_key(t, k) <==> has_key(s, k)) by {
        if has_key(t, k) {
            let j = choose|j: int| 0 <= j < t.len() && t[j].key == k;
            assert(s[j + 1].key == k);
        }
        if has_key(s, k) {
            let j = choose|j: int| 0 <= j < s.len() && s[j].key == k;
            assert(j != 0);
            assert(t[j - 1].key == k);
        }
    }
    assert forall|k: Seq<char>| k != s[0].key && has_key(s, k) implies
        value_of(t, k) == value_of(s, k) by {
        let j = key_at(s, k);
        assert(0 <= j < s.len() && s[j].key == k);
        assert(j != 0);
        assert(t[j - 1].key == k);
        lemma_key_at_unique(t, k, j - 1);
    }
    assert forall|j: int| 0 <= j < t.len() implies t[j].key != s[0].key by {
        assert(t[j] == s[j + 1]);
    }
}

/// What a whole `$set` application does to every key: keys of the modifier
/// take its values, all other keys keep the document's.
pub proof fn lemma_apply_set_effect(d: Seq<EntryV>, s: Seq<EntryV>)
    requires
        wf_doc(d),
        wf_doc(s),
    ensures
        forall|k: Seq<char>| has_key(s, k)
            ==> has_key(apply_set(d, s), k) && value_of(apply_set(d, s), k) == value_of(s, k),
        forall|k: Seq<char>| !has_key(s, k)
            ==> (has_key(apply_set(d, s), k) <==> has_key(d, k)),
        forall|k: Seq<char>| !has_key(s, k) && has_key(d, k)
            ==> value_of(apply_set(d, s), k) == value_of(d, k),
    decreases s.len(),
{
    if s.len() == 0 {
        assert forall|k: Seq<char>| has_key(s, k) implies false by {
            let j = choose|j: int| 0 <= j < s.len() && s[j].key == k;
        }
    } else {
        let k0 = s[0].key;
        let v0 = s[0].value;
        let d1 = set_key(d, k0, v0);
        let s1 = s.skip(1);
        let r = apply_set(d, s);
        lemma_set_key_wf(d, k0, v0);
        lemma_set_key_effect(d, k0, v0);
        lemma_skip_one_wf(s);
        lemma_apply_set_effect(d1, s1);
        assert(r == apply_set(d1, s1));
        lemma_key_at_unique(s, k0, 0);
        assert(value_of(s, k0) == v0);
        assert forall|k: Seq<char>| has_key(s, k) implies
            has_key(r, k) && value_of(r, k) == value_of(s, k) by {
            if k == k0 {
                assert(!has_key(s1, k));
                assert(has_key(d1, k) && value_of(d1, k) == v0);
            } else {
                assert(has_key(s1, k));
                assert(value_of(s1, k) == value_of(s, k));
            }
        }
        assert forall|k: Seq<char>| !has_key(s, k) implies
            (has_key(r, k) <==> has_key(d, k)) by {
            assert(k != k0);
            assert(!has_key(s1, k));
        }
        assert forall|k: Seq<char>| !has_key(s, k) && has_key(d, k) implies
            value_of(r, k) == value_of(d, k) by {
            assert(k != k0);
            assert(!has_key(s1, k));
            assert(has_key(d1, k) && value_of(d1, k) == value_of(d, k));
        }
    }
}

/// A document satisfies the identifier filter for `i` exactly when it
/// carries the identifier `i`.
pub proof fn lemma_matches_id_filter(d: Seq<EntryV>, i: u64)
    requires
        wf_doc(d),
    ensures
        matches_filter(d, seq![EntryV { key: id_key(), value: ValueV::Id(i) }])
            <==> id_of(d) == Some(i),
{
    let f = seq![EntryV { key: id_key(), value: ValueV::Id(i) }];
    if matches_filter(d, f) {
        assert(has_key(d, f[0].key) && value_of(d, f[0].key) == f[0].value);
    }
    if id_of(d) == Some(i) {
        assert(has_key(d, id_key()) && value_of(d, id_key()) == ValueV::Id(i));
        assert forall|j: int| 0 <= j < f.len() implies
            has_key(d, #[trigger] f[j].key) && value_of(d, f[j].key) == f[j].value by {
            assert(f[j] == f[0]);
        }
    }
}

} // verus!
