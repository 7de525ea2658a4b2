//! A small concrete model type.
//!
//! `Record` shows what the capability traits ask of a model and gives the
//! crate a fully verified model implementation: a canonical wire form, a
//! strict decoder inverting it, and timestamp stamping that never touches
//! the identifier.

use vstd::prelude::*;
use crate::doc::{Doc, EntryV, Value, ValueV, has_key, id_key, id_of, lemma_key_at_unique, value_of,
    wf_doc};
use crate::model::{DocModel, ModelTimestamps};

verus! {

/// A plain record: an optional identifier, one payload field, one flag,
/// and the two lifecycle timestamps.
#[derive(Clone, Copy, Debug, PartialEq, Eq, Structural)]
pub struct Record {
    pub id: Option<u64>,
    pub score: i64,
    pub flag: bool,
    pub created: i64,
    pub updated: i64,
}

/// The canonical wire form of a record with the given fields; the
/// identifier entry trails when present, as the store appends it on
/// insert.
pub open spec fn record_doc(id: Option<u64>, score: i64, flag: bool, created: i64, updated: i64) -> Seq<EntryV> {
    let base = seq![
        EntryV { key: "score"@, value: ValueV::Int(score) },
        EntryV { key: "flag"@, value: ValueV::Bool(flag) },
        EntryV { key: "created"@, value: ValueV::Int(created) },
        EntryV { key: "updated"@, value: ValueV::Int(updated) },
    ];
    match id {
        Some(i) => base.push(EntryV { key: id_key(), value: ValueV::Id(i) }),
        None => base,
    }
}

/// The five keys of the canonical form are pairwise distinct.
proof fn lemma_record_keys_distinct()
    ensures
        id_key() != "score"@,
        id_key() != "flag"@,
        id_key() != "created"@,
        id_key() != "updated"@,
        "score"@ != "flag"@,
        "score"@ != "created"@,
        "score"@ != "updated"@,
        "flag"@ != "created"@,
        "flag"@ != "updated"@,
        "created"@ != "updated"@,
{
    reveal_strlit("_id");
    reveal_strlit("score");
    reveal_strlit("flag");
    reveal_strlit("created");
    reveal_strlit("updated");
    assert("_id"@.len() == 3);
    assert("score"@.len() == 5);
    assert("flag"@.len() == 4);
    assert("created"@.len() == 7);
    assert("updated"@.len() == 7);
    assert("created"@ != "updated"@) by {
        assert("created"@[0] == 'c');
        assert("updated"@[0] == 'u');
    }
}

/// The canonical form is well formed and carries exactly the record's
/// identifier.
pub proof fn lemma_record_doc(r: Record)
    ensures
        wf_doc(r.doc_of()),
        id_of(r.doc_of()) == r.id,
{
    lemma_record_keys_distinct();
    let d = r.doc_of();
    match r.id {
        Some(i) => {
            assert(d.len() == 5);
            assert(d[4].key == id_key());
            assert(wf_doc(d));
            lemma_key_at_unique(d, id_key(), 4);
            assert(value_of(d, id_key()) == ValueV::Id(i));
        }
        None => {
            assert(d.len() == 4);
            assert(wf_doc(d));
            assert(!has_key(d, id_key())) by {
                if has_key(d, id_key()) {
                    let j = choose|j: int| 0 <= j < d.len() && d[j].key == id_key();
                    assert(d[j].key == id_key());
                }
            }
        }
    }
}

impl DocModel for Record {
    open spec fn doc_of(&self) -> Seq<EntryV> {
        record_doc(self.id, self.score, self.flag, self.created, self.updated)
    }

    fn to_doc(&self) -> (d: Doc)
        ensures
            d@ == self.doc_of(),
            d.wf(),
    {
        let mut d = Doc::new();
        d.set("score", Value::Int(self.score));
        d.set("flag", Value::Bool(self.flag));
        d.set("created", Value::Int(self.created));
        d.set("updated", Value::Int(self.updated));
        match self.id {
            Some(i) => {
                d.set("_id", Value::Id(i));
            }
            None => {}
        }
        proof {
            lemma_record_keys_distinct();
            assert(d@ =~= self.doc_of());
        }
        d
    }

    fn from_doc(d: &Doc) -> (r: Option<Self>)
        ensures
            r matches Some(m) ==> m.doc_of() == d@,
    {
        let n = d.len();
        if n != 4 && n != 5 {
            return None;
        }
        let with_id = n == 5;
        let id: Option<u64> = if with_id {
            let e = d.entry_at(4);
            if !(e.key == "_id".to_owned()) {
                return None;
            }
            match &e.value {
                Value::Id(i) => Some(*i),
                _ => {
                    return None;
                }
            }
        } else {
            None
        };
        let e_score = d.entry_at(0);
        let score: i64 = if e_score.key == "score".to_owned() {
            match &e_score.value {
                Value::Int(x) => *x,
                _ => {
                    return None;
                }
            }
        } else {
            return None;
        };
        let e_flag = d.entry_at(1);
        let flag: bool = if e_flag.key == "flag".to_owned() {
            match &e_flag.value {
                Value::Bool(x) => *x,
                _ => {
                    return None;
                }
            }
        } else {
            return None;
        };
        let e_created = d.entry_at(2);
        let created: i64 = if e_created.key == "created".to_owned() {
            match &e_created.value {
                Value::Int(x) => *x,
                _ => {
                    return None;
                }
            }
        } else {
            return None;
        };
        let e_updated = d.entry_at(3);
        let updated: i64 = if e_updated.key == "updated".to_owned() {
            match &e_updated.value {
                Value::Int(x) => *x,
                _ => {
                    return None;
                }
            }
        } else {
            return None;
        };
        let m = Record { id, score, flag, created, updated };
        proof {
            assert(m.doc_of() =~= d@);
        }
        Some(m)
    }
}

impl ModelTimestamps for Record {
    fn updated_at(&mut self)
        ensures
            id_of(final(self).doc_of()) == id_of(old(self).doc_of()),
    {
        self.updated = self.updated.wrapping_add(1);
        proof {
            lemma_record_doc(*old(self));
            lemma_record_doc(*self);
        }
    }

    fn created_at(&mut self)
        ensures
            id_of(final(self).doc_of()) == id_of(old(self).doc_of()),
    {
        self.created = self.created.wrapping_add(1);
        proof {
            lemma_record_doc(*old(self));
            lemma_record_doc(*self);
        }
    }
}

impl Default for Record {
    /// The all-zero record without an identifier.
    fn default() -> (r: Self)
        ensures
            r == (Record { id: None, score: 0, flag: false, created: 0, updated: 0 }),
    {
        Record { id: None, score: 0, flag: false, created: 0, updated: 0 }
    }
}

} // verus!
