//! Immutable sorted tables, the sequential reader over one table, and the
//! size-tracked builder that accumulates entries for a new table.

use vstd::prelude::*;

use std::sync::Arc;

use crate::keys::clone_bytes;
use crate::keys::key_lt;
use crate::keys::lemma_key_lt_trans;
use crate::model::entries_size;
use crate::model::entries_sorted;
use crate::model::lemma_entries_size_nonneg;
use crate::model::lemma_entries_size_push;
use crate::model::rec_size;
use crate::model::size_sat;
use crate::model::Rec;

verus! {

/// One key/value entry. A zero-length value is a tombstone.
pub struct Entry {
    pub key: Vec<u8>,
    pub value: Vec<u8>,
}

impl View for Entry {
    type V = Rec;

    open spec fn view(&self) -> Rec {
        (self.key@, self.value@)
    }
}

/// An immutable table: entries in strictly ascending key order, stamped
/// with a unique identifier at build time. Tables are shared read-only
/// through reference counting and never mutated after construction.
pub struct SsTable {
    pub id: u64,
    pub entries: Vec<Entry>,
}

impl View for SsTable {
    type V = Seq<Rec>;

    open spec fn view(&self) -> Seq<Rec> {
        self.entries@.map_values(|e: Entry| e@)
    }
}

impl SsTable {
    pub open spec fn wf(&self) -> bool {
        entries_sorted(self@)
    }
}

/// A forward cursor over one shared table.
pub struct SsTableIterator {
    table: Arc<SsTable>,
    idx: usize,
}

impl SsTableIterator {
    /// The entries the cursor has not yet consumed.
    pub closed spec fn remaining(&self) -> Seq<Rec> {
        self.table@.skip(self.idx as int)
    }

    pub closed spec fn wf(&self) -> bool {
        (*self.table).wf() && self.idx <= self.table@.len()
    }

    /// Positions a fresh cursor on the smallest key of the table.
    pub fn create_and_seek_to_first(table: Arc<SsTable>) -> (r: Self)
        requires
            (*table).wf(),
        ensures
            r.wf(),
            r.remaining() == (*table)@,
    {
        let r = SsTableIterator { table, idx: 0 };
        proof {
            assert(r.remaining() =~= r.table@);
        }
        r
    }

    pub fn is_valid(&self) -> (r: bool)
        requires
            self.wf(),
        ensures
            r == (self.remaining().len() > 0),
    {
        self.idx < self.table.entries.len()
    }

    /// The key under the cursor.
    pub fn key(&self) -> (r: Vec<u8>)
        requires
            self.wf(),
            self.remaining().len() > 0,
        ensures
            r@ == self.remaining()[0].0,
    {
        proof {
            assert(self.remaining()[0] == self.table@[self.idx as int]);
        }
        clone_bytes(&self.table.entries[self.idx].key)
    }

    /// The value under the cursor.
    pub fn value(&self) -> (r: Vec<u8>)
        requires
            self.wf(),
            self.remaining().len() > 0,
        ensures
            r@ == self.remaining()[0].1,
    {
        proof {
            assert(self.remaining()[0] == self.table@[self.idx as int]);
        }
        clone_bytes(&self.table.entries[self.idx].value)
    }

    /// Moves to the next key in ascending order; once the table is
    /// exhausted the cursor stays invalid.
    pub fn next(&mut self)
        requires
            old(self).wf(),
            old(self).remaining().len() > 0,
        ensures
            final(self).wf(),
            final(self).remaining() == old(self).remaining().drop_first(),
    {
        let n = self.table.entries.len();
        proof {
            assert(self.table@.len() == n);
            assert(self.idx < n);
        }
        self.idx = self.idx + 1;
        proof {
            assert(self.remaining() =~= old(self).remaining().drop_first());
        }
    }
}

/// Saturating addition: the builder's size estimate never overflows.
fn sat_add(a: usize, b: usize) -> (r: usize)
    ensures
        r as int == if a + b > usize::MAX {
            usize::MAX as int
        } else {
            a + b
        },
{
    if a > usize::MAX - b {
        usize::MAX
    } else {
        a + b
    }
}

/// Accumulates entries in strictly ascending key order and finalizes them
/// into a new immutable table.
pub struct SsTableBuilder {
    block_size: usize,
    entries: Vec<Entry>,
    size: usize,
}

impl View for SsTableBuilder {
    type V = Seq<Rec>;

    closed spec fn view(&self) -> Seq<Rec> {
        self.entries@.map_values(|e: Entry| e@)
    }
}

impl SsTableBuilder {
    pub closed spec fn wf(&self) -> bool {
        entries_sorted(self@) && self.size as int == size_sat(self@)
    }

    /// A fresh, empty builder. The block size bounds the granularity of
    /// the table's internal blocks; it does not affect which entries the
    /// finished table holds.
    pub fn new(block_size: usize) -> (r: Self)
        ensures
            r.wf(),
            r@ == Seq::<Rec>::empty(),
    {
        let r = SsTableBuilder { block_size, entries: Vec::new(), size: 0 };
        proof {
            assert(r@ =~= Seq::<Rec>::empty());
        }
        r
    }

    /// Appends an entry; keys must arrive in strictly ascending order.
    pub fn add(&mut self, key: Vec<u8>, value: Vec<u8>)
        requires
            old(self).wf(),
            old(self)@.len() == 0 || key_lt(old(self)@.last().0, key@),
        ensures
            final(self).wf(),
            final(self)@ == old(self)@.push((key@, value@)),
    {
        let ghost k: Seq<u8> = key@;
        let ghost v: Seq<u8> = value@;
        let ghost olds: Seq<Rec> = self@;
        let es = sat_add(key.len(), value.len());
        self.size = sat_add(self.size, es);
        self.entries.push(Entry { key, value });
        proof {
            assert(self@ =~= olds.push((k, v)));
            lemma_entries_size_push(olds, (k, v));
            lemma_entries_size_nonneg(olds);
            assert forall|i: int, j: int| 0 <= i < j < self@.len() implies key_lt(
                self@[i].0,
                self@[j].0,
            ) by {
                if j == olds.len() {
                    if i < olds.len() - 1 {
                        lemma_key_lt_trans(olds[i].0, olds.last().0, k);
                    }
                }
            }
        }
    }

    /// The approximate number of bytes the finished table would hold:
    /// the sum of all key and value lengths, saturating at `usize::MAX`.
    pub fn estimated_size(&self) -> (r: usize)
        requires
            self.wf(),
        ensures
            r as int == size_sat(self@),
    {
        self.size
    }

    /// Finalizes the accumulated entries into a new immutable table
    /// carrying the given identifier. The builder is consumed.
    pub fn build(self, id: u64) -> (t: SsTable)
        requires
            self.wf(),
        ensures
            t.wf(),
            t@ == self@,
            t.id == id,
    {
        SsTable { id, entries: self.entries }
    }
}

} // verus!
