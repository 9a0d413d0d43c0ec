//! The compaction driver: merges a recency-ordered list of immutable
//! tables into a fresh list of size-bounded tables, dropping tombstones
//! when the output lands on the bottom level.

use vstd::prelude::*;

use std::sync::Arc;

use crate::keys::key_lt;
use crate::keys::lemma_key_lt_irrefl;
use crate::merge::MergeIterator;
use crate::model::concat_tables;
use crate::model::entries_size;
use crate::model::entries_sorted;
use crate::model::lemma_concat_tables_push;
use crate::model::lemma_entries_size_nonneg;
use crate::model::lemma_entries_size_push;
use crate::model::lemma_lookup_absent;
use crate::model::lemma_lookup_push;
use crate::model::lemma_lookup_sorted;
use crate::model::lemma_merged_len;
use crate::model::lemma_merged_lookup;
use crate::model::lemma_merged_sorted;
use crate::model::lemma_sorted_concat_tables;
use crate::model::live;
use crate::model::lookup;
use crate::model::merged;
use crate::model::total_len;
use crate::model::Rec;
use crate::table::SsTable;
use crate::table::SsTableBuilder;
use crate::table::SsTableIterator;

verus! {

/// Parameters of one compaction run.
pub struct CompactOptions {
    /// Granularity of the output tables' internal blocks, in bytes.
    pub block_size: usize,
    /// Estimated size at which an output table is closed, in bytes.
    pub target_sst_size: usize,
    /// True when the output lands on the bottom level of the hierarchy,
    /// below which no older entry for any key can exist.
    pub compact_to_bottom_level: bool,
}

/// The entry sequences of a list of shared tables, newest first.
pub open spec fn views_of(ts: Seq<Arc<SsTable>>) -> Seq<Seq<Rec>> {
    ts.map_values(|t: Arc<SsTable>| t@)
}

/// The storage state the compaction engine touches: the shared monotonic
/// table-identifier counter.
pub struct LsmStorage {
    next_sst_id: u64,
}

impl LsmStorage {
    /// The identifier the next built table will receive.
    pub closed spec fn next_id(&self) -> u64 {
        self.next_sst_id
    }

    pub fn new() -> (r: Self)
        ensures
            r.next_id() == 0,
    {
        LsmStorage { next_sst_id: 0 }
    }

    /// Hands out the next table identifier. The counter is the sole shared
    /// mutable resource; it is held only for the increment, never across a
    /// table build.
    pub fn next_sst_id(&mut self) -> (r: u64)
        requires
            old(self).next_id() < u64::MAX,
        ensures
            r == old(self).next_id(),
            final(self).next_id() == old(self).next_id() + 1,
    {
        let id = self.next_sst_id;
        self.next_sst_id = self.next_sst_id + 1;
        id
    }

    /// Merges the input tables (newest first) into fresh tables.
    ///
    /// The concatenation of the outputs is the sorted, deduplicated,
    /// newest-wins merge of the inputs, with tombstones dropped exactly
    /// when `compact_to_bottom_level` is set; no output table is closed
    /// before its estimated size reaches the target, and each is closed
    /// right after the entry that crosses it.
    pub fn compact(&mut self, tables: Vec<Arc<SsTable>>, options: CompactOptions) -> (r: Vec<
        Arc<SsTable>,
    >)
        requires
            forall|i: int| 0 <= i < tables@.len() ==> (*#[trigger] tables@[i]).wf(),
            options.target_sst_size > 0,
            old(self).next_id() + total_len(views_of(tables@)) <= u64::MAX,
        ensures
            entries_sorted(concat_tables(views_of(r@))),
            forall|k: Seq<u8>|
                lookup(concat_tables(views_of(r@)), k) == live(
                    #[trigger] lookup(concat_tables(views_of(tables@)), k),
                    options.compact_to_bottom_level,
                ),
            forall|i: int|
                0 <= i < r@.len() ==> (*#[trigger] r@[i]).wf() && (*r@[i])@.len() > 0,
            forall|i: int| 0 <= i < r@.len() ==> (*#[trigger] r@[i]).id == old(self).next_id() + i,
            final(self).next_id() == old(self).next_id() + r@.len(),
            forall|i: int|
                0 <= i < r@.len() - 1 ==> entries_size((*#[trigger] r@[i])@)
                    >= options.target_sst_size,
            forall|i: int|
                0 <= i < r@.len() ==> entries_size((*#[trigger] r@[i])@.drop_last())
                    < options.target_sst_size,
            options.compact_to_bottom_level ==> forall|i: int, p: int|
                0 <= i < r@.len() && 0 <= p < (*r@[i])@.len() ==> (#[trigger] (*r@[i])@[p]).1.len()
                    > 0,
            tables@.len() == 0 ==> r@.len() == 0,
            forall|i: int, j: int|
                0 <= i < j < r@.len() ==> key_lt(
                    (*#[trigger] r@[i])@.last().0,
                    (*#[trigger] r@[j])@.first().0,
                ),
    {
        let ghost ins = views_of(tables@);
        let ghost bottom = options.compact_to_bottom_level;
        let ghost tgt = options.target_sst_size as int;
        let ghost id0 = self.next_id();
        proof {
            assert forall|i: int| 0 <= i < ins.len() implies entries_sorted(#[trigger] ins[i]) by {
                assert(ins[i] == tables@[i]@);
                assert((*tables@[i]).wf());
            }
            lemma_merged_sorted(ins);
            lemma_merged_len(ins);
        }
        let ghost full = merged(ins);

        // Open a reader on each input table, newest first.
        let mut tv = tables;
        let mut readers: Vec<SsTableIterator> = Vec::new();
        while tv.len() > 0
            invariant
                readers@.len() + tv@.len() == tables@.len(),
                tv@ == tables@.skip(readers@.len() as int),
                forall|i: int| 0 <= i < tables@.len() ==> (*#[trigger] tables@[i]).wf(),
                ins == views_of(tables@),
                forall|j: int|
                    0 <= j < readers@.len() ==> (#[trigger] readers@[j]).wf()
                        && readers@[j].remaining() == ins[j],
            decreases tv@.len(),
        {
            let ghost d = readers@.len() as int;
            let t = tv.remove(0);
            proof {
                assert(t == tables@.skip(d)[0]);
                assert(t == tables@[d]);
                assert(tv@ =~= tables@.skip(d + 1));
                assert(ins[d] == tables@[d]@);
            }
            let it = SsTableIterator::create_and_seek_to_first(t);
            readers.push(it);
        }
        let ghost rviews = readers@.map_values(|it: SsTableIterator| it.remaining());
        proof {
            assert(rviews =~= ins);
        }
        let mut iter = MergeIterator::create(readers);
        proof {
            assert(iter.stream() == full);
        }

        let mut builder_opt: Option<SsTableBuilder> = None;
        let mut new_sst: Vec<Arc<SsTable>> = Vec::new();
        let ghost mut cnt: int = 0;
        let ghost mut emitted: Seq<Rec> = Seq::empty();
        proof {
            assert(full.take(0) =~= Seq::<Rec>::empty());
            assert(views_of(new_sst@) =~= Seq::<Seq<Rec>>::empty());
            assert(concat_tables(views_of(new_sst@)) + emitted =~= emitted);
            assert(concat_tables(views_of(new_sst@)).len() == 0);
        }

        while iter.is_valid()
            invariant
                iter.wf(),
                options.target_sst_size > 0,
                tgt == options.target_sst_size as int,
                bottom == options.compact_to_bottom_level,
                entries_sorted(full),
                full.len() <= total_len(ins),
                id0 + total_len(ins) <= u64::MAX,
                0 <= cnt <= full.len(),
                iter.stream() == full.skip(cnt),
                emitted.len() <= cnt,
                entries_sorted(emitted),
                forall|j: int, m: int|
                    #![trigger emitted[j], full[m]]
                    0 <= j < emitted.len() && cnt <= m < full.len() ==> key_lt(
                        emitted[j].0,
                        full[m].0,
                    ),
                forall|k: Seq<u8>|
                    #[trigger] lookup(emitted, k) == live(lookup(full.take(cnt), k), bottom),
                emitted == concat_tables(views_of(new_sst@)) + (match builder_opt {
                    Some(b) => b@,
                    None => Seq::empty(),
                }),
                concat_tables(views_of(new_sst@)).len() >= new_sst@.len(),
                match builder_opt {
                    Some(b) => b.wf() && b@.len() > 0 && entries_size(b@) < tgt,
                    None => true,
                },
                self.next_id() == id0 + new_sst@.len(),
                forall|i: int|
                    0 <= i < new_sst@.len() ==> (*#[trigger] new_sst@[i]).wf() && (*new_sst@[i])@.len()
                        > 0 && (*new_sst@[i]).id == id0 + i && entries_size((*new_sst@[i])@) >= tgt
                        && entries_size((*new_sst@[i])@.drop_last()) < tgt,
            decreases full.len() - cnt,
        {
            let key = iter.key();
            let value = iter.value();
            let ghost e = full[cnt];
            proof {
                assert(full.skip(cnt)[0] == full[cnt]);
                assert(key@ == e.0 && value@ == e.1);
            }
            let emit = if options.compact_to_bottom_level {
                value.len() > 0
            } else {
                true
            };
            let ghost bpre = match &builder_opt {
                Some(b) => b@,
                None => Seq::<Rec>::empty(),
            };
            if emit {
                let mut b = match builder_opt {
                    Some(bb) => bb,
                    None => SsTableBuilder::new(options.block_size),
                };
                proof {
                    assert(b@ == bpre);
                    if bpre.len() > 0 {
                        // The builder's last key is the last emitted key,
                        // which lies below every remaining key.
                        assert(emitted.last() == bpre.last());
                        assert(key_lt(emitted[emitted.len() - 1].0, full[cnt].0));
                    }
                }
                b.add(key, value);
                builder_opt = Some(b);
            }
            proof {
                // How the emitted stream and its lookup change.
                let taken = full.take(cnt);
                assert(full.take(cnt + 1) =~= taken.push(e));
                assert forall|i: int| 0 <= i < taken.len() implies (#[trigger] taken[i]).0
                    != e.0 by {
                    assert(taken[i] == full[i]);
                    assert(key_lt(full[i].0, full[cnt].0));
                    if full[i].0 == e.0 {
                        lemma_key_lt_irrefl(e.0);
                    }
                }
                lemma_lookup_absent(taken, e.0);
                let olde = emitted;
                if emit {
                    emitted = emitted.push(e);
                    assert(lookup(olde, e.0) is None) by {
                        assert(lookup(olde, e.0) == live(lookup(taken, e.0), bottom));
                    }
                    assert forall|j: int, m: int|
                        #![trigger emitted[j], full[m]]
                        0 <= j < emitted.len() && cnt + 1 <= m < full.len() implies key_lt(
                        emitted[j].0,
                        full[m].0,
                    ) by {
                        if j < olde.len() {
                            assert(emitted[j] == olde[j]);
                            assert(key_lt(olde[j].0, full[m].0));
                        } else {
                            assert(emitted[j] == e);
                            assert(key_lt(full[cnt].0, full[m].0));
                        }
                    }
                    assert forall|i: int, j: int| 0 <= i < j < emitted.len() implies key_lt(
                        emitted[i].0,
                        emitted[j].0,
                    ) by {
                        if j < olde.len() {
                        } else {
                            if i < olde.len() {
                                assert(emitted[i] == olde[i]);
                                assert(key_lt(olde[i].0, full[cnt].0));
                            }
                        }
                    }
                } else {
                    assert forall|j: int, m: int|
                        #![trigger emitted[j], full[m]]
                        0 <= j < emitted.len() && cnt + 1 <= m < full.len() implies key_lt(
                        emitted[j].0,
                        full[m].0,
                    ) by {
                        assert(key_lt(emitted[j].0, full[m].0));
                    }
                }
                assert forall|k: Seq<u8>| #[trigger] lookup(emitted, k) == live(
                    lookup(full.take(cnt + 1), k),
                    bottom,
                ) by {
                    lemma_lookup_push(taken, e, k);
                    assert(lookup(olde, k) == live(lookup(taken, k), bottom));
                    if emit {
                        lemma_lookup_push(olde, e, k);
                    }
                }
                // The builder picked up exactly the emitted entry.
                if emit {
                    assert(emitted == concat_tables(views_of(new_sst@)) + bpre.push(e));
                    assert(emitted =~= (concat_tables(views_of(new_sst@)) + bpre).push(e));
                }
            }
            iter.next();
            proof {
                cnt = cnt + 1;
                assert(full.skip(cnt - 1).drop_first() =~= full.skip(cnt));
            }

            // Close the open table once it has reached the target size.
            let mut close_now = false;
            match &builder_opt {
                Some(bb) => {
                    if bb.estimated_size() >= options.target_sst_size {
                        close_now = true;
                    }
                    proof {
                        lemma_entries_size_nonneg(bb@);
                        assert(close_now == (entries_size(bb@) >= tgt));
                    }
                },
                None => {},
            }
            if close_now {
                proof {
                    // One identifier per emitted table stays within bounds.
                    assert(concat_tables(views_of(new_sst@)).len() >= new_sst@.len());
                    assert(emitted.len() >= new_sst@.len() + 1);
                }
                let sst_id = self.next_sst_id();
                let bb = match builder_opt {
                    Some(x) => x,
                    None => SsTableBuilder::new(options.block_size),
                };
                builder_opt = None;
                let ghost bv = bb@;
                proof {
                    assert(bv == bpre.push(full[cnt - 1]));
                    assert(bv.drop_last() =~= bpre);
                    assert(entries_size(bpre) < tgt);
                }
                let t = bb.build(sst_id);
                let ghost pre_sst = new_sst@;
                new_sst.push(Arc::new(t));
                proof {
                    assert(views_of(new_sst@) =~= views_of(pre_sst).push(bv));
                    lemma_concat_tables_push(views_of(pre_sst), bv);
                    assert(concat_tables(views_of(new_sst@)) == concat_tables(views_of(pre_sst))
                        + bv);
                    assert(emitted =~= concat_tables(views_of(new_sst@)) + Seq::<Rec>::empty());
                    assert forall|i: int| 0 <= i < new_sst@.len() implies (*#[trigger] new_sst@[i]).wf()
                        && (*new_sst@[i])@.len() > 0 && (*new_sst@[i]).id == id0 + i
                        && entries_size((*new_sst@[i])@) >= tgt && entries_size(
                        (*new_sst@[i])@.drop_last(),
                    ) < tgt by {
                        if i < pre_sst.len() {
                            assert(new_sst@[i] == pre_sst[i]);
                        }
                    }
                }
            }
        }
        proof {
            assert(full.skip(cnt).len() == 0);
            assert(cnt == full.len());
            assert(full.take(cnt) =~= full);
        }

        // A trailing partial table keeps the tail of the stream; it may be
        // smaller than the target size.
        match builder_opt {
            Some(bb) => {
                proof {
                    assert(concat_tables(views_of(new_sst@)).len() >= new_sst@.len());
                    assert(emitted.len() >= new_sst@.len() + 1);
                }
                let sst_id = self.next_sst_id();
                let ghost bv = bb@;
                proof {
                    lemma_entries_size_nonneg(bv.drop_last());
                    assert(bv.drop_last().push(bv.last()) =~= bv);
                    lemma_entries_size_push(bv.drop_last(), bv.last());
                    assert(entries_size(bv.drop_last()) <= entries_size(bv));
                }
                let t = bb.build(sst_id);
                let ghost pre_sst = new_sst@;
                new_sst.push(Arc::new(t));
                proof {
                    assert(views_of(new_sst@) =~= views_of(pre_sst).push(bv));
                    lemma_concat_tables_push(views_of(pre_sst), bv);
                    assert(emitted == concat_tables(views_of(new_sst@)));
                    assert forall|i: int| 0 <= i < new_sst@.len() implies (*#[trigger] new_sst@[i]).wf()
                        && (*new_sst@[i])@.len() > 0 && (*new_sst@[i]).id == id0 + i
                        && entries_size((*new_sst@[i])@.drop_last()) < tgt by {
                        if i < pre_sst.len() {
                            assert(new_sst@[i] == pre_sst[i]);
                        }
                    }
                    assert forall|i: int| 0 <= i < new_sst@.len() - 1 implies entries_size(
                        (*#[trigger] new_sst@[i])@,
                    ) >= tgt by {
                        assert(new_sst@[i] == pre_sst[i]);
                    }
                }
            },
            None => {
                proof {
                    assert(emitted =~= concat_tables(views_of(new_sst@)));
                }
            },
        }

        proof {
            let outv = views_of(new_sst@);
            let cat = concat_tables(outv);
            assert(cat == emitted);
            // The whole-stream account of what was emitted.
            assert forall|k: Seq<u8>| lookup(cat, k) == live(
                #[trigger] lookup(concat_tables(ins), k),
                bottom,
            ) by {
                assert(lookup(emitted, k) == live(lookup(full.take(cnt), k), bottom));
                lemma_merged_lookup(ins, k);
            }
            // No tombstone survives a bottom-level compaction.
            if bottom {
                assert forall|i: int, p: int|
                    0 <= i < new_sst@.len() && 0 <= p < (*new_sst@[i])@.len() implies (#[trigger] (
                *new_sst@[i])@[p]).1.len() > 0 by {
                    crate::model::lemma_concat_tables_index(outv, i, p);
                    let g = crate::model::concat_prefix_len(outv, i) + p;
                    assert(cat[g] == outv[i][p]);
                    assert(outv[i] == (*new_sst@[i])@);
                    lemma_lookup_sorted(cat, g);
                    assert(lookup(cat, cat[g].0) == Some(cat[g].1));
                    assert(lookup(emitted, cat[g].0) == live(lookup(full.take(cnt), cat[g].0), bottom));
                }
            }
            // Outputs are pairwise ordered and individually sorted.
            assert forall|i: int| 0 <= i < outv.len() implies (#[trigger] outv[i]).len() > 0 by {
                assert(outv[i] == (*new_sst@[i])@);
            }
            lemma_sorted_concat_tables(outv);
            assert forall|i: int, j: int| 0 <= i < j < new_sst@.len() implies key_lt(
                (*#[trigger] new_sst@[i])@.last().0,
                (*#[trigger] new_sst@[j])@.first().0,
            ) by {
                assert(outv[i] == (*new_sst@[i])@);
                assert(outv[j] == (*new_sst@[j])@);
            }
            // An empty input list yields an empty output list.
            if tables@.len() == 0 {
                assert(ins.len() == 0);
                crate::model::lemma_fronts_min_none(ins);
                crate::model::lemma_merged_empty(ins);
                assert(emitted.len() == 0);
                assert(new_sst@.len() == 0);
            }
        }
        new_sst
    }
}

} // verus!
