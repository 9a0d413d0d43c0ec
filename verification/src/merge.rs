//! The k-way merge iterator: presents any number of table readers as one
//! sorted, deduplicated stream in which the newest source wins on key
//! collisions.

use vstd::prelude::*;

use crate::keys::key_eq_exec;
use crate::keys::key_lt_exec;
use crate::keys::lemma_key_lt_irrefl;
use crate::model::advance_all;
use crate::model::advance_front;
use crate::model::fronts_min;
use crate::model::lemma_front_value_at;
use crate::model::lemma_fronts_min_none;
use crate::model::lemma_merged_empty;
use crate::model::lemma_merged_first;
use crate::model::merged;
use crate::model::Rec;
use crate::table::SsTableIterator;

verus! {

/// Mutable access to one reader of the set.
fn iter_at_mut(v: &mut Vec<SsTableIterator>, i: usize) -> (r: &mut SsTableIterator)
    requires
        i < old(v)@.len(),
    ensures
        *r == old(v)@[i as int],
        final(v)@ == old(v)@.update(i as int, *final(r)),
{
    &mut v[i]
}

/// Merges the streams of its readers; reader 0 is the newest source.
pub struct MergeIterator {
    iters: Vec<SsTableIterator>,
}

impl MergeIterator {
    /// What each reader still has to deliver, in recency order.
    pub closed spec fn suffixes(&self) -> Seq<Seq<Rec>> {
        self.iters@.map_values(|it: SsTableIterator| it.remaining())
    }

    /// The sorted, deduplicated stream this iterator still delivers.
    pub open spec fn stream(&self) -> Seq<Rec> {
        merged(self.suffixes())
    }

    pub closed spec fn wf(&self) -> bool {
        forall|j: int| 0 <= j < self.iters@.len() ==> (#[trigger] self.iters@[j]).wf()
    }

    /// Takes ownership of all readers; zero or one reader needs no special
    /// case.
    pub fn create(iters: Vec<SsTableIterator>) -> (r: Self)
        requires
            forall|j: int| 0 <= j < iters@.len() ==> (#[trigger] iters@[j]).wf(),
        ensures
            r.wf(),
            r.stream() == merged(iters@.map_values(|it: SsTableIterator| it.remaining())),
    {
        MergeIterator { iters }
    }

    pub fn is_valid(&self) -> (r: bool)
        requires
            self.wf(),
        ensures
            r == (self.stream().len() > 0),
    {
        let ghost ts = self.suffixes();
        let n = self.iters.len();
        let mut i: usize = 0;
        while i < n
            invariant
                0 <= i <= n,
                n == self.iters@.len(),
                self.wf(),
                ts == self.suffixes(),
                forall|j: int| 0 <= j < i ==> (#[trigger] ts[j]).len() == 0,
            decreases n - i,
        {
            proof {
                assert(ts[i as int] == self.iters@[i as int].remaining());
            }
            if self.iters[i].is_valid() {
                proof {
                    lemma_fronts_min_none(ts);
                    assert(!(forall|j: int| 0 <= j < ts.len() ==> (#[trigger] ts[j]).len() == 0));
                    lemma_merged_first(ts);
                }
                return true;
            }
            i = i + 1;
        }
        proof {
            lemma_fronts_min_none(ts);
            lemma_merged_empty(ts);
        }
        false
    }

    /// The reader holding the smallest current key; on ties, the newest
    /// (lowest-index) such reader.
    fn best_index(&self) -> (j: usize)
        requires
            self.wf(),
            self.stream().len() > 0,
        ensures
            j < self.iters@.len(),
            self.suffixes()[j as int].len() > 0,
            fronts_min(self.suffixes()) == Some(self.suffixes()[j as int][0].0),
            forall|j2: int|
                0 <= j2 < j ==> (#[trigger] self.suffixes()[j2]).len() == 0
                    || self.suffixes()[j2][0].0 != self.suffixes()[j as int][0].0,
    {
        let ghost ts = self.suffixes();
        proof {
            if fronts_min(ts) is None {
                lemma_merged_empty(ts);
            }
        }
        let n = self.iters.len();
        let mut i: usize = n;
        let mut best: usize = n;
        while i > 0
            invariant
                0 <= i <= n,
                best <= n,
                n == self.iters@.len(),
                self.wf(),
                ts == self.suffixes(),
                best == n ==> fronts_min(ts.skip(i as int)) is None,
                best < n ==> i <= best < n && ts[best as int].len() > 0 && fronts_min(
                    ts.skip(i as int),
                ) == Some(ts[best as int][0].0),
                best < n ==> forall|j2: int|
                    i <= j2 < best ==> (#[trigger] ts[j2]).len() == 0 || ts[j2][0].0
                        != ts[best as int][0].0,
            decreases i,
        {
            i = i - 1;
            proof {
                assert(ts.skip(i as int).drop_first() =~= ts.skip(i + 1));
                assert(ts.skip(i as int)[0] == ts[i as int]);
                assert(ts[i as int] == self.iters@[i as int].remaining());
            }
            if self.iters[i].is_valid() {
                if best == n {
                    best = i;
                } else {
                    let ki = self.iters[i].key();
                    let kb = self.iters[best].key();
                    proof {
                        assert(ts[best as int] == self.iters@[best as int].remaining());
                    }
                    if key_lt_exec(&kb, &ki) {
                        // The older best keeps a strictly smaller key.
                        proof {
                            if ts[i as int][0].0 == ts[best as int][0].0 {
                                lemma_key_lt_irrefl(kb@);
                            }
                        }
                    } else {
                        best = i;
                    }
                }
            }
        }
        proof {
            assert(ts.skip(0) =~= ts);
            if best == n {
                lemma_merged_empty(ts);
                assert(false);
            }
        }
        best
    }

    /// The smallest key over all readers.
    pub fn key(&self) -> (r: Vec<u8>)
        requires
            self.wf(),
            self.stream().len() > 0,
        ensures
            r@ == self.stream()[0].0,
    {
        let j = self.best_index();
        proof {
            assert(self.suffixes()[j as int] == self.iters@[j as int].remaining());
            lemma_merged_first(self.suffixes());
        }
        self.iters[j].key()
    }

    /// The value of the newest reader that currently holds the smallest
    /// key.
    pub fn value(&self) -> (r: Vec<u8>)
        requires
            self.wf(),
            self.stream().len() > 0,
        ensures
            r@ == self.stream()[0].1,
    {
        let j = self.best_index();
        proof {
            assert(self.suffixes()[j as int] == self.iters@[j as int].remaining());
            lemma_merged_first(self.suffixes());
            lemma_front_value_at(self.suffixes(), self.suffixes()[j as int][0].0, j as int);
        }
        self.iters[j].value()
    }

    /// Advances past the current key: every reader whose current key
    /// equals it is advanced together, so each distinct key is delivered
    /// exactly once.
    pub fn next(&mut self)
        requires
            old(self).wf(),
            old(self).stream().len() > 0,
        ensures
            final(self).wf(),
            final(self).stream() == old(self).stream().drop_first(),
    {
        let ghost ts = self.suffixes();
        let j = self.best_index();
        let k = self.iters[j].key();
        proof {
            assert(self.suffixes()[j as int] == self.iters@[j as int].remaining());
        }
        let ghost kk = k@;
        let n = self.iters.len();
        proof {
            assert(ts.len() == n);
        }
        let mut i: usize = 0;
        while i < n
            invariant
                0 <= i <= n,
                n == self.iters@.len(),
                ts.len() == n,
                self.wf(),
                k@ == kk,
                forall|j2: int|
                    0 <= j2 < i ==> (#[trigger] self.iters@[j2]).remaining() == advance_front(
                        ts[j2],
                        kk,
                    ),
                forall|j2: int| i <= j2 < n ==> (#[trigger] self.iters@[j2]).remaining() == ts[j2],
            decreases n - i,
        {
            let valid = self.iters[i].is_valid();
            let mut advanced = false;
            if valid {
                let ki = self.iters[i].key();
                if key_eq_exec(&ki, &k) {
                    let ghost pre = self.iters@;
                    let it = iter_at_mut(&mut self.iters, i);
                    it.next();
                    advanced = true;
                    proof {
                        assert forall|j2: int| 0 <= j2 < n && j2 != i implies self.iters@[j2]
                            == pre[j2] by {}
                        assert(self.iters@[i as int].remaining() == ts[i as int].drop_first());
                        assert(self.iters@[i as int].remaining() == advance_front(
                            ts[i as int],
                            kk,
                        ));
                        assert forall|j2: int| 0 <= j2 < n implies (#[trigger] self.iters@[j2]).wf()
                            by {
                            if j2 != i {
                                assert(self.iters@[j2] == pre[j2]);
                                assert(pre[j2].wf());
                            }
                        }
                    }
                }
            }
            proof {
                if !advanced {
                    assert(self.iters@[i as int].remaining() == ts[i as int]);
                    assert(self.iters@[i as int].remaining() == advance_front(ts[i as int], kk));
                }
            }
            i = i + 1;
        }
        proof {
            assert forall|j2: int| 0 <= j2 < n implies #[trigger] self.suffixes()[j2]
                == advance_front(ts[j2], kk) by {
                assert(self.suffixes()[j2] == self.iters@[j2].remaining());
            }
            assert(self.suffixes() =~= advance_all(ts, kk));
            lemma_merged_first(ts);
        }
    }
}

} // verus!
