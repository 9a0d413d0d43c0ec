//! The mathematical model of tables and of the merge: entries as pairs of
//! byte sequences, first-match lookup, tombstone filtering, entry sizes,
//! table concatenation, and the reference k-way merge.

use vstd::prelude::*;

use crate::keys::key_lt;
use crate::keys::key_le;
use crate::keys::lemma_key_lt_irrefl;
use crate::keys::lemma_key_lt_total;
use crate::keys::lemma_key_lt_trans;

verus! {

/// One entry: a key and a value. A zero-length value is a tombstone.
pub type Rec = (Seq<u8>, Seq<u8>);

/// Keys are strictly ascending, so each key occurs at most once.
pub open spec fn entries_sorted(s: Seq<Rec>) -> bool {
    forall|i: int, j: int| 0 <= i < j < s.len() ==> key_lt(s[i].0, s[j].0)
}

/// The value of the first entry carrying key `k`, if any.
pub open spec fn lookup(s: Seq<Rec>, k: Seq<u8>) -> Option<Seq<u8>>
    decreases s.len(),
{
    if s.len() == 0 {
        None
    } else if s[0].0 == k {
        Some(s[0].1)
    } else {
        lookup(s.drop_first(), k)
    }
}

/// Applies the tombstone policy to a lookup result: at the bottom level a
/// tombstone is garbage-collected, elsewhere it is kept.
pub open spec fn live(v: Option<Seq<u8>>, bottom: bool) -> Option<Seq<u8>> {
    match v {
        Some(x) => if bottom && x.len() == 0 {
            None
        } else {
            Some(x)
        },
        None => None,
    }
}

/// The number of bytes an entry contributes to a table's estimated size.
pub open spec fn rec_size(e: Rec) -> int {
    e.0.len() + e.1.len() as int
}

pub open spec fn entries_size(s: Seq<Rec>) -> int
    decreases s.len(),
{
    if s.len() == 0 {
        0
    } else {
        entries_size(s.drop_last()) + rec_size(s.last())
    }
}


/// The builder's saturating size estimate of a run of entries.
pub open spec fn size_sat(s: Seq<Rec>) -> int {
    if entries_size(s) > usize::MAX {
        usize::MAX as int
    } else {
        entries_size(s)
    }
}

/// All tables' entries, laid end to end in recency order (newest first).
pub open spec fn concat_tables(ts: Seq<Seq<Rec>>) -> Seq<Rec>
    decreases ts.len(),
{
    if ts.len() == 0 {
        Seq::empty()
    } else {
        ts[0] + concat_tables(ts.drop_first())
    }
}

pub open spec fn all_sorted(ts: Seq<Seq<Rec>>) -> bool {
    forall|i: int| 0 <= i < ts.len() ==> entries_sorted(#[trigger] ts[i])
}

pub proof fn lemma_entries_size_push(s: Seq<Rec>, e: Rec)
    ensures
        entries_size(s.push(e)) == entries_size(s) + rec_size(e),
{
    assert(s.push(e).drop_last() =~= s);
}

pub proof fn lemma_entries_size_nonneg(s: Seq<Rec>)
    ensures
        entries_size(s) >= 0,
    decreases s.len(),
{
    if s.len() > 0 {
        lemma_entries_size_nonneg(s.drop_last());
    }
}

pub proof fn lemma_entries_size_concat(a: Seq<Rec>, b: Seq<Rec>)
    ensures
        entries_size(a + b) == entries_size(a) + entries_size(b),
    decreases b.len(),
{
    if b.len() == 0 {
        assert(a + b =~= a);
    } else {
        assert((a + b).drop_last() =~= a + b.drop_last());
        assert((a + b).last() == b.last());
        lemma_entries_size_concat(a, b.drop_last());
    }
}

/// A key that no entry carries is not found.
pub proof fn lemma_lookup_absent(s: Seq<Rec>, k: Seq<u8>)
    requires
        forall|i: int| 0 <= i < s.len() ==> (#[trigger] s[i]).0 != k,
    ensures
        lookup(s, k) is None,
    decreases s.len(),
{
    if s.len() > 0 {
        assert(forall|i: int| 0 <= i < s.drop_first().len() ==> (#[trigger] s.drop_first()[i]).0
            != k);
        lemma_lookup_absent(s.drop_first(), k);
    }
}

/// A found key is carried by some entry.
pub proof fn lemma_lookup_present(s: Seq<Rec>, k: Seq<u8>)
    requires
        lookup(s, k) is Some,
    ensures
        exists|i: int| 0 <= i < s.len() && (#[trigger] s[i]).0 == k && s[i].1 == lookup(s, k)->Some_0,
    decreases s.len(),
{
    if s.len() > 0 {
        if s[0].0 == k {
            assert(s[0].0 == k && s[0].1 == lookup(s, k)->Some_0);
        } else {
            lemma_lookup_present(s.drop_first(), k);
            let i = choose|i: int|
                0 <= i < s.drop_first().len() && (#[trigger] s.drop_first()[i]).0 == k
                    && s.drop_first()[i].1 == lookup(s.drop_first(), k)->Some_0;
            assert(s[i + 1].0 == k && s[i + 1].1 == lookup(s, k)->Some_0);
        }
    }
}

/// In a sorted run, lookup finds exactly the entry that carries the key.
pub proof fn lemma_lookup_sorted(s: Seq<Rec>, i: int)
    requires
        entries_sorted(s),
        0 <= i < s.len(),
    ensures
        lookup(s, s[i].0) == Some(s[i].1),
    decreases s.len(),
{
    if i == 0 {
    } else {
        assert(key_lt(s[0].0, s[i].0));
        if s[0].0 == s[i].0 {
            lemma_key_lt_irrefl(s[0].0);
        }
        assert(s.drop_first()[i - 1] == s[i]);
        lemma_lookup_sorted(s.drop_first(), i - 1);
    }
}

/// Lookup scans a concatenation left to right.
pub proof fn lemma_lookup_concat(a: Seq<Rec>, b: Seq<Rec>, k: Seq<u8>)
    ensures
        lookup(a + b, k) == (match lookup(a, k) {
            Some(v) => Some(v),
            None => lookup(b, k),
        }),
    decreases a.len(),
{
    if a.len() == 0 {
        assert(a + b =~= b);
    } else {
        assert((a + b)[0] == a[0]);
        assert((a + b).drop_first() =~= a.drop_first() + b);
        lemma_lookup_concat(a.drop_first(), b, k);
    }
}

/// Appending an entry changes lookup only for keys not found earlier.
pub proof fn lemma_lookup_push(s: Seq<Rec>, e: Rec, k: Seq<u8>)
    ensures
        lookup(s.push(e), k) == (match lookup(s, k) {
            Some(v) => Some(v),
            None => if e.0 == k {
                Some(e.1)
            } else {
                None
            },
        }),
{
    assert(s.push(e) =~= s + seq![e]);
    lemma_lookup_concat(s, seq![e], k);
    assert(seq![e].len() == 1);
    assert(seq![e][0] == e);
    assert(seq![e].drop_first() =~= Seq::<Rec>::empty());
    assert(lookup(seq![e].drop_first(), k) is None);
    assert(lookup(seq![e], k) == (if e.0 == k {
        Some(e.1)
    } else {
        Option::<Seq<u8>>::None
    }));
}

/// Total bytes of all entries before table `i` in the concatenation.
pub open spec fn concat_prefix_len(ts: Seq<Seq<Rec>>, i: int) -> int
    decreases i,
{
    if i <= 0 {
        0
    } else {
        concat_prefix_len(ts, i - 1) + ts[i - 1].len()
    }
}

pub proof fn lemma_concat_tables_len(ts: Seq<Seq<Rec>>)
    ensures
        concat_tables(ts).len() == concat_prefix_len(ts, ts.len() as int),
    decreases ts.len(),
{
    if ts.len() > 0 {
        lemma_concat_tables_len(ts.drop_first());
        lemma_concat_prefix_len_shift(ts, ts.len() as int);
    }
}

proof fn lemma_concat_prefix_len_shift(ts: Seq<Seq<Rec>>, i: int)
    requires
        1 <= i <= ts.len(),
    ensures
        concat_prefix_len(ts, i) == ts[0].len() + concat_prefix_len(ts.drop_first(), i - 1),
    decreases i,
{
    if i == 1 {
        assert(concat_prefix_len(ts, 1) == concat_prefix_len(ts, 0) + ts[0].len());
        assert(concat_prefix_len(ts.drop_first(), 0) == 0);
    } else {
        lemma_concat_prefix_len_shift(ts, i - 1);
        assert(ts.drop_first()[i - 2] == ts[i - 1]);
        assert(concat_prefix_len(ts, i) == concat_prefix_len(ts, i - 1) + ts[i - 1].len());
        assert(concat_prefix_len(ts.drop_first(), i - 1) == concat_prefix_len(
            ts.drop_first(),
            i - 2,
        ) + ts.drop_first()[i - 2].len());
    }
}

/// Each entry of each table appears in the concatenation, at the offset
/// given by `concat_prefix_len`.
pub proof fn lemma_concat_tables_index(ts: Seq<Seq<Rec>>, i: int, p: int)
    requires
        0 <= i < ts.len(),
        0 <= p < ts[i].len(),
    ensures
        0 <= concat_prefix_len(ts, i) + p < concat_tables(ts).len(),
        concat_tables(ts)[concat_prefix_len(ts, i) + p] == ts[i][p],
        concat_prefix_len(ts, i) >= 0,
    decreases i,
{
    lemma_concat_tables_len(ts);
    lemma_concat_prefix_len_mono(ts, i, ts.len() as int);
    lemma_concat_prefix_len_nonneg(ts, i);
    if i == 0 {
        assert(concat_tables(ts)[p] == ts[0][p]);
    } else {
        lemma_concat_tables_index(ts.drop_first(), i - 1, p);
        assert(ts.drop_first()[i - 1] == ts[i]);
        lemma_concat_prefix_len_shift(ts, i);
        assert(concat_tables(ts)[ts[0].len() + (concat_prefix_len(ts.drop_first(), i - 1) + p)]
            == concat_tables(ts.drop_first())[concat_prefix_len(ts.drop_first(), i - 1) + p]);
    }
}

pub proof fn lemma_concat_prefix_len_nonneg(ts: Seq<Seq<Rec>>, i: int)
    ensures
        concat_prefix_len(ts, i) >= 0,
    decreases i,
{
    if i > 0 {
        lemma_concat_prefix_len_nonneg(ts, i - 1);
    }
}

/// The offsets are monotone: a whole earlier table sits before a later one.
pub proof fn lemma_concat_prefix_len_mono(ts: Seq<Seq<Rec>>, i: int, j: int)
    requires
        0 <= i < j <= ts.len(),
    ensures
        concat_prefix_len(ts, i) + ts[i].len() <= concat_prefix_len(ts, j),
    decreases j,
{
    if j > i + 1 {
        lemma_concat_prefix_len_mono(ts, i, j - 1);
    }
}

/// When the concatenation of nonempty tables is sorted, each table is
/// sorted and the key ranges of distinct tables do not overlap.
pub proof fn lemma_sorted_concat_tables(ts: Seq<Seq<Rec>>)
    requires
        entries_sorted(concat_tables(ts)),
        forall|i: int| 0 <= i < ts.len() ==> (#[trigger] ts[i]).len() > 0,
    ensures
        all_sorted(ts),
        forall|i: int, j: int|
            0 <= i < j < ts.len() ==> key_lt((#[trigger] ts[i]).last().0, (#[trigger] ts[j]).first().0),
{
    let cat = concat_tables(ts);
    assert forall|i: int| 0 <= i < ts.len() implies entries_sorted(#[trigger] ts[i]) by {
        assert forall|p: int, q: int| 0 <= p < q < ts[i].len() implies key_lt(
            ts[i][p].0,
            ts[i][q].0,
        ) by {
            lemma_concat_tables_index(ts, i, p);
            lemma_concat_tables_index(ts, i, q);
            assert(cat[concat_prefix_len(ts, i) + p] == ts[i][p]);
            assert(cat[concat_prefix_len(ts, i) + q] == ts[i][q]);
        }
    }
    assert forall|i: int, j: int| 0 <= i < j < ts.len() implies key_lt(
        (#[trigger] ts[i]).last().0,
        (#[trigger] ts[j]).first().0,
    ) by {
        let p = ts[i].len() - 1;
        lemma_concat_tables_index(ts, i, p);
        lemma_concat_tables_index(ts, j, 0);
        lemma_concat_prefix_len_mono(ts, i, j);
        assert(cat[concat_prefix_len(ts, i) + p] == ts[i].last());
        assert(cat[concat_prefix_len(ts, j)] == ts[j].first());
    }
}

/// Total number of entries left over all tables.
pub open spec fn total_len(ts: Seq<Seq<Rec>>) -> nat
    decreases ts.len(),
{
    if ts.len() == 0 {
        0
    } else {
        ts[0].len() + total_len(ts.drop_first())
    }
}

/// The smallest front key over all non-exhausted tables, if any.
pub open spec fn fronts_min(ts: Seq<Seq<Rec>>) -> Option<Seq<u8>>
    decreases ts.len(),
{
    if ts.len() == 0 {
        None
    } else {
        let rest = fronts_min(ts.drop_first());
        if ts[0].len() == 0 {
            rest
        } else {
            match rest {
                None => Some(ts[0][0].0),
                Some(k) => if key_lt(k, ts[0][0].0) {
                    Some(k)
                } else {
                    Some(ts[0][0].0)
                },
            }
        }
    }
}

/// The value shown for key `k`: the newest (lowest-index) table whose front
/// entry carries `k` wins.
pub open spec fn front_value(ts: Seq<Seq<Rec>>, k: Seq<u8>) -> Seq<u8>
    decreases ts.len(),
{
    if ts.len() == 0 {
        Seq::empty()
    } else if ts[0].len() > 0 && ts[0][0].0 == k {
        ts[0][0].1
    } else {
        front_value(ts.drop_first(), k)
    }
}

/// One table after the merge step for key `k`: its front entry is consumed
/// exactly when it carries `k`.
pub open spec fn advance_front(t: Seq<Rec>, k: Seq<u8>) -> Seq<Rec> {
    if t.len() > 0 && t[0].0 == k {
        t.drop_first()
    } else {
        t
    }
}

/// All tables after the merge step for key `k`.
pub open spec fn advance_all(ts: Seq<Seq<Rec>>, k: Seq<u8>) -> Seq<Seq<Rec>> {
    ts.map_values(|t: Seq<Rec>| advance_front(t, k))
}

pub proof fn lemma_fronts_min_none(ts: Seq<Seq<Rec>>)
    ensures
        (fronts_min(ts) is None) <==> (forall|j: int|
            0 <= j < ts.len() ==> (#[trigger] ts[j]).len() == 0),
    decreases ts.len(),
{
    if ts.len() > 0 {
        lemma_fronts_min_none(ts.drop_first());
        if fronts_min(ts) is None {
            assert forall|j: int| 0 <= j < ts.len() implies (#[trigger] ts[j]).len() == 0 by {
                if j > 0 {
                    assert(ts.drop_first()[j - 1] == ts[j]);
                }
            }
        } else {
            if !(forall|j: int| 0 <= j < ts.len() ==> (#[trigger] ts[j]).len() == 0) {
            } else {
                assert(ts[0].len() == 0);
                assert(forall|j: int|
                    0 <= j < ts.drop_first().len() ==> (#[trigger] ts.drop_first()[j]).len()
                        == 0) by {
                    assert(forall|j: int|
                        0 <= j < ts.drop_first().len() ==> ts.drop_first()[j] == ts[j + 1]);
                }
            }
        }
    }
}

/// A present minimum is the front key of some table and is no larger than
/// any front key.
pub proof fn lemma_fronts_min_some(ts: Seq<Seq<Rec>>)
    requires
        fronts_min(ts) is Some,
    ensures
        exists|j: int|
            0 <= j < ts.len() && (#[trigger] ts[j]).len() > 0 && ts[j][0].0 == fronts_min(
                ts,
            )->Some_0,
        forall|j: int|
            0 <= j < ts.len() && (#[trigger] ts[j]).len() > 0 ==> key_le(
                fronts_min(ts)->Some_0,
                ts[j][0].0,
            ),
    decreases ts.len(),
{
    let k = fronts_min(ts)->Some_0;
    let rest = fronts_min(ts.drop_first());
    if rest is Some {
        lemma_fronts_min_some(ts.drop_first());
        let jr = choose|j: int|
            0 <= j < ts.drop_first().len() && (#[trigger] ts.drop_first()[j]).len() > 0
                && ts.drop_first()[j][0].0 == rest->Some_0;
        assert(ts[jr + 1] == ts.drop_first()[jr]);
    }
    // Existence of a witness for k.
    if ts[0].len() > 0 {
        if rest is Some && key_lt(rest->Some_0, ts[0][0].0) {
            let jr = choose|j: int|
                0 <= j < ts.drop_first().len() && (#[trigger] ts.drop_first()[j]).len() > 0
                    && ts.drop_first()[j][0].0 == rest->Some_0;
            assert(ts[jr + 1].len() > 0 && ts[jr + 1][0].0 == k);
        } else {
            assert(ts[0].len() > 0 && ts[0][0].0 == k);
        }
    } else {
        let jr = choose|j: int|
            0 <= j < ts.drop_first().len() && (#[trigger] ts.drop_first()[j]).len() > 0
                && ts.drop_first()[j][0].0 == rest->Some_0;
        assert(ts[jr + 1].len() > 0 && ts[jr + 1][0].0 == k);
    }
    // k is a lower bound on all front keys.
    assert forall|j: int| 0 <= j < ts.len() && (#[trigger] ts[j]).len() > 0 implies key_le(
        k,
        ts[j][0].0,
    ) by {
        if j == 0 {
            if rest is Some && key_lt(rest->Some_0, ts[0][0].0) {
                assert(key_lt(k, ts[0][0].0));
            }
        } else {
            assert(ts.drop_first()[j - 1] == ts[j]);
            if rest is None {
                lemma_fronts_min_none(ts.drop_first());
                assert(false);
            }
            let rk = rest->Some_0;
            assert(key_le(rk, ts[j][0].0));
            if ts[0].len() > 0 && !key_lt(rk, ts[0][0].0) {
                // k is ts[0]'s front key; relate it to rk.
                lemma_key_lt_total(rk, ts[0][0].0);
                if key_lt(ts[0][0].0, rk) {
                    if key_lt(rk, ts[j][0].0) {
                        lemma_key_lt_trans(k, rk, ts[j][0].0);
                    }
                }
            }
        }
    }
}

pub proof fn lemma_advance_all_shift(ts: Seq<Seq<Rec>>, k: Seq<u8>)
    requires
        ts.len() > 0,
    ensures
        advance_all(ts, k).drop_first() =~= advance_all(ts.drop_first(), k),
        advance_all(ts, k)[0] == advance_front(ts[0], k),
        advance_all(ts, k).len() == ts.len(),
{
}

pub proof fn lemma_advance_total_le(ts: Seq<Seq<Rec>>, k: Seq<u8>)
    ensures
        total_len(advance_all(ts, k)) <= total_len(ts),
    decreases ts.len(),
{
    if ts.len() > 0 {
        lemma_advance_all_shift(ts, k);
        lemma_advance_total_le(ts.drop_first(), k);
    }
}

/// The merge step consumes at least one entry.
pub proof fn lemma_advance_total(ts: Seq<Seq<Rec>>, k: Seq<u8>)
    requires
        exists|j: int| 0 <= j < ts.len() && (#[trigger] ts[j]).len() > 0 && ts[j][0].0 == k,
    ensures
        total_len(advance_all(ts, k)) < total_len(ts),
    decreases ts.len(),
{
    lemma_advance_all_shift(ts, k);
    if ts[0].len() > 0 && ts[0][0].0 == k {
        lemma_advance_total_le(ts.drop_first(), k);
    } else {
        let j = choose|j: int|
            0 <= j < ts.len() && (#[trigger] ts[j]).len() > 0 && ts[j][0].0 == k;
        assert(ts.drop_first()[j - 1] == ts[j]);
        lemma_advance_total(ts.drop_first(), k);
    }
}

/// The reference merge: the sorted, deduplicated, newest-wins stream of all
/// tables' entries, consumed in lockstep.
pub open spec fn merged(ts: Seq<Seq<Rec>>) -> Seq<Rec>
    decreases total_len(ts),
{
    match fronts_min(ts) {
        None => Seq::empty(),
        Some(k) => {
            proof {
                lemma_fronts_min_some(ts);
                lemma_advance_total(ts, k);
            }
            seq![(k, front_value(ts, k))] + merged(advance_all(ts, k))
        },
    }
}

/// Unfolds one merge step.
pub proof fn lemma_merged_first(ts: Seq<Seq<Rec>>)
    requires
        fronts_min(ts) is Some,
    ensures
        merged(ts).len() > 0,
        merged(ts)[0] == (fronts_min(ts)->Some_0, front_value(ts, fronts_min(ts)->Some_0)),
        merged(ts).drop_first() =~= merged(advance_all(ts, fronts_min(ts)->Some_0)),
{
    let k = fronts_min(ts)->Some_0;
    assert(merged(ts) == seq![(k, front_value(ts, k))] + merged(advance_all(ts, k)));
}

pub proof fn lemma_merged_empty(ts: Seq<Seq<Rec>>)
    requires
        fronts_min(ts) is None,
    ensures
        merged(ts) =~= Seq::<Rec>::empty(),
{
}

pub proof fn lemma_sorted_drop_first(t: Seq<Rec>)
    requires
        entries_sorted(t),
        t.len() > 0,
    ensures
        entries_sorted(t.drop_first()),
{
    assert forall|i: int, j: int| 0 <= i < j < t.drop_first().len() implies key_lt(
        t.drop_first()[i].0,
        t.drop_first()[j].0,
    ) by {
        assert(t.drop_first()[i] == t[i + 1]);
        assert(t.drop_first()[j] == t[j + 1]);
    }
}

pub proof fn lemma_advance_all_sorted(ts: Seq<Seq<Rec>>, k: Seq<u8>)
    requires
        all_sorted(ts),
    ensures
        all_sorted(advance_all(ts, k)),
{
    assert forall|j: int| 0 <= j < advance_all(ts, k).len() implies entries_sorted(
        #[trigger] advance_all(ts, k)[j],
    ) by {
        assert(advance_all(ts, k)[j] == advance_front(ts[j], k));
        if ts[j].len() > 0 && ts[j][0].0 == k {
            lemma_sorted_drop_first(ts[j]);
        }
    }
}

/// After the step for the minimal key `k`, every front key is above `k`.
pub proof fn lemma_advance_fronts_gt(ts: Seq<Seq<Rec>>, k: Seq<u8>)
    requires
        all_sorted(ts),
        forall|j: int|
            0 <= j < ts.len() && (#[trigger] ts[j]).len() > 0 ==> key_le(k, ts[j][0].0),
    ensures
        forall|j: int|
            0 <= j < advance_all(ts, k).len() && (#[trigger] advance_all(ts, k)[j]).len() > 0
                ==> key_lt(k, advance_all(ts, k)[j][0].0),
{
    assert forall|j: int|
        0 <= j < advance_all(ts, k).len() && (#[trigger] advance_all(ts, k)[j]).len()
            > 0 implies key_lt(k, advance_all(ts, k)[j][0].0) by {
        assert(advance_all(ts, k)[j] == advance_front(ts[j], k));
        if ts[j].len() > 0 && ts[j][0].0 == k {
            assert(ts[j].drop_first()[0] == ts[j][1]);
            assert(key_lt(ts[j][0].0, ts[j][1].0));
        } else {
            assert(key_le(k, ts[j][0].0));
        }
    }
}

/// The merged stream is strictly sorted, and every key in it is at least
/// the current minimal front key.
pub proof fn lemma_merged_sorted(ts: Seq<Seq<Rec>>)
    requires
        all_sorted(ts),
    ensures
        entries_sorted(merged(ts)),
        fronts_min(ts) is Some ==> forall|i: int|
            0 <= i < merged(ts).len() ==> key_le(fronts_min(ts)->Some_0, (#[trigger] merged(
                ts,
            )[i]).0),
    decreases total_len(ts),
{
    if fronts_min(ts) is Some {
        let k = fronts_min(ts)->Some_0;
        lemma_fronts_min_some(ts);
        lemma_advance_total(ts, k);
        let adv = advance_all(ts, k);
        lemma_advance_all_sorted(ts, k);
        lemma_advance_fronts_gt(ts, k);
        lemma_merged_sorted(adv);
        lemma_merged_first(ts);
        let m = merged(ts);
        let rest = merged(adv);
        assert(m == seq![(k, front_value(ts, k))] + rest);
        assert forall|i: int| 0 < i < m.len() implies key_lt(k, (#[trigger] m[i]).0) by {
            assert(m[i] == rest[i - 1]);
            if fronts_min(adv) is None {
                lemma_merged_empty(adv);
                assert(false);
            }
            let kp = fronts_min(adv)->Some_0;
            lemma_fronts_min_some(adv);
            let jw = choose|j: int|
                0 <= j < adv.len() && (#[trigger] adv[j]).len() > 0 && adv[j][0].0 == kp;
            assert(key_lt(k, kp));
            assert(key_le(kp, rest[i - 1].0));
            if kp == rest[i - 1].0 {
            } else {
                lemma_key_lt_trans(k, kp, rest[i - 1].0);
            }
        }
        assert forall|i: int, j: int| 0 <= i < j < m.len() implies key_lt(m[i].0, m[j].0) by {
            if i > 0 {
                assert(m[i] == rest[i - 1]);
                assert(m[j] == rest[j - 1]);
            }
        }
    } else {
        lemma_merged_empty(ts);
    }
}

pub proof fn lemma_concat_tables_all_empty(ts: Seq<Seq<Rec>>)
    requires
        forall|j: int| 0 <= j < ts.len() ==> (#[trigger] ts[j]).len() == 0,
    ensures
        concat_tables(ts) =~= Seq::<Rec>::empty(),
    decreases ts.len(),
{
    if ts.len() > 0 {
        assert(forall|j: int|
            0 <= j < ts.drop_first().len() ==> (#[trigger] ts.drop_first()[j]).len() == 0) by {
            assert(forall|j: int|
                0 <= j < ts.drop_first().len() ==> ts.drop_first()[j] == ts[j + 1]);
        }
        lemma_concat_tables_all_empty(ts.drop_first());
    }
}

/// In a sorted run whose front key is above `k`, the key `k` is absent.
pub proof fn lemma_lookup_below_front(t: Seq<Rec>, k: Seq<u8>)
    requires
        entries_sorted(t),
        t.len() > 0,
        key_lt(k, t[0].0),
    ensures
        lookup(t, k) is None,
{
    assert forall|i: int| 0 <= i < t.len() implies (#[trigger] t[i]).0 != k by {
        if i > 0 {
            lemma_key_lt_trans(k, t[0].0, t[i].0);
        }
        if t[i].0 == k {
            lemma_key_lt_irrefl(k);
        }
    }
    lemma_lookup_absent(t, k);
}

/// When `k` is the minimal front key, the concatenation's first match for
/// `k` is exactly the newest front entry carrying `k`.
pub proof fn lemma_front_value_concat(ts: Seq<Seq<Rec>>, k: Seq<u8>)
    requires
        all_sorted(ts),
        forall|j: int|
            0 <= j < ts.len() && (#[trigger] ts[j]).len() > 0 ==> key_le(k, ts[j][0].0),
        exists|j: int| 0 <= j < ts.len() && (#[trigger] ts[j]).len() > 0 && ts[j][0].0 == k,
    ensures
        lookup(concat_tables(ts), k) == Some(front_value(ts, k)),
    decreases ts.len(),
{
    let df = ts.drop_first();
    assert(forall|j: int| 0 <= j < df.len() ==> df[j] == ts[j + 1]);
    lemma_lookup_concat(ts[0], concat_tables(df), k);
    if ts[0].len() > 0 && ts[0][0].0 == k {
        assert(lookup(ts[0], k) == Some(ts[0][0].1));
    } else {
        // The witness lives strictly past the first table.
        let jw = choose|j: int|
            0 <= j < ts.len() && (#[trigger] ts[j]).len() > 0 && ts[j][0].0 == k;
        assert(jw > 0);
        assert(df[jw - 1].len() > 0 && df[jw - 1][0].0 == k);
        if ts[0].len() > 0 {
            assert(key_le(k, ts[0][0].0));
            assert(key_lt(k, ts[0][0].0));
            lemma_lookup_below_front(ts[0], k);
        }
        lemma_front_value_concat(df, k);
    }
}

/// Consuming entries for key `k` does not change any other key's lookup.
pub proof fn lemma_advance_concat_lookup(ts: Seq<Seq<Rec>>, k: Seq<u8>, q: Seq<u8>)
    requires
        q != k,
    ensures
        lookup(concat_tables(advance_all(ts, k)), q) == lookup(concat_tables(ts), q),
    decreases ts.len(),
{
    if ts.len() > 0 {
        let df = ts.drop_first();
        lemma_advance_all_shift(ts, k);
        let adv = advance_all(ts, k);
        assert(concat_tables(adv) == adv[0] + concat_tables(adv.drop_first()));
        assert(concat_tables(adv.drop_first()) == concat_tables(advance_all(df, k)));
        lemma_lookup_concat(adv[0], concat_tables(advance_all(df, k)), q);
        lemma_lookup_concat(ts[0], concat_tables(df), q);
        lemma_advance_concat_lookup(df, k, q);
        // The first table's lookup for q survives its own advance.
        if ts[0].len() > 0 && ts[0][0].0 == k {
            assert(adv[0] == ts[0].drop_first());
            assert(lookup(ts[0], q) == lookup(ts[0].drop_first(), q));
        } else {
            assert(adv[0] == ts[0]);
        }
    }
}

/// The merge emits at most one entry per input entry.
pub proof fn lemma_merged_len(ts: Seq<Seq<Rec>>)
    ensures
        merged(ts).len() <= total_len(ts),
    decreases total_len(ts),
{
    if fronts_min(ts) is Some {
        let k = fronts_min(ts)->Some_0;
        lemma_fronts_min_some(ts);
        lemma_advance_total(ts, k);
        lemma_merged_len(advance_all(ts, k));
        lemma_merged_first(ts);
    } else {
        lemma_merged_empty(ts);
    }
}

/// Adding one more (oldest) table appends its entries to the
/// concatenation.
pub proof fn lemma_concat_tables_push(ts: Seq<Seq<Rec>>, x: Seq<Rec>)
    ensures
        concat_tables(ts.push(x)) == concat_tables(ts) + x,
    decreases ts.len(),
{
    if ts.len() == 0 {
        assert(ts.push(x)[0] == x);
        assert(ts.push(x).drop_first() =~= Seq::<Seq<Rec>>::empty());
        assert(concat_tables(Seq::<Seq<Rec>>::empty()) == Seq::<Rec>::empty());
        assert(concat_tables(ts.push(x)) == x + Seq::<Rec>::empty());
        assert(x + Seq::<Rec>::empty() =~= x);
        assert(concat_tables(ts) == Seq::<Rec>::empty());
        assert(Seq::<Rec>::empty() + x =~= x);
    } else {
        assert(ts.push(x)[0] == ts[0]);
        assert(ts.push(x).drop_first() =~= ts.drop_first().push(x));
        lemma_concat_tables_push(ts.drop_first(), x);
        assert(concat_tables(ts.push(x)) == ts[0] + (concat_tables(ts.drop_first()) + x));
        assert(ts[0] + (concat_tables(ts.drop_first()) + x) =~= (ts[0] + concat_tables(
            ts.drop_first(),
        )) + x);
    }
}

/// `front_value` picks the front value of the first table whose front
/// entry carries `k`.
pub proof fn lemma_front_value_at(ts: Seq<Seq<Rec>>, k: Seq<u8>, j: int)
    requires
        0 <= j < ts.len(),
        ts[j].len() > 0,
        ts[j][0].0 == k,
        forall|j2: int|
            0 <= j2 < j ==> (#[trigger] ts[j2]).len() == 0 || ts[j2][0].0 != k,
    ensures
        front_value(ts, k) == ts[j][0].1,
    decreases j,
{
    if j == 0 {
    } else {
        let df = ts.drop_first();
        assert(forall|i: int| 0 <= i < df.len() ==> df[i] == ts[i + 1]);
        lemma_front_value_at(df, k, j - 1);
    }
}

/// The merged stream shows, for every key, exactly what a front-to-back
/// scan of all tables in recency order would find.
pub proof fn lemma_merged_lookup(ts: Seq<Seq<Rec>>, q: Seq<u8>)
    requires
        all_sorted(ts),
    ensures
        lookup(merged(ts), q) == lookup(concat_tables(ts), q),
    decreases total_len(ts),
{
    if fronts_min(ts) is None {
        lemma_merged_empty(ts);
        lemma_fronts_min_none(ts);
        lemma_concat_tables_all_empty(ts);
    } else {
        let k = fronts_min(ts)->Some_0;
        lemma_fronts_min_some(ts);
        lemma_advance_total(ts, k);
        lemma_merged_first(ts);
        let m = merged(ts);
        let adv = advance_all(ts, k);
        if q == k {
            assert(lookup(m, q) == Some(front_value(ts, k)));
            lemma_front_value_concat(ts, k);
        } else {
            assert(m[0].0 == k);
            assert(lookup(m, q) == lookup(m.drop_first(), q));
            lemma_advance_all_sorted(ts, k);
            lemma_merged_lookup(adv, q);
            lemma_advance_concat_lookup(ts, k, q);
        }
    }
}

} // verus!
