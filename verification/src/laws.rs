//! Whole-stream laws of the compaction engine, stated over the model.

use vstd::prelude::*;

use crate::keys::key_lt;
use crate::keys::lemma_key_lt_irrefl;
use crate::keys::lemma_key_lt_total;
use crate::keys::lemma_key_lt_trans;
use crate::model::concat_tables;
use crate::model::entries_size;
use crate::model::entries_sorted;
use crate::model::all_sorted;
use crate::model::lemma_entries_size_concat;
use crate::model::lemma_entries_size_nonneg;
use crate::model::lemma_lookup_present;
use crate::model::lemma_lookup_sorted;
use crate::model::lemma_sorted_drop_first;
use crate::model::lemma_merged_lookup;
use crate::model::lemma_merged_sorted;
use crate::model::live;
use crate::model::lookup;
use crate::model::merged;
use crate::model::Rec;

verus! {

/// A sorted entry stream is pinned down by its lookups: two strictly
/// sorted streams that answer every key alike are the same stream. Hence
/// the compaction contract, which fixes sortedness and every lookup,
/// determines the emitted entries uniquely — any implementation meeting it
/// reproduces exactly the reference merge.
pub proof fn lemma_sorted_lookup_unique(a: Seq<Rec>, b: Seq<Rec>)
    requires
        entries_sorted(a),
        entries_sorted(b),
        forall|k: Seq<u8>| #[trigger] lookup(a, k) == lookup(b, k),
    ensures
        a == b,
    decreases a.len(),
{
    if a.len() == 0 {
        if b.len() > 0 {
            lemma_lookup_sorted(b, 0);
            assert(lookup(a, b[0].0) == lookup(b, b[0].0));
        }
        assert(a =~= b);
    } else if b.len() == 0 {
        lemma_lookup_sorted(a, 0);
        assert(lookup(a, a[0].0) == lookup(b, a[0].0));
        assert(false);
    } else {
        // The heads carry the same key.
        lemma_lookup_sorted(a, 0);
        lemma_lookup_sorted(b, 0);
        if a[0].0 != b[0].0 {
            lemma_key_lt_total(a[0].0, b[0].0);
            if key_lt(a[0].0, b[0].0) {
                assert(lookup(b, a[0].0) is Some);
                lemma_lookup_present(b, a[0].0);
                let i = choose|i: int|
                    0 <= i < b.len() && (#[trigger] b[i]).0 == a[0].0 && b[i].1 == lookup(
                        b,
                        a[0].0,
                    )->Some_0;
                assert(i > 0);
                assert(key_lt(b[0].0, b[i].0));
                lemma_key_lt_trans(a[0].0, b[0].0, b[i].0);
                lemma_key_lt_irrefl(a[0].0);
            } else {
                assert(lookup(a, b[0].0) is Some);
                lemma_lookup_present(a, b[0].0);
                let i = choose|i: int|
                    0 <= i < a.len() && (#[trigger] a[i]).0 == b[0].0 && a[i].1 == lookup(
                        a,
                        b[0].0,
                    )->Some_0;
                assert(i > 0);
                assert(key_lt(a[0].0, a[i].0));
                lemma_key_lt_trans(b[0].0, a[0].0, a[i].0);
                lemma_key_lt_irrefl(b[0].0);
            }
        }
        assert(lookup(a, a[0].0) == lookup(b, a[0].0));
        assert(a[0] == b[0]);
        lemma_sorted_drop_first(a);
        lemma_sorted_drop_first(b);
        assert forall|k: Seq<u8>| #[trigger] lookup(a.drop_first(), k) == lookup(
            b.drop_first(),
            k,
        ) by {
            if k == a[0].0 {
                assert forall|i: int| 0 <= i < a.drop_first().len() implies (#[trigger] a
                    .drop_first()[i]).0 != k by {
                    assert(a.drop_first()[i] == a[i + 1]);
                    assert(key_lt(a[0].0, a[i + 1].0));
                    if a[i + 1].0 == k {
                        lemma_key_lt_irrefl(k);
                    }
                }
                crate::model::lemma_lookup_absent(a.drop_first(), k);
                assert forall|i: int| 0 <= i < b.drop_first().len() implies (#[trigger] b
                    .drop_first()[i]).0 != k by {
                    assert(b.drop_first()[i] == b[i + 1]);
                    assert(key_lt(b[0].0, b[i + 1].0));
                    if b[i + 1].0 == k {
                        lemma_key_lt_irrefl(k);
                    }
                }
                crate::model::lemma_lookup_absent(b.drop_first(), k);
            } else {
                assert(lookup(a, k) == lookup(a.drop_first(), k));
                assert(lookup(b, k) == lookup(b.drop_first(), k));
            }
        }
        lemma_sorted_lookup_unique(a.drop_first(), b.drop_first());
        assert forall|i: int| 0 <= i < a.len() implies a[i] == b[i] by {
            if i > 0 {
                assert(a[i] == a.drop_first()[i - 1]);
                assert(b[i] == b.drop_first()[i - 1]);
            }
        }
        assert(a =~= b);
    }
}

/// Round trip with the reference merge: any sorted stream whose lookups
/// pass every input value through — what a compaction above the bottom
/// level guarantees — is exactly the reference k-way merge of the inputs:
/// their entries deduplicated with the newest source winning each key.
pub proof fn lemma_passthrough_compaction_is_reference_merge(ins: Seq<Seq<Rec>>, cat: Seq<Rec>)
    requires
        all_sorted(ins),
        entries_sorted(cat),
        forall|k: Seq<u8>|
            #[trigger] lookup(cat, k) == live(lookup(concat_tables(ins), k), false),
    ensures
        cat == merged(ins),
{
    lemma_merged_sorted(ins);
    assert forall|k: Seq<u8>| #[trigger] lookup(cat, k) == lookup(
        merged(ins),
        k,
    ) by {
        lemma_merged_lookup(ins, k);
    }
    lemma_sorted_lookup_unique(cat, merged(ins));
}

/// Above the bottom level the policy passes every value through, so each
/// tombstone among the newest-shadowing entries survives in the output.
pub proof fn lemma_tombstone_passthrough(v: Option<Seq<u8>>)
    ensures
        live(v, false) == v,
{
}

/// Bottom-level compaction is a fixed point on live entries: a stream
/// that is already sorted and free of tombstones comes out of another
/// bottom-level pass unchanged.
pub proof fn lemma_bottom_level_fixed_point(s: Seq<Rec>, t: Seq<Rec>)
    requires
        entries_sorted(s),
        forall|p: int| 0 <= p < s.len() ==> (#[trigger] s[p]).1.len() > 0,
        entries_sorted(t),
        forall|k: Seq<u8>| #[trigger] lookup(t, k) == live(lookup(s, k), true),
    ensures
        t == s,
{
    assert forall|k: Seq<u8>| #[trigger] lookup(t, k) == lookup(s, k) by {
        if lookup(s, k) is Some {
            lemma_lookup_present(s, k);
            let i = choose|i: int|
                0 <= i < s.len() && (#[trigger] s[i]).0 == k && s[i].1 == lookup(s, k)->Some_0;
            assert(s[i].1.len() > 0);
        }
    }
    lemma_sorted_lookup_unique(t, s);
}

/// The driver never rotates a builder before it reaches the target size:
/// every output table but the last carries at least `b` bytes. Hence a
/// compaction that emits `n` tables carries at least `(n - 1) * b` bytes
/// in all — the output count is bounded by the stream's size divided by
/// the target, plus one.
pub proof fn lemma_no_early_rotation_bounds_count(ts: Seq<Seq<Rec>>, b: int)
    requires
        b > 0,
        forall|i: int| 0 <= i < ts.len() - 1 ==> entries_size(#[trigger] ts[i]) >= b,
    ensures
        (ts.len() - 1) * b <= entries_size(concat_tables(ts)),
    decreases ts.len(),
{
    lemma_entries_size_nonneg(concat_tables(ts));
    if ts.len() == 0 {
        let n = ts.len() as int;
        assert((n - 1) * b == -b) by (nonlinear_arith)
            requires
                n == 0,
        ;
    } else {
        let df = ts.drop_first();
        assert(forall|i: int| 0 <= i < df.len() ==> df[i] == ts[i + 1]);
        lemma_no_early_rotation_bounds_count(df, b);
        assert(concat_tables(ts) == ts[0] + concat_tables(df));
        lemma_entries_size_concat(ts[0], concat_tables(df));
        lemma_entries_size_nonneg(ts[0]);
        if ts.len() >= 2 {
            assert(entries_size(ts[0]) >= b);
            assert((ts.len() - 1) * b == (df.len() - 1) * b + b) by (nonlinear_arith)
                requires
                    ts.len() == df.len() + 1,
                    ts.len() >= 2,
            ;
        } else {
            assert((ts.len() - 1) * b == 0) by (nonlinear_arith)
                requires
                    ts.len() == 1,
            ;
        }
    }
}

} // verus!
