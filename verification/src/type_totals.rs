//! The per-type counts of a sample add up to its overall counts.

use vstd::prelude::*;

use crate::checker::{
    count_where, flag_counts, flag_type_view, flags_sized, lemma_count_where_ext,
    lemma_count_where_le, lemma_matching_flags, lemma_spec_flags, of_type, per_type_view,
    sample_types, spec_counts, spec_flags, MatchFlags,
};
use crate::model::{ExpectedEntity, PredictedSpan, SampleCounts};

verus! {

/// Field `k` of `c`, in the order tp, fp, fn strict, then tp, fp, fn
/// relaxed.
pub open spec fn count_field(c: SampleCounts, k: int) -> usize {
    if k == 0 {
        c.tp_strict
    } else if k == 1 {
        c.fp_strict
    } else if k == 2 {
        c.fn_strict
    } else if k == 3 {
        c.tp_relaxed
    } else if k == 4 {
        c.fp_relaxed
    } else {
        c.fn_relaxed
    }
}

/// The sum of field `k` over the keys `ts` of `m`.
pub open spec fn field_total(m: Map<Seq<char>, SampleCounts>, ts: Seq<Seq<char>>, k: int) -> nat
    decreases ts.len(),
{
    if ts.len() == 0 {
        0
    } else {
        field_total(m, ts.drop_last(), k) + count_field(m[ts.last()], k) as nat
    }
}

/// Keys that list the types of a sample, each once.
pub open spec fn lists_types_once(ts: Seq<Seq<char>>, preds: Seq<PredictedSpan>, exps: Seq<ExpectedEntity>) -> bool {
    ts.no_duplicates() && ts.to_set() == sample_types(preds, exps)
}

/// Each of the six counts of a sample is the sum of that count over the
/// entity types that occur in the sample.
pub proof fn law_type_counts_sum_to_global(
    preds: Seq<PredictedSpan>,
    exps: Seq<ExpectedEntity>,
    ts: Seq<Seq<char>>,
    k: int,
)
    requires
        preds.len() <= usize::MAX,
        exps.len() <= usize::MAX,
        lists_types_once(ts, preds, exps),
        0 <= k < 6,
    ensures
        field_total(per_type_view(preds, exps), ts, k) == count_field(spec_counts(preds, exps, None), k),
{
    let f = spec_flags(preds, exps);
    lemma_spec_flags(preds, exps);
    lemma_matching_flags(f, preds, exps, None);
    law_flag_type_counts_sum_to_global(f, preds, exps, ts, k);
}

/// Whatever the flags of a matching, each of the six counts read off them
/// is the sum of that count over the entity types that occur in the sample.
pub proof fn law_flag_type_counts_sum_to_global(
    f: MatchFlags,
    preds: Seq<PredictedSpan>,
    exps: Seq<ExpectedEntity>,
    ts: Seq<Seq<char>>,
    k: int,
)
    requires
        preds.len() <= usize::MAX,
        exps.len() <= usize::MAX,
        flags_sized(f, preds.len(), exps.len()),
        lists_types_once(ts, preds, exps),
        0 <= k < 6,
    ensures
        field_total(flag_type_view(f, preds, exps), ts, k) == count_field(
            flag_counts(f, preds, exps, None),
            k,
        ),
{
    let flags = flags_of(f, preds, exps, k);
    let types = types_of(preds, exps, k);
    let n = flags.len();
    lemma_flags_and_types(f, preds, exps, k);
    assert forall|i: int| 0 <= i < n && #[trigger] flags[i] implies ts.contains(types[i]) by {
        if k == 1 || k == 4 {
            assert(sample_types(preds, exps).contains(preds[i].entity_type@)) by {
                assert(preds[i].entity_type@ == preds[i].entity_type@);
            }
        } else {
            assert(sample_types(preds, exps).contains(exps[i].entity_type@)) by {
                assert(exps[i].entity_type@ == exps[i].entity_type@);
            }
        }
        assert(ts.to_set().contains(types[i]));
    }
    lemma_sum_hits(flags, types, ts, n as int);
    lemma_field_total(f, preds, exps, ts, k);
    lemma_field_is_hits(f, preds, exps, None, k);
}

// ── Flags and types per count ────────────────────────────────────────────────

/// Which entities count towards field `k`: expected entities for the true
/// positives and false negatives, predictions for the false positives.
pub open spec fn flags_of(f: MatchFlags, preds: Seq<PredictedSpan>, exps: Seq<ExpectedEntity>, k: int) -> Seq<
    bool,
> {
    if k == 0 {
        Seq::new(exps.len(), |i: int| f.strict_exp[i])
    } else if k == 1 {
        Seq::new(preds.len(), |i: int| !f.strict_pred[i])
    } else if k == 2 {
        Seq::new(exps.len(), |i: int| !f.strict_exp[i])
    } else if k == 3 {
        Seq::new(exps.len(), |i: int| f.relaxed_exp[i])
    } else if k == 4 {
        Seq::new(preds.len(), |i: int| !f.relaxed_pred[i])
    } else {
        Seq::new(exps.len(), |i: int| !f.relaxed_exp[i])
    }
}

/// The types of the entities that field `k` counts.
pub open spec fn types_of(preds: Seq<PredictedSpan>, exps: Seq<ExpectedEntity>, k: int) -> Seq<Seq<char>> {
    if k == 1 || k == 4 {
        Seq::new(preds.len(), |i: int| preds[i].entity_type@)
    } else {
        Seq::new(exps.len(), |i: int| exps[i].entity_type@)
    }
}

proof fn lemma_flags_and_types(f: MatchFlags, preds: Seq<PredictedSpan>, exps: Seq<ExpectedEntity>, k: int)
    ensures
        flags_of(f, preds, exps, k).len() == types_of(preds, exps, k).len(),
        (k == 1 || k == 4) ==> flags_of(f, preds, exps, k).len() == preds.len(),
        !(k == 1 || k == 4) ==> flags_of(f, preds, exps, k).len() == exps.len(),
{
}

/// The number of the first `n` entities that are flagged and pass `filter`.
pub open spec fn hits(flags: Seq<bool>, types: Seq<Seq<char>>, filter: Option<Seq<char>>, n: int) -> nat
    decreases n,
{
    if n <= 0 {
        0
    } else {
        hits(flags, types, filter, n - 1) + if flags[n - 1] && of_type(filter, types[n - 1]) {
            1nat
        } else {
            0nat
        }
    }
}

proof fn lemma_hits_count(flags: Seq<bool>, types: Seq<Seq<char>>, filter: Option<Seq<char>>, n: nat)
    ensures
        hits(flags, types, filter, n as int) == count_where(
            n,
            |i: int| flags[i] && of_type(filter, types[i]),
        ),
    decreases n,
{
    if n > 0 {
        lemma_hits_count(flags, types, filter, (n - 1) as nat);
    }
}

/// Field `k` of the counts for `filter` is the number of flagged entities
/// of that type.
proof fn lemma_field_is_hits(
    f: MatchFlags,
    preds: Seq<PredictedSpan>,
    exps: Seq<ExpectedEntity>,
    filter: Option<Seq<char>>,
    k: int,
)
    requires
        preds.len() <= usize::MAX,
        exps.len() <= usize::MAX,
        0 <= k < 6,
    ensures
        count_field(flag_counts(f, preds, exps, filter), k) == hits(
            flags_of(f, preds, exps, k),
            types_of(preds, exps, k),
            filter,
            flags_of(f, preds, exps, k).len() as int,
        ),
{
    let flags = flags_of(f, preds, exps, k);
    let types = types_of(preds, exps, k);
    let n = flags.len();
    lemma_hits_count(flags, types, filter, n);
    lemma_count_where_le(n, |i: int| flags[i] && of_type(filter, types[i]));
    if k == 0 {
        lemma_count_where_ext(
            n,
            |i: int| f.strict_exp[i] && of_type(filter, exps[i].entity_type@),
            |i: int| flags[i] && of_type(filter, types[i]),
        );
    } else if k == 1 {
        lemma_count_where_ext(
            n,
            |i: int| !f.strict_pred[i] && of_type(filter, preds[i].entity_type@),
            |i: int| flags[i] && of_type(filter, types[i]),
        );
    } else if k == 2 {
        lemma_count_where_ext(
            n,
            |i: int| !f.strict_exp[i] && of_type(filter, exps[i].entity_type@),
            |i: int| flags[i] && of_type(filter, types[i]),
        );
    } else if k == 3 {
        lemma_count_where_ext(
            n,
            |i: int| f.relaxed_exp[i] && of_type(filter, exps[i].entity_type@),
            |i: int| flags[i] && of_type(filter, types[i]),
        );
    } else if k == 4 {
        lemma_count_where_ext(
            n,
            |i: int| !f.relaxed_pred[i] && of_type(filter, preds[i].entity_type@),
            |i: int| flags[i] && of_type(filter, types[i]),
        );
    } else {
        lemma_count_where_ext(
            n,
            |i: int| !f.relaxed_exp[i] && of_type(filter, exps[i].entity_type@),
            |i: int| flags[i] && of_type(filter, types[i]),
        );
    }
}

// ── Summing over types ───────────────────────────────────────────────────────

/// The sum over the keys `ts` of the flagged entities of each type.
pub open spec fn sum_hits(flags: Seq<bool>, types: Seq<Seq<char>>, ts: Seq<Seq<char>>, n: int) -> nat
    decreases ts.len(),
{
    if ts.len() == 0 {
        0
    } else {
        sum_hits(flags, types, ts.drop_last(), n) + hits(flags, types, Some(ts.last()), n)
    }
}

proof fn lemma_init_no_duplicates(ts: Seq<Seq<char>>)
    requires
        ts.len() > 0,
        ts.no_duplicates(),
    ensures
        ts.drop_last().no_duplicates(),
        !ts.drop_last().contains(ts.last()),
{
    let init = ts.drop_last();
    assert forall|a: int, b: int| 0 <= a < init.len() && 0 <= b < init.len() && a != b implies init[a]
        != init[b] by {
        assert(init[a] == ts[a] && init[b] == ts[b]);
    }
    if init.contains(ts.last()) {
        let j = choose|j: int| 0 <= j < init.len() && init[j] == ts.last();
        assert(ts[j] == ts[ts.len() - 1]);
    }
}

/// One more entity adds one to the sum exactly when it is flagged and its
/// type is among the keys.
proof fn lemma_sum_hits_step(flags: Seq<bool>, types: Seq<Seq<char>>, ts: Seq<Seq<char>>, n: int)
    requires
        0 <= n,
        ts.no_duplicates(),
    ensures
        sum_hits(flags, types, ts, n + 1) == sum_hits(flags, types, ts, n) + if flags[n] && ts.contains(
            types[n],
        ) {
            1nat
        } else {
            0nat
        },
    decreases ts.len(),
{
    if ts.len() > 0 {
        let init = ts.drop_last();
        lemma_init_no_duplicates(ts);
        lemma_sum_hits_step(flags, types, init, n);
        if ts.contains(types[n]) && !init.contains(types[n]) {
            let j = choose|j: int| 0 <= j < ts.len() && ts[j] == types[n];
            if j < ts.len() - 1 {
                assert(init[j] == types[n]);
            }
        }
        if init.contains(types[n]) {
            let j = choose|j: int| 0 <= j < init.len() && init[j] == types[n];
            assert(ts[j] == types[n]);
        }
    }
}

pub proof fn lemma_sum_hits(flags: Seq<bool>, types: Seq<Seq<char>>, ts: Seq<Seq<char>>, n: int)
    requires
        0 <= n,
        ts.no_duplicates(),
        forall|i: int| 0 <= i < n && #[trigger] flags[i] ==> ts.contains(types[i]),
    ensures
        sum_hits(flags, types, ts, n) == hits(flags, types, None, n),
    decreases n,
{
    if n == 0 {
        lemma_sum_hits_zero(flags, types, ts);
    } else {
        lemma_sum_hits(flags, types, ts, n - 1);
        lemma_sum_hits_step(flags, types, ts, n - 1);
    }
}

proof fn lemma_sum_hits_zero(flags: Seq<bool>, types: Seq<Seq<char>>, ts: Seq<Seq<char>>)
    ensures
        sum_hits(flags, types, ts, 0) == 0,
    decreases ts.len(),
{
    if ts.len() > 0 {
        lemma_sum_hits_zero(flags, types, ts.drop_last());
    }
}

/// Summing field `k` of the per-type counts over keys that are types of the
/// sample sums the flagged entities of each of those types.
proof fn lemma_field_total(
    f: MatchFlags,
    preds: Seq<PredictedSpan>,
    exps: Seq<ExpectedEntity>,
    ts: Seq<Seq<char>>,
    k: int,
)
    requires
        preds.len() <= usize::MAX,
        exps.len() <= usize::MAX,
        0 <= k < 6,
        forall|j: int| 0 <= j < ts.len() ==> sample_types(preds, exps).contains(#[trigger] ts[j]),
    ensures
        field_total(flag_type_view(f, preds, exps), ts, k) == sum_hits(
            flags_of(f, preds, exps, k),
            types_of(preds, exps, k),
            ts,
            flags_of(f, preds, exps, k).len() as int,
        ),
    decreases ts.len(),
{
    if ts.len() > 0 {
        let init = ts.drop_last();
        assert forall|j: int| 0 <= j < init.len() implies sample_types(preds, exps).contains(
            #[trigger] init[j],
        ) by {
            assert(init[j] == ts[j]);
        }
        lemma_field_total(f, preds, exps, init, k);
        let t = ts.last();
        assert(sample_types(preds, exps).contains(ts[ts.len() - 1]));
        assert(flag_type_view(f, preds, exps)[t] == flag_counts(f, preds, exps, Some(t)));
        lemma_field_is_hits(f, preds, exps, Some(t), k);
    }
}

} // verus!
