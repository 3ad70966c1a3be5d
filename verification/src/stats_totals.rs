//! The accumulated counts stay consistent: the global counts are the sum of
//! the counts by language, and of the counts by entity type.

use vstd::prelude::*;

use crate::checker::{per_type_view, spec_counts};
use crate::model::{counts_add_fits, counts_sum, zero_counts, ExpectedEntity, PredictedSpan, SampleCounts};
use crate::stats::{add_fits, after_add, counts_or_zero, merge_counts, merge_fits, StatsView};
use crate::type_totals::{count_field, field_total, law_type_counts_sum_to_global, lists_types_once};

verus! {

/// `ts` lists the keys in `dom`, each once.
pub open spec fn lists_keys(ts: Seq<Seq<char>>, dom: Set<Seq<char>>) -> bool {
    ts.no_duplicates() && ts.to_set() == dom
}

/// However the keys of `m` are listed, field `k` sums to `v` over them.
pub open spec fn total_is(m: Map<Seq<char>, SampleCounts>, k: int, v: nat) -> bool {
    forall|ts: Seq<Seq<char>>| lists_keys(ts, m.dom()) ==> #[trigger] field_total(m, ts, k) == v
}

/// The counts by language, and the counts by type, each sum to the global
/// counts.
pub open spec fn stats_consistent(s: StatsView) -> bool {
    forall|k: int|
        0 <= k < 6 ==> {
            &&& total_is(s.by_lang, k, count_field(s.global, k) as nat)
            &&& total_is(s.by_type, k, count_field(s.global, k) as nat)
        }
}

// ── Sums over listings ───────────────────────────────────────────────────────

proof fn lemma_total_remove(m: Map<Seq<char>, SampleCounts>, s: Seq<Seq<char>>, i: int, k: int)
    requires
        0 <= i < s.len(),
    ensures
        field_total(m, s, k) == field_total(m, s.remove(i), k) + count_field(m[s[i]], k) as nat,
    decreases s.len(),
{
    if i < s.len() - 1 {
        let init = s.drop_last();
        lemma_total_remove(m, init, i, k);
        assert(s.remove(i).drop_last() =~= init.remove(i));
        assert(s.remove(i).last() == s.last());
        assert(init[i] == s[i]);
    } else {
        assert(s.remove(i) =~= s.drop_last());
    }
}

proof fn lemma_total_ext(
    m1: Map<Seq<char>, SampleCounts>,
    m2: Map<Seq<char>, SampleCounts>,
    s: Seq<Seq<char>>,
    k: int,
)
    requires
        forall|j: int| 0 <= j < s.len() ==> m1[#[trigger] s[j]] == m2[s[j]],
    ensures
        field_total(m1, s, k) == field_total(m2, s, k),
    decreases s.len(),
{
    if s.len() > 0 {
        let init = s.drop_last();
        assert forall|j: int| 0 <= j < init.len() implies m1[#[trigger] init[j]] == m2[init[j]] by {
            assert(init[j] == s[j]);
        }
        lemma_total_ext(m1, m2, init, k);
        assert(m1[s[s.len() - 1]] == m2[s[s.len() - 1]]);
    }
}

proof fn lemma_remove_lists(ts: Seq<Seq<char>>, dom: Set<Seq<char>>, i: int)
    requires
        lists_keys(ts, dom),
        0 <= i < ts.len(),
    ensures
        lists_keys(ts.remove(i), dom.remove(ts[i])),
        forall|j: int| 0 <= j < ts.remove(i).len() ==> #[trigger] ts.remove(i)[j] != ts[i],
{
    let r = ts.remove(i);
    let x = ts[i];
    assert forall|a: int, b: int| 0 <= a < r.len() && 0 <= b < r.len() && a != b implies r[a] != r[b] by {
        let a2 = if a < i { a } else { a + 1 };
        let b2 = if b < i { b } else { b + 1 };
        assert(r[a] == ts[a2] && r[b] == ts[b2]);
    }
    assert forall|j: int| 0 <= j < r.len() implies #[trigger] r[j] != x by {
        let j2 = if j < i { j } else { j + 1 };
        assert(r[j] == ts[j2]);
    }
    assert forall|y: Seq<char>| r.to_set().contains(y) <==> dom.remove(x).contains(y) by {
        if r.to_set().contains(y) {
            let j = choose|j: int| 0 <= j < r.len() && r[j] == y;
            let j2 = if j < i { j } else { j + 1 };
            assert(ts[j2] == y);
            assert(ts.to_set().contains(y));
        }
        if dom.remove(x).contains(y) {
            assert(ts.to_set().contains(y));
            let j = choose|j: int| 0 <= j < ts.len() && ts[j] == y;
            if j < i {
                assert(r[j] == y);
            } else {
                assert(j != i);
                assert(r[j - 1] == y);
            }
        }
    }
    assert(r.to_set() =~= dom.remove(x));
}

/// Changing the counts under one key changes the total of a field by the
/// change in that key's field.
proof fn lemma_total_set_key(
    m: Map<Seq<char>, SampleCounts>,
    x: Seq<char>,
    w: SampleCounts,
    k: int,
    v: nat,
    d: nat,
)
    requires
        total_is(m, k, v),
        count_field(w, k) == count_field(counts_or_zero(m, x), k) + d,
    ensures
        total_is(m.insert(x, w), k, v + d),
{
    let m2 = m.insert(x, w);
    assert forall|ts: Seq<Seq<char>>| lists_keys(ts, m2.dom()) implies #[trigger] field_total(m2, ts, k)
        == v + d by {
        assert(ts.to_set().contains(x));
        let i = choose|i: int| 0 <= i < ts.len() && ts[i] == x;
        lemma_remove_lists(ts, m2.dom(), i);
        let r = ts.remove(i);
        lemma_total_remove(m2, ts, i, k);
        lemma_total_ext(m, m2, r, k);
        if m.contains_key(x) {
            assert(m2.dom() =~= m.dom());
            lemma_total_remove(m, ts, i, k);
        } else {
            assert(m2.dom().remove(x) =~= m.dom());
        }
    }
}

// ── The language totals ──────────────────────────────────────────────────────

/// A run that has counted nothing is consistent.
pub proof fn law_empty_stats_consistent(s: StatsView)
    requires
        s.global == zero_counts(),
        s.by_type == Map::<Seq<char>, SampleCounts>::empty(),
        s.by_lang == Map::<Seq<char>, SampleCounts>::empty(),
    ensures
        stats_consistent(s),
{
    assert forall|k: int| 0 <= k < 6 implies total_is(s.by_lang, k, count_field(s.global, k) as nat)
        && total_is(s.by_type, k, count_field(s.global, k) as nat) by {
        assert forall|ts: Seq<Seq<char>>| lists_keys(ts, Set::<Seq<char>>::empty()) implies field_total(
            Map::<Seq<char>, SampleCounts>::empty(),
            ts,
            k,
        ) == 0 by {
            if ts.len() > 0 {
                assert(ts.to_set().contains(ts[0]));
            }
        }
    }
}

/// Adding a sample keeps the accumulated counts consistent, provided the
/// sample's counts by type sum to its global counts (as those of a checked
/// sample do, see [`law_checked_sample_totals`]).
pub proof fn law_add_keeps_stats_consistent(
    s: StatsView,
    counts: SampleCounts,
    by_type: Map<Seq<char>, SampleCounts>,
    lang: Seq<char>,
    type_keys: Seq<Seq<char>>,
)
    requires
        stats_consistent(s),
        add_fits(s, counts, by_type, lang),
        lists_keys(type_keys, by_type.dom()),
        forall|k: int| 0 <= k < 6 ==> total_is(by_type, k, count_field(counts, k) as nat),
    ensures
        stats_consistent(after_add(s, counts, by_type, lang)),
{
    let a = after_add(s, counts, by_type, lang);
    assert forall|k: int| 0 <= k < 6 implies total_is(a.by_lang, k, count_field(a.global, k) as nat)
        && total_is(a.by_type, k, count_field(a.global, k) as nat) by {
        let old_lang = counts_or_zero(s.by_lang, lang);
        lemma_total_set_key(
            s.by_lang,
            lang,
            counts_sum(old_lang, counts),
            k,
            count_field(s.global, k) as nat,
            count_field(counts, k) as nat,
        );
        lemma_merge_total(s.by_type, by_type, type_keys, k, count_field(s.global, k) as nat, type_keys.len());
        assert(type_keys.take(type_keys.len() as int) =~= type_keys);
        assert(by_type.restrict(type_keys.to_set()) =~= by_type);
    }
}

/// Merging the counts of the first `j` listed keys of `add` into `acc`
/// adds their sum to each total.
proof fn lemma_merge_total(
    acc: Map<Seq<char>, SampleCounts>,
    add: Map<Seq<char>, SampleCounts>,
    la: Seq<Seq<char>>,
    k: int,
    v: nat,
    j: nat,
)
    requires
        total_is(acc, k, v),
        merge_fits(acc, add),
        lists_keys(la, add.dom()),
        j <= la.len(),
    ensures
        total_is(merge_counts(acc, add.restrict(la.take(j as int).to_set())), k, v + field_total(add, la.take(j as int), k)),
    decreases j,
{
    if j == 0 {
        assert(la.take(0).to_set() =~= Set::<Seq<char>>::empty());
        assert(merge_counts(acc, add.restrict(Set::<Seq<char>>::empty())) =~= acc);
    } else {
        let jj = (j - 1) as int;
        lemma_merge_total(acc, add, la, k, v, (j - 1) as nat);
        let before = merge_counts(acc, add.restrict(la.take(jj).to_set()));
        let x = la[jj];
        assert(!la.take(jj).to_set().contains(x)) by {
            if la.take(jj).to_set().contains(x) {
                let q = choose|q: int| 0 <= q < jj && la.take(jj)[q] == x;
                assert(la[q] == la[jj]);
            }
        }
        assert(la.to_set().contains(x));
        assert(add.contains_key(x));
        assert(counts_or_zero(before, x) == counts_or_zero(acc, x));
        assert(counts_add_fits(counts_or_zero(acc, x), add[x]));
        let w = counts_sum(counts_or_zero(acc, x), add[x]);
        lemma_total_set_key(before, x, w, k, v + field_total(add, la.take(jj), k), count_field(add[x], k) as nat);
        let after = merge_counts(acc, add.restrict(la.take(j as int).to_set()));
        assert(la.take(j as int) =~= la.take(jj).push(x));
        let t1 = la.take(j as int);
        let t0 = la.take(jj);
        assert forall|y: Seq<char>| t1.to_set().contains(y) <==> t0.to_set().insert(x).contains(y) by {
            if t1.to_set().contains(y) {
                let q = choose|q: int| 0 <= q < t1.len() && #[trigger] t1[q] == y;
                if q < jj {
                    assert(t0[q] == y);
                }
            }
            if t0.to_set().contains(y) {
                let q = choose|q: int| 0 <= q < t0.len() && #[trigger] t0[q] == y;
                assert(t1[q] == y);
            }
            if y == x {
                assert(t1[jj] == y);
            }
        }
        assert(t1.to_set() =~= t0.to_set().insert(x));
        assert(after =~= before.insert(x, w));
        assert(la.take(j as int).drop_last() =~= la.take(jj));
    }
}

/// The counts by type of a checked sample sum to its global counts.
pub proof fn law_checked_sample_totals(
    preds: Seq<PredictedSpan>,
    exps: Seq<ExpectedEntity>,
    k: int,
)
    requires
        preds.len() <= usize::MAX,
        exps.len() <= usize::MAX,
        0 <= k < 6,
    ensures
        total_is(per_type_view(preds, exps), k, count_field(spec_counts(preds, exps, None), k) as nat),
{
    assert forall|ts: Seq<Seq<char>>| lists_keys(ts, per_type_view(preds, exps).dom()) implies #[trigger] field_total(
        per_type_view(preds, exps),
        ts,
        k,
    ) == count_field(spec_counts(preds, exps, None), k) as nat by {
        assert(per_type_view(preds, exps).dom() =~= crate::checker::sample_types(preds, exps));
        assert(lists_types_once(ts, preds, exps));
        law_type_counts_sum_to_global(preds, exps, ts, k);
    }
}

/// `s` without repeated elements, keeping the first of each.
pub open spec fn dedup(s: Seq<Seq<char>>) -> Seq<Seq<char>>
    decreases s.len(),
{
    if s.len() == 0 {
        Seq::empty()
    } else {
        let d = dedup(s.drop_last());
        if d.contains(s.last()) {
            d
        } else {
            d.push(s.last())
        }
    }
}

proof fn lemma_dedup(s: Seq<Seq<char>>)
    ensures
        lists_keys(dedup(s), s.to_set()),
    decreases s.len(),
{
    if s.len() == 0 {
        assert(s.to_set() =~= Set::<Seq<char>>::empty());
        assert(dedup(s).to_set() =~= Set::<Seq<char>>::empty());
    } else {
        let init = s.drop_last();
        lemma_dedup(init);
        let d = dedup(init);
        let x = s.last();
        assert forall|y: Seq<char>| s.to_set().contains(y) <==> init.to_set().insert(x).contains(y) by {
            if s.to_set().contains(y) {
                let q = choose|q: int| 0 <= q < s.len() && #[trigger] s[q] == y;
                if q < s.len() - 1 {
                    assert(init[q] == y);
                }
            }
            if init.to_set().contains(y) {
                let q = choose|q: int| 0 <= q < init.len() && #[trigger] init[q] == y;
                assert(s[q] == y);
            }
            if y == x {
                assert(s[s.len() - 1] == y);
            }
        }
        assert(s.to_set() =~= init.to_set().insert(x));
        if !d.contains(x) {
            let e = d.push(x);
            assert forall|a: int, b: int| 0 <= a < e.len() && 0 <= b < e.len() && a != b implies e[a]
                != e[b] by {
                if a < d.len() && b < d.len() {
                    assert(e[a] == d[a] && e[b] == d[b]);
                } else if a < d.len() {
                    assert(e[a] == d[a]);
                } else {
                    assert(e[b] == d[b]);
                }
            }
            assert forall|y: Seq<char>| e.to_set().contains(y) <==> d.to_set().insert(x).contains(y) by {
                if e.to_set().contains(y) {
                    let q = choose|q: int| 0 <= q < e.len() && #[trigger] e[q] == y;
                    if q < d.len() {
                        assert(d[q] == y);
                    }
                }
                if d.to_set().contains(y) {
                    let q = choose|q: int| 0 <= q < d.len() && #[trigger] d[q] == y;
                    assert(e[q] == y);
                }
                if y == x {
                    assert(e[d.len() as int] == y);
                }
            }
            assert(e.to_set() =~= d.to_set().insert(x));
            assert(dedup(s) == e);
        } else {
            assert(dedup(s) == d);
            assert(d.to_set().contains(x));
            assert(d.to_set().insert(x) =~= d.to_set());
        }
    }
}

/// Recording a checked sample keeps the accumulated counts consistent.
pub proof fn law_checked_sample_keeps_stats_consistent(
    s: StatsView,
    preds: Seq<PredictedSpan>,
    exps: Seq<ExpectedEntity>,
    lang: Seq<char>,
)
    requires
        preds.len() <= usize::MAX,
        exps.len() <= usize::MAX,
        stats_consistent(s),
        add_fits(s, spec_counts(preds, exps, None), per_type_view(preds, exps), lang),
    ensures
        stats_consistent(after_add(s, spec_counts(preds, exps, None), per_type_view(preds, exps), lang)),
{
    let all = preds.map_values(|p: PredictedSpan| p.entity_type@) + exps.map_values(
        |e: ExpectedEntity| e.entity_type@,
    );
    lemma_dedup(all);
    let dom = per_type_view(preds, exps).dom();
    assert forall|t: Seq<char>| all.to_set().contains(t) <==> dom.contains(t) by {
        assert(dom.contains(t) == crate::checker::sample_types(preds, exps).contains(t));
        if all.to_set().contains(t) {
            let q = choose|q: int| 0 <= q < all.len() && #[trigger] all[q] == t;
            if q < preds.len() {
                assert(preds[q].entity_type@ == t);
            } else {
                assert(exps[q - preds.len()].entity_type@ == t);
            }
        }
        if crate::checker::pred_has_type(preds, preds.len() as int, t) {
            let q = choose|q: int| 0 <= q < preds.len() && #[trigger] preds[q].entity_type@ == t;
            assert(all[q] == t);
        }
        if crate::checker::exp_has_type(exps, exps.len() as int, t) {
            let q = choose|q: int| 0 <= q < exps.len() && #[trigger] exps[q].entity_type@ == t;
            assert(all[preds.len() + q] == t);
        }
    }
    assert(all.to_set() =~= dom);
    assert forall|k: int| 0 <= k < 6 implies total_is(
        per_type_view(preds, exps),
        k,
        count_field(spec_counts(preds, exps, None), k) as nat,
    ) by {
        law_checked_sample_totals(preds, exps, k);
    }
    law_add_keeps_stats_consistent(
        s,
        spec_counts(preds, exps, None),
        per_type_view(preds, exps),
        lang,
        dedup(all),
    );
}

} // verus!
