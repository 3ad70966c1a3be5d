//! Matching of predicted spans against expected entities, per-sample counts
//! and error classification.
//!
//! Strict match: same entity type, same start, same end.
//! Relaxed match: same entity type and overlapping spans.
//! Exact matches are paired first: each prediction, in order, claims the
//! first expected entity it equals that no earlier prediction claimed. Under
//! the relaxed rule an exact match is kept when the spans share a character
//! (they are not empty); then each prediction left over claims the first
//! expected entity left over that it overlaps. Both pairings are one to
//! one; an exact match of non-empty spans counts as a true positive under
//! both rules, and every relaxed pair overlaps.

use vstd::prelude::*;

use crate::type_totals::{count_field, field_total, law_flag_type_counts_sum_to_global, lists_types_once};

use crate::counts_map::{same_text, CountsMap};
use vstd::string::StrSliceExecFns;

use crate::model::{
    ErrorKind, ErrorSeverity, ExpectedEntity, NearMiss, PredictedSpan, SampleCounts, SpanWithText,
    TestError,
};

verus! {

/// The outcome of checking one sample.
pub struct CheckResult {
    pub counts: SampleCounts,
    pub by_type: CountsMap,
    pub error: Option<TestError>,
}

/// `r` is the outcome of checking sample `id` with text `src`.
pub open spec fn check_result_is(
    r: CheckResult,
    id: Seq<char>,
    src: Seq<char>,
    preds: Seq<PredictedSpan>,
    exps: Seq<ExpectedEntity>,
) -> bool {
    &&& r.counts == spec_counts(preds, exps, None)
    &&& r.by_type@ == per_type_view(preds, exps)
    &&& r.error is None <==> !sample_has_error(preds, exps)
    &&& r.error matches Some(err) ==> error_is(err, id, preds, exps, src)
}

/// Checks the predictions for one sample against its expected entities.
/// The spans reported in the error carry no text; see [`check_with_source`].
pub fn check(sample_id: &str, predicted: &[PredictedSpan], expected: &[ExpectedEntity]) -> (r:
    CheckResult)
    ensures
        check_result_is(r, sample_id@, Seq::empty(), predicted@, expected@),
{
    let source = "";
    proof {
        reveal_strlit("");
        assert(source@ =~= Seq::<char>::empty());
    }
    check_with_source(sample_id, source, predicted, expected)
}

/// Checks the predictions for one sample against its expected entities; the
/// spans reported in the error carry the text they cover in `source_text`.
pub fn check_with_source(
    sample_id: &str,
    source_text: &str,
    predicted: &[PredictedSpan],
    expected: &[ExpectedEntity],
) -> (r: CheckResult)
    ensures
        check_result_is(r, sample_id@, source_text@, predicted@, expected@),
{
    let state = run_matching(predicted, expected);
    let counts = global_counts(&state, predicted, expected);
    let by_type = per_type_counts_map(predicted, expected, &state);
    let error = build_error(sample_id, source_text, predicted, expected, &state, &counts);
    // The slices' lengths fit in `usize`, as the counting laws ask.
    let _n_pred = predicted.len();
    let _n_exp = expected.len();
    proof {
        let preds = predicted@;
        let exps = expected@;
        let f = state_flags(state);
        lemma_matching_flags(f, preds, exps, None);
        assert forall|t: Seq<char>| sample_types(preds, exps).contains(t) implies flag_counts(
            f,
            preds,
            exps,
            Some(t),
        ) == spec_counts(preds, exps, Some(t)) by {
            lemma_matching_flags(f, preds, exps, Some(t));
        }
        assert(flag_type_view(f, preds, exps) =~= per_type_view(preds, exps));
        law_error_lists_match_counts(preds, exps);
    }
    CheckResult { counts, by_type, error }
}

// ── Specification of the matching ────────────────────────────────────────────

pub open spec fn strict_match(p: PredictedSpan, e: ExpectedEntity) -> bool {
    p.entity_type@ == e.entity_type@ && p.start == e.start && p.end == e.end
}

pub open spec fn relaxed_match(p: PredictedSpan, e: ExpectedEntity) -> bool {
    p.entity_type@ == e.entity_type@ && p.start < e.end && p.end > e.start
}

/// The rule of a phase of the matching: exact equality in the strict phase,
/// overlap in the relaxed phase.
pub open spec fn pairs_by(strict: bool, p: PredictedSpan, e: ExpectedEntity) -> bool {
    if strict {
        strict_match(p, e)
    } else {
        relaxed_match(p, e)
    }
}

/// Expected entity `ei` can be claimed by `p` under the rule of the phase,
/// given the claims made so far.
pub open spec fn claimable(
    strict: bool,
    p: PredictedSpan,
    exps: Seq<ExpectedEntity>,
    claimed: Seq<Option<int>>,
    ei: int,
) -> bool {
    pairs_by(strict, p, exps[ei]) && !claimed.contains(Some(ei))
}

/// The first expected entity at or after `from` that `p` can claim.
pub open spec fn first_claimable(
    strict: bool,
    p: PredictedSpan,
    exps: Seq<ExpectedEntity>,
    claimed: Seq<Option<int>>,
    from: int,
) -> Option<int>
    decreases exps.len() - from,
{
    if from < 0 || from >= exps.len() {
        None
    } else if claimable(strict, p, exps, claimed, from) {
        Some(from)
    } else {
        first_claimable(strict, p, exps, claimed, from + 1)
    }
}

/// The strict claims of the first `k` predictions: each prediction, in
/// order, claims the first expected entity it equals exactly that no earlier
/// prediction claimed.
pub open spec fn strict_claims(preds: Seq<PredictedSpan>, exps: Seq<ExpectedEntity>, k: nat) -> Seq<
    Option<int>,
>
    decreases k,
{
    if k == 0 {
        Seq::empty()
    } else {
        let prev = strict_claims(preds, exps, (k - 1) as nat);
        prev.push(first_claimable(true, preds[k - 1], exps, prev, 0))
    }
}

/// The strict claims of all predictions: the exact matches, one to one.
pub open spec fn strict_pairing(preds: Seq<PredictedSpan>, exps: Seq<ExpectedEntity>) -> Seq<
    Option<int>,
> {
    strict_claims(preds, exps, preds.len())
}

/// The claims `c` keeps under the relaxed rule: those where the prediction
/// overlaps the entity it claimed. An exact match of two empty spans shares
/// no character and is dropped.
pub open spec fn keep_overlapping(
    preds: Seq<PredictedSpan>,
    exps: Seq<ExpectedEntity>,
    c: Seq<Option<int>>,
) -> Seq<Option<int>> {
    Seq::new(
        c.len(),
        |i: int|
            if c[i] is Some && relaxed_match(preds[i], exps[c[i]->0]) {
                c[i]
            } else {
                None
            },
    )
}

/// The exact matches that are also relaxed matches.
pub open spec fn kept_pairing(preds: Seq<PredictedSpan>, exps: Seq<ExpectedEntity>) -> Seq<
    Option<int>,
> {
    keep_overlapping(preds, exps, strict_pairing(preds, exps))
}

/// The relaxed claims of the first `k` predictions. A prediction that
/// claimed an entity exactly, with at least one character in common, keeps
/// it; any other prediction, in order, claims the first expected entity it
/// overlaps that no kept exact match and no earlier prediction claimed.
pub open spec fn relaxed_claims(preds: Seq<PredictedSpan>, exps: Seq<ExpectedEntity>, k: nat) -> Seq<
    Option<int>,
>
    decreases k,
{
    if k == 0 {
        Seq::empty()
    } else {
        let prev = relaxed_claims(preds, exps, (k - 1) as nat);
        let kp = kept_pairing(preds, exps);
        prev.push(
            if kp[k - 1] is Some {
                kp[k - 1]
            } else {
                first_claimable(false, preds[k - 1], exps, kp + prev, 0)
            },
        )
    }
}

/// The relaxed claims of all predictions.
pub open spec fn pairing(preds: Seq<PredictedSpan>, exps: Seq<ExpectedEntity>) -> Seq<Option<int>> {
    relaxed_claims(preds, exps, preds.len())
}

/// Expected entity `ei` is matched exactly by some prediction.
pub open spec fn exp_strict_hit(preds: Seq<PredictedSpan>, exps: Seq<ExpectedEntity>, ei: int) -> bool {
    strict_pairing(preds, exps).contains(Some(ei))
}

/// Prediction `pi` matches an expected entity exactly.
pub open spec fn pred_strict_hit(preds: Seq<PredictedSpan>, exps: Seq<ExpectedEntity>, pi: int) -> bool {
    strict_pairing(preds, exps)[pi] is Some
}

/// Expected entity `ei` is claimed by some prediction under the relaxed rule.
pub open spec fn exp_relaxed_hit(preds: Seq<PredictedSpan>, exps: Seq<ExpectedEntity>, ei: int) -> bool {
    pairing(preds, exps).contains(Some(ei))
}

/// Prediction `pi` claimed an expected entity under the relaxed rule.
pub open spec fn pred_relaxed_hit(preds: Seq<PredictedSpan>, exps: Seq<ExpectedEntity>, pi: int) -> bool {
    pairing(preds, exps)[pi] is Some
}

// ── Counts ───────────────────────────────────────────────────────────────────

/// The number of indices `i` in `[0, n)` for which `f(i)` holds.
pub open spec fn count_where(n: nat, f: spec_fn(int) -> bool) -> nat
    decreases n,
{
    if n == 0 {
        0
    } else {
        count_where((n - 1) as nat, f) + if f(n - 1) {
            1nat
        } else {
            0nat
        }
    }
}

/// No filter (`None`), or the type the filter names.
pub open spec fn of_type(filter: Option<Seq<char>>, t: Seq<char>) -> bool {
    match filter {
        Some(x) => x == t,
        None => true,
    }
}

/// The six counts of a sample, over all entities (`filter` is `None`) or
/// over the entities of one type.
pub open spec fn spec_counts(
    preds: Seq<PredictedSpan>,
    exps: Seq<ExpectedEntity>,
    filter: Option<Seq<char>>,
) -> SampleCounts {
    SampleCounts {
        tp_strict: count_where(
            exps.len(),
            |i: int| exp_strict_hit(preds, exps, i) && of_type(filter, exps[i].entity_type@),
        ) as usize,
        fp_strict: count_where(
            preds.len(),
            |i: int| !pred_strict_hit(preds, exps, i) && of_type(filter, preds[i].entity_type@),
        ) as usize,
        fn_strict: count_where(
            exps.len(),
            |i: int| !exp_strict_hit(preds, exps, i) && of_type(filter, exps[i].entity_type@),
        ) as usize,
        tp_relaxed: count_where(
            exps.len(),
            |i: int| exp_relaxed_hit(preds, exps, i) && of_type(filter, exps[i].entity_type@),
        ) as usize,
        fp_relaxed: count_where(
            preds.len(),
            |i: int| !pred_relaxed_hit(preds, exps, i) && of_type(filter, preds[i].entity_type@),
        ) as usize,
        fn_relaxed: count_where(
            exps.len(),
            |i: int| !exp_relaxed_hit(preds, exps, i) && of_type(filter, exps[i].entity_type@),
        ) as usize,
    }
}

pub proof fn lemma_count_where_le(n: nat, f: spec_fn(int) -> bool)
    ensures
        count_where(n, f) <= n,
    decreases n,
{
    if n > 0 {
        lemma_count_where_le((n - 1) as nat, f);
    }
}

/// Counting depends only on the values of the predicate below `n`.
pub proof fn lemma_count_where_ext(n: nat, f: spec_fn(int) -> bool, g: spec_fn(int) -> bool)
    requires
        forall|i: int| 0 <= i < n ==> #[trigger] f(i) == g(i),
    ensures
        count_where(n, f) == count_where(n, g),
    decreases n,
{
    if n > 0 {
        lemma_count_where_ext((n - 1) as nat, f, g);
    }
}

spec fn opt_str_view(o: Option<&str>) -> Option<Seq<char>> {
    match o {
        Some(s) => Some(s@),
        None => None,
    }
}

fn type_is(filter: Option<&str>, t: &String) -> (r: bool)
    ensures
        r == of_type(opt_str_view(filter), t@),
{
    match filter {
        Some(x) => same_text(x, t.as_str()),
        None => true,
    }
}

/// Counts the expected entities whose flag equals `want` and whose type
/// passes `filter`.
fn count_expected(flags: &Vec<bool>, want: bool, expected: &[ExpectedEntity], filter: Option<&str>) -> (r:
    usize)
    requires
        flags@.len() == expected@.len(),
    ensures
        r == count_where(
            flags@.len(),
            |i: int| flags@[i] == want && of_type(opt_str_view(filter), expected@[i].entity_type@),
        ),
{
    let ghost f = |i: int| flags@[i] == want && of_type(opt_str_view(filter), expected@[i].entity_type@);
    let mut n: usize = 0;
    let mut i: usize = 0;
    while i < flags.len()
        invariant
            flags@.len() == expected@.len(),
            i <= flags@.len(),
            n == count_where(i as nat, f),
            f == (|i: int| flags@[i] == want && of_type(opt_str_view(filter), expected@[i].entity_type@)),
        decreases flags@.len() - i,
    {
        proof {
            lemma_count_where_le(i as nat, f);
        }
        if flags[i] == want && type_is(filter, &expected[i].entity_type) {
            n = n + 1;
        }
        i = i + 1;
    }
    n
}

/// Counts the predictions whose flag equals `want` and whose type passes
/// `filter`.
fn count_predicted(flags: &Vec<bool>, want: bool, predicted: &[PredictedSpan], filter: Option<&str>) -> (r:
    usize)
    requires
        flags@.len() == predicted@.len(),
    ensures
        r == count_where(
            flags@.len(),
            |i: int| flags@[i] == want && of_type(opt_str_view(filter), predicted@[i].entity_type@),
        ),
{
    let ghost f = |i: int| flags@[i] == want && of_type(opt_str_view(filter), predicted@[i].entity_type@);
    let mut n: usize = 0;
    let mut i: usize = 0;
    while i < flags.len()
        invariant
            flags@.len() == predicted@.len(),
            i <= flags@.len(),
            n == count_where(i as nat, f),
            f == (|i: int| flags@[i] == want && of_type(opt_str_view(filter), predicted@[i].entity_type@)),
        decreases flags@.len() - i,
    {
        proof {
            lemma_count_where_le(i as nat, f);
        }
        if flags[i] == want && type_is(filter, &predicted[i].entity_type) {
            n = n + 1;
        }
        i = i + 1;
    }
    n
}

/// A predicted span among the first `k` has type `t`.
pub open spec fn pred_has_type(preds: Seq<PredictedSpan>, k: int, t: Seq<char>) -> bool {
    exists|i: int| 0 <= i < k && #[trigger] preds[i].entity_type@ == t
}

/// An expected entity among the first `k` has type `t`.
pub open spec fn exp_has_type(exps: Seq<ExpectedEntity>, k: int, t: Seq<char>) -> bool {
    exists|i: int| 0 <= i < k && #[trigger] exps[i].entity_type@ == t
}

/// The entity types that occur in a sample, predicted or expected.
pub open spec fn sample_types(preds: Seq<PredictedSpan>, exps: Seq<ExpectedEntity>) -> Set<Seq<char>> {
    Set::new(
        |t: Seq<char>|
            pred_has_type(preds, preds.len() as int, t) || exp_has_type(exps, exps.len() as int, t),
    )
}

/// The per-type counts of a sample: one entry for each type that occurs in
/// it.
pub open spec fn per_type_view(preds: Seq<PredictedSpan>, exps: Seq<ExpectedEntity>) -> Map<
    Seq<char>,
    SampleCounts,
> {
    Map::new(|t: Seq<char>| sample_types(preds, exps).contains(t), |t: Seq<char>| spec_counts(preds, exps, Some(t)))
}

// ── Specification of the error report ────────────────────────────────────────

/// The indices `i` in `[0, n)` for which `f(i)` holds, ascending.
pub open spec fn indices_where(n: nat, f: spec_fn(int) -> bool) -> Seq<int>
    decreases n,
{
    if n == 0 {
        Seq::empty()
    } else {
        let prev = indices_where((n - 1) as nat, f);
        if f(n - 1) {
            prev.push(n - 1)
        } else {
            prev
        }
    }
}

/// Prediction `pi` is a near miss: it claimed an expected entity under the
/// relaxed rule but matched none strictly.
pub open spec fn near_miss_at(preds: Seq<PredictedSpan>, exps: Seq<ExpectedEntity>, pi: int) -> bool {
    pred_relaxed_hit(preds, exps, pi) && !pred_strict_hit(preds, exps, pi)
}

/// The predictions that are near misses, in order.
pub open spec fn near_miss_indices(preds: Seq<PredictedSpan>, exps: Seq<ExpectedEntity>) -> Seq<int> {
    indices_where(preds.len(), |i: int| near_miss_at(preds, exps, i))
}

/// The predictions that claimed nothing (false positives), in order.
pub open spec fn false_positive_indices(preds: Seq<PredictedSpan>, exps: Seq<ExpectedEntity>) -> Seq<int> {
    indices_where(preds.len(), |i: int| !pred_relaxed_hit(preds, exps, i))
}

/// The expected entities that nothing claimed (false negatives), in order.
pub open spec fn false_negative_indices(preds: Seq<PredictedSpan>, exps: Seq<ExpectedEntity>) -> Seq<
    int,
> {
    indices_where(exps.len(), |i: int| !exp_relaxed_hit(preds, exps, i))
}

/// The characters of `src` from `start` to `end`, each clamped to the end of
/// `src`; empty when the clamped start lies after the clamped end.
pub open spec fn extract(src: Seq<char>, start: int, end: int) -> Seq<char> {
    let a = if start < src.len() {
        start
    } else {
        src.len() as int
    };
    let b = if end < src.len() {
        end
    } else {
        src.len() as int
    };
    if a <= b {
        src.subrange(a, b)
    } else {
        Seq::empty()
    }
}

/// `s` is the span `(ty, start, end)` with the text it covers in `src`.
pub open spec fn span_text_is(s: SpanWithText, ty: Seq<char>, start: usize, end: usize, src: Seq<char>) -> bool {
    &&& s.entity_type@ == ty
    &&& s.start == start
    &&& s.end == end
    &&& s.text@ == extract(src, start as int, end as int)
}

pub open spec fn near_miss_is(nm: NearMiss, p: PredictedSpan, e: ExpectedEntity, src: Seq<char>) -> bool {
    &&& span_text_is(nm.obtained, p.entity_type@, p.start, p.end, src)
    &&& span_text_is(nm.expected, e.entity_type@, e.start, e.end, src)
}

/// High when an expected entity was missed, else Medium when there is a near
/// miss, else Low.
pub open spec fn spec_severity(has_fn: bool, has_nm: bool) -> ErrorSeverity {
    if has_fn {
        ErrorSeverity::High
    } else if has_nm {
        ErrorSeverity::Medium
    } else {
        ErrorSeverity::Low
    }
}

/// The kinds of error present, in the order near miss, false positive,
/// false negative.
pub open spec fn spec_kinds(has_nm: bool, has_fp: bool, has_fn: bool) -> Seq<ErrorKind> {
    (if has_nm {
        seq![ErrorKind::NearMiss]
    } else {
        Seq::empty()
    }) + (if has_fp {
        seq![ErrorKind::FalsePositive]
    } else {
        Seq::empty()
    }) + (if has_fn {
        seq![ErrorKind::FalseNegative]
    } else {
        Seq::empty()
    })
}

/// A sample has an error exactly when it has a near miss, a false positive
/// or a false negative.
pub open spec fn sample_has_error(preds: Seq<PredictedSpan>, exps: Seq<ExpectedEntity>) -> bool {
    near_miss_indices(preds, exps).len() > 0 || false_positive_indices(preds, exps).len() > 0
        || false_negative_indices(preds, exps).len() > 0
}

/// The report `err` gives of sample `id`, for the given near misses, false
/// positives and false negatives (indices, ascending), the expected entity
/// each prediction claimed, and whether the sample counts a false negative.
pub open spec fn report_is(
    err: TestError,
    id: Seq<char>,
    preds: Seq<PredictedSpan>,
    exps: Seq<ExpectedEntity>,
    src: Seq<char>,
    nm: Seq<int>,
    fp: Seq<int>,
    fnx: Seq<int>,
    pairs: Seq<Option<int>>,
    has_fn: bool,
) -> bool {
    &&& err.sample_id@ == id
    &&& err.severity == spec_severity(has_fn, nm.len() > 0)
    &&& err.kinds@ == spec_kinds(nm.len() > 0, fp.len() > 0, has_fn)
    &&& err.near_misses@.len() == nm.len()
    &&& forall|j: int|
        0 <= j < nm.len() ==> near_miss_is(
            #[trigger] err.near_misses@[j],
            preds[nm[j]],
            exps[pairs[nm[j]]->0],
            src,
        )
    &&& err.false_positives@.len() == fp.len()
    &&& forall|j: int|
        0 <= j < fp.len() ==> span_text_is(
            #[trigger] err.false_positives@[j],
            preds[fp[j]].entity_type@,
            preds[fp[j]].start,
            preds[fp[j]].end,
            src,
        )
    &&& err.false_negatives@.len() == fnx.len()
    &&& forall|j: int|
        0 <= j < fnx.len() ==> span_text_is(
            #[trigger] err.false_negatives@[j],
            exps[fnx[j]].entity_type@,
            exps[fnx[j]].start,
            exps[fnx[j]].end,
            src,
        )
}

/// `err` reports sample `id` as the specification says.
pub open spec fn error_is(
    err: TestError,
    id: Seq<char>,
    preds: Seq<PredictedSpan>,
    exps: Seq<ExpectedEntity>,
    src: Seq<char>,
) -> bool {
    report_is(
        err,
        id,
        preds,
        exps,
        src,
        near_miss_indices(preds, exps),
        false_positive_indices(preds, exps),
        false_negative_indices(preds, exps),
        pairing(preds, exps),
        false_negative_indices(preds, exps).len() > 0,
    )
}

// ── Matching flags ───────────────────────────────────────────────────────────

/// The outcome of a matching, as flags: which predictions and which expected
/// entities are hits under each rule, and which expected entity each
/// prediction claimed under the relaxed rule.
pub struct MatchFlags {
    pub strict_pred: Seq<bool>,
    pub strict_exp: Seq<bool>,
    pub relaxed_pred: Seq<bool>,
    pub relaxed_exp: Seq<bool>,
    pub relaxed_pair: Seq<Option<int>>,
}

/// One flag per prediction and per expected entity.
pub open spec fn flags_sized(f: MatchFlags, n_pred: nat, n_exp: nat) -> bool {
    &&& f.strict_pred.len() == n_pred
    &&& f.relaxed_pred.len() == n_pred
    &&& f.relaxed_pair.len() == n_pred
    &&& f.strict_exp.len() == n_exp
    &&& f.relaxed_exp.len() == n_exp
}

/// Each near miss (a relaxed hit that is no strict hit) names an expected
/// entity.
pub open spec fn flags_pairs_valid(f: MatchFlags, n_pred: nat, n_exp: nat) -> bool {
    forall|i: int|
        0 <= i < n_pred && #[trigger] f.relaxed_pred[i] && !f.strict_pred[i] ==> (f.relaxed_pair[i] matches Some(
            x,
        ) && 0 <= x < n_exp)
}

/// The six counts read off the flags, over all entities (`filter` is `None`)
/// or over the entities of one type: true positives and false negatives are
/// flagged and unflagged expected entities, false positives unflagged
/// predictions.
pub open spec fn flag_counts(
    f: MatchFlags,
    preds: Seq<PredictedSpan>,
    exps: Seq<ExpectedEntity>,
    filter: Option<Seq<char>>,
) -> SampleCounts {
    SampleCounts {
        tp_strict: count_where(
            exps.len(),
            |i: int| f.strict_exp[i] && of_type(filter, exps[i].entity_type@),
        ) as usize,
        fp_strict: count_where(
            preds.len(),
            |i: int| !f.strict_pred[i] && of_type(filter, preds[i].entity_type@),
        ) as usize,
        fn_strict: count_where(
            exps.len(),
            |i: int| !f.strict_exp[i] && of_type(filter, exps[i].entity_type@),
        ) as usize,
        tp_relaxed: count_where(
            exps.len(),
            |i: int| f.relaxed_exp[i] && of_type(filter, exps[i].entity_type@),
        ) as usize,
        fp_relaxed: count_where(
            preds.len(),
            |i: int| !f.relaxed_pred[i] && of_type(filter, preds[i].entity_type@),
        ) as usize,
        fn_relaxed: count_where(
            exps.len(),
            |i: int| !f.relaxed_exp[i] && of_type(filter, exps[i].entity_type@),
        ) as usize,
    }
}

/// The counts read off the flags for each type that occurs in the sample.
pub open spec fn flag_type_view(f: MatchFlags, preds: Seq<PredictedSpan>, exps: Seq<ExpectedEntity>) -> Map<
    Seq<char>,
    SampleCounts,
> {
    Map::new(
        |t: Seq<char>| sample_types(preds, exps).contains(t),
        |t: Seq<char>| flag_counts(f, preds, exps, Some(t)),
    )
}

/// The near misses of the flags: relaxed hits that are no strict hits.
pub open spec fn flag_near_misses(f: MatchFlags, n_pred: nat) -> Seq<int> {
    indices_where(n_pred, |i: int| f.relaxed_pred[i] && !f.strict_pred[i])
}

/// The false positives of the flags: predictions that are no relaxed hit.
pub open spec fn flag_false_positives(f: MatchFlags, n_pred: nat) -> Seq<int> {
    indices_where(n_pred, |i: int| !f.relaxed_pred[i])
}

/// The false negatives of the flags: expected entities that are no relaxed
/// hit.
pub open spec fn flag_false_negatives(f: MatchFlags, n_exp: nat) -> Seq<int> {
    indices_where(n_exp, |i: int| !f.relaxed_exp[i])
}

/// The flags report an error: a near miss, a false positive, or a false
/// negative as `fn_count` counts them.
pub open spec fn flag_has_error(f: MatchFlags, n_pred: nat, fn_count: nat) -> bool {
    flag_near_misses(f, n_pred).len() > 0 || flag_false_positives(f, n_pred).len() > 0 || fn_count > 0
}

/// `err` reports sample `id` as the flags say, with `fn_count` false
/// negatives deciding the severity.
pub open spec fn flag_error_is(
    err: TestError,
    id: Seq<char>,
    preds: Seq<PredictedSpan>,
    exps: Seq<ExpectedEntity>,
    src: Seq<char>,
    f: MatchFlags,
    fn_count: nat,
) -> bool {
    report_is(
        err,
        id,
        preds,
        exps,
        src,
        flag_near_misses(f, preds.len()),
        flag_false_positives(f, preds.len()),
        flag_false_negatives(f, exps.len()),
        f.relaxed_pair,
        fn_count > 0,
    )
}

/// The flags are those of the specified matching of `preds` against `exps`.
pub open spec fn flags_match(f: MatchFlags, preds: Seq<PredictedSpan>, exps: Seq<ExpectedEntity>) -> bool {
    &&& flags_sized(f, preds.len(), exps.len())
    &&& forall|ei: int| 0 <= ei < exps.len() ==> #[trigger] f.strict_exp[ei] == exp_strict_hit(preds, exps, ei)
    &&& forall|pi: int| 0 <= pi < preds.len() ==> #[trigger] f.strict_pred[pi] == pred_strict_hit(preds, exps, pi)
    &&& forall|ei: int| 0 <= ei < exps.len() ==> #[trigger] f.relaxed_exp[ei] == exp_relaxed_hit(preds, exps, ei)
    &&& forall|pi: int| 0 <= pi < preds.len() ==> #[trigger] f.relaxed_pred[pi] == pred_relaxed_hit(preds, exps, pi)
    &&& f.relaxed_pair == pairing(preds, exps)
}

/// The flags of the specified matching.
pub open spec fn spec_flags(preds: Seq<PredictedSpan>, exps: Seq<ExpectedEntity>) -> MatchFlags {
    MatchFlags {
        strict_pred: Seq::new(preds.len(), |i: int| pred_strict_hit(preds, exps, i)),
        strict_exp: Seq::new(exps.len(), |i: int| exp_strict_hit(preds, exps, i)),
        relaxed_pred: Seq::new(preds.len(), |i: int| pred_relaxed_hit(preds, exps, i)),
        relaxed_exp: Seq::new(exps.len(), |i: int| exp_relaxed_hit(preds, exps, i)),
        relaxed_pair: pairing(preds, exps),
    }
}

// ── Lemmas on the matching ───────────────────────────────────────────────────

/// `first_claimable` gives the least claimable index at or after `from`.
pub proof fn lemma_first_claimable(
    strict: bool,
    p: PredictedSpan,
    exps: Seq<ExpectedEntity>,
    claimed: Seq<Option<int>>,
    from: int,
)
    requires
        0 <= from,
    ensures
        match first_claimable(strict, p, exps, claimed, from) {
            Some(x) => from <= x < exps.len() && claimable(strict, p, exps, claimed, x) && forall|y: int|
                from <= y < x ==> !#[trigger] claimable(strict, p, exps, claimed, y),
            None => forall|y: int|
                from <= y < exps.len() ==> !#[trigger] claimable(strict, p, exps, claimed, y),
        },
    decreases exps.len() - from,
{
    if from < exps.len() && !claimable(strict, p, exps, claimed, from) {
        lemma_first_claimable(strict, p, exps, claimed, from + 1);
    }
}

/// Claims as many as the predictions, each naming an expected entity of the
/// prediction's type.
pub open spec fn claims_valid(c: Seq<Option<int>>, preds: Seq<PredictedSpan>, exps: Seq<ExpectedEntity>) -> bool {
    &&& c.len() == preds.len()
    &&& forall|pi: int|
        0 <= pi < c.len() && (#[trigger] c[pi]) is Some ==> 0 <= c[pi]->0 < exps.len()
            && preds[pi].entity_type@ == exps[c[pi]->0].entity_type@
}

/// No expected entity is claimed twice.
pub open spec fn claims_distinct(c: Seq<Option<int>>) -> bool {
    forall|i: int, j: int| 0 <= i < j < c.len() && (#[trigger] c[i]) is Some ==> c[i] != #[trigger] c[j]
}

/// What the strict claims of the first `k` predictions are: exact matches,
/// one to one, and a prediction claims nothing only when every entity it
/// equals is already claimed.
pub proof fn lemma_strict_claims(preds: Seq<PredictedSpan>, exps: Seq<ExpectedEntity>, k: nat)
    requires
        k <= preds.len(),
    ensures
        strict_claims(preds, exps, k).len() == k,
        forall|pi: int|
            0 <= pi < k && (#[trigger] strict_claims(preds, exps, k)[pi]) is Some ==> {
                let x = strict_claims(preds, exps, k)[pi]->0;
                &&& 0 <= x < exps.len()
                &&& strict_match(preds[pi], exps[x])
            },
        claims_distinct(strict_claims(preds, exps, k)),
        forall|pi: int, y: int|
            0 <= pi < k && strict_claims(preds, exps, k)[pi] is None && 0 <= y < exps.len()
                && #[trigger] strict_match(preds[pi], exps[y]) ==> strict_claims(preds, exps, k).contains(
                Some(y),
            ),
    decreases k,
{
    if k > 0 {
        let prev = strict_claims(preds, exps, (k - 1) as nat);
        let cur = strict_claims(preds, exps, k);
        lemma_strict_claims(preds, exps, (k - 1) as nat);
        let p = preds[k - 1];
        let x = first_claimable(true, p, exps, prev, 0);
        lemma_first_claimable(true, p, exps, prev, 0);
        assert(cur == prev.push(x));
        assert forall|pi: int| 0 <= pi < k && (#[trigger] cur[pi]) is Some implies {
            let v = cur[pi]->0;
            &&& 0 <= v < exps.len()
            &&& strict_match(preds[pi], exps[v])
        } by {
            if pi < k - 1 {
                assert(cur[pi] == prev[pi]);
            }
        }
        assert forall|i: int, j: int| 0 <= i < j < cur.len() && (#[trigger] cur[i]) is Some implies cur[i]
            != #[trigger] cur[j] by {
            assert(cur[i] == prev[i]);
            if j == k - 1 {
                if cur[i] == cur[j] {
                    assert(prev.contains(cur[j]));
                }
            } else {
                assert(cur[j] == prev[j]);
            }
        }
        assert forall|pi: int, y: int|
            0 <= pi < k && cur[pi] is None && 0 <= y < exps.len() && #[trigger] strict_match(
                preds[pi],
                exps[y],
            ) implies cur.contains(Some(y)) by {
            if pi < k - 1 {
                assert(cur[pi] == prev[pi]);
                assert(prev.contains(Some(y)));
                let j = choose|j: int| 0 <= j < prev.len() && prev[j] == Some(y);
                assert(cur[j] == Some(y));
            } else {
                assert(!claimable(true, p, exps, prev, y));
                let j = choose|j: int| 0 <= j < prev.len() && prev[j] == Some(y);
                assert(cur[j] == Some(y));
            }
        }
    }
}

/// The kept exact matches: exact matches that overlap, one to one.
pub proof fn lemma_kept_pairing(preds: Seq<PredictedSpan>, exps: Seq<ExpectedEntity>)
    ensures
        kept_pairing(preds, exps).len() == preds.len(),
        forall|pi: int|
            0 <= pi < preds.len() && (#[trigger] kept_pairing(preds, exps)[pi]) is Some ==> {
                let x = kept_pairing(preds, exps)[pi]->0;
                &&& kept_pairing(preds, exps)[pi] == strict_pairing(preds, exps)[pi]
                &&& 0 <= x < exps.len()
                &&& strict_match(preds[pi], exps[x])
                &&& relaxed_match(preds[pi], exps[x])
            },
        forall|pi: int|
            0 <= pi < preds.len() && (#[trigger] strict_pairing(preds, exps)[pi]) is Some && relaxed_match(
                preds[pi],
                exps[strict_pairing(preds, exps)[pi]->0],
            ) ==> kept_pairing(preds, exps)[pi] == strict_pairing(preds, exps)[pi],
        claims_distinct(kept_pairing(preds, exps)),
{
    let sp = strict_pairing(preds, exps);
    let kp = kept_pairing(preds, exps);
    lemma_strict_claims(preds, exps, preds.len());
    assert forall|i: int, j: int| 0 <= i < j < kp.len() && (#[trigger] kp[i]) is Some implies kp[i]
        != #[trigger] kp[j] by {
        assert(sp[i] != sp[j]);
    }
}

/// What the relaxed claims of the first `k` predictions are: a kept exact
/// match stays; any other claim overlaps and is no kept exact match of
/// another prediction; no entity is claimed twice.
pub proof fn lemma_relaxed_claims(preds: Seq<PredictedSpan>, exps: Seq<ExpectedEntity>, k: nat)
    requires
        k <= preds.len(),
    ensures
        relaxed_claims(preds, exps, k).len() == k,
        forall|pi: int|
            0 <= pi < k && (#[trigger] kept_pairing(preds, exps)[pi]) is Some ==> relaxed_claims(
                preds,
                exps,
                k,
            )[pi] == kept_pairing(preds, exps)[pi],
        forall|pi: int|
            0 <= pi < k && kept_pairing(preds, exps)[pi] is None && (#[trigger] relaxed_claims(
                preds,
                exps,
                k,
            )[pi]) is Some ==> {
                let x = relaxed_claims(preds, exps, k)[pi]->0;
                &&& 0 <= x < exps.len()
                &&& relaxed_match(preds[pi], exps[x])
                &&& !kept_pairing(preds, exps).contains(Some(x))
            },
        claims_distinct(relaxed_claims(preds, exps, k)),
    decreases k,
{
    let kp = kept_pairing(preds, exps);
    lemma_kept_pairing(preds, exps);
    if k > 0 {
        let prev = relaxed_claims(preds, exps, (k - 1) as nat);
        let cur = relaxed_claims(preds, exps, k);
        lemma_relaxed_claims(preds, exps, (k - 1) as nat);
        let p = preds[k - 1];
        let taken = kp + prev;
        let fc = first_claimable(false, p, exps, taken, 0);
        lemma_first_claimable(false, p, exps, taken, 0);
        let v = if kp[k - 1] is Some {
            kp[k - 1]
        } else {
            fc
        };
        assert(cur == prev.push(v));
        if kp[k - 1] is None && fc is Some {
            let x = fc->0;
            assert(!taken.contains(Some(x)));
            assert(!kp.contains(Some(x))) by {
                if kp.contains(Some(x)) {
                    let i = choose|i: int| 0 <= i < kp.len() && kp[i] == Some(x);
                    assert(taken[i] == Some(x));
                }
            }
            assert(!prev.contains(Some(x))) by {
                if prev.contains(Some(x)) {
                    let j = choose|j: int| 0 <= j < prev.len() && prev[j] == Some(x);
                    assert(taken[kp.len() + j] == Some(x));
                }
            }
        }
        assert forall|pi: int| 0 <= pi < k && (#[trigger] kp[pi]) is Some implies cur[pi] == kp[pi] by {
            if pi < k - 1 {
                assert(cur[pi] == prev[pi]);
            }
        }
        assert forall|pi: int| 0 <= pi < k && kp[pi] is None && (#[trigger] cur[pi]) is Some implies {
            let x = cur[pi]->0;
            &&& 0 <= x < exps.len()
            &&& relaxed_match(preds[pi], exps[x])
            &&& !kp.contains(Some(x))
        } by {
            if pi < k - 1 {
                assert(cur[pi] == prev[pi]);
            }
        }
        assert forall|i: int, j: int| 0 <= i < j < cur.len() && (#[trigger] cur[i]) is Some implies cur[i]
            != #[trigger] cur[j] by {
            assert(cur[i] == prev[i]);
            if j == k - 1 {
                if kp[k - 1] is Some {
                    if kp[i] is Some {
                        assert(prev[i] == kp[i]);
                    } else {
                        assert(!kp.contains(prev[i]));
                        if cur[i] == cur[j] {
                            assert(kp.contains(kp[k - 1]));
                        }
                    }
                } else {
                    if cur[i] == cur[j] {
                        assert(prev.contains(cur[j]));
                    }
                }
            } else {
                assert(cur[j] == prev[j]);
            }
        }
    }
}

/// The strict and the relaxed pairing are well formed and one to one; every
/// relaxed pair overlaps; an exact match of non-empty spans is a relaxed
/// hit.
pub proof fn lemma_pairings(preds: Seq<PredictedSpan>, exps: Seq<ExpectedEntity>)
    ensures
        claims_valid(strict_pairing(preds, exps), preds, exps),
        claims_distinct(strict_pairing(preds, exps)),
        claims_valid(pairing(preds, exps), preds, exps),
        claims_distinct(pairing(preds, exps)),
        forall|pi: int|
            0 <= pi < preds.len() && (#[trigger] pairing(preds, exps)[pi]) is Some ==> relaxed_match(
                preds[pi],
                exps[pairing(preds, exps)[pi]->0],
            ),
        forall|pi: int|
            0 <= pi < preds.len() && #[trigger] pred_strict_hit(preds, exps, pi) && preds[pi].start
                < preds[pi].end ==> pairing(preds, exps)[pi] == strict_pairing(preds, exps)[pi],
        forall|ei: int|
            0 <= ei < exps.len() && #[trigger] exp_strict_hit(preds, exps, ei) && exps[ei].start
                < exps[ei].end ==> exp_relaxed_hit(preds, exps, ei),
{
    let sp = strict_pairing(preds, exps);
    let kp = kept_pairing(preds, exps);
    let rp = pairing(preds, exps);
    lemma_strict_claims(preds, exps, preds.len());
    lemma_kept_pairing(preds, exps);
    lemma_relaxed_claims(preds, exps, preds.len());
    assert forall|pi: int| 0 <= pi < rp.len() && (#[trigger] rp[pi]) is Some implies 0 <= rp[pi]->0
        < exps.len() && preds[pi].entity_type@ == exps[rp[pi]->0].entity_type@ && relaxed_match(
        preds[pi],
        exps[rp[pi]->0],
    ) by {
        if kp[pi] is Some {
            assert(rp[pi] == kp[pi]);
        }
    }
    assert forall|pi: int|
        0 <= pi < preds.len() && #[trigger] pred_strict_hit(preds, exps, pi) && preds[pi].start
            < preds[pi].end implies rp[pi] == sp[pi] by {
        assert(relaxed_match(preds[pi], exps[sp[pi]->0]));
        assert(kp[pi] == sp[pi]);
    }
    assert forall|ei: int|
        0 <= ei < exps.len() && #[trigger] exp_strict_hit(preds, exps, ei) && exps[ei].start
            < exps[ei].end implies exp_relaxed_hit(preds, exps, ei) by {
        let pi = choose|pi: int| 0 <= pi < sp.len() && sp[pi] == Some(ei);
        assert(sp[pi] is Some);
        assert(relaxed_match(preds[pi], exps[ei]));
        assert(kp[pi] == sp[pi]);
        assert(rp[pi] == sp[pi]);
    }
}

/// Among claims that are well formed and one to one, the claimed expected
/// entities of a type are as many as the predictions of that type that
/// claimed one.
pub proof fn lemma_claims_count(
    preds: Seq<PredictedSpan>,
    exps: Seq<ExpectedEntity>,
    c: Seq<Option<int>>,
    filter: Option<Seq<char>>,
)
    requires
        claims_valid(c, preds, exps),
        claims_distinct(c),
    ensures
        count_where(exps.len(), |ei: int| c.contains(Some(ei)) && of_type(filter, exps[ei].entity_type@))
            == count_where(preds.len(), |pi: int| c[pi] is Some && of_type(filter, preds[pi].entity_type@)),
{
    lemma_claims_count_prefix(preds, exps, c, filter, preds.len());
    assert(c.take(preds.len() as int) =~= c);
}

proof fn lemma_claims_count_prefix(
    preds: Seq<PredictedSpan>,
    exps: Seq<ExpectedEntity>,
    c: Seq<Option<int>>,
    filter: Option<Seq<char>>,
    k: nat,
)
    requires
        claims_valid(c, preds, exps),
        claims_distinct(c),
        k <= c.len(),
    ensures
        count_where(
            exps.len(),
            |ei: int| c.take(k as int).contains(Some(ei)) && of_type(filter, exps[ei].entity_type@),
        ) == count_where(k, |pi: int| c[pi] is Some && of_type(filter, preds[pi].entity_type@)),
    decreases k,
{
    let cur = c.take(k as int);
    let fcur = |ei: int| cur.contains(Some(ei)) && of_type(filter, exps[ei].entity_type@);
    if k == 0 {
        lemma_count_where_none(exps.len(), fcur);
    } else {
        let prev = c.take(k - 1);
        lemma_claims_count_prefix(preds, exps, c, filter, (k - 1) as nat);
        assert(cur =~= prev.push(c[k - 1]));
        let fprev = |ei: int| prev.contains(Some(ei)) && of_type(filter, exps[ei].entity_type@);
        match c[k - 1] {
            None => {
                assert forall|ei: int| 0 <= ei < exps.len() implies #[trigger] fprev(ei) == fcur(ei) by {
                    if cur.contains(Some(ei)) {
                        let j = choose|j: int| 0 <= j < cur.len() && cur[j] == Some(ei);
                        assert(prev[j] == Some(ei));
                    }
                    if prev.contains(Some(ei)) {
                        let j = choose|j: int| 0 <= j < prev.len() && prev[j] == Some(ei);
                        assert(cur[j] == Some(ei));
                    }
                }
                lemma_count_where_ext(exps.len(), fprev, fcur);
            },
            Some(e) => {
                assert(!prev.contains(Some(e))) by {
                    if prev.contains(Some(e)) {
                        let j = choose|j: int| 0 <= j < prev.len() && prev[j] == Some(e);
                        assert(c[j] == prev[j]);
                        assert(c[j] is Some);
                    }
                }
                assert(cur[k - 1] == Some(e));
                assert(cur.contains(Some(e)));
                assert forall|ei: int| 0 <= ei < exps.len() && ei != e implies #[trigger] fprev(ei)
                    == fcur(ei) by {
                    if cur.contains(Some(ei)) {
                        let j = choose|j: int| 0 <= j < cur.len() && cur[j] == Some(ei);
                        assert(prev[j] == Some(ei));
                    }
                    if prev.contains(Some(ei)) {
                        let j = choose|j: int| 0 <= j < prev.len() && prev[j] == Some(ei);
                        assert(cur[j] == Some(ei));
                    }
                }
                lemma_count_where_raise_one(exps.len(), fprev, fcur, e);
            },
        }
    }
}

pub proof fn lemma_indices_where(n: nat, f: spec_fn(int) -> bool)
    ensures
        indices_where(n, f).len() == count_where(n, f),
        forall|j: int|
            0 <= j < indices_where(n, f).len() ==> 0 <= #[trigger] indices_where(n, f)[j] < n && f(
                indices_where(n, f)[j],
            ),
    decreases n,
{
    if n > 0 {
        lemma_indices_where((n - 1) as nat, f);
    }
}

/// The indices depend only on the values of the predicate below `n`.
pub proof fn lemma_indices_where_ext(n: nat, f: spec_fn(int) -> bool, g: spec_fn(int) -> bool)
    requires
        forall|i: int| 0 <= i < n ==> #[trigger] f(i) == g(i),
    ensures
        indices_where(n, f) == indices_where(n, g),
    decreases n,
{
    if n > 0 {
        lemma_indices_where_ext((n - 1) as nat, f, g);
    }
}

/// Counting is monotone in the predicate.
pub proof fn lemma_count_where_mono(n: nat, f: spec_fn(int) -> bool, g: spec_fn(int) -> bool)
    requires
        forall|i: int| 0 <= i < n && #[trigger] f(i) ==> g(i),
    ensures
        count_where(n, f) <= count_where(n, g),
    decreases n,
{
    if n > 0 {
        lemma_count_where_mono((n - 1) as nat, f, g);
    }
}

/// Flags that are those of the specified matching give its counts and its
/// error report.
pub proof fn lemma_matching_flags(
    f: MatchFlags,
    preds: Seq<PredictedSpan>,
    exps: Seq<ExpectedEntity>,
    filter: Option<Seq<char>>,
)
    requires
        flags_match(f, preds, exps),
    ensures
        flag_counts(f, preds, exps, filter) == spec_counts(preds, exps, filter),
        flag_near_misses(f, preds.len()) == near_miss_indices(preds, exps),
        flag_false_positives(f, preds.len()) == false_positive_indices(preds, exps),
        flag_false_negatives(f, exps.len()) == false_negative_indices(preds, exps),
{
    lemma_count_where_ext(
        exps.len(),
        |i: int| f.strict_exp[i] && of_type(filter, exps[i].entity_type@),
        |i: int| exp_strict_hit(preds, exps, i) && of_type(filter, exps[i].entity_type@),
    );
    lemma_count_where_ext(
        preds.len(),
        |i: int| !f.strict_pred[i] && of_type(filter, preds[i].entity_type@),
        |i: int| !pred_strict_hit(preds, exps, i) && of_type(filter, preds[i].entity_type@),
    );
    lemma_count_where_ext(
        exps.len(),
        |i: int| !f.strict_exp[i] && of_type(filter, exps[i].entity_type@),
        |i: int| !exp_strict_hit(preds, exps, i) && of_type(filter, exps[i].entity_type@),
    );
    lemma_count_where_ext(
        exps.len(),
        |i: int| f.relaxed_exp[i] && of_type(filter, exps[i].entity_type@),
        |i: int| exp_relaxed_hit(preds, exps, i) && of_type(filter, exps[i].entity_type@),
    );
    lemma_count_where_ext(
        preds.len(),
        |i: int| !f.relaxed_pred[i] && of_type(filter, preds[i].entity_type@),
        |i: int| !pred_relaxed_hit(preds, exps, i) && of_type(filter, preds[i].entity_type@),
    );
    lemma_count_where_ext(
        exps.len(),
        |i: int| !f.relaxed_exp[i] && of_type(filter, exps[i].entity_type@),
        |i: int| !exp_relaxed_hit(preds, exps, i) && of_type(filter, exps[i].entity_type@),
    );
    lemma_indices_where_ext(
        preds.len(),
        |i: int| f.relaxed_pred[i] && !f.strict_pred[i],
        |i: int| near_miss_at(preds, exps, i),
    );
    lemma_indices_where_ext(
        preds.len(),
        |i: int| !f.relaxed_pred[i],
        |i: int| !pred_relaxed_hit(preds, exps, i),
    );
    lemma_indices_where_ext(exps.len(), |i: int| !f.relaxed_exp[i], |i: int| !exp_relaxed_hit(preds, exps, i));
}

/// The flags of the specified matching are those of the matching.
pub proof fn lemma_spec_flags(preds: Seq<PredictedSpan>, exps: Seq<ExpectedEntity>)
    ensures
        flags_match(spec_flags(preds, exps), preds, exps),
        flag_type_view(spec_flags(preds, exps), preds, exps) == per_type_view(preds, exps),
{
    lemma_relaxed_claims(preds, exps, preds.len());
    let f = spec_flags(preds, exps);
    assert forall|t: Seq<char>| sample_types(preds, exps).contains(t) implies flag_counts(f, preds, exps, Some(t))
        == spec_counts(preds, exps, Some(t)) by {
        lemma_matching_flags(f, preds, exps, Some(t));
    }
    assert(flag_type_view(f, preds, exps) =~= per_type_view(preds, exps));
}

// ── Matching ─────────────────────────────────────────────────────────────────

struct MatchState {
    strict_pred: Vec<bool>,
    strict_exp: Vec<bool>,
    relaxed_pred: Vec<bool>,
    relaxed_exp: Vec<bool>,
    relaxed_pair: Vec<Option<usize>>,
}

spec fn opt_int(o: Option<usize>) -> Option<int> {
    match o {
        Some(x) => Some(x as int),
        None => None,
    }
}

spec fn pairs_view(v: Seq<Option<usize>>) -> Seq<Option<int>> {
    v.map_values(|o: Option<usize>| opt_int(o))
}

/// The flags a matching state holds.
spec fn state_flags(s: MatchState) -> MatchFlags {
    MatchFlags {
        strict_pred: s.strict_pred@,
        strict_exp: s.strict_exp@,
        relaxed_pred: s.relaxed_pred@,
        relaxed_exp: s.relaxed_exp@,
        relaxed_pair: pairs_view(s.relaxed_pair@),
    }
}

/// Something occurs in a concatenation exactly when it occurs in one part.
proof fn lemma_concat_contains<A>(a: Seq<A>, b: Seq<A>, v: A)
    ensures
        (a + b).contains(v) == (a.contains(v) || b.contains(v)),
{
    if (a + b).contains(v) {
        let i = choose|i: int| 0 <= i < (a + b).len() && (a + b)[i] == v;
        if i < a.len() {
            assert(a[i] == v);
        } else {
            assert(b[i - a.len()] == v);
        }
    }
    if a.contains(v) {
        let i = choose|i: int| 0 <= i < a.len() && a[i] == v;
        assert((a + b)[i] == v);
    }
    if b.contains(v) {
        let i = choose|i: int| 0 <= i < b.len() && b[i] == v;
        assert((a + b)[a.len() + i] == v);
    }
}

/// Something occurs after a push exactly when it occurred before or is what
/// was pushed.
proof fn lemma_push_contains<A>(a: Seq<A>, v: A, w: A)
    ensures
        a.push(v).contains(w) == (a.contains(w) || v == w),
{
    if a.push(v).contains(w) {
        let i = choose|i: int| 0 <= i < a.push(v).len() && a.push(v)[i] == w;
        if i < a.len() {
            assert(a[i] == w);
        }
    }
    if a.contains(w) {
        let i = choose|i: int| 0 <= i < a.len() && a[i] == w;
        assert(a.push(v)[i] == w);
    }
    if v == w {
        assert(a.push(v)[a.len() as int] == w);
    }
}

fn is_strict(pred: &PredictedSpan, exp: &ExpectedEntity) -> (r: bool)
    ensures
        r == strict_match(*pred, *exp),
{
    pred.entity_type == exp.entity_type && pred.start == exp.start && pred.end == exp.end
}

fn is_relaxed(pred: &PredictedSpan, exp: &ExpectedEntity) -> (r: bool)
    ensures
        r == relaxed_match(*pred, *exp),
{
    pred.entity_type == exp.entity_type && pred.start < exp.end && pred.end > exp.start
}

/// The first expected entity that `pred` can claim under the rule of the
/// phase, `taken` flagging the entities already claimed.
fn claim_first(
    strict: bool,
    pred: &PredictedSpan,
    expected: &[ExpectedEntity],
    taken: &Vec<bool>,
    Ghost(claimed): Ghost<Seq<Option<int>>>,
) -> (r: Option<usize>)
    requires
        taken@.len() == expected@.len(),
        forall|e: int| 0 <= e < taken@.len() ==> #[trigger] taken@[e] == claimed.contains(Some(e)),
    ensures
        opt_int(r) == first_claimable(strict, *pred, expected@, claimed, 0),
{
    let mut ei: usize = 0;
    while ei < expected.len()
        invariant
            taken@.len() == expected@.len(),
            forall|e: int| 0 <= e < taken@.len() ==> #[trigger] taken@[e] == claimed.contains(Some(e)),
            ei <= expected@.len(),
            first_claimable(strict, *pred, expected@, claimed, 0) == first_claimable(
                strict,
                *pred,
                expected@,
                claimed,
                ei as int,
            ),
        decreases expected@.len() - ei,
    {
        let hit = if strict {
            is_strict(pred, &expected[ei])
        } else {
            is_relaxed(pred, &expected[ei])
        };
        if !taken[ei] && hit {
            return Some(ei);
        }
        ei = ei + 1;
    }
    None
}

/// Matches the predictions against the expected entities: exact matches
/// first, then overlaps among what is left.
fn run_matching(predicted: &[PredictedSpan], expected: &[ExpectedEntity]) -> (state: MatchState)
    ensures
        flags_match(state_flags(state), predicted@, expected@),
        flags_pairs_valid(state_flags(state), predicted@.len(), expected@.len()),
{
    let n_pred = predicted.len();
    let n_exp = expected.len();
    let mut state = MatchState {
        strict_pred: vec![false; n_pred],
        strict_exp: vec![false; n_exp],
        relaxed_pred: vec![false; n_pred],
        relaxed_exp: vec![false; n_exp],
        relaxed_pair: vec![None; n_pred],
    };
    let ghost preds = predicted@;
    let ghost exps = expected@;
    proof {
        assert(pairs_view(state.relaxed_pair@.take(0)) =~= keep_overlapping(
            preds,
            exps,
            strict_claims(preds, exps, 0),
        ));
    }
    // Exact matches; those that overlap are also relaxed pairs.
    let mut pi: usize = 0;
    while pi < n_pred
        invariant
            preds == predicted@,
            exps == expected@,
            n_pred == preds.len(),
            n_exp == exps.len(),
            pi <= n_pred,
            state.strict_pred@.len() == n_pred,
            state.relaxed_pred@.len() == n_pred,
            state.relaxed_pair@.len() == n_pred,
            state.strict_exp@.len() == n_exp,
            state.relaxed_exp@.len() == n_exp,
            pairs_view(state.relaxed_pair@.take(pi as int)) == keep_overlapping(
                preds,
                exps,
                strict_claims(preds, exps, pi as nat),
            ),
            forall|pj: int| pi <= pj < n_pred ==> state.relaxed_pair@[pj] is None,
            forall|pj: int|
                0 <= pj < pi ==> state.strict_pred@[pj] == (strict_claims(preds, exps, pi as nat)[pj] is Some),
            forall|pj: int| pi <= pj < n_pred ==> !state.strict_pred@[pj],
            forall|pj: int| 0 <= pj < n_pred ==> state.relaxed_pred@[pj] == (state.relaxed_pair@[pj] is Some),
            forall|e: int|
                0 <= e < n_exp ==> #[trigger] state.strict_exp@[e] == strict_claims(preds, exps, pi as nat).contains(
                    Some(e),
                ),
            forall|e: int|
                0 <= e < n_exp ==> #[trigger] state.relaxed_exp@[e] == keep_overlapping(
                    preds,
                    exps,
                    strict_claims(preds, exps, pi as nat),
                ).contains(Some(e)),
        decreases n_pred - pi,
    {
        let ghost claimed = strict_claims(preds, exps, pi as nat);
        let ghost kept = keep_overlapping(preds, exps, claimed);
        let ghost old_strict_exp = state.strict_exp@;
        let ghost old_relaxed_exp = state.relaxed_exp@;
        let ghost old_pair = state.relaxed_pair@;
        let ghost old_strict_pred = state.strict_pred@;
        let r = claim_first(true, &predicted[pi], expected, &state.strict_exp, Ghost(claimed));
        proof {
            lemma_first_claimable(true, preds[pi as int], exps, claimed, 0);
            lemma_strict_claims(preds, exps, pi as nat);
        }
        let mut overlap = false;
        match r {
            Some(ei) => {
                state.strict_pred.set(pi, true);
                state.strict_exp.set(ei, true);
                if is_relaxed(&predicted[pi], &expected[ei]) {
                    overlap = true;
                    state.relaxed_pred.set(pi, true);
                    state.relaxed_exp.set(ei, true);
                    state.relaxed_pair.set(pi, Some(ei));
                }
            },
            None => {},
        }
        proof {
            let next = strict_claims(preds, exps, (pi + 1) as nat);
            let w = if overlap {
                opt_int(r)
            } else {
                None
            };
            assert(next == claimed.push(opt_int(r)));
            assert(keep_overlapping(preds, exps, next) =~= kept.push(w));
            assert(pairs_view(state.relaxed_pair@.take(pi + 1)) =~= kept.push(w)) by {
                assert(state.relaxed_pair@.take(pi as int) =~= old_pair.take(pi as int));
            }
            assert forall|e: int| 0 <= e < n_exp implies #[trigger] state.strict_exp@[e] == next.contains(
                Some(e),
            ) by {
                lemma_push_contains(claimed, opt_int(r), Some(e));
                assert(old_strict_exp[e] == claimed.contains(Some(e)));
            }
            assert forall|e: int| 0 <= e < n_exp implies #[trigger] state.relaxed_exp@[e]
                == keep_overlapping(preds, exps, next).contains(Some(e)) by {
                lemma_push_contains(kept, w, Some(e));
                assert(old_relaxed_exp[e] == kept.contains(Some(e)));
            }
            assert forall|pj: int| 0 <= pj < pi + 1 implies state.strict_pred@[pj] == (next[pj] is Some) by {
                if pj < pi {
                    assert(next[pj] == claimed[pj]);
                    assert(old_strict_pred[pj] == (claimed[pj] is Some));
                }
            }
        }
        pi = pi + 1;
    }
    let ghost sp = strict_pairing(preds, exps);
    let ghost kp = kept_pairing(preds, exps);
    proof {
        lemma_strict_claims(preds, exps, n_pred as nat);
        lemma_kept_pairing(preds, exps);
        assert(state.relaxed_pair@.take(n_pred as int) =~= state.relaxed_pair@);
        assert(pairs_view(state.relaxed_pair@.take(0)) =~= relaxed_claims(preds, exps, 0));
        assert forall|e: int| 0 <= e < n_exp implies #[trigger] state.relaxed_exp@[e] == (kp
            + relaxed_claims(preds, exps, 0)).contains(Some(e)) by {
            assert(kp + relaxed_claims(preds, exps, 0) =~= kp);
        }
        assert forall|pj: int| 0 <= pj < n_pred implies opt_int(#[trigger] state.relaxed_pair@[pj])
            == kp[pj] by {
            assert(pairs_view(state.relaxed_pair@)[pj] == opt_int(state.relaxed_pair@[pj]));
        }
    }
    // Overlaps, among the entities and predictions that no kept exact match
    // took.
    pi = 0;
    while pi < n_pred
        invariant
            preds == predicted@,
            exps == expected@,
            n_pred == preds.len(),
            n_exp == exps.len(),
            sp == strict_pairing(preds, exps),
            kp == kept_pairing(preds, exps),
            sp.len() == n_pred,
            kp.len() == n_pred,
            pi <= n_pred,
            state.strict_pred@.len() == n_pred,
            state.relaxed_pred@.len() == n_pred,
            state.relaxed_pair@.len() == n_pred,
            state.strict_exp@.len() == n_exp,
            state.relaxed_exp@.len() == n_exp,
            pairs_view(state.relaxed_pair@.take(pi as int)) == relaxed_claims(preds, exps, pi as nat),
            forall|pj: int| pi <= pj < n_pred ==> opt_int(#[trigger] state.relaxed_pair@[pj]) == kp[pj],
            forall|pj: int| 0 <= pj < n_pred ==> state.relaxed_pred@[pj] == (state.relaxed_pair@[pj] is Some),
            forall|pj: int| 0 <= pj < n_pred ==> state.strict_pred@[pj] == (sp[pj] is Some),
            forall|e: int| 0 <= e < n_exp ==> #[trigger] state.strict_exp@[e] == sp.contains(Some(e)),
            forall|e: int|
                0 <= e < n_exp ==> #[trigger] state.relaxed_exp@[e] == (kp + relaxed_claims(
                    preds,
                    exps,
                    pi as nat,
                )).contains(Some(e)),
        decreases n_pred - pi,
    {
        let ghost prev = relaxed_claims(preds, exps, pi as nat);
        let ghost old_pair = state.relaxed_pair@;
        let ghost taken = kp + prev;
        let ghost old_exp = state.relaxed_exp@;
        proof {
            lemma_first_claimable(false, preds[pi as int], exps, taken, 0);
        }
        let mut r: Option<usize> = None;
        if state.relaxed_pair[pi].is_none() {
            r = claim_first(false, &predicted[pi], expected, &state.relaxed_exp, Ghost(taken));
            match r {
                Some(ei) => {
                    state.relaxed_pred.set(pi, true);
                    state.relaxed_exp.set(ei, true);
                    state.relaxed_pair.set(pi, Some(ei));
                },
                None => {},
            }
        }
        proof {
            lemma_relaxed_claims(preds, exps, pi as nat);
            let next = relaxed_claims(preds, exps, (pi + 1) as nat);
            let v = opt_int(state.relaxed_pair@[pi as int]);
            assert(next == prev.push(v));
            assert(pairs_view(state.relaxed_pair@.take(pi + 1)) =~= next) by {
                assert(state.relaxed_pair@.take(pi as int) =~= old_pair.take(pi as int));
            }
            assert(kp + next =~= (kp + prev).push(v));
            assert forall|e: int| 0 <= e < n_exp implies #[trigger] state.relaxed_exp@[e] == (kp
                + next).contains(Some(e)) by {
                lemma_push_contains(kp + prev, v, Some(e));
                lemma_concat_contains(kp, prev, Some(e));
                assert(old_exp[e] == (kp + prev).contains(Some(e)));
                if v is Some && old_pair[pi as int] is Some {
                    assert(v == kp[pi as int]);
                    assert(kp.contains(v));
                }
            }
        }
        pi = pi + 1;
    }
    proof {
        let rp = pairing(preds, exps);
        lemma_pairings(preds, exps);
        lemma_relaxed_claims(preds, exps, n_pred as nat);
        assert(state.relaxed_pair@.take(n_pred as int) =~= state.relaxed_pair@);
        assert forall|e: int| 0 <= e < n_exp implies #[trigger] state.relaxed_exp@[e] == rp.contains(
            Some(e),
        ) by {
            lemma_concat_contains(kp, rp, Some(e));
            if kp.contains(Some(e)) {
                let i = choose|i: int| 0 <= i < kp.len() && kp[i] == Some(e);
                assert(rp[i] == kp[i]);
            }
        }
        let f = state_flags(state);
        assert forall|pi2: int| 0 <= pi2 < n_pred implies #[trigger] f.relaxed_pred[pi2]
            == pred_relaxed_hit(preds, exps, pi2) by {
            assert(pairs_view(state.relaxed_pair@)[pi2] == opt_int(state.relaxed_pair@[pi2]));
        }
        assert forall|i: int|
            0 <= i < n_pred && #[trigger] f.relaxed_pred[i] && !f.strict_pred[i] implies (f.relaxed_pair[i] matches Some(
            x,
        ) && 0 <= x < n_exp) by {
            assert(f.relaxed_pair[i] == rp[i]);
        }
    }
    state
}

/// The counts of entities of type `filter` (all entities for `None`), read
/// off the flags of the matching state.
fn counts_from_state(
    state: &MatchState,
    predicted: &[PredictedSpan],
    expected: &[ExpectedEntity],
    filter: Option<&str>,
) -> (c: SampleCounts)
    requires
        flags_sized(state_flags(*state), predicted@.len(), expected@.len()),
    ensures
        c == flag_counts(state_flags(*state), predicted@, expected@, opt_str_view(filter)),
{
    let ghost preds = predicted@;
    let ghost exps = expected@;
    let ghost ft = opt_str_view(filter);
    let ghost f = state_flags(*state);
    let tp_strict = count_expected(&state.strict_exp, true, expected, filter);
    let fp_strict = count_predicted(&state.strict_pred, false, predicted, filter);
    let fn_strict = count_expected(&state.strict_exp, false, expected, filter);
    let tp_relaxed = count_expected(&state.relaxed_exp, true, expected, filter);
    let fp_relaxed = count_predicted(&state.relaxed_pred, false, predicted, filter);
    let fn_relaxed = count_expected(&state.relaxed_exp, false, expected, filter);
    proof {
        lemma_count_where_ext(
            exps.len(),
            |i: int| state.strict_exp@[i] == true && of_type(ft, exps[i].entity_type@),
            |i: int| f.strict_exp[i] && of_type(ft, exps[i].entity_type@),
        );
        lemma_count_where_ext(
            preds.len(),
            |i: int| state.strict_pred@[i] == false && of_type(ft, preds[i].entity_type@),
            |i: int| !f.strict_pred[i] && of_type(ft, preds[i].entity_type@),
        );
        lemma_count_where_ext(
            exps.len(),
            |i: int| state.strict_exp@[i] == false && of_type(ft, exps[i].entity_type@),
            |i: int| !f.strict_exp[i] && of_type(ft, exps[i].entity_type@),
        );
        lemma_count_where_ext(
            exps.len(),
            |i: int| state.relaxed_exp@[i] == true && of_type(ft, exps[i].entity_type@),
            |i: int| f.relaxed_exp[i] && of_type(ft, exps[i].entity_type@),
        );
        lemma_count_where_ext(
            preds.len(),
            |i: int| state.relaxed_pred@[i] == false && of_type(ft, preds[i].entity_type@),
            |i: int| !f.relaxed_pred[i] && of_type(ft, preds[i].entity_type@),
        );
        lemma_count_where_ext(
            exps.len(),
            |i: int| state.relaxed_exp@[i] == false && of_type(ft, exps[i].entity_type@),
            |i: int| !f.relaxed_exp[i] && of_type(ft, exps[i].entity_type@),
        );
    }
    SampleCounts { tp_strict, fp_strict, fn_strict, tp_relaxed, fp_relaxed, fn_relaxed }
}

/// The counts of all entities, read off the flags of the matching state.
fn global_counts(state: &MatchState, predicted: &[PredictedSpan], expected: &[ExpectedEntity]) -> (c:
    SampleCounts)
    requires
        flags_sized(state_flags(*state), predicted@.len(), expected@.len()),
    ensures
        c == flag_counts(state_flags(*state), predicted@, expected@, None),
{
    counts_from_state(state, predicted, expected, None)
}

/// The counts of each entity type that occurs in the sample, read off the
/// flags of the matching state.
fn per_type_counts_map(
    predicted: &[PredictedSpan],
    expected: &[ExpectedEntity],
    state: &MatchState,
) -> (m: CountsMap)
    requires
        flags_sized(state_flags(*state), predicted@.len(), expected@.len()),
    ensures
        m@ == flag_type_view(state_flags(*state), predicted@, expected@),
        forall|ts: Seq<Seq<char>>, k: int|
            lists_types_once(ts, predicted@, expected@) && 0 <= k < 6 ==> #[trigger] field_total(m@, ts, k)
                == count_field(flag_counts(state_flags(*state), predicted@, expected@, None), k),
{
    let ghost preds = predicted@;
    let ghost exps = expected@;
    let ghost f = state_flags(*state);
    let mut m = CountsMap::new();
    let mut i: usize = 0;
    while i < predicted.len()
        invariant
            preds == predicted@,
            exps == expected@,
            f == state_flags(*state),
            flags_sized(f, preds.len(), exps.len()),
            i <= preds.len(),
            forall|t: Seq<char>| #[trigger] m@.contains_key(t) <==> pred_has_type(preds, i as int, t),
            forall|t: Seq<char>| #[trigger] m@.contains_key(t) ==> m@[t] == flag_counts(f, preds, exps, Some(t)),
        decreases preds.len() - i,
    {
        let etype = &predicted[i].entity_type;
        let ghost old_m = m@;
        assert(forall|t: Seq<char>| old_m.contains_key(t) <==> pred_has_type(preds, i as int, t));
        if m.get(etype.as_str()).is_none() {
            let c = type_counts(etype.as_str(), predicted, expected, state);
            m.insert(etype.clone(), c);
        }
        proof {
            assert(m@.contains_key(preds[i as int].entity_type@));
            assert forall|t: Seq<char>| m@.contains_key(t) <==> pred_has_type(preds, i + 1, t) by {
                if pred_has_type(preds, i + 1, t) {
                    let k = choose|k: int| 0 <= k < i + 1 && #[trigger] preds[k].entity_type@ == t;
                    if k < i {
                        assert(pred_has_type(preds, i as int, t));
                    }
                }
                if m@.contains_key(t) {
                    if t == preds[i as int].entity_type@ {
                        assert(preds[i as int].entity_type@ == t);
                    } else {
                        assert(old_m.contains_key(t));
                        assert(pred_has_type(preds, i as int, t));
                        let k = choose|k: int| 0 <= k < i && #[trigger] preds[k].entity_type@ == t;
                        assert(preds[k].entity_type@ == t);
                    }
                }
            }
        }
        i = i + 1;
    }
    let mut j: usize = 0;
    while j < expected.len()
        invariant
            preds == predicted@,
            exps == expected@,
            f == state_flags(*state),
            flags_sized(f, preds.len(), exps.len()),
            j <= exps.len(),
            forall|t: Seq<char>|
                #[trigger] m@.contains_key(t) <==> (pred_has_type(preds, preds.len() as int, t) || exp_has_type(
                    exps,
                    j as int,
                    t,
                )),
            forall|t: Seq<char>| #[trigger] m@.contains_key(t) ==> m@[t] == flag_counts(f, preds, exps, Some(t)),
        decreases exps.len() - j,
    {
        let etype = &expected[j].entity_type;
        let ghost old_m = m@;
        if m.get(etype.as_str()).is_none() {
            let c = type_counts(etype.as_str(), predicted, expected, state);
            m.insert(etype.clone(), c);
        }
        proof {
            assert(m@.contains_key(exps[j as int].entity_type@));
            assert forall|t: Seq<char>|
                m@.contains_key(t) <==> (pred_has_type(preds, preds.len() as int, t) || exp_has_type(
                    exps,
                    j + 1,
                    t,
                )) by {
                if exp_has_type(exps, j + 1, t) {
                    let k = choose|k: int| 0 <= k < j + 1 && #[trigger] exps[k].entity_type@ == t;
                    if k < j {
                        assert(exp_has_type(exps, j as int, t));
                    }
                }
                if m@.contains_key(t) {
                    if t == exps[j as int].entity_type@ {
                        assert(exps[j as int].entity_type@ == t);
                    } else {
                        assert(old_m.contains_key(t));
                        if exp_has_type(exps, j as int, t) {
                            let k = choose|k: int| 0 <= k < j && #[trigger] exps[k].entity_type@ == t;
                            assert(exps[k].entity_type@ == t);
                        }
                    }
                }
            }
        }
        j = j + 1;
    }
    proof {
        assert forall|t: Seq<char>| m@.contains_key(t) <==> flag_type_view(f, preds, exps).contains_key(t) by {
            assert(sample_types(preds, exps).contains(t) == (pred_has_type(preds, preds.len() as int, t)
                || exp_has_type(exps, exps.len() as int, t)));
        }
        assert(m@ =~= flag_type_view(f, preds, exps));
        assert(preds.len() == predicted.len() && exps.len() == expected.len());
        assert forall|ts: Seq<Seq<char>>, k: int|
            lists_types_once(ts, preds, exps) && 0 <= k < 6 implies #[trigger] field_total(m@, ts, k)
                == count_field(flag_counts(f, preds, exps, None), k) by {
            law_flag_type_counts_sum_to_global(f, preds, exps, ts, k);
        }
    }
    m
}

/// The span `(entity_type, start, end)` with the characters it covers in
/// `source`.
fn span_with_text(entity_type: &String, start: usize, end: usize, source: &str) -> (s: SpanWithText)
    ensures
        span_text_is(s, entity_type@, start, end, source@),
{
    let n = source.unicode_len();
    let a = if start < n {
        start
    } else {
        n
    };
    let b = if end < n {
        end
    } else {
        n
    };
    let text = if a <= b {
        source.substring_char(a, b).to_string()
    } else {
        String::new()
    };
    SpanWithText { entity_type: entity_type.clone(), start, end, text }
}

/// The error report of a sample, read off the flags of the matching state:
/// the near misses, false positives and false negatives in index order, the
/// severity and kinds following from them and from the false-negative count
/// in `counts`; `None` when there is none of the three.
fn build_error(
    sample_id: &str,
    source_text: &str,
    predicted: &[PredictedSpan],
    expected: &[ExpectedEntity],
    state: &MatchState,
    counts: &SampleCounts,
) -> (r: Option<TestError>)
    requires
        flags_sized(state_flags(*state), predicted@.len(), expected@.len()),
        flags_pairs_valid(state_flags(*state), predicted@.len(), expected@.len()),
    ensures
        r is None <==> !flag_has_error(state_flags(*state), predicted@.len(), counts.fn_relaxed as nat),
        r matches Some(err) ==> flag_error_is(
            err,
            sample_id@,
            predicted@,
            expected@,
            source_text@,
            state_flags(*state),
            counts.fn_relaxed as nat,
        ),
{
    let ghost preds = predicted@;
    let ghost exps = expected@;
    let ghost f = state_flags(*state);
    let ghost pairs = f.relaxed_pair;
    let ghost fnm = |i: int| f.relaxed_pred[i] && !f.strict_pred[i];
    let ghost ffp = |i: int| !f.relaxed_pred[i];
    let ghost ffn = |i: int| !f.relaxed_exp[i];
    let mut near_misses: Vec<NearMiss> = Vec::new();
    let mut false_positives: Vec<SpanWithText> = Vec::new();
    let mut i: usize = 0;
    while i < predicted.len()
        invariant
            preds == predicted@,
            exps == expected@,
            f == state_flags(*state),
            pairs == f.relaxed_pair,
            flags_sized(f, preds.len(), exps.len()),
            flags_pairs_valid(f, preds.len(), exps.len()),
            i <= preds.len(),
            fnm == (|i: int| f.relaxed_pred[i] && !f.strict_pred[i]),
            ffp == (|i: int| !f.relaxed_pred[i]),
            near_misses@.len() == indices_where(i as nat, fnm).len(),
            forall|j: int|
                0 <= j < near_misses@.len() ==> near_miss_is(
                    #[trigger] near_misses@[j],
                    preds[indices_where(i as nat, fnm)[j]],
                    exps[pairs[indices_where(i as nat, fnm)[j]]->0],
                    source_text@,
                ),
            false_positives@.len() == indices_where(i as nat, ffp).len(),
            forall|j: int|
                0 <= j < false_positives@.len() ==> span_text_is(
                    #[trigger] false_positives@[j],
                    preds[indices_where(i as nat, ffp)[j]].entity_type@,
                    preds[indices_where(i as nat, ffp)[j]].start,
                    preds[indices_where(i as nat, ffp)[j]].end,
                    source_text@,
                ),
        decreases preds.len() - i,
    {
        let pred = &predicted[i];
        if state.relaxed_pred[i] && !state.strict_pred[i] {
            assert(f.relaxed_pred[i as int] && !f.strict_pred[i as int]);
            assert(pairs[i as int] == opt_int(state.relaxed_pair@[i as int]));
            let ei = state.relaxed_pair[i].unwrap();
            let exp = &expected[ei];
            let nm = NearMiss {
                obtained: span_with_text(&pred.entity_type, pred.start, pred.end, source_text),
                expected: span_with_text(&exp.entity_type, exp.start, exp.end, source_text),
            };
            near_misses.push(nm);
        }
        if !state.relaxed_pred[i] {
            false_positives.push(span_with_text(&pred.entity_type, pred.start, pred.end, source_text));
        }
        i = i + 1;
    }
    let mut false_negatives: Vec<SpanWithText> = Vec::new();
    let mut k: usize = 0;
    while k < expected.len()
        invariant
            preds == predicted@,
            exps == expected@,
            f == state_flags(*state),
            flags_sized(f, preds.len(), exps.len()),
            k <= exps.len(),
            ffn == (|i: int| !f.relaxed_exp[i]),
            false_negatives@.len() == indices_where(k as nat, ffn).len(),
            forall|j: int|
                0 <= j < false_negatives@.len() ==> span_text_is(
                    #[trigger] false_negatives@[j],
                    exps[indices_where(k as nat, ffn)[j]].entity_type@,
                    exps[indices_where(k as nat, ffn)[j]].start,
                    exps[indices_where(k as nat, ffn)[j]].end,
                    source_text@,
                ),
        decreases exps.len() - k,
    {
        if !state.relaxed_exp[k] {
            let exp = &expected[k];
            false_negatives.push(span_with_text(&exp.entity_type, exp.start, exp.end, source_text));
        }
        k = k + 1;
    }
    proof {
        assert(flag_near_misses(f, preds.len()) == indices_where(preds.len(), fnm));
        assert(flag_false_positives(f, preds.len()) == indices_where(preds.len(), ffp));
        assert(flag_false_negatives(f, exps.len()) == indices_where(exps.len(), ffn));
    }
    let has_fn = counts.fn_relaxed > 0;
    let has_nm = near_misses.len() > 0;
    let has_fp = false_positives.len() > 0;

    if !has_fn && !has_nm && !has_fp {
        return None;
    }
    let severity = if has_fn {
        ErrorSeverity::High
    } else if has_nm {
        ErrorSeverity::Medium
    } else {
        ErrorSeverity::Low
    };

    let mut kinds: Vec<ErrorKind> = Vec::new();
    if has_nm {
        kinds.push(ErrorKind::NearMiss);
    }
    if has_fp {
        kinds.push(ErrorKind::FalsePositive);
    }
    if has_fn {
        kinds.push(ErrorKind::FalseNegative);
    }
    assert(kinds@ =~= spec_kinds(has_nm, has_fp, has_fn));
    Some(
        TestError {
            sample_id: sample_id.to_string(),
            severity,
            kinds,
            near_misses,
            false_positives,
            false_negatives,
        },
    )
}

/// The counts of the entities of type `etype`, read off the flags of the
/// matching state.
fn type_counts(
    etype: &str,
    predicted: &[PredictedSpan],
    expected: &[ExpectedEntity],
    state: &MatchState,
) -> (c: SampleCounts)
    requires
        flags_sized(state_flags(*state), predicted@.len(), expected@.len()),
    ensures
        c == flag_counts(state_flags(*state), predicted@, expected@, Some(etype@)),
{
    counts_from_state(state, predicted, expected, Some(etype))
}

// ── Laws ─────────────────────────────────────────────────────────────────────

/// Changing a predicate at one index where it was false changes the count by
/// the new value there.
pub proof fn lemma_count_where_raise_one(n: nat, f: spec_fn(int) -> bool, g: spec_fn(int) -> bool, e: int)
    requires
        0 <= e < n,
        !f(e),
        forall|i: int| 0 <= i < n && i != e ==> #[trigger] f(i) == g(i),
    ensures
        count_where(n, g) == count_where(n, f) + if g(e) {
            1nat
        } else {
            0nat
        },
    decreases n,
{
    if n - 1 == e {
        lemma_count_where_ext((n - 1) as nat, f, g);
    } else {
        lemma_count_where_raise_one((n - 1) as nat, f, g, e);
    }
}

/// Matching is one to one: no two predictions claim the same expected
/// entity, under either rule.
pub proof fn law_claims_one_to_one(preds: Seq<PredictedSpan>, exps: Seq<ExpectedEntity>)
    ensures
        forall|i: int, j: int|
            0 <= i < j < preds.len() && (#[trigger] strict_pairing(preds, exps)[i]) is Some
                ==> strict_pairing(preds, exps)[i] != #[trigger] strict_pairing(preds, exps)[j],
        forall|i: int, j: int|
            0 <= i < j < preds.len() && (#[trigger] pairing(preds, exps)[i]) is Some
                ==> pairing(preds, exps)[i] != #[trigger] pairing(preds, exps)[j],
{
    lemma_pairings(preds, exps);
}

/// Every expected entity (of the type `filter` names, or of any type) is
/// either a true positive or a false negative, under both rules.
pub proof fn law_expected_entities_split(
    preds: Seq<PredictedSpan>,
    exps: Seq<ExpectedEntity>,
    filter: Option<Seq<char>>,
)
    requires
        exps.len() <= usize::MAX,
        preds.len() <= usize::MAX,
    ensures
        spec_counts(preds, exps, filter).tp_strict + spec_counts(preds, exps, filter).fn_strict
            == count_where(exps.len(), |i: int| of_type(filter, exps[i].entity_type@)),
        spec_counts(preds, exps, filter).tp_relaxed + spec_counts(preds, exps, filter).fn_relaxed
            == count_where(exps.len(), |i: int| of_type(filter, exps[i].entity_type@)),
        filter is None ==> spec_counts(preds, exps, filter).tp_relaxed + spec_counts(
            preds,
            exps,
            filter,
        ).fn_relaxed == exps.len(),
{
    let ty = |i: int| of_type(filter, exps[i].entity_type@);
    let fs = |i: int| exp_strict_hit(preds, exps, i);
    let fr = |i: int| exp_relaxed_hit(preds, exps, i);
    lemma_split_by(exps.len(), fs, ty);
    lemma_split_by(exps.len(), fr, ty);
    lemma_count_where_ext(
        exps.len(),
        |i: int| fs(i) && ty(i),
        |i: int| exp_strict_hit(preds, exps, i) && of_type(filter, exps[i].entity_type@),
    );
    lemma_count_where_ext(
        exps.len(),
        |i: int| !fs(i) && ty(i),
        |i: int| !exp_strict_hit(preds, exps, i) && of_type(filter, exps[i].entity_type@),
    );
    lemma_count_where_ext(
        exps.len(),
        |i: int| fr(i) && ty(i),
        |i: int| exp_relaxed_hit(preds, exps, i) && of_type(filter, exps[i].entity_type@),
    );
    lemma_count_where_ext(
        exps.len(),
        |i: int| !fr(i) && ty(i),
        |i: int| !exp_relaxed_hit(preds, exps, i) && of_type(filter, exps[i].entity_type@),
    );
    lemma_count_where_le(exps.len(), |i: int| fs(i) && ty(i));
    lemma_count_where_le(exps.len(), |i: int| !fs(i) && ty(i));
    lemma_count_where_le(exps.len(), |i: int| fr(i) && ty(i));
    lemma_count_where_le(exps.len(), |i: int| !fr(i) && ty(i));
    lemma_count_where_ext(exps.len(), ty, |i: int| of_type(filter, exps[i].entity_type@));
    if filter is None {
        lemma_count_where_all(exps.len(), ty);
    }
}

/// Splitting the indices that satisfy `ty` by whether `f` holds.
pub proof fn lemma_split_by(n: nat, f: spec_fn(int) -> bool, ty: spec_fn(int) -> bool)
    ensures
        count_where(n, |i: int| f(i) && ty(i)) + count_where(n, |i: int| !f(i) && ty(i))
            == count_where(n, ty),
    decreases n,
{
    if n > 0 {
        lemma_split_by((n - 1) as nat, f, ty);
    }
}

pub proof fn lemma_count_where_all(n: nat, f: spec_fn(int) -> bool)
    requires
        forall|i: int| 0 <= i < n ==> #[trigger] f(i),
    ensures
        count_where(n, f) == n,
    decreases n,
{
    if n > 0 {
        lemma_count_where_all((n - 1) as nat, f);
    }
}

pub proof fn lemma_count_where_none(n: nat, f: spec_fn(int) -> bool)
    requires
        forall|i: int| 0 <= i < n ==> !#[trigger] f(i),
    ensures
        count_where(n, f) == 0,
    decreases n,
{
    if n > 0 {
        lemma_count_where_none((n - 1) as nat, f);
    }
}

/// Matching is one to one: under either rule, the true positives and the
/// false positives of a type (or of all types) add up to the number of
/// predictions of that type.
pub proof fn law_matching_one_to_one(
    preds: Seq<PredictedSpan>,
    exps: Seq<ExpectedEntity>,
    filter: Option<Seq<char>>,
)
    requires
        exps.len() <= usize::MAX,
        preds.len() <= usize::MAX,
    ensures
        spec_counts(preds, exps, filter).tp_strict + spec_counts(preds, exps, filter).fp_strict
            == count_where(preds.len(), |i: int| of_type(filter, preds[i].entity_type@)),
        spec_counts(preds, exps, filter).tp_relaxed + spec_counts(preds, exps, filter).fp_relaxed
            == count_where(preds.len(), |i: int| of_type(filter, preds[i].entity_type@)),
        filter is None ==> spec_counts(preds, exps, filter).tp_strict + spec_counts(
            preds,
            exps,
            filter,
        ).fp_strict == preds.len(),
        filter is None ==> spec_counts(preds, exps, filter).tp_relaxed + spec_counts(
            preds,
            exps,
            filter,
        ).fp_relaxed == preds.len(),
{
    let sp = strict_pairing(preds, exps);
    let rp = pairing(preds, exps);
    let pty = |i: int| of_type(filter, preds[i].entity_type@);
    let fs = |i: int| pred_strict_hit(preds, exps, i);
    let fr = |i: int| pred_relaxed_hit(preds, exps, i);
    lemma_pairings(preds, exps);
    lemma_claims_count(preds, exps, sp, filter);
    lemma_claims_count(preds, exps, rp, filter);
    lemma_count_where_ext(
        exps.len(),
        |ei: int| sp.contains(Some(ei)) && of_type(filter, exps[ei].entity_type@),
        |i: int| exp_strict_hit(preds, exps, i) && of_type(filter, exps[i].entity_type@),
    );
    lemma_count_where_ext(
        exps.len(),
        |ei: int| rp.contains(Some(ei)) && of_type(filter, exps[ei].entity_type@),
        |i: int| exp_relaxed_hit(preds, exps, i) && of_type(filter, exps[i].entity_type@),
    );
    lemma_count_where_ext(
        preds.len(),
        |pi: int| sp[pi] is Some && of_type(filter, preds[pi].entity_type@),
        |i: int| fs(i) && pty(i),
    );
    lemma_count_where_ext(
        preds.len(),
        |pi: int| rp[pi] is Some && of_type(filter, preds[pi].entity_type@),
        |i: int| fr(i) && pty(i),
    );
    lemma_count_where_ext(
        preds.len(),
        |i: int| !fs(i) && pty(i),
        |i: int| !pred_strict_hit(preds, exps, i) && of_type(filter, preds[i].entity_type@),
    );
    lemma_count_where_ext(
        preds.len(),
        |i: int| !fr(i) && pty(i),
        |i: int| !pred_relaxed_hit(preds, exps, i) && of_type(filter, preds[i].entity_type@),
    );
    lemma_split_by(preds.len(), fs, pty);
    lemma_split_by(preds.len(), fr, pty);
    lemma_count_where_le(
        exps.len(),
        |i: int| exp_strict_hit(preds, exps, i) && of_type(filter, exps[i].entity_type@),
    );
    lemma_count_where_le(
        exps.len(),
        |i: int| exp_relaxed_hit(preds, exps, i) && of_type(filter, exps[i].entity_type@),
    );
    lemma_count_where_le(preds.len(), |i: int| !fs(i) && pty(i));
    lemma_count_where_le(preds.len(), |i: int| !fr(i) && pty(i));
    lemma_count_where_ext(preds.len(), pty, |i: int| of_type(filter, preds[i].entity_type@));
    if filter is None {
        lemma_count_where_all(preds.len(), pty);
    }
}

/// Every span is non-empty: it covers at least one character.
pub open spec fn spans_non_empty(preds: Seq<PredictedSpan>, exps: Seq<ExpectedEntity>) -> bool {
    &&& forall|i: int| 0 <= i < preds.len() ==> #[trigger] preds[i].start < preds[i].end
    &&& forall|i: int| 0 <= i < exps.len() ==> #[trigger] exps[i].start < exps[i].end
}

/// Every relaxed pair overlaps: a prediction and the entity it claimed under
/// the relaxed rule have the same type and share at least one character.
pub proof fn law_relaxed_pairs_overlap(preds: Seq<PredictedSpan>, exps: Seq<ExpectedEntity>)
    ensures
        forall|pi: int|
            0 <= pi < preds.len() && (#[trigger] pairing(preds, exps)[pi]) is Some ==> {
                &&& 0 <= pairing(preds, exps)[pi]->0 < exps.len()
                &&& relaxed_match(preds[pi], exps[pairing(preds, exps)[pi]->0])
            },
{
    lemma_pairings(preds, exps);
}

/// An exact match of non-empty spans is also a relaxed hit: such an exactly
/// predicted entity is never a relaxed false negative and such an exact
/// prediction never a relaxed false positive. So where no span is empty the
/// relaxed rule counts at least as many true positives and at most as many
/// false positives and false negatives.
pub proof fn law_exact_matches_are_relaxed_hits(
    preds: Seq<PredictedSpan>,
    exps: Seq<ExpectedEntity>,
    filter: Option<Seq<char>>,
)
    requires
        exps.len() <= usize::MAX,
        preds.len() <= usize::MAX,
    ensures
        forall|pi: int|
            0 <= pi < preds.len() && #[trigger] pred_strict_hit(preds, exps, pi) && preds[pi].start
                < preds[pi].end ==> pred_relaxed_hit(preds, exps, pi),
        forall|ei: int|
            0 <= ei < exps.len() && #[trigger] exp_strict_hit(preds, exps, ei) && exps[ei].start
                < exps[ei].end ==> exp_relaxed_hit(preds, exps, ei),
        spans_non_empty(preds, exps) ==> spec_counts(preds, exps, filter).tp_strict <= spec_counts(
            preds,
            exps,
            filter,
        ).tp_relaxed,
        spans_non_empty(preds, exps) ==> spec_counts(preds, exps, filter).fp_relaxed <= spec_counts(
            preds,
            exps,
            filter,
        ).fp_strict,
        spans_non_empty(preds, exps) ==> spec_counts(preds, exps, filter).fn_relaxed <= spec_counts(
            preds,
            exps,
            filter,
        ).fn_strict,
{
    lemma_pairings(preds, exps);
    assert forall|pi: int|
        0 <= pi < preds.len() && #[trigger] pred_strict_hit(preds, exps, pi) && preds[pi].start
            < preds[pi].end implies pred_relaxed_hit(preds, exps, pi) by {
        assert(pairing(preds, exps)[pi] == strict_pairing(preds, exps)[pi]);
    }
    if spans_non_empty(preds, exps) {
        assert forall|pi: int| 0 <= pi < preds.len() && #[trigger] pred_strict_hit(preds, exps, pi) implies pred_relaxed_hit(
            preds,
            exps,
            pi,
        ) by {
            assert(preds[pi].start < preds[pi].end);
        }
        assert forall|ei: int| 0 <= ei < exps.len() && #[trigger] exp_strict_hit(preds, exps, ei) implies exp_relaxed_hit(
            preds,
            exps,
            ei,
        ) by {
            assert(exps[ei].start < exps[ei].end);
        }
        lemma_count_where_mono(
            exps.len(),
            |i: int| exp_strict_hit(preds, exps, i) && of_type(filter, exps[i].entity_type@),
            |i: int| exp_relaxed_hit(preds, exps, i) && of_type(filter, exps[i].entity_type@),
        );
        lemma_count_where_mono(
            preds.len(),
            |i: int| !pred_relaxed_hit(preds, exps, i) && of_type(filter, preds[i].entity_type@),
            |i: int| !pred_strict_hit(preds, exps, i) && of_type(filter, preds[i].entity_type@),
        );
        lemma_count_where_mono(
            exps.len(),
            |i: int| !exp_relaxed_hit(preds, exps, i) && of_type(filter, exps[i].entity_type@),
            |i: int| !exp_strict_hit(preds, exps, i) && of_type(filter, exps[i].entity_type@),
        );
        lemma_count_where_le(
            exps.len(),
            |i: int| exp_strict_hit(preds, exps, i) && of_type(filter, exps[i].entity_type@),
        );
        lemma_count_where_le(
            exps.len(),
            |i: int| exp_relaxed_hit(preds, exps, i) && of_type(filter, exps[i].entity_type@),
        );
        lemma_count_where_le(
            preds.len(),
            |i: int| !pred_relaxed_hit(preds, exps, i) && of_type(filter, preds[i].entity_type@),
        );
        lemma_count_where_le(
            preds.len(),
            |i: int| !pred_strict_hit(preds, exps, i) && of_type(filter, preds[i].entity_type@),
        );
        lemma_count_where_le(
            exps.len(),
            |i: int| !exp_relaxed_hit(preds, exps, i) && of_type(filter, exps[i].entity_type@),
        );
        lemma_count_where_le(
            exps.len(),
            |i: int| !exp_strict_hit(preds, exps, i) && of_type(filter, exps[i].entity_type@),
        );
    }
}

/// The lists of an error report hold as many entries as the counts say.
pub proof fn law_error_lists_match_counts(preds: Seq<PredictedSpan>, exps: Seq<ExpectedEntity>)
    requires
        exps.len() <= usize::MAX,
        preds.len() <= usize::MAX,
    ensures
        false_positive_indices(preds, exps).len() == spec_counts(preds, exps, None).fp_relaxed,
        false_negative_indices(preds, exps).len() == spec_counts(preds, exps, None).fn_relaxed,
{
    let ffp = |i: int| !pred_relaxed_hit(preds, exps, i);
    let ffn = |i: int| !exp_relaxed_hit(preds, exps, i);
    lemma_indices_where(preds.len(), ffp);
    lemma_indices_where(exps.len(), ffn);
    lemma_count_where_le(preds.len(), ffp);
    lemma_count_where_le(exps.len(), ffn);
    lemma_count_where_ext(
        preds.len(),
        ffp,
        |i: int| !pred_relaxed_hit(preds, exps, i) && of_type(None, preds[i].entity_type@),
    );
    lemma_count_where_ext(
        exps.len(),
        ffn,
        |i: int| !exp_relaxed_hit(preds, exps, i) && of_type(None, exps[i].entity_type@),
    );
}

/// The predictions repeat the expected entities one for one, each span
/// covering at least one character.
pub open spec fn perfect_prediction(preds: Seq<PredictedSpan>, exps: Seq<ExpectedEntity>) -> bool {
    &&& preds.len() == exps.len()
    &&& forall|i: int| 0 <= i < exps.len() ==> #[trigger] strict_match(preds[i], exps[i])
    &&& forall|i: int| 0 <= i < exps.len() ==> #[trigger] exps[i].start < exps[i].end
}

/// A prediction that repeats the expected entities has no error and scores
/// every entity as a true positive under both rules.
pub proof fn law_perfect_prediction_has_no_error(preds: Seq<PredictedSpan>, exps: Seq<ExpectedEntity>)
    requires
        perfect_prediction(preds, exps),
        exps.len() <= usize::MAX,
    ensures
        !sample_has_error(preds, exps),
        spec_counts(preds, exps, None) == (SampleCounts {
            tp_strict: exps.len() as usize,
            fp_strict: 0,
            fn_strict: 0,
            tp_relaxed: exps.len() as usize,
            fp_relaxed: 0,
            fn_relaxed: 0,
        }),
{
    lemma_perfect_claims(preds, exps, preds.len());
    lemma_kept_pairing(preds, exps);
    lemma_relaxed_claims(preds, exps, preds.len());
    let sp = strict_pairing(preds, exps);
    let kp = kept_pairing(preds, exps);
    let pairs = pairing(preds, exps);
    let n = exps.len();
    assert forall|i: int| 0 <= i < n implies #[trigger] pairs[i] == Some(i) by {
        assert(sp[i] == Some(i));
        assert(strict_match(preds[i], exps[i]));
        assert(exps[i].start < exps[i].end);
        assert(relaxed_match(preds[i], exps[i]));
        assert(kp[i] == sp[i]);
    }
    assert forall|i: int| 0 <= i < n implies #[trigger] exp_relaxed_hit(preds, exps, i) by {
        assert(pairs[i] == Some(i));
    }
    assert forall|i: int| 0 <= i < n implies #[trigger] pred_relaxed_hit(preds, exps, i) by {
        assert(pairs[i] == Some(i));
    }
    assert forall|i: int| 0 <= i < n implies #[trigger] exp_strict_hit(preds, exps, i) by {
        assert(sp[i] == Some(i));
    }
    assert forall|i: int| 0 <= i < n implies #[trigger] pred_strict_hit(preds, exps, i) by {
        assert(sp[i] == Some(i));
    }
    let fnm = |i: int| near_miss_at(preds, exps, i);
    let ffp = |i: int| !pred_relaxed_hit(preds, exps, i);
    let ffn = |i: int| !exp_relaxed_hit(preds, exps, i);
    lemma_count_where_none(n, fnm);
    lemma_count_where_none(n, ffp);
    lemma_count_where_none(n, ffn);
    lemma_indices_where(n, fnm);
    lemma_indices_where(n, ffp);
    lemma_indices_where(n, ffn);
    lemma_count_where_all(n, |i: int| exp_strict_hit(preds, exps, i) && of_type(None, exps[i].entity_type@));
    lemma_count_where_all(n, |i: int| exp_relaxed_hit(preds, exps, i) && of_type(None, exps[i].entity_type@));
    lemma_count_where_none(n, |i: int| !pred_strict_hit(preds, exps, i) && of_type(None, preds[i].entity_type@));
    lemma_count_where_none(n, |i: int| !exp_strict_hit(preds, exps, i) && of_type(None, exps[i].entity_type@));
    lemma_count_where_none(n, |i: int| !pred_relaxed_hit(preds, exps, i) && of_type(None, preds[i].entity_type@));
    lemma_count_where_none(n, |i: int| !exp_relaxed_hit(preds, exps, i) && of_type(None, exps[i].entity_type@));
}

/// Under a perfect prediction, prediction `i` claims expected entity `i`
/// exactly.
proof fn lemma_perfect_claims(preds: Seq<PredictedSpan>, exps: Seq<ExpectedEntity>, k: nat)
    requires
        perfect_prediction(preds, exps),
        k <= preds.len(),
    ensures
        strict_claims(preds, exps, k).len() == k,
        forall|i: int| 0 <= i < k ==> #[trigger] strict_claims(preds, exps, k)[i] == Some(i),
    decreases k,
{
    if k > 0 {
        let prev = strict_claims(preds, exps, (k - 1) as nat);
        lemma_perfect_claims(preds, exps, (k - 1) as nat);
        let e = k - 1;
        let p = preds[e];
        lemma_first_claimable(true, p, exps, prev, 0);
        assert(strict_match(preds[e], exps[e]));
        assert(!prev.contains(Some(e))) by {
            if prev.contains(Some(e)) {
                let j = choose|j: int| 0 <= j < prev.len() && prev[j] == Some(e);
                assert(prev[j] == Some(j));
            }
        }
        assert(claimable(true, p, exps, prev, e));
        assert forall|y: int| 0 <= y < e implies !#[trigger] claimable(true, p, exps, prev, y) by {
            assert(prev[y] == Some(y));
        }
        let x = first_claimable(true, p, exps, prev, 0);
        assert(x == Some(e));
    }
}

/// An entity type that no prediction carries is never matched: every
/// expected entity of that type is a false negative under both rules.
pub proof fn law_unpredicted_type_all_missed(
    preds: Seq<PredictedSpan>,
    exps: Seq<ExpectedEntity>,
    t: Seq<char>,
)
    requires
        exps.len() <= usize::MAX,
        preds.len() <= usize::MAX,
        !pred_has_type(preds, preds.len() as int, t),
    ensures
        spec_counts(preds, exps, Some(t)).tp_strict == 0,
        spec_counts(preds, exps, Some(t)).tp_relaxed == 0,
        spec_counts(preds, exps, Some(t)).fn_strict == count_where(
            exps.len(),
            |i: int| of_type(Some(t), exps[i].entity_type@),
        ),
        spec_counts(preds, exps, Some(t)).fn_relaxed == count_where(
            exps.len(),
            |i: int| of_type(Some(t), exps[i].entity_type@),
        ),
{
    let n = exps.len();
    let sp = strict_pairing(preds, exps);
    let pairs = pairing(preds, exps);
    lemma_pairings(preds, exps);
    assert forall|i: int| 0 <= i < n && of_type(Some(t), exps[i].entity_type@) implies !#[trigger] exp_strict_hit(
        preds,
        exps,
        i,
    ) by {
        if exp_strict_hit(preds, exps, i) {
            let pj = choose|pj: int| 0 <= pj < sp.len() && sp[pj] == Some(i);
            assert(sp[pj] is Some);
            assert(preds[pj].entity_type@ == t);
        }
    }
    assert forall|i: int| 0 <= i < n && of_type(Some(t), exps[i].entity_type@) implies !#[trigger] exp_relaxed_hit(
        preds,
        exps,
        i,
    ) by {
        if exp_relaxed_hit(preds, exps, i) {
            let pj = choose|pj: int| 0 <= pj < pairs.len() && pairs[pj] == Some(i);
            assert(pairs[pj] is Some);
            assert(preds[pj].entity_type@ == t);
        }
    }
    lemma_count_where_none(n, |i: int| exp_strict_hit(preds, exps, i) && of_type(Some(t), exps[i].entity_type@));
    lemma_count_where_none(n, |i: int| exp_relaxed_hit(preds, exps, i) && of_type(Some(t), exps[i].entity_type@));
    law_expected_entities_split(preds, exps, Some(t));
}

/// A near miss counts as a false positive under the strict rule and as a
/// true positive under the relaxed rule: the prediction claimed, under the
/// relaxed rule, an expected entity of its type that it overlaps but does
/// not equal. That entity is also a strict false negative unless it is an
/// empty span (an empty span that some prediction equals exactly, yet which
/// a longer prediction overlaps).
pub proof fn law_near_miss_scoring(preds: Seq<PredictedSpan>, exps: Seq<ExpectedEntity>, pi: int)
    requires
        0 <= pi < preds.len(),
        near_miss_at(preds, exps, pi),
    ensures
        !pred_strict_hit(preds, exps, pi),
        pred_relaxed_hit(preds, exps, pi),
        0 <= pairing(preds, exps)[pi]->0 < exps.len(),
        relaxed_match(preds[pi], exps[pairing(preds, exps)[pi]->0]),
        !strict_match(preds[pi], exps[pairing(preds, exps)[pi]->0]),
        preds[pi].start != exps[pairing(preds, exps)[pi]->0].start || preds[pi].end != exps[pairing(
            preds,
            exps,
        )[pi]->0].end,
        exp_relaxed_hit(preds, exps, pairing(preds, exps)[pi]->0),
        exps[pairing(preds, exps)[pi]->0].start < exps[pairing(preds, exps)[pi]->0].end ==> !exp_strict_hit(
            preds,
            exps,
            pairing(preds, exps)[pi]->0,
        ),
{
    let sp = strict_pairing(preds, exps);
    let kp = kept_pairing(preds, exps);
    let pairs = pairing(preds, exps);
    lemma_strict_claims(preds, exps, preds.len());
    lemma_kept_pairing(preds, exps);
    lemma_relaxed_claims(preds, exps, preds.len());
    let x = pairs[pi]->0;
    assert(kp[pi] is None);
    assert(pairs.contains(pairs[pi]));
    if strict_match(preds[pi], exps[x]) {
        // Equal and overlapping, so the span is not empty; whoever took it
        // exactly kept it.
        assert(exps[x].start < exps[x].end);
        assert(sp.contains(Some(x)));
        let q = choose|q: int| 0 <= q < sp.len() && sp[q] == Some(x);
        assert(sp[q] is Some);
        assert(relaxed_match(preds[q], exps[x]));
        assert(kp[q] == sp[q]);
        assert(kp.contains(Some(x)));
    }
    if exps[x].start < exps[x].end && exp_strict_hit(preds, exps, x) {
        let q = choose|q: int| 0 <= q < sp.len() && sp[q] == Some(x);
        assert(sp[q] is Some);
        assert(relaxed_match(preds[q], exps[x]));
        assert(kp[q] == sp[q]);
        assert(kp.contains(Some(x)));
    }
}

} // verus!
