use pii_eval::checker::{check, check_with_source};
use pii_eval::model::{ErrorKind, ErrorSeverity, ExpectedEntity, PredictedSpan};

fn pred(etype: &str, start: usize, end: usize) -> PredictedSpan {
    PredictedSpan { entity_type: etype.to_string(), start, end }
}

fn exp(etype: &str, start: usize, end: usize) -> ExpectedEntity {
    ExpectedEntity { entity_type: etype.to_string(), start, end }
}

#[test]
fn perfect_match_produces_no_error() {
    let result = check("t::1", &[pred("PERSON", 10, 20)], &[exp("PERSON", 10, 20)]);
    assert_eq!(result.counts.tp_strict, 1);
    assert_eq!(result.counts.fp_strict, 0);
    assert_eq!(result.counts.fn_strict, 0);
    assert!(result.error.is_none());
}

#[test]
fn empty_predicted_all_false_negatives() {
    let result = check("t::1", &[], &[exp("PERSON", 10, 20), exp("LOCATION", 30, 40)]);
    assert_eq!(result.counts.fn_relaxed, 2);
    assert_eq!(result.counts.tp_relaxed, 0);
    let err = result.error.unwrap();
    assert_eq!(err.severity, ErrorSeverity::High);
    assert!(err.kinds.contains(&ErrorKind::FalseNegative));
    assert_eq!(err.false_negatives.len(), 2);
}

#[test]
fn empty_expected_all_false_positives() {
    let result = check("t::1", &[pred("PERSON", 10, 20)], &[]);
    assert_eq!(result.counts.fp_relaxed, 1);
    let err = result.error.unwrap();
    assert_eq!(err.severity, ErrorSeverity::Low);
    assert!(err.kinds.contains(&ErrorKind::FalsePositive));
    assert_eq!(err.false_positives.len(), 1);
}

#[test]
fn overlapping_span_is_near_miss() {
    let result = check("t::1", &[pred("PERSON", 10, 21)], &[exp("PERSON", 10, 20)]);
    assert_eq!(result.counts.tp_strict, 0);
    assert_eq!(result.counts.tp_relaxed, 1);
    let err = result.error.unwrap();
    assert_eq!(err.severity, ErrorSeverity::Medium);
    assert!(err.kinds.contains(&ErrorKind::NearMiss));
    assert_eq!(err.near_misses.len(), 1);
    assert_eq!(err.near_misses[0].obtained.end, 21);
    assert_eq!(err.near_misses[0].expected.end, 20);
}

#[test]
fn same_span_wrong_type_is_fp_and_fn() {
    let result = check("t::1", &[pred("LOCATION", 10, 20)], &[exp("PERSON", 10, 20)]);
    assert_eq!(result.counts.fp_relaxed, 1);
    assert_eq!(result.counts.fn_relaxed, 1);
    let err = result.error.unwrap();
    // FN is present → High beats anything else
    assert_eq!(err.severity, ErrorSeverity::High);
}

#[test]
fn fn_severity_beats_near_miss() {
    // near miss on PERSON + completely missed LOCATION → High
    let result = check(
        "t::1",
        &[pred("PERSON", 10, 21)],
        &[exp("PERSON", 10, 20), exp("LOCATION", 50, 60)],
    );
    let err = result.error.unwrap();
    assert_eq!(err.severity, ErrorSeverity::High);
    assert!(err.kinds.contains(&ErrorKind::NearMiss));
    assert!(err.kinds.contains(&ErrorKind::FalseNegative));
}

#[test]
fn greedy_prevents_double_matching() {
    // Two identical predicted spans — only the first should claim the expected span
    let result = check(
        "t::1",
        &[pred("PERSON", 10, 20), pred("PERSON", 10, 20)],
        &[exp("PERSON", 10, 20)],
    );
    assert_eq!(result.counts.tp_strict, 1);
    assert_eq!(result.counts.fp_strict, 1); // second predicted is unmatched
}

#[test]
fn per_type_counts_are_isolated() {
    let result = check(
        "t::1",
        &[pred("PERSON", 10, 20)],
        &[exp("PERSON", 10, 20), exp("LOCATION", 30, 40)],
    );
    // PERSON: 1 TP, 0 FN
    let person = result.by_type.get("PERSON").unwrap();
    assert_eq!(person.tp_relaxed, 1);
    assert_eq!(person.fn_relaxed, 0);
    // LOCATION: 0 TP, 1 FN
    let location = result.by_type.get("LOCATION").unwrap();
    assert_eq!(location.tp_relaxed, 0);
    assert_eq!(location.fn_relaxed, 1);
}

#[test]
fn extracted_text_multibyte_chars() {
    // "Léa" = chars 10..13, "Dubois" = chars 14..20 (é takes two bytes)
    let source = "Mi chiamo Léa Dubois";

    let r = check_with_source("t::1", source, &[pred("PERSON", 10, 13)], &[]);
    let err = r.error.unwrap();
    assert_eq!(err.false_positives[0].text, "Léa");

    let r2 = check_with_source("t::1", source, &[pred("LOCATION", 14, 20)], &[]);
    let err2 = r2.error.unwrap();
    assert_eq!(err2.false_positives[0].text, "Dubois");

    let r3 = check_with_source("t::1", source, &[pred("PERSON", 10, 20)], &[exp("PERSON", 14, 20)]);
    let err3 = r3.error.unwrap();
    assert_eq!(err3.near_misses[0].obtained.text, "Léa Dubois");
    assert_eq!(err3.near_misses[0].expected.text, "Dubois");
}

#[test]
fn extracted_text_is_clamped_and_empty_when_reversed() {
    let source = "abc";
    let r = check_with_source("t::2", source, &[pred("PERSON", 1, 99), pred("PERSON", 2, 1)], &[]);
    let err = r.error.unwrap();
    assert_eq!(err.false_positives[0].text, "bc");
    assert_eq!(err.false_positives[1].text, "");
    assert_eq!(err.sample_id, "t::2");
}

#[test]
fn check_without_source_reports_empty_text() {
    let r = check("t::3", &[pred("PERSON", 0, 5)], &[]);
    let err = r.error.unwrap();
    assert_eq!(err.false_positives[0].text, "");
    assert_eq!(err.kinds, vec![ErrorKind::FalsePositive]);
}

#[test]
fn kinds_are_listed_in_fixed_order() {
    let r = check(
        "t::4",
        &[pred("PERSON", 0, 6), pred("EMAIL", 30, 40)],
        &[exp("PERSON", 0, 5), exp("LOCATION", 10, 15)],
    );
    let err = r.error.unwrap();
    assert_eq!(
        err.kinds,
        vec![ErrorKind::NearMiss, ErrorKind::FalsePositive, ErrorKind::FalseNegative]
    );
    assert_eq!(err.severity, ErrorSeverity::High);
    assert_eq!(err.near_misses.len(), 1);
    assert_eq!(err.false_positives.len(), 1);
    assert_eq!(err.false_positives[0].entity_type, "EMAIL");
    assert_eq!(err.false_negatives.len(), 1);
    assert_eq!(err.false_negatives[0].entity_type, "LOCATION");
    // tp + fn = expected; relaxed tp + fp = predicted
    let c = r.counts;
    assert_eq!(c.tp_strict + c.fn_strict, 2);
    assert_eq!(c.tp_relaxed + c.fn_relaxed, 2);
    assert_eq!(c.tp_relaxed + c.fp_relaxed, 2);
}

#[test]
fn relaxed_claims_first_free_overlap() {
    // The first prediction overlaps both expected entities and claims the
    // first; the second prediction then claims the second.
    let r = check(
        "t::5",
        &[pred("PERSON", 0, 20), pred("PERSON", 0, 20)],
        &[exp("PERSON", 0, 10), exp("PERSON", 5, 15)],
    );
    assert_eq!(r.counts.tp_relaxed, 2);
    assert_eq!(r.counts.fp_relaxed, 0);
    assert_eq!(r.counts.fn_relaxed, 0);
    let err = r.error.unwrap();
    assert_eq!(err.severity, ErrorSeverity::Medium);
    assert_eq!(err.near_misses[0].expected.start, 0);
    assert_eq!(err.near_misses[1].expected.start, 5);
}

#[test]
fn perfect_prediction_of_several_entities() {
    let r = check(
        "t::6",
        &[pred("PERSON", 0, 5), pred("LOCATION", 10, 15), pred("PERSON", 20, 25)],
        &[exp("PERSON", 0, 5), exp("LOCATION", 10, 15), exp("PERSON", 20, 25)],
    );
    assert!(r.error.is_none());
    assert_eq!(r.counts.tp_strict, 3);
    assert_eq!(r.counts.tp_relaxed, 3);
    assert_eq!(r.counts.fp_strict + r.counts.fn_strict + r.counts.fp_relaxed + r.counts.fn_relaxed, 0);
    assert_eq!(r.by_type.len(), 2);
    assert_eq!(r.by_type.get("PERSON").unwrap().tp_strict, 2);
    assert!(r.by_type.get("EMAIL").is_none());
}

#[test]
fn unpredicted_type_is_all_false_negatives() {
    let r = check(
        "t::7",
        &[pred("PERSON", 0, 5)],
        &[exp("PERSON", 0, 5), exp("IT_FISCAL_CODE", 10, 26), exp("IT_FISCAL_CODE", 30, 46)],
    );
    let fiscal = r.by_type.get("IT_FISCAL_CODE").unwrap();
    assert_eq!(fiscal.tp_strict, 0);
    assert_eq!(fiscal.tp_relaxed, 0);
    assert_eq!(fiscal.fn_strict, 2);
    assert_eq!(fiscal.fn_relaxed, 2);
}

#[test]
fn near_miss_is_strict_fp_and_relaxed_tp() {
    let r = check("t::8", &[pred("PERSON", 10, 21)], &[exp("PERSON", 10, 20)]);
    assert_eq!(r.counts.fp_strict, 1);
    assert_eq!(r.counts.fn_strict, 1);
    assert_eq!(r.counts.tp_relaxed, 1);
    assert_eq!(r.counts.fp_relaxed, 0);
}

#[test]
fn exact_match_is_paired_before_overlaps() {
    // The second prediction equals the entity and takes it; the first only
    // overlaps it and, with nothing left to claim, is a false positive under
    // both rules.
    let r = check(
        "t::9",
        &[pred("PERSON", 10, 21), pred("PERSON", 10, 20)],
        &[exp("PERSON", 10, 20)],
    );
    assert_eq!(r.counts.tp_strict, 1);
    assert_eq!(r.counts.fn_strict, 0);
    assert_eq!(r.counts.fp_strict, 1);
    assert_eq!(r.counts.tp_relaxed, 1);
    assert_eq!(r.counts.fp_relaxed, 1);
    assert_eq!(r.counts.fn_relaxed, 0);
    let err = r.error.unwrap();
    assert_eq!(err.severity, ErrorSeverity::Low);
    assert_eq!(err.kinds, vec![ErrorKind::FalsePositive]);
    assert!(err.near_misses.is_empty());
    assert_eq!(err.false_positives[0].end, 21);
}

#[test]
fn one_prediction_matches_one_of_two_identical_entities() {
    let r = check("t::10", &[pred("PERSON", 10, 20)], &[exp("PERSON", 10, 20), exp("PERSON", 10, 20)]);
    assert_eq!(r.counts.tp_strict, 1);
    assert_eq!(r.counts.fp_strict, 0);
    assert_eq!(r.counts.fn_strict, 1);
    assert_eq!(r.counts.tp_relaxed, 1);
    assert_eq!(r.counts.fp_relaxed, 0);
    assert_eq!(r.counts.fn_relaxed, 1);
    let err = r.error.unwrap();
    assert_eq!(err.severity, ErrorSeverity::High);
    assert_eq!(err.false_negatives.len(), 1);
    assert_eq!(err.false_negatives[0].start, 10);
}

#[test]
fn exact_predictions_in_another_order_are_all_hits() {
    let r = check(
        "t::11",
        &[pred("PERSON", 0, 10), pred("PERSON", 8, 20), pred("PERSON", 18, 30)],
        &[exp("PERSON", 8, 20), exp("PERSON", 18, 30), exp("PERSON", 0, 10)],
    );
    assert!(r.error.is_none());
    assert_eq!(r.counts.tp_strict, 3);
    assert_eq!(r.counts.fp_strict, 0);
    assert_eq!(r.counts.fn_strict, 0);
    assert_eq!(r.counts.tp_relaxed, 3);
    assert_eq!(r.counts.fp_relaxed, 0);
    assert_eq!(r.counts.fn_relaxed, 0);
}

#[test]
fn near_miss_offsets_differ() {
    // The first prediction takes the equal entity; the second overlaps the
    // other entity, whose offsets differ from its own.
    let r = check(
        "t::12",
        &[pred("PERSON", 10, 20), pred("PERSON", 10, 20)],
        &[exp("PERSON", 0, 15), exp("PERSON", 10, 20)],
    );
    assert_eq!(r.counts.tp_strict, 1);
    assert_eq!(r.counts.fp_strict, 1);
    assert_eq!(r.counts.fn_strict, 1);
    assert_eq!(r.counts.tp_relaxed, 2);
    let err = r.error.unwrap();
    assert_eq!(err.severity, ErrorSeverity::Medium);
    assert_eq!(err.near_misses.len(), 1);
    assert_eq!((err.near_misses[0].obtained.start, err.near_misses[0].obtained.end), (10, 20));
    assert_eq!((err.near_misses[0].expected.start, err.near_misses[0].expected.end), (0, 15));
}

#[test]
fn empty_span_repeated_exactly_is_no_relaxed_match() {
    // Equal offsets make an exact match, but two empty spans share no
    // character, so the relaxed rule does not pair them.
    let r = check("t::13", &[pred("PERSON", 5, 5)], &[exp("PERSON", 5, 5)]);
    assert_eq!(r.counts.tp_strict, 1);
    assert_eq!(r.counts.fp_strict, 0);
    assert_eq!(r.counts.fn_strict, 0);
    assert_eq!(r.counts.tp_relaxed, 0);
    assert_eq!(r.counts.fp_relaxed, 1);
    assert_eq!(r.counts.fn_relaxed, 1);
    let err = r.error.unwrap();
    assert_eq!(err.severity, ErrorSeverity::High);
    assert_eq!(err.kinds, vec![ErrorKind::FalsePositive, ErrorKind::FalseNegative]);
    assert!(err.near_misses.is_empty());
}

#[test]
fn empty_entity_matched_exactly_is_left_to_an_overlap() {
    // The empty prediction takes the empty entity exactly but cannot keep it
    // under the relaxed rule; the longer prediction then overlaps it.
    let r = check(
        "t::14",
        &[pred("PERSON", 5, 5), pred("PERSON", 3, 8)],
        &[exp("PERSON", 5, 5)],
    );
    assert_eq!(r.counts.tp_strict, 1);
    assert_eq!(r.counts.fp_strict, 1);
    assert_eq!(r.counts.fn_strict, 0);
    assert_eq!(r.counts.tp_relaxed, 1);
    assert_eq!(r.counts.fp_relaxed, 1);
    assert_eq!(r.counts.fn_relaxed, 0);
    let err = r.error.unwrap();
    assert_eq!(err.severity, ErrorSeverity::Medium);
    assert_eq!(err.near_misses.len(), 1);
    assert_eq!((err.near_misses[0].obtained.start, err.near_misses[0].obtained.end), (3, 8));
    assert_eq!(err.false_positives.len(), 1);
    assert_eq!(err.false_positives[0].start, 5);
}
