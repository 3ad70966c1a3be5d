use pii_eval::evaluation::{qualify_sample_id, Evaluation};
use pii_eval::model::{ErrorSeverity, ExpectedEntity, PredictedSpan};

fn pred(etype: &str, start: usize, end: usize) -> PredictedSpan {
    PredictedSpan { entity_type: etype.to_string(), start, end }
}

fn exp(etype: &str, start: usize, end: usize) -> ExpectedEntity {
    ExpectedEntity { entity_type: etype.to_string(), start, end }
}

#[test]
fn sample_ids_are_prefixed_with_the_file_stem() {
    assert_eq!(qualify_sample_id("italian_names", "003"), "italian_names::003");
    assert_eq!(qualify_sample_id("", "x"), "::x");
}

#[test]
fn a_run_accumulates_samples_errors_and_failures() {
    let mut run = Evaluation::new();
    assert!(run.record_file());

    let text = "Mi chiamo Mario Rossi e abito a Milano";
    let counts = run
        .record_sample(
            "f::001",
            "it",
            text,
            &[pred("PERSON", 10, 21)],
            &[exp("PERSON", 10, 21), exp("LOCATION", 32, 38)],
        )
        .unwrap();
    assert_eq!(counts.tp_strict, 1);
    assert_eq!(counts.fn_relaxed, 1);

    let clean = run.record_sample("f::002", "en", "nothing here", &[], &[]).unwrap();
    assert_eq!(clean.tp_strict + clean.fp_strict + clean.fn_strict, 0);

    assert!(run.record_api_error("f::003".to_string(), "HTTP 500".to_string()));
    assert_eq!(run.samples(), 3);

    let summary = run.summary("00:00:01".to_string());
    assert_eq!(summary.files, 1);
    assert_eq!(summary.samples, 3);
    assert_eq!(summary.api_errors, 1);
    assert_eq!(summary.entities_expected, 2);
    assert_eq!(summary.entities_predicted, 1);
    assert_eq!(summary.elapsed, "00:00:01");

    let (stats, test_errors, api_errors) = run.into_parts();
    assert_eq!(test_errors.len(), 1);
    assert_eq!(test_errors[0].sample_id, "f::001");
    assert_eq!(test_errors[0].severity, ErrorSeverity::High);
    assert_eq!(test_errors[0].false_negatives[0].text, "Milano");
    assert_eq!(api_errors[0].sample_id, "f::003");
    assert_eq!(api_errors[0].message, "HTTP 500");
    assert!(api_errors[0].server_body.is_none());

    assert_eq!(stats.global().tp_strict, 1);
    assert_eq!(stats.by_lang().get("it").unwrap().fn_strict, 1);
    assert_eq!(stats.by_lang().get("en").unwrap().tp_strict, 0);
    assert_eq!(stats.by_type().get("LOCATION").unwrap().fn_relaxed, 1);
    assert_eq!(stats.by_type().len(), 2);
}
