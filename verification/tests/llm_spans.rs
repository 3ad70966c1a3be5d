use pii_eval::llm_spans::{
    find_next_occurrence, overlaps_any, resolve_offset, resolve_spans, strip_json_fences, LlmEntity,
};

fn entity(entity_type: &str, text: &str, start: usize, end: usize) -> LlmEntity {
    LlmEntity { entity_type: entity_type.to_string(), text: text.to_string(), start, end }
}

// -- strip_json_fences

#[test]
fn strip_fences_no_fences() {
    assert_eq!(strip_json_fences(r#"{"entities":[]}"#), r#"{"entities":[]}"#);
}

#[test]
fn strip_fences_json_tagged() {
    assert_eq!(strip_json_fences("```json\n{\"entities\":[]}\n```"), "{\"entities\":[]}");
}

#[test]
fn strip_fences_untagged() {
    assert_eq!(strip_json_fences("```\n{\"entities\":[]}\n```"), "{\"entities\":[]}");
}

#[test]
fn strip_fences_trims_outer_whitespace() {
    assert_eq!(strip_json_fences("  {\"entities\":[]}  "), "{\"entities\":[]}");
}

#[test]
fn strip_fences_without_newline_or_closing_fence() {
    assert_eq!(strip_json_fences("```{\"a\":1}"), "{\"a\":1}");
    assert_eq!(strip_json_fences("```json\n {\"a\":1} "), "{\"a\":1}");
    assert_eq!(strip_json_fences("\u{3000}```\n[]\n```\n```  "), "[]\n```");
    assert_eq!(strip_json_fences("   "), "");
}

// -- overlaps_any

#[test]
fn no_overlap_returns_false() {
    assert!(!overlaps_any((20, 30), &[(0, 10), (40, 50)]));
}

#[test]
fn adjacent_ranges_do_not_overlap() {
    assert!(!overlaps_any((10, 20), &[(0, 10)]));
    assert!(!overlaps_any((0, 10), &[(10, 20)]));
}

#[test]
fn contained_range_overlaps() {
    assert!(overlaps_any((5, 15), &[(0, 20)]));
}

#[test]
fn partial_overlap() {
    assert!(overlaps_any((5, 15), &[(10, 25)]));
}

#[test]
fn empty_used_never_overlaps() {
    assert!(!overlaps_any((0, 100), &[]));
}

// -- find_next_occurrence

#[test]
fn finds_first_occurrence_when_none_used() {
    let src = "Mario Rossi chiama Mario Rossi";
    assert_eq!(find_next_occurrence(src, "Mario Rossi", &[]), Some((0, 11)));
}

#[test]
fn skips_used_span_finds_second_occurrence() {
    let src = "Mario Rossi chiama Mario Rossi";
    assert_eq!(find_next_occurrence(src, "Mario Rossi", &[(0, 11)]), Some((19, 30)));
}

#[test]
fn needle_not_in_source_returns_none() {
    assert_eq!(find_next_occurrence("hello world", "Mario Rossi", &[]), None);
}

#[test]
fn find_next_occurrence_multibyte_returns_char_offsets() {
    // "Léa" = chars 10..13 (bytes 10..14)
    let src = "Mi chiamo Léa Dubois";
    assert_eq!(find_next_occurrence(src, "Léa", &[]), Some((10, 13)));
}

#[test]
fn find_next_occurrence_multibyte_skips_used_char_offsets() {
    let src = "Léa e Léa";
    assert_eq!(find_next_occurrence(src, "Léa", &[(0, 3)]), Some((6, 9)));
}

#[test]
fn occurrences_are_scanned_without_overlap() {
    // "aa" occurs in "aaa" at 0 (and, overlapping, at 1): a left-to-right
    // scan only sees the one at 0.
    assert_eq!(find_next_occurrence("aaa", "aa", &[]), Some((0, 2)));
    assert_eq!(find_next_occurrence("aaa", "aa", &[(0, 1)]), None);
    assert_eq!(find_next_occurrence("aaaa", "aa", &[(0, 1)]), Some((2, 4)));
}

// -- resolve_offset

#[test]
fn valid_llm_offsets_used_directly() {
    let src = "Mario Rossi said hello";
    let e = entity("PERSON", "Mario Rossi", 0, 11);
    assert_eq!(resolve_offset(src, &e, &[]), Some((0, 11)));
}

#[test]
fn invalid_offsets_fall_back_to_text_search() {
    let src = "Mario Rossi said hello";
    let e = entity("PERSON", "Mario Rossi", 99, 110); // out of range
    assert_eq!(resolve_offset(src, &e, &[]), Some((0, 11)));
}

#[test]
fn valid_offset_already_used_falls_back_to_second_occurrence() {
    let src = "Mario Rossi chiama Mario Rossi";
    let e = entity("PERSON", "Mario Rossi", 0, 11);
    assert_eq!(resolve_offset(src, &e, &[(0, 11)]), Some((19, 30)));
}

#[test]
fn empty_entity_text_returns_none() {
    let e = entity("PERSON", "", 0, 0);
    assert_eq!(resolve_offset("hello world", &e, &[]), None);
}

#[test]
fn resolve_offset_multibyte_valid_char_offsets() {
    let src = "Mi chiamo Léa Dubois";
    let e = entity("PERSON", "Léa", 10, 13);
    assert_eq!(resolve_offset(src, &e, &[]), Some((10, 13)));
}

#[test]
fn resolve_offset_multibyte_invalid_offsets_fallback() {
    let src = "Mi chiamo Léa Dubois";
    let e = entity("PERSON", "Léa", 999, 1002);
    assert_eq!(resolve_offset(src, &e, &[]), Some((10, 13)));
}

// -- resolve_spans

#[test]
fn duplicate_entity_text_gets_distinct_offsets() {
    let src = "Mario Rossi chiama Mario Rossi";
    let entities = vec![
        entity("PERSON", "Mario Rossi", 0, 11),
        entity("PERSON", "Mario Rossi", 0, 11), // LLM emits same offsets for both
    ];
    let spans = resolve_spans(src, entities);
    assert_eq!(spans.len(), 2);
    assert_eq!(spans[0].start, 0);
    assert_eq!(spans[0].end, 11);
    assert_eq!(spans[1].start, 19);
    assert_eq!(spans[1].end, 30);
}

#[test]
fn entity_not_found_in_source_is_skipped() {
    let entities = vec![entity("PERSON", "Mario Rossi", 0, 5)];
    let spans = resolve_spans("hello world", entities);
    assert!(spans.is_empty());
}

#[test]
fn mixed_valid_and_invalid_offsets() {
    let src = "Mario Rossi said hello";
    let entities = vec![
        entity("PERSON", "Mario Rossi", 0, 11),      // valid
        entity("LOCATION", "hello", 999, 1004),      // invalid → fallback
    ];
    let spans = resolve_spans(src, entities);
    assert_eq!(spans.len(), 2);
    assert_eq!(spans[0].entity_type, "PERSON");
    assert_eq!(spans[0].start, 0);
    assert_eq!(spans[1].entity_type, "LOCATION");
    assert_eq!(spans[1].start, 17);
    assert_eq!(spans[1].end, 22);
}

#[test]
fn third_copy_of_a_text_is_dropped_when_only_two_occur() {
    let src = "Léa e Léa";
    let entities = vec![
        entity("PERSON", "Léa", 0, 3),
        entity("PERSON", "Léa", 0, 3),
        entity("PERSON", "Léa", 6, 9),
    ];
    let spans = resolve_spans(src, entities);
    assert_eq!(spans.len(), 2);
    assert_eq!((spans[0].start, spans[0].end), (0, 3));
    assert_eq!((spans[1].start, spans[1].end), (6, 9));
}
