use phenoboard::text_annotation_dto::{ConceptHit, TextAnnotationDto};
use phenoboard::text_to_annotation::text_to_annotations;

fn hit(id: &str, start: usize, end: usize) -> ConceptHit {
    ConceptHit {
        term_id: id.to_string(),
        label: format!("label of {}", id),
        start,
        end,
        is_observed: true,
    }
}

fn unescape(s: &str) -> String {
    s.replace("&lt;", "<").replace("&gt;", ">").replace("&amp;", "&")
}

fn joined(segments: &[TextAnnotationDto]) -> String {
    segments
        .iter()
        .map(|a| if a.is_fenominal_hit { a.original_text.clone() } else { unescape(&a.original_text) })
        .collect()
}

#[test]
fn annotation_splits_around_a_hit() {
    let text = "patient has fever and cough";
    let segs = text_to_annotations(text, &[hit("HP:0001945", 12, 17)]).unwrap();
    assert_eq!(segs.len(), 3);
    assert!(!segs[0].is_fenominal_hit);
    assert_eq!(segs[0].original_text, "patient has ");
    assert_eq!((segs[0].start, segs[0].end), (0, 12));
    assert!(segs[1].is_fenominal_hit);
    assert_eq!(segs[1].original_text, "fever");
    assert_eq!(segs[1].term_id, "HP:0001945");
    assert_eq!((segs[1].start, segs[1].end), (12, 17));
    assert!(segs[1].is_observed);
    assert!(!segs[2].is_fenominal_hit);
    assert_eq!(segs[2].original_text, " and cough");
    assert_eq!((segs[2].start, segs[2].end), (17, 27));
    assert_eq!(joined(&segs), text);
    assert!(segs.iter().all(|s| s.onset_string == "na"));
}

#[test]
fn annotation_skips_hit_inside_multibyte_character() {
    let text = "café fever";
    // 'é' occupies bytes 3..5; a span ending at byte 4 splits it.
    let segs = text_to_annotations(text, &[hit("HP:1", 0, 4), hit("HP:0001945", 6, 11)]).unwrap();
    assert_eq!(segs.len(), 2);
    assert!(!segs[0].is_fenominal_hit);
    assert_eq!(segs[0].original_text, "café ");
    assert!(segs[1].is_fenominal_hit);
    assert_eq!(segs[1].original_text, "fever");
    assert_eq!(joined(&segs), text);
    assert!(segs.iter().all(|s| s.term_id != "HP:1"));
}

#[test]
fn annotation_skips_out_of_range_and_empty_spans() {
    let text = "fever";
    let segs = text_to_annotations(text, &[hit("A", 3, 3), hit("B", 4, 2), hit("C", 2, 99), hit("D", 99, 100)]).unwrap();
    assert_eq!(segs.len(), 1);
    assert!(!segs[0].is_fenominal_hit);
    assert_eq!(segs[0].original_text, "fever");
    assert_eq!((segs[0].start, segs[0].end), (0, 5));
}

#[test]
fn annotation_escapes_plain_text_only() {
    let text = "a<b & c> d<e";
    let segs = text_to_annotations(text, &[hit("HP:1", 9, 12)]).unwrap();
    assert_eq!(segs.len(), 2);
    assert_eq!(segs[0].original_text, "a&lt;b &amp; c&gt; ");
    assert_eq!(segs[1].original_text, "d<e");
    assert_eq!(joined(&segs), text);
}

#[test]
fn annotation_of_text_without_hits_is_one_plain_segment() {
    let segs = text_to_annotations("no findings", &[]).unwrap();
    assert_eq!(segs.len(), 1);
    assert_eq!(segs[0].original_text, "no findings");
    assert!(text_to_annotations("", &[]).unwrap().is_empty());
}

#[test]
fn annotation_of_adjacent_hits_has_no_plain_between() {
    let text = "feverache";
    let segs = text_to_annotations(text, &[hit("A", 0, 5), hit("B", 5, 9)]).unwrap();
    assert_eq!(segs.len(), 2);
    assert!(segs.iter().all(|s| s.is_fenominal_hit));
    assert_eq!(segs[0].original_text, "fever");
    assert_eq!(segs[1].original_text, "ache");
}

#[test]
fn autocompleted_hit_is_observed_without_span() {
    let dto = TextAnnotationDto::autocompleted_fenominal_hit("HP:0001945", "Fever");
    assert!(dto.is_fenominal_hit);
    assert!(dto.is_observed);
    assert_eq!(dto.term_id, "HP:0001945");
    assert_eq!(dto.label, "Fever");
    assert_eq!((dto.start, dto.end), (0, 0));
    assert_eq!(dto.original_text, "");
    assert_eq!(dto.onset_string, "na");
}

#[test]
fn plain_segment_constructor_keeps_text_and_span() {
    let dto = TextAnnotationDto::text_annot("abc".to_string(), 3, 6);
    assert!(!dto.is_fenominal_hit);
    assert_eq!(dto.original_text, "abc");
    assert_eq!((dto.start, dto.end), (3, 6));
    assert_eq!(dto.onset_string, "na");
}
