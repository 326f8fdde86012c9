use privstrip::labels::LabelInfo;
use privstrip::redaction::{placeholder_for, placeholder_from_uppercase, replace_ranges};
use privstrip::spans::{
    discard_overlapping_per_label, labels_to_token_spans, select_non_overlapping,
    token_spans_to_byte_spans, trim_whitespace, try_extract_spans,
};
use privstrip::{extract_spans, redact, DetectedSpan};

fn info() -> LabelInfo {
    let all = [
        "O", "B-person", "I-person", "E-person", "S-person", "B-phone", "I-phone", "E-phone", "S-phone",
    ];
    let entries = all.iter().enumerate().map(|(i, l)| (i.to_string(), l.to_string())).collect();
    LabelInfo::from_config(entries).unwrap()
}

fn span(label: &str, start: usize, end: usize) -> (String, usize, usize) {
    (label.to_string(), start, end)
}

fn found(label: &str, start: usize, end: usize, text: &str) -> DetectedSpan {
    DetectedSpan {
        label: label.to_string(),
        byte_start: start,
        byte_end: end,
        text: text.to_string(),
    }
}

fn shown(spans: &[DetectedSpan]) -> Vec<(String, usize, usize, String)> {
    spans.iter().map(|s| (s.label.clone(), s.byte_start, s.byte_end, s.text.clone())).collect()
}

#[test]
fn well_formed_labels_become_token_spans() {
    assert_eq!(
        labels_to_token_spans(&[0, 1, 3, 0, 5, 6, 7, 4], &info()),
        vec![span("person", 1, 3), span("phone", 4, 7), span("person", 7, 8)]
    );
}

#[test]
fn background_closes_an_open_span() {
    assert_eq!(labels_to_token_spans(&[1, 0, 0, 0], &info()), vec![span("person", 0, 1)]);
}

#[test]
fn tokens_without_a_span_label_are_passed_over() {
    let mut table = info();
    table.span_label[6] = None;
    assert_eq!(labels_to_token_spans(&[1, 6, 3], &table), vec![span("person", 0, 3)]);
    assert_eq!(labels_to_token_spans(&[1, 6], &table), vec![span("person", 0, 2)]);
    assert_eq!(labels_to_token_spans(&[6, 1, 6, 0, 6], &table), vec![span("person", 1, 3)]);
    assert_eq!(labels_to_token_spans(&[4, 6, 3], &table), vec![span("person", 0, 1), span("person", 2, 3)]);
    assert_eq!(labels_to_token_spans(&[1, 6, 5], &table), vec![span("person", 0, 2), span("phone", 2, 3)]);
}

#[test]
fn malformed_labels_are_closed_and_opened() {
    let i = info();
    assert_eq!(labels_to_token_spans(&[2, 3], &i), vec![span("person", 0, 2)]);
    assert_eq!(labels_to_token_spans(&[3, 3], &i), vec![span("person", 0, 1), span("person", 1, 2)]);
    assert_eq!(labels_to_token_spans(&[1, 1, 3], &i), vec![span("person", 0, 1), span("person", 1, 3)]);
    assert_eq!(labels_to_token_spans(&[1, 6, 7], &i), vec![span("person", 0, 1), span("phone", 1, 3)]);
    assert_eq!(labels_to_token_spans(&[1, 7], &i), vec![span("person", 0, 1), span("phone", 1, 2)]);
    assert_eq!(labels_to_token_spans(&[1, 4, 3], &i).len(), 3);
    assert_eq!(labels_to_token_spans(&[1, 2, 2], &i), vec![span("person", 0, 3)]);
    assert_eq!(labels_to_token_spans(&[], &i), vec![]);
}

#[test]
fn byte_spans_come_from_token_offsets() {
    let offsets = [(0, 4), (4, 9), (9, 9), (9, 15)];
    assert_eq!(
        token_spans_to_byte_spans(
            &[
                span("a", 1, 4),
                span("b", 2, 3),
                span("c", 3, 5),
                span("d", 2, 2),
                span("e", 0, 1)
            ],
            &offsets
        ),
        vec![span("a", 4, 15), span("e", 0, 4)]
    );
}

#[test]
fn whitespace_is_trimmed() {
    let text = " \t a b\n ";
    assert_eq!(
        trim_whitespace(&[span("x", 0, 8), span("y", 0, 3), span("z", 3, 4)], text),
        vec![span("x", 3, 6), span("z", 3, 4)]
    );
    assert_eq!(trim_whitespace(&[span("x", 0, 3)], "\u{b}a\u{c}"), vec![span("x", 0, 2)]);
}

#[test]
fn longest_of_a_label_stays() {
    assert_eq!(
        discard_overlapping_per_label(vec![span("x", 0, 4), span("x", 2, 10), span("y", 1, 3)]),
        vec![span("y", 1, 3), span("x", 2, 10)]
    );
}

#[test]
fn earliest_of_equally_long_stays() {
    assert_eq!(
        discard_overlapping_per_label(vec![span("x", 2, 6), span("x", 0, 4)]),
        vec![span("x", 0, 4)]
    );
}

#[test]
fn selection_goes_left_to_right() {
    assert_eq!(
        select_non_overlapping(vec![
            span("b", 0, 5),
            span("a", 0, 5),
            span("c", 3, 9),
            span("d", 5, 6)
        ]),
        vec![span("a", 0, 5), span("d", 5, 6)]
    );
    assert_eq!(
        select_non_overlapping(vec![span("a", 0, 5), span("b", 0, 7)]),
        vec![span("b", 0, 7)]
    );
}

#[test]
fn spans_are_extracted_and_redacted() {
    let text = "Call John Smith at 555-1234";
    let offsets = [(0, 4), (4, 9), (9, 15), (15, 18), (18, 22), (22, 23), (23, 27)];
    let spans = extract_spans(&[0, 1, 3, 0, 5, 6, 7], &offsets, text, &info());
    assert_eq!(
        shown(&spans),
        vec![
            ("person".to_string(), 5, 15, "John Smith".to_string()),
            ("phone".to_string(), 19, 27, "555-1234".to_string()),
        ]
    );
    assert_eq!(redact(text, &spans), "Call <PERSON> at <PHONE>");
}

#[test]
fn spans_that_cut_a_character_are_dropped() {
    let text = "aé";
    assert_eq!(extract_spans(&[4], &[(0, 2)], text, &info()).len(), 0);
    assert_eq!(extract_spans(&[4], &[(1, 3)], text, &info())[0].text, "é");
}

#[test]
fn spans_past_the_text_are_told() {
    assert!(try_extract_spans(&[4], &[(0, 5)], "abc", &info()).is_none());
    assert_eq!(try_extract_spans(&[4], &[(0, 3)], "abc", &info()).unwrap().len(), 1);
    assert_eq!(try_extract_spans(&[4], &[(7, 5)], "abc", &info()).unwrap().len(), 0);
}

#[test]
fn extracted_spans_are_in_order_and_apart() {
    let text = "ab cd ef gh";
    let offsets = [(6, 8), (0, 2), (3, 5), (1, 4), (9, 11)];
    let spans = extract_spans(&[4, 8, 4, 4, 8], &offsets, text, &info());
    for pair in spans.windows(2) {
        assert!(pair[0].byte_end <= pair[1].byte_start);
    }
    for s in &spans {
        assert_eq!(&text[s.byte_start..s.byte_end], s.text);
    }
    assert!(!spans.is_empty());
}

#[test]
fn redaction_keeps_the_rest() {
    let text = "a bb ccc";
    assert_eq!(redact(text, &[]), text);
    assert_eq!(
        redact(text, &[found("second one", 5, 8, "ccc"), found("first", 2, 4, "bb")]),
        "a <FIRST> <SECOND_ONE>"
    );
    assert_eq!(redact("x", &[found("all", 0, 1, "x")]), "<ALL>");
    assert_eq!(redact("éa", &[found("v", 2, 3, "a")]), "é<V>");
}

#[test]
fn nested_and_overlapping_spans_are_redacted() {
    let text = "abcdefghij";
    let nested = [found("x", 0, 8, "abcdefgh"), found("y", 2, 4, "cd")];
    assert_eq!(redact(text, &nested), "<X><Y>ij");
    let overlapping = [found("x", 1, 5, "bcde"), found("y", 3, 7, "defg")];
    assert_eq!(redact(text, &overlapping), "a<X><Y>hij");
    let mixed = [found("x", 0, 6, "abcdef"), found("y", 1, 2, "b"), found("z", 4, 8, "efgh")];
    assert_eq!(redact(text, &mixed), "<X><Y><Z>ij");
    let same = [found("x", 2, 4, "cd"), found("y", 2, 4, "cd")];
    assert_eq!(redact(text, &same), "ab<X><Y>efghij");
}

#[test]
fn labels_are_deduped_apart() {
    let all = vec![
        span("a", 0, 4),
        span("b", 0, 9),
        span("a", 2, 9),
        span("b", 3, 5),
        span("a", 10, 12),
    ];
    let of = |spans: &[(String, usize, usize)], label: &str| -> Vec<(String, usize, usize)> {
        spans.iter().filter(|s| s.0 == label).cloned().collect()
    };
    let kept = discard_overlapping_per_label(all.clone());
    for label in ["a", "b", "c"] {
        assert_eq!(of(&kept, label), discard_overlapping_per_label(of(&all, label)));
    }
    assert_eq!(of(&kept, "a"), vec![span("a", 2, 9), span("a", 10, 12)]);
}

#[test]
fn selection_forgets_order_and_is_final() {
    let all = vec![span("a", 0, 4), span("b", 3, 9), span("c", 5, 7), span("d", 9, 10)];
    let mut turned = all.clone();
    turned.reverse();
    let chosen = select_non_overlapping(all);
    assert_eq!(chosen, vec![span("a", 0, 4), span("c", 5, 7), span("d", 9, 10)]);
    assert_eq!(select_non_overlapping(turned), chosen);
    assert_eq!(select_non_overlapping(chosen.clone()), chosen);
}

#[test]
fn no_detection_is_lost() {
    let text = "Ann  é Bob 555";
    let offsets = [(0, 4), (4, 5), (5, 7), (7, 8), (8, 11), (11, 15)];
    let labels = [4, 4, 8, 0, 4, 8];
    let byte_spans = token_spans_to_byte_spans(&labels_to_token_spans(&labels, &info()), &offsets);
    let trimmed = trim_whitespace(&byte_spans, text);
    let kept: Vec<(String, usize, usize)> = extract_spans(&labels, &offsets, text, &info())
        .into_iter()
        .map(|s| {
            assert_eq!(s.text, text[s.byte_start..s.byte_end]);
            (s.label, s.byte_start, s.byte_end)
        })
        .collect();
    assert_eq!(kept, trimmed);
    assert_eq!(
        kept,
        vec![span("person", 0, 3), span("phone", 5, 7), span("person", 8, 11), span("phone", 12, 15)]
    );
}

#[test]
fn replacing_by_itself_changes_nothing() {
    let text = "one two";
    let marks = vec![(4, 7, "two".to_string()), (0, 3, "one".to_string())];
    assert_eq!(replace_ranges(text, marks), text);
}

#[test]
fn redaction_of_bytes_inside_a_character_drops_the_torn_text() {
    assert_eq!(replace_ranges("é!", vec![(1, 2, "-".to_string())]), "-!");
    assert_eq!(replace_ranges("é!", vec![(0, 1, "-".to_string())]), "-");
}

#[test]
fn placeholders() {
    assert_eq!(placeholder_for("private_person"), "<PRIVATE_PERSON>");
    assert_eq!(placeholder_for("e-mail  address!"), "<E_MAIL_ADDRESS>");
    assert_eq!(placeholder_for("straße"), "<STRASSE>");
    assert_eq!(placeholder_for("__a__"), "<_A>");
    assert_eq!(placeholder_for("é1"), "<_1>");
    assert_eq!(placeholder_for(""), "<>");
    assert_eq!(placeholder_for("--"), "<>");
    assert_eq!(placeholder_from_uppercase("Ab c"), "<Ab_c>");
}
