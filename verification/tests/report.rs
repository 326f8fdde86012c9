use privstrip::report::{
    byte_to_line_col, check_exit_code, check_report, emit, listed_classes, stream_request, OutputMode,
};
use privstrip::text::{comes_before, join, parse_usize, same_text, slice, write_decimal};
use privstrip::timing::{report, time_stage, timing_requested, Stage, StageTimings, NUM_STAGES};
use privstrip::DetectedSpan;

fn john() -> DetectedSpan {
    DetectedSpan { label: "person".to_string(), byte_start: 5, byte_end: 9, text: "Jo\"n".to_string() }
}

#[test]
fn lines_and_columns() {
    assert_eq!(byte_to_line_col("ab\ncd", 0), (1, 1));
    assert_eq!(byte_to_line_col("ab\ncd", 2), (1, 3));
    assert_eq!(byte_to_line_col("ab\ncd", 3), (2, 1));
    assert_eq!(byte_to_line_col("ab\ncd", 4), (2, 2));
    assert_eq!(byte_to_line_col("ab\n\n", 99), (3, 1));
    assert_eq!(byte_to_line_col("é\né", 4), (2, 2));
    assert_eq!(byte_to_line_col("", 7), (1, 1));
}

#[test]
fn check_lines() {
    assert_eq!(check_report("Call John", &[john()]), vec!["1:6: person (5..9) \"Jo\\\"n\""]);
    assert_eq!(check_report("a\nb\ncdef", &[john()]), vec!["3:2: person (5..9) \"Jo\\\"n\""]);
    assert_eq!(check_report("x", &[]), Vec::<String>::new());
    assert_eq!(check_exit_code(&[]), 0);
    assert_eq!(check_exit_code(&[john()]), 1);
}

#[test]
fn requests_of_a_stream() {
    assert_eq!(stream_request("abc\n").as_deref(), Some("abc"));
    assert_eq!(stream_request("abc\r\n").as_deref(), Some("abc"));
    assert_eq!(stream_request(" a\n b\n\r\n").as_deref(), Some(" a\n b"));
    assert_eq!(stream_request("é").as_deref(), Some("é"));
    assert_eq!(stream_request("\r\n"), None);
    assert_eq!(stream_request(""), None);
    assert_eq!(stream_request(" \n").as_deref(), Some(" "));
}

#[test]
fn number_of_listed_classes() {
    assert_eq!(listed_classes(None), 0);
    assert_eq!(listed_classes(Some("4")), 4);
    assert_eq!(listed_classes(Some("+4")), 4);
    assert_eq!(listed_classes(Some("4 ")), 0);
    assert_eq!(listed_classes(Some("")), 0);
}

#[test]
fn numbers_are_parsed() {
    assert_eq!(parse_usize("007"), Some(7));
    assert_eq!(parse_usize("+"), None);
    assert_eq!(parse_usize("-0"), None);
    assert_eq!(parse_usize("１"), None);
    assert_eq!(parse_usize(&usize::MAX.to_string()), Some(usize::MAX));
    assert_eq!(parse_usize("99999999999999999999999999"), None);
    for n in [0, 9, 10, 120, usize::MAX] {
        assert_eq!(write_decimal(n), n.to_string());
        assert_eq!(parse_usize(&write_decimal(n)), Some(n));
    }
}

#[test]
fn texts_are_cut_and_put_together() {
    assert_eq!(slice("aéb", 1, 3), Some("é"));
    assert_eq!(slice("aéb", 1, 2), None);
    assert_eq!(slice("aéb", 2, 3), None);
    assert_eq!(slice("aéb", 3, 1), None);
    assert_eq!(slice("aéb", 0, 5), None);
    assert_eq!(slice("", 0, 0), Some(""));
    let parts = vec!["a".to_string(), "".to_string(), "c".to_string()];
    assert_eq!(join(&parts, ", "), "a, , c");
    assert_eq!(join(&Vec::new(), ", "), "");
    assert!(same_text("é", "é") && !same_text("a", "ab"));
    assert!(comes_before("a", "ab") && comes_before("B", "a") && !comes_before("a", "a"));
    assert!(comes_before("z", "é") && comes_before("\u{ffff}", "\u{10000}"));
}

#[test]
fn timing_is_switched_on() {
    assert!(timing_requested(Some("1")) && timing_requested(Some("true")) && timing_requested(Some("yes")));
    assert!(!timing_requested(Some("0")) && !timing_requested(Some("TRUE")) && !timing_requested(None));
}

#[test]
fn stages_have_places_and_labels() {
    let labels = [
        "tokenize",
        "forward",
        "  forward.attn",
        "  forward.moe_route",
        "    forward.moe_route_sync",
        "  forward.moe_expert",
        "logits",
        "  logits_sync",
        "decode",
        "span_extract",
        "serialize",
    ];
    assert_eq!(labels.len(), NUM_STAGES);
    for (i, label) in labels.iter().enumerate() {
        let stage = Stage::at(i);
        assert_eq!(stage.index(), i);
        assert_eq!(stage.label(), *label);
        assert_eq!(stage.is_toplevel(), !label.starts_with(' '));
    }
}

#[test]
fn stages_are_timed_when_asked() {
    let mut off = StageTimings::new(false);
    assert_eq!(time_stage(&mut off, Stage::Decode, || 5), 5);
    assert!(report(&off).is_none());
    assert!(!off.enabled());
    let mut on = StageTimings::new(true);
    assert_eq!(time_stage(&mut on, Stage::Decode, || "x"), "x");
    time_stage(&mut on, Stage::Decode, || ());
    let shown = report(&on).unwrap();
    assert_eq!(shown.rows.len(), 1);
    assert_eq!((shown.rows[0].stage, shown.rows[0].count), (Stage::Decode, 2));
}

#[test]
fn report_of_timings() {
    let mut t = StageTimings::new(true);
    t.record(Stage::Tokenize, 10);
    t.record(Stage::Forward, 100);
    t.record(Stage::ForwardAttn, 30);
    t.record(Stage::ForwardMoeRoute, 20);
    t.record(Stage::ForwardMoeRouteSync, 15);
    t.record(Stage::ForwardMoeExpert, 40);
    t.record(Stage::Tokenize, 5);
    let shown = report(&t).unwrap();
    let rows: Vec<_> = shown.rows.iter().map(|r| (r.stage.index(), r.total_ns, r.count)).collect();
    assert_eq!(
        rows,
        vec![(0, 15, 2), (1, 100, 1), (2, 30, 1), (3, 20, 1), (4, 15, 1), (5, 40, 1)]
    );
    assert_eq!(shown.toplevel_ns, 115);
    assert_eq!(shown.forward_ns, 100);
    assert_eq!(shown.forward_parts_ns, 90);
    assert!(shown.shows_coverage());
    assert!(shown.shows_share(&shown.rows[0]));
    assert!(!shown.shows_share(&shown.rows[2]));
    let mut idle = StageTimings::new(true);
    idle.record(Stage::Tokenize, 0);
    let shown = report(&idle).unwrap();
    assert!(!shown.shows_share(&shown.rows[0]));
    assert!(!shown.shows_coverage());
}

#[test]
fn timings_are_merged_and_start_over() {
    let mut a = StageTimings::new(true);
    let mut b = StageTimings::new(false);
    a.record(Stage::Logits, u64::MAX);
    b.record(Stage::Logits, 3);
    b.record(Stage::Serialize, 4);
    a.merge(&b);
    let shown = report(&a).unwrap();
    let rows: Vec<_> = shown.rows.iter().map(|r| (r.stage, r.total_ns, r.count)).collect();
    assert_eq!(rows, vec![(Stage::Logits, 2, 2), (Stage::Serialize, 4, 1)]);
}

#[test]
fn output_of_each_mode() {
    let text = "Call John";
    let checked = emit(OutputMode::Check, text, &[john()]).unwrap();
    assert_eq!(checked.error_lines, vec!["1:6: person (5..9) \"Jo\\\"n\""]);
    assert_eq!((checked.printed.as_str(), checked.code), ("", 1));
    let clean = emit(OutputMode::Check, text, &[]).unwrap();
    assert_eq!((clean.error_lines.len(), clean.code), (0, 0));
    let redacted = emit(OutputMode::Redact, text, &[john()]).unwrap();
    assert_eq!((redacted.printed.as_str(), redacted.code), ("Call <PERSON>", 0));
    assert_eq!(redacted.error_lines.len(), 0);
    let listed = emit(OutputMode::List, text, &[]).unwrap();
    assert_eq!((listed.printed.as_str(), listed.code), ("[]\n", 0));
}
