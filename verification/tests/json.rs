use privstrip::decoders::{load_decoders, Calibration, DecoderSet};
use privstrip::json::{declared_points, list_report, operating_point_names, refused_line_json, spans_json};
use privstrip::labels::LabelInfo;
use privstrip::viterbi::{ViterbiBiases, ViterbiDecoder};
use privstrip::{detection_error_json, detection_json, DetectedSpan, DetectionResult};
use serde_json::Value;

fn john() -> DetectedSpan {
    DetectedSpan { label: "person".to_string(), byte_start: 5, byte_end: 9, text: "John".to_string() }
}

#[test]
fn detection_envelope() {
    let result = DetectionResult { spans: vec![john()], tokens: 3 };
    let json = detection_json(Value::from(7u64), &result, 99);
    assert_eq!(json.as_object().unwrap().len(), 4);
    assert_eq!(json.get("id"), Some(&Value::from(7u64)));
    assert_eq!(json.get("tokens"), Some(&Value::from(3u64)));
    assert_eq!(json.get("elapsed_us"), Some(&Value::from(99u64)));
    let span = &json.get("spans").unwrap().as_array().unwrap()[0];
    assert_eq!(span.as_object().unwrap().len(), 4);
    assert_eq!(span.get("label"), Some(&Value::from("person")));
    assert_eq!(span.get("byte_start"), Some(&Value::from(5u64)));
    assert_eq!(span.get("byte_end"), Some(&Value::from(9u64)));
    assert_eq!(span.get("text"), Some(&Value::from("John")));
}

#[test]
fn error_envelope() {
    let json = detection_error_json(Value::Bool(true), "no".to_string());
    assert_eq!(json.to_string(), "{\"error\":\"no\",\"id\":true}");
    assert_eq!(
        refused_line_json("bad").to_string(),
        "{\"error\":\"invalid input json: bad\",\"id\":null}"
    );
}

#[test]
fn list_is_indented() {
    assert_eq!(list_report(&[]).unwrap(), "[]");
    assert_eq!(
        list_report(&[john()]).unwrap(),
        "[\n  {\n    \"byte_end\": 9,\n    \"byte_start\": 5,\n    \"label\": \"person\",\n    \"text\": \"John\"\n  }\n]"
    );
    assert_eq!(spans_json(&[john(), john()]).as_array().unwrap().len(), 2);
}

#[test]
fn operating_points_are_read() {
    let mut names = operating_point_names("{\"operating_points\":{\"b\":{},\"a\":{\"x\":1}}}").unwrap();
    names.sort();
    assert_eq!(names, vec!["a", "b"]);
    assert_eq!(operating_point_names("{\"operating_points\":[1]}").unwrap().len(), 0);
    assert_eq!(operating_point_names("{\"other\":{}}").unwrap().len(), 0);
    assert_eq!(operating_point_names("[]").unwrap().len(), 0);
    assert_eq!(
        operating_point_names("{").unwrap_err(),
        "EOF while parsing an object at line 1 column 1"
    );
    assert_eq!(declared_points(&Value::Null).len(), 0);
}

fn info() -> LabelInfo {
    let all = ["O", "B-x", "I-x", "E-x", "S-x"];
    let entries = all.iter().enumerate().map(|(i, l)| (i.to_string(), l.to_string())).collect();
    LabelInfo::from_config(entries).unwrap()
}

fn leaning() -> ViterbiBiases {
    ViterbiBiases {
        transition_bias_background_stay: (-9.0f32).to_bits(),
        ..ViterbiBiases::default()
    }
}

fn labels_of(decoder: &ViterbiDecoder) -> Vec<usize> {
    let row = [-1.0f32, -9.0, -9.0, -9.0, -2.0];
    let scores: Vec<u32> = row.iter().chain(row.iter()).map(|v| v.to_bits()).collect();
    decoder.decode(&scores, 2, &|a: u32, b: u32| (f32::from_bits(a) + f32::from_bits(b)).to_bits())
}

#[test]
fn decoders_without_a_calibration() {
    let set = load_decoders(None, &info()).ok().unwrap();
    assert_eq!(set.names(), vec!["default"]);
    assert_eq!(labels_of(set.get("default").unwrap()), vec![0, 0]);
    assert!(set.get("other").is_none());
}

#[test]
fn decoders_of_a_calibration() {
    let mut file = Calibration {
        path: "models/c.json".to_string(),
        names: vec!["lean".to_string(), "flat".to_string(), "lean".to_string()],
        points: vec![
            ("flat".to_string(), ViterbiBiases::default()),
            ("lean".to_string(), leaning()),
        ],
    };
    let set = load_decoders(Some(&file), &info()).ok().unwrap();
    assert_eq!(set.names(), vec!["flat", "lean"]);
    assert_eq!(labels_of(set.get("flat").unwrap()), vec![0, 0]);
    assert_eq!(labels_of(set.get("lean").unwrap()), vec![4, 0]);
    file.names.reverse();
    let again = load_decoders(Some(&file), &info()).ok().unwrap();
    assert_eq!(again.names(), set.names());
    assert_eq!(labels_of(again.get("lean").unwrap()), labels_of(set.get("lean").unwrap()));
    file.names.push("gone".to_string());
    assert_eq!(
        load_decoders(Some(&file), &info()).err().unwrap(),
        "operating point \"gone\" not found in models/c.json"
    );
    file.names.clear();
    assert_eq!(
        load_decoders(Some(&file), &info()).err().unwrap(),
        "no operating points declared in models/c.json"
    );
}

#[test]
fn biases_by_name() {
    let points = vec![("a".to_string(), leaning()), ("a".to_string(), ViterbiBiases::default())];
    let found = ViterbiBiases::from_calibration_file("p", &points, "a").unwrap();
    assert_eq!(found.transition_bias_background_stay, (-9.0f32).to_bits());
    assert_eq!(
        ViterbiBiases::from_calibration_file("p", &points, "b").unwrap_err(),
        "operating point \"b\" not found in p"
    );
}

#[test]
fn decoder_set_replaces_by_name() {
    let mut set = DecoderSet::new();
    assert_eq!(set.names().len(), 0);
    set.insert("b".to_string(), ViterbiDecoder::with_biases(&info(), ViterbiBiases::default()));
    set.insert("a".to_string(), ViterbiDecoder::with_biases(&info(), ViterbiBiases::default()));
    set.insert("b".to_string(), ViterbiDecoder::with_biases(&info(), leaning()));
    assert_eq!(set.names(), vec!["a", "b"]);
    assert_eq!(labels_of(set.get("b").unwrap()), vec![4, 0]);
}
