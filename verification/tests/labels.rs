use privstrip::labels::{accepts, number_entries, Boundary, LabelError, LabelInfo};

fn entries(pairs: &[(&str, &str)]) -> Vec<(String, String)> {
    pairs.iter().map(|(k, v)| (k.to_string(), v.to_string())).collect()
}

#[test]
fn labels_read_in_any_order() {
    let info = LabelInfo::from_config(entries(&[
        ("0", "O"),
        ("10", "S-b-c"),
        ("1", "B-person"),
        ("2", "I-person"),
        ("3", "E-person"),
        ("4", "S-person"),
        ("5", "B-x"),
        ("6", "I-x"),
        ("7", "E-x"),
        ("8", "S-x"),
        ("9", "B-y"),
    ]))
    .unwrap();
    assert_eq!(info.num_classes(), 11);
    assert_eq!(info.background_idx, 0);
    assert_eq!(info.id2label[10], "S-b-c");
    assert_eq!(info.span_label[10].as_deref(), Some("b-c"));
    assert_eq!(info.boundary[0], Boundary::Background);
    assert_eq!(info.boundary[1], Boundary::B);
    assert_eq!(info.boundary[2], Boundary::I);
    assert_eq!(info.boundary[3], Boundary::E);
    assert_eq!(info.boundary[4], Boundary::S);
    assert_eq!(info.span_label[0], None);
    assert_eq!(info.span_label[3].as_deref(), Some("person"));
}

#[test]
fn background_class_need_not_be_first() {
    let info = LabelInfo::from_config(entries(&[("0", "S-x"), ("1", "O")])).unwrap();
    assert_eq!(info.background_idx, 1);
}

#[test]
fn two_spellings_of_one_id_leave_the_last() {
    let info = LabelInfo::from_config(entries(&[("0", "O"), ("01", "S-a"), ("1", "S-b")])).unwrap();
    assert_eq!(info.num_classes(), 3);
    assert_eq!(info.id2label[1], "S-b");
    assert_eq!(info.span_label[1].as_deref(), Some("b"));
    assert_eq!(info.id2label[2], "");
    assert_eq!(info.boundary[2], Boundary::Background);
    assert_eq!(info.span_label[2], None);
}

#[test]
fn unknown_tag_is_refused() {
    let error = LabelInfo::from_config(entries(&[("0", "O"), ("1", "X-person")])).unwrap_err();
    assert!(matches!(&error, LabelError::UnknownTag(l) if l == "X-person"));
    assert_eq!(error.message(), "unknown boundary tag in label X-person");
}

#[test]
fn malformed_label_is_refused() {
    let error = LabelInfo::from_config(entries(&[("0", "o")])).unwrap_err();
    assert!(matches!(&error, LabelError::Malformed(l) if l == "o"));
    assert_eq!(error.message(), "malformed label o");
    let error = LabelInfo::from_config(entries(&[("0", "")])).unwrap_err();
    assert!(matches!(&error, LabelError::Malformed(l) if l.is_empty()));
}

#[test]
fn least_bad_class_decides_the_error() {
    let error =
        LabelInfo::from_config(entries(&[("0", "O"), ("10", "bad"), ("2", "Z-y")])).unwrap_err();
    assert!(matches!(&error, LabelError::UnknownTag(l) if l == "Z-y"));
}

#[test]
fn id_that_is_no_number_is_refused() {
    let error = number_entries(entries(&[("0", "O"), ("x1", "S-a"), ("y", "S-b")])).unwrap_err();
    assert!(matches!(&error, LabelError::BadId(id) if id == "x1"));
    assert_eq!(error.message(), "invalid digit found in string");
    let error = number_entries(entries(&[("", "O")])).unwrap_err();
    assert_eq!(error.message(), "cannot parse integer from empty string");
    let error = number_entries(entries(&[("99999999999999999999999", "O")])).unwrap_err();
    assert_eq!(error.message(), "number too large to fit in target type");
    assert!(LabelInfo::from_config(entries(&[("", "O")])).is_err());
    assert!(LabelInfo::from_config(entries(&[("-1", "O")])).is_err());
}

#[test]
fn ids_past_the_end_are_told() {
    let fits = |pairs: &[(&str, &str)]| accepts(&number_entries(entries(pairs)).unwrap());
    assert!(fits(&[("0", "O"), ("1", "S-a")]));
    assert!(!fits(&[("0", "O"), ("2", "S-a")]));
    assert!(fits(&[("0", "bad"), ("9", "S-a")]));
    assert!(!fits(&[("0", "O"), ("9", "bad")]));
}

#[test]
fn empty_label_set() {
    let info = LabelInfo::from_config(Vec::new()).unwrap();
    assert_eq!(info.num_classes(), 0);
    assert_eq!(info.background_idx, 0);
}
