use chat_search::decode::{build_corpus, decode_file, file_name_matches, DecodeError};

const GOOD: &str = r#"[
  {"ID": 7, "Timestamp": "2021-05-01", "Contents": "hello world", "Attachments": ""},
  {"ID": 8, "Timestamp": "2021-05-02", "Contents": "second", "Attachments": "https://example.test/a.png"}
]"#;

#[test]
fn decodes_a_well_formed_export() {
    let ms = decode_file(GOOD).unwrap();
    assert_eq!(ms.len(), 2);
    assert_eq!(ms[0].id, 7);
    assert_eq!(ms[0].timestamp, "2021-05-01");
    assert_eq!(ms[0].contents, "hello world");
    assert_eq!(ms[0].attachments, "");
    assert_eq!(ms[1].id, 8);
    assert_eq!(ms[1].attachments, "https://example.test/a.png");
}

#[test]
fn decodes_an_empty_array() {
    let ms = decode_file("[]").unwrap();
    assert_eq!(ms.len(), 0);
}

#[test]
fn extra_fields_are_ignored() {
    let text = r#"[{"ID": 1, "Timestamp": "t", "Contents": "c", "Attachments": "", "Extra": 3}]"#;
    let ms = decode_file(text).unwrap();
    assert_eq!(ms.len(), 1);
    assert_eq!(ms[0].contents, "c");
}

#[test]
fn malformed_json_is_fatal() {
    assert_eq!(decode_file("[{").unwrap_err(), DecodeError::MalformedJson);
    assert_eq!(decode_file("").unwrap_err(), DecodeError::MalformedJson);
}

#[test]
fn non_array_document_is_rejected() {
    assert_eq!(
        decode_file(r#"{"ID": 1}"#).unwrap_err(),
        DecodeError::NotAnArray
    );
    assert_eq!(decode_file("42").unwrap_err(), DecodeError::NotAnArray);
}

#[test]
fn missing_field_is_rejected() {
    let text = r#"[{"ID": 1, "Timestamp": "t", "Contents": "c"}]"#;
    assert_eq!(decode_file(text).unwrap_err(), DecodeError::InvalidRecord);
}

#[test]
fn field_names_are_case_sensitive() {
    let text = r#"[{"id": 1, "Timestamp": "t", "Contents": "c", "Attachments": ""}]"#;
    assert_eq!(decode_file(text).unwrap_err(), DecodeError::InvalidRecord);
}

#[test]
fn wrongly_typed_fields_are_rejected() {
    let not_a_number = r#"[{"ID": "1", "Timestamp": "t", "Contents": "c", "Attachments": ""}]"#;
    assert_eq!(decode_file(not_a_number).unwrap_err(), DecodeError::InvalidRecord);
    let negative = r#"[{"ID": -1, "Timestamp": "t", "Contents": "c", "Attachments": ""}]"#;
    assert_eq!(decode_file(negative).unwrap_err(), DecodeError::InvalidRecord);
    let null_text = r#"[{"ID": 1, "Timestamp": "t", "Contents": null, "Attachments": ""}]"#;
    assert_eq!(decode_file(null_text).unwrap_err(), DecodeError::InvalidRecord);
}

#[test]
fn corpus_concatenates_in_file_order() {
    let a = r#"[{"ID": 1, "Timestamp": "t", "Contents": "one", "Attachments": ""}]"#;
    let b = r#"[{"ID": 2, "Timestamp": "t", "Contents": "two", "Attachments": ""}]"#;
    let ms = build_corpus(&vec![a.to_string(), b.to_string()]).unwrap();
    let ids: Vec<u64> = ms.iter().map(|m| m.id).collect();
    assert_eq!(ids, vec![1, 2]);
}

#[test]
fn one_bad_file_aborts_the_whole_load() {
    let good = r#"[{"ID": 1, "Timestamp": "t", "Contents": "one", "Attachments": ""}]"#;
    let texts = vec![good.to_string(), "{ nope".to_string()];
    assert_eq!(build_corpus(&texts).unwrap_err(), DecodeError::MalformedJson);
}

#[test]
fn no_files_give_an_empty_corpus() {
    let ms = build_corpus(&Vec::new()).unwrap();
    assert_eq!(ms.len(), 0);
}

#[test]
fn export_file_marker() {
    assert!(file_name_matches("messages.json"));
    assert!(file_name_matches("channel-messages.json.bak"));
    assert!(!file_name_matches("messages.txt"));
    assert!(!file_name_matches("readme.md"));
}
