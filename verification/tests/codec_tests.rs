use meditation_log::codec::deserialize_records;
use meditation_log::codec::serialize_records;
use meditation_log::record::MeditationData;

fn session(datetime: i32, duration: i32, category: &str, speaker: &str) -> MeditationData {
    MeditationData {
        datetime,
        duration,
        category: category.to_owned(),
        speaker: speaker.to_owned(),
    }
}

#[test]
fn serializes_the_documented_shape() {
    let records = vec![session(1, 2, "a", "b")];
    let text = serialize_records(&records);
    assert_eq!(
        text,
        "[{\"datetime\":1,\"duration\":2,\"category\":\"a\",\"speaker\":\"b\"}]"
    );
}

#[test]
fn serializes_the_empty_log_as_an_empty_array() {
    let records: Vec<MeditationData> = Vec::new();
    assert_eq!(serialize_records(&records), "[]");
}

#[test]
fn round_trip_preserves_records_field_for_field() {
    let records = vec![
        session(1617638400, 1800, "Mindfulness", "Alice"),
        session(1617724800, 3600, "Relaxation", "Bob"),
        session(2147483647, 2147483647, "Healing", "Charlie"),
    ];
    let text = serialize_records(&records);
    let back = deserialize_records(&text).unwrap();
    assert_eq!(back.len(), records.len());
    for (orig, got) in records.iter().zip(back.iter()) {
        assert_eq!(got.datetime, orig.datetime);
        assert_eq!(got.duration, orig.duration);
        assert_eq!(got.category, orig.category);
        assert_eq!(got.speaker, orig.speaker);
    }
}

#[test]
fn round_trip_preserves_escaped_characters() {
    let tricky = "a\"b\\c\nd\te\u{1}f caf\u{e9} \u{3042}";
    let records = vec![session(5, 6, tricky, "quote\"end")];
    let text = serialize_records(&records);
    assert!(text.contains("a\\\"b\\\\c\\u000ad\\u0009e\\u0001f"));
    let back = deserialize_records(&text).unwrap();
    assert_eq!(back[0].category, tricky);
    assert_eq!(back[0].speaker, "quote\"end");
}

#[test]
fn output_is_real_json_for_an_outside_reader() {
    let records = vec![
        session(1617638400, 1800, "Mind\"ful\\ness", "Ali\nce"),
        session(7, 9, "x", "y"),
    ];
    let text = serialize_records(&records);
    let value: serde_json::Value = serde_json::from_str(&text).unwrap();
    let array = value.as_array().unwrap();
    assert_eq!(array.len(), 2);
    assert_eq!(array[0]["datetime"], serde_json::Value::from(1617638400i64));
    assert_eq!(array[0]["duration"], serde_json::Value::from(1800i64));
    assert_eq!(
        array[0]["category"],
        serde_json::Value::from("Mind\"ful\\ness")
    );
    assert_eq!(array[0]["speaker"], serde_json::Value::from("Ali\nce"));
    assert_eq!(array[1]["datetime"], serde_json::Value::from(7i64));
}

#[test]
fn rejects_text_that_is_not_json() {
    assert!(deserialize_records("not json at all").is_none());
    assert!(deserialize_records("").is_none());
}

#[test]
fn rejects_json_that_is_not_an_array() {
    assert!(deserialize_records("{\"not\": \"an array\"}").is_none());
    assert!(deserialize_records("42").is_none());
    assert!(deserialize_records("\"[]\"").is_none());
}

#[test]
fn rejects_arrays_of_malformed_records() {
    assert!(deserialize_records("[1, 2, 3]").is_none());
    assert!(deserialize_records("[{}]").is_none());
    assert!(deserialize_records("[{\"datetime\":1}]").is_none());
}

#[test]
fn rejects_records_that_break_the_invariant() {
    // duration zero
    assert!(deserialize_records(
        "[{\"datetime\":1,\"duration\":0,\"category\":\"a\",\"speaker\":\"b\"}]"
    )
    .is_none());
    // negative timestamp
    assert!(deserialize_records(
        "[{\"datetime\":-4,\"duration\":2,\"category\":\"a\",\"speaker\":\"b\"}]"
    )
    .is_none());
    // blank category
    assert!(deserialize_records(
        "[{\"datetime\":1,\"duration\":2,\"category\":\" \",\"speaker\":\"b\"}]"
    )
    .is_none());
    // timestamp beyond the storable range
    assert!(deserialize_records(
        "[{\"datetime\":2147483648,\"duration\":2,\"category\":\"a\",\"speaker\":\"b\"}]"
    )
    .is_none());
}

#[test]
fn accepts_exactly_the_canonical_empty_array() {
    assert!(deserialize_records("[]").unwrap().is_empty());
    assert!(deserialize_records("[ ]").is_none());
    assert!(deserialize_records("[]x").is_none());
}
