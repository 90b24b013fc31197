use meditation_log::record::MeditationDataBuilder;
use meditation_log::record::ValidationError;

#[test]
fn test_meditation_data_builder() {
    let meditation_data_builder = MeditationDataBuilder::new()
        .datetime(10)
        .duration(123)
        .category("category")
        .speaker("speaker")
        .build();

    assert!(meditation_data_builder.is_ok())
}

#[test]
fn test_meditation_data_builder_non_zero() {
    let meditation_data_builder = MeditationDataBuilder::new()
        .datetime(10)
        .duration(1)
        .category(" ")
        .speaker("speaker")
        .build();

    assert!(meditation_data_builder.is_err())
}

#[test]
fn build_keeps_fields_exactly() {
    let record = MeditationDataBuilder::new()
        .datetime(1617638400)
        .duration(1800)
        .category("Mindfulness")
        .speaker("Alice")
        .build()
        .unwrap();
    assert_eq!(record.datetime, 1617638400);
    assert_eq!(record.duration, 1800);
    assert_eq!(record.category, "Mindfulness");
    assert_eq!(record.speaker, "Alice");
}

#[test]
fn build_rejects_zero_datetime() {
    let r = MeditationDataBuilder::new()
        .datetime(0)
        .duration(60)
        .category("c")
        .speaker("s")
        .build();
    assert_eq!(r.unwrap_err(), ValidationError::InvalidDatetime);
}

#[test]
fn build_rejects_negative_datetime() {
    let r = MeditationDataBuilder::new()
        .datetime(-5)
        .duration(60)
        .category("c")
        .speaker("s")
        .build();
    assert_eq!(r.unwrap_err(), ValidationError::InvalidDatetime);
}

#[test]
fn build_rejects_zero_duration() {
    let r = MeditationDataBuilder::new()
        .datetime(10)
        .duration(0)
        .category("c")
        .speaker("s")
        .build();
    assert_eq!(r.unwrap_err(), ValidationError::InvalidDuration);
}

#[test]
fn build_rejects_negative_duration() {
    let r = MeditationDataBuilder::new()
        .datetime(10)
        .duration(-1)
        .category("c")
        .speaker("s")
        .build();
    assert_eq!(r.unwrap_err(), ValidationError::InvalidDuration);
}

#[test]
fn build_rejects_empty_category() {
    let r = MeditationDataBuilder::new()
        .datetime(10)
        .duration(60)
        .category("")
        .speaker("s")
        .build();
    assert_eq!(r.unwrap_err(), ValidationError::InvalidCategory);
}

#[test]
fn build_rejects_whitespace_speaker() {
    let r = MeditationDataBuilder::new()
        .datetime(10)
        .duration(60)
        .category("c")
        .speaker(" \t\n ")
        .build();
    assert_eq!(r.unwrap_err(), ValidationError::InvalidSpeaker);
}

#[test]
fn build_rejects_unset_fields_in_order() {
    let r = MeditationDataBuilder::new().build();
    assert_eq!(r.unwrap_err(), ValidationError::InvalidDatetime);

    let r = MeditationDataBuilder::new().datetime(10).build();
    assert_eq!(r.unwrap_err(), ValidationError::InvalidDuration);

    let r = MeditationDataBuilder::new().datetime(10).duration(60).build();
    assert_eq!(r.unwrap_err(), ValidationError::InvalidCategory);

    let r = MeditationDataBuilder::new()
        .datetime(10)
        .duration(60)
        .category("c")
        .build();
    assert_eq!(r.unwrap_err(), ValidationError::InvalidSpeaker);
}

#[test]
fn setters_overwrite_prior_values() {
    let record = MeditationDataBuilder::new()
        .datetime(1)
        .datetime(7)
        .duration(2)
        .duration(9)
        .category("old")
        .category("new")
        .speaker("a")
        .speaker("b")
        .build()
        .unwrap();
    assert_eq!(record.datetime, 7);
    assert_eq!(record.duration, 9);
    assert_eq!(record.category, "new");
    assert_eq!(record.speaker, "b");
}
