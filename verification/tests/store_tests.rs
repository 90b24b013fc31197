use meditation_log::record::MeditationData;
use meditation_log::store::log_meditation_data;
use meditation_log::store::meditation_log_key;
use meditation_log::store::read_meditation_data;
use meditation_log::store::DatabaseManager;

fn session(datetime: i32, duration: i32, category: &str, speaker: &str) -> MeditationData {
    MeditationData {
        datetime,
        duration,
        category: category.to_owned(),
        speaker: speaker.to_owned(),
    }
}

#[test]
fn read_of_an_absent_slot_is_empty() {
    assert!(DatabaseManager::read_data(None).is_empty());
    assert!(read_meditation_data(None).is_empty());
}

#[test]
fn read_of_corrupt_slots_is_empty_and_raises_nothing() {
    for bad in [
        "",
        "not json",
        "{\"not\": \"an array\"}",
        "[{\"datetime\":0,\"duration\":1,\"category\":\"a\",\"speaker\":\"b\"}]",
    ] {
        let stored = bad.to_owned();
        assert!(DatabaseManager::read_data(Some(&stored)).is_empty());
    }
}

#[test]
fn write_to_an_absent_slot_creates_a_singleton_log() {
    let text = DatabaseManager::write_data(session(10, 20, "c", "s"), None);
    let log = DatabaseManager::read_data(Some(&text));
    assert_eq!(log.len(), 1);
    assert_eq!(log[0].datetime, 10);
    assert_eq!(log[0].duration, 20);
    assert_eq!(log[0].category, "c");
    assert_eq!(log[0].speaker, "s");
}

#[test]
fn append_keeps_prior_records_in_order_and_adds_one() {
    let mut stored = DatabaseManager::write_data(session(1, 10, "a", "p"), None);
    stored = DatabaseManager::write_data(session(2, 20, "b", "q"), Some(&stored));
    stored = DatabaseManager::write_data(session(3, 30, "c", "r"), Some(&stored));

    let log = DatabaseManager::read_data(Some(&stored));
    assert_eq!(log.len(), 3);
    for (i, record) in log.iter().enumerate() {
        assert_eq!(record.datetime, (i + 1) as i32);
        assert_eq!(record.duration, ((i + 1) * 10) as i32);
    }
    assert_eq!(log[2].category, "c");
    assert_eq!(log[2].speaker, "r");
}

#[test]
fn append_onto_a_corrupt_slot_starts_a_fresh_log() {
    let corrupt = "###".to_owned();
    let text = DatabaseManager::write_data(session(5, 6, "c", "s"), Some(&corrupt));
    let log = DatabaseManager::read_data(Some(&text));
    assert_eq!(log.len(), 1);
    assert_eq!(log[0].datetime, 5);
}

#[test]
fn log_meditation_data_appends_valid_records() {
    let stored = log_meditation_data(100, 60, "Calm".to_owned(), "Dana".to_owned(), None).unwrap();
    let next =
        log_meditation_data(200, 90, "Sleep".to_owned(), "Eve".to_owned(), Some(&stored)).unwrap();
    let log = read_meditation_data(Some(&next));
    assert_eq!(log.len(), 2);
    assert_eq!(log[0].category, "Calm");
    assert_eq!(log[1].speaker, "Eve");
}

#[test]
fn log_meditation_data_rejects_invalid_fields() {
    assert!(log_meditation_data(0, 60, "c".to_owned(), "s".to_owned(), None).is_none());
    assert!(log_meditation_data(10, 0, "c".to_owned(), "s".to_owned(), None).is_none());
    assert!(log_meditation_data(10, 60, "  ".to_owned(), "s".to_owned(), None).is_none());
    assert!(log_meditation_data(10, 60, "c".to_owned(), "".to_owned(), None).is_none());
}

#[test]
fn the_log_lives_under_one_well_known_key() {
    assert_eq!(meditation_log_key(), "meditationLog");
}

#[test]
fn deserialize_and_read_degrades_to_empty() {
    assert!(DatabaseManager::deserialize_and_read("oops").is_empty());
    let good = "[{\"datetime\":1,\"duration\":2,\"category\":\"a\",\"speaker\":\"b\"}]";
    assert_eq!(DatabaseManager::deserialize_and_read(good).len(), 1);
}
