use meditation_log::record::MeditationData;
use meditation_log::stats::create_mock_meditations;
use meditation_log::stats::StatsBuilder;

const DAY: i64 = 86400;

fn session(datetime: i32, duration: i32, category: &str, speaker: &str) -> MeditationData {
    MeditationData {
        datetime,
        duration,
        category: category.to_owned(),
        speaker: speaker.to_owned(),
    }
}

#[test]
fn test_stats_builder_with_meditations() {
    let meditations = create_mock_meditations();
    // evaluate with "now" pinned to the moment of the most recent session
    let stats = StatsBuilder::new(meditations).build_with_now(1707575913);

    assert_eq!(stats.total_duration_seconds, 12600);
    let hours = stats.total_duration_seconds as f64 / 3600.0;
    assert_eq!(hours, 3.5);
    let (avg_secs, avg_rem) = stats.average_duration_per_meditation();
    assert_eq!(avg_secs, 2100);
    assert_eq!(avg_rem, 0);
    assert_eq!(avg_secs as f64 + avg_rem as f64 / 6.0, 2100.0);
    assert_eq!(stats.total_meditation_sessions, 6);
    assert_eq!(stats.days_meditated_in_row, 1);
    assert_eq!(stats.favorite_category, "Mindfulness");
    assert_eq!(stats.favorite_speaker, "Alice");
}

#[test]
fn test_stats_builder_defaults_with_empty_meditations() {
    let meditations = Vec::new();
    let stats = StatsBuilder::new(meditations).build_with_now(1707575913);

    assert_eq!(stats.total_duration_seconds, 0);
    assert_eq!(stats.total_duration_seconds as f64 / 3600.0, 0.0);
    let (avg_secs, avg_rem) = stats.average_duration_per_meditation();
    assert_eq!((avg_secs, avg_rem), (0, 0));
    assert_eq!(avg_secs as f64, 0.0);
    assert_eq!(stats.days_meditated_in_row, 0);
    assert_eq!(stats.total_meditation_sessions, 0);
    assert_eq!(stats.favorite_category, "");
    assert_eq!(stats.favorite_speaker, "");
}

#[test]
fn empty_log_from_wall_clock_build() {
    let stats = StatsBuilder::new(Vec::new()).build();
    assert_eq!(stats.total_meditation_sessions, 0);
    assert_eq!(stats.total_duration_seconds, 0);
    assert_eq!(stats.days_meditated_in_row, 0);
    assert_eq!(stats.favorite_category, "");
    assert_eq!(stats.favorite_speaker, "");
}

#[test]
fn streak_counts_today_yesterday_and_day_before() {
    let now = 200 * DAY + 5000;
    let meditations = vec![
        session((198 * DAY + 30) as i32, 60, "c", "s"),
        session((199 * DAY + 20) as i32, 60, "c", "s"),
        session((200 * DAY + 10) as i32, 60, "c", "s"),
    ];
    let stats = StatsBuilder::new(meditations).build_with_now(now);
    assert_eq!(stats.days_meditated_in_row, 3);
}

#[test]
fn streak_stops_at_a_two_day_gap() {
    let now = 200 * DAY + 5000;
    let meditations = vec![
        session((197 * DAY + 30) as i32, 60, "c", "s"),
        session((200 * DAY + 10) as i32, 60, "c", "s"),
    ];
    let stats = StatsBuilder::new(meditations).build_with_now(now);
    assert_eq!(stats.days_meditated_in_row, 1);
}

#[test]
fn streak_is_zero_when_last_session_is_stale() {
    let now = 200 * DAY + 5000;
    let meditations = vec![
        session((197 * DAY + 30) as i32, 60, "c", "s"),
        session((198 * DAY + 10) as i32, 60, "c", "s"),
    ];
    let stats = StatsBuilder::new(meditations).build_with_now(now);
    assert_eq!(stats.days_meditated_in_row, 0);
}

#[test]
fn streak_may_be_anchored_at_yesterday() {
    let now = 200 * DAY + 5000;
    let meditations = vec![
        session((198 * DAY + 30) as i32, 60, "c", "s"),
        session((199 * DAY + 10) as i32, 60, "c", "s"),
    ];
    let stats = StatsBuilder::new(meditations).build_with_now(now);
    assert_eq!(stats.days_meditated_in_row, 2);
}

#[test]
fn several_sessions_on_one_day_count_once() {
    let now = 200 * DAY;
    let meditations = vec![
        session((200 * DAY + 10) as i32, 60, "c", "s"),
        session((200 * DAY + 20) as i32, 60, "c", "s"),
        session((199 * DAY + 30) as i32, 60, "c", "s"),
    ];
    let stats = StatsBuilder::new(meditations).build_with_now(now);
    assert_eq!(stats.days_meditated_in_row, 2);
}

#[test]
fn favorite_tie_takes_lexicographically_smaller() {
    let now = 200 * DAY;
    let meditations = vec![
        session(1000, 60, "Zen", "Walter"),
        session(2000, 60, "Breathing", "Walter"),
        session(3000, 60, "Zen", "Ada"),
        session(4000, 60, "Breathing", "Ada"),
    ];
    let stats = StatsBuilder::new(meditations).build_with_now(now);
    assert_eq!(stats.favorite_category, "Breathing");
    assert_eq!(stats.favorite_speaker, "Ada");
}

#[test]
fn favorite_prefers_higher_count_over_order() {
    let now = 200 * DAY;
    let meditations = vec![
        session(1000, 60, "Alpha", "x"),
        session(2000, 60, "Beta", "x"),
        session(3000, 60, "Beta", "x"),
    ];
    let stats = StatsBuilder::new(meditations).build_with_now(now);
    assert_eq!(stats.favorite_category, "Beta");
}

#[test]
fn average_is_exact_quotient_and_remainder() {
    let now = 200 * DAY;
    let meditations = vec![
        session(1000, 50, "c", "s"),
        session(2000, 51, "c", "s"),
    ];
    let stats = StatsBuilder::new(meditations).build_with_now(now);
    assert_eq!(stats.total_duration_seconds, 101);
    let (avg_secs, avg_rem) = stats.average_duration_per_meditation();
    assert_eq!((avg_secs, avg_rem), (50, 1));
    assert_eq!(avg_secs as f64 + avg_rem as f64 / 2.0, 101.0 / 2.0);
}

#[test]
fn total_hours_are_exact() {
    let now = 200 * DAY;
    let meditations = vec![session(1000, 5400, "c", "s")];
    let stats = StatsBuilder::new(meditations).build_with_now(now);
    assert_eq!(stats.total_hours_meditated(), (1, 1800));
}

#[test]
fn find_most_frequent_of_empty_is_none() {
    assert!(StatsBuilder::find_most_frequent(&Vec::new()).is_none());
}

#[test]
fn find_most_frequent_breaks_ties_reproducibly() {
    for _ in 0..16 {
        let items = vec![
            "pear".to_owned(),
            "apple".to_owned(),
            "pear".to_owned(),
            "apple".to_owned(),
            "quince".to_owned(),
        ];
        let winner = StatsBuilder::find_most_frequent(&items).unwrap();
        assert_eq!(winner, "apple");
    }
}
