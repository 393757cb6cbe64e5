use overlay_core::digest::{Digest, DigestConfig, EraType, Eras, Interval};
use overlay_core::entry::{LogEntry, Timestamp};
use overlay_core::text::{push_decimal, push_hexadecimal};

fn ts(text: &str) -> Timestamp {
    let t = uhlc::Timestamp::parse_rfc3339(text).unwrap();
    Timestamp {
        time: t.get_time().as_u64(),
        id: u128::from_le_bytes(t.get_id().to_le_bytes()),
    }
}

fn entry(time: &str, key: &str) -> LogEntry {
    LogEntry {
        timestamp: ts(time),
        key: key.to_string(),
    }
}

fn config() -> DigestConfig {
    DigestConfig {
        delta: 1000,
        sub_intervals: 10,
        hot: 6,
        warm: 30,
    }
}

const T: &str = "2022-12-21T15:00:00.000000000Z/1";

fn log() -> Vec<LogEntry> {
    vec![
        entry("2022-12-21T15:00:00.000000000Z/1", "demo/example/a"),
        entry("2022-12-21T15:00:00.050000000Z/1", "demo/example/b"),
        entry("2022-12-21T15:00:00.350000000Z/1", "demo/example/c"),
        entry("2022-12-21T14:59:50.000000000Z/1", "demo/example/d"),
        entry("2022-12-21T14:58:00.000000000Z/1", "demo/example/e"),
    ]
}

#[test]
fn timestamp_millis_and_text() {
    assert_eq!(ts(T).millis(), 1671634800000);
    assert_eq!(ts("2022-12-21T15:00:00.250000000Z/1").millis(), 1671634800250);
    let mut out = Vec::new();
    entry(T, "demo/example/a").push_text(&mut out);
    assert_eq!(
        String::from_utf8(out).unwrap(),
        "2022-12-21T15:00:00.000000000Z/1-demo/example/a"
    );
    let mut out = Vec::new();
    push_decimal(10827088509365589085, &mut out);
    push_hexadecimal(0xab0, &mut out);
    assert_eq!(String::from_utf8(out).unwrap(), "10827088509365589085ab0");
}

#[test]
fn entries_order_by_time_then_key() {
    let a = entry(T, "demo/a");
    let b = entry(T, "demo/b");
    let later = entry("2022-12-21T15:00:01.000000000Z/1", "demo/a");
    assert!(a.compare(&b) < 0);
    assert!(b.compare(&a) > 0);
    assert_eq!(a.compare(&a.duplicate()), 0);
    assert!(b.compare(&later) < 0);
}

#[test]
fn digest_does_not_depend_on_log_order() {
    let mut reversed = log();
    reversed.reverse();
    let d1 = Digest::create_digest(ts(T), config(), log(), 1671634800);
    let d2 = Digest::create_digest(ts(T), config(), reversed, 1671634800);
    assert_eq!(d1, d2);
    assert!(d1.eras.hot.is_some());
    assert!(d1.eras.warm.is_some());
    assert!(d1.eras.cold.is_some());
    assert_eq!(d1.subintervals[&16716348000].content.len(), 2);
}

#[test]
fn digest_equals_incrementally_built_digest() {
    let created = Digest::create_digest(ts(T), config(), log(), 1671634800);
    let empty = Digest::create_digest(ts(T), config(), Vec::new(), 1671634800);
    let updated = Digest::update_digest(empty, 1671634800, ts(T), log(), Vec::new());
    assert_eq!(created, updated);
}

#[test]
fn intervals_move_to_older_eras() {
    let hot = Digest::create_digest(ts(T), config(), log(), 1671634800);
    let later = Digest::update_digest(hot, 1671634900, ts(T), Vec::new(), Vec::new());
    let direct = Digest::create_digest(ts(T), config(), log(), 1671634900);
    assert_eq!(later, direct);
    assert!(later.eras.hot.is_none());
}

#[test]
fn compress_keeps_checksums_and_drops_cold_detail() {
    let d = Digest::create_digest(ts(T), config(), log(), 1671634800);
    let c = d.compress();
    assert_eq!(c.checksum, d.checksum);
    assert_eq!(c.timestamp, d.timestamp);
    let cold = c.eras.cold.as_ref().unwrap();
    assert!(cold.content.is_empty());
    assert_eq!(cold.checksum, d.eras.cold.as_ref().unwrap().checksum);
    assert_eq!(c.eras.hot, d.eras.hot);
    assert_eq!(c.intervals[&1671634800], d.intervals[&1671634800]);
    assert!(c.intervals[&1671634790].content.is_empty());
    assert!(!c.intervals.contains_key(&1671634680));
    assert_eq!(c.subintervals[&16716348000], d.subintervals[&16716348000]);
    assert!(!c.subintervals.contains_key(&16716347900));
}

#[test]
fn alignment_queries_find_differences() {
    let mine = Digest::create_digest(ts(T), config(), log(), 1671634800);
    let mut theirs_log = log();
    theirs_log.push(entry("2022-12-21T15:00:00.060000000Z/1", "demo/example/x"));
    let theirs = Digest::create_digest(ts(T), config(), theirs_log, 1671634800);

    assert!(mine.era_has_diff(EraType::Hot, &theirs.eras));
    assert!(!mine.era_has_diff(EraType::Cold, &theirs.eras));
    let none = Eras { hot: None, warm: None, cold: None };
    assert!(!mine.era_has_diff(EraType::Hot, &none));
    let only_theirs = Eras {
        hot: Some(Interval { checksum: 1, content: vec![] }),
        warm: None,
        cold: None,
    };
    let empty = Digest::create_digest(ts(T), config(), Vec::new(), 1671634800);
    assert!(empty.era_has_diff(EraType::Hot, &only_theirs));

    let their_hot = theirs.get_era_content(EraType::Hot);
    assert_eq!(their_hot, vec![(1671634800, theirs.intervals[&1671634800].checksum)]);
    assert_eq!(mine.get_interval_diff(&their_hot), vec![1671634800]);
    assert!(theirs.get_interval_diff(&their_hot).is_empty());
    assert!(mine.get_era_content(EraType::Warm).len() == 1);

    let their_subs = theirs.get_interval_content(&vec![1671634800, 42]);
    assert_eq!(their_subs.len(), 2);
    assert_eq!(mine.get_subinterval_diff(&their_subs), vec![16716348000]);

    let contents = theirs.get_subinterval_content(&vec![16716348000, 7]);
    assert_eq!(contents.len(), 1);
    assert_eq!(contents[0].0, 16716348000);
    assert_eq!(contents[0].1.len(), 3);

    let missing = mine.get_content_diff(16716348000, contents[0].1.clone());
    assert_eq!(missing, vec![entry("2022-12-21T15:00:00.060000000Z/1", "demo/example/x")]);
    let all = mine.get_content_diff(99, contents[0].1.clone());
    assert_eq!(all.len(), 3);
    let full = mine.get_full_content_diff(contents);
    assert_eq!(full, missing);
}

#[test]
fn era_names_parse_in_any_case() {
    assert_eq!(EraType::from_str("HOT"), EraType::Hot);
    assert_eq!(EraType::from_str("Warm"), EraType::Warm);
    assert_eq!(EraType::from_str("cold"), EraType::Cold);
    assert_eq!(EraType::from_str("lukewarm"), EraType::Cold);
    assert_eq!(overlay_core::digest::era_from_lowercase("WARM"), EraType::Cold);
}

#[test]
fn bucketing_of_timestamps() {
    let e = entry("2022-12-21T15:00:00.250000000Z/1", "k");
    let sub = overlay_core::digest::get_subinterval(&config(), &e);
    assert_eq!(sub, 16716348002);
    assert_eq!(overlay_core::digest::get_interval(&config(), sub), 1671634800);
    assert_eq!(overlay_core::digest::get_era(&config(), 1671634805, 1671634800), EraType::Hot);
    assert_eq!(overlay_core::digest::get_era(&config(), 1671634806, 1671634800), EraType::Warm);
    assert_eq!(overlay_core::digest::get_era(&config(), 1671634835, 1671634800), EraType::Warm);
    assert_eq!(overlay_core::digest::get_era(&config(), 1671634836, 1671634800), EraType::Cold);
    assert_eq!(overlay_core::digest::get_era(&config(), 3, 1671634800), EraType::Hot);
}

#[test]
fn consistency_check_spots_stale_checksums() {
    let d = Digest::create_digest(ts(T), config(), log(), 1671634800);
    assert!(d.is_well_formed());
    let mut stale = d.clone();
    stale.subintervals.get_mut(&16716348000).unwrap().checksum = 1;
    assert!(!stale.is_well_formed());
    let mut dangling = d.clone();
    dangling.subintervals.remove(&16716348000);
    assert!(!dangling.is_well_formed());
}

#[test]
fn inconsistent_digest_is_rebuilt_on_update() {
    let d = Digest::create_digest(ts(T), config(), log(), 1671634800);
    let mut stale = d.clone();
    stale.subintervals.get_mut(&16716348000).unwrap().checksum = 1;
    stale.checksum = 2;
    let updated = Digest::update_digest(stale, 1671634800, ts(T), Vec::new(), Vec::new());
    assert_eq!(updated, d);
    assert!(updated.is_well_formed());
}
