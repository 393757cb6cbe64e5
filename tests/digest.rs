use std::collections::HashMap;
use overlay_core::digest::{Digest, DigestConfig, EraType, Eras, Interval, SubInterval};
use overlay_core::entry::{LogEntry, Timestamp};

fn ts(text: &str) -> Timestamp {
    let t = uhlc::Timestamp::parse_rfc3339(text).unwrap();
    Timestamp {
        time: t.get_time().as_u64(),
        id: u128::from_le_bytes(t.get_id().to_le_bytes()),
    }
}

fn entry(time: &str, key: &str) -> LogEntry {
    LogEntry {
        timestamp: ts(time),
        key: key.to_string(),
    }
}

fn config() -> DigestConfig {
    DigestConfig {
        delta: 1000,
        sub_intervals: 10,
        hot: 6,
        warm: 30,
    }
}

fn no_eras() -> Eras {
    Eras {
        hot: None,
        warm: None,
        cold: None,
    }
}

fn empty_digest(time: &str) -> Digest {
    Digest {
        timestamp: ts(time),
        config: config(),
        checksum: 0,
        eras: no_eras(),
        intervals: HashMap::new(),
        subintervals: HashMap::new(),
    }
}

fn one_entry_digest(eras: Eras) -> Digest {
    Digest {
        timestamp: ts("2022-12-21T15:00:00.000000000Z/1"),
        config: config(),
        checksum: 6001159706341373391,
        eras,
        intervals: HashMap::from([(
            1671634800,
            Interval {
                checksum: 8436018757196527319,
                content: vec![16716348000],
            },
        )]),
        subintervals: HashMap::from([(
            16716348000,
            SubInterval {
                checksum: 10827088509365589085,
                content: vec![entry("2022-12-21T15:00:00.000000000Z/1", "demo/example/a")],
            },
        )]),
    }
}

fn era_bucket() -> Option<Interval> {
    Some(Interval {
        checksum: 4598971083408074426,
        content: vec![1671634800],
    })
}

#[test]
fn test_create_digest_empty_initial() {
    let created = Digest::create_digest(
        ts("2022-12-21T15:00:00.000000000Z/1"),
        config(),
        Vec::new(),
        1671612730,
    );
    let expected = empty_digest("2022-12-21T15:00:00.000000000Z/1");
    assert_eq!(created, expected);
}

#[test]
fn test_create_digest_with_initial_hot() {
    let created = Digest::create_digest(
        ts("2022-12-21T15:00:00.000000000Z/1"),
        config(),
        vec![entry("2022-12-21T15:00:00.000000000Z/1", "demo/example/a")],
        1671634800,
    );
    let expected = one_entry_digest(Eras {
        hot: era_bucket(),
        warm: None,
        cold: None,
    });
    assert_eq!(created, expected);
}

#[test]
fn test_create_digest_with_initial_warm() {
    let created = Digest::create_digest(
        ts("2022-12-21T15:00:00.000000000Z/1"),
        config(),
        vec![entry("2022-12-21T15:00:00.000000000Z/1", "demo/example/a")],
        1671634810,
    );
    let expected = one_entry_digest(Eras {
        hot: None,
        warm: era_bucket(),
        cold: None,
    });
    assert_eq!(created, expected);
}

#[test]
fn test_create_digest_with_initial_cold() {
    let created = Digest::create_digest(
        ts("2022-12-21T15:00:00.000000000Z/1"),
        config(),
        vec![entry("2022-12-21T15:00:00.000000000Z/1", "demo/example/a")],
        1671634910,
    );
    let expected = one_entry_digest(Eras {
        hot: None,
        warm: None,
        cold: era_bucket(),
    });
    assert_eq!(created, expected);
}

#[test]
fn test_update_digest_add_content() {
    let created = Digest::update_digest(
        empty_digest("2022-12-21T13:00:00.000000000Z/1"),
        1671634910,
        ts("2022-12-21T15:00:00.000000000Z/1"),
        vec![entry("2022-12-21T15:00:00.000000000Z/1", "demo/example/a")],
        Vec::new(),
    );
    let expected = one_entry_digest(Eras {
        hot: None,
        warm: None,
        cold: era_bucket(),
    });
    assert_eq!(created, expected);
}

#[test]
fn test_update_digest_remove_content() {
    let created = Digest::update_digest(
        Digest {
            timestamp: ts("2022-12-21T13:00:00.000000000Z/1"),
            config: config(),
            checksum: 3304302629246049840,
            eras: Eras {
                hot: None,
                warm: None,
                cold: Some(Interval {
                    checksum: 8238986480495191270,
                    content: vec![1671634800],
                }),
            },
            intervals: HashMap::from([(
                1671634800,
                Interval {
                    checksum: 12344398372324783476,
                    content: vec![16716348000],
                },
            )]),
            subintervals: HashMap::from([(
                16716348000,
                SubInterval {
                    checksum: 10007212639402189432,
                    content: vec![entry("2022-12-21T15:00:00.000000000Z/1", "demo/example/a")],
                },
            )]),
        },
        1671634910,
        ts("2022-12-21T15:00:00.000000000Z/1"),
        Vec::new(),
        vec![entry("2022-12-21T15:00:00.000000000Z/1", "demo/example/a")],
    );
    let expected = empty_digest("2022-12-21T15:00:00.000000000Z/1");
    assert_eq!(created, expected);
}

#[test]
fn test_update_remove_digest() {
    let created = Digest::create_digest(
        ts("2022-12-21T15:00:00.000000000Z/1"),
        config(),
        Vec::new(),
        1671612730,
    );
    let added = Digest::update_digest(
        created.clone(),
        1671612730,
        ts("2022-12-21T15:00:00.000000000Z/1"),
        vec![entry("2022-12-21T12:00:00.000000000Z/1", "a/b/c")],
        Vec::new(),
    );
    assert_ne!(created, added);

    let removed = Digest::update_digest(
        added.clone(),
        1671612730,
        ts("2022-12-21T15:00:00.000000000Z/1"),
        Vec::new(),
        vec![entry("2022-12-21T12:00:00.000000000Z/1", "a/b/c")],
    );
    assert_eq!(created, removed);

    let added_again = Digest::update_digest(
        removed,
        1671612730,
        ts("2022-12-21T15:00:00.000000000Z/1"),
        vec![entry("2022-12-21T12:00:00.000000000Z/1", "a/b/c")],
        Vec::new(),
    );
    assert_eq!(added, added_again);
}
