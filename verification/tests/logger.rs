use dht_spider::logger::{is_leap, HourlyLogger, LogTarget};

#[test]
fn leap_years() {
    assert!(is_leap(2000));
    assert!(is_leap(2024));
    assert!(!is_leap(1900));
    assert!(!is_leap(2023));
    assert!(is_leap(0));
    assert!(is_leap(-4));
    assert!(!is_leap(-100));
}

#[test]
fn keys_name_the_hour() {
    assert_eq!(HourlyLogger::hour_key(62_168_428_800), "1970-01-01_00");
    assert_eq!(HourlyLogger::hour_key(62_199_885_600), "1970-12-31_02");
    assert_eq!(HourlyLogger::hour_key(62_173_526_400), "1970-03-01_00");
    assert_eq!(HourlyLogger::hour_key(0), "0000-01--14_00");
    assert_eq!(HourlyLogger::hour_key(1_700_000_000), "0054-01--62_22");
    assert_eq!(HourlyLogger::hour_key(i64::MAX as u64), "292277024626-11-21_15");
    assert_eq!(HourlyLogger::hour_key(1 << 63), "-292277024626-01--351_-15");
    assert_eq!(HourlyLogger::hour_key(u64::MAX), "0000-01--14_00");
}

#[test]
fn hours_of_a_day_have_different_keys() {
    for first in 0..24u64 {
        for second in 0..24u64 {
            let a = HourlyLogger::hour_key(1_700_000_000 + first * 3600);
            let b = HourlyLogger::hour_key(1_700_000_000 + second * 3600 + 86_400 * 40);
            assert_eq!(a.ends_with(&b[b.len() - 3..]), first == second);
            if first != second {
                assert_ne!(a, b);
            }
        }
    }
}

#[test]
fn file_changes_with_the_hour() {
    let mut l = HourlyLogger::new();
    let first = match l.target(7200) {
        LogTarget::Open { key, file } => {
            assert_eq!(file, format!("{}.log", key));
            key
        },
        LogTarget::Current => panic!("no file is open"),
    };
    l.opened(first);
    assert!(matches!(l.target(7200 + 3599), LogTarget::Current));
    assert!(matches!(l.target(7200 + 3600), LogTarget::Open { .. }));
}
