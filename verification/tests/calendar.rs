use codex_relay::calendar::{civil_from_days, utc_date_from_unix_secs};
use codex_relay::corpus::corpus_file_name;

#[test]
fn civil_from_days_matches_known_dates() {
    assert_eq!(civil_from_days(0), (1970, 1, 1));
    assert_eq!(civil_from_days(19_723), (2024, 1, 1));
    assert_eq!(civil_from_days(20_547), (2026, 4, 4));
}

#[test]
fn civil_from_days_handles_days_before_the_epoch() {
    assert_eq!(civil_from_days(-1), (1969, 12, 31));
    assert_eq!(civil_from_days(-719_528), (0, 1, 1));
    assert_eq!(civil_from_days(-719_529), (-1, 12, 31));
}

#[test]
fn civil_from_days_follows_gregorian_leap_rules() {
    // 2000 is a leap year (divisible by 400)
    assert_eq!(civil_from_days(10_957), (2000, 1, 1));
    assert_eq!(civil_from_days(11_016), (2000, 2, 29));
    assert_eq!(civil_from_days(11_017), (2000, 3, 1));
    // 2024 is a leap year
    assert_eq!(civil_from_days(19_782), (2024, 2, 29));
    // 2100 is not (divisible by 100 but not by 400)
    assert_eq!(civil_from_days(47_540), (2100, 2, 28));
    assert_eq!(civil_from_days(47_541), (2100, 3, 1));
}

#[test]
fn civil_from_days_at_the_largest_accepted_input() {
    let (year, month, day) = civil_from_days(i64::MAX - 719_468);
    assert!(year > 0);
    assert!((1..=12).contains(&month));
    assert!((1..=31).contains(&day));
}

#[test]
fn utc_date_is_zero_padded() {
    assert_eq!(utc_date_from_unix_secs(0), "1970-01-01");
    assert_eq!(utc_date_from_unix_secs(86_399), "1970-01-01");
    assert_eq!(utc_date_from_unix_secs(86_400), "1970-01-02");
    assert_eq!(utc_date_from_unix_secs(20_547 * 86_400 + 3_600), "2026-04-04");
    assert_eq!(utc_date_from_unix_secs(11_016 * 86_400), "2000-02-29");
}

#[test]
fn utc_date_years_beyond_four_digits_are_not_truncated() {
    assert_eq!(utc_date_from_unix_secs(2_932_897 * 86_400), "10000-01-01");
}

#[test]
fn utc_date_at_the_largest_instant() {
    let text = utc_date_from_unix_secs(u64::MAX);
    let parts: Vec<&str> = text.split('-').collect();
    assert_eq!(parts.len(), 3);
    assert_eq!(parts[1].len(), 2);
    assert_eq!(parts[2].len(), 2);
}

#[test]
fn corpus_file_is_named_by_utc_date() {
    assert_eq!(corpus_file_name(0), "corpus-1970-01-01.jsonl");
    assert_eq!(corpus_file_name(19_723 * 86_400), "corpus-2024-01-01.jsonl");
}

#[test]
fn daily_file_names_sort_by_instant() {
    let instants: [u64; 7] = [
        0,
        86_399,
        86_400,
        951_782_400,   // 2000-02-29
        951_868_800,   // 2000-03-01
        1_775_260_800, // 2026-04-04
        253_402_300_799, // 9999-12-31T23:59:59Z
    ];
    for pair in instants.windows(2) {
        let (a, b) = (corpus_file_name(pair[0]), corpus_file_name(pair[1]));
        if pair[0] / 86_400 == pair[1] / 86_400 {
            assert_eq!(a, b);
        } else {
            assert!(a < b, "{a} should sort before {b}");
        }
    }
    assert_eq!(corpus_file_name(253_402_300_799), "corpus-9999-12-31.jsonl");
}
