use bip110_crawler::time::{civil_date, iso_before, iso_from_unix, iso_secs_ago, now_iso, YEAR_10000};

#[test]
fn iso_is_fixed_width_and_orders_chronologically() {
    assert_eq!(iso_from_unix(1_609_459_200), "2021-01-01T00:00:00Z");
    assert!(iso_from_unix(1_609_459_200) < iso_from_unix(1_609_459_201));
    assert!(iso_from_unix(1_000_000_000) < iso_from_unix(2_000_000_000));
    assert_eq!(iso_from_unix(0), "1970-01-01T00:00:00Z");
}

#[test]
fn cutoff_is_in_the_past() {
    assert!(iso_secs_ago(3600) < now_iso());
}

#[test]
fn leap_days_and_ends_of_years_are_counted() {
    assert_eq!(iso_from_unix(1_709_164_800), "2024-02-29T00:00:00Z");
    assert_eq!(iso_from_unix(1_735_689_599), "2024-12-31T23:59:59Z");
    assert_eq!(iso_from_unix(4_107_542_400), "2100-03-01T00:00:00Z");
    assert_eq!(iso_from_unix(YEAR_10000 - 1), "9999-12-31T23:59:59Z");
    let d = civil_date(0);
    assert_eq!((d.year, d.month, d.day), (1970, 1, 1));
}

#[test]
fn a_cutoff_before_the_epoch_is_the_epoch() {
    assert_eq!(iso_before(10, 20), "1970-01-01T00:00:00Z");
    assert_eq!(iso_before(1_609_459_260, 60), "2021-01-01T00:00:00Z");
}

#[test]
fn the_present_is_read_from_the_clock() {
    assert!(now_iso().as_str() > "2024-01-01T00:00:00Z");
    assert_eq!(now_iso().len(), 20);
}
