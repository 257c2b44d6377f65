//! Instants written the way snapshots and sightings are stamped.

use mlab_unifi::calendar::iso8601;
use mlab_unifi::snapshot::file_name;

#[test]
fn the_epoch_is_the_first_second_of_1970() {
    assert_eq!(iso8601(0), "1970-01-01T00:00:00Z");
    assert_eq!(iso8601(1_700_000_000), "2023-11-14T22:13:20Z");
}

#[test]
fn the_second_before_the_epoch_ends_1969() {
    assert_eq!(iso8601(-1), "1969-12-31T23:59:59Z");
}

#[test]
fn leap_days_follow_the_gregorian_rule() {
    assert_eq!(iso8601(951_782_400), "2000-02-29T00:00:00Z");
    assert_eq!(iso8601(4_107_542_399), "2100-02-28T23:59:59Z");
    assert_eq!(iso8601(4_107_542_400), "2100-03-01T00:00:00Z");
}

#[test]
fn years_are_four_wide_and_signed_before_year_zero() {
    assert_eq!(iso8601(-62_167_219_200), "0000-01-01T00:00:00Z");
    assert_eq!(iso8601(-62_167_301_939), "-001-12-31T01:01:01Z");
    assert_eq!(iso8601(253_402_300_800), "10000-01-01T00:00:00Z");
}

#[test]
fn every_second_an_i64_holds_has_a_date() {
    assert_eq!(iso8601(i64::MAX), "292277026596-12-04T15:30:07Z");
    assert_eq!(iso8601(i64::MIN), "-292277022657-01-27T08:29:52Z");
}

#[test]
fn snapshot_names_sort_in_the_order_they_were_taken() {
    let instants = [
        -62_167_219_200i64,
        -1,
        0,
        35_999,
        36_000,
        951_868_799,
        951_868_800,
        1_704_067_199,
        1_704_067_200,
        253_402_300_799,
    ];
    let names: Vec<String> = instants.iter().map(|t| file_name(&iso8601(*t))).collect();
    let mut sorted = names.clone();
    sorted.sort();
    assert_eq!(names, sorted);
    assert_eq!(names[2], "1970-01-01T000000Z.json");
}
