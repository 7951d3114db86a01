use taynik::models::date::{date_from_day_number, local_moment};
use taynik::models::entry::Entry;

#[test]
fn unix_epoch_and_offsets() {
    assert_eq!(local_moment(0, 0), "1970-01-01 00:00");
    assert_eq!(local_moment(1_700_000_000, 0), "2023-11-14 22:13");
    assert_eq!(local_moment(1_700_000_000, 3 * 3600), "2023-11-15 01:13");
    assert_eq!(local_moment(-1, 0), "1969-12-31 23:59");
    assert_eq!(local_moment(0, -5 * 3600), "1969-12-31 19:00");
}

#[test]
fn leap_days() {
    assert_eq!(local_moment(951_782_400, 0), "2000-02-29 00:00");
    assert_eq!(local_moment(1_709_164_800, 0), "2024-02-29 00:00");
    // 1900 is not a leap year: 1 March follows 28 February.
    assert_eq!(local_moment(-2_203_891_200, 0), "1900-03-01 00:00");
}

#[test]
fn calendar_ends() {
    assert_eq!(local_moment(-62_135_596_800, 0), "1-01-01 00:00");
    assert_eq!(local_moment(-62_135_596_801, 0), "—");
    assert_eq!(local_moment(253_402_300_799, 0), "9999-12-31 23:59");
    assert_eq!(local_moment(253_402_300_800, 0), "—");
    assert_eq!(local_moment(i64::MAX, i64::MAX), "—");
    assert_eq!(local_moment(i64::MIN, 0), "—");
}

#[test]
fn day_numbers() {
    assert_eq!(date_from_day_number(0), (1, 1, 1));
    assert_eq!(date_from_day_number(719_162), (1970, 1, 1));
    assert_eq!(date_from_day_number(3_652_058), (9999, 12, 31));
}

#[test]
fn entry_change_time() {
    let mut e = Entry::default();
    e.updated_at = 1_700_000_000;
    assert_eq!(e.updated_at_str(0), "2023-11-14 22:13");
}
