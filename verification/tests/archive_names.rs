use peergos_fs::archive::names::{decode_name, normalise_path, CP437_HIGH};
use peergos_fs::archive::{days_from_civil, dos_time_to_millis, millis_to_dos_time};
use peergos_fs::archive::civil_from_days;

#[test]
fn paths_are_normalised_and_escapes_rejected() {
    assert_eq!(normalise_path("/a/./b/").as_deref(), Some("a/b"));
    assert_eq!(normalise_path("C:\\dir\\f.txt").as_deref(), Some("dir/f.txt"));
    assert_eq!(normalise_path("a/../b"), None);
}

#[test]
fn normalising_twice_is_normalising_once() {
    for p in ["/a/./b/", "x", "a//b", ""] {
        let once = normalise_path(p);
        if let Some(o) = &once {
            assert_eq!(normalise_path(o), once);
        }
    }
}

#[test]
fn dos_times_round_trip() {
    let millis = days_from_civil(2026, 9, 25) * 86_400_000 + (13 * 3600 + 14 * 60 + 16) * 1000;
    let (t, d) = millis_to_dos_time(millis);
    assert_eq!(dos_time_to_millis(t, d), millis);
    assert_eq!(millis_to_dos_time(0), (0, 0x21), "before 1980 clamps to its start");
}

#[test]
fn dates_and_day_counts_agree() {
    assert_eq!(days_from_civil(1970, 1, 1), 0);
    assert_eq!(days_from_civil(2000, 3, 1), 11_017);
    assert_eq!(civil_from_days(11_016), (2000, 2, 29));
    for d in [-719_468i64, -1, 0, 59, 60, 20_000, i64::MIN, i64::MAX, 5_000_000_000_000_000_000] {
        let (y, m, day) = civil_from_days(d);
        assert_eq!(days_from_civil(y, m, day), d);
    }
}

#[test]
fn no_dos_date_is_no_time() {
    assert_eq!(dos_time_to_millis(0, 0), 0);
}

#[test]
fn cp437_table_is_complete() {
    assert_eq!(CP437_HIGH.chars().count(), 128);
}

#[test]
fn cp437_names_decode() {
    assert_eq!(decode_name(&[b'a', 0x81, 0xE1], false).unwrap(), "aüß");
}

#[test]
fn utf8_names_decode() {
    assert_eq!(decode_name("aüß".as_bytes(), true).unwrap(), "aüß");
}
