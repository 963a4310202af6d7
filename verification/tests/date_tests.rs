use photors::date::{from_exif_str, from_filename, MediaDate};

fn parts(d: &MediaDate) -> (&str, &str, &str, &str) {
    (d.year.as_str(), d.month.as_str(), d.day.as_str(), d.time.as_str())
}

#[test]
fn filename_pixel_style() {
    let d = from_filename("PXL_20240209_174735042").unwrap();
    assert_eq!(parts(&d), ("2024", "02", "09", "174735042"));
}

#[test]
fn filename_dash_and_t_separators() {
    let d = from_filename("IMG-20231231-1234").unwrap();
    assert_eq!(parts(&d), ("2023", "12", "31", "1234"));
    let d = from_filename("VID_20230101T235959").unwrap();
    assert_eq!(parts(&d), ("2023", "01", "01", "235959"));
}

#[test]
fn filename_without_time() {
    let d = from_filename("20240209").unwrap();
    assert_eq!(parts(&d), ("2024", "02", "09", "000000"));
    let d = from_filename("scan_20240209x12").unwrap();
    assert_eq!(parts(&d), ("2024", "02", "09", "000000"));
    let d = from_filename("scan_20240209_").unwrap();
    assert_eq!(parts(&d), ("2024", "02", "09", "000000"));
}

#[test]
fn filename_skips_invalid_dates() {
    // 2024-13-09 is no date; the search moves on to the next window.
    assert!(from_filename("IMG_20241309_1").is_none());
    // A year out of range, then a valid stamp later on.
    let d = from_filename("x18991231_y20000101_42").unwrap();
    assert_eq!(parts(&d), ("2000", "01", "01", "42"));
    // The first valid window wins, even inside a longer run of digits.
    let d = from_filename("1202401019").unwrap();
    assert_eq!(parts(&d), ("2024", "01", "01", "000000"));
}

#[test]
fn filename_without_date() {
    assert!(from_filename("holiday").is_none());
    assert!(from_filename("").is_none());
    assert!(from_filename("2024021").is_none());
    assert!(from_filename("caf\u{e9}_2024").is_none());
}

#[test]
fn filename_with_non_ascii_text() {
    let d = from_filename("\u{e9}t\u{e9}_20220704_0930").unwrap();
    assert_eq!(parts(&d), ("2022", "07", "04", "0930"));
}

#[test]
fn exif_plain_and_quoted() {
    let d = from_exif_str("2024:03:15 14:22:01").unwrap();
    assert_eq!(parts(&d), ("2024", "03", "15", "142201"));
    let d = from_exif_str("  \"2024:03:15 14:22:01\"\n").unwrap();
    assert_eq!(parts(&d), ("2024", "03", "15", "142201"));
}

#[test]
fn exif_without_time() {
    let d = from_exif_str("2024:03:15").unwrap();
    assert_eq!(parts(&d), ("2024", "03", "15", "000000"));
    let d = from_exif_str("2024:03:15 14:22").unwrap();
    assert_eq!(parts(&d), ("2024", "03", "15", "000000"));
}

#[test]
fn exif_rejects_bad_input() {
    assert!(from_exif_str("2024-03-15 14:22:01").is_none());
    assert!(from_exif_str("2024:13:15 14:22:01").is_none());
    assert!(from_exif_str("1899:12:31 00:00:00").is_none());
    assert!(from_exif_str("2024:03:00 00:00:00").is_none());
    assert!(from_exif_str("2024:03:1").is_none());
    assert!(from_exif_str("").is_none());
    assert!(from_exif_str("abcd:03:15 14:22:01").is_none());
}

#[test]
fn exif_fields_are_digits() {
    assert!(from_exif_str("2024:+3:15 10:00:00").is_none());
    assert!(from_exif_str("+202:03:15").is_none());
    assert!(from_exif_str("2024:03: 5").is_none());
}

#[test]
fn exif_time_keeps_its_text() {
    let d = from_exif_str("2024:03:15 ab:cd:ef").unwrap();
    assert_eq!(parts(&d), ("2024", "03", "15", "abcdef"));
}

#[test]
fn exif_text_cut_inside_a_character_holds_no_date() {
    // The two-byte character starts at byte 9, inside the day field.
    assert!(from_exif_str("2024:03:1\u{e9}").is_none());
    // A date followed by a wide character at byte 10: the time field cannot
    // be cut at byte 11.
    assert!(from_exif_str("2024:03:15\u{e9}12345678").is_none());
    // Shorter than a time field: the date alone is read.
    let d = from_exif_str("2024:03:15\u{e9}").unwrap();
    assert_eq!(parts(&d), ("2024", "03", "15", "000000"));
    assert!(from_exif_str("2024-03-1\u{e9}").is_none());
}

#[test]
fn subdir_and_stem() {
    let d = from_filename("PXL_20240209_174735042").unwrap();
    assert_eq!(d.subdir(), "2024/02");
    assert_eq!(d.filename_stem(), "2024.02.09_174735042");
}
