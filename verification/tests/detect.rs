//! Date detection over `_`-separated text.

use fren_date::{detect_and_replace, detect_and_replace_with_span, slugify_camel_iso_detect, slugify_camel_iso_with_year, try_date, DateKind, SlugOpts};

#[test]
fn detect_span_basic() {
    // Input uses underscores as pipeline separator, date is DD_MM_YYYY
    let input = "IMG_01_12_2025_something";
    let (output, maybe) = detect_and_replace_with_span(input, '_', 2025);
    let detected = maybe.expect("should detect a date");
    assert_eq!(detected.iso_string, "2025-12-01");
    assert_eq!(&output[detected.byte_start..detected.byte_end], "2025-12-01");
}

#[test]
fn detect_span_first_date_wins_when_multiple() {
    // Two dates in the input; the leftmost one should be returned
    let input = "Meeting_2024_01_15_review_2023_11_20";
    let (output, maybe) = detect_and_replace_with_span(input, '_', 2024);
    let detected = maybe.expect("should detect a date");
    assert_eq!(detected.iso_string, "2024-01-15");
    assert_eq!(&output[detected.byte_start..detected.byte_end], "2024-01-15");
    // Second date is also substituted in the output
    assert!(
        output.contains("2023-11-20"),
        "second date should also be substituted"
    );
}

#[test]
fn detect_span_no_date_returns_none() {
    let input = "just_some_text";
    let (output, maybe) = detect_and_replace_with_span(input, '_', 2025);
    assert!(maybe.is_none());
    assert_eq!(output, input);
}

#[test]
fn detect_variant_returns_detected_date() {
    // Stem only (no extension), space-separated, date is DD-MM-YYYY
    let input = "IMG 01-12-2025 something";
    let (slug, maybe) = slugify_camel_iso_detect(input, &SlugOpts::default(), 2024);
    let detected = maybe.expect("should detect a date");
    assert_eq!(detected.iso_string, "2025-12-01");
    assert!(
        slug.contains("2025-12-01"),
        "slug should contain iso date, got: {slug}"
    );
}

#[test]
fn detect_variant_returns_none_for_no_date() {
    let input = "some file name";
    let (slug, maybe) = slugify_camel_iso_detect(input, &SlugOpts::default(), 2024);
    assert!(maybe.is_none());
    assert_eq!(slug, "some-file-name");
}

#[test]
fn detect_variant_matches_with_year_for_same_input() {
    let inputs = [
        "IMG_01_12_2025_something",
        "Meeting 2024-01-15 notes",
        "plain text no date",
    ];
    let opts = SlugOpts::default();
    let year = 2024;
    for input in inputs {
        let (slug_detect, _) = slugify_camel_iso_detect(input, &opts, year);
        let slug_plain = slugify_camel_iso_with_year(input, &opts, year);
        assert_eq!(
            slug_detect, slug_plain,
            "slugify_camel_iso_detect slug must match slugify_camel_iso_with_year for input: {input}"
        );
    }
}

#[test]
fn try_date_formats_and_kinds() {
    assert_eq!(try_date("2017_12_30", 2019), Some(("2017-12-30".to_string(), DateKind::DateOnly)));
    assert_eq!(try_date("30_12_2017", 2019), Some(("2017-12-30".to_string(), DateKind::DateOnly)));
    assert_eq!(try_date("08_1975", 2019), Some(("1975-08".to_string(), DateKind::MonthOnly)));
    assert_eq!(
        try_date("20180726_224001", 2019),
        Some(("2018-07-26T22-40-01".to_string(), DateKind::DateTime))
    );
    assert_eq!(try_date("31_02_2019", 2019), None);
    assert_eq!(try_date("abc", 2019), None);
}

#[test]
fn try_date_two_digit_year_century_rule() {
    // 27 is within ten years of 2019: 2027. 75 is not: 1975.
    assert_eq!(try_date("27_11_27", 2019), Some(("2027-11-27".to_string(), DateKind::DateOnly)));
    assert_eq!(try_date("290875", 2019), Some(("1975-08-29".to_string(), DateKind::DateOnly)));
    assert_eq!(try_date("010130", 2019), Some(("1930-01-01".to_string(), DateKind::DateOnly)));
    assert_eq!(try_date("010129", 2019), Some(("2029-01-01".to_string(), DateKind::DateOnly)));
}

#[test]
fn try_date_unpadded_shapes() {
    assert_eq!(try_date("2024_1_5", 2024), Some(("2024-01-05".to_string(), DateKind::DateOnly)));
    // day/month/year first
    assert_eq!(try_date("5_1_2024", 2024), Some(("2024-01-05".to_string(), DateKind::DateOnly)));
    // month/day/year when day/month is not a date
    assert_eq!(try_date("1_13_2024", 2024), Some(("2024-01-13".to_string(), DateKind::DateOnly)));
    assert_eq!(try_date("13_13_2024", 2024), None);
}

#[test]
fn detect_windows_keep_surrounding_segments() {
    assert_eq!(detect_and_replace("3_29_5_2026", '_', 2026), "_3_2026-05-29_");
    assert_eq!(detect_and_replace("20260406_225315_810", '_', 2026), "_2026-04-06T22-53-15_810_");
    assert_eq!(detect_and_replace("no_digits_here", '_', 2026), "no_digits_here");
}

#[test]
fn detect_span_counts_bytes_of_non_ascii_prefix() {
    let (output, maybe) = detect_and_replace_with_span("é_2024_01_15", '_', 2024);
    let d = maybe.expect("date");
    assert_eq!(&output[d.byte_start..d.byte_end], "2024-01-15");
    assert_eq!(d.byte_start, 4);
}
