#![allow(clippy::unwrap_used, clippy::expect_used, clippy::panic)]

//! CamelCase splitting is off by default: CamelCase / PascalCase tokens
//! pass through untouched.
//!
//! The examples in `name_examples.rs` set `split_camel = true`.

use fren_date::SlugOpts;
use fren_date::CaseMode;

fn default_slug_opts() -> SlugOpts {
    // Defaults: separator '-', case Preserve, split_camel false.
    SlugOpts::default()
}

fn slug(input: &str) -> String {
    fren_date::slugify_camel_iso_with_year(input, &default_slug_opts(), 2024)
}

// Bare CamelCase / PascalCase tokens stay intact.

#[test]
fn whats_app_stays_glued() {
    assert_eq!(slug("WhatsApp"), "WhatsApp");
}

#[test]
fn json_file_stays_glued() {
    assert_eq!(slug("JSONFile"), "JSONFile");
}

#[test]
fn camel_case_token_stays_glued() {
    assert_eq!(slug("CamelCase"), "CamelCase");
}

#[test]
fn pascal_case_token_stays_glued() {
    assert_eq!(slug("PascalCase"), "PascalCase");
}

#[test]
fn lower_camel_token_stays_glued() {
    assert_eq!(slug("myVariable"), "myVariable");
}

// Mixed tokens with spaces still get spaces converted to the separator,
// but the CamelCase tokens themselves remain unsplit.
//
// Note: these tests pass full filenames including extensions because
// the slugify function under test operates on whole strings; the rename
// planner splits stem from extension before calling it. Here
// we just want to verify CamelCase boundaries don't split unexpectedly.

#[test]
fn camel_in_phrase_keeps_tokens_intact() {
    assert_eq!(
        slug("CamelCase pascalCase WhatsApp"),
        "CamelCase-pascalCase-WhatsApp"
    );
}

// Date detection still works without camel splitting. The "at" pattern
// for WhatsApp datetime stays on regardless of split_camel.

#[test]
fn whatsapp_at_pattern_still_detected_without_split() {
    assert_eq!(
        slug("WhatsApp Image 2024-01-15 at 12.30.45"),
        "WhatsApp-Image-2024-01-15T12-30-45"
    );
}

#[test]
fn date_detected_alongside_camel_token() {
    assert_eq!(
        slug("WhatsApp Photo 2024-01-15"),
        "WhatsApp-Photo-2024-01-15"
    );
}

// Explicit opt-in via split_camel = true (one sanity check; the examples
// in name_examples.rs cover more).

#[test]
fn explicit_split_camel_works() {
    let opts = SlugOpts {
        separator: '-',
        case: CaseMode::Preserve,
        split_camel: true,
    };
    let out = fren_date::slugify_camel_iso_with_year("WhatsApp Image", &opts, 2024);
    assert_eq!(out, "Whats-App-Image");
}

#[test]
fn explicit_split_camel_with_underscore_separator() {
    let opts = SlugOpts {
        separator: '_',
        case: CaseMode::Preserve,
        split_camel: true,
    };
    let out = fren_date::slugify_camel_iso_with_year("PascalCase", &opts, 2024);
    assert_eq!(out, "Pascal_Case");
}

#[test]
fn iso_t_datetime_without_seconds() {
    // 2026-05-27T1321 -> 2026-05-27T13-21-00
    assert_eq!(
        slug("my-file-2026-05-27T1321"),
        "my-file-2026-05-27T13-21-00"
    );
}

#[test]
fn compact_datetime_without_seconds() {
    // 202605271321 -> 2026-05-27T13-21-00
    assert_eq!(
        slug("my-file-202605271321"),
        "my-file-2026-05-27T13-21-00"
    );
}

#[test]
fn lower_case_mode_keeps_iso_datetime() {
    let opts = SlugOpts {
        separator: '-',
        case: CaseMode::Lower,
        split_camel: false,
    };
    let (slug, det) =
        fren_date::slugify_camel_iso_detect("inverted 2017_12_30_10_44_56 bla", &opts, 2019);
    let d = det.expect("date");
    assert_eq!(d.iso_string, "2017-12-30T10-44-56");
    assert!(slug.contains(&d.iso_string), "iso string in slug: {slug}");
    assert_eq!(slug, "inverted-2017-12-30T10-44-56-bla");
    assert_eq!(
        fren_date::slugify_camel_iso_with_year("Meeting AT 2024-01-15 10-20-30", &opts, 2024),
        "meeting-at-2024-01-15T10-20-30"
    );
}
