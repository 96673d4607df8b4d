use session_log::docs::{is_html, with_dark_theme};
use session_log::error::ApiError;
use session_log::text::{checked_id, is_uuid, trim_text, trimmed_body};
use session_log::time::{is_newer, parse_instant, utc_micros};

#[test]
fn uuid_shape() {
    assert!(is_uuid("00000000-0000-4000-8000-000000000001"));
    assert!(is_uuid("abcdef01-2345-6789-abcd-ef0123456789"));
    assert!(!is_uuid("ABCDEF01-2345-6789-ABCD-EF0123456789"));
    assert!(!is_uuid("00000000-0000-4000-8000-00000000001"));
    assert!(!is_uuid("00000000-0000-4000-8000-0000000000011"));
    assert!(!is_uuid("000000000-000-4000-8000-000000000001"));
    assert!(!is_uuid("00000000-0000-4000-8000-00000000000g"));
    assert!(!is_uuid("00000000-0000-4000-8000-00000000000é"));
    assert!(!is_uuid(""));
    assert!(!is_uuid("7"));
}

#[test]
fn ids_are_trimmed_before_the_check() {
    assert_eq!(
        checked_id(" 00000000-0000-4000-8000-000000000001\t").unwrap(),
        "00000000-0000-4000-8000-000000000001"
    );
    assert_eq!(checked_id("x").unwrap_err(), ApiError::BadId);
}

#[test]
fn bodies_are_trimmed_and_blank_is_refused() {
    assert_eq!(trimmed_body("  a b  ").unwrap(), "a b");
    assert_eq!(trimmed_body("\u{2003}x\u{2029}").unwrap(), "x");
    assert_eq!(trimmed_body(" \n\t\u{3000}").unwrap_err(), ApiError::EmptyBody);
    assert_eq!(trimmed_body("").unwrap_err(), ApiError::EmptyBody);
    assert_eq!(trim_text("\u{200b}x"), "\u{200b}x");
    assert_eq!(trim_text(" é "), "é");
}

#[test]
fn rfc3339_times_read_as_microseconds() {
    assert_eq!(parse_instant("1970-01-01T00:00:00Z"), Some(0));
    assert_eq!(parse_instant("2020-01-01T00:00:00Z"), Some(1_577_836_800_000_000));
    assert_eq!(parse_instant("2020-01-01T01:00:00+01:00"), Some(1_577_836_800_000_000));
    assert_eq!(parse_instant("1970-01-01T00:00:00.0000005Z"), Some(1));
    assert_eq!(parse_instant("1970-01-01T00:00:00.0000004Z"), Some(0));
    assert_eq!(parse_instant("1969-12-31T23:59:59.9999995Z"), Some(0));
    assert_eq!(parse_instant("yesterday"), None);
    assert_eq!(parse_instant(""), None);
}

#[test]
fn rounding_to_microseconds() {
    assert_eq!(utc_micros(1, 499), 1_000_000);
    assert_eq!(utc_micros(1, 500), 1_000_001);
    assert_eq!(utc_micros(-1, 999_999_999), -1 + 1);
    assert_eq!(utc_micros(0, 1_234_567), 1_235);
}

#[test]
fn newer_than_the_last_sync() {
    assert!(is_newer(5, None));
    assert!(is_newer(5, Some(4)));
    assert!(!is_newer(5, Some(5)));
    assert!(!is_newer(4, Some(5)));
}

#[test]
fn each_error_has_its_answer() {
    let cases = [
        (ApiError::EmptyBody, 400, "body must not be empty"),
        (ApiError::BadId, 400, "id must be a uuid"),
        (ApiError::DuplicateId, 409, "id already used"),
        (ApiError::NotFound, 404, "not found"),
        (ApiError::BadTime, 400, "bad time"),
    ];
    for (err, status, text) in cases {
        assert_eq!(err.status(), status);
        assert_eq!(err.message(), text);
    }
}

#[test]
fn docs_page_gets_the_dark_sheet() {
    let page = with_dark_theme("<html><head><title>x</title></head><body></body></html>");
    assert_eq!(
        page,
        "<html><head><title>x</title><link rel=\"stylesheet\" href=\"/api/docs/dark.css\" /></head><body></body></html>"
    );
    let already = "<head><link href=\"/api/docs/dark.css\"></head>";
    assert_eq!(with_dark_theme(already), already);
    assert_eq!(with_dark_theme("no head here"), "no head here");
    assert_eq!(
        with_dark_theme("</head></head>").matches("dark.css").count(),
        2
    );
}

#[test]
fn html_content_types() {
    assert!(is_html("text/html; charset=utf-8"));
    assert!(is_html("text/html"));
    assert!(!is_html("application/json"));
    assert!(!is_html(""));
}

#[test]
fn dark_page_is_made_once() {
    for html in [
        "<html><head></head><body></body></html>",
        "</head></head>",
        "no head",
        "<head><link href=\"dark.css\"></head>",
    ] {
        let once = with_dark_theme(html);
        assert_eq!(with_dark_theme(&once), once);
    }
}

#[test]
fn rounding_far_from_the_epoch() {
    assert_eq!(utc_micros(9_000_000_000_000, 999_999), 9_000_000_000_000_001_000);
    assert_eq!(utc_micros(-9_000_000_000_000, 500), -8_999_999_999_999_999_999);
}
