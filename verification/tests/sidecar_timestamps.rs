use photo_restamp::error::InjectError;
use photo_restamp::sidecar::{
    choose_timestamp, image_title, moment_from_fields, normalize, parse_epoch, read_record,
    timestamp_from_epoch, timestamp_from_formatted,
};

fn doc(text: &str) -> serde_json::Value {
    serde_json::from_str(text).unwrap()
}

fn rendered(ts: &photo_restamp::timestamp::NormalizedTimestamp) -> String {
    String::from_utf8(ts.render()).unwrap()
}

#[test]
fn epoch_seconds_give_the_calendar_fields() {
    assert_eq!(rendered(&timestamp_from_epoch("1609459200").unwrap()), "2021:01:01 00:00:00");
    assert_eq!(rendered(&timestamp_from_epoch("1609459199").unwrap()), "2020:12:31 23:59:59");
    assert_eq!(rendered(&timestamp_from_epoch("0").unwrap()), "1970:01:01 00:00:00");
    assert_eq!(rendered(&timestamp_from_epoch("-1").unwrap()), "1969:12:31 23:59:59");
    assert_eq!(rendered(&timestamp_from_epoch("951827696").unwrap()), "2000:02:29 12:34:56");
    assert_eq!(rendered(&timestamp_from_epoch("0001609459200").unwrap()), "2021:01:01 00:00:00");
}

#[test]
fn epoch_seconds_outside_four_digit_years_are_refused() {
    assert_eq!(rendered(&timestamp_from_epoch("253402300799").unwrap()), "9999:12:31 23:59:59");
    assert!(timestamp_from_epoch("253402300800").is_none());
    assert_eq!(rendered(&timestamp_from_epoch("-62167219200").unwrap()), "0000:01:01 00:00:00");
    assert!(timestamp_from_epoch("-62167219201").is_none());
    assert!(timestamp_from_epoch("9223372036854775807").is_none());
    assert!(timestamp_from_epoch("-9223372036854775808").is_none());
}

#[test]
fn epoch_texts_are_an_optional_sign_and_digits() {
    assert_eq!(parse_epoch("0"), Some(0));
    assert_eq!(parse_epoch("-0"), Some(0));
    assert_eq!(parse_epoch("007"), Some(7));
    assert_eq!(parse_epoch("1609459200"), Some(1609459200));
    assert_eq!(parse_epoch("-1609459200"), Some(-1609459200));
    assert_eq!(parse_epoch("9223372036854775807"), Some(i64::MAX));
    assert_eq!(parse_epoch("-9223372036854775808"), Some(i64::MIN));
    assert_eq!(parse_epoch("9223372036854775808"), None);
    assert_eq!(parse_epoch("-9223372036854775809"), None);
    assert_eq!(parse_epoch("99999999999999999999999999"), None);
    assert_eq!(parse_epoch("00000000000000000000000000001"), Some(1));
    assert_eq!(parse_epoch(""), None);
    assert_eq!(parse_epoch("-"), None);
    assert_eq!(parse_epoch("+1"), None);
    assert_eq!(parse_epoch("--1"), None);
    assert_eq!(parse_epoch("1-"), None);
    assert_eq!(parse_epoch("12a"), None);
    assert_eq!(parse_epoch(" 12"), None);
    assert_eq!(parse_epoch("12 "), None);
    assert_eq!(parse_epoch("1.5"), None);
    assert_eq!(parse_epoch("٣"), None);
    assert_eq!(parse_epoch("99999999999999999999x"), None);
}

#[test]
fn formatted_dates_give_the_calendar_fields() {
    assert_eq!(
        rendered(&timestamp_from_formatted("Jan 1, 2021 12:00:00 AM UTC").unwrap()),
        "2021:01:01 00:00:00"
    );
    assert_eq!(
        rendered(&timestamp_from_formatted("Dec 31, 2020 11:59:59 PM UTC").unwrap()),
        "2020:12:31 23:59:59"
    );
    assert_eq!(
        rendered(&timestamp_from_formatted("Feb 29, 2020 1:02:03 PM UTC").unwrap()),
        "2020:02:29 13:02:03"
    );
    assert_eq!(
        rendered(&timestamp_from_formatted("Jul 04, 1999 12:30:45 PM UTC").unwrap()),
        "1999:07:04 12:30:45"
    );
}

#[test]
fn formatted_dates_that_do_not_fit_the_pattern_are_refused() {
    assert!(timestamp_from_formatted("").is_none());
    assert!(timestamp_from_formatted("2021-01-01 00:00:00").is_none());
    assert!(timestamp_from_formatted("Jan 1, 2021 12:00:00 AM").is_none());
    assert!(timestamp_from_formatted("Jan 1, 2021 12:00:00 UTC").is_none());
    assert!(timestamp_from_formatted("Jan 1, 2021 13:00:00 PM UTC").is_none());
    assert!(timestamp_from_formatted("Feb 30, 2021 1:00:00 AM UTC").is_none());
    assert!(timestamp_from_formatted("Foo 1, 2021 1:00:00 AM UTC").is_none());
    assert!(timestamp_from_formatted("Jan 1, 2021 1:00:00 AM UTC and more").is_none());
    assert!(timestamp_from_formatted("1609459200").is_none());
}

#[test]
fn fields_that_name_no_date_are_refused() {
    assert_eq!(
        rendered(&moment_from_fields(Some((2021, 1, 1, 0, 0, 0))).unwrap()),
        "2021:01:01 00:00:00"
    );
    assert!(moment_from_fields(None).is_none());
    assert!(moment_from_fields(Some((2021, 2, 30, 0, 0, 0))).is_none());
    assert!(moment_from_fields(Some((10000, 1, 1, 0, 0, 0))).is_none());
    assert!(moment_from_fields(Some((-1, 1, 1, 0, 0, 0))).is_none());
    assert!(moment_from_fields(Some((2021, 1, 1, 0, 0, 60))).is_none());
}

#[test]
fn the_epoch_field_is_read_first() {
    let ts = choose_timestamp(
        Some("1609459200".to_string()),
        Some("Dec 31, 2020 11:59:59 PM UTC".to_string()),
    )
    .unwrap();
    assert_eq!(rendered(&ts), "2021:01:01 00:00:00");
}

#[test]
fn the_formatted_field_is_the_fallback() {
    let ts = choose_timestamp(None, Some("Dec 31, 2020 11:59:59 PM UTC".to_string())).unwrap();
    assert_eq!(rendered(&ts), "2020:12:31 23:59:59");
    let ts = choose_timestamp(
        Some("not a number".to_string()),
        Some("Dec 31, 2020 11:59:59 PM UTC".to_string()),
    )
    .unwrap();
    assert_eq!(rendered(&ts), "2020:12:31 23:59:59");
    let ts = choose_timestamp(
        Some("253402300800".to_string()),
        Some("Dec 31, 2020 11:59:59 PM UTC".to_string()),
    )
    .unwrap();
    assert_eq!(rendered(&ts), "2020:12:31 23:59:59");
}

#[test]
fn fields_that_cannot_be_read_are_malformed() {
    assert_eq!(
        choose_timestamp(Some("x".to_string()), None).unwrap_err(),
        InjectError::MalformedTimestamp
    );
    assert_eq!(
        choose_timestamp(None, Some("x".to_string())).unwrap_err(),
        InjectError::MalformedTimestamp
    );
    assert_eq!(
        choose_timestamp(Some("x".to_string()), Some("y".to_string())).unwrap_err(),
        InjectError::MalformedTimestamp
    );
    assert_eq!(
        choose_timestamp(Some("253402300800".to_string()), None).unwrap_err(),
        InjectError::MalformedTimestamp
    );
    assert_eq!(choose_timestamp(None, None).unwrap_err(), InjectError::MissingField);
}

#[test]
fn a_record_gives_both_timestamps() {
    let d = doc(
        "{\"title\":\"a.jpg\",\"photoTakenTime\":{\"timestamp\":\"1609459200\",\"formatted\":\"x\"},\
         \"creationTime\":{\"formatted\":\"Dec 31, 2020 11:59:59 PM UTC\"}}",
    );
    let (taken, created) = normalize(&d).unwrap();
    assert_eq!(rendered(&taken), "2021:01:01 00:00:00");
    assert_eq!(rendered(&created), "2020:12:31 23:59:59");
    assert_eq!(rendered(&read_record(&d, "creationTime").unwrap()), "2020:12:31 23:59:59");
}

#[test]
fn a_record_without_a_date_is_missing_a_field() {
    let taken = "\"photoTakenTime\":{\"timestamp\":\"1609459200\"}";
    for text in [
        "{}".to_string(),
        "null".to_string(),
        "[1,2]".to_string(),
        "\"photoTakenTime\"".to_string(),
        format!("{{{}}}", taken),
        format!("{{{},\"creationTime\":{{}}}}", taken),
        format!("{{{},\"creationTime\":null}}", taken),
        format!("{{{},\"creationTime\":\"1609459200\"}}", taken),
        format!("{{{},\"creationTime\":{{\"timestamp\":1609459200}}}}", taken),
        format!("{{{},\"creationTime\":{{\"Timestamp\":\"1609459200\"}}}}", taken),
        format!("{{{},\"creationtime\":{{\"timestamp\":\"1609459200\"}}}}", taken),
        "{\"creationTime\":{\"timestamp\":\"1609459200\"}}".to_string(),
    ] {
        assert_eq!(normalize(&doc(&text)).unwrap_err(), InjectError::MissingField);
    }
}

#[test]
fn a_record_with_an_unreadable_date_is_malformed() {
    let d = doc(
        "{\"photoTakenTime\":{\"timestamp\":\"1609459200\"},\"creationTime\":{\"timestamp\":\"\"}}",
    );
    assert_eq!(normalize(&d).unwrap_err(), InjectError::MalformedTimestamp);
    let d = doc(
        "{\"photoTakenTime\":{\"formatted\":\"yesterday\"},\"creationTime\":{\"timestamp\":\"1\"}}",
    );
    assert_eq!(normalize(&d).unwrap_err(), InjectError::MalformedTimestamp);
}

#[test]
fn the_taken_time_is_read_first() {
    let d = doc("{\"photoTakenTime\":{\"timestamp\":\"x\"}}");
    assert_eq!(normalize(&d).unwrap_err(), InjectError::MalformedTimestamp);
    let d = doc("{\"creationTime\":{\"timestamp\":\"x\"}}");
    assert_eq!(normalize(&d).unwrap_err(), InjectError::MissingField);
    assert_eq!(read_record(&d, "creationTime").unwrap_err(), InjectError::MalformedTimestamp);
    assert_eq!(read_record(&d, "photoTakenTime").unwrap_err(), InjectError::MissingField);
}

#[test]
fn the_title_names_the_image() {
    assert_eq!(image_title(&doc("{\"title\":\"IMG_0001.jpg\"}")), Some("IMG_0001.jpg".to_string()));
    assert_eq!(image_title(&doc("{\"title\":\"\"}")), Some(String::new()));
    assert_eq!(image_title(&doc("{\"Title\":\"a.jpg\"}")), None);
    assert_eq!(image_title(&doc("{\"title\":7}")), None);
    assert_eq!(image_title(&doc("{\"title\":{\"title\":\"a.jpg\"}}")), None);
    assert_eq!(image_title(&doc("[\"title\"]")), None);
    assert_eq!(image_title(&doc("\"title\"")), None);
}
