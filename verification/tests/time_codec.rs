use srt_adjust::{parse_time, parse_time_checked, print_time, Reason};

#[test]
fn print_time_pads_every_part() {
    assert_eq!(print_time(0), "00:00:00,000");
    assert_eq!(print_time(7), "00:00:00,007");
    assert_eq!(print_time(1_000), "00:00:01,000");
    assert_eq!(print_time(3_723_004), "01:02:03,004");
    assert_eq!(print_time(359_999_999), "99:59:59,999");
}

#[test]
fn print_time_widens_for_a_hundred_hours() {
    assert_eq!(print_time(360_000_000), "100:00:00,000");
    assert_eq!(print_time(u32::MAX as u64), "1193:02:47,295");
    assert_eq!(print_time(u64::MAX), "5124095576030:25:51,615");
}

#[test]
fn parse_time_reads_full_timestamp() {
    assert_eq!(parse_time("01:02:03,004", 0).unwrap(), 3_723_004);
    assert_eq!(parse_time("00:00:00,000", 0).unwrap(), 0);
    assert_eq!(parse_time("99:59:59,999", 0).unwrap(), 359_999_999);
}

#[test]
fn parse_time_reads_short_forms() {
    assert_eq!(parse_time("5", 0).unwrap(), 5_000);
    assert_eq!(parse_time("5,250", 0).unwrap(), 5_250);
    assert_eq!(parse_time("2:05", 0).unwrap(), 125_000);
    assert_eq!(parse_time("2:05,5", 0).unwrap(), 125_005);
    assert_eq!(parse_time("1:2:3", 0).unwrap(), 3_723_000);
}

#[test]
fn parse_time_does_not_ask_for_fixed_widths() {
    assert_eq!(parse_time("1:2:3,4", 0).unwrap(), 3_723_004);
    assert_eq!(parse_time("0:90:75,1500", 0).unwrap(), 90 * 60_000 + 75 * 1_000 + 1_500);
    assert_eq!(parse_time("+1:+2:+3,+4", 0).unwrap(), 3_723_004);
}

#[test]
fn parse_time_never_overflows() {
    let all = parse_time("4294967295:4294967295:4294967295,4294967295", 0).unwrap();
    assert_eq!(all, 4_294_967_295u64 * (3_600_000 + 60_000 + 1_000 + 1));
}

#[test]
fn parse_time_rejects_bad_seconds() {
    let error = parse_time("00:00:xx,000", 0).unwrap_err();
    assert_eq!(error.reason, Reason::InvalidSeconds);
    assert_eq!(error.message, "Failed to parse xx as an integer");
    assert_eq!(error.range, 0..12);
}

#[test]
fn parse_time_rejects_bad_millis() {
    let error = parse_time("00:00:01,", 7).unwrap_err();
    assert_eq!(error.reason, Reason::InvalidMillis);
    assert_eq!(error.message, "Failed to parse  as an integer");
    assert_eq!(error.range, 7..16);
}

#[test]
fn parse_time_rejects_bad_minutes() {
    let error = parse_time("00:-1:01,000", 100).unwrap_err();
    assert_eq!(error.reason, Reason::InvalidMinutes);
    assert_eq!(error.message, "Failed to parse -1 as an integer");
    assert_eq!(error.range, 100..112);
}

#[test]
fn parse_time_rejects_bad_hours() {
    let error = parse_time("h:00:01,000", 3).unwrap_err();
    assert_eq!(error.reason, Reason::InvalidHours);
    assert_eq!(error.message, "Failed to parse h as an integer");
    assert_eq!(error.range, 3..14);
}

#[test]
fn parse_time_reports_seconds_before_other_parts() {
    let error = parse_time("h:m:s,t", 0).unwrap_err();
    assert_eq!(error.reason, Reason::InvalidSeconds);
    let error = parse_time("h:m:1,t", 0).unwrap_err();
    assert_eq!(error.reason, Reason::InvalidMillis);
    let error = parse_time("h:m:1,2", 0).unwrap_err();
    assert_eq!(error.reason, Reason::InvalidMinutes);
}

#[test]
fn parse_time_rejects_a_fourth_part() {
    let error = parse_time("1:2:3:4", 0).unwrap_err();
    assert_eq!(error.reason, Reason::InvalidSeconds);
    assert_eq!(error.message, "Failed to parse 3:4 as an integer");
    let error = parse_time("1:2:3,4:5", 0).unwrap_err();
    assert_eq!(error.reason, Reason::InvalidMillis);
    assert_eq!(error.message, "Failed to parse 4:5 as an integer");
}

#[test]
fn parse_time_rejects_empty_text_and_large_parts() {
    assert_eq!(parse_time("", 0).unwrap_err().reason, Reason::InvalidSeconds);
    assert_eq!(parse_time("4294967296", 0).unwrap_err().reason, Reason::InvalidSeconds);
    assert_eq!(parse_time("4294967295", 0).unwrap(), 4_294_967_295_000);
    assert_eq!(parse_time(" 1", 0).unwrap_err().reason, Reason::InvalidSeconds);
    assert_eq!(parse_time("+", 0).unwrap_err().reason, Reason::InvalidSeconds);
}

#[test]
fn parse_time_measures_failures_in_columns() {
    // Two wide characters take four columns.
    let error = parse_time("\u{65e5}\u{672c}", 10).unwrap_err();
    assert_eq!(error.reason, Reason::InvalidSeconds);
    assert_eq!(error.range, 10..14);
}

#[test]
fn time_codec_round_trips_below_a_hundred_hours() {
    let mut millis: u64 = 0;
    while millis <= 359_999_999 {
        assert_eq!(parse_time(&print_time(millis), 0).unwrap(), millis);
        millis += 104_729;
    }
    assert_eq!(parse_time(&print_time(359_999_999), 0).unwrap(), 359_999_999);
}

#[test]
fn time_codec_round_trips_up_to_the_largest_hours() {
    let largest = 4_294_967_295u64 * 3_600_000 + 3_599_999;
    assert_eq!(parse_time(&print_time(largest), 0).unwrap(), largest);
    let error = parse_time(&print_time(largest + 1), 0).unwrap_err();
    assert_eq!(error.reason, Reason::InvalidHours);
}

#[test]
fn reasons_have_their_texts() {
    assert_eq!(Reason::InvalidNumber.text(), "Invalid subtitle number");
    assert_eq!(Reason::MissingTimeLine.text(), "Missing time line");
    assert_eq!(Reason::MissingArrow.text(), "Missing ' --> '");
    assert_eq!(Reason::InvalidHours.text(), "Invalid hours");
    assert_eq!(Reason::InvalidMinutes.text(), "Invalid minutes");
    assert_eq!(Reason::InvalidSeconds.text(), "Invalid seconds");
    assert_eq!(Reason::InvalidMillis.text(), "Invalid millis");
}

#[test]
fn checked_parse_time_agrees_with_parse_time() {
    assert_eq!(parse_time_checked("01:02:03,004", 9), Some(parse_time("01:02:03,004", 9)));
    assert_eq!(parse_time_checked("1:x", 9), Some(parse_time("1:x", 9)));
    assert_eq!(parse_time_checked("", usize::MAX), Some(parse_time("", usize::MAX)));
    assert_eq!(parse_time_checked("5", usize::MAX - 1), Some(Ok(5_000)));
}

#[test]
fn checked_parse_time_gives_nothing_where_the_columns_do_not_fit() {
    assert_eq!(parse_time_checked("5", usize::MAX), None);
    assert_eq!(parse_time_checked("xx", usize::MAX - 1), None);
    let error = parse_time_checked("xx", usize::MAX - 2).unwrap().unwrap_err();
    assert_eq!(error.range, usize::MAX - 2..usize::MAX);
}
