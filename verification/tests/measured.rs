use srt_adjust::parser::{columns_fit, measure, parse_lines, LineWidths};
use srt_adjust::time::{cut_time, time_at};
use srt_adjust::{Reason, Subtitle};

fn chars(text: &str) -> Vec<char> {
    text.chars().collect()
}

fn lines(texts: &[&str]) -> Vec<Vec<char>> {
    texts.iter().map(|text| chars(text)).collect()
}

fn plain(line: usize) -> LineWidths {
    LineWidths { line, before: 0, arrow: 0, after: 0 }
}

#[test]
fn measure_gives_the_width_of_each_line() {
    let widths = measure(&lines(&["12", "", "\u{65e5}\u{672c}", "e\u{301}"]));
    assert_eq!(widths, vec![plain(2), plain(0), plain(4), plain(1)]);
}

#[test]
fn measure_gives_the_widths_around_the_first_arrow() {
    let widths = measure(&lines(&["00:01 --> \u{65e5}", " --> ", "a --> b --> c", "a-->b"]));
    assert_eq!(
        widths,
        vec![
            LineWidths { line: 12, before: 5, arrow: 5, after: 2 },
            LineWidths { line: 5, before: 0, arrow: 5, after: 0 },
            LineWidths { line: 13, before: 1, arrow: 5, after: 7 },
            plain(5),
        ]
    );
    assert_eq!(measure(&lines(&[])), vec![]);
}

#[test]
fn columns_fit_up_to_the_largest_number() {
    assert!(columns_fit(&vec![]));
    assert!(columns_fit(&vec![plain(0), plain(7)]));
    assert!(columns_fit(&vec![plain(usize::MAX - 1)]));
    assert!(!columns_fit(&vec![plain(usize::MAX)]));
    assert!(columns_fit(&vec![plain(usize::MAX - 10), plain(8)]));
    assert!(!columns_fit(&vec![plain(usize::MAX - 10), plain(9)]));
    assert!(!columns_fit(&vec![plain(usize::MAX), plain(usize::MAX), plain(3)]));
}

#[test]
fn columns_fit_counts_the_widths_around_an_arrow() {
    let tight = LineWidths { line: usize::MAX - 7, before: 1, arrow: 2, after: 3 };
    assert!(columns_fit(&vec![tight]));
    assert!(!columns_fit(&vec![LineWidths { after: 4, ..tight }]));
    assert!(!columns_fit(&vec![LineWidths { before: usize::MAX, ..tight }]));
    assert!(!columns_fit(&vec![plain(0), tight]));
}

#[test]
fn parse_lines_starts_each_line_behind_the_widths_before_it() {
    let text = lines(&["1", "1 --> 2", "body", "", "x"]);
    let widths = vec![
        plain(10),
        LineWidths { line: 20, before: 1, arrow: 1, after: 1 },
        plain(30),
        plain(40),
        plain(50),
    ];
    let error = parse_lines(&text, &widths).unwrap_err();
    assert_eq!(error.reason, Reason::InvalidNumber);
    assert_eq!(error.range, 104..154);
}

#[test]
fn parse_lines_covers_a_timestamp_by_its_given_width() {
    let text = lines(&["1", "x --> 2"]);
    let widths = vec![plain(10), LineWidths { line: 20, before: 3, arrow: 4, after: 5 }];
    let error = parse_lines(&text, &widths).unwrap_err();
    assert_eq!(error.reason, Reason::InvalidSeconds);
    assert_eq!(error.range, 11..14);

    let text = lines(&["1", "2 --> x"]);
    let error = parse_lines(&text, &widths).unwrap_err();
    assert_eq!(error.reason, Reason::InvalidSeconds);
    assert_eq!(error.range, 18..23);

    let text = lines(&["1", "2 -> x"]);
    let error = parse_lines(&text, &widths).unwrap_err();
    assert_eq!(error.reason, Reason::MissingArrow);
    assert_eq!(error.range, 11..31);

    let text = lines(&["1"]);
    let error = parse_lines(&text, &vec![plain(10)]).unwrap_err();
    assert_eq!(error.reason, Reason::MissingTimeLine);
    assert_eq!(error.range, 11..11);
}

#[test]
fn parse_lines_reads_records_whatever_the_widths() {
    let text = lines(&["1", "1 --> 2", "a", "b", "", "2", "3 --> 4"]);
    let widths = vec![plain(0); 7];
    assert_eq!(
        parse_lines(&text, &widths).unwrap(),
        vec![
            Subtitle { number: 1, from: 1_000, to: 2_000, lines: vec!["a".into(), "b".into()] },
            Subtitle { number: 2, from: 3_000, to: 4_000, lines: vec![] },
        ]
    );
}

#[test]
fn time_at_covers_the_given_columns() {
    assert_eq!(time_at(&chars("1:02:03,004"), 5, 7).unwrap(), 3_723_004);
    let error = time_at(&chars("1:02:03,x"), 5, 7).unwrap_err();
    assert_eq!(error.reason, Reason::InvalidMillis);
    assert_eq!(error.range, 5..12);
    assert_eq!(error.message, "Failed to parse x as an integer");
    let error = time_at(&chars(""), usize::MAX, 0).unwrap_err();
    assert_eq!(error.range, usize::MAX..usize::MAX);
}

#[test]
fn cut_time_gives_the_parts_of_a_timestamp() {
    let zero = chars("0");
    let text = chars("1:02:03,004");
    let parts = cut_time(&text, &zero);
    assert_eq!(parts.hours, Some(&chars("1")[..]));
    assert_eq!(parts.minutes, Some(&chars("02")[..]));
    assert_eq!(parts.seconds, &chars("03")[..]);
    assert_eq!(parts.millis, &chars("004")[..]);

    let text = chars("02:03");
    let parts = cut_time(&text, &zero);
    assert_eq!(parts.hours, None);
    assert_eq!(parts.minutes, Some(&chars("02")[..]));
    assert_eq!(parts.seconds, &chars("03")[..]);
    assert_eq!(parts.millis, &chars("0")[..]);

    let text = chars("");
    let parts = cut_time(&text, &zero);
    assert_eq!(parts.hours, None);
    assert_eq!(parts.minutes, None);
    assert_eq!(parts.seconds, &chars("")[..]);
    assert_eq!(parts.millis, &chars("0")[..]);
}

#[test]
fn cut_time_leaves_a_third_colon_where_it_stands() {
    let zero = chars("0");
    let text = chars("1:2:3:4,5:6,7");
    let parts = cut_time(&text, &zero);
    assert_eq!(parts.hours, Some(&chars("1")[..]));
    assert_eq!(parts.minutes, Some(&chars("2")[..]));
    assert_eq!(parts.seconds, &chars("3:4")[..]);
    assert_eq!(parts.millis, &chars("5:6,7")[..]);

    let text = chars("1,2:3");
    let parts = cut_time(&text, &zero);
    assert_eq!(parts.hours, None);
    assert_eq!(parts.minutes, Some(&chars("1,2")[..]));
    assert_eq!(parts.seconds, &chars("3")[..]);
    assert_eq!(parts.millis, &chars("0")[..]);
}
