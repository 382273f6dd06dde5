use srt_adjust::{parse_srt, print_subtitle, print_subtitles, Subtitle};

fn subtitle(number: u32, from: u64, to: u64, lines: &[&str]) -> Subtitle {
    Subtitle { number, from, to, lines: lines.iter().map(|line| line.to_string()).collect() }
}

#[test]
fn prints_one_subtitle() {
    let text = print_subtitle(&subtitle(3, 1_000, 3_500, &["Hello", "world"]));
    assert_eq!(text, "3\n00:00:01,000 --> 00:00:03,500\nHello\nworld\n");
}

#[test]
fn prints_a_subtitle_without_body() {
    let text = print_subtitle(&subtitle(0, 0, 0, &[]));
    assert_eq!(text, "0\n00:00:00,000 --> 00:00:00,000\n");
}

#[test]
fn prints_the_largest_number_without_padding() {
    let text = print_subtitle(&subtitle(u32::MAX, 0, 1, &["x"]));
    assert_eq!(text, "4294967295\n00:00:00,000 --> 00:00:00,001\nx\n");
}

#[test]
fn prints_nothing_for_no_subtitles() {
    assert_eq!(print_subtitles(&[]), "");
}

#[test]
fn prints_an_empty_line_behind_every_subtitle() {
    let subtitles = vec![
        subtitle(1, 1_000, 2_000, &["first"]),
        subtitle(2, 3_000, 4_000, &["second", "line"]),
    ];
    assert_eq!(
        print_subtitles(&subtitles),
        "1\n00:00:01,000 --> 00:00:02,000\nfirst\n\n\
         2\n00:00:03,000 --> 00:00:04,000\nsecond\nline\n\n"
    );
}

#[test]
fn prints_timestamps_in_full_form() {
    let subtitles = parse_srt("1\n5 --> 1:5,5\nx\n").unwrap();
    assert_eq!(print_subtitles(&subtitles), "1\n00:00:05,000 --> 00:01:05,005\nx\n\n");
}

#[test]
fn parse_gives_back_what_was_printed() {
    let subtitles = vec![
        subtitle(1, 0, 1, &["a"]),
        subtitle(2, 359_999_999, 360_000_000, &["b", " ", "-->", "3"]),
        subtitle(u32::MAX, 4_294_967_295u64 * 3_600_000, 5, &[]),
        subtitle(0, 7, 7, &["\u{65e5}\u{672c}\u{8a9e}", "a\rb"]),
    ];
    assert_eq!(parse_srt(&print_subtitles(&subtitles)).unwrap(), subtitles);
}

#[test]
fn print_gives_back_what_was_parsed_in_full_form() {
    let text = "1\n00:00:01,000 --> 00:00:02,000\nfirst\n\n\
                2\n100:00:03,000 --> 100:00:04,000\nsecond\nline\n\n";
    assert_eq!(print_subtitles(&parse_srt(text).unwrap()), text);
}

#[test]
fn an_empty_line_in_a_body_does_not_come_back() {
    let subtitles = vec![subtitle(1, 0, 1, &["a", "", "b"])];
    assert!(parse_srt(&print_subtitles(&subtitles)).is_err());
    let subtitles = vec![subtitle(1, 0, 1, &["a", ""])];
    assert!(parse_srt(&print_subtitles(&subtitles)).is_err());
}

#[test]
fn a_line_feed_in_a_line_does_not_come_back() {
    let subtitles = vec![subtitle(1, 0, 1, &["a\nb"])];
    assert_eq!(
        parse_srt(&print_subtitles(&subtitles)).unwrap(),
        vec![subtitle(1, 0, 1, &["a", "b"])]
    );
}

#[test]
fn a_carriage_return_at_a_line_end_does_not_come_back() {
    let subtitles = vec![subtitle(1, 0, 1, &["a\r"])];
    assert_eq!(
        parse_srt(&print_subtitles(&subtitles)).unwrap(),
        vec![subtitle(1, 0, 1, &["a"])]
    );
}

#[test]
fn hours_beyond_32_bits_do_not_come_back() {
    let subtitles = vec![subtitle(1, 4_294_967_296u64 * 3_600_000, 0, &["a"])];
    assert!(parse_srt(&print_subtitles(&subtitles)).is_err());
}
