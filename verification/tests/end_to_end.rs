use srt_adjust::{
    adjust, normalize, parse_adjustment, parse_srt, parse_srt_checked, print_subtitles,
    AdjustmentError, Delta,
};

const INPUT: &str = "1\n00:00:01,000 --> 00:00:03,500\nHello world\n\n";

#[test]
fn shifts_forwards_by_two_seconds() {
    let mut subtitles = parse_srt(INPUT).unwrap();
    assert_eq!(adjust(&mut subtitles, Delta { negative: false, millis: 2_000 }), Ok(()));
    assert_eq!(print_subtitles(&subtitles), "1\n00:00:03,000 --> 00:00:05,500\nHello world\n\n");
}

#[test]
fn shifts_forwards_by_a_written_amount() {
    let delta = parse_adjustment("+2").unwrap();
    let mut subtitles = parse_srt(INPUT).unwrap();
    assert_eq!(adjust(&mut subtitles, delta), Ok(()));
    assert_eq!(print_subtitles(&subtitles), "1\n00:00:03,000 --> 00:00:05,500\nHello world\n\n");
}

#[test]
fn rejects_a_shift_before_zero() {
    let delta = parse_adjustment("-00:00:01,500").unwrap();
    assert_eq!(delta, Delta { negative: true, millis: 1_500 });
    let mut subtitles = parse_srt(INPUT).unwrap();
    assert_eq!(adjust(&mut subtitles, delta), Err(AdjustmentError::NegativeResult { record: 0 }));
    assert_eq!(print_subtitles(&subtitles), INPUT);
}

#[test]
fn shifts_backwards_as_far_as_zero() {
    let delta = parse_adjustment("-1").unwrap();
    let mut subtitles = parse_srt(INPUT).unwrap();
    assert_eq!(adjust(&mut subtitles, delta), Ok(()));
    assert_eq!(print_subtitles(&subtitles), "1\n00:00:00,000 --> 00:00:02,500\nHello world\n\n");
}

#[test]
fn shifts_a_file_with_its_own_line_ends() {
    let raw = "\u{feff}1\r\n00:00:01,000 --> 00:00:03,500\r\nHello\r\nworld\r\n\r\n\
               2\r\n00:59:59,900 --> 01:00:00,100\r\n\u{65e5}\u{672c}\u{8a9e}\r\n";
    let text = normalize(raw);
    let mut subtitles = parse_srt_checked(&text).unwrap().unwrap();
    let delta = parse_adjustment("+1:00:00,100").unwrap();
    assert_eq!(adjust(&mut subtitles, delta), Ok(()));
    assert_eq!(
        print_subtitles(&subtitles),
        "1\n01:00:01,100 --> 01:00:03,600\nHello\nworld\n\n\
         2\n02:00:00,000 --> 02:00:00,200\n\u{65e5}\u{672c}\u{8a9e}\n\n"
    );
}
