use srt_adjust::{adjust, parse_adjustment, AdjustmentError, Delta, Reason, Subtitle};

fn subtitle(number: u32, from: u64, to: u64, lines: &[&str]) -> Subtitle {
    Subtitle { number, from, to, lines: lines.iter().map(|line| line.to_string()).collect() }
}

fn sample() -> Vec<Subtitle> {
    vec![
        subtitle(1, 5_000, 6_000, &["first"]),
        subtitle(2, 7_500, 9_000, &["second", "line"]),
        subtitle(3, 3_600_000, 3_601_000, &[]),
    ]
}

fn forwards(millis: u64) -> Delta {
    Delta { negative: false, millis }
}

fn backwards(millis: u64) -> Delta {
    Delta { negative: true, millis }
}

#[test]
fn moves_every_subtitle_forwards() {
    let mut subtitles = sample();
    assert_eq!(adjust(&mut subtitles, forwards(2_000)), Ok(()));
    assert_eq!(
        subtitles,
        vec![
            subtitle(1, 7_000, 8_000, &["first"]),
            subtitle(2, 9_500, 11_000, &["second", "line"]),
            subtitle(3, 3_602_000, 3_603_000, &[]),
        ]
    );
}

#[test]
fn moves_every_subtitle_backwards() {
    let mut subtitles = sample();
    assert_eq!(adjust(&mut subtitles, backwards(5_000)), Ok(()));
    assert_eq!(
        subtitles,
        vec![
            subtitle(1, 0, 1_000, &["first"]),
            subtitle(2, 2_500, 4_000, &["second", "line"]),
            subtitle(3, 3_595_000, 3_596_000, &[]),
        ]
    );
}

#[test]
fn zero_delta_changes_nothing() {
    let mut subtitles = sample();
    assert_eq!(adjust(&mut subtitles, forwards(0)), Ok(()));
    assert_eq!(subtitles, sample());
    assert_eq!(adjust(&mut subtitles, backwards(0)), Ok(()));
    assert_eq!(subtitles, sample());
    let mut extremes = vec![subtitle(1, 0, u64::MAX, &["x"])];
    assert_eq!(adjust(&mut extremes, backwards(0)), Ok(()));
    assert_eq!(extremes, vec![subtitle(1, 0, u64::MAX, &["x"])]);
}

#[test]
fn two_steps_give_what_their_sum_gives() {
    let mut stepwise = sample();
    assert_eq!(adjust(&mut stepwise, forwards(1_500)), Ok(()));
    assert_eq!(adjust(&mut stepwise, forwards(2_250)), Ok(()));
    let mut at_once = sample();
    assert_eq!(adjust(&mut at_once, forwards(3_750)), Ok(()));
    assert_eq!(stepwise, at_once);

    let mut stepwise = sample();
    assert_eq!(adjust(&mut stepwise, forwards(1_000)), Ok(()));
    assert_eq!(adjust(&mut stepwise, backwards(4_000)), Ok(()));
    let mut at_once = sample();
    assert_eq!(adjust(&mut at_once, backwards(3_000)), Ok(()));
    assert_eq!(stepwise, at_once);

    let mut stepwise = sample();
    assert_eq!(adjust(&mut stepwise, backwards(5_000)), Ok(()));
    assert_eq!(adjust(&mut stepwise, forwards(5_000)), Ok(()));
    assert_eq!(stepwise, sample());
}

#[test]
fn rejects_a_start_before_zero() {
    let mut subtitles = sample();
    assert_eq!(
        adjust(&mut subtitles, backwards(5_001)),
        Err(AdjustmentError::NegativeResult { record: 0 })
    );
    assert_eq!(subtitles, sample());
}

#[test]
fn names_the_first_subtitle_that_stands_in_the_way() {
    let mut subtitles = vec![
        subtitle(1, 5_000, 6_000, &["a"]),
        subtitle(2, 1_000, 9_000, &["b"]),
        subtitle(3, 0, 500, &["c"]),
    ];
    let before = subtitles.clone();
    assert_eq!(
        adjust(&mut subtitles, backwards(2_000)),
        Err(AdjustmentError::NegativeResult { record: 1 })
    );
    assert_eq!(subtitles, before);
}

#[test]
fn rejects_an_end_before_zero() {
    let mut subtitles = vec![subtitle(1, 5_000, 1_000, &["a"])];
    assert_eq!(
        adjust(&mut subtitles, backwards(2_000)),
        Err(AdjustmentError::NegativeResult { record: 0 })
    );
    assert_eq!(subtitles, vec![subtitle(1, 5_000, 1_000, &["a"])]);
}

#[test]
fn rejects_a_time_behind_the_largest_count() {
    let mut subtitles = vec![subtitle(1, 0, 10, &["a"]), subtitle(2, 5, u64::MAX - 1, &["b"])];
    let before = subtitles.clone();
    assert_eq!(
        adjust(&mut subtitles, forwards(2)),
        Err(AdjustmentError::Overflow { record: 1 })
    );
    assert_eq!(subtitles, before);
    assert_eq!(adjust(&mut subtitles, forwards(1)), Ok(()));
    assert_eq!(subtitles[1].to, u64::MAX);
}

#[test]
fn moves_no_subtitles_without_complaint() {
    let mut subtitles: Vec<Subtitle> = vec![];
    assert_eq!(adjust(&mut subtitles, backwards(u64::MAX)), Ok(()));
    assert_eq!(subtitles, vec![]);
}

#[test]
fn reads_an_unsigned_adjustment() {
    assert_eq!(parse_adjustment("2").unwrap(), forwards(2_000));
    assert_eq!(parse_adjustment("00:00:01,500").unwrap(), forwards(1_500));
    assert_eq!(parse_adjustment("1:30").unwrap(), forwards(90_000));
}

#[test]
fn reads_a_signed_adjustment() {
    assert_eq!(parse_adjustment("+2,5").unwrap(), forwards(2_005));
    assert_eq!(parse_adjustment("-00:00:01,500").unwrap(), backwards(1_500));
    assert_eq!(parse_adjustment("-0").unwrap(), backwards(0));
}

#[test]
fn takes_the_sign_from_the_first_character_only() {
    assert_eq!(parse_adjustment("1-2").unwrap(), forwards(12_000));
    assert_eq!(parse_adjustment("+-3").unwrap(), forwards(3_000));
    assert_eq!(parse_adjustment("-+3").unwrap(), backwards(3_000));
    assert_eq!(parse_adjustment("0:-1").unwrap(), forwards(1_000));
}

#[test]
fn rejects_an_adjustment_that_is_no_timestamp() {
    let error = parse_adjustment("soon").unwrap_err();
    assert_eq!(error.reason, Reason::InvalidSeconds);
    assert_eq!(error.message, "Failed to parse soon as an integer");
    assert_eq!(error.range, 0..4);
    let error = parse_adjustment("-").unwrap_err();
    assert_eq!(error.reason, Reason::InvalidSeconds);
    assert_eq!(error.range, 0..0);
    let error = parse_adjustment("-1:x").unwrap_err();
    assert_eq!(error.reason, Reason::InvalidSeconds);
    assert_eq!(error.range, 0..3);
}
