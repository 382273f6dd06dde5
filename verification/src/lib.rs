//! Shifting the timestamps of a subtitle file: reading the records out of
//! the text, moving every start and end by one signed amount, and writing
//! the records back in the same line-structured form.
//!
//! ```text
//! 1
//! 00:00:01,000 --> 00:00:03,500
//! Hello world
//!
//! ```
//!
//! The way through the crate is [`normalize`], [`parse_srt_checked`],
//! [`adjust`] and [`print_subtitles`]; [`parse_adjustment`] reads the amount
//! to move by. Every function is verified against a contract over the
//! characters of its input: what a text reads as is said by
//! [`parser::parse_text`], what subtitles are written as by
//! [`printer::records_text`], and [`round_trip`] proves the first to undo the
//! second.
//!
//! Two things are taken on trust: the displayed width of a text, which
//! `unicode_width` computes ([`width`]), and the making of a `String` out of
//! characters and its quoted form, which the standard library computes
//! ([`text`], [`diagnostic`]).

pub mod adjust;
pub mod decimal;
pub mod diagnostic;
pub mod parser;
pub mod printer;
pub mod round_trip;
pub mod subtitle;
pub mod text;
pub mod time;
pub mod width;

pub use adjust::{adjust, parse_adjustment, AdjustmentError, Delta};
pub use diagnostic::{ParseError, Reason};
pub use parser::{parse_srt, parse_srt_checked};
pub use printer::{print_subtitle, print_subtitles};
pub use subtitle::Subtitle;
pub use text::normalize;
pub use time::{parse_time, parse_time_checked, print_time};
