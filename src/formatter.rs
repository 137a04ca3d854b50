//! Annotation of captured lines with a time stamp and, optionally, the stream name.

use crate::decimal::{
    decimal, fraction_digits, is_digit, lemma_decimal, lemma_fraction_digits,
    lemma_seconds_text_monotonic, lemma_seconds_text_round_trip, pow10, push_seconds,
    seconds_text, seconds_text_nanos,
};
use crate::origin::Origin;
use std::time::Instant;
use vstd::prelude::*;

verus! {

/// What the command line chose, and the command to run.
pub struct Args {
    /// Stamp lines with the time since the start instead of the time of day.
    pub relative: bool,
    /// Put the stream name in front of each stamp.
    pub show_stream: bool,
    /// The program to run, then its arguments.
    pub cmd: Vec<String>,
}

/// The annotation of a line: the stamp, after the stream name where that is shown.
pub open spec fn annotation(show_stream: bool, origin: Origin, stamp: Seq<char>) -> Seq<char> {
    if show_stream {
        origin.name() + seq![' '] + stamp
    } else {
        stamp
    }
}

/// `[<annotation>] <line>`.
pub open spec fn annotated_line(
    show_stream: bool,
    origin: Origin,
    stamp: Seq<char>,
    line: Seq<char>,
) -> Seq<char> {
    seq!['['] + annotation(show_stream, origin, stamp) + seq![']', ' '] + line
}

/// The stamp of relative mode: `+<seconds>s`.
pub open spec fn relative_stamp(secs: nat, nanos: nat) -> Seq<char> {
    seq!['+'] + seconds_text(secs, nanos) + seq!['s']
}

/// The offset, in nanoseconds, that a stamp `+<seconds>s` shows.
pub open spec fn stamp_offset(stamp: Seq<char>) -> int {
    seconds_text_nanos(stamp.subrange(1, stamp.len() - 1))
}

/// A character of the local time as chrono writes it: `2024-05-01 10:11:12.5 +02:00`.
pub open spec fn is_clock_char(c: char) -> bool {
    is_digit(c) || c == '-' || c == '+' || c == ':' || c == '.' || c == ' '
}

/// A non-empty text of local time characters.
pub open spec fn is_clock_text(t: Seq<char>) -> bool {
    t.len() > 0 && forall|i: int| 0 <= i < t.len() ==> is_clock_char(#[trigger] t[i])
}

/// A stamp that the mode allows: in relative mode, one of the form `+<seconds>s`; else
/// a local time text.
pub open spec fn stamp_fits(relative: bool, stamp: Seq<char>) -> bool {
    if relative {
        exists|secs: nat, nanos: nat|
            nanos < 1_000_000_000 && stamp == #[trigger] relative_stamp(secs, nanos)
    } else {
        is_clock_text(stamp)
    }
}

/// Every character of a stamp is a digit or one of `+-:. s`: no bracket, no line break,
/// and no `t`, so no stream name.
pub open spec fn is_stamp_char(c: char) -> bool {
    is_clock_char(c) || c == 's'
}

/// A stamp of either mode is made of stamp characters only.
pub proof fn lemma_stamp_chars(relative: bool, stamp: Seq<char>)
    requires
        stamp_fits(relative, stamp),
    ensures
        forall|i: int| 0 <= i < stamp.len() ==> is_stamp_char(#[trigger] stamp[i]),
{
    if relative {
        let (secs, nanos) = choose|secs: nat, nanos: nat|
            nanos < 1_000_000_000 && stamp == #[trigger] relative_stamp(secs, nanos);
        lemma_decimal(secs);
        let d = decimal(secs);
        if nanos > 0 {
            assert(pow10(9) == 1_000_000_000) by {
                reveal_with_fuel(pow10, 10);
            }
            lemma_fraction_digits(nanos, 9);
        }
        let f = fraction_digits(nanos, 9);
        assert forall|i: int| 0 <= i < stamp.len() implies is_stamp_char(#[trigger] stamp[i]) by {
            if 1 <= i < 1 + d.len() {
                assert(stamp[i] == d[i - 1]);
            } else if nanos > 0 && 1 + d.len() < i < stamp.len() - 1 {
                assert(stamp[i] == f[i - 2 - d.len()]);
            }
        }
    }
}

/// The stamp of relative mode shows exactly the elapsed time it was made from.
pub proof fn lemma_relative_stamp_offset(secs: nat, nanos: nat)
    requires
        nanos < 1_000_000_000,
    ensures
        stamp_offset(relative_stamp(secs, nanos)) == secs * 1_000_000_000 + nanos,
{
    let t = seconds_text(secs, nanos);
    assert(relative_stamp(secs, nanos).subrange(1, relative_stamp(secs, nanos).len() - 1) =~= t);
    lemma_seconds_text_round_trip(secs, nanos);
}

/// In relative mode the offsets shown never go down while the elapsed times read from
/// the clock do not.
pub proof fn lemma_relative_offsets_non_decreasing(
    secs1: nat,
    nanos1: nat,
    secs2: nat,
    nanos2: nat,
)
    requires
        nanos1 < 1_000_000_000,
        nanos2 < 1_000_000_000,
        secs1 * 1_000_000_000 + nanos1 <= secs2 * 1_000_000_000 + nanos2,
    ensures
        stamp_offset(relative_stamp(secs1, nanos1)) <= stamp_offset(relative_stamp(secs2, nanos2)),
{
    lemma_relative_stamp_offset(secs1, nanos1);
    lemma_relative_stamp_offset(secs2, nanos2);
    lemma_seconds_text_monotonic(secs1, nanos1, secs2, nanos2);
}

/// Appends `s` to `out`.
fn push_str(out: &mut String, s: &str)
    ensures
        final(out)@ == old(out)@ + s@,
{
    out.append(s);
}

/// The line with its annotation in front: `[<annotation>] <line>`.
pub fn annotate(show_stream: bool, origin: Origin, stamp: &str, line: &str) -> (r: String)
    ensures
        r@ == annotated_line(show_stream, origin, stamp@, line@),
{
    let mut out = String::new();
    out.push('[');
    if show_stream {
        push_str(&mut out, origin.label());
        out.push(' ');
    }
    push_str(&mut out, stamp);
    out.push(']');
    out.push(' ');
    push_str(&mut out, line);
    assert(out@ =~= annotated_line(show_stream, origin, stamp@, line@));
    out
}

/// The stamp of relative mode for an elapsed time: `+<seconds>s`.
pub fn relative_stamp_text(secs: u64, nanos: u32) -> (r: String)
    requires
        nanos < 1_000_000_000,
    ensures
        r@ == relative_stamp(secs as nat, nanos as nat),
{
    let mut out = String::new();
    out.push('+');
    push_seconds(&mut out, secs, nanos);
    out.push('s');
    assert(out@ =~= relative_stamp(secs as nat, nanos as nat));
    out
}

/// Relies on chrono's `From<SystemTime>` for `DateTime<Local>`, which also takes a clock
/// set before 1970, and on the `Display` of `DateTime`: the local time now, written as
/// date, time and offset (`2024-05-01 10:11:12.5 +02:00`) with digits and `-+:. ` only.
#[verifier::external_body]
fn local_time_text() -> (r: String)
    ensures
        is_clock_text(r@),
{
    chrono::DateTime::<chrono::Local>::from(std::time::SystemTime::now()).to_string()
}

/// Annotates lines; in relative mode it holds the instant the child was started.
pub struct LineFormatter {
    start_time: Option<Instant>,
    show_stream: bool,
}

impl LineFormatter {
    /// Whether stamps show the time since the start.
    pub closed spec fn is_relative(&self) -> bool {
        self.start_time is Some
    }

    /// Whether the stream name stands in each annotation.
    pub closed spec fn shows_stream(&self) -> bool {
        self.show_stream
    }

    /// Whether `out` is `line` from `origin` as this formatter annotates it, for some
    /// stamp that its mode allows.
    pub open spec fn formats(&self, origin: Origin, line: Seq<char>, out: Seq<char>) -> bool {
        exists|stamp: Seq<char>|
            stamp_fits(self.is_relative(), stamp) && out == #[trigger] annotated_line(
                self.shows_stream(),
                origin,
                stamp,
                line,
            )
    }

    /// A formatter for the options; in relative mode it reads the clock now.
    pub fn new(args: &Args) -> (r: LineFormatter)
        ensures
            r.is_relative() == args.relative,
            r.shows_stream() == args.show_stream,
    {
        LineFormatter {
            start_time: if args.relative {
                Some(Instant::now())
            } else {
                None
            },
            show_stream: args.show_stream,
        }
    }

    /// `line` from `stream`, annotated with the time now.
    pub fn fmt(&self, stream: Origin, line: &str) -> (r: String)
        ensures
            self.formats(stream, line@, r@),
    {
        let stamp = match &self.start_time {
            Some(start) => {
                let elapsed = start.elapsed();
                let secs = elapsed.as_secs();
                let nanos = elapsed.subsec_nanos();
                let s = relative_stamp_text(secs, nanos);
                assert(stamp_fits(true, s@));
                s
            },
            None => {
                let s = local_time_text();
                assert(stamp_fits(false, s@));
                s
            },
        };
        let r = annotate(self.show_stream, stream, stamp.as_str(), line);
        assert(stamp_fits(self.is_relative(), stamp@));
        assert(r@ == annotated_line(self.shows_stream(), stream, stamp@, line@));
        r
    }
}

} // verus!
