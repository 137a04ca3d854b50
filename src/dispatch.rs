//! Turning captured events into annotated lines for the stream each came from.

use crate::formatter::{
    annotated_line, annotation, is_stamp_char, lemma_stamp_chars, stamp_fits, LineFormatter,
};
use crate::lines::payload_view;
use crate::origin::Origin;
use vstd::prelude::*;

verus! {

/// A line read from one of the child's streams, or the message of a failed read.
pub struct StreamEvent {
    pub origin: Origin,
    pub payload: Result<String, String>,
}

/// An annotated line and the stream of this process that it goes to.
pub struct Emission {
    pub destination: Origin,
    pub text: String,
}

/// Status of this process where the child could not be started.
pub const LAUNCH_FAILURE_STATUS: i32 = 127;

/// Status of this process where the child ended without an exit code (killed by a signal).
pub const NO_CODE_STATUS: i32 = 1;

/// The text that stands for an event: the line read, or `Err reading <origin>: <message>`.
pub open spec fn event_line(origin: Origin, payload: Result<Seq<char>, Seq<char>>) -> Seq<char> {
    match payload {
        Ok(line) => line,
        Err(message) => seq!['E', 'r', 'r', ' ', 'r', 'e', 'a', 'd', 'i', 'n', 'g', ' ']
            + origin.name() + seq![':', ' '] + message,
    }
}

/// The lines of `s` that belong to stream `d`, in their order.
pub open spec fn on_stream(s: Seq<(Origin, Seq<char>)>, d: Origin) -> Seq<Seq<char>>
    decreases s.len(),
{
    if s.len() == 0 {
        Seq::empty()
    } else if s.last().0 == d {
        on_stream(s.drop_last(), d).push(s.last().1)
    } else {
        on_stream(s.drop_last(), d)
    }
}

/// What is written for each line: to the stream it came from, annotated.
pub open spec fn emitted_for(
    f: LineFormatter,
    lines: Seq<(Origin, Seq<char>)>,
    emitted: Seq<(Origin, Seq<char>)>,
) -> bool {
    &&& lines.len() == emitted.len()
    &&& forall|i: int|
        0 <= i < lines.len() ==> (#[trigger] emitted[i]).0 == lines[i].0 && f.formats(
            lines[i].0,
            lines[i].1,
            emitted[i].1,
        )
}

/// The text of an event: the line read, or `Err reading <origin>: <message>`.
pub fn event_text(origin: Origin, payload: &Result<String, String>) -> (r: String)
    ensures
        r@ == event_line(origin, payload_view(*payload)),
{
    match payload {
        Ok(line) => line.clone(),
        Err(message) => {
            let mut out = String::from_str("Err reading ");
            proof {
                reveal_strlit("Err reading ");
                reveal_strlit(": ");
            }
            out.append(origin.label());
            out.append(": ");
            out.append(message.as_str());
            assert(out@ =~= event_line(origin, payload_view(*payload)));
            out
        },
    }
}

impl LineFormatter {
    /// The annotated line for an event, and the stream it is written to: the one the
    /// event came from.
    pub fn dispatch(&self, event: &StreamEvent) -> (r: Emission)
        ensures
            r.destination == event.origin,
            self.formats(event.origin, event_line(event.origin, payload_view(event.payload)), r.text@),
    {
        let line = event_text(event.origin, &event.payload);
        let text = self.fmt(event.origin, line.as_str());
        Emission { destination: event.origin, text }
    }
}

/// The exit status of this process for the child's exit code.
pub fn exit_status(code: Option<i32>) -> (r: i32)
    ensures
        code matches Some(c) ==> r == c,
        code is None ==> r == NO_CODE_STATUS,
{
    match code {
        Some(c) => c,
        None => NO_CODE_STATUS,
    }
}

/// Every line reaches the stream it came from, once, annotated, and the lines of one
/// stream keep their order.
pub proof fn lemma_lines_routed(
    f: LineFormatter,
    lines: Seq<(Origin, Seq<char>)>,
    emitted: Seq<(Origin, Seq<char>)>,
    d: Origin,
)
    requires
        emitted_for(f, lines, emitted),
    ensures
        on_stream(emitted, d).len() == on_stream(lines, d).len(),
        forall|k: int|
            0 <= k < on_stream(lines, d).len() ==> #[trigger] f.formats(
                d,
                on_stream(lines, d)[k],
                on_stream(emitted, d)[k],
            ),
    decreases lines.len(),
{
    if lines.len() > 0 {
        let n = lines.len() - 1;
        let l2 = lines.drop_last();
        let e2 = emitted.drop_last();
        assert forall|i: int| 0 <= i < l2.len() implies (#[trigger] e2[i]).0 == l2[i].0 && f.formats(
            l2[i].0,
            l2[i].1,
            e2[i].1,
        ) by {
            assert(l2[i] == lines[i]);
            assert(e2[i] == emitted[i]);
            assert(f.formats(lines[i].0, lines[i].1, emitted[i].1));
        }
        assert(l2.len() == e2.len());
        assert(emitted_for(f, l2, e2));
        lemma_lines_routed(f, l2, e2, d);
        assert(emitted[n].0 == lines[n].0 && f.formats(lines[n].0, lines[n].1, emitted[n].1));
    }
}

/// Where the child writes to its standard output only, this process writes each of those
/// lines, annotated and in their order, to its standard output, and nothing to its
/// standard error.
pub proof fn lemma_stdout_only(
    f: LineFormatter,
    lines: Seq<(Origin, Seq<char>)>,
    emitted: Seq<(Origin, Seq<char>)>,
)
    requires
        emitted_for(f, lines, emitted),
        forall|i: int| 0 <= i < lines.len() ==> (#[trigger] lines[i]).0 == Origin::Stdout,
    ensures
        on_stream(emitted, Origin::Stderr).len() == 0,
        on_stream(emitted, Origin::Stdout).len() == lines.len(),
        forall|k: int|
            0 <= k < lines.len() ==> #[trigger] f.formats(
                Origin::Stdout,
                lines[k].1,
                on_stream(emitted, Origin::Stdout)[k],
            ),
{
    lemma_lines_routed(f, lines, emitted, Origin::Stdout);
    lemma_lines_routed(f, lines, emitted, Origin::Stderr);
    lemma_single_stream(lines);
    assert forall|k: int| 0 <= k < lines.len() implies #[trigger] f.formats(
        Origin::Stdout,
        lines[k].1,
        on_stream(emitted, Origin::Stdout)[k],
    ) by {
        assert(f.formats(
            Origin::Stdout,
            on_stream(lines, Origin::Stdout)[k],
            on_stream(emitted, Origin::Stdout)[k],
        ));
    }
}

proof fn lemma_single_stream(lines: Seq<(Origin, Seq<char>)>)
    requires
        forall|i: int| 0 <= i < lines.len() ==> (#[trigger] lines[i]).0 == Origin::Stdout,
    ensures
        on_stream(lines, Origin::Stderr).len() == 0,
        on_stream(lines, Origin::Stdout).len() == lines.len(),
        forall|k: int| 0 <= k < lines.len() ==> on_stream(lines, Origin::Stdout)[k] == (
        #[trigger] lines[k]).1,
    decreases lines.len(),
{
    if lines.len() > 0 {
        let l2 = lines.drop_last();
        assert forall|i: int| 0 <= i < l2.len() implies (#[trigger] l2[i]).0 == Origin::Stdout by {
            assert(lines[i] == l2[i]);
        }
        lemma_single_stream(l2);
        assert(lines[lines.len() - 1].0 == Origin::Stdout);
        assert forall|k: int| 0 <= k < lines.len() implies on_stream(lines, Origin::Stdout)[k] == (
        #[trigger] lines[k]).1 by {
            if k < lines.len() - 1 {
                assert(lines[k] == l2[k]);
            }
        }
    }
}

/// The other stream than `o`.
pub open spec fn other(o: Origin) -> Origin {
    match o {
        Origin::Stdout => Origin::Stderr,
        Origin::Stderr => Origin::Stdout,
    }
}

/// Each output line is one annotation in brackets, then the line unchanged; the
/// annotation holds no bracket and no line break.
pub proof fn lemma_one_annotation(f: LineFormatter, origin: Origin, line: Seq<char>, out: Seq<char>)
    requires
        f.formats(origin, line, out),
    ensures
        exists|a: Seq<char>|
            out == seq!['['] + a + seq![']', ' '] + line && forall|i: int|
                0 <= i < a.len() ==> #[trigger] a[i] != '[' && a[i] != ']' && a[i] != '\n',
{
    let stamp = choose|stamp: Seq<char>|
        stamp_fits(f.is_relative(), stamp) && out == #[trigger] annotated_line(
            f.shows_stream(),
            origin,
            stamp,
            line,
        );
    lemma_stamp_chars(f.is_relative(), stamp);
    let a = annotation(f.shows_stream(), origin, stamp);
    assert forall|i: int| 0 <= i < a.len() implies #[trigger] a[i] != '[' && a[i] != ']' && a[i]
        != '\n' by {
        if f.shows_stream() && i >= 7 {
            assert(a[i] == stamp[i - 7]);
        } else if !f.shows_stream() {
            assert(a[i] == stamp[i]);
        }
    }
    assert(out =~= seq!['['] + a + seq![']', ' '] + line);
}

/// With stream names shown, each annotation begins with the name of the stream that the
/// line came from, and the name of the other stream appears nowhere in it.
pub proof fn lemma_stream_name_shown(f: LineFormatter, origin: Origin, line: Seq<char>, out: Seq<char>)
    requires
        f.shows_stream(),
        f.formats(origin, line, out),
    ensures
        out.subrange(1, 7) == origin.name(),
        forall|j: int|
            0 <= j && j + 6 <= out.len() - line.len() - 2 ==> #[trigger] out.subrange(j, j + 6)
                != other(origin).name(),
{
    let stamp = choose|stamp: Seq<char>|
        stamp_fits(f.is_relative(), stamp) && out == #[trigger] annotated_line(
            f.shows_stream(),
            origin,
            stamp,
            line,
        );
    lemma_stamp_chars(f.is_relative(), stamp);
    assert(out.subrange(1, 7) =~= origin.name());
    assert(out.len() - line.len() - 2 == 8 + stamp.len());
    assert forall|j: int| 0 <= j && j + 6 <= out.len() - line.len() - 2 implies #[trigger] out.subrange(
        j,
        j + 6,
    ) != other(origin).name() by {
        let w = out.subrange(j, j + 6);
        let n = other(origin).name();
        assert(n[1] == 't' && n[0] == 's');
        if j == 0 {
            assert(w[0] == '[');
        } else if j + 1 >= 8 {
            assert(w[1] == stamp[j + 1 - 8]);
            assert(is_stamp_char(stamp[j + 1 - 8]));
        } else if j + 1 == 7 {
            assert(w[1] == ' ');
        } else if j == 1 {
            assert(w =~= origin.name());
            assert(w[3] != n[3]);
        } else {
            assert(w[1] == origin.name()[j]);
            assert(w[0] == origin.name()[j - 1]);
        }
    }
}

} // verus!
