//! What to do with each result of reading one of the child's streams.

use crate::dispatch::StreamEvent;
use crate::lines::{
    decode_line, decode_text, join_lines, lemma_stream_payloads, no_newline, payload_view, splits,
    stream_payloads, terminated_payloads, text_payload, views, without_carriage_return,
    LineSplitter,
};
use crate::origin::Origin;
use vstd::prelude::*;
use vstd::slice::slice_to_vec;

verus! {

/// The result of one read from a stream.
pub enum ReadResult {
    /// Bytes that came in.
    Bytes(Vec<u8>),
    /// The read was interrupted before anything came; it is tried again.
    Interrupted,
    /// The read failed, with this message; reading goes on.
    Failed(String),
    /// The stream has ended.
    Closed,
}

/// The payloads of a sequence of events.
pub open spec fn event_payloads(es: Seq<StreamEvent>) -> Seq<Result<Seq<char>, Seq<char>>> {
    es.map_values(|e: StreamEvent| payload_view(e.payload))
}

/// Turns the reads from one stream into events. It keeps, as ghost state, every byte
/// read, the complete lines, and every payload sent.
pub struct StreamReader {
    origin: Origin,
    splitter: LineSplitter,
    closed: bool,
    seen: Ghost<Seq<u8>>,
    lines: Ghost<Seq<Seq<u8>>>,
    sent: Ghost<Seq<Result<Seq<char>, Seq<char>>>>,
    failed: Ghost<bool>,
}

impl StreamReader {
    #[verifier::type_invariant]
    spec fn inv(&self) -> bool {
        &&& !self.closed ==> splits(self.seen@, self.lines@, self.splitter.pending())
        &&& !self.closed && !self.failed@ ==> self.sent@ == terminated_payloads(self.lines@)
        &&& self.closed && !self.failed@ ==> self.sent@ == stream_payloads(self.seen@)
    }

    pub closed spec fn origin(&self) -> Origin {
        self.origin
    }

    /// Whether the stream has ended.
    pub closed spec fn is_closed(&self) -> bool {
        self.closed
    }

    /// Every byte read so far.
    pub closed spec fn seen(&self) -> Seq<u8> {
        self.seen@
    }

    /// Every payload sent so far, in order.
    pub closed spec fn sent(&self) -> Seq<Result<Seq<char>, Seq<char>>> {
        self.sent@
    }

    /// Whether a read has failed.
    pub closed spec fn failed(&self) -> bool {
        self.failed@
    }

    /// A reader for a stream that nothing has been read from.
    pub fn new(origin: Origin) -> (r: StreamReader)
        ensures
            r.origin() == origin,
            !r.is_closed(),
            !r.failed(),
            r.seen() == Seq::<u8>::empty(),
            r.sent() == Seq::<Result<Seq<char>, Seq<char>>>::empty(),
    {
        let splitter = LineSplitter::new();
        assert(join_lines(Seq::<Seq<u8>>::empty()) + splitter.pending() =~= Seq::<u8>::empty());
        assert(terminated_payloads(Seq::<Seq<u8>>::empty()) =~= Seq::<Result<Seq<char>, Seq<char>>>::empty());
        let r = StreamReader {
            origin,
            splitter,
            closed: false,
            seen: Ghost(Seq::empty()),
            lines: Ghost(Seq::empty()),
            sent: Ghost(Seq::empty()),
            failed: Ghost(false),
        };
        assert(join_lines(Seq::<Seq<u8>>::empty()) + Seq::<u8>::empty() =~= Seq::<u8>::empty());
        assert(terminated_payloads(Seq::<Seq<u8>>::empty()) =~= Seq::<Result<Seq<char>, Seq<char>>>::empty());
        r
    }

    /// Takes the result of one read and returns the events to send, and whether the
    /// stream has ended. Once it has ended and no read failed, the payloads sent are
    /// exactly what the whole stream reads as.
    pub fn step(&mut self, result: ReadResult) -> (r: (Vec<StreamEvent>, bool))
        ensures
            r.1 == final(self).is_closed(),
            final(self).origin() == old(self).origin(),
            forall|i: int| 0 <= i < r.0@.len() ==> (#[trigger] r.0@[i]).origin == old(self).origin(),
            final(self).sent() == old(self).sent() + event_payloads(r.0@),
            old(self).is_closed() ==> r.0@.len() == 0 && r.1 && final(self).seen() == old(self).seen()
                && final(self).failed() == old(self).failed(),
            !old(self).is_closed() ==> match result {
                ReadResult::Bytes(c) => !r.1 && final(self).seen() == old(self).seen() + c@
                    && final(self).failed() == old(self).failed(),
                ReadResult::Interrupted => !r.1 && r.0@.len() == 0 && final(self).seen() == old(
                    self,
                ).seen() && final(self).failed() == old(self).failed(),
                ReadResult::Failed(m) => !r.1 && r.0@.len() == 1 && payload_view(r.0@[0].payload)
                    == Err::<Seq<char>, Seq<char>>(m@) && final(self).seen() == old(self).seen()
                    && final(self).failed(),
                ReadResult::Closed => r.1 && final(self).seen() == old(self).seen()
                    && final(self).failed() == old(self).failed(),
            },
            final(self).is_closed() && !final(self).failed() ==> final(self).sent() == stream_payloads(
                final(self).seen(),
            ),
    {
        let mut me = StreamReader::new(Origin::Stdout);
        core::mem::swap(&mut me, self);
        proof {
            use_type_invariant(&me);
        }
        let StreamReader {
            origin,
            mut splitter,
            closed: was_closed,
            seen: Ghost(seen),
            lines: Ghost(lines),
            sent: Ghost(sent),
            failed: Ghost(failed),
        } = me;
        if was_closed {
            let events: Vec<StreamEvent> = Vec::new();
            assert(event_payloads(events@) =~= Seq::<Result<Seq<char>, Seq<char>>>::empty());
            assert(sent + event_payloads(events@) =~= sent);
            *self = StreamReader {
                origin,
                splitter,
                closed: true,
                seen: Ghost(seen),
                lines: Ghost(lines),
                sent: Ghost(sent),
                failed: Ghost(failed),
            };
            return (events, true);
        }
        let mut events: Vec<StreamEvent> = Vec::new();
        let mut closed = false;
        let ghost mut new_seen = seen;
        let ghost mut new_lines = lines;
        let ghost mut new_failed = failed;
        match result {
            ReadResult::Bytes(chunk) => {
                let ghost held = splitter.pending();
                let raws = splitter.feed(chunk.as_slice());
                let mut i: usize = 0;
                while i < raws.len()
                    invariant
                        i <= raws@.len(),
                        event_payloads(events@) == terminated_payloads(views(raws@).take(i as int)),
                        forall|j: int| 0 <= j < events@.len() ==> (#[trigger] events@[j]).origin == origin,
                    decreases raws@.len() - i,
                {
                    let raw = slice_to_vec(raws[i].as_slice());
                    let payload = decode_line(raw);
                    let ghost before = events@;
                    events.push(StreamEvent { origin, payload });
                    i = i + 1;
                    assert(views(raws@).take(i as int) =~= views(raws@).take(i - 1).push(raws@[i - 1]@));
                    assert(event_payloads(events@) =~= event_payloads(before).push(payload_view(payload)));
                    assert(terminated_payloads(views(raws@).take(i as int)) =~= terminated_payloads(
                        views(raws@).take(i - 1),
                    ).push(text_payload(without_carriage_return(raws@[i - 1]@))));
                    assert(event_payloads(events@) =~= terminated_payloads(views(raws@).take(i as int)));
                }
                assert(views(raws@).take(i as int) =~= views(raws@));
                proof {
                    new_seen = seen + chunk@;
                    new_lines = lines + views(raws@);
                    lemma_join_append(lines, views(raws@));
                    assert(held + chunk@ == join_lines(views(raws@)) + splitter.pending());
                    assert(seen == join_lines(lines) + held);
                    assert(join_lines(new_lines) + splitter.pending() =~= join_lines(lines) + (held
                        + chunk@));
                    assert(join_lines(new_lines) + splitter.pending() =~= new_seen);
                    assert(terminated_payloads(new_lines) =~= terminated_payloads(lines)
                        + terminated_payloads(views(raws@)));
                    assert forall|k: int| 0 <= k < new_lines.len() implies no_newline(#[trigger] new_lines[k]) by {
                        if k < lines.len() {
                            assert(new_lines[k] == lines[k]);
                        } else {
                            assert(new_lines[k] == raws@[k - lines.len()]@);
                        }
                    }
                }
            },
            ReadResult::Interrupted => {
                assert(event_payloads(events@) =~= Seq::<Result<Seq<char>, Seq<char>>>::empty());
            },
            ReadResult::Failed(message) => {
                events.push(StreamEvent { origin, payload: Err(message) });
                proof {
                    new_failed = true;
                }
            },
            ReadResult::Closed => {
                let ghost rest = splitter.pending();
                let last = splitter.finish();
                match last {
                    Some(bytes) => {
                        let payload = decode_text(bytes);
                        events.push(StreamEvent { origin, payload });
                    },
                    None => {},
                }
                closed = true;
                proof {
                    lemma_stream_payloads(seen, lines, rest);
                    if rest.len() == 0 {
                        assert(event_payloads(events@) =~= Seq::<Result<Seq<char>, Seq<char>>>::empty());
                        assert(sent + event_payloads(events@) =~= sent);
                    } else {
                        assert(event_payloads(events@) =~= seq![text_payload(rest)]);
                        assert(terminated_payloads(lines) + seq![text_payload(rest)]
                            =~= terminated_payloads(lines).push(text_payload(rest)));
                    }
                }
            },
        }
        let ghost new_sent = sent + event_payloads(events@);
        assert(new_failed == failed ==> new_sent == sent + event_payloads(events@));
        *self = StreamReader {
            origin,
            splitter,
            closed,
            seen: Ghost(new_seen),
            lines: Ghost(new_lines),
            sent: Ghost(new_sent),
            failed: Ghost(new_failed),
        };
        (events, closed)
    }
}

proof fn lemma_join_append(a: Seq<Seq<u8>>, b: Seq<Seq<u8>>)
    ensures
        join_lines(a + b) == join_lines(a) + join_lines(b),
    decreases b.len(),
{
    if b.len() == 0 {
        assert(a + b =~= a);
        assert(join_lines(a) + join_lines(b) =~= join_lines(a));
    } else {
        lemma_join_append(a, b.drop_last());
        assert((a + b).drop_last() =~= a + b.drop_last());
        assert((a + b).last() == b.last());
        assert(join_lines(a + b) =~= join_lines(a) + join_lines(b));
    }
}

} // verus!
