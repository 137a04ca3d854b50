//! Splitting a byte stream into lines, and decoding each line as UTF-8 text.

use vstd::prelude::*;
use vstd::utf8::{decode_utf8, valid_utf8};

verus! {

/// The byte that ends a line.
pub const NEWLINE: u8 = 10;

/// The byte that may stand before the newline and is then dropped with it.
pub const CARRIAGE_RETURN: u8 = 13;

pub open spec fn no_newline(b: Seq<u8>) -> bool {
    forall|i: int| 0 <= i < b.len() ==> b[i] != NEWLINE
}

/// The bytes of the lines, each followed by a newline.
pub open spec fn join_lines(lines: Seq<Seq<u8>>) -> Seq<u8>
    decreases lines.len(),
{
    if lines.len() == 0 {
        Seq::empty()
    } else {
        join_lines(lines.drop_last()) + lines.last() + seq![NEWLINE]
    }
}

/// A stream's bytes fix its lines: two ways of writing the same bytes as lines, each
/// followed by a newline, and then a rest without newline, are the same.
pub proof fn lemma_lines_unique(a: Seq<Seq<u8>>, p: Seq<u8>, b: Seq<Seq<u8>>, q: Seq<u8>)
    requires
        forall|i: int| 0 <= i < a.len() ==> no_newline(#[trigger] a[i]),
        forall|i: int| 0 <= i < b.len() ==> no_newline(#[trigger] b[i]),
        no_newline(p),
        no_newline(q),
        join_lines(a) + p == join_lines(b) + q,
    ensures
        a == b,
        p == q,
    decreases a.len() + b.len(),
{
    let s = join_lines(a) + p;
    if a.len() == 0 && b.len() == 0 {
        assert(p =~= s);
        assert(q =~= s);
    } else if a.len() == 0 {
        let k = join_lines(b).len() - 1;
        assert(join_lines(b)[k] == NEWLINE);
        assert(s[k] == NEWLINE);
        assert(p =~= s);
        assert(false);
    } else if b.len() == 0 {
        let k = join_lines(a).len() - 1;
        assert(join_lines(a)[k] == NEWLINE);
        assert(s[k] == NEWLINE);
        assert(q =~= s);
        assert(false);
    } else {
        let ja = join_lines(a);
        let jb = join_lines(b);
        assert(ja[ja.len() - 1] == NEWLINE);
        assert(jb[jb.len() - 1] == NEWLINE);
        if p.len() < q.len() {
            let k = ja.len() - 1;
            assert(s[k] == NEWLINE);
            assert(s[k] == q[k - jb.len()]);
            assert(false);
        }
        if q.len() < p.len() {
            let k = jb.len() - 1;
            assert(s[k] == NEWLINE);
            assert(s[k] == p[k - ja.len()]);
            assert(false);
        }
        assert(ja.len() == jb.len());
        assert(p =~= s.subrange(ja.len() as int, s.len() as int));
        assert(q =~= s.subrange(jb.len() as int, s.len() as int));
        assert(ja =~= s.subrange(0, ja.len() as int));
        assert(jb =~= s.subrange(0, jb.len() as int));
        let a2 = a.drop_last();
        let b2 = b.drop_last();
        assert(ja.drop_last() =~= join_lines(a2) + a.last());
        assert(jb.drop_last() =~= join_lines(b2) + b.last());
        assert(a.last() == a[a.len() - 1]);
        assert(b.last() == b[b.len() - 1]);
        assert forall|i: int| 0 <= i < a2.len() implies no_newline(#[trigger] a2[i]) by {
            assert(a2[i] == a[i]);
        }
        assert forall|i: int| 0 <= i < b2.len() implies no_newline(#[trigger] b2[i]) by {
            assert(b2[i] == b[i]);
        }
        lemma_lines_unique(a2, a.last(), b2, b.last());
        assert(a =~= a2.push(a.last()));
        assert(b =~= b2.push(b.last()));
    }
}

/// `lines`, each followed by a newline, then `rest` make up `b`, with no newline inside a
/// line or in the rest.
pub open spec fn splits(b: Seq<u8>, lines: Seq<Seq<u8>>, rest: Seq<u8>) -> bool {
    &&& join_lines(lines) + rest == b
    &&& forall|i: int| 0 <= i < lines.len() ==> no_newline(#[trigger] lines[i])
    &&& no_newline(rest)
}

/// The text of each line that ended with a newline, without a carriage return before it.
pub open spec fn terminated_payloads(lines: Seq<Seq<u8>>) -> Seq<Result<Seq<char>, Seq<char>>> {
    lines.map_values(|l: Seq<u8>| text_payload(without_carriage_return(l)))
}

/// What a whole stream `b` reads as: the text, or the decoding failure, of each line in
/// order; the last line counts where it has no newline and is not empty.
pub open spec fn stream_payloads(b: Seq<u8>) -> Seq<Result<Seq<char>, Seq<char>>> {
    let x = choose|x: (Seq<Seq<u8>>, Seq<u8>)| splits(b, x.0, x.1);
    if x.1.len() == 0 {
        terminated_payloads(x.0)
    } else {
        terminated_payloads(x.0).push(text_payload(x.1))
    }
}

/// Any split of a stream gives its payloads.
pub proof fn lemma_stream_payloads(b: Seq<u8>, lines: Seq<Seq<u8>>, rest: Seq<u8>)
    requires
        splits(b, lines, rest),
    ensures
        stream_payloads(b) == if rest.len() == 0 {
            terminated_payloads(lines)
        } else {
            terminated_payloads(lines).push(text_payload(rest))
        },
{
    assert(splits(b, (lines, rest).0, (lines, rest).1));
    let x = choose|x: (Seq<Seq<u8>>, Seq<u8>)| splits(b, x.0, x.1);
    lemma_lines_unique(x.0, x.1, lines, rest);
}

pub open spec fn views(lines: Seq<Vec<u8>>) -> Seq<Seq<u8>> {
    lines.map_values(|l: Vec<u8>| l@)
}

/// Cuts a byte stream into lines as its bytes come in, chunk by chunk. It keeps the
/// bytes of the line that is not complete yet.
pub struct LineSplitter {
    pending: Vec<u8>,
}

impl LineSplitter {
    #[verifier::type_invariant]
    spec fn inv(&self) -> bool {
        no_newline(self.pending@)
    }

    /// The bytes of the line begun and not yet complete.
    pub closed spec fn pending(&self) -> Seq<u8> {
        self.pending@
    }

    /// A splitter at the start of a stream.
    pub fn new() -> (r: LineSplitter)
        ensures
            r.pending() == Seq::<u8>::empty(),
    {
        LineSplitter { pending: Vec::new() }
    }

    /// Takes the next chunk of the stream and returns the lines that it completes, each
    /// without its newline. No byte is lost or repeated: the bytes held before and the
    /// chunk are exactly the lines returned, each with its newline, then what is held
    /// after.
    pub fn feed(&mut self, chunk: &[u8]) -> (r: Vec<Vec<u8>>)
        ensures
            old(self).pending() + chunk@ == join_lines(views(r@)) + final(self).pending(),
            no_newline(final(self).pending()),
            forall|i: int| 0 <= i < r@.len() ==> no_newline(#[trigger] r@[i]@),
    {
        proof {
            use_type_invariant(&*self);
        }
        let ghost start = self.pending@;
        let mut pending: Vec<u8> = Vec::new();
        core::mem::swap(&mut pending, &mut self.pending);
        let mut lines: Vec<Vec<u8>> = Vec::new();
        let mut i: usize = 0;
        assert(views(lines@) =~= Seq::<Seq<u8>>::empty());
        assert(start + chunk@.subrange(0, 0) =~= start);
        while i < chunk.len()
            invariant
                i <= chunk@.len(),
                start + chunk@.subrange(0, i as int) == join_lines(views(lines@)) + pending@,
                no_newline(pending@),
                forall|j: int| 0 <= j < lines@.len() ==> no_newline(#[trigger] lines@[j]@),
            decreases chunk@.len() - i,
        {
            let b = chunk[i];
            let ghost before = views(lines@);
            let ghost held = pending@;
            let ghost prefix = start + chunk@.subrange(0, i as int);
            if b == NEWLINE {
                let mut line: Vec<u8> = Vec::new();
                core::mem::swap(&mut line, &mut pending);
                lines.push(line);
                assert(views(lines@) =~= before.push(held));
                assert(views(lines@).drop_last() =~= before);
                assert(join_lines(views(lines@)) == join_lines(before) + held + seq![NEWLINE]);
                assert(prefix.push(b) =~= join_lines(views(lines@)) + pending@);
            } else {
                pending.push(b);
                assert(prefix.push(b) =~= join_lines(views(lines@)) + pending@);
            }
            i = i + 1;
            assert(chunk@.subrange(0, i as int) =~= chunk@.subrange(0, i - 1).push(b));
            assert(start + chunk@.subrange(0, i as int) =~= prefix.push(b));
        }
        assert(chunk@.subrange(0, i as int) =~= chunk@);
        core::mem::swap(&mut pending, &mut self.pending);
        lines
    }

    /// Ends the stream: returns the bytes of the last line where the stream did not end
    /// with a newline, and nothing where it did.
    pub fn finish(&mut self) -> (r: Option<Vec<u8>>)
        ensures
            r is Some <==> old(self).pending().len() > 0,
            r matches Some(b) ==> b@ == old(self).pending(),
            final(self).pending() == Seq::<u8>::empty(),
    {
        let mut rest: Vec<u8> = Vec::new();
        core::mem::swap(&mut rest, &mut self.pending);
        if rest.len() > 0 {
            Some(rest)
        } else {
            None
        }
    }
}

/// The line without the carriage return that may end it.
pub open spec fn without_carriage_return(b: Seq<u8>) -> Seq<u8> {
    if b.len() > 0 && b.last() == CARRIAGE_RETURN {
        b.drop_last()
    } else {
        b
    }
}

/// The message of a line that is not valid UTF-8.
pub open spec fn invalid_utf8_message() -> Seq<char> {
    "stream did not contain valid UTF-8"@
}

/// The text of a line's bytes, or the message of a decoding failure.
pub open spec fn text_payload(b: Seq<u8>) -> Result<Seq<char>, Seq<char>> {
    if valid_utf8(b) {
        Ok(decode_utf8(b))
    } else {
        Err(invalid_utf8_message())
    }
}

pub open spec fn payload_view(p: Result<String, String>) -> Result<Seq<char>, Seq<char>> {
    match p {
        Ok(s) => Ok(s@),
        Err(m) => Err(m@),
    }
}

/// Relies on `String::from_utf8`: the text that the bytes encode where they are valid
/// UTF-8, and a failure where they are not.
#[verifier::external_body]
fn utf8_text(bytes: Vec<u8>) -> (r: Option<String>)
    ensures
        r is Some <==> valid_utf8(bytes@),
        r matches Some(s) ==> s@ == decode_utf8(bytes@),
{
    String::from_utf8(bytes).ok()
}

/// The text of the last line of a stream, which had no newline.
pub fn decode_text(bytes: Vec<u8>) -> (r: Result<String, String>)
    ensures
        payload_view(r) == text_payload(bytes@),
{
    match utf8_text(bytes) {
        Some(s) => Ok(s),
        None => Err(String::from_str("stream did not contain valid UTF-8")),
    }
}

/// The text of a line that ended with a newline, without a carriage return before it.
pub fn decode_line(raw: Vec<u8>) -> (r: Result<String, String>)
    ensures
        payload_view(r) == text_payload(without_carriage_return(raw@)),
{
    let mut bytes = raw;
    if bytes.len() > 0 && bytes[bytes.len() - 1] == CARRIAGE_RETURN {
        bytes.pop();
    }
    decode_text(bytes)
}

} // verus!
