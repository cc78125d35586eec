//! The incremental reader and the pull-based result sequence.
//!
//! A [`Parser`] owns a growing text buffer.  Bytes are fed in as they
//! arrive; a one-shot handshake must match the protocol header before the
//! stream of records can be constructed.  A [`ResultStream`] then yields one
//! [`TestPoint`] per successful pull, evicting exactly the consumed prefix
//! of the buffer, asking for more input while a unit is incomplete, and
//! ending with one terminal error when the input is malformed or truncated.

use crate::parsing::{parse_test_point, parse_version, spec_test_point, spec_version, Outcome, OutcomeV};
use crate::TestPoint;
use crate::TestPointV;
use vstd::prelude::*;
use vstd::string::*;
use vstd::utf8::encode_utf8;

verus! {

/// Why a stream of records ended without reaching a clean end of input.
#[derive(Debug, PartialEq, Eq, Clone, Copy)]
pub enum StreamError {
    /// The handshake line was not the protocol header.
    MalformedHeader,
    /// The buffered content can never match a test point.
    SyntaxError,
    /// The source closed while a unit was still incomplete.
    TruncatedStream,
}

/// The result of the one-shot version handshake.
#[derive(Debug, PartialEq, Eq, Clone, Copy)]
pub enum Handshake {
    /// The header matched; the stream of records may be constructed.
    Accepted,
    /// More input is needed before the header can be judged.
    Pending,
    /// The header can never match: a fatal setup error.
    Rejected,
}

/// One pull on the result sequence.
#[derive(Debug, PartialEq, Eq, Clone)]
pub enum Pulled {
    /// The next record, in input order.
    Record(TestPoint),
    /// The buffer holds an incomplete unit: feed more input and pull again.
    Pending,
    /// The sequence is over; no further records will come.
    Finished,
    /// The sequence ends with this failure; no further records will come.
    Failed(StreamError),
}

/// Relies on `std::str::from_utf8` and `std::str::Utf8Error`: splits a byte
/// string into its longest decodable prefix and an undecoded remainder of
/// at most three bytes.  `from_utf8` reports an error with
/// `error_len() == None` exactly when the string ends in the middle of a
/// character, and `valid_up_to()` marks the end of the valid prefix; an
/// error with `error_len() == Some(..)` is an invalid sequence that no
/// continuation can repair, so `None` comes back only for bytes that can
/// never become valid UTF-8, whatever arrives later.
#[verifier::external_body]
fn utf8_split(bytes: &[u8]) -> (r: Option<(String, Vec<u8>)>)
    ensures
        match r {
            Some(p) => encode_utf8(p.0@) + p.1@ == bytes@ && p.1@.len() < 4,
            None => forall|more: Seq<u8>| !vstd::utf8::valid_utf8(bytes@ + more),
        },
{
    match std::str::from_utf8(bytes) {
        Ok(s) => Some((s.to_string(), Vec::new())),
        Err(e) => {
            if e.error_len().is_some() {
                None
            } else {
                let k = e.valid_up_to();
                let (a, b) = bytes.split_at(k);
                Some((String::from_utf8_lossy(a).into_owned(), b.to_vec()))
            }
        },
    }
}

/// UTF-8 encoding distributes over concatenation of character sequences.
pub proof fn lemma_encode_utf8_concat(a: Seq<char>, b: Seq<char>)
    ensures
        encode_utf8(a + b) == encode_utf8(a) + encode_utf8(b),
    decreases a.len(),
{
    if a.len() == 0 {
        assert(a + b =~= b);
        assert(encode_utf8(a) + encode_utf8(b) =~= encode_utf8(b));
    } else {
        lemma_encode_utf8_concat(a.drop_first(), b);
        assert((a + b).drop_first() =~= a.drop_first() + b);
        assert((a + b)[0] == a[0]);
        assert(encode_utf8(a + b) =~= encode_utf8(a) + encode_utf8(b));
    }
}

/// The version handshake and the buffer it accumulates.
pub struct Parser {
    /// Decoded text not yet consumed.
    pub buffer: String,
    /// Bytes held back because they end in the middle of a character.
    pub tail: Vec<u8>,
    /// The source has reported a clean end of input.
    pub closed: bool,
    /// The header has been matched and consumed.
    pub version_ok: bool,
}

impl Parser {
    /// A fresh parser with an empty buffer, before its handshake.
    pub fn new() -> (p: Parser)
        ensures
            p.buffer@ == Seq::<char>::empty(),
            p.tail@ == Seq::<u8>::empty(),
            !p.closed,
            !p.version_ok,
    {
        Parser { buffer: String::new(), tail: Vec::new(), closed: false, version_ok: false }
    }

    /// Appends a chunk of text to the buffer.
    pub fn feed(&mut self, chunk: &str)
        ensures
            final(self).buffer@ == old(self).buffer@ + chunk@,
            final(self).tail@ == old(self).tail@,
            final(self).closed == old(self).closed,
            final(self).version_ok == old(self).version_ok,
    {
        self.buffer.append(chunk);
    }

    /// Appends a chunk of raw bytes, decoding as much as is decodable and
    /// holding back a split trailing character until its bytes arrive.  A
    /// chunk is refused — the parser left unchanged, for the caller to
    /// abandon the stream — only when the accumulated bytes can never
    /// become valid text, however the stream continues.
    pub fn feed_bytes(&mut self, chunk: &[u8]) -> (ok: bool)
        ensures
            ok ==> encode_utf8(final(self).buffer@) + final(self).tail@ == encode_utf8(
                old(self).buffer@,
            ) + old(self).tail@ + chunk@ && final(self).tail@.len() < 4,
            !ok ==> *final(self) == *old(self),
            (exists|more: Seq<u8>|
                vstd::utf8::valid_utf8(old(self).tail@ + chunk@ + more)) ==> ok,
            final(self).closed == old(self).closed,
            final(self).version_ok == old(self).version_ok,
    {
        let mut data: Vec<u8> = Vec::new();
        let mut i: usize = 0;
        while i < self.tail.len()
            invariant
                0 <= i <= self.tail@.len(),
                data@ == self.tail@.subrange(0, i as int),
            decreases self.tail@.len() - i,
        {
            data.push(self.tail[i]);
            i = i + 1;
        }
        let mut j: usize = 0;
        while j < chunk.len()
            invariant
                0 <= j <= chunk@.len(),
                data@ == self.tail@ + chunk@.subrange(0, j as int),
            decreases chunk@.len() - j,
        {
            data.push(chunk[j]);
            j = j + 1;
        }
        proof {
            assert(data@ =~= self.tail@ + chunk@);
        }
        match utf8_split(data.as_slice()) {
            None => {
                proof {
                    assert forall|more: Seq<u8>|
                        !vstd::utf8::valid_utf8(old(self).tail@ + chunk@ + more) by {
                        assert(data@ + more =~= old(self).tail@ + chunk@ + more);
                    }
                }
                false
            },
            Some(p) => {
                let (text, rest) = p;
                self.buffer.append(text.as_str());
                self.tail = rest;
                proof {
                    lemma_encode_utf8_concat(old(self).buffer@, text@);
                    assert(encode_utf8(old(self).buffer@ + text@) + rest@ =~= encode_utf8(
                        old(self).buffer@,
                    ) + (encode_utf8(text@) + rest@));
                    assert(encode_utf8(old(self).buffer@) + old(self).tail@ + chunk@
                        =~= encode_utf8(old(self).buffer@) + (old(self).tail@ + chunk@));
                }
                true
            },
        }
    }

    /// Marks the source as having reported a clean end of input.
    pub fn close(&mut self)
        ensures
            final(self).buffer@ == old(self).buffer@,
            final(self).tail@ == old(self).tail@,
            final(self).closed,
            final(self).version_ok == old(self).version_ok,
    {
        self.closed = true;
    }

    /// The one-shot version gate: matches and consumes the protocol header,
    /// or reports that setup has failed.  Only the exact `TAP Version 14`
    /// header line is accepted.
    pub fn handshake(&mut self) -> (h: Handshake)
        requires
            !old(self).version_ok,
        ensures
            final(self).tail@ == old(self).tail@,
            final(self).closed == old(self).closed,
            match spec_version(old(self).buffer@) {
                OutcomeV::Parsed(_, c) => h == Handshake::Accepted && final(self).version_ok
                    && final(self).buffer@ == old(self).buffer@.skip(c),
                OutcomeV::Incomplete => !final(self).version_ok && final(self).buffer@ == old(
                    self,
                ).buffer@ && (h == if old(self).closed {
                    Handshake::Rejected
                } else {
                    Handshake::Pending
                }),
                _ => h == Handshake::Rejected && !final(self).version_ok && final(self).buffer@
                    == old(self).buffer@,
            },
    {
        let r = parse_version(self.buffer.as_str());
        match r {
            Outcome::Parsed(_, c) => {
                let n = self.buffer.as_str().unicode_len();
                assert(c <= n);
                let rest = self.buffer.as_str().substring_char(c, n).to_owned();
                proof {
                    assert(rest@ =~= old(self).buffer@.skip(c as int));
                }
                self.buffer = rest;
                self.version_ok = true;
                Handshake::Accepted
            },
            Outcome::Incomplete => {
                if self.closed {
                    Handshake::Rejected
                } else {
                    Handshake::Pending
                }
            },
            _ => Handshake::Rejected,
        }
    }

    /// Hands the buffer over to the stream of records.  Only valid once the
    /// handshake has accepted the header.
    pub fn test_results(self) -> (r: ResultStream)
        requires
            self.version_ok,
        ensures
            r.buffer@ == self.buffer@,
            r.tail@ == self.tail@,
            r.closed == self.closed,
            r.live,
    {
        ResultStream { buffer: self.buffer, tail: self.tail, closed: self.closed, live: true }
    }
}

/// A parsed record is settled when its decision can no longer change:
/// further text follows it in the buffer, or it carries a whole YAML block,
/// or the source has closed and nothing more can arrive.  An unsettled
/// record — one ending exactly at the buffer's end without a YAML block,
/// while the source is open — could still gain a block and is not yielded.
pub open spec fn record_settled(closed: bool, buffer: Seq<char>, p: TestPointV, c: int) -> bool {
    closed || c < buffer.len() || p.yaml is Some
}

/// The pull-based, lazily evaluated sequence of test-point records.
pub struct ResultStream {
    /// Decoded text not yet consumed.
    pub buffer: String,
    /// Bytes held back because they end in the middle of a character.
    pub tail: Vec<u8>,
    /// The source has reported a clean end of input.
    pub closed: bool,
    /// No terminal result has been yielded yet.
    pub live: bool,
}

impl ResultStream {
    /// Appends a chunk of text to the buffer.
    pub fn feed(&mut self, chunk: &str)
        ensures
            final(self).buffer@ == old(self).buffer@ + chunk@,
            final(self).tail@ == old(self).tail@,
            final(self).closed == old(self).closed,
            final(self).live == old(self).live,
    {
        self.buffer.append(chunk);
    }

    /// Appends a chunk of raw bytes, holding back a split trailing
    /// character.  A chunk is refused — the stream left unchanged, for the
    /// caller to abandon it — only when the accumulated bytes can never
    /// become valid text, however the stream continues.
    pub fn feed_bytes(&mut self, chunk: &[u8]) -> (ok: bool)
        ensures
            ok ==> encode_utf8(final(self).buffer@) + final(self).tail@ == encode_utf8(
                old(self).buffer@,
            ) + old(self).tail@ + chunk@ && final(self).tail@.len() < 4,
            !ok ==> *final(self) == *old(self),
            (exists|more: Seq<u8>|
                vstd::utf8::valid_utf8(old(self).tail@ + chunk@ + more)) ==> ok,
            final(self).closed == old(self).closed,
            final(self).live == old(self).live,
    {
        let mut data: Vec<u8> = Vec::new();
        let mut i: usize = 0;
        while i < self.tail.len()
            invariant
                0 <= i <= self.tail@.len(),
                data@ == self.tail@.subrange(0, i as int),
            decreases self.tail@.len() - i,
        {
            data.push(self.tail[i]);
            i = i + 1;
        }
        let mut j: usize = 0;
        while j < chunk.len()
            invariant
                0 <= j <= chunk@.len(),
                data@ == self.tail@ + chunk@.subrange(0, j as int),
            decreases chunk@.len() - j,
        {
            data.push(chunk[j]);
            j = j + 1;
        }
        proof {
            assert(data@ =~= self.tail@ + chunk@);
        }
        match utf8_split(data.as_slice()) {
            None => {
                proof {
                    assert forall|more: Seq<u8>|
                        !vstd::utf8::valid_utf8(old(self).tail@ + chunk@ + more) by {
                        assert(data@ + more =~= old(self).tail@ + chunk@ + more);
                    }
                }
                false
            },
            Some(p) => {
                let (text, rest) = p;
                self.buffer.append(text.as_str());
                self.tail = rest;
                proof {
                    lemma_encode_utf8_concat(old(self).buffer@, text@);
                    assert(encode_utf8(old(self).buffer@ + text@) + rest@ =~= encode_utf8(
                        old(self).buffer@,
                    ) + (encode_utf8(text@) + rest@));
                    assert(encode_utf8(old(self).buffer@) + old(self).tail@ + chunk@
                        =~= encode_utf8(old(self).buffer@) + (old(self).tail@ + chunk@));
                }
                true
            },
        }
    }

    /// Marks the source as having reported a clean end of input.
    pub fn close(&mut self)
        ensures
            final(self).buffer@ == old(self).buffer@,
            final(self).tail@ == old(self).tail@,
            final(self).closed,
            final(self).live == old(self).live,
    {
        self.closed = true;
    }

    /// One pull: attempts one test point against the buffer.  A parsed
    /// record is yielded and its characters evicted; an incomplete unit
    /// asks for more input, or — once the source has closed — ends the
    /// sequence, cleanly when nothing is left unconsumed and as a
    /// truncation otherwise; content that can never match ends the
    /// sequence as a syntax error.
    ///
    /// A record without a YAML block whose text ends exactly at the end of
    /// the buffer is not yet committed while the source is open: the
    /// block's opener could still arrive.  It is committed once the source
    /// has closed.  So the records this sequence yields depend only on the
    /// total input, never on where the chunks were split.
    pub fn poll_next(&mut self) -> (r: Pulled)
        ensures
            final(self).tail@ == old(self).tail@,
            final(self).closed == old(self).closed,
            !old(self).live ==> r == Pulled::Finished && final(self).buffer@ == old(self).buffer@
                && !final(self).live,
            old(self).live ==> match spec_test_point(old(self).buffer@) {
                OutcomeV::Parsed(p, c) => (if record_settled(
                    old(self).closed,
                    old(self).buffer@,
                    p,
                    c,
                ) {
                    (r matches Pulled::Record(tp) && tp.deep_view() == p) && final(self).buffer@
                        == old(self).buffer@.skip(c) && final(self).live
                } else {
                    r == Pulled::Pending && final(self).live && final(self).buffer@ == old(
                        self,
                    ).buffer@
                }),
                OutcomeV::Incomplete => final(self).buffer@ == old(self).buffer@ && (if !old(
                    self,
                ).closed {
                    r == Pulled::Pending && final(self).live
                } else if old(self).buffer@.len() == 0 && old(self).tail@.len() == 0 {
                    r == Pulled::Finished && !final(self).live
                } else {
                    r == Pulled::Failed(StreamError::TruncatedStream) && !final(self).live
                }),
                _ => r == Pulled::Failed(StreamError::SyntaxError) && final(self).buffer@ == old(
                    self,
                ).buffer@ && !final(self).live,
            },
    {
        if !self.live {
            return Pulled::Finished;
        }
        match parse_test_point(self.buffer.as_str()) {
            Outcome::Parsed(p, c) => {
                proof {
                    crate::parsing::lemma_test_point_consumed(self.buffer@);
                }
                let n = self.buffer.as_str().unicode_len();
                if !self.closed && c == n && p.yaml.is_none() {
                    return Pulled::Pending;
                }
                let rest = self.buffer.as_str().substring_char(c, n).to_owned();
                proof {
                    assert(rest@ =~= old(self).buffer@.skip(c as int));
                }
                self.buffer = rest;
                Pulled::Record(p)
            },
            Outcome::Incomplete => {
                if !self.closed {
                    Pulled::Pending
                } else if self.buffer.as_str().unicode_len() == 0 && self.tail.len() == 0 {
                    self.live = false;
                    Pulled::Finished
                } else {
                    // Either a unit is still incomplete, or the source ended
                    // in the middle of a character: the stream is truncated.
                    self.live = false;
                    Pulled::Failed(StreamError::TruncatedStream)
                }
            },
            _ => {
                self.live = false;
                Pulled::Failed(StreamError::SyntaxError)
            },
        }
    }
}

} // verus!
