//! Length-prefixed messages on a byte stream.
//!
//! Each message travels as its length, encoded as an unsigned integer, and
//! then its bytes. The reader is a state machine that is fed whatever bytes
//! arrive and hands out each message as soon as it is complete.

use vstd::prelude::*;
use vstd::slice::{slice_subrange, slice_to_vec};

use crate::decode::{u64_decoding, Cursor, Decode, DecodeError};
use crate::encode::{bytes_encoding, encode_bytes, u64_encoding};
use crate::round_trip::lemma_u64_round_trip;
use crate::stream::lemma_u64_decoding_extends;

verus! {

/// Where a reader stands between two messages.
#[derive(Clone, Copy, Debug, PartialEq, Eq, Structural)]
pub enum ReaderState {
    /// In front of the length of the next message.
    Begin,
    /// Behind the length of a message, in front of its bytes.
    ReadSize(u64),
}

/// What a reader makes of the bytes it holds: the messages it hands out,
/// the state it ends in, the bytes it keeps for later, and the failure that
/// ends the connection, if any.
pub struct Drained {
    pub messages: Seq<Seq<u8>>,
    pub state: ReaderState,
    pub rest: Seq<u8>,
    pub error: Option<DecodeError>,
}

/// The outcome `d` with the message `first` handed out before its own.
pub open spec fn after_message(first: Seq<u8>, d: Drained) -> Drained {
    Drained { messages: seq![first] + d.messages, state: d.state, rest: d.rest, error: d.error }
}

/// What a reader in `state` makes of the buffered bytes `buf`.
///
/// In front of a length it decodes one: with success it goes on behind the
/// length; when the length is not there yet or not whole, it waits for more
/// bytes; any other failure ends the connection. Behind a length it waits
/// until the buffer holds that many bytes, hands them out as a message and
/// goes on in front of the next length.
pub open spec fn drain(state: ReaderState, buf: Seq<u8>) -> Drained
    decreases buf.len(), (if state is Begin {
        0int
    } else {
        1int
    }),
{
    match state {
        ReaderState::Begin => {
            let d = u64_decoding(buf);
            match d.result {
                Ok(n) => drain(ReaderState::ReadSize(n), buf.skip(d.read as int)),
                Err(DecodeError::EOF) | Err(DecodeError::PartialRead) => Drained {
                    messages: Seq::empty(),
                    state,
                    rest: buf,
                    error: None,
                },
                Err(e) => Drained { messages: Seq::empty(), state, rest: buf, error: Some(e) },
            }
        },
        ReaderState::ReadSize(n) => {
            if buf.len() >= n {
                after_message(buf.take(n as int), drain(ReaderState::Begin, buf.skip(n as int)))
            } else {
                Drained { messages: Seq::empty(), state, rest: buf, error: None }
            }
        },
    }
}

/// The views of a list of messages.
pub open spec fn messages_model(messages: Seq<Vec<u8>>) -> Seq<Seq<u8>> {
    messages.map_values(|m: Vec<u8>| m@)
}

/// The message `m` as it travels: its length, then its bytes.
pub open spec fn frame(m: Seq<u8>) -> Seq<u8> {
    bytes_encoding(m)
}

/// Appends the message `m` as it travels to `out`.
pub fn write_frame(m: &[u8], out: &mut Vec<u8>)
    ensures
        final(out)@ == old(out)@ + frame(m@),
{
    encode_bytes(m, out)
}

/// A reader of length-prefixed messages.
pub struct FrameReader {
    buffer: Vec<u8>,
    state: ReaderState,
}

impl FrameReader {
    /// The bytes that the reader holds for later.
    pub closed spec fn buffered(&self) -> Seq<u8> {
        self.buffer@
    }

    /// Where the reader stands, as a specification value.
    pub closed spec fn spec_state(&self) -> ReaderState {
        self.state
    }

    /// A reader in front of the first message.
    pub fn new() -> (r: FrameReader)
        ensures
            r.buffered() == Seq::<u8>::empty(),
            r.state() == ReaderState::Begin,
    {
        FrameReader { buffer: Vec::new(), state: ReaderState::Begin }
    }

    /// Where the reader stands.
    #[verifier::when_used_as_spec(spec_state)]
    pub fn state(&self) -> (s: ReaderState)
        ensures
            s == self.state(),
    {
        self.state
    }

    /// The number of bytes that the reader holds for later.
    pub fn buffered_len(&self) -> (n: usize)
        ensures
            n == self.buffered().len(),
    {
        self.buffer.len()
    }

    /// Takes in the bytes that arrived and appends to `out` every message
    /// that they complete. A failure means that the connection has to be
    /// given up; the reader then stands in front of the bytes that it could
    /// not read.
    pub fn feed(&mut self, bytes: &[u8], out: &mut Vec<Vec<u8>>) -> (r: Result<(), DecodeError>)
        ensures
            ({
                let d = drain(old(self).state(), old(self).buffered() + bytes@);
                &&& messages_model(final(out)@) == messages_model(old(out)@) + d.messages
                &&& final(self).state() == d.state
                &&& final(self).buffered() == d.rest
                &&& match r {
                    Ok(()) => d.error is None,
                    Err(e) => d.error == Some(e),
                }
            }),
    {
        self.buffer.extend_from_slice(bytes);
        assert(self.buffer@ =~= old(self).buffered() + bytes@);
        let ghost whole = drain(old(self).state(), self.buffer@);
        let ghost before = messages_model(old(out)@);
        let mut state = self.state;
        let mut pos: usize = 0;
        let mut failure: Option<DecodeError> = None;
        let len = self.buffer.len();
        proof {
            assert(self.buffer@.skip(0) =~= self.buffer@);
        }
        loop
            invariant_except_break
                failure is None,
                messages_model(out@) + drain(state, self.buffer@.skip(pos as int)).messages
                    == before + whole.messages,
            invariant
                len == self.buffer@.len(),
                pos <= len,
                drain(state, self.buffer@.skip(pos as int)).state == whole.state,
                drain(state, self.buffer@.skip(pos as int)).rest == whole.rest,
                drain(state, self.buffer@.skip(pos as int)).error == whole.error,
            ensures
                messages_model(out@) == before + whole.messages,
                state == whole.state,
                self.buffer@.skip(pos as int) == whole.rest,
                failure == whole.error,
            decreases len - pos, (if state is Begin {
                0int
            } else {
                1int
            }),
        {
            let ghost here = self.buffer@.skip(pos as int);
            match state {
                ReaderState::Begin => {
                    let mut src = Cursor::new(slice_subrange(self.buffer.as_slice(), pos, len));
                    match u64::decode(&mut src) {
                        Ok(n) => {
                            let read = (len - pos) - src.remaining_len();
                            proof {
                                assert(read == u64_decoding(here).read);
                                assert(here.skip(read as int) =~= self.buffer@.skip(pos + read));
                            }
                            state = ReaderState::ReadSize(n);
                            pos = pos + read;
                        },
                        Err(DecodeError::EOF) => {
                            break ;
                        },
                        Err(DecodeError::PartialRead) => {
                            break ;
                        },
                        Err(e) => {
                            failure = Some(e);
                            break ;
                        },
                    }
                },
                ReaderState::ReadSize(n) => {
                    if n <= (len - pos) as u64 {
                        let size = n as usize;
                        let message = slice_to_vec(
                            slice_subrange(self.buffer.as_slice(), pos, pos + size),
                        );
                        proof {
                            assert(message@ =~= here.take(n as int));
                            assert(here.skip(n as int) =~= self.buffer@.skip(pos + size));
                            let rest = drain(ReaderState::Begin, here.skip(n as int));
                            assert(messages_model(out@.push(message)) =~= messages_model(
                                out@,
                            ).push(message@));
                            assert(messages_model(out@).push(message@) + rest.messages
                                =~= messages_model(out@) + (seq![message@] + rest.messages));
                        }
                        out.push(message);
                        state = ReaderState::Begin;
                        pos = pos + size;
                    } else {
                        break ;
                    }
                },
            }
        }
        self.state = state;
        let kept = self.buffer.split_off(pos);
        self.buffer = kept;
        match failure {
            None => Ok(()),
            Some(e) => Err(e),
        }
    }
}

/// A reader in front of a length that meets a whole message, whatever
/// follows it, hands out that message and goes on with what follows.
pub proof fn lemma_frame_delivered(m: Seq<u8>, rest: Seq<u8>)
    requires
        m.len() <= u64::MAX,
    ensures
        drain(ReaderState::Begin, frame(m) + rest) == after_message(
            m,
            drain(ReaderState::Begin, rest),
        ),
{
    let n = m.len() as u64;
    let s = frame(m) + rest;
    assert(s =~= u64_encoding(n) + (m + rest));
    lemma_u64_round_trip(n, m + rest);
    let head = u64_encoding(n).len();
    assert(s.skip(head as int) =~= m + rest);
    assert((m + rest).take(n as int) =~= m);
    assert((m + rest).skip(n as int) =~= rest);
    reveal_with_fuel(drain, 3);
}

/// The messages as they travel, one behind the other.
pub open spec fn frames(messages: Seq<Seq<u8>>) -> Seq<u8>
    decreases messages.len(),
{
    if messages.len() == 0 {
        Seq::empty()
    } else {
        frame(messages[0]) + frames(messages.drop_first())
    }
}

/// A reader in front of a length that meets messages as they travel hands
/// out just these messages, keeps nothing, and stands in front of the next
/// length.
pub proof fn lemma_frames_delivered(messages: Seq<Seq<u8>>)
    requires
        forall|i: int| 0 <= i < messages.len() ==> (#[trigger] messages[i]).len() <= u64::MAX,
    ensures
        drain(ReaderState::Begin, frames(messages)) == (Drained {
            messages,
            state: ReaderState::Begin,
            rest: Seq::empty(),
            error: None,
        }),
    decreases messages.len(),
{
    if messages.len() == 0 {
        assert(messages =~= Seq::<Seq<u8>>::empty());
        assert(frames(messages) =~= Seq::<u8>::empty());
    } else {
        let rest = messages.drop_first();
        assert forall|i: int| 0 <= i < rest.len() implies (#[trigger] rest[i]).len()
            <= u64::MAX by {
            assert(rest[i] == messages[i + 1]);
        }
        lemma_frames_delivered(rest);
        lemma_frame_delivered(messages[0], frames(rest));
        assert(seq![messages[0]] + rest =~= messages);
    }
}

/// Bytes may arrive in any pieces: what a reader makes of two pieces fed
/// one after the other is what it makes of both fed at once.
pub proof fn lemma_feed_in_pieces(state: ReaderState, a: Seq<u8>, b: Seq<u8>)
    requires
        drain(state, a).error is None,
    ensures
        ({
            let first = drain(state, a);
            let second = drain(first.state, first.rest + b);
            let both = drain(state, a + b);
            &&& both.messages == first.messages + second.messages
            &&& both.state == second.state
            &&& both.rest == second.rest
            &&& both.error == second.error
        }),
    decreases a.len(), (if state is Begin {
        0int
    } else {
        1int
    }),
{
    let first = drain(state, a);
    let second = drain(first.state, first.rest + b);
    match state {
        ReaderState::Begin => {
            let d = u64_decoding(a);
            match d.result {
                Ok(n) => {
                    lemma_u64_decoding_extends(a, b);
                    assert((a + b).skip(d.read as int) =~= a.skip(d.read as int) + b);
                    lemma_feed_in_pieces(ReaderState::ReadSize(n), a.skip(d.read as int), b);
                },
                _ => {
                    assert(first.messages + second.messages =~= second.messages);
                },
            }
        },
        ReaderState::ReadSize(n) => {
            if a.len() >= n {
                assert((a + b).take(n as int) =~= a.take(n as int));
                assert((a + b).skip(n as int) =~= a.skip(n as int) + b);
                lemma_feed_in_pieces(ReaderState::Begin, a.skip(n as int), b);
                let tail = drain(ReaderState::Begin, a.skip(n as int));
                assert((seq![a.take(n as int)] + tail.messages) + second.messages =~= seq![
                    a.take(n as int),
                ] + (tail.messages + second.messages));
            } else {
                assert(first.messages + second.messages =~= second.messages);
            }
        },
    }
}

} // verus!
