//! Frames on a byte stream: a varint length, then that many bytes of body.
//! Reading is written twice over the same rules: on the stream's remaining
//! bytes at once, and byte by byte for a reader that waits on the network.
use vstd::prelude::*;
use crate::decode::decode_frame;
use crate::frame::{delimited_bytes, frame_bytes, frame_wf, Frame, FrameView};
use crate::round_trip::lemma_frame_round_trip;
use crate::wire::{lemma_varint_len, lemma_varint_read, read_varint, read_varint_at, varint};

verus! {

/// Why a frame could not be read.
#[derive(Clone, Copy, Debug, PartialEq, Eq, Structural)]
pub enum ReadError {
    /// The stream ended inside a length prefix or inside a body.
    UnexpectedEof,
    /// The length prefix runs past ten bytes or past 64 bits.
    BadVarint,
    /// The length prefix exceeds the reader's limit.
    FrameTooLarge,
    /// The body is not a well-formed frame.
    Malformed,
}

impl ReadError {
    /// Whether the error is of the data rather than of the stream's end.
    pub fn is_invalid_data(&self) -> (r: bool)
        ensures
            r == !(*self is UnexpectedEof),
    {
        !matches!(self, ReadError::UnexpectedEof)
    }
}

/// The bytes from `pos` on are all continuation bytes, fewer than ten: the
/// stream ends inside a length prefix.
pub open spec fn cut_short(s: Seq<u8>, pos: int) -> bool {
    &&& pos < s.len()
    &&& s.len() - pos < 10
    &&& forall|i: int| pos <= i < s.len() ==> s[i] >= 128
}

/// The outcome of reading one frame from a stream whose remaining bytes are
/// `s`, with a limit of `max_len` body bytes: the frame and the bytes it
/// took, `None` for a clean end before any byte, or the error.
pub open spec fn read_one(s: Seq<u8>, max_len: int) -> Result<Option<(FrameView, int)>, ReadError> {
    if s.len() == 0 {
        Ok(None)
    } else {
        match read_varint(s, 0) {
            None => if cut_short(s, 0) {
                Err(ReadError::UnexpectedEof)
            } else {
                Err(ReadError::BadVarint)
            },
            Some((n, p)) => if n > max_len {
                Err(ReadError::FrameTooLarge)
            } else if s.len() - p < n {
                Err(ReadError::UnexpectedEof)
            } else {
                match decode_frame(s.subrange(p, p + n)) {
                    Some(f) => Ok(Some((f, p + n))),
                    None => Err(ReadError::Malformed),
                }
            },
        }
    }
}

proof fn lemma_cut_short_reads_none(s: Seq<u8>, pos: int, fuel: nat)
    requires
        0 <= pos,
        pos <= s.len(),
        forall|i: int| pos <= i < s.len() ==> s[i] >= 128,
    ensures
        crate::wire::varint_at(s, pos, fuel) is None,
    decreases fuel,
{
    if fuel > 0 && pos < s.len() {
        lemma_cut_short_reads_none(s, pos + 1, (fuel - 1) as nat);
    }
}

/// Whether the stream ends inside a length prefix that starts at `pos`.
fn is_cut_short(s: &[u8], pos: usize) -> (r: bool)
    requires
        pos < s@.len(),
    ensures
        r == cut_short(s@, pos as int),
{
    if s.len() - pos >= 10 {
        return false;
    }
    let mut i = pos;
    while i < s.len()
        invariant
            pos <= i <= s@.len(),
            forall|j: int| pos <= j < i ==> s@[j] >= 128,
        decreases s@.len() - i,
    {
        if s[i] < 128 {
            return false;
        }
        i = i + 1;
    }
    true
}

impl Frame {
    /// Reads one frame from the front of `stream`, the bytes that remain on a
    /// stream before its end.  `Ok(None)` when the stream is empty: a clean
    /// end.  A length over `max_len` is refused before any body byte is
    /// read or copied.
    pub fn read_from_with_limit(stream: &[u8], max_len: usize) -> (r: Result<
        Option<(Frame, usize)>,
        ReadError,
    >)
        ensures
            match r {
                Ok(Some((f, used))) => read_one(stream@, max_len as int) == Ok::<
                    Option<(FrameView, int)>,
                    ReadError,
                >(Some((f@, used as int))),
                Ok(None) => read_one(stream@, max_len as int) == Ok::<
                    Option<(FrameView, int)>,
                    ReadError,
                >(None),
                Err(e) => read_one(stream@, max_len as int) == Err::<
                    Option<(FrameView, int)>,
                    ReadError,
                >(e),
            },
            stream@.len() == 0 <==> r == Ok::<Option<(Frame, usize)>, ReadError>(None),
    {
        if stream.len() == 0 {
            return Ok(None);
        }
        let (n, p) = match read_varint_at(stream, 0) {
            None => {
                if is_cut_short(stream, 0) {
                    return Err(ReadError::UnexpectedEof);
                } else {
                    return Err(ReadError::BadVarint);
                }
            },
            Some(np) => np,
        };
        if n > max_len as u64 {
            return Err(ReadError::FrameTooLarge);
        }
        let len = n as usize;
        if stream.len() - p < len {
            return Err(ReadError::UnexpectedEof);
        }
        let body = vstd::slice::slice_subrange(stream, p, p + len);
        match Frame::decode(body) {
            Some(f) => Ok(Some((f, p + len))),
            None => Err(ReadError::Malformed),
        }
    }

    /// Reads one frame with no limit on its length.
    pub fn read_from(stream: &[u8]) -> (r: Result<Option<(Frame, usize)>, ReadError>)
        ensures
            match r {
                Ok(Some((f, used))) => read_one(stream@, usize::MAX as int) == Ok::<
                    Option<(FrameView, int)>,
                    ReadError,
                >(Some((f@, used as int))),
                Ok(None) => stream@.len() == 0,
                Err(e) => read_one(stream@, usize::MAX as int) == Err::<
                    Option<(FrameView, int)>,
                    ReadError,
                >(e),
            },
    {
        Frame::read_from_with_limit(stream, usize::MAX)
    }

    /// Reads one length-delimited frame from the front of `raw`, and the
    /// number of bytes it took; an empty `raw` is cut short.
    pub fn decode_len_delimited(raw: &[u8]) -> (r: Result<(Frame, usize), ReadError>)
        ensures
            match r {
                Ok((f, used)) => read_one(raw@, usize::MAX as int) == Ok::<
                    Option<(FrameView, int)>,
                    ReadError,
                >(Some((f@, used as int))),
                Err(e) => raw@.len() == 0 && e == ReadError::UnexpectedEof || read_one(
                    raw@,
                    usize::MAX as int,
                ) == Err::<Option<(FrameView, int)>, ReadError>(e),
            },
    {
        match Frame::read_from(raw) {
            Ok(Some(x)) => Ok(x),
            Ok(None) => Err(ReadError::UnexpectedEof),
            Err(e) => Err(e),
        }
    }
}

/// A frame written on a stream reads back as itself, whatever follows it,
/// when its body is within the reader's limit.
pub proof fn lemma_read_written_frame(f: FrameView, rest: Seq<u8>, max_len: int)
    requires
        frame_wf(f),
        frame_bytes(f).len() <= max_len,
        max_len <= u64::MAX,
    ensures
        read_one(delimited_bytes(f) + rest, max_len) == Ok::<Option<(FrameView, int)>, ReadError>(
            Some((f, delimited_bytes(f).len() as int)),
        ),
{
    let body = frame_bytes(f);
    let n = body.len() as u64;
    let pre = varint(n);
    let s = delimited_bytes(f) + rest;
    lemma_varint_len(n);
    assert(s =~= pre + (body + rest));
    assert(s.subrange(0, pre.len() as int) =~= pre);
    lemma_varint_read(s, 0, n, 10);
    assert(s.subrange(pre.len() as int, (pre.len() + body.len()) as int) =~= body);
    lemma_frame_round_trip(f);
}

/// The state of a length prefix read one byte at a time.
pub struct LengthPrefix {
    bytes: Vec<u8>,
}

/// What one more byte of a length prefix gives.
#[derive(Clone, Copy, Debug, PartialEq, Eq, Structural)]
pub enum PrefixStep {
    /// The prefix goes on.
    More,
    /// The prefix is complete: the body's length.
    Done(u64),
    /// The prefix runs past ten bytes or past 64 bits.
    Bad,
}

impl LengthPrefix {
    /// The bytes read so far: all continuation bytes, fewer than ten.
    pub closed spec fn seen(&self) -> Seq<u8> {
        self.bytes@
    }

    pub open spec fn wf(&self) -> bool {
        &&& self.seen().len() < 10
        &&& forall|i: int| 0 <= i < self.seen().len() ==> self.seen()[i] >= 128
    }

    pub fn new() -> (r: LengthPrefix)
        ensures
            r.wf(),
            r.seen().len() == 0,
    {
        LengthPrefix { bytes: Vec::new() }
    }

    /// No byte has been read: the stream may end here cleanly.
    pub fn is_empty(&self) -> (r: bool)
        ensures
            r == (self.seen().len() == 0),
    {
        self.bytes.len() == 0
    }

    /// Takes one more byte.  The outcome is what [`read_varint`] gives on the
    /// bytes so far: the value once a final byte comes, `Bad` when the value
    /// is too large or a tenth continuation byte comes.
    pub fn push(&mut self, b: u8) -> (r: PrefixStep)
        requires
            old(self).wf(),
        ensures
            final(self).seen() == old(self).seen().push(b),
            r is More ==> final(self).wf(),
            b >= 128 && old(self).seen().len() < 9 <==> r is More,
            r matches PrefixStep::Done(v) ==> read_varint(final(self).seen(), 0) == Some(
                (v, final(self).seen().len() as int),
            ),
            r is Bad ==> read_varint(final(self).seen(), 0) is None,
    {
        self.bytes.push(b);
        if b >= 128 {
            if self.bytes.len() >= 10 {
                proof {
                    lemma_cut_short_reads_none(self.bytes@, 0, 10);
                    assert forall|i: int| 0 <= i < self.bytes@.len() implies self.bytes@[i]
                        >= 128 by {
                        if i < self.bytes@.len() - 1 {
                            assert(self.bytes@[i] == old(self).seen()[i]);
                        }
                    }
                }
                return PrefixStep::Bad;
            }
            proof {
                assert forall|i: int| 0 <= i < self.seen().len() implies self.seen()[i] >= 128 by {
                    if i < self.bytes@.len() - 1 {
                        assert(self.bytes@[i] == old(self).seen()[i]);
                    }
                }
            }
            return PrefixStep::More;
        }
        match read_varint_at(self.bytes.as_slice(), 0) {
            Some((v, e)) => {
                proof {
                    lemma_prefix_end(self.bytes@, 0, 10);
                }
                PrefixStep::Done(v)
            },
            None => PrefixStep::Bad,
        }
    }
}

/// A varint read over continuation bytes that end in a final byte ends just
/// past that byte.
proof fn lemma_prefix_end(s: Seq<u8>, pos: int, fuel: nat)
    requires
        0 <= pos < s.len(),
        s.last() < 128,
        forall|i: int| pos <= i < s.len() - 1 ==> s[i] >= 128,
    ensures
        crate::wire::varint_at(s, pos, fuel) matches Some((v, e)) ==> e == s.len(),
    decreases fuel,
{
    if fuel > 0 && pos < s.len() - 1 {
        lemma_prefix_end(s, pos + 1, (fuel - 1) as nat);
    }
}

/// Checks a completed length prefix against the reader's limit, before any
/// body byte is read.
pub fn check_frame_len(n: u64, max_len: usize) -> (r: Result<usize, ReadError>)
    ensures
        n > max_len ==> r == Err::<usize, ReadError>(ReadError::FrameTooLarge),
        n <= max_len ==> r == Ok::<usize, ReadError>(n as usize),
{
    if n > max_len as u64 {
        Err(ReadError::FrameTooLarge)
    } else {
        Ok(n as usize)
    }
}

} // verus!
