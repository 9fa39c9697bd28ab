//! The decoder: payload bytes out of a chunked stream, one request at a time.
use vstd::prelude::*;
use crate::stream::{ByteStream, Item};
use crate::wire::{
    hex_value, is_hex_digit, max_size_digits, payload_step, pow16, scan_crlf, scan_ext, scan_lf,
    scan_size, step, ChunkError, Phase, Scan, SizeScan, Step, CR, DIGIT_0, DIGIT_9, LF, LOWER_A,
    LOWER_F, SEMICOLON, UPPER_A, UPPER_F, runs_out,
};

verus! {

/// The answer to a request on a decoder.
#[derive(Clone, Copy, Debug)]
pub enum Pull {
    /// What the request returns.
    Ready(Option<Result<u8, ChunkError>>),
    /// The answer depends on elements that the open stream has not received yet.
    NeedMore,
}

/// Iterator-like decoder over the payload bytes of a chunked-encoded stream.
///
/// When a request returns `None`, the stream will typically still hold a final CR LF
/// that ends the body, possibly preceded by trailer fields; `into_inner` hands the stream
/// back so that they can be read.
pub struct ChunkedBytes {
    /// Underlying byte stream in chunked transfer-encoding format.
    stream: ByteStream,
    /// Number of remaining bytes in the current chunk.
    remain: usize,
    /// Whether decoding goes on, ended, or failed.
    phase: Phase,
}

/// The number of hex digits that a chunk size may have on this platform.
fn size_digit_capacity() -> (r: usize)
    ensures
        r as nat == max_size_digits(),
        pow16(r as nat) == usize::MAX as nat + 1,
{
    proof {
        reveal_with_fuel(pow16, 17);
    }
    assert(pow16(8) == 0x1_0000_0000);
    assert(pow16(16) == 0x1_0000_0000_0000_0000);
    if usize::MAX == 0xFFFF_FFFFusize {
        8
    } else {
        16
    }
}

proof fn lemma_pow16_monotonic(a: nat, b: nat)
    requires
        a <= b,
    ensures
        pow16(a) <= pow16(b),
    decreases b,
{
    if a < b {
        lemma_pow16_monotonic(a, (b - 1) as nat);
    }
}

/// The value of a hex digit, or `None` for any other byte.
fn hex_digit_value(b: u8) -> (r: Option<u8>)
    ensures
        is_hex_digit(b) ==> r == Some(hex_value(b) as u8),
        !is_hex_digit(b) ==> r is None,
{
    if DIGIT_0 <= b && b <= DIGIT_9 {
        Some(b - DIGIT_0)
    } else if LOWER_A <= b && b <= LOWER_F {
        Some(b - LOWER_A + 10)
    } else if UPPER_A <= b && b <= UPPER_F {
        Some(b - UPPER_A + 10)
    } else {
        None
    }
}

impl ChunkedBytes {
    pub closed spec fn source(&self) -> ByteStream {
        self.stream
    }

    pub closed spec fn remain_spec(&self) -> nat {
        self.remain as nat
    }

    pub closed spec fn phase_spec(&self) -> Phase {
        self.phase
    }

    pub open spec fn wf(&self) -> bool {
        &&& self.source().wf()
        &&& self.remain_spec() <= usize::MAX
        &&& !(self.phase_spec() is Active) ==> self.remain_spec() == 0
    }

    /// Create a new `ChunkedBytes` decoder over the given byte stream.
    pub fn new(stream: ByteStream) -> (r: ChunkedBytes)
        requires
            stream.wf(),
        ensures
            r.wf(),
            r.source() == stream,
            r.remain_spec() == 0,
            r.phase_spec() == Phase::Active,
    {
        ChunkedBytes { stream, remain: 0, phase: Phase::Active }
    }

    /// Bytes left in the current chunk.
    pub fn remain(&self) -> (r: usize)
        ensures
            r as nat == self.remain_spec(),
    {
        self.remain
    }

    /// Where decoding stands.
    pub fn phase(&self) -> (r: Phase)
        ensures
            r == self.phase_spec(),
    {
        self.phase
    }

    /// Give the underlying stream back, positioned after everything consumed so far.
    pub fn into_inner(self) -> (r: ByteStream)
        ensures
            r == self.source(),
    {
        self.stream
    }

    /// Verify the next byte in the stream is LF.
    fn consume_lf(&mut self) -> (r: Result<(), ChunkError>)
        requires
            old(self).wf(),
        ensures
            final(self).wf(),
            final(self).stream.items() == old(self).stream.items(),
            final(self).stream.is_open() == old(self).stream.is_open(),
            final(self).remain == old(self).remain,
            final(self).phase == old(self).phase,
            match scan_lf(old(self).stream.items(), old(self).stream.pos()) {
                Scan::Done(j) => r is Ok && final(self).stream.pos() == j,
                Scan::Fail(e, j) => r == Err::<(), ChunkError>(e) && final(self).stream.pos() == j,
            },
    {
        match self.stream.next() {
            Some(Ok(b)) => if b == LF {
                Ok(())
            } else {
                Err(ChunkError::InvalidLineTerminator)
            },
            Some(Err(t)) => Err(ChunkError::Transport(t)),
            None => Err(ChunkError::UnexpectedEndOfInput),
        }
    }

    /// Verify the next bytes in the stream are CRLF.
    fn consume_crlf(&mut self) -> (r: Result<(), ChunkError>)
        requires
            old(self).wf(),
        ensures
            final(self).wf(),
            final(self).stream.items() == old(self).stream.items(),
            final(self).stream.is_open() == old(self).stream.is_open(),
            final(self).remain == old(self).remain,
            final(self).phase == old(self).phase,
            match scan_crlf(old(self).stream.items(), old(self).stream.pos()) {
                Scan::Done(j) => r is Ok && final(self).stream.pos() == j,
                Scan::Fail(e, j) => r == Err::<(), ChunkError>(e) && final(self).stream.pos() == j,
            },
    {
        match self.stream.next() {
            Some(Ok(b)) => if b == CR {
                self.consume_lf()
            } else {
                Err(ChunkError::InvalidLineTerminator)
            },
            Some(Err(t)) => Err(ChunkError::Transport(t)),
            None => Err(ChunkError::UnexpectedEndOfInput),
        }
    }

    /// Consume and discard the current chunk extension, up to and including its CRLF.
    ///
    /// This doesn't check whether the bytes up to CRLF actually have correct syntax.
    fn consume_ext(&mut self) -> (r: Result<(), ChunkError>)
        requires
            old(self).wf(),
        ensures
            final(self).wf(),
            final(self).stream.items() == old(self).stream.items(),
            final(self).stream.is_open() == old(self).stream.is_open(),
            final(self).remain == old(self).remain,
            final(self).phase == old(self).phase,
            match scan_ext(old(self).stream.items(), old(self).stream.pos()) {
                Scan::Done(j) => r is Ok && final(self).stream.pos() == j,
                Scan::Fail(e, j) => r == Err::<(), ChunkError>(e) && final(self).stream.pos() == j,
            },
    {
        loop
            invariant
                self.wf(),
                self.stream.items() == old(self).stream.items(),
                self.stream.is_open() == old(self).stream.is_open(),
                self.remain == old(self).remain,
                self.phase == old(self).phase,
                scan_ext(self.stream.items(), self.stream.pos())
                    == scan_ext(old(self).stream.items(), old(self).stream.pos()),
            decreases self.stream.items().len() - self.stream.pos(),
        {
            match self.stream.next() {
                Some(Ok(b)) => if b == CR {
                    return self.consume_lf();
                },
                Some(Err(t)) => return Err(ChunkError::Transport(t)),
                None => return Err(ChunkError::UnexpectedEndOfInput),
            }
        }
    }
    /// Parse the size line of the next chunk: hex digits, then either CRLF or an extension
    /// ended by CRLF.
    ///
    /// `None` means the stream was already exhausted, which ends the body cleanly.
    fn parse_size(&mut self) -> (r: Option<Result<usize, ChunkError>>)
        requires
            old(self).wf(),
        ensures
            final(self).wf(),
            final(self).stream.items() == old(self).stream.items(),
            final(self).stream.is_open() == old(self).stream.is_open(),
            final(self).remain == old(self).remain,
            final(self).phase == old(self).phase,
            match scan_size(old(self).stream.items(), old(self).stream.pos(), 0, 0) {
                SizeScan::NoMore => r is None && final(self).stream.pos() == old(self).stream.pos(),
                SizeScan::Size(n, j) => r == Some(Ok::<usize, ChunkError>(n as usize)) && n <= usize::MAX
                    && final(self).stream.pos() == j,
                SizeScan::Fail(e, j) => r == Some(Err::<usize, ChunkError>(e)) && final(self).stream.pos() == j,
            },
    {
        let cap = size_digit_capacity();
        // Number of hex digits read so far, and their value.
        let mut count: usize = 0;
        let mut value: usize = 0;
        loop
            invariant
                self.wf(),
                self.stream.items() == old(self).stream.items(),
                self.stream.is_open() == old(self).stream.is_open(),
                self.remain == old(self).remain,
                self.phase == old(self).phase,
                count <= cap,
                cap as nat == max_size_digits(),
                pow16(cap as nat) == usize::MAX as nat + 1,
                (value as nat) < pow16(count as nat),
                count == 0 ==> self.stream.pos() == old(self).stream.pos(),
                scan_size(self.stream.items(), self.stream.pos(), count as nat, value as nat)
                    == scan_size(old(self).stream.items(), old(self).stream.pos(), 0, 0),
            decreases self.stream.items().len() - self.stream.pos(),
        {
            let b = match self.stream.next() {
                Some(Ok(b)) => b,
                Some(Err(t)) => return Some(Err(ChunkError::Transport(t))),
                None => return if count == 0 {
                    // Exhausted at the start of a new chunk: the stream is finished.
                    None
                } else {
                    Some(Err(ChunkError::UnexpectedEndOfInput))
                },
            };
            if b == CR || b == SEMICOLON {
                let end = if b == CR {
                    self.consume_lf()
                } else {
                    self.consume_ext()
                };
                return match end {
                    // A size line without digits is refused once it has been read whole.
                    Ok(()) => if count == 0 {
                        Some(Err(ChunkError::InvalidChunkSize))
                    } else {
                        Some(Ok(value))
                    },
                    Err(e) => Some(Err(e)),
                };
            }
            let d = match hex_digit_value(b) {
                Some(d) => d,
                None => return Some(Err(ChunkError::InvalidChunkSize)),
            };
            if count == cap {
                return Some(Err(ChunkError::InvalidChunkSize));
            }
            proof {
                lemma_pow16_monotonic(count as nat + 1, cap as nat);
                assert((value as nat) * 16 + (d as nat) < pow16(count as nat + 1)) by (nonlinear_arith)
                    requires
                        (value as nat) < pow16(count as nat),
                        (d as nat) < 16,
                        pow16(count as nat + 1) == 16 * pow16(count as nat),
                ;
            }
            value = value * 16 + d as usize;
            count = count + 1;
        }
    }

    /// Hand out the next payload byte of the current chunk; after its last byte, check
    /// the CRLF that closes the chunk before returning.
    fn read_payload(&mut self) -> (r: Option<Result<u8, ChunkError>>)
        requires
            old(self).wf(),
            old(self).phase == Phase::Active,
            old(self).remain > 0,
        ensures
            final(self).wf(),
            final(self).stream.items() == old(self).stream.items(),
            final(self).stream.is_open() == old(self).stream.is_open(),
            payload_step(old(self).remain as nat, old(self).stream.items(), old(self).stream.pos())
                == (Step { out: r, remain: final(self).remain as nat, phase: final(self).phase, pos: final(self).stream.pos() }),
    {
        let b = match self.stream.next() {
            Some(Ok(b)) => b,
            Some(Err(t)) => return self.fail(ChunkError::Transport(t)),
            None => return self.fail(ChunkError::UnexpectedEndOfInput),
        };
        self.remain = self.remain - 1;
        if self.remain == 0 {
            // The chunk is finished: it must end with CRLF.
            if let Err(e) = self.consume_crlf() {
                return self.fail(e);
            }
        }
        Some(Ok(b))
    }

    /// Stop decoding with `e`, which every later request reports again.
    fn fail(&mut self, e: ChunkError) -> (r: Option<Result<u8, ChunkError>>)
        requires
            old(self).wf(),
        ensures
            final(self).wf(),
            final(self).stream == old(self).stream,
            final(self).remain == 0,
            final(self).phase == Phase::Failed(e),
            r == Some(Err::<u8, ChunkError>(e)),
    {
        self.remain = 0;
        self.phase = Phase::Failed(e);
        Some(Err(e))
    }

    /// One request on the elements received so far, read as if no more followed.
    fn decode_step(&mut self) -> (r: Option<Result<u8, ChunkError>>)
        requires
            old(self).wf(),
        ensures
            final(self).wf(),
            final(self).source().items() == old(self).source().items(),
            final(self).source().is_open() == old(self).source().is_open(),
            step(old(self).remain_spec(), old(self).phase_spec(), old(self).source().items(), old(self).source().pos())
                == (Step {
                    out: r,
                    remain: final(self).remain_spec(),
                    phase: final(self).phase_spec(),
                    pos: final(self).source().pos(),
                }),
    {
        match self.phase {
            Phase::Finished => return None,
            Phase::Failed(e) => return Some(Err(e)),
            Phase::Active => {},
        }
        if self.remain == 0 {
            match self.parse_size() {
                None => {
                    self.phase = Phase::Finished;
                    return None;
                },
                Some(Err(e)) => return self.fail(e),
                Some(Ok(n)) => {
                    if n == 0 {
                        // The zero-size chunk ends the body.
                        self.phase = Phase::Finished;
                        return None;
                    }
                    self.remain = n;
                },
            }
        }
        self.read_payload()
    }
    /// The next payload byte, `None` once the body has ended, or the error that stopped
    /// decoding; or `NeedMore` where the stream is open and the answer depends on
    /// elements not received yet. `NeedMore` changes nothing: push an element (or close
    /// the stream) and ask again.
    ///
    /// A `Ready` answer, and how far it reads the stream, is exactly one `step` of the
    /// chunked wire format.
    pub fn poll_next(&mut self) -> (r: Pull)
        requires
            old(self).wf(),
        ensures
            final(self).wf(),
            final(self).source().items() == old(self).source().items(),
            final(self).source().is_open() == old(self).source().is_open(),
            ({
                let t = step(old(self).remain_spec(), old(self).phase_spec(), old(self).source().items(), old(self).source().pos());
                if old(self).source().is_open() && runs_out(old(self).phase_spec(), old(self).source().pos(), t) {
                    &&& r == Pull::NeedMore
                    &&& final(self).remain_spec() == old(self).remain_spec()
                    &&& final(self).phase_spec() == old(self).phase_spec()
                    &&& final(self).source().pos() == old(self).source().pos()
                } else {
                    &&& r == Pull::Ready(t.out)
                    &&& t == (Step {
                        out: t.out,
                        remain: final(self).remain_spec(),
                        phase: final(self).phase_spec(),
                        pos: final(self).source().pos(),
                    })
                }
            }),
    {
        let pos = self.stream.position();
        let remain = self.remain;
        let phase = self.phase;
        let out = self.decode_step();
        let ran_out = match phase {
            Phase::Active => match out {
                Some(Err(ChunkError::UnexpectedEndOfInput)) => true,
                None => self.stream.position() == pos,
                _ => false,
            },
            _ => false,
        };
        if ran_out && self.stream.accepts_more() {
            self.stream.rewind(pos);
            self.remain = remain;
            self.phase = phase;
            return Pull::NeedMore;
        }
        Pull::Ready(out)
    }

    /// The next payload byte, `None` once the body has ended, or the error that stopped
    /// decoding, on a stream that has been closed.
    ///
    /// What it returns, and how far it reads the stream, is exactly one `step` of the
    /// chunked wire format.
    pub fn next(&mut self) -> (r: Option<Result<u8, ChunkError>>)
        requires
            old(self).wf(),
            !old(self).source().is_open(),
        ensures
            final(self).wf(),
            final(self).source().items() == old(self).source().items(),
            !final(self).source().is_open(),
            step(old(self).remain_spec(), old(self).phase_spec(), old(self).source().items(), old(self).source().pos())
                == (Step {
                    out: r,
                    remain: final(self).remain_spec(),
                    phase: final(self).phase_spec(),
                    pos: final(self).source().pos(),
                }),
    {
        match self.poll_next() {
            Pull::Ready(r) => r,
            Pull::NeedMore => None,
        }
    }

    /// Append an element that the source delivered.
    pub fn push(&mut self, item: Item)
        requires
            old(self).wf(),
            old(self).source().is_open(),
        ensures
            final(self).wf(),
            final(self).source().is_open(),
            final(self).source().rest() == old(self).source().rest().push(item),
            old(self).source().pos() < old(self).source().items().len()
                ==> final(self).source().items() == old(self).source().items().push(item)
                && final(self).source().pos() == old(self).source().pos(),
            old(self).source().pos() == old(self).source().items().len()
                ==> final(self).source().items() == seq![item] && final(self).source().pos() == 0,
            final(self).remain_spec() == old(self).remain_spec(),
            final(self).phase_spec() == old(self).phase_spec(),
    {
        self.stream.push(item);
    }

    /// Mark the end of the source.
    pub fn close(&mut self)
        requires
            old(self).wf(),
        ensures
            final(self).wf(),
            final(self).source().items() == old(self).source().items(),
            final(self).source().pos() == old(self).source().pos(),
            !final(self).source().is_open(),
            final(self).remain_spec() == old(self).remain_spec(),
            final(self).phase_spec() == old(self).phase_spec(),
    {
        self.stream.close();
    }
}

} // verus!
