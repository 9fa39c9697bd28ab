//! The chunked wire format, stated as spec functions over a sequence of source elements.
//!
//! Every scan takes the whole sequence and an absolute index into it, and reports the
//! index just past what it consumed.
use vstd::prelude::*;
use crate::stream::{Item, TransportError};

verus! {

/// Carriage return, the first byte of a line terminator.
pub const CR: u8 = 0x0D;
/// Line feed, the second byte of a line terminator.
pub const LF: u8 = 0x0A;
/// Semicolon, which opens a chunk extension.
pub const SEMICOLON: u8 = 0x3B;
pub const DIGIT_0: u8 = 0x30;
pub const DIGIT_9: u8 = 0x39;
pub const LOWER_A: u8 = 0x61;
pub const LOWER_F: u8 = 0x66;
pub const UPPER_A: u8 = 0x41;
pub const UPPER_F: u8 = 0x46;

/// Why decoding stopped with a failure.
#[derive(Clone, Copy, Debug, PartialEq, Eq, Structural)]
pub enum ChunkError {
    /// A byte that is neither a hex digit nor a delimiter where the chunk size stands,
    /// a size line without digits, or more digits than a `usize` can hold.
    InvalidChunkSize,
    /// Something other than CR LF where a line terminator must stand.
    InvalidLineTerminator,
    /// The source ran out in the middle of a size line, a payload or a terminator.
    UnexpectedEndOfInput,
    /// The source reported a failure.
    Transport(TransportError),
}

/// Where a decoder stands between requests.
#[derive(Clone, Copy, Debug, PartialEq, Eq, Structural)]
pub enum Phase {
    /// More payload may follow.
    Active,
    /// The body ended normally; every later request reports the end again.
    Finished,
    /// Decoding failed; every later request reports the same failure again.
    Failed(ChunkError),
}

pub open spec fn is_hex_digit(b: u8) -> bool {
    (DIGIT_0 <= b <= DIGIT_9) || (LOWER_A <= b <= LOWER_F) || (UPPER_A <= b <= UPPER_F)
}

pub open spec fn hex_value(b: u8) -> nat {
    if DIGIT_0 <= b <= DIGIT_9 {
        (b - DIGIT_0) as nat
    } else if LOWER_A <= b <= LOWER_F {
        (b - LOWER_A + 10) as nat
    } else {
        (b - UPPER_A + 10) as nat
    }
}

pub open spec fn pow16(n: nat) -> nat
    decreases n,
{
    if n == 0 {
        1
    } else {
        16 * pow16((n - 1) as nat)
    }
}

/// How many hex digits a chunk size may have: as many as a `usize` holds.
pub open spec fn max_size_digits() -> nat {
    if usize::MAX == 0xFFFF_FFFFusize {
        8
    } else {
        16
    }
}

/// Outcome of a scan over a delimiter or an extension.
pub enum Scan {
    /// It succeeded and ended at this index.
    Done(nat),
    /// It failed with this error after consuming up to this index.
    Fail(ChunkError, nat),
}

/// Outcome of a scan over a chunk-size line.
pub enum SizeScan {
    /// The source was already exhausted: no more chunks.
    NoMore,
    /// A size line with this value, ending at this index.
    Size(nat, nat),
    /// It failed with this error after consuming up to this index.
    Fail(ChunkError, nat),
}

/// A single LF at index `i`.
pub open spec fn scan_lf(s: Seq<Item>, i: nat) -> Scan {
    if i >= s.len() {
        Scan::Fail(ChunkError::UnexpectedEndOfInput, i)
    } else {
        match s[i as int] {
            Err(t) => Scan::Fail(ChunkError::Transport(t), i + 1),
            Ok(b) => if b == LF {
                Scan::Done(i + 1)
            } else {
                Scan::Fail(ChunkError::InvalidLineTerminator, i + 1)
            },
        }
    }
}

/// CR LF starting at index `i`.
pub open spec fn scan_crlf(s: Seq<Item>, i: nat) -> Scan {
    if i >= s.len() {
        Scan::Fail(ChunkError::UnexpectedEndOfInput, i)
    } else {
        match s[i as int] {
            Err(t) => Scan::Fail(ChunkError::Transport(t), i + 1),
            Ok(b) => if b == CR {
                scan_lf(s, i + 1)
            } else {
                Scan::Fail(ChunkError::InvalidLineTerminator, i + 1)
            },
        }
    }
}

/// Extension bytes from index `i` up to and including the CR LF that ends them.
pub open spec fn scan_ext(s: Seq<Item>, i: nat) -> Scan
    decreases s.len() - i,
{
    if i >= s.len() {
        Scan::Fail(ChunkError::UnexpectedEndOfInput, i)
    } else {
        match s[i as int] {
            Err(t) => Scan::Fail(ChunkError::Transport(t), i + 1),
            Ok(b) => if b == CR {
                scan_lf(s, i + 1)
            } else {
                scan_ext(s, i + 1)
            },
        }
    }
}

/// The rest of a size line from index `i`, after `count` digits of value `value`.
pub open spec fn scan_size(s: Seq<Item>, i: nat, count: nat, value: nat) -> SizeScan
    decreases s.len() - i,
{
    if i >= s.len() {
        if count == 0 {
            SizeScan::NoMore
        } else {
            SizeScan::Fail(ChunkError::UnexpectedEndOfInput, i)
        }
    } else {
        match s[i as int] {
            Err(t) => SizeScan::Fail(ChunkError::Transport(t), i + 1),
            Ok(b) => if b == CR || b == SEMICOLON {
                let end = if b == CR {
                    scan_lf(s, i + 1)
                } else {
                    scan_ext(s, i + 1)
                };
                match end {
                    Scan::Done(j) => if count == 0 {
                        SizeScan::Fail(ChunkError::InvalidChunkSize, j)
                    } else {
                        SizeScan::Size(value, j)
                    },
                    Scan::Fail(e, j) => SizeScan::Fail(e, j),
                }
            } else if !is_hex_digit(b) || count >= max_size_digits() {
                SizeScan::Fail(ChunkError::InvalidChunkSize, i + 1)
            } else {
                scan_size(s, i + 1, count + 1, value * 16 + hex_value(b))
            },
        }
    }
}

/// The effect of one request on a decoder.
pub struct Step {
    /// What the request returns.
    pub out: Option<Result<u8, ChunkError>>,
    /// Payload bytes left in the current chunk afterwards.
    pub remain: nat,
    /// The phase afterwards.
    pub phase: Phase,
    /// The source position afterwards.
    pub pos: nat,
}

pub open spec fn failed_at(e: ChunkError, pos: nat) -> Step {
    Step { out: Some(Err(e)), remain: 0, phase: Phase::Failed(e), pos }
}

/// Hand out the payload byte at index `i` of a chunk with `remain` bytes left; after the
/// last one, check the CR LF that closes the chunk.
pub open spec fn payload_step(remain: nat, s: Seq<Item>, i: nat) -> Step {
    if i >= s.len() {
        failed_at(ChunkError::UnexpectedEndOfInput, i)
    } else {
        match s[i as int] {
            Err(t) => failed_at(ChunkError::Transport(t), i + 1),
            Ok(b) => if remain > 1 {
                Step { out: Some(Ok(b)), remain: (remain - 1) as nat, phase: Phase::Active, pos: i + 1 }
            } else {
                match scan_crlf(s, i + 1) {
                    Scan::Done(j) => Step { out: Some(Ok(b)), remain: 0, phase: Phase::Active, pos: j },
                    Scan::Fail(e, j) => failed_at(e, j),
                }
            },
        }
    }
}

/// Whether a request that had the effect `t`, made in phase `phase` at index `i`, came
/// to the end of the elements received: it found the source exhausted. Any other
/// effect is decided by the elements it read.
pub open spec fn runs_out(phase: Phase, i: nat, t: Step) -> bool {
    &&& phase is Active
    &&& (t.out == Some(Err::<u8, ChunkError>(ChunkError::UnexpectedEndOfInput)) || (t.out is None && t.pos == i))
}

/// One request on a decoder in phase `phase`, with `remain` payload bytes left in the
/// current chunk, reading source `s` from index `i`.
pub open spec fn step(remain: nat, phase: Phase, s: Seq<Item>, i: nat) -> Step {
    match phase {
        Phase::Finished => Step { out: None, remain: 0, phase: Phase::Finished, pos: i },
        Phase::Failed(e) => failed_at(e, i),
        Phase::Active => if remain > 0 {
            payload_step(remain, s, i)
        } else {
            match scan_size(s, i, 0, 0) {
                SizeScan::NoMore => Step { out: None, remain: 0, phase: Phase::Finished, pos: i },
                SizeScan::Fail(e, j) => failed_at(e, j),
                SizeScan::Size(n, j) => if n == 0 {
                    Step { out: None, remain: 0, phase: Phase::Finished, pos: j }
                } else {
                    payload_step(n, s, j)
                },
            }
        },
    }
}

} // verus!
