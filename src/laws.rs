//! What holds of whole decoding runs, proved from the step relation.
use vstd::prelude::*;
use crate::stream::Item;
use crate::wire::{
    hex_value, is_hex_digit, max_size_digits, scan_crlf, scan_ext, scan_size, step, ChunkError, Phase,
    Scan, SizeScan, Step, CR, LF, SEMICOLON, UPPER_F, pow16, scan_lf, payload_step, runs_out,
};

verus! {

/// What a single request returns.
pub type Output = Option<Result<u8, ChunkError>>;

/// The outputs of `n` requests in a row on a decoder in state (`remain`, `phase`) at
/// index `i` of source `s`, and the state and index after them.
pub open spec fn run(remain: nat, phase: Phase, s: Seq<Item>, i: nat, n: nat) -> (Seq<Output>, nat, Phase, nat)
    decreases n,
{
    if n == 0 {
        (Seq::empty(), remain, phase, i)
    } else {
        let t = step(remain, phase, s, i);
        let rest = run(t.remain, t.phase, s, t.pos, (n - 1) as nat);
        (seq![t.out] + rest.0, rest.1, rest.2, rest.3)
    }
}

/// The elements of a source that delivers `bytes` without failure.
pub open spec fn as_items(bytes: Seq<u8>) -> Seq<Item> {
    bytes.map_values(|b: u8| Ok::<u8, crate::stream::TransportError>(b))
}

/// The outputs that hand out `bytes`, one per request.
pub open spec fn as_outputs(bytes: Seq<u8>) -> Seq<Output> {
    bytes.map_values(|b: u8| Some(Ok::<u8, ChunkError>(b)))
}

/// `s` holds `bytes` without failure from index `p` on.
pub open spec fn holds_at(s: Seq<Item>, p: nat, bytes: Seq<u8>) -> bool {
    &&& p + bytes.len() <= s.len()
    &&& forall|j: int| 0 <= j < bytes.len() ==> s[p + j] == Ok::<u8, crate::stream::TransportError>(#[trigger] bytes[j])
}

/// The number that a sequence of hex digits writes, most significant first.
pub open spec fn hex_number(digits: Seq<u8>) -> nat
    decreases digits.len(),
{
    if digits.len() == 0 {
        0
    } else {
        hex_number(digits.drop_last()) * 16 + hex_value(digits.last())
    }
}

/// One chunk as written on the wire: its size digits, an optional extension (the bytes
/// between `;` and CR LF), and its payload.
pub struct WireChunk {
    pub digits: Seq<u8>,
    pub ext: Option<Seq<u8>>,
    pub data: Seq<u8>,
}

/// A size line that the decoder accepts: one to `max_size_digits()` hex digits, and an
/// extension without CR.
pub open spec fn line_ok(c: WireChunk) -> bool {
    &&& 0 < c.digits.len() <= max_size_digits()
    &&& forall|j: int| 0 <= j < c.digits.len() ==> is_hex_digit(#[trigger] c.digits[j])
    &&& c.ext matches Some(e) ==> forall|j: int| 0 <= j < e.len() ==> #[trigger] e[j] != CR
}

/// A chunk that carries data: its size line is accepted and states its payload's length.
pub open spec fn data_chunk_ok(c: WireChunk) -> bool {
    &&& line_ok(c)
    &&& hex_number(c.digits) == c.data.len()
    &&& c.data.len() > 0
}

/// The terminating chunk: an accepted size line whose value is zero.
pub open spec fn last_chunk_ok(c: WireChunk) -> bool {
    line_ok(c) && hex_number(c.digits) == 0
}

pub open spec fn crlf() -> Seq<u8> {
    seq![CR, LF]
}

pub open spec fn ext_bytes(ext: Option<Seq<u8>>) -> Seq<u8> {
    match ext {
        None => Seq::empty(),
        Some(e) => seq![SEMICOLON] + e,
    }
}

/// The size line of a chunk, CR LF included.
pub open spec fn size_line(c: WireChunk) -> Seq<u8> {
    c.digits + ext_bytes(c.ext) + crlf()
}

/// A data chunk on the wire: size line, payload, CR LF.
pub open spec fn chunk_bytes(c: WireChunk) -> Seq<u8> {
    size_line(c) + c.data + crlf()
}

/// A chunked body up to and including the size line of its terminating chunk.
pub open spec fn body_bytes(chunks: Seq<WireChunk>, last: WireChunk) -> Seq<u8>
    decreases chunks.len(),
{
    if chunks.len() == 0 {
        size_line(last)
    } else {
        chunk_bytes(chunks[0]) + body_bytes(chunks.drop_first(), last)
    }
}

/// The payloads of the chunks, in order.
pub open spec fn payload(chunks: Seq<WireChunk>) -> Seq<u8>
    decreases chunks.len(),
{
    if chunks.len() == 0 {
        Seq::empty()
    } else {
        chunks[0].data + payload(chunks.drop_first())
    }
}

proof fn lemma_holds_split(s: Seq<Item>, p: nat, a: Seq<u8>, b: Seq<u8>)
    requires
        holds_at(s, p, a + b),
    ensures
        holds_at(s, p, a),
        holds_at(s, p + a.len(), b),
{
    assert forall|j: int| 0 <= j < a.len() implies s[p + j] == Ok::<u8, crate::stream::TransportError>(#[trigger] a[j]) by {
        assert((a + b)[j] == a[j]);
    }
    assert forall|j: int| 0 <= j < b.len() implies s[(p + a.len()) + j] == Ok::<u8, crate::stream::TransportError>(#[trigger] b[j]) by {
        assert((a + b)[a.len() + j] == b[j]);
    }
}

proof fn lemma_scan_ext_done(s: Seq<Item>, q: nat, e: Seq<u8>, j: nat)
    requires
        holds_at(s, q, e + crlf()),
        forall|k: int| 0 <= k < e.len() ==> #[trigger] e[k] != CR,
        j <= e.len(),
    ensures
        scan_ext(s, q + j) == Scan::Done(q + e.len() + 2),
    decreases e.len() - j,
{
    let w = e + crlf();
    if j == e.len() {
        assert(w[e.len() as int] == CR);
        assert(w[e.len() + 1int] == LF);
    } else {
        assert(w[j as int] == e[j as int]);
        lemma_scan_ext_done(s, q, e, j + 1);
    }
}

proof fn lemma_scan_digits(s: Seq<Item>, p: nat, c: WireChunk, k: nat)
    requires
        line_ok(c),
        holds_at(s, p, size_line(c)),
        k <= c.digits.len(),
    ensures
        scan_size(s, p + k, k, hex_number(c.digits.take(k as int)))
            == SizeScan::Size(hex_number(c.digits), p + size_line(c).len()),
    decreases c.digits.len() - k,
{
    let d = c.digits;
    let line = size_line(c);
    lemma_holds_split(s, p, d + ext_bytes(c.ext), crlf());
    lemma_holds_split(s, p, d, ext_bytes(c.ext));
    if k == d.len() {
        assert(d.take(k as int) =~= d);
        let q = p + d.len();
        match c.ext {
            None => {
                assert(ext_bytes(c.ext) =~= Seq::<u8>::empty());
                assert(crlf()[0] == CR);
                assert(crlf()[1] == LF);
                assert(s[q as int] == Ok::<u8, crate::stream::TransportError>(CR));
                assert(s[(q + 1) as int] == Ok::<u8, crate::stream::TransportError>(LF));
            },
            Some(e) => {
                let x = ext_bytes(c.ext);
                assert(x[0] == SEMICOLON);
                assert(s[q as int] == Ok::<u8, crate::stream::TransportError>(SEMICOLON));
                assert(line =~= d + seq![SEMICOLON] + (e + crlf()));
                lemma_holds_split(s, p, d + seq![SEMICOLON], e + crlf());
                lemma_scan_ext_done(s, q + 1, e, 0);
            },
        }
    } else {
        let b = d[k as int];
        assert(s[(p + k) as int] == Ok::<u8, crate::stream::TransportError>(b));
        assert(is_hex_digit(b));
        assert(d.take(k + 1 as int).drop_last() =~= d.take(k as int));
        assert(d.take(k + 1 as int).last() == b);
        lemma_scan_digits(s, p, c, k + 1);
    }
}

/// The size line of an accepted chunk scans to the value its digits write, and ends
/// where the line ends, whatever its extension holds.
pub proof fn lemma_size_line(s: Seq<Item>, p: nat, c: WireChunk)
    requires
        line_ok(c),
        holds_at(s, p, size_line(c)),
    ensures
        scan_size(s, p, 0, 0) == SizeScan::Size(hex_number(c.digits), p + size_line(c).len()),
{
    assert(c.digits.take(0) =~= Seq::<u8>::empty());
    lemma_scan_digits(s, p, c, 0);
}

proof fn lemma_run_split(remain: nat, phase: Phase, s: Seq<Item>, i: nat, a: nat, b: nat)
    ensures
        ({
            let x = run(remain, phase, s, i, a);
            let y = run(x.1, x.2, s, x.3, b);
            run(remain, phase, s, i, a + b) == (x.0 + y.0, y.1, y.2, y.3)
        }),
    decreases a,
{
    if a == 0 {
        let y = run(remain, phase, s, i, b);
        assert(Seq::<Output>::empty() + y.0 =~= y.0);
    } else {
        let t = step(remain, phase, s, i);
        lemma_run_split(t.remain, t.phase, s, t.pos, (a - 1) as nat, b);
        assert((a + b - 1) as nat == (a - 1) as nat + b);
        let x = run(t.remain, t.phase, s, t.pos, (a - 1) as nat);
        let y = run(x.1, x.2, s, x.3, b);
        assert(seq![t.out] + (x.0 + y.0) =~= (seq![t.out] + x.0) + y.0);
    }
}

/// Handing out the last `w.len()` bytes of a chunk whose payload ends with `w`.
proof fn lemma_payload_run(s: Seq<Item>, p: nat, w: Seq<u8>)
    requires
        w.len() > 0,
        holds_at(s, p, w + crlf()),
    ensures
        run(w.len(), Phase::Active, s, p, w.len()) == (as_outputs(w), 0nat, Phase::Active, p + w.len() + 2),
    decreases w.len(),
{
    let x = w + crlf();
    assert(x[0] == w[0]);
    assert(s[p as int] == Ok::<u8, crate::stream::TransportError>(w[0]));
    if w.len() == 1 {
        assert(x[1] == CR);
        assert(x[2] == LF);
        assert(s[(p + 1) as int] == Ok::<u8, crate::stream::TransportError>(CR));
        assert(s[(p + 2) as int] == Ok::<u8, crate::stream::TransportError>(LF));
        assert(scan_crlf(s, p + 1) == Scan::Done(p + 3));
        let t = step(1, Phase::Active, s, p);
        reveal_with_fuel(run, 2);
        assert(t == Step { out: Some(Ok::<u8, ChunkError>(w[0])), remain: 0, phase: Phase::Active, pos: p + 3 });
        assert(run(1, Phase::Active, s, p, 1).0 =~= seq![t.out] + Seq::<Output>::empty());
        assert(as_outputs(w) =~= seq![Some(Ok::<u8, ChunkError>(w[0]))]);
    } else {
        let t = step(w.len(), Phase::Active, s, p);
        assert(t == Step { out: Some(Ok::<u8, ChunkError>(w[0])), remain: (w.len() - 1) as nat, phase: Phase::Active, pos: p + 1 });
        let v = w.drop_first();
        assert forall|j: int| 0 <= j < (v + crlf()).len() implies s[(p + 1) + j] == Ok::<u8, crate::stream::TransportError>(#[trigger] (v + crlf())[j]) by {
            assert((v + crlf())[j] == x[j + 1]);
        }
        lemma_payload_run(s, p + 1, v);
        assert(as_outputs(w) =~= seq![Some(Ok::<u8, ChunkError>(w[0]))] + as_outputs(v));
    }
}

/// Two decoder states whose next request has the same effect agree on every run that
/// makes at least one request.
proof fn lemma_run_same_first_step(r1: nat, ph1: Phase, i1: nat, r2: nat, ph2: Phase, i2: nat, s: Seq<Item>, n: nat)
    requires
        n > 0,
        step(r1, ph1, s, i1) == step(r2, ph2, s, i2),
    ensures
        run(r1, ph1, s, i1, n) == run(r2, ph2, s, i2, n),
{
}

/// Decoding a well-formed body from the start of a chunk: its payload, then the end.
proof fn lemma_body_run(s: Seq<Item>, p: nat, chunks: Seq<WireChunk>, last: WireChunk)
    requires
        forall|k: int| 0 <= k < chunks.len() ==> data_chunk_ok(#[trigger] chunks[k]),
        last_chunk_ok(last),
        holds_at(s, p, body_bytes(chunks, last)),
    ensures
        run(0, Phase::Active, s, p, payload(chunks).len() + 1)
            == (as_outputs(payload(chunks)) + seq![None::<Result<u8, ChunkError>>], 0nat, Phase::Finished,
                p + body_bytes(chunks, last).len()),
    decreases chunks.len(),
{
    if chunks.len() == 0 {
        lemma_size_line(s, p, last);
        reveal_with_fuel(run, 2);
        assert(as_outputs(payload(chunks)) =~= Seq::<Output>::empty());
        assert(seq![None::<Result<u8, ChunkError>>] =~= Seq::<Output>::empty() + seq![None::<Result<u8, ChunkError>>]);
    } else {
        let c = chunks[0];
        let rest = chunks.drop_first();
        let line = size_line(c);
        let n = c.data.len();
        assert(forall|k: int| 0 <= k < rest.len() ==> rest[k] == chunks[k + 1]);
        lemma_holds_split(s, p, chunk_bytes(c), body_bytes(rest, last));
        lemma_holds_split(s, p, line + c.data, crlf());
        lemma_holds_split(s, p, line, c.data);
        assert(chunk_bytes(c) =~= line + (c.data + crlf()));
        lemma_holds_split(s, p, line, c.data + crlf());
        lemma_size_line(s, p, c);
        let q = p + line.len();
        lemma_run_same_first_step(0, Phase::Active, p, n, Phase::Active, q, s, n);
        lemma_payload_run(s, q, c.data);
        let p2 = p + chunk_bytes(c).len();
        lemma_body_run(s, p2, rest, last);
        assert(payload(chunks) == c.data + payload(rest));
        lemma_run_split(0, Phase::Active, s, p, n, payload(rest).len() + 1);
        assert(as_outputs(payload(chunks)) =~= as_outputs(c.data) + as_outputs(payload(rest)));
        assert(as_outputs(payload(chunks)) + seq![None::<Result<u8, ChunkError>>]
            =~= as_outputs(c.data) + (as_outputs(payload(rest)) + seq![None::<Result<u8, ChunkError>>]));
    }
}

/// A well-formed chunked body followed by anything at all: decoding it hands out exactly
/// the chunks' payloads in order, then reports the end; the source is left just past the
/// terminating chunk's size line, so what follows it (trailer fields) is still unread.
/// Chunk extensions, whatever they hold, do not change the output.
pub proof fn lemma_decodes_well_formed(chunks: Seq<WireChunk>, last: WireChunk, trailer: Seq<Item>)
    requires
        forall|k: int| 0 <= k < chunks.len() ==> data_chunk_ok(#[trigger] chunks[k]),
        last_chunk_ok(last),
    ensures
        ({
            let body = body_bytes(chunks, last);
            let s = as_items(body) + trailer;
            let r = run(0, Phase::Active, s, 0, payload(chunks).len() + 1);
            &&& r.0 == as_outputs(payload(chunks)) + seq![None::<Result<u8, ChunkError>>]
            &&& r.2 == Phase::Finished
            &&& s.skip(r.3 as int) == trailer
        }),
{
    let body = body_bytes(chunks, last);
    let s = as_items(body) + trailer;
    assert forall|j: int| 0 <= j < body.len() implies s[0 + j] == Ok::<u8, crate::stream::TransportError>(#[trigger] body[j]) by {
        assert(s[j] == as_items(body)[j]);
    }
    lemma_body_run(s, 0, chunks, last);
    assert(s.skip(body.len() as int) =~= trailer);
}

/// The terminating chunk's size line ends the body: the request that reads it returns
/// no byte, whatever extension the line carries, and leaves the source just past it.
pub proof fn lemma_last_chunk_ends(s: Seq<Item>, p: nat, last: WireChunk)
    requires
        last_chunk_ok(last),
        holds_at(s, p, size_line(last)),
    ensures
        step(0, Phase::Active, s, p)
            == (Step { out: None, remain: 0, phase: Phase::Finished, pos: p + size_line(last).len() }),
{
    lemma_size_line(s, p, last);
}

/// Once the body has ended, every later request reports the end again and reads nothing.
pub proof fn lemma_end_is_permanent(s: Seq<Item>, i: nat, n: nat)
    ensures
        run(0, Phase::Finished, s, i, n) == (Seq::new(n, |k: int| None::<Result<u8, ChunkError>>), 0nat, Phase::Finished, i),
    decreases n,
{
    if n > 0 {
        lemma_end_is_permanent(s, i, (n - 1) as nat);
        assert(Seq::new(n, |k: int| None::<Result<u8, ChunkError>>)
            =~= seq![None::<Result<u8, ChunkError>>] + Seq::new((n - 1) as nat, |k: int| None::<Result<u8, ChunkError>>));
    } else {
        assert(Seq::new(n, |k: int| None::<Result<u8, ChunkError>>) =~= Seq::<Output>::empty());
    }
}

proof fn lemma_too_many_digits_from(s: Seq<Item>, p: nat, digits: Seq<u8>, k: nat, value: nat)
    requires
        digits.len() > max_size_digits(),
        forall|j: int| 0 <= j < digits.len() ==> is_hex_digit(#[trigger] digits[j]),
        holds_at(s, p, digits),
        k <= max_size_digits(),
    ensures
        scan_size(s, p + k, k, value) == SizeScan::Fail(ChunkError::InvalidChunkSize, p + max_size_digits() + 1),
    decreases max_size_digits() - k,
{
    let b = digits[k as int];
    assert(s[(p + k) as int] == Ok::<u8, crate::stream::TransportError>(b));
    if k < max_size_digits() {
        lemma_too_many_digits_from(s, p, digits, k + 1, value * 16 + hex_value(b));
    }
}

/// A size written with more hex digits than a `usize` holds is refused, by its number of
/// digits alone: even leading zeros count. The refusal comes at the first digit too many.
pub proof fn lemma_too_many_digits(s: Seq<Item>, p: nat, digits: Seq<u8>)
    requires
        digits.len() > max_size_digits(),
        forall|j: int| 0 <= j < digits.len() ==> is_hex_digit(#[trigger] digits[j]),
        holds_at(s, p, digits),
    ensures
        scan_size(s, p, 0, 0) == SizeScan::Fail(ChunkError::InvalidChunkSize, p + max_size_digits() + 1),
{
    lemma_too_many_digits_from(s, p, digits, 0, 0);
}

proof fn lemma_all_f(n: nat)
    ensures
        hex_number(Seq::new(n, |k: int| UPPER_F)) + 1 == pow16(n),
    decreases n,
{
    if n > 0 {
        let d = Seq::new(n, |k: int| UPPER_F);
        assert(d.drop_last() =~= Seq::new((n - 1) as nat, |k: int| UPPER_F));
        lemma_all_f((n - 1) as nat);
    }
}

/// The longest accepted size, all digits `F`, is exactly the largest `usize`.
pub proof fn lemma_largest_size()
    ensures
        hex_number(Seq::new(max_size_digits(), |k: int| UPPER_F)) == usize::MAX,
{
    lemma_all_f(max_size_digits());
    reveal_with_fuel(pow16, 17);
    assert(pow16(8) == 0x1_0000_0000);
    assert(pow16(16) == 0x1_0000_0000_0000_0000);
}

/// A scan that stopped because the source was exhausted.
pub open spec fn scan_ran_out(r: Scan) -> bool {
    r matches Scan::Fail(ChunkError::UnexpectedEndOfInput, _)
}

proof fn lemma_lf_prefix(s: Seq<Item>, t: Seq<Item>, i: nat)
    requires
        !scan_ran_out(scan_lf(s, i)),
    ensures
        scan_lf(s + t, i) == scan_lf(s, i),
{
    assert((s + t)[i as int] == s[i as int]);
}

proof fn lemma_crlf_prefix(s: Seq<Item>, t: Seq<Item>, i: nat)
    requires
        !scan_ran_out(scan_crlf(s, i)),
    ensures
        scan_crlf(s + t, i) == scan_crlf(s, i),
{
    assert((s + t)[i as int] == s[i as int]);
    if s[i as int] == Ok::<u8, crate::stream::TransportError>(CR) {
        lemma_lf_prefix(s, t, i + 1);
    }
}

proof fn lemma_ext_prefix(s: Seq<Item>, t: Seq<Item>, i: nat)
    requires
        !scan_ran_out(scan_ext(s, i)),
    ensures
        scan_ext(s + t, i) == scan_ext(s, i),
    decreases s.len() - i,
{
    assert((s + t)[i as int] == s[i as int]);
    if s[i as int] == Ok::<u8, crate::stream::TransportError>(CR) {
        lemma_lf_prefix(s, t, i + 1);
    } else if s[i as int] is Ok {
        lemma_ext_prefix(s, t, i + 1);
    }
}

proof fn lemma_size_prefix(s: Seq<Item>, t: Seq<Item>, i: nat, count: nat, value: nat)
    requires
        !(scan_size(s, i, count, value) is NoMore),
        !(scan_size(s, i, count, value) matches SizeScan::Fail(ChunkError::UnexpectedEndOfInput, _)),
    ensures
        scan_size(s + t, i, count, value) == scan_size(s, i, count, value),
    decreases s.len() - i,
{
    assert((s + t)[i as int] == s[i as int]);
    match s[i as int] {
        Ok(b) => {
            if b == CR {
                lemma_lf_prefix(s, t, i + 1);
            } else if b == SEMICOLON {
                lemma_ext_prefix(s, t, i + 1);
            } else if is_hex_digit(b) && count < max_size_digits() {
                lemma_size_prefix(s, t, i + 1, count + 1, value * 16 + hex_value(b));
            }
        },
        Err(_) => {},
    }
}

proof fn lemma_payload_prefix(remain: nat, s: Seq<Item>, t: Seq<Item>, i: nat)
    requires
        payload_step(remain, s, i).out != Some(Err::<u8, ChunkError>(ChunkError::UnexpectedEndOfInput)),
    ensures
        payload_step(remain, s + t, i) == payload_step(remain, s, i),
{
    assert((s + t)[i as int] == s[i as int]);
    if s[i as int] is Ok && remain <= 1 {
        lemma_crlf_prefix(s, t, i + 1);
    }
}

/// A request that did not run out of received elements is decided by them: it has the
/// same effect whatever elements the source delivers after them. So a decoder that
/// answers `NeedMore` exactly when a request runs out on an open stream hands out what
/// it would hand out had the whole source been there from the start.
pub proof fn lemma_decided_by_prefix(remain: nat, phase: Phase, s: Seq<Item>, t: Seq<Item>, i: nat)
    requires
        !runs_out(phase, i, step(remain, phase, s, i)),
    ensures
        step(remain, phase, s + t, i) == step(remain, phase, s, i),
{
    if phase is Active {
        if remain > 0 {
            lemma_payload_prefix(remain, s, t, i);
        } else {
            lemma_size_prefix(s, t, i, 0, 0);
            if let SizeScan::Size(n, j) = scan_size(s, i, 0, 0) {
                if n > 0 {
                    lemma_payload_prefix(n, s, t, j);
                }
            }
        }
    }
}

/// `s1` from `i1` on and `s2` from `i2` on hold the same elements.
pub open spec fn same_after(s1: Seq<Item>, i1: nat, s2: Seq<Item>, i2: nat) -> bool {
    &&& i1 <= s1.len()
    &&& i2 <= s2.len()
    &&& s1.skip(i1 as int) == s2.skip(i2 as int)
}

pub open spec fn shift_scan(r: Scan, d: int) -> Scan {
    match r {
        Scan::Done(j) => Scan::Done((j + d) as nat),
        Scan::Fail(e, j) => Scan::Fail(e, (j + d) as nat),
    }
}

pub open spec fn shift_size(r: SizeScan, d: int) -> SizeScan {
    match r {
        SizeScan::NoMore => SizeScan::NoMore,
        SizeScan::Size(n, j) => SizeScan::Size(n, (j + d) as nat),
        SizeScan::Fail(e, j) => SizeScan::Fail(e, (j + d) as nat),
    }
}

proof fn lemma_same_after_next(s1: Seq<Item>, i1: nat, s2: Seq<Item>, i2: nat)
    requires
        same_after(s1, i1, s2, i2),
        i1 < s1.len(),
    ensures
        i2 < s2.len(),
        s1[i1 as int] == s2[i2 as int],
        same_after(s1, i1 + 1, s2, i2 + 1),
{
    assert(s1.skip(i1 as int).len() == s2.skip(i2 as int).len());
    assert(s1.skip(i1 as int)[0] == s2.skip(i2 as int)[0]);
    assert(s1.skip(i1 + 1int) =~= s1.skip(i1 as int).drop_first());
    assert(s2.skip(i2 + 1int) =~= s2.skip(i2 as int).drop_first());
}

proof fn lemma_same_after_advance(s1: Seq<Item>, i1: nat, s2: Seq<Item>, i2: nat, k: nat)
    requires
        same_after(s1, i1, s2, i2),
        i1 + k <= s1.len(),
    ensures
        same_after(s1, i1 + k, s2, i2 + k),
{
    assert(s1.skip(i1 as int).len() == s2.skip(i2 as int).len());
    assert(s1.skip((i1 + k) as int) =~= s1.skip(i1 as int).skip(k as int));
    assert(s2.skip((i2 + k) as int) =~= s2.skip(i2 as int).skip(k as int));
}

proof fn lemma_lf_shift(s1: Seq<Item>, i1: nat, s2: Seq<Item>, i2: nat)
    requires
        same_after(s1, i1, s2, i2),
    ensures
        scan_lf(s2, i2) == shift_scan(scan_lf(s1, i1), i2 - i1),
{
    if i1 < s1.len() {
        lemma_same_after_next(s1, i1, s2, i2);
    } else {
        assert(s1.skip(i1 as int).len() == 0);
    }
}

proof fn lemma_crlf_shift(s1: Seq<Item>, i1: nat, s2: Seq<Item>, i2: nat)
    requires
        same_after(s1, i1, s2, i2),
    ensures
        scan_crlf(s2, i2) == shift_scan(scan_crlf(s1, i1), i2 - i1),
{
    if i1 < s1.len() {
        lemma_same_after_next(s1, i1, s2, i2);
        lemma_lf_shift(s1, i1 + 1, s2, i2 + 1);
    } else {
        assert(s1.skip(i1 as int).len() == 0);
    }
}

proof fn lemma_ext_shift(s1: Seq<Item>, i1: nat, s2: Seq<Item>, i2: nat)
    requires
        same_after(s1, i1, s2, i2),
    ensures
        scan_ext(s2, i2) == shift_scan(scan_ext(s1, i1), i2 - i1),
    decreases s1.len() - i1,
{
    if i1 < s1.len() {
        lemma_same_after_next(s1, i1, s2, i2);
        lemma_lf_shift(s1, i1 + 1, s2, i2 + 1);
        lemma_ext_shift(s1, i1 + 1, s2, i2 + 1);
    } else {
        assert(s1.skip(i1 as int).len() == 0);
    }
}

proof fn lemma_size_shift(s1: Seq<Item>, i1: nat, s2: Seq<Item>, i2: nat, count: nat, value: nat)
    requires
        same_after(s1, i1, s2, i2),
    ensures
        scan_size(s2, i2, count, value) == shift_size(scan_size(s1, i1, count, value), i2 - i1),
    decreases s1.len() - i1,
{
    if i1 < s1.len() {
        lemma_same_after_next(s1, i1, s2, i2);
        lemma_lf_shift(s1, i1 + 1, s2, i2 + 1);
        lemma_ext_shift(s1, i1 + 1, s2, i2 + 1);
        if let Ok(b) = s1[i1 as int] {
            if is_hex_digit(b) {
                lemma_size_shift(s1, i1 + 1, s2, i2 + 1, count + 1, value * 16 + hex_value(b));
            }
        }
    } else {
        assert(s1.skip(i1 as int).len() == 0);
    }
}

proof fn lemma_payload_shift(remain: nat, s1: Seq<Item>, i1: nat, s2: Seq<Item>, i2: nat)
    requires
        same_after(s1, i1, s2, i2),
    ensures
        ({
            let a = payload_step(remain, s1, i1);
            let b = payload_step(remain, s2, i2);
            &&& a.out == b.out && a.remain == b.remain && a.phase == b.phase
            &&& b.pos == a.pos + i2 - i1
        }),
{
    if i1 < s1.len() {
        lemma_same_after_next(s1, i1, s2, i2);
        lemma_crlf_shift(s1, i1 + 1, s2, i2 + 1);
    } else {
        assert(s1.skip(i1 as int).len() == 0);
    }
}

/// Two decoders in the same state whose unread elements are the same.
pub open spec fn equivalent(r1: nat, ph1: Phase, s1: Seq<Item>, i1: nat, r2: nat, ph2: Phase, s2: Seq<Item>, i2: nat) -> bool {
    &&& r1 == r2
    &&& ph1 == ph2
    &&& ph1 is Active ==> same_after(s1, i1, s2, i2)
}

proof fn lemma_step_equivalent(r1: nat, ph1: Phase, s1: Seq<Item>, i1: nat, r2: nat, ph2: Phase, s2: Seq<Item>, i2: nat)
    requires
        equivalent(r1, ph1, s1, i1, r2, ph2, s2, i2),
    ensures
        ({
            let a = step(r1, ph1, s1, i1);
            let b = step(r2, ph2, s2, i2);
            a.out == b.out && equivalent(a.remain, a.phase, s1, a.pos, b.remain, b.phase, s2, b.pos)
        }),
{
    if ph1 is Active {
        let a = step(r1, ph1, s1, i1);
        let b = step(r2, ph2, s2, i2);
        let d = i2 - i1;
        if r1 > 0 {
            lemma_payload_shift(r1, s1, i1, s2, i2);
        } else {
            lemma_size_shift(s1, i1, s2, i2, 0, 0);
            lemma_size_bounds(s1, i1, 0, 0);
            if let SizeScan::Size(n, j) = scan_size(s1, i1, 0, 0) {
                if n > 0 {
                    lemma_same_after_advance(s1, i1, s2, i2, (j - i1) as nat);
                    lemma_payload_shift(n, s1, j, s2, (j + d) as nat);
                }
            }
        }
        if a.phase is Active {
            lemma_step_keeps_position(r1, ph1, s1, i1);
            lemma_step_keeps_position(r2, ph2, s2, i2);
            assert(b.pos == a.pos + d);
            lemma_same_after_advance(s1, i1, s2, i2, (a.pos - i1) as nat);
        }
    }
}

proof fn lemma_ext_bounds(s: Seq<Item>, i: nat)
    ensures
        scan_ext(s, i) matches Scan::Done(j) ==> i < j <= s.len(),
    decreases s.len() - i,
{
    if i < s.len() {
        lemma_ext_bounds(s, i + 1);
    }
}

proof fn lemma_size_bounds(s: Seq<Item>, i: nat, count: nat, value: nat)
    ensures
        scan_size(s, i, count, value) matches SizeScan::Size(n, j) ==> i < j <= s.len(),
    decreases s.len() - i,
{
    if i < s.len() {
        lemma_ext_bounds(s, i + 1);
        if let Ok(b) = s[i as int] {
            lemma_size_bounds(s, i + 1, count + 1, value * 16 + hex_value(b));
        }
    }
}

/// A request after which decoding goes on leaves the position within the source, and
/// not before where it started.
proof fn lemma_step_keeps_position(remain: nat, phase: Phase, s: Seq<Item>, i: nat)
    requires
        phase is Active,
        i <= s.len(),
    ensures
        step(remain, phase, s, i).phase is Active ==> i <= step(remain, phase, s, i).pos <= s.len(),
{
    lemma_size_bounds(s, i, 0, 0);
}

/// Equivalent decoders hand out the same outputs on every run.
proof fn lemma_run_equivalent(r1: nat, ph1: Phase, s1: Seq<Item>, i1: nat, r2: nat, ph2: Phase, s2: Seq<Item>, i2: nat, n: nat)
    requires
        equivalent(r1, ph1, s1, i1, r2, ph2, s2, i2),
    ensures
        run(r1, ph1, s1, i1, n).0 == run(r2, ph2, s2, i2, n).0,
    decreases n,
{
    if n > 0 {
        lemma_step_equivalent(r1, ph1, s1, i1, r2, ph2, s2, i2);
        let a = step(r1, ph1, s1, i1);
        let b = step(r2, ph2, s2, i2);
        lemma_run_equivalent(a.remain, a.phase, s1, a.pos, b.remain, b.phase, s2, b.pos, (n - 1) as nat);
    }
}

/// The size line `h` CR LF against `h` `;` `e` CR LF, scanned from the `k`-th byte of `h`.
proof fn lemma_size_line_ext(s1: Seq<Item>, p1: nat, s2: Seq<Item>, p2: nat, h: Seq<u8>, e: Seq<u8>, k: nat, count: nat, value: nat)
    requires
        forall|j: int| 0 <= j < h.len() ==> #[trigger] h[j] != CR && h[j] != SEMICOLON,
        forall|j: int| 0 <= j < e.len() ==> #[trigger] e[j] != CR,
        holds_at(s1, p1, h + crlf()),
        holds_at(s2, p2, h + seq![SEMICOLON] + e + crlf()),
        k <= h.len(),
    ensures
        ({
            let a = scan_size(s1, p1 + k, count, value);
            let b = scan_size(s2, p2 + k, count, value);
            &&& !(a is NoMore)
            &&& a is Fail ==> b is Fail && a->Fail_0 == b->Fail_0
            &&& a is Size ==> b is Size && a->Size_0 == b->Size_0
                && a->Size_1 == p1 + h.len() + 2 && b->Size_1 == p2 + h.len() + e.len() + 3
        }),
    decreases h.len() - k,
{
    let w1 = h + crlf();
    let w2 = h + seq![SEMICOLON] + e + crlf();
    if k < h.len() {
        assert(w1[k as int] == h[k as int]);
        assert(w2[k as int] == h[k as int]);
        assert(s1[(p1 + k) as int] == s2[(p2 + k) as int]);
        let b = h[k as int];
        if is_hex_digit(b) && count < max_size_digits() {
            lemma_size_line_ext(s1, p1, s2, p2, h, e, k + 1, count + 1, value * 16 + hex_value(b));
        }
    } else {
        assert(w1[k as int] == CR);
        assert(w1[k + 1int] == LF);
        assert(w2[k as int] == SEMICOLON);
        assert(s1[(p1 + k) as int] == Ok::<u8, crate::stream::TransportError>(CR));
        assert(s1[(p1 + k + 1) as int] == Ok::<u8, crate::stream::TransportError>(LF));
        assert(s2[(p2 + k) as int] == Ok::<u8, crate::stream::TransportError>(SEMICOLON));
        assert(w2 =~= (h + seq![SEMICOLON]) + (e + crlf()));
        lemma_holds_split(s2, p2, h + seq![SEMICOLON], e + crlf());
        lemma_scan_ext_done(s2, p2 + k + 1, e, 0);
    }
}

/// A chunk extension never changes what decoding hands out, errors included: a decoder
/// about to read the size line `h` CR LF, and one about to read `h` `;` `e` CR LF with the
/// same elements after the line, hand out the same outputs on every run. `h` is any size
/// text (valid or not) without `;` or CR, `e` any bytes without CR.
pub proof fn lemma_extension_ignored(s1: Seq<Item>, p1: nat, s2: Seq<Item>, p2: nat, h: Seq<u8>, e: Seq<u8>, n: nat)
    requires
        forall|j: int| 0 <= j < h.len() ==> #[trigger] h[j] != CR && h[j] != SEMICOLON,
        forall|j: int| 0 <= j < e.len() ==> #[trigger] e[j] != CR,
        holds_at(s1, p1, h + crlf()),
        holds_at(s2, p2, h + seq![SEMICOLON] + e + crlf()),
        same_after(s1, p1 + h.len() + 2, s2, p2 + h.len() + e.len() + 3),
    ensures
        run(0, Phase::Active, s1, p1, n).0 == run(0, Phase::Active, s2, p2, n).0,
{
    if n > 0 {
        assert(p1 + 0 == p1 && p2 + 0 == p2);
        lemma_size_line_ext(s1, p1, s2, p2, h, e, 0, 0, 0);
        let a = step(0, Phase::Active, s1, p1);
        let b = step(0, Phase::Active, s2, p2);
        if let SizeScan::Size(v, j1) = scan_size(s1, p1, 0, 0) {
            if v > 0 {
                let j2 = p2 + h.len() + e.len() + 3;
                lemma_step_equivalent(v, Phase::Active, s1, j1, v, Phase::Active, s2, j2);
            }
        }
        assert(a.out == b.out);
        assert(equivalent(a.remain, a.phase, s1, a.pos, b.remain, b.phase, s2, b.pos));
        lemma_run_equivalent(a.remain, a.phase, s1, a.pos, b.remain, b.phase, s2, b.pos, (n - 1) as nat);
    }
}

} // verus!
