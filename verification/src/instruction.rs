//! The binary motor-instruction grammar: validation, chunking and decoding.
//!
//! An instruction is 5 bytes (`left:i16 right:i16 0x0C`) or 6 bytes
//! (`left:i16 right:i16 pen_op 0x0C`), big-endian, where the pen op is
//! `0x0A` (raise) or `0x0B` (lower). A stream is a concatenation of one or
//! more complete instructions; an empty stream or a trailing partial
//! instruction is invalid.

use vstd::prelude::*;

verus! {

/// Byte that ends every instruction.
pub const TERMINATOR: u8 = 0x0C;

/// Pen-op byte: raise the pen off the paper.
pub const PEN_UP: u8 = 0x0A;

/// Pen-op byte: lower the pen onto the paper.
pub const PEN_DOWN: u8 = 0x0B;

/// Smallest chunk size accepted by `get_buffer_bounds`: comfortably larger
/// than the longest (6-byte) instruction, so every instruction fits a chunk.
pub const MIN_CHUNK_SIZE: usize = 8;

/// Errors arising from instruction-stream validation and chunking.
#[derive(Debug, Clone, Copy, PartialEq, Eq)]
pub enum InstructionError {
    /// A suffix view was requested starting at `start_idx`, but the stream
    /// only holds `upper_bound` bytes.
    StartOutOfBounds { start_idx: usize, upper_bound: usize },
    /// The stream broke the grammar; the payload is the offending byte
    /// (for a stream that ends mid-instruction, its last byte).
    IncompleteInstructions(u8),
    /// The stream holds no bytes at all.
    EmptyInstructionSet,
    /// A stream length that no sequence of whole instructions can have;
    /// the walk reports the offending byte instead, so nothing produces
    /// this today.
    InvalidLength,
    /// The requested chunk size cannot hold a whole instruction.
    BufferTooSmall(usize),
}

/// Errors from stepping to the next instruction of a stream.
#[derive(Debug, Clone, Copy, PartialEq, Eq)]
pub enum NextInstructionError {
    /// Fewer than five bytes remain: no further instruction starts here.
    EndOfStream,
    /// The bytes from the given offset do not form a complete instruction.
    InvalidInstruction(usize),
}

/// True of the two pen-op bytes.
pub open spec fn is_pen_op(byte: u8) -> bool {
    byte == PEN_UP || byte == PEN_DOWN
}

/// Length (5 or 6) of the complete instruction starting at offset `i` of
/// `b`, or `None` if no complete instruction starts there.
pub open spec fn ins_len_at(b: Seq<u8>, i: int) -> Option<int> {
    if 0 <= i && i + 5 <= b.len() && b[i + 4] == TERMINATOR {
        Some(5)
    } else if 0 <= i && i + 6 <= b.len() && is_pen_op(b[i + 4]) && b[i + 5] == TERMINATOR {
        Some(6)
    } else {
        None
    }
}

/// Complete instructions exactly partition the byte range `[i, t)` of `b`.
pub open spec fn instructions_cover(b: Seq<u8>, i: int, t: int) -> bool
    decreases t - i,
{
    if i >= t {
        i == t
    } else {
        match ins_len_at(b, i) {
            Some(l) => i + l <= t && instructions_cover(b, i + l, t),
            None => false,
        }
    }
}

/// A stream is valid when it is non-empty and instructions partition it.
pub open spec fn valid_stream(b: Seq<u8>) -> bool {
    b.len() > 0 && instructions_cover(b, 0, b.len() as int)
}

/// The offending byte reported when the walk of the grammar from offset `i`
/// fails: the byte standing where a terminator or pen op was expected, or
/// the last byte of a stream that ends mid-instruction.
pub open spec fn stream_fault(b: Seq<u8>, i: int) -> u8
    decreases b.len() - i,
{
    if i < 0 || i >= b.len() {
        0
    } else if i + 5 > b.len() {
        b[b.len() - 1]
    } else if b[i + 4] == TERMINATOR {
        stream_fault(b, i + 5)
    } else if is_pen_op(b[i + 4]) {
        if i + 5 < b.len() {
            if b[i + 5] == TERMINATOR {
                stream_fault(b, i + 6)
            } else {
                b[i + 5]
            }
        } else {
            b[i + 4]
        }
    } else {
        b[i + 4]
    }
}

/// Walks the whole stream against the grammar.
///
/// Returns `None` exactly when `ins_bytes` is a valid stream; otherwise the
/// error names the empty stream or carries the offending byte.
pub fn is_stream_valid(ins_bytes: &[u8]) -> (r: Option<InstructionError>)
    ensures
        r is None <==> valid_stream(ins_bytes@),
        ins_bytes@.len() == 0 ==> r == Some(InstructionError::EmptyInstructionSet),
        ins_bytes@.len() > 0 && !instructions_cover(ins_bytes@, 0, ins_bytes@.len() as int)
            ==> r == Some(InstructionError::IncompleteInstructions(stream_fault(ins_bytes@, 0))),
{
    let n = ins_bytes.len();
    if n == 0 {
        return Some(InstructionError::EmptyInstructionSet);
    }

    let mut i: usize = 0;
    while i < n
        invariant
            i <= n,
            n == ins_bytes@.len(),
            instructions_cover(ins_bytes@, 0, n as int)
                == instructions_cover(ins_bytes@, i as int, n as int),
            stream_fault(ins_bytes@, 0) == stream_fault(ins_bytes@, i as int),
        decreases n - i,
    {
        if n - i < 5 {
            return Some(InstructionError::IncompleteInstructions(ins_bytes[n - 1]));
        }
        let tail = ins_bytes[i + 4];
        if tail == TERMINATOR {
            i = i + 5;
        } else if tail == PEN_UP || tail == PEN_DOWN {
            if n - i > 5 {
                if ins_bytes[i + 5] == TERMINATOR {
                    i = i + 6;
                } else {
                    return Some(InstructionError::IncompleteInstructions(ins_bytes[i + 5]));
                }
            } else {
                return Some(InstructionError::IncompleteInstructions(tail));
            }
        } else {
            return Some(InstructionError::IncompleteInstructions(tail));
        }
    }
    None
}

/// The signed 16-bit value that the big-endian byte pair `(hi, lo)` encodes.
pub open spec fn i16_be(hi: u8, lo: u8) -> i16 {
    let v = (hi as int) * 256 + (lo as int);
    if v < 0x8000 {
        v as i16
    } else {
        (v - 0x10000) as i16
    }
}

/// The big-endian byte pair encoding the signed 16-bit value `v`.
pub open spec fn i16_be_bytes(v: i16) -> Seq<u8> {
    let u = if v >= 0 {
        v as int
    } else {
        v as int + 0x10000
    };
    seq![(u / 256) as u8, (u % 256) as u8]
}

/// The 5-byte instruction encoding one sample: both step counts, then the
/// terminator.
pub open spec fn encoded_sample(left: i16, right: i16) -> Seq<u8> {
    i16_be_bytes(left) + i16_be_bytes(right) + seq![TERMINATOR]
}

/// Encoding a step count and reading it back is the identity.
pub proof fn lemma_i16_be_bytes_roundtrip(v: i16)
    ensures
        i16_be(i16_be_bytes(v)[0], i16_be_bytes(v)[1]) == v,
{
    let u = if v >= 0 {
        v as int
    } else {
        v as int + 0x10000
    };
    assert(0 <= u < 0x10000);
    assert(u == (u / 256) * 256 + u % 256) by {
        vstd::arithmetic::div_mod::lemma_fundamental_div_mod(u, 256);
    }
    assert(0 <= u / 256 < 256) by (nonlinear_arith)
        requires
            0 <= u < 0x10000,
    ;
}

/// The `(left, right, pen_up)` triples encoded from offset `i` on, with
/// `pen` the pen state latched by the bytes before `i`. A 6-byte
/// instruction sets the latch; every instruction carries the latched value.
pub open spec fn decoded_from(b: Seq<u8>, i: int, pen: bool) -> Seq<(i16, i16, bool)>
    decreases b.len() - i,
{
    match ins_len_at(b, i) {
        Some(l) => {
            let p = if l == 6 {
                b[i + 4] == PEN_UP
            } else {
                pen
            };
            seq![(i16_be(b[i], b[i + 1]), i16_be(b[i + 2], b[i + 3]), p)] + decoded_from(b, i + l, p)
        },
        None => Seq::empty(),
    }
}

/// The numerical steps of a whole stream; the pen starts raised.
pub open spec fn decoded_stream(b: Seq<u8>) -> Seq<(i16, i16, bool)> {
    decoded_from(b, 0, true)
}

/// The pen state latched after decoding from offset `i` with latch `pen`.
pub open spec fn pen_after(b: Seq<u8>, i: int, pen: bool) -> bool
    decreases b.len() - i,
{
    match ins_len_at(b, i) {
        Some(l) => pen_after(
            b,
            i + l,
            if l == 6 {
                b[i + 4] == PEN_UP
            } else {
                pen
            },
        ),
        None => pen,
    }
}

/// End (inclusive) of the greedy chunk that starts at `s`, whose
/// instructions so far end at `e`: instructions are taken as long as the
/// chunk stays within `max` bytes.
pub open spec fn extend_chunk(b: Seq<u8>, s: int, e: int, max: int) -> int
    decreases b.len() - e,
{
    match ins_len_at(b, e + 1) {
        Some(l) => {
            if e + 1 + l - s <= max {
                extend_chunk(b, s, e + l, max)
            } else {
                e
            }
        },
        None => e,
    }
}

/// The greedy chunking of the stream from `s` on: each chunk is the longest
/// run of whole instructions of at most `max` bytes.
pub open spec fn chunks_from(b: Seq<u8>, s: int, max: int) -> Seq<(int, int)>
    decreases b.len() - s
        when 0 <= s <= b.len()
        via chunks_from_decreases
{
    if s >= b.len() {
        Seq::empty()
    } else {
        match ins_len_at(b, s) {
            Some(l) => {
                let e = extend_chunk(b, s, s + l - 1, max);
                seq![(s, e)] + chunks_from(b, e + 1, max)
            },
            None => Seq::empty(),
        }
    }
}

#[via_fn]
proof fn chunks_from_decreases(b: Seq<u8>, s: int, max: int) {
    if s < b.len() {
        match ins_len_at(b, s) {
            Some(l) => lemma_extend_chunk_range(b, s, s + l - 1, max),
            None => (),
        }
    }
}

/// The greedy chunk end lies between the end handed in and the last byte.
pub proof fn lemma_extend_chunk_range(b: Seq<u8>, s: int, e: int, max: int)
    requires
        0 <= e < b.len(),
    ensures
        e <= extend_chunk(b, s, e, max) < b.len(),
    decreases b.len() - e,
{
    match ins_len_at(b, e + 1) {
        Some(l) => {
            if e + 1 + l - s <= max {
                lemma_extend_chunk_range(b, s, e + l, max);
            }
        },
        None => (),
    }
}

/// Bounds, both inclusive, of the complete instruction starting at `cidx`.
///
/// At the end of every stream (fewer than five bytes left) the result is
/// `EndOfStream`; bytes that break the grammar give `InvalidInstruction`
/// carrying `cidx`.
pub fn get_next_instruction_bounds(ins_bytes: &[u8], cidx: usize) -> (r: Result<
    (usize, usize),
    NextInstructionError,
>)
    ensures
        ins_bytes@.len() - cidx < 5 ==> r == Err::<(usize, usize), _>(
            NextInstructionError::EndOfStream,
        ),
        ins_len_at(ins_bytes@, cidx as int) matches Some(l) ==> r == Ok::<_, NextInstructionError>(
            (cidx, (cidx + l - 1) as usize),
        ),
        ins_bytes@.len() - cidx >= 5 && ins_len_at(ins_bytes@, cidx as int) is None ==> r == Err::<
            (usize, usize),
            _,
        >(NextInstructionError::InvalidInstruction(cidx)),
{
    let n = ins_bytes.len();
    if cidx >= n || n - cidx < 5 {
        return Err(NextInstructionError::EndOfStream);
    }

    let tail = ins_bytes[cidx + 4];
    if tail == TERMINATOR {
        return Ok((cidx, cidx + 4));
    }
    if tail == PEN_UP || tail == PEN_DOWN {
        if n - cidx > 5 && ins_bytes[cidx + 5] == TERMINATOR {
            return Ok((cidx, cidx + 5));
        }
        return Err(NextInstructionError::InvalidInstruction(cidx));
    }
    Err(NextInstructionError::InvalidInstruction(cidx))
}

/// Appending bytes to a stream leaves the partition of its range standing.
pub proof fn lemma_covers_append(a: Seq<u8>, ext: Seq<u8>, i: int)
    requires
        instructions_cover(a, i, a.len() as int),
    ensures
        instructions_cover(a + ext, i, a.len() as int),
    decreases a.len() - i,
{
    if i < a.len() {
        match ins_len_at(a, i) {
            Some(l) => {
                assert(ins_len_at(a + ext, i) == Some(l));
                lemma_covers_append(a, ext, i + l);
            },
            None => (),
        }
    }
}

/// Instruction partitions of adjacent ranges join into one.
pub proof fn lemma_covers_join(x: Seq<u8>, s: int, m: int, t: int)
    requires
        instructions_cover(x, s, m),
        instructions_cover(x, m, t),
    ensures
        instructions_cover(x, s, t),
    decreases m - s,
{
    if s < m {
        match ins_len_at(x, s) {
            Some(l) => lemma_covers_join(x, s + l, m, t),
            None => (),
        }
    }
}

/// A partition of a whole stream reappears, shifted, after other bytes.
pub proof fn lemma_covers_shift(a: Seq<u8>, b: Seq<u8>, i: int)
    requires
        0 <= i,
        instructions_cover(b, i, b.len() as int),
    ensures
        instructions_cover(a + b, a.len() + i, (a + b).len() as int),
    decreases b.len() - i,
{
    if i < b.len() {
        match ins_len_at(b, i) {
            Some(l) => {
                assert(ins_len_at(a + b, a.len() + i) == Some(l));
                lemma_covers_shift(a, b, i + l);
            },
            None => (),
        }
    }
}

/// Validation is stable under concatenation: two valid streams, laid end to
/// end, are one valid stream.
pub proof fn lemma_stream_concat_valid(a: Seq<u8>, b: Seq<u8>)
    requires
        valid_stream(a),
        valid_stream(b),
    ensures
        valid_stream(a + b),
{
    lemma_covers_append(a, b, 0);
    lemma_covers_shift(a, b, 0);
    lemma_covers_join(a + b, 0, a.len() as int, (a + b).len() as int);
}

/// A partitioned range, cut out of its stream, is partitioned on its own.
pub proof fn lemma_covers_subrange(x: Seq<u8>, s: int, t: int, i: int)
    requires
        0 <= s <= i <= t <= x.len(),
        instructions_cover(x, i, t),
    ensures
        instructions_cover(x.subrange(s, t), i - s, t - s),
    decreases t - i,
{
    if i < t {
        match ins_len_at(x, i) {
            Some(l) => {
                assert(ins_len_at(x.subrange(s, t), i - s) == Some(l));
                lemma_covers_subrange(x, s, t, i + l);
            },
            None => (),
        }
    }
}

/// A partition of a range depends only on the bytes up to its end: it
/// carries over to any stream that agrees with it there.
pub proof fn lemma_covers_same_prefix(b1: Seq<u8>, b2: Seq<u8>, i: int, t: int)
    requires
        t <= b1.len(),
        t <= b2.len(),
        forall|j: int| 0 <= j < t ==> b1[j] == b2[j],
        instructions_cover(b1, i, t),
    ensures
        instructions_cover(b2, i, t),
    decreases t - i,
{
    if i < t {
        match ins_len_at(b1, i) {
            Some(l) => {
                assert(ins_len_at(b2, i) == Some(l));
                lemma_covers_same_prefix(b1, b2, i + l, t);
            },
            None => (),
        }
    }
}

/// A partitioned, non-empty range ends on the terminator byte.
pub proof fn lemma_covers_terminator(x: Seq<u8>, s: int, t: int)
    requires
        s < t,
        instructions_cover(x, s, t),
    ensures
        x[t - 1] == TERMINATOR,
    decreases t - s,
{
    match ins_len_at(x, s) {
        Some(l) => {
            if s + l < t {
                lemma_covers_terminator(x, s + l, t);
            }
        },
        None => (),
    }
}

/// The greedy chunk end splits the remaining instructions in two
/// partitioned parts.
pub proof fn lemma_extend_chunk_covers(b: Seq<u8>, s: int, e: int, max: int)
    requires
        0 <= e < b.len(),
        instructions_cover(b, e + 1, b.len() as int),
    ensures
        instructions_cover(b, e + 1, extend_chunk(b, s, e, max) + 1),
        instructions_cover(b, extend_chunk(b, s, e, max) + 1, b.len() as int),
    decreases b.len() - e,
{
    match ins_len_at(b, e + 1) {
        Some(l) => {
            if e + 1 + l - s <= max {
                lemma_extend_chunk_covers(b, s, e + l, max);
            }
        },
        None => (),
    }
}

/// A chunk that starts within its size budget stays within it.
pub proof fn lemma_extend_chunk_size(b: Seq<u8>, s: int, e: int, max: int)
    requires
        e + 1 - s <= max,
    ensures
        extend_chunk(b, s, e, max) + 1 - s <= max,
    decreases b.len() - e,
{
    match ins_len_at(b, e + 1) {
        Some(l) => {
            if e + 1 + l - s <= max {
                lemma_extend_chunk_size(b, s, e + l, max);
            }
        },
        None => (),
    }
}

/// What the chunking of a valid stream guarantees: at least one chunk; the
/// chunks are contiguous from the first byte to the last; each is at most
/// `max` bytes; each ends on a terminator; and each is a valid stream.
pub open spec fn chunked_ok(b: Seq<u8>, max: int, c: Seq<(int, int)>) -> bool {
    &&& c.len() > 0
    &&& c[0].0 == 0
    &&& c[c.len() - 1].1 == b.len() - 1
    &&& forall|k: int|
        0 <= k < c.len() ==> {
            &&& 0 <= (#[trigger] c[k]).0 <= c[k].1 < b.len()
            &&& c[k].1 + 1 - c[k].0 <= max
            &&& b[c[k].1] == TERMINATOR
            &&& valid_stream(b.subrange(c[k].0, c[k].1 + 1))
        }
    &&& forall|k: int| 0 <= k < c.len() - 1 ==> (#[trigger] c[k]).1 + 1 == c[k + 1].0
}

proof fn lemma_chunks_from_props(b: Seq<u8>, s: int, max: int)
    requires
        0 <= s < b.len(),
        max >= MIN_CHUNK_SIZE as int,
        instructions_cover(b, s, b.len() as int),
    ensures
        ({
            let c = chunks_from(b, s, max);
            &&& c.len() > 0
            &&& c[0].0 == s
            &&& c[c.len() - 1].1 == b.len() - 1
            &&& forall|k: int|
                0 <= k < c.len() ==> {
                    &&& s <= (#[trigger] c[k]).0 <= c[k].1 < b.len()
                    &&& c[k].1 + 1 - c[k].0 <= max
                    &&& instructions_cover(b, c[k].0, c[k].1 + 1)
                }
            &&& forall|k: int| 0 <= k < c.len() - 1 ==> (#[trigger] c[k]).1 + 1 == c[k + 1].0
        }),
    decreases b.len() - s,
{
    let c = chunks_from(b, s, max);
    match ins_len_at(b, s) {
        Some(l) => {
            let e = extend_chunk(b, s, s + l - 1, max);
            lemma_extend_chunk_range(b, s, s + l - 1, max);
            lemma_extend_chunk_size(b, s, s + l - 1, max);
            lemma_extend_chunk_covers(b, s, s + l - 1, max);
            assert(instructions_cover(b, s, e + 1));
            let rest = chunks_from(b, e + 1, max);
            if e + 1 == b.len() {
                assert(rest =~= Seq::<(int, int)>::empty());
                assert(c =~= seq![(s, e)]);
            } else {
                lemma_chunks_from_props(b, e + 1, max);
                assert forall|k: int| 0 <= k < c.len() implies {
                    &&& s <= (#[trigger] c[k]).0 <= c[k].1 < b.len()
                    &&& c[k].1 + 1 - c[k].0 <= max
                    &&& instructions_cover(b, c[k].0, c[k].1 + 1)
                } by {
                    if k > 0 {
                        assert(c[k] == rest[k - 1]);
                    }
                }
                assert forall|k: int| 0 <= k < c.len() - 1 implies (#[trigger] c[k]).1 + 1 == c[k
                    + 1].0 by {
                    if k > 0 {
                        assert(c[k] == rest[k - 1]);
                        assert(c[k + 1] == rest[k]);
                    } else {
                        assert(c[1] == rest[0]);
                    }
                }
                assert(c[c.len() - 1] == rest[rest.len() - 1]);
            }
        },
        None => (),
    }
}

/// The chunking law: for a valid stream and any chunk size of at least
/// `MIN_CHUNK_SIZE`, `chunks_from` partitions the byte range contiguously,
/// every chunk holds at most `max` bytes, every chunk ends at a terminator
/// byte, and every chunk is itself a valid stream.
pub proof fn lemma_chunks_partition(b: Seq<u8>, max: int)
    requires
        valid_stream(b),
        max >= MIN_CHUNK_SIZE as int,
    ensures
        chunked_ok(b, max, chunks_from(b, 0, max)),
{
    let c = chunks_from(b, 0, max);
    lemma_chunks_from_props(b, 0, max);
    assert forall|k: int| 0 <= k < c.len() implies {
        &&& 0 <= (#[trigger] c[k]).0 <= c[k].1 < b.len()
        &&& c[k].1 + 1 - c[k].0 <= max
        &&& b[c[k].1] == TERMINATOR
        &&& valid_stream(b.subrange(c[k].0, c[k].1 + 1))
    } by {
        lemma_covers_terminator(b, c[k].0, c[k].1 + 1);
        lemma_covers_subrange(b, c[k].0, c[k].1 + 1, c[k].0);
    }
}

/// Decoding distributes over appending instructions: the bytes after a
/// partitioned prefix decode separately, starting from the latch the
/// prefix leaves behind.
pub proof fn lemma_decoded_concat(b: Seq<u8>, ext: Seq<u8>, i: int, pen: bool)
    requires
        0 <= i,
        instructions_cover(b, i, b.len() as int),
    ensures
        decoded_from(b + ext, i, pen) == decoded_from(b, i, pen) + decoded_from(
            b + ext,
            b.len() as int,
            pen_after(b, i, pen),
        ),
    decreases b.len() - i,
{
    if i == b.len() {
        assert(decoded_from(b, i, pen) =~= Seq::<(i16, i16, bool)>::empty());
        assert(decoded_from(b + ext, i, pen) =~= decoded_from(b, i, pen) + decoded_from(
            b + ext,
            b.len() as int,
            pen_after(b, i, pen),
        ));
    } else {
        match ins_len_at(b, i) {
            Some(l) => {
                assert(ins_len_at(b + ext, i) == Some(l));
                let p = if l == 6 {
                    b[i + 4] == PEN_UP
                } else {
                    pen
                };
                lemma_decoded_concat(b, ext, i + l, p);
                assert(decoded_from(b + ext, i, pen) =~= decoded_from(b, i, pen) + decoded_from(
                    b + ext,
                    b.len() as int,
                    pen_after(b, i, pen),
                ));
            },
            None => (),
        }
    }
}

/// The latch distributes over appending instructions as decoding does.
pub proof fn lemma_pen_after_concat(b: Seq<u8>, ext: Seq<u8>, i: int, pen: bool)
    requires
        0 <= i,
        instructions_cover(b, i, b.len() as int),
    ensures
        pen_after(b + ext, i, pen) == pen_after(b + ext, b.len() as int, pen_after(b, i, pen)),
    decreases b.len() - i,
{
    if i < b.len() {
        match ins_len_at(b, i) {
            Some(l) => {
                assert(ins_len_at(b + ext, i) == Some(l));
                let p = if l == 6 {
                    b[i + 4] == PEN_UP
                } else {
                    pen
                };
                lemma_pen_after_concat(b, ext, i + l, p);
            },
            None => (),
        }
    }
}

/// On a partitioned stream the latch left behind is the pen state of the
/// last decoded instruction, or `pen` itself if nothing was decoded.
pub proof fn lemma_pen_after_is_last(b: Seq<u8>, i: int, pen: bool)
    requires
        0 <= i,
        instructions_cover(b, i, b.len() as int),
    ensures
        pen_after(b, i, pen) == if decoded_from(b, i, pen).len() > 0 {
            decoded_from(b, i, pen).last().2
        } else {
            pen
        },
    decreases b.len() - i,
{
    if i < b.len() {
        match ins_len_at(b, i) {
            Some(l) => {
                let p = if l == 6 {
                    b[i + 4] == PEN_UP
                } else {
                    pen
                };
                lemma_pen_after_is_last(b, i + l, p);
            },
            None => (),
        }
    }
}

/// The chunk bounds of the executable side, read back as integer pairs.
pub open spec fn bounds_as_ints(r: Seq<(usize, usize)>) -> Seq<(int, int)> {
    r.map(|k: int, p: (usize, usize)| (p.0 as int, p.1 as int))
}

/// Reads the big-endian `i16` standing at offset `i`.
pub(crate) fn read_i16_be(bytes: &[u8], i: usize) -> (r: i16)
    requires
        i + 2 <= bytes@.len(),
    ensures
        r == i16_be(bytes@[i as int], bytes@[i as int + 1]),
{
    let n = bytes.len();
    assert(i + 2 <= n);
    let hi = bytes[i];
    let lo = bytes[i + 1];
    let v: u32 = (hi as u32) * 256 + (lo as u32);
    if v < 0x8000 {
        v as i16
    } else {
        (v as i32 - 0x10000) as i16
    }
}

/// A validated, immutable instruction stream, together with the page
/// coordinate (in micrometres) at which the drawing's pen starts.
pub struct InstructionSet {
    binary: Vec<u8>,
    init_x_um: i64,
    init_y_um: i64,
}

impl View for InstructionSet {
    type V = Seq<u8>;

    closed spec fn view(&self) -> Seq<u8> {
        self.binary@
    }
}

impl InstructionSet {
    #[verifier::type_invariant]
    spec fn type_inv(self) -> bool {
        valid_stream(self.binary@)
    }

    /// The initial pen position, in micrometres from the page's top left.
    pub closed spec fn init_spec(&self) -> (i64, i64) {
        (self.init_x_um, self.init_y_um)
    }

    /// Validates `ins_bytes` and wraps it; the set is returned exactly when
    /// the bytes are a valid stream, else the validation error comes back.
    pub fn new(ins_bytes: Vec<u8>, init_x_um: i64, init_y_um: i64) -> (r: Result<
        InstructionSet,
        InstructionError,
    >)
        ensures
            r is Ok <==> valid_stream(ins_bytes@),
            r matches Ok(s) ==> s@ == ins_bytes@ && s.init_spec() == (init_x_um, init_y_um),
            ins_bytes@.len() == 0 ==> r == Err::<InstructionSet, _>(
                InstructionError::EmptyInstructionSet,
            ),
            ins_bytes@.len() > 0 && !valid_stream(ins_bytes@) ==> r == Err::<InstructionSet, _>(
                InstructionError::IncompleteInstructions(stream_fault(ins_bytes@, 0)),
            ),
    {
        match is_stream_valid(ins_bytes.as_slice()) {
            None => Ok(InstructionSet { binary: ins_bytes, init_x_um, init_y_um }),
            Some(err) => Err(err),
        }
    }

    /// As `new`, but validates and keeps only the suffix of `ins_bytes`
    /// from `start_idx` on; a start index at or past the end is refused.
    pub fn new_from_idx(
        ins_bytes: Vec<u8>,
        init_x_um: i64,
        init_y_um: i64,
        start_idx: usize,
    ) -> (r: Result<InstructionSet, InstructionError>)
        ensures
            start_idx >= ins_bytes@.len() ==> r == Err::<InstructionSet, _>(
                InstructionError::StartOutOfBounds {
                    start_idx,
                    upper_bound: ins_bytes.len(),
                },
            ),
            start_idx < ins_bytes@.len() ==> {
                let suffix = ins_bytes@.skip(start_idx as int);
                &&& r is Ok <==> valid_stream(suffix)
                &&& (r matches Ok(s) ==> s@ == suffix && s.init_spec() == (init_x_um, init_y_um))
                &&& (!valid_stream(suffix) ==> r == Err::<InstructionSet, _>(
                    InstructionError::IncompleteInstructions(stream_fault(suffix, 0)),
                ))
            },
    {
        let n = ins_bytes.len();
        if start_idx >= n {
            return Err(InstructionError::StartOutOfBounds { start_idx, upper_bound: n });
        }

        let mut suffix: Vec<u8> = Vec::new();
        let mut j: usize = start_idx;
        while j < n
            invariant
                start_idx <= j <= n,
                n == ins_bytes@.len(),
                suffix@ == ins_bytes@.subrange(start_idx as int, j as int),
            decreases n - j,
        {
            suffix.push(ins_bytes[j]);
            j = j + 1;
        }
        proof {
            assert(suffix@ =~= ins_bytes@.skip(start_idx as int));
        }
        InstructionSet::new(suffix, init_x_um, init_y_um)
    }

    /// The inclusive byte bounds of the buffers to hand to the machine,
    /// one pair per chunk: the greedy chunking of the stream into runs of
    /// whole instructions of at most `max_chunk_size` bytes. The bounds
    /// are recomputed on each call; a session asks with one constant
    /// chunk size, the machine's reported buffer size.
    pub fn get_buffer_bounds(&self, max_chunk_size: usize) -> (r: Result<
        Vec<(usize, usize)>,
        InstructionError,
    >)
        ensures
            max_chunk_size < MIN_CHUNK_SIZE ==> r == Err::<Vec<(usize, usize)>, _>(
                InstructionError::BufferTooSmall(max_chunk_size),
            ),
            max_chunk_size >= MIN_CHUNK_SIZE ==> (r matches Ok(c) && bounds_as_ints(c@)
                == chunks_from(self@, 0, max_chunk_size as int)),
    {
        proof {
            use_type_invariant(self);
        }
        if max_chunk_size < MIN_CHUNK_SIZE {
            return Err(InstructionError::BufferTooSmall(max_chunk_size));
        }

        let ghost b = self.binary@;
        let ghost max = max_chunk_size as int;
        let n = self.binary.len();
        let mut chunks: Vec<(usize, usize)> = Vec::new();
        let mut s: usize = 0;

        while s < n
            invariant
                s <= n,
                n == b.len(),
                b == self.binary@,
                max == max_chunk_size as int,
                max_chunk_size >= MIN_CHUNK_SIZE,
                instructions_cover(b, s as int, n as int),
                chunks_from(b, 0, max) == bounds_as_ints(chunks@) + chunks_from(b, s as int, max),
            decreases n - s,
        {
            assert(ins_len_at(b, s as int) is Some);
            let tail = self.binary[s + 4];
            let l: usize = if tail == TERMINATOR {
                5
            } else {
                6
            };
            proof {
                assert(ins_len_at(b, s as int) == Some(l as int));
            }

            let mut e: usize = s + l - 1;
            let ghost e0 = e as int;
            loop
                invariant
                    s <= e < n,
                    n == b.len(),
                    b == self.binary@,
                    max == max_chunk_size as int,
                    instructions_cover(b, e as int + 1, n as int),
                    e as int + 1 - s <= max,
                    extend_chunk(b, s as int, e as int, max) == extend_chunk(b, s as int, e0, max),
                ensures
                    s <= e < n,
                    e as int == extend_chunk(b, s as int, e0, max),
                    instructions_cover(b, e as int + 1, n as int),
                    e as int + 1 - s <= max,
                decreases n - e,
            {
                if e + 1 == n {
                    proof {
                        assert(ins_len_at(b, e as int + 1) is None);
                    }
                    break ;
                }
                assert(ins_len_at(b, e as int + 1) is Some);
                let tail2 = self.binary[e + 5];
                let l2: usize = if tail2 == TERMINATOR {
                    5
                } else {
                    6
                };
                proof {
                    assert(ins_len_at(b, e as int + 1) == Some(l2 as int));
                }
                assert(e as int + 1 + l2 as int <= n as int);
                if e + l2 + 1 - s <= max_chunk_size {
                    e = e + l2;
                } else {
                    break ;
                }
            }

            chunks.push((s, e));
            proof {
                assert(chunks_from(b, s as int, max) == seq![(s as int, e as int)] + chunks_from(
                    b,
                    e as int + 1,
                    max,
                ));
                assert(bounds_as_ints(chunks@) =~= bounds_as_ints(chunks@.drop_last()).push(
                    (s as int, e as int),
                ));
                assert(chunks_from(b, 0, max) =~= bounds_as_ints(chunks@) + chunks_from(
                    b,
                    e as int + 1,
                    max,
                ));
            }
            s = e + 1;
        }

        proof {
            assert(chunks_from(b, s as int, max) =~= Seq::<(int, int)>::empty());
            assert(chunks_from(b, 0, max) =~= bounds_as_ints(chunks@));
        }
        Ok(chunks)
    }

    /// Decodes the whole stream to `(left, right, pen_up)` step triples,
    /// with the pen state latched across instructions and initially raised.
    /// A validated set always decodes.
    pub fn parse_to_numerical_steps(&self) -> (r: Result<
        Vec<(i16, i16, bool)>,
        InstructionError,
    >)
        ensures
            r matches Ok(v) && v@ == decoded_stream(self@),
    {
        proof {
            use_type_invariant(self);
        }
        let ghost b = self.binary@;
        let n = self.binary.len();
        let mut out: Vec<(i16, i16, bool)> = Vec::new();
        let mut pen = true;
        let mut i: usize = 0;

        while i < n
            invariant
                i <= n,
                n == b.len(),
                b == self.binary@,
                instructions_cover(b, i as int, n as int),
                decoded_stream(b) == out@ + decoded_from(b, i as int, pen),
            decreases n - i,
        {
            assert(ins_len_at(b, i as int) is Some);
            let tail = self.binary[i + 4];
            let l: usize = if tail == TERMINATOR {
                5
            } else {
                6
            };
            proof {
                assert(ins_len_at(b, i as int) == Some(l as int));
            }
            if l == 6 {
                pen = tail == PEN_UP;
            }
            let left = read_i16_be(self.binary.as_slice(), i);
            let right = read_i16_be(self.binary.as_slice(), i + 2);
            out.push((left, right, pen));
            proof {
                assert(decoded_stream(b) =~= out@ + decoded_from(b, i as int + l as int, pen));
            }
            i = i + l;
        }
        proof {
            assert(decoded_from(b, i as int, pen) =~= Seq::<(i16, i16, bool)>::empty());
            assert(out@ =~= decoded_stream(b));
        }
        Ok(out)
    }

    /// Borrows the raw instruction bytes.
    pub fn get_binary(&self) -> (r: &Vec<u8>)
        ensures
            r@ == self@,
            valid_stream(self@),
    {
        proof {
            use_type_invariant(self);
        }
        &self.binary
    }

    /// The initial pen position handed to the constructor, in micrometres.
    pub fn get_init(&self) -> (r: (i64, i64))
        ensures
            r == self.init_spec(),
    {
        (self.init_x_um, self.init_y_um)
    }
}

} // verus!
