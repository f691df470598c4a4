//! The step-level drawing surface: a stateful encoder that turns integer
//! motor-step samples into instruction bytes, can rewrite the pen op of the
//! last instruction, and can pop the last instruction back off.
//!
//! Step counts are taken in the wire convention: the caller hands in the
//! left and right deltas exactly as they are to be written, the right one
//! already sign-inverted for the motor orientation.

use crate::instruction::{
    decoded_from, decoded_stream, encoded_sample, i16_be, i16_be_bytes, ins_len_at, is_pen_op,
    instructions_cover, lemma_covers_append, lemma_covers_join, lemma_covers_same_prefix,
    lemma_covers_subrange,
    lemma_decoded_concat, lemma_i16_be_bytes_roundtrip, lemma_pen_after_concat, pen_after,
    read_i16_be, PEN_DOWN, PEN_UP, TERMINATOR,
};
use vstd::prelude::*;

verus! {

/// Errors of the drawing surface.
#[derive(Debug, Clone, Copy, PartialEq, Eq)]
pub enum SurfaceError {
    /// A sample asked for more steps on one motor than an instruction holds.
    StepOverflow,
    /// There was no instruction to pop.
    Empty,
}

/// The end of the instruction starting at `st[k]`: the next recorded start,
/// or the end of the byte buffer for the last instruction.
pub open spec fn start_bound(b: Seq<u8>, st: Seq<usize>, k: int) -> int {
    if k + 1 < st.len() {
        st[k + 1] as int
    } else {
        b.len() as int
    }
}

/// The starts in `st` carve `b` into complete instructions, back to back.
pub open spec fn surface_wf(b: Seq<u8>, st: Seq<usize>) -> bool {
    &&& (st.len() == 0 ==> b.len() == 0)
    &&& (st.len() > 0 ==> st[0] == 0)
    &&& forall|k: int|
        0 <= k < st.len() ==> ins_len_at(b, (#[trigger] st[k]) as int) == Some(
            start_bound(b, st, k) - st[k],
        )
}

/// Instructions recorded from the `k`-th start on partition the rest of
/// the buffer.
proof fn lemma_starts_cover_tail(b: Seq<u8>, st: Seq<usize>, k: int)
    requires
        surface_wf(b, st),
        0 <= k <= st.len(),
    ensures
        instructions_cover(
            b,
            if k < st.len() {
                st[k] as int
            } else {
                b.len() as int
            },
            b.len() as int,
        ),
    decreases st.len() - k,
{
    if k < st.len() {
        lemma_starts_cover_tail(b, st, k + 1);
    }
}

/// Instructions recorded before the `k`-th start partition the bytes up to
/// that start.
proof fn lemma_starts_cover_prefix(b: Seq<u8>, st: Seq<usize>, k: int)
    requires
        surface_wf(b, st),
        0 <= k < st.len(),
    ensures
        instructions_cover(b, 0, st[k] as int),
    decreases k,
{
    if k > 0 {
        lemma_starts_cover_prefix(b, st, k - 1);
        assert(start_bound(b, st, k - 1) == st[k] as int);
        assert(ins_len_at(b, st[k - 1] as int) == Some(st[k] - st[k - 1]));
        assert(instructions_cover(b, st[k] as int, st[k] as int));
        assert(instructions_cover(b, st[k - 1] as int, st[k] as int));
        lemma_covers_join(b, 0, st[k - 1] as int, st[k] as int);
    }
}

/// The recorded starts grow from one instruction to the next.
proof fn lemma_starts_le(b: Seq<u8>, st: Seq<usize>, i: int, j: int)
    requires
        surface_wf(b, st),
        0 <= i,
        i - 1 <= j,
        j < st.len(),
    ensures
        i <= j ==> st[i] as int <= st[j] as int,
    decreases j - i,
{
    if i < j {
        lemma_starts_le(b, st, i, j - 1);
        assert(ins_len_at(b, st[j - 1] as int) == Some(start_bound(b, st, j - 1) - st[j - 1]));
    }
}

/// Splitting off the last instruction of a well-formed buffer: the decoded
/// model is the prefix's model plus one triple, whose pen flag is also the
/// latch that the whole buffer leaves behind.
proof fn lemma_decode_with_last(b: Seq<u8>, s: int)
    requires
        0 <= s < b.len(),
        instructions_cover(b, 0, s),
        ins_len_at(b, s) == Some(b.len() - s),
    ensures
        ({
            let prefix = b.subrange(0, s);
            let p0 = pen_after(prefix, 0, true);
            let pl = if b.len() - s == 6 {
                b[s + 4] == PEN_UP
            } else {
                p0
            };
            &&& decoded_stream(b) == decoded_stream(prefix).push(
                (i16_be(b[s], b[s + 1]), i16_be(b[s + 2], b[s + 3]), pl),
            )
            &&& pen_after(b, 0, true) == pl
            &&& decoded_stream(b).len() == decoded_stream(prefix).len() + 1
        }),
{
    let prefix = b.subrange(0, s);
    let last = b.subrange(s, b.len() as int);
    lemma_covers_subrange(b, 0, s, 0);
    assert(b =~= prefix + last);
    lemma_decoded_concat(prefix, last, 0, true);
    lemma_pen_after_concat(prefix, last, 0, true);
    let p0 = pen_after(prefix, 0, true);
    let pl = if b.len() - s == 6 {
        b[s + 4] == PEN_UP
    } else {
        p0
    };
    assert(ins_len_at(b, b.len() as int) is None);
    assert(decoded_from(b, b.len() as int, pl) =~= Seq::<(i16, i16, bool)>::empty());
    assert(decoded_from(b, s, p0) =~= seq![(i16_be(b[s], b[s + 1]), i16_be(b[s + 2], b[s + 3]), pl)]);
    assert(pen_after(b, b.len() as int, pl) == pl);
    assert(pen_after(b, s, p0) == pl);
    assert(decoded_stream(b) =~= decoded_stream(prefix).push(
        (i16_be(b[s], b[s + 1]), i16_be(b[s + 2], b[s + 3]), pl),
    ));
}

/// A complete instruction is recognised by its own bytes alone: any
/// stream holding the same bytes over its extent yields the same length.
proof fn lemma_ins_len_same(b1: Seq<u8>, b2: Seq<u8>, i: int, l: int)
    requires
        ins_len_at(b1, i) == Some(l),
        i + l <= b2.len(),
        forall|j: int| i <= j < i + l ==> b1[j] == b2[j],
    ensures
        ins_len_at(b2, i) == Some(l),
{
    assert(l == 5 || l == 6);
}

/// Rewriting the last instruction in place (same start, any complete
/// form) keeps the buffer well formed.
proof fn lemma_wf_replace_last(old_b: Seq<u8>, b: Seq<u8>, st: Seq<usize>)
    requires
        surface_wf(old_b, st),
        st.len() > 0,
        st.last() < b.len(),
        forall|j: int| 0 <= j < st.last() ==> b[j] == old_b[j],
        ins_len_at(b, st.last() as int) == Some(b.len() - st.last()),
    ensures
        surface_wf(b, st),
{
    let s = st.last() as int;
    assert forall|k2: int|
        0 <= k2 < st.len() implies ins_len_at(b, (st[k2]) as int) == Some(
        start_bound(b, st, k2) - st[k2],
    ) by {
        if k2 < st.len() - 1 {
            lemma_starts_le(old_b, st, k2 + 1, st.len() - 1);
            assert(st[k2 + 1] as int <= s);
            assert(ins_len_at(old_b, st[k2] as int) == Some(start_bound(old_b, st, k2) - st[k2]));
            assert(start_bound(b, st, k2) == start_bound(old_b, st, k2));
            lemma_ins_len_same(old_b, b, st[k2] as int, start_bound(old_b, st, k2) - st[k2]);
        }
    }
}

/// Cutting the buffer back to the last recorded start and dropping that
/// start keeps the remainder well formed.
proof fn lemma_wf_drop_last(old_b: Seq<u8>, st: Seq<usize>)
    requires
        surface_wf(old_b, st),
        st.len() > 0,
    ensures
        surface_wf(old_b.subrange(0, st.last() as int), st.drop_last()),
{
    let s = st.last() as int;
    assert(ins_len_at(old_b, s) == Some(start_bound(old_b, st, st.len() - 1) - st.last()));
    assert(0 <= s <= old_b.len());
    let b = old_b.subrange(0, s);
    let st2 = st.drop_last();
    assert forall|k2: int|
        0 <= k2 < st2.len() implies ins_len_at(b, (st2[k2]) as int) == Some(
        start_bound(b, st2, k2) - st2[k2],
    ) by {
        lemma_starts_le(old_b, st, k2 + 1, st.len() - 1);
        assert(st2[k2] == st[k2]);
        assert(start_bound(b, st2, k2) == start_bound(old_b, st, k2));
        assert(ins_len_at(old_b, st[k2] as int) == Some(start_bound(old_b, st, k2) - st[k2]));
        lemma_ins_len_same(old_b, b, st[k2] as int, start_bound(old_b, st, k2) - st[k2]);
    }
}

/// Rewriting the pen op of the last instruction changes exactly the last
/// decoded triple's pen flag, and latches that flag.
proof fn lemma_raise_pen_model(old_b: Seq<u8>, b: Seq<u8>, s: int, raised: bool)
    requires
        0 <= s < old_b.len(),
        instructions_cover(old_b, 0, s),
        ins_len_at(old_b, s) == Some(old_b.len() - s),
        b.len() - s == 6,
        forall|j: int| 0 <= j < s + 4 ==> b[j] == old_b[j],
        b[s + 4] == (if raised {
            PEN_UP
        } else {
            PEN_DOWN
        }),
        b[s + 5] == TERMINATOR,
    ensures
        decoded_stream(old_b).len() > 0,
        decoded_stream(b) == decoded_stream(old_b).update(
            decoded_stream(old_b).len() - 1,
            (decoded_stream(old_b).last().0, decoded_stream(old_b).last().1, raised),
        ),
        pen_after(b, 0, true) == raised,
{
    lemma_covers_same_prefix(old_b, b, 0, s);
    assert(ins_len_at(b, s) == Some(6int)) by {
        assert(b[s + 4] != TERMINATOR);
        assert(is_pen_op(b[s + 4]));
    }
    lemma_decode_with_last(old_b, s);
    lemma_decode_with_last(b, s);
    let prefix_o = old_b.subrange(0, s);
    let prefix_n = b.subrange(0, s);
    assert(prefix_n =~= prefix_o);
    assert(b[s + 4] == PEN_UP <==> raised);
    assert(decoded_stream(b) =~= decoded_stream(old_b).update(
        decoded_stream(old_b).len() - 1,
        (decoded_stream(old_b).last().0, decoded_stream(old_b).last().1, raised),
    ));
}

/// Appends the big-endian bytes of `v`.
fn push_i16_be(out: &mut Vec<u8>, v: i16)
    ensures
        final(out)@ == old(out)@ + i16_be_bytes(v),
{
    let u: u32 = if v >= 0 {
        v as u32
    } else {
        (v as i32 + 0x10000) as u32
    };
    assert(u / 256 < 256) by (nonlinear_arith)
        requires
            u < 0x10000,
    ;
    out.push((u / 256) as u8);
    out.push((u % 256) as u8);
    proof {
        assert(out@ =~= old(out)@ + i16_be_bytes(v));
    }
}

/// Popping after a sample undoes it: the byte buffer is restored exactly,
/// and the decoded model loses exactly the appended triple, which carried
/// the step counts and the latched pen state.
pub proof fn lemma_pop_inverts_sample(b: Seq<u8>, left: i16, right: i16)
    requires
        instructions_cover(b, 0, b.len() as int),
    ensures
        ({
            let b2 = b + encoded_sample(left, right);
            &&& b2.subrange(0, b.len() as int) == b
            &&& decoded_stream(b2).drop_last() == decoded_stream(b)
            &&& decoded_stream(b2).last() == (left, right, pen_after(b, 0, true))
        }),
{
    let ext = encoded_sample(left, right);
    let b2 = b + ext;
    lemma_i16_be_bytes_roundtrip(left);
    lemma_i16_be_bytes_roundtrip(right);
    assert(b2.subrange(0, b.len() as int) =~= b);
    lemma_decoded_concat(b, ext, 0, true);
    let p0 = pen_after(b, 0, true);
    assert(ins_len_at(b2, b.len() as int) == Some(5int)) by {
        assert(b2[b.len() as int + 4] == TERMINATOR);
    }
    assert(ins_len_at(b2, b.len() as int + 5) is None);
    assert(decoded_from(b2, b.len() as int + 5, p0) =~= Seq::<(i16, i16, bool)>::empty());
    assert(b2[b.len() as int] == i16_be_bytes(left)[0]);
    assert(b2[b.len() as int + 1] == i16_be_bytes(left)[1]);
    assert(b2[b.len() as int + 2] == i16_be_bytes(right)[0]);
    assert(b2[b.len() as int + 3] == i16_be_bytes(right)[1]);
    assert(decoded_from(b2, b.len() as int, p0) =~= seq![(left, right, p0)]);
    assert(decoded_stream(b2) =~= decoded_stream(b).push((left, right, p0)));
    assert(decoded_stream(b2).drop_last() =~= decoded_stream(b));
}

/// The byte stream that encodes a sequence of plain samples, in order.
pub open spec fn encoded_samples(samples: Seq<(i16, i16)>) -> Seq<u8>
    decreases samples.len(),
{
    if samples.len() == 0 {
        Seq::empty()
    } else {
        encoded_samples(samples.drop_last()) + encoded_sample(
            samples.last().0,
            samples.last().1,
        )
    }
}

/// The encode/decode round trip: any sequence of plain samples, encoded
/// back to back, is a stream that instructions partition, and decoding it
/// returns exactly those samples, each carrying the initial raised pen.
pub proof fn lemma_samples_roundtrip(samples: Seq<(i16, i16)>)
    ensures
        instructions_cover(encoded_samples(samples), 0, encoded_samples(samples).len() as int),
        decoded_stream(encoded_samples(samples)) == samples.map(
            |k: int, p: (i16, i16)| (p.0, p.1, true),
        ),
    decreases samples.len(),
{
    let b = encoded_samples(samples);
    let mapped = samples.map(|k: int, p: (i16, i16)| (p.0, p.1, true));
    if samples.len() == 0 {
        assert(decoded_stream(b) =~= mapped);
    } else {
        let init = samples.drop_last();
        let (left, right) = samples.last();
        let b0 = encoded_samples(init);
        lemma_samples_roundtrip(init);
        lemma_pop_inverts_sample(b0, left, right);

        // the latch after plain samples is still the initial raised pen
        crate::instruction::lemma_pen_after_is_last(b0, 0, true);
        let init_mapped = init.map(|k: int, p: (i16, i16)| (p.0, p.1, true));
        if init.len() > 0 {
            assert(decoded_stream(b0).last() == init_mapped.last());
            assert(init_mapped.last().2 == true);
        }
        assert(pen_after(b0, 0, true) == true);
        assert(decoded_stream(b) =~= decoded_stream(b0).push((left, right, true)));
        assert(decoded_stream(b) =~= mapped);

        // the appended instruction extends the partition to the new end
        lemma_covers_append(b0, encoded_sample(left, right), 0);
        assert(ins_len_at(b, b0.len() as int) == Some(5int)) by {
            assert(b[b0.len() as int + 4] == TERMINATOR);
        }
        assert(b.len() == b0.len() + 5);
        assert(instructions_cover(b, b.len() as int, b.len() as int));
        assert(instructions_cover(b, b0.len() as int, b.len() as int));
        lemma_covers_join(b, 0, b0.len() as int, b.len() as int);
    }
}

/// A per-drawing surface addressed in motor steps: owns the instruction
/// bytes built so far and the start offset of each instruction.
pub struct StepSurface {
    ins: Vec<u8>,
    starts: Vec<usize>,
}

impl View for StepSurface {
    type V = Seq<u8>;

    closed spec fn view(&self) -> Seq<u8> {
        self.ins@
    }
}

impl StepSurface {
    /// Well-formedness: the recorded starts carve the byte buffer into
    /// complete instructions. Constructors establish it and every method
    /// preserves it.
    pub closed spec fn wf(&self) -> bool {
        surface_wf(self.ins@, self.starts@)
    }

    /// The decoded model of the surface: one `(left, right, pen_up)` triple
    /// per encoded instruction.
    pub open spec fn steps(&self) -> Seq<(i16, i16, bool)> {
        decoded_stream(self@)
    }

    /// The pen state latched by the bytes encoded so far.
    pub open spec fn latch(&self) -> bool {
        pen_after(self@, 0, true)
    }

    /// Whether the last encoded instruction already carries a pen op.
    pub closed spec fn last_has_pen_op(&self) -> bool {
        self.ins@.len() - self.starts@.last() == 6
    }

    /// Encodes one sample as a 5-byte instruction: the two step counts,
    /// big-endian and in the wire convention, then the terminator. A step
    /// count beyond what an `i16` holds is refused, and the surface stands
    /// unchanged. The new instruction inherits the latched pen state.
    pub fn sample_steps(&mut self, left_steps: i64, right_steps: i64) -> (r: Result<
        (),
        SurfaceError,
    >)
        requires
            old(self).wf(),
        ensures
            final(self).wf(),
            (left_steps > 0x7FFF || left_steps < -0x7FFF || right_steps > 0x7FFF || right_steps
                < -0x7FFF) ==> r == Err::<(), _>(SurfaceError::StepOverflow) && *final(self)
                == *old(self),
            (-0x7FFF <= left_steps <= 0x7FFF && -0x7FFF <= right_steps <= 0x7FFF) ==> {
                &&& r == Ok::<_, SurfaceError>(())
                &&& final(self)@ == old(self)@ + encoded_sample(
                    left_steps as i16,
                    right_steps as i16,
                )
                &&& final(self).steps() == old(self).steps().push(
                    (left_steps as i16, right_steps as i16, old(self).latch()),
                )
                &&& final(self).latch() == old(self).latch()
                &&& !final(self).last_has_pen_op()
            },
    {
        if left_steps > 0x7FFF || left_steps < -0x7FFF || right_steps > 0x7FFF || right_steps
            < -0x7FFF {
            return Err(SurfaceError::StepOverflow);
        }
        let left = left_steps as i16;
        let right = right_steps as i16;

        let ghost old_b = self.ins@;
        let ghost old_st = self.starts@;
        let ghost ext = encoded_sample(left, right);

        let start = self.ins.len();
        self.starts.push(start);
        push_i16_be(&mut self.ins, left);
        push_i16_be(&mut self.ins, right);
        self.ins.push(TERMINATOR);

        proof {
            let b = self.ins@;
            let st = self.starts@;
            assert(b =~= old_b + ext);

            // the buffer before this call was a whole number of instructions
            lemma_starts_cover_tail(old_b, old_st, 0);
            if old_st.len() > 0 {
                lemma_starts_cover_prefix(old_b, old_st, 0);
            }
            assert(instructions_cover(old_b, 0, old_b.len() as int));

            // the appended bytes are one complete 5-byte instruction
            assert(b[start as int + 4] == TERMINATOR);
            assert(ins_len_at(b, start as int) == Some(5int));

            // the starts still carve the buffer into instructions
            assert forall|k: int|
                0 <= k < st.len() implies ins_len_at(b, (st[k]) as int) == Some(
                start_bound(b, st, k) - st[k],
            ) by {
                if k < st.len() - 1 {
                    assert(st[k] == old_st[k]);
                    assert(ins_len_at(old_b, st[k] as int) == Some(
                        start_bound(old_b, old_st, k) - st[k],
                    ));
                    assert(start_bound(b, st, k) == start_bound(old_b, old_st, k));
                }
            }
            assert(surface_wf(b, st));

            // the decoded model grows by exactly this sample
            lemma_decoded_concat(old_b, ext, 0, true);
            lemma_pen_after_concat(old_b, ext, 0, true);
            let p0 = pen_after(old_b, 0, true);
            lemma_i16_be_bytes_roundtrip(left);
            lemma_i16_be_bytes_roundtrip(right);
            assert(i16_be(b[start as int], b[start as int + 1]) == left);
            assert(i16_be(b[start as int + 2], b[start as int + 3]) == right);
            assert(ins_len_at(b, start as int + 5) is None);
            assert(decoded_from(b, start as int + 5, p0) =~= Seq::<(i16, i16, bool)>::empty());
            assert(pen_after(b, start as int + 5, p0) == p0);
            assert(decoded_from(b, start as int, p0) =~= seq![(left, right, p0)]);
            assert(self.steps() =~= decoded_stream(old_b).push((left, right, p0)));
            assert(pen_after(b, start as int, p0) == p0);
        }
        Ok(())
    }

    /// Sets the pen op of the last encoded instruction: raise on `true`,
    /// lower on `false`. A 5-byte instruction gains the op byte before its
    /// terminator; an instruction that already carries one has it
    /// overwritten. With no instruction encoded yet the call is a no-op:
    /// the pen op always rides on an instruction.
    #[verifier::rlimit(100)]
    #[verifier::spinoff_prover]
    pub fn raise_pen(&mut self, raised: bool)
        requires
            old(self).wf(),
        ensures
            final(self).wf(),
            old(self)@.len() == 0 ==> *final(self) == *old(self),
            old(self)@.len() > 0 ==> {
                let op = if raised {
                    PEN_UP
                } else {
                    PEN_DOWN
                };
                let n = old(self)@.len() as int;
                let last = old(self).steps().last();
                &&& (!old(self).last_has_pen_op() ==> final(self)@ == old(self)@.subrange(0, n - 1)
                    + seq![op, TERMINATOR])
                &&& (old(self).last_has_pen_op() ==> final(self)@ == old(self)@.update(n - 2, op))
                &&& final(self).steps() == old(self).steps().update(
                    old(self).steps().len() - 1,
                    (last.0, last.1, raised),
                )
                &&& final(self).latch() == raised
                &&& final(self).last_has_pen_op()
            },
    {
        let k = self.starts.len();
        if k == 0 {
            proof {
                assert(self@.len() == 0);
            }
            return ;
        }
        let s = self.starts[k - 1];
        let n = self.ins.len();
        let op = if raised {
            PEN_UP
        } else {
            PEN_DOWN
        };

        let ghost old_b = self.ins@;
        let ghost st = self.starts@;
        proof {
            assert(ins_len_at(old_b, s as int) == Some(start_bound(old_b, st, k - 1) - s));
            assert(n - s == 5 || n - s == 6);
            lemma_starts_cover_prefix(old_b, st, k - 1);
        }

        if n - s == 5 {
            let _ = self.ins.pop();
            self.ins.push(op);
            self.ins.push(TERMINATOR);
        } else {
            self.ins.set(n - 2, op);
        }

        proof {
            let b = self.ins@;
            assert(b.len() - s == 6);
            assert(forall|j: int| 0 <= j < s + 4 ==> b[j] == old_b[j]);
            assert(b[s as int + 4] == op);
            assert(b[s as int + 5] == TERMINATOR);
            assert(ins_len_at(b, s as int) == Some(b.len() - s)) by {
                assert(b[s as int + 4] != TERMINATOR);
            }
            lemma_wf_replace_last(old_b, b, st);
            lemma_raise_pen_model(old_b, b, s as int, raised);
            if n - s == 5 {
                assert(b =~= old_b.subrange(0, n as int - 1) + seq![op, TERMINATOR]);
            } else {
                assert(b =~= old_b.update(n as int - 2, op));
            }
        }
    }

    /// Removes the last encoded instruction, 5 or 6 bytes, and returns its
    /// step counts so the caller can reverse its belt accumulator. Popping
    /// an empty surface fails.
    #[verifier::rlimit(80)]
    pub fn pop_sample(&mut self) -> (r: Result<(i16, i16), SurfaceError>)
        requires
            old(self).wf(),
        ensures
            final(self).wf(),
            old(self)@.len() == 0 ==> r == Err::<(i16, i16), _>(SurfaceError::Empty)
                && *final(self) == *old(self),
            old(self)@.len() > 0 ==> {
                let last = old(self).steps().last();
                &&& r == Ok::<_, SurfaceError>((last.0, last.1))
                &&& final(self)@ == old(self)@.subrange(
                    0,
                    old(self)@.len() - (if old(self).last_has_pen_op() {
                        6int
                    } else {
                        5int
                    }),
                )
                &&& final(self).steps() == old(self).steps().drop_last()
            },
    {
        let k = self.starts.len();
        if k == 0 {
            proof {
                assert(self@.len() == 0);
            }
            return Err(SurfaceError::Empty);
        }
        let s = self.starts[k - 1];
        let n = self.ins.len();

        let ghost old_b = self.ins@;
        let ghost old_st = self.starts@;
        proof {
            assert(ins_len_at(old_b, s as int) == Some(start_bound(old_b, old_st, k - 1) - s));
            assert(n - s == 5 || n - s == 6);
            lemma_starts_cover_prefix(old_b, old_st, k - 1);
            lemma_decode_with_last(old_b, s as int);
        }

        let left = read_i16_be(self.ins.as_slice(), s);
        let right = read_i16_be(self.ins.as_slice(), s + 2);
        self.ins.truncate(s);
        let _ = self.starts.pop();

        proof {
            let b = self.ins@;
            let prefix = old_b.subrange(0, s as int);
            assert(b =~= prefix);
            assert(self.starts@ =~= old_st.drop_last());
            lemma_wf_drop_last(old_b, old_st);
            assert(self.steps() =~= old(self).steps().drop_last());
        }
        Ok((left, right))
    }

    /// A fresh surface with no instructions.
    pub fn new() -> (s: StepSurface)
        ensures
            s.wf(),
            s@ == Seq::<u8>::empty(),
            s.steps() == Seq::<(i16, i16, bool)>::empty(),
            s.latch() == true,
    {
        let s = StepSurface { ins: Vec::new(), starts: Vec::new() };
        proof {
            assert(s.steps() =~= Seq::<(i16, i16, bool)>::empty());
        }
        s
    }

    /// Borrows the instruction bytes accumulated so far; they are always a
    /// whole number of complete instructions.
    pub fn current_ins(&self) -> (r: &Vec<u8>)
        requires
            self.wf(),
        ensures
            r@ == self@,
            instructions_cover(self@, 0, self@.len() as int),
    {
        proof {
            lemma_starts_cover_tail(self@, self.starts@, 0);
        }
        &self.ins
    }

    /// Hands the accumulated instruction bytes out, consuming the surface.
    pub fn into_bytes(self) -> (r: Vec<u8>)
        requires
            self.wf(),
        ensures
            r@ == self@,
            instructions_cover(self@, 0, self@.len() as int),
    {
        proof {
            lemma_starts_cover_tail(self@, self.starts@, 0);
        }
        let StepSurface { ins, starts: _ } = self;
        ins
    }
}

} // verus!
