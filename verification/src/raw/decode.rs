//! One-shot decoding of raw LZVN streams.

use crate::error::{Error, Result};
use crate::raw::opcode::{classify, opcode_kind, OpcodeKind};
use crate::raw::semantics::{
    decode_exact_spec, decode_spec, expand, finish, initial_state, lemma_expand, lemma_run_step, lemma_step_advances,
    literal_and_match, literal_only, match_only, run, step, DecodeState, Step, MAX_EOS_PADDING,
};
use vstd::prelude::*;

verus! {

/// Bytes of `new` outside `[base, base + len)` are those of `old`, and the
/// two have the same length.
pub open spec fn unchanged_outside(old: Seq<u8>, new: Seq<u8>, base: int, len: int) -> bool {
    &&& new.len() == old.len()
    &&& forall|i: int| 0 <= i < old.len() && !(base <= i < base + len) ==> #[trigger] new[i] == old[i]
}

/// Decode a raw LZVN stream into a newly allocated buffer.
///
/// The result is the stream's decoded bytes when they number exactly
/// `decoded_len`; a stream that decodes to fewer bytes is a size mismatch,
/// and one that needs more room is reported as `OutputTooSmall`.
pub fn decode(src: &[u8], decoded_len: usize) -> (r: Result<Vec<u8>>)
    ensures
        match decode_exact_spec(src@, decoded_len as nat) {
            Ok(out) => r matches Ok(v) && v@ == out,
            Err(e) => r == Err::<Vec<u8>, Error>(e),
        },
{
    let mut dst = vec![0u8; decoded_len];
    let written = match decode_into(src, dst.as_mut_slice()) {
        Ok(w) => w,
        Err(e) => return Err(e),
    };
    if written != decoded_len {
        return Err(Error::SizeMismatch { expected: decoded_len, actual: written });
    }
    proof {
        assert(dst@.subrange(0, written as int) =~= dst@);
    }
    Ok(dst)
}

/// Decode a raw LZVN stream into an existing output buffer.
///
/// The function expects the full raw stream, including its end marker. The
/// decoder accepts both a compact single-byte `0x06` end marker and the padded
/// 8-byte form emitted by Apple-compatible encoders.
/// It returns the number of bytes written before the marker; the bytes of
/// `dst` after them keep their values.
pub fn decode_into(src: &[u8], dst: &mut [u8]) -> (r: Result<usize>)
    ensures
        unchanged_outside(old(dst)@, final(dst)@, 0, old(dst)@.len() as int),
        match decode_spec(src@, old(dst)@.len() as nat) {
            Ok(out) => r == Ok::<usize, Error>(out.len() as usize) && out.len() <= old(dst)@.len()
                && final(dst)@.subrange(0, out.len() as int) == out
                && unchanged_outside(old(dst)@, final(dst)@, 0, out.len() as int),
            Err(e) => r == Err::<usize, Error>(e),
        },
{
    let cap = dst.len();
    decode_window(src, dst, 0, cap)
}

/// Decode a raw LZVN stream into `dst[base..base + cap]`, leaving the rest of
/// `dst` alone. Error values count positions inside that window.
pub fn decode_window(src: &[u8], dst: &mut [u8], base: usize, cap: usize) -> (r: Result<usize>)
    requires
        base + cap <= old(dst)@.len(),
    ensures
        unchanged_outside(old(dst)@, final(dst)@, base as int, cap as int),
        match decode_spec(src@, cap as nat) {
            Ok(out) => r == Ok::<usize, Error>(out.len() as usize) && out.len() <= cap
                && final(dst)@.subrange(base as int, base + out.len()) == out
                && unchanged_outside(old(dst)@, final(dst)@, base as int, out.len() as int),
            Err(e) => r == Err::<usize, Error>(e),
        },
{
    let src_len = src.len();
    let dst_len = dst.len();
    let mut decoder = Decoder { base, cap, input: 0, output: 0, previous_distance: 0 };
    proof {
        assert(decoder.state(src@, dst@) == initial_state()) by {
            assert(dst@.subrange(base as int, base as int) =~= Seq::<u8>::empty());
        }
    }
    let r = decoder.run(src, dst);
    match r {
        Ok(()) => Ok(decoder.output),
        Err(e) => Err(e),
    }
}

/// The position of a one-shot decoder inside its input and output window.
struct Decoder {
    base: usize,
    cap: usize,
    input: usize,
    output: usize,
    previous_distance: usize,
}

impl Decoder {
    /// The decoder state that this position stands for.
    spec fn state(&self, src: Seq<u8>, dst: Seq<u8>) -> DecodeState {
        DecodeState {
            pos: self.input as nat,
            out: dst.subrange(self.base as int, self.base + self.output),
            prev: self.previous_distance as nat,
        }
    }

    spec fn inv(&self, src: Seq<u8>, dst: Seq<u8>) -> bool {
        &&& self.base + self.cap <= dst.len()
        &&& self.output <= self.cap
        &&& self.input <= src.len()
        &&& src.len() <= usize::MAX
        &&& dst.len() <= usize::MAX
    }

    /// `new` differs from `old` only inside the decoded part of the window.
    spec fn frame(&self, old: Seq<u8>, new: Seq<u8>) -> bool {
        unchanged_outside(old, new, self.base as int, self.output as int)
    }

    #[verifier::rlimit(40)]
    fn run(&mut self, src: &[u8], dst: &mut [u8]) -> (r: Result<()>)
        requires
            old(self).inv(src@, old(dst)@),
            old(self).output == 0,
        ensures
            final(self).inv(src@, final(dst)@),
            final(self).base == old(self).base,
            final(self).cap == old(self).cap,
            unchanged_outside(
                old(dst)@,
                final(dst)@,
                old(self).base as int,
                old(self).cap as int,
            ),
            match run(src@, old(self).cap as nat, old(self).state(src@, old(dst)@)) {
                Ok(out) => r is Ok && final(self).state(src@, final(dst)@).out == out
                    && final(self).frame(old(dst)@, final(dst)@) && final(self).input == src@.len(),
                Err(e) => r == Err::<(), Error>(e),
            },
    {
        let ghost dst0 = dst@;
        let ghost cap = self.cap as nat;
        let ghost start = self.state(src@, dst@);
        loop
            invariant
                self.inv(src@, dst@),
                self.base == old(self).base,
                self.cap == old(self).cap,
                cap == self.cap,
                self.frame(dst0, dst@),
                dst0 == old(dst)@,
                start == old(self).state(src@, old(dst)@),
                run(src@, cap, start) == run(src@, cap, self.state(src@, dst@)),
            decreases src@.len() - self.input,
        {
            let ghost cur = self.state(src@, dst@);
            proof {
                if self.input < src@.len() {
                    lemma_run_step(src@, cap, cur);
                    lemma_step_advances(src@, cap, cur);
                }
            }
            let opcode = match self.byte_at(src, self.input) {
                Ok(b) => b,
                Err(e) => return Err(e),
            };
            let kind = match classify(opcode) {
                Some(k) => k,
                None => {
                    return Err(Error::InvalidOpcode { position: self.input, opcode });
                },
            };
            if kind == OpcodeKind::Eos {
                let finished = self.finish(src);
                proof {
                    assert(self.state(src@, dst@).out == cur.out);
                }
                return finished;
            }
            let stepped = self.execute(src, dst, opcode, kind);
            match stepped {
                Ok(()) => {},
                Err(e) => return Err(e),
            }
        }
    }

    /// Executes one instruction other than the end marker.
    fn execute(&mut self, src: &[u8], dst: &mut [u8], opcode: u8, kind: OpcodeKind) -> (r: Result<()>)
        requires
            old(self).inv(src@, old(dst)@),
            old(self).input < src@.len(),
            opcode == src@[old(self).input as int],
            opcode_kind(opcode) == Some(kind),
            kind != OpcodeKind::Eos,
        ensures
            final(self).inv(src@, final(dst)@),
            final(self).base == old(self).base,
            final(self).cap == old(self).cap,
            unchanged_outside(
                old(dst)@,
                final(dst)@,
                old(self).base + old(self).output,
                final(self).output - old(self).output,
            ),
            final(self).output >= old(self).output,
            match step(src@, old(self).cap as nat, old(self).state(src@, old(dst)@)) {
                Step::Next(next) => r is Ok && final(self).state(src@, final(dst)@) == next,
                Step::Stop(Err(e)) => r == Err::<(), Error>(e),
                Step::Stop(Ok(_)) => false,
            },
    {
    match kind {
            OpcodeKind::SmallDistance => {
                match self.require_input(src, 2) {
                    Ok(()) => {},
                    Err(e) => return Err(e),
                }
                let literal_len = (opcode / 64) as usize;
                let match_len = ((opcode / 8) % 8) as usize + 3;
                let distance = ((opcode % 8) as usize) * 256 + src[self.input + 1] as usize;
                self.copy_literal_and_match(src, dst, 2, literal_len, match_len, distance)
            },
            OpcodeKind::MediumDistance => {
                match self.require_input(src, 3) {
                    Ok(()) => {},
                    Err(e) => return Err(e),
                }
                let second = src[self.input + 1];
                let third = src[self.input + 2];
                let literal_len = ((opcode / 8) % 4) as usize;
                let match_len = ((opcode % 8) as usize) * 4 + (second % 4) as usize + 3;
                let distance = (second / 4) as usize + (third as usize) * 64;
                self.copy_literal_and_match(src, dst, 3, literal_len, match_len, distance)
            },
            OpcodeKind::LargeDistance => {
                match self.require_input(src, 3) {
                    Ok(()) => {},
                    Err(e) => return Err(e),
                }
                let literal_len = (opcode / 64) as usize;
                let match_len = ((opcode / 8) % 8) as usize + 3;
                let distance = src[self.input + 1] as usize + (src[self.input + 2] as usize)
                    * 256;
                self.copy_literal_and_match(src, dst, 3, literal_len, match_len, distance)
            },
            OpcodeKind::PreviousDistance => {
                let literal_len = (opcode / 64) as usize;
                let match_len = ((opcode / 8) % 8) as usize + 3;
                let distance = self.previous_distance;
                self.copy_literal_and_match(src, dst, 1, literal_len, match_len, distance)
            },
            OpcodeKind::SmallLiteral => {
                let literal_len = (opcode % 16) as usize;
                self.copy_literal_only(src, dst, 1, literal_len)
            },
            OpcodeKind::LargeLiteral => {
                match self.require_input(src, 2) {
                    Ok(()) => {},
                    Err(e) => return Err(e),
                }
                let literal_len = src[self.input + 1] as usize + 16;
                self.copy_literal_only(src, dst, 2, literal_len)
            },
            OpcodeKind::SmallMatch => {
                let match_len = (opcode % 16) as usize;
                self.copy_match_only(src, dst, 1, match_len)
            },
            OpcodeKind::LargeMatch => {
                match self.require_input(src, 2) {
                    Ok(()) => {},
                    Err(e) => return Err(e),
                }
                let match_len = src[self.input + 1] as usize + 16;
                self.copy_match_only(src, dst, 2, match_len)
            },
            OpcodeKind::Nop => {
                match self.require_input(src, 1) {
                    Ok(()) => {},
                    Err(e) => return Err(e),
                }
                self.input = self.input + 1;
                Ok(())
            },
            OpcodeKind::Eos => Ok(()),
    }
    }

    fn byte_at(&self, src: &[u8], position: usize) -> (r: Result<u8>)
        ensures
            position < src@.len() ==> r == Ok::<u8, Error>(src@[position as int]),
            position >= src@.len() ==> r == Err::<u8, Error>(Error::TruncatedInput { position }),
    {
        if position < src.len() {
            Ok(src[position])
        } else {
            Err(Error::TruncatedInput { position })
        }
    }

    fn require_input(&self, src: &[u8], needed: usize) -> (r: Result<()>)
        requires
            self.input <= src@.len(),
        ensures
            r is Ok <==> self.input + needed <= src@.len(),
            r is Err ==> r == Err::<(), Error>(Error::TruncatedInput { position: self.input }),
    {
        if src.len().saturating_sub(self.input) < needed {
            return Err(Error::TruncatedInput { position: self.input });
        }
        Ok(())
    }

    fn require_output(&self, needed: usize) -> (r: Result<()>)
        requires
            self.output <= self.cap,
        ensures
            r is Ok <==> self.output + needed <= self.cap,
            r is Err ==> r == Err::<(), Error>(
                Error::OutputTooSmall { written: self.output, capacity: self.cap },
            ),
    {
        if self.cap.saturating_sub(self.output) < needed {
            return Err(Error::OutputTooSmall { written: self.output, capacity: self.cap });
        }
        Ok(())
    }

    fn validate_distance(&self, distance: usize, available: usize) -> (r: Result<()>)
        ensures
            r is Ok <==> !(distance == 0 || distance > available),
            r is Err ==> r == Err::<(), Error>(Error::InvalidMatchDistance { distance, available }),
    {
        if distance == 0 || distance > available {
            return Err(Error::InvalidMatchDistance { distance, available });
        }
        Ok(())
    }

    /// Copies `literal_len` bytes of `src` after the opcode to the output.
    fn copy_literals(&mut self, src: &[u8], dst: &mut [u8], start: usize, literal_len: usize)
        requires
            old(self).inv(src@, old(dst)@),
            start + literal_len <= src@.len(),
            old(self).output + literal_len <= old(self).cap,
        ensures
            final(self).inv(src@, final(dst)@),
            final(self).base == old(self).base,
            final(self).cap == old(self).cap,
            final(self).input == old(self).input,
            final(self).previous_distance == old(self).previous_distance,
            final(self).output == old(self).output + literal_len,
            final(self).state(src@, final(dst)@).out == old(self).state(src@, old(dst)@).out
                + src@.subrange(start as int, start + literal_len),
            unchanged_outside(
                old(dst)@,
                final(dst)@,
                old(self).base + old(self).output,
                literal_len as int,
            ),
    {
        let ghost dst0 = dst@;
        let ghost out0 = self.state(src@, dst@).out;
        let base = self.base;
        let output = self.output;
        let mut index: usize = 0;
        while index < literal_len
            invariant
                index <= literal_len,
                self == old(self),
                self.inv(src@, dst@),
                dst0 == old(dst)@,
                start + literal_len <= src@.len(),
                base == self.base,
                output == self.output,
                output + literal_len <= self.cap,
                out0 == dst0.subrange(base as int, base + output),
                unchanged_outside(dst0, dst@, base + output, index as int),
                forall|k: int|
                    0 <= k < index ==> #[trigger] dst@[base + output + k] == src@[start + k],
            decreases literal_len - index,
        {
            dst[base + output + index] = src[start + index];
            index = index + 1;
        }
        self.output = output + literal_len;
        proof {
            let lits = src@.subrange(start as int, start + literal_len);
            assert forall|i: int| 0 <= i < output + literal_len implies dst@.subrange(
                base as int,
                base + output + literal_len,
            )[i] == (out0 + lits)[i] by {
                if i < output {
                    assert(dst@[base + i] == dst0[base + i]);
                } else {
                    let k = i - output;
                    assert(dst@[base + output + k] == src@[start + k]);
                }
            }
            assert(self.state(src@, dst@).out =~= out0 + lits);
        }
    }

    fn copy_literal_only(&mut self, src: &[u8], dst: &mut [u8], opcode_len: usize, literal_len: usize) -> (r: Result<()>)
        requires
            old(self).inv(src@, old(dst)@),
            opcode_len <= 2,
            literal_len <= 271,
            old(self).input < src@.len(),
        ensures
            final(self).inv(src@, final(dst)@),
            final(self).base == old(self).base,
            final(self).cap == old(self).cap,
            unchanged_outside(
                old(dst)@,
                final(dst)@,
                old(self).base + old(self).output,
                final(self).output - old(self).output,
            ),
            final(self).output >= old(self).output,
            match literal_only(
                src@,
                old(self).cap as nat,
                old(self).state(src@, old(dst)@),
                opcode_len as nat,
                literal_len as nat,
            ) {
                Step::Next(next) => r is Ok && final(self).state(src@, final(dst)@) == next,
                Step::Stop(Err(e)) => r == Err::<(), Error>(e),
                Step::Stop(Ok(_)) => false,
            },
    {
        match self.require_input(src, opcode_len + literal_len) {
            Ok(()) => {},
            Err(e) => return Err(e),
        }
        match self.require_output(literal_len) {
            Ok(()) => {},
            Err(e) => return Err(e),
        }
        let literal_start = self.input + opcode_len;
        let literal_end = literal_start + literal_len;
        self.copy_literals(src, dst, literal_start, literal_len);
        self.input = literal_end;
        Ok(())
    }

    fn copy_match_only(&mut self, src: &[u8], dst: &mut [u8], opcode_len: usize, match_len: usize) -> (r: Result<()>)
        requires
            old(self).inv(src@, old(dst)@),
            opcode_len <= 2,
            match_len <= 271,
            old(self).input < src@.len(),
        ensures
            final(self).inv(src@, final(dst)@),
            final(self).base == old(self).base,
            final(self).cap == old(self).cap,
            unchanged_outside(
                old(dst)@,
                final(dst)@,
                old(self).base + old(self).output,
                final(self).output - old(self).output,
            ),
            final(self).output >= old(self).output,
            match match_only(
                src@,
                old(self).cap as nat,
                old(self).state(src@, old(dst)@),
                opcode_len as nat,
                match_len as nat,
            ) {
                Step::Next(next) => r is Ok && final(self).state(src@, final(dst)@) == next,
                Step::Stop(Err(e)) => r == Err::<(), Error>(e),
                Step::Stop(Ok(_)) => false,
            },
    {
        match self.require_input(src, opcode_len) {
            Ok(()) => {},
            Err(e) => return Err(e),
        }
        match self.require_output(match_len) {
            Ok(()) => {},
            Err(e) => return Err(e),
        }
        let distance = self.previous_distance;
        match self.validate_distance(distance, self.output) {
            Ok(()) => {},
            Err(e) => return Err(e),
        }
        self.input = self.input + opcode_len;
        self.perform_match(dst, match_len, distance);
        Ok(())
    }

    fn copy_literal_and_match(
        &mut self,
        src: &[u8],
        dst: &mut [u8],
        opcode_len: usize,
        literal_len: usize,
        match_len: usize,
        distance: usize,
    ) -> (r: Result<()>)
        requires
            old(self).inv(src@, old(dst)@),
            opcode_len <= 3,
            literal_len <= 3,
            match_len <= 34,
            old(self).input < src@.len(),
        ensures
            final(self).inv(src@, final(dst)@),
            final(self).base == old(self).base,
            final(self).cap == old(self).cap,
            unchanged_outside(
                old(dst)@,
                final(dst)@,
                old(self).base + old(self).output,
                final(self).output - old(self).output,
            ),
            final(self).output >= old(self).output,
            match literal_and_match(
                src@,
                old(self).cap as nat,
                old(self).state(src@, old(dst)@),
                opcode_len as nat,
                literal_len as nat,
                match_len as nat,
                distance as nat,
            ) {
                Step::Next(next) => r is Ok && final(self).state(src@, final(dst)@) == next,
                Step::Stop(Err(e)) => r == Err::<(), Error>(e),
                Step::Stop(Ok(_)) => false,
            },
    {
        match self.require_input(src, opcode_len + literal_len) {
            Ok(()) => {},
            Err(e) => return Err(e),
        }
        match self.require_output(literal_len + match_len) {
            Ok(()) => {},
            Err(e) => return Err(e),
        }
        match self.validate_distance(distance, self.output + literal_len) {
            Ok(()) => {},
            Err(e) => return Err(e),
        }
        let literal_start = self.input + opcode_len;
        let literal_end = literal_start + literal_len;
        self.copy_literals(src, dst, literal_start, literal_len);
        self.input = literal_end;
        self.perform_match(dst, match_len, distance);
        Ok(())
    }

    fn perform_match(&mut self, dst: &mut [u8], match_len: usize, distance: usize)
        requires
            old(self).base + old(self).cap <= old(dst)@.len(),
            old(dst)@.len() <= usize::MAX,
            old(self).output + match_len <= old(self).cap,
            0 < distance <= old(self).output,
        ensures
            final(self).base == old(self).base,
            final(self).cap == old(self).cap,
            final(self).input == old(self).input,
            final(self).output == old(self).output + match_len,
            final(self).previous_distance == distance,
            final(dst)@.subrange(final(self).base as int, final(self).base + final(self).output)
                == expand(
                old(dst)@.subrange(old(self).base as int, old(self).base + old(self).output),
                distance as nat,
                match_len as nat,
            ),
            unchanged_outside(
                old(dst)@,
                final(dst)@,
                old(self).base + old(self).output,
                match_len as int,
            ),
    {
        let ghost dst0 = dst@;
        let base = self.base;
        let start = self.output;
        let ghost out0 = dst0.subrange(base as int, base + start);
        let mut index: usize = 0;
        while index < match_len
            invariant
                index <= match_len,
                self == old(self),
                base == self.base,
                start == self.output,
                base + self.cap <= dst@.len(),
                dst@.len() <= usize::MAX,
                start + match_len <= self.cap,
                0 < distance <= start,
                out0 == dst0.subrange(base as int, base + start),
                unchanged_outside(dst0, dst@, base + start, index as int),
                dst@.subrange(base as int, base + start + index) == expand(
                    out0,
                    distance as nat,
                    index as nat,
                ),
            decreases match_len - index,
        {
            proof {
                lemma_expand(out0, distance as nat, index as nat);
            }
            let byte = dst[base + start + index - distance];
            let ghost before = dst@;
            dst[base + start + index] = byte;
            proof {
                let e = expand(out0, distance as nat, index as nat);
                assert(before.subrange(base as int, base + start + index) == e);
                assert(byte == e[e.len() - distance]);
                assert(dst@.subrange(base as int, base + start + index + 1) =~= e.push(byte));
            }
            index = index + 1;
        }
        proof {
            assert(dst0.subrange(base as int, base + start) =~= out0);
        }
        self.output = start + match_len;
        self.previous_distance = distance;
    }

    fn finish(&mut self, src: &[u8]) -> (r: Result<()>)
        requires
            old(self).input < src@.len(),
        ensures
            final(self).base == old(self).base,
            final(self).cap == old(self).cap,
            final(self).output == old(self).output,
            final(self).input <= src@.len(),
            r is Ok ==> final(self).input == src@.len(),
            forall|dst: Seq<u8>|
                match #[trigger] finish(src@, old(self).state(src@, dst)) {
                    Ok(_) => r is Ok,
                    Err(e) => r == Err::<(), Error>(e),
                },
    {
        let len = src.len();
        let after = self.input + 1;
        let mut index = after;
        while index < len
            invariant
                after <= index <= len,
                after == self.input + 1,
                self.input < len,
                len == src@.len(),
                forall|i: int| after <= i < index ==> src@[i] == 0,
            decreases len - index,
        {
            if src[index] != 0 {
                assert(src@[index as int] != 0);
                return Err(Error::TrailingData { remaining: len - after });
            }
            index = index + 1;
        }
        self.input = after;
        let padding = len - after;
        if padding > MAX_EOS_PADDING {
            return Err(Error::TrailingData { remaining: padding - MAX_EOS_PADDING });
        }
        self.input = len;
        Ok(())
    }
}

} // verus!
