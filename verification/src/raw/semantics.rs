//! The meaning of a raw LZVN stream, as a state machine over its bytes.
//!
//! A decoder state holds the position of the next opcode, the bytes decoded
//! so far and the distance of the last match. [`step`] executes the
//! instruction at that position, and [`run`] executes instructions until the
//! end-of-stream marker or an error.

use crate::error::Error;
use crate::raw::opcode::{opcode_kind, OpcodeKind};
use vstd::prelude::*;

verus! {

/// Padding bytes that may follow the end-of-stream opcode.
pub const MAX_EOS_PADDING: usize = 7;

/// A decoder state.
pub struct DecodeState {
    /// Position of the next opcode in the stream.
    pub pos: nat,
    /// Bytes decoded so far.
    pub out: Seq<u8>,
    /// Distance of the most recent match (0 before any match).
    pub prev: nat,
}

/// The result of executing one instruction.
pub enum Step {
    /// The instruction completed and decoding goes on from this state.
    Next(DecodeState),
    /// Decoding ends, with the decoded bytes or an error.
    Stop(core::result::Result<Seq<u8>, Error>),
}

/// The state before any instruction has run.
pub open spec fn initial_state() -> DecodeState {
    DecodeState { pos: 0, out: Seq::empty(), prev: 0 }
}

/// Appends `len` bytes, each a copy of the byte `dist` positions before it
/// (the copy may overlap the bytes it appends).
pub open spec fn expand(out: Seq<u8>, dist: nat, len: nat) -> Seq<u8>
    decreases len,
{
    if len == 0 {
        out
    } else {
        let shorter = expand(out, dist, (len - 1) as nat);
        shorter.push(shorter[shorter.len() - dist])
    }
}

/// The stream ended before the instruction at `pos` was complete.
pub open spec fn truncated(pos: nat) -> Step {
    Step::Stop(Err(Error::TruncatedInput { position: pos as usize }))
}

/// An instruction of `opcode_len` bytes followed by `literal_len` literal
/// bytes, then a match of `match_len` bytes at distance `distance`.
pub open spec fn literal_and_match(
    src: Seq<u8>,
    cap: nat,
    st: DecodeState,
    opcode_len: nat,
    literal_len: nat,
    match_len: nat,
    distance: nat,
) -> Step {
    let start = st.pos + opcode_len;
    let end = start + literal_len;
    if end > src.len() {
        truncated(st.pos)
    } else if st.out.len() + literal_len + match_len > cap {
        Step::Stop(
            Err(
                Error::OutputTooSmall { written: st.out.len() as usize, capacity: cap as usize },
            ),
        )
    } else if distance == 0 || distance > st.out.len() + literal_len {
        Step::Stop(
            Err(
                Error::InvalidMatchDistance {
                    distance: distance as usize,
                    available: (st.out.len() + literal_len) as usize,
                },
            ),
        )
    } else {
        Step::Next(
            DecodeState {
                pos: end,
                out: expand(st.out + src.subrange(start as int, end as int), distance, match_len),
                prev: distance,
            },
        )
    }
}

/// An instruction of `opcode_len` bytes followed by `literal_len` literals.
pub open spec fn literal_only(
    src: Seq<u8>,
    cap: nat,
    st: DecodeState,
    opcode_len: nat,
    literal_len: nat,
) -> Step {
    let start = st.pos + opcode_len;
    let end = start + literal_len;
    if end > src.len() {
        truncated(st.pos)
    } else if st.out.len() + literal_len > cap {
        Step::Stop(
            Err(
                Error::OutputTooSmall { written: st.out.len() as usize, capacity: cap as usize },
            ),
        )
    } else {
        Step::Next(
            DecodeState {
                pos: end,
                out: st.out + src.subrange(start as int, end as int),
                prev: st.prev,
            },
        )
    }
}

/// An instruction of `opcode_len` bytes that repeats the previous distance
/// for `match_len` bytes.
pub open spec fn match_only(
    src: Seq<u8>,
    cap: nat,
    st: DecodeState,
    opcode_len: nat,
    match_len: nat,
) -> Step {
    if st.pos + opcode_len > src.len() {
        truncated(st.pos)
    } else if st.out.len() + match_len > cap {
        Step::Stop(
            Err(
                Error::OutputTooSmall { written: st.out.len() as usize, capacity: cap as usize },
            ),
        )
    } else if st.prev == 0 || st.prev > st.out.len() {
        Step::Stop(
            Err(
                Error::InvalidMatchDistance {
                    distance: st.prev as usize,
                    available: st.out.len() as usize,
                },
            ),
        )
    } else {
        Step::Next(
            DecodeState {
                pos: st.pos + opcode_len,
                out: expand(st.out, st.prev, match_len),
                prev: st.prev,
            },
        )
    }
}

/// Whether some byte of `src` at or after `from` is not zero.
pub open spec fn has_nonzero_from(src: Seq<u8>, from: nat) -> bool {
    exists|i: int| from <= i < src.len() && src[i] != 0
}

/// The end-of-stream opcode at `st.pos`: at most seven zero bytes may follow.
pub open spec fn finish(src: Seq<u8>, st: DecodeState) -> core::result::Result<Seq<u8>, Error> {
    let padding = src.len() - (st.pos + 1);
    if has_nonzero_from(src, st.pos + 1) {
        Err(Error::TrailingData { remaining: padding as usize })
    } else if padding > MAX_EOS_PADDING {
        Err(Error::TrailingData { remaining: (padding - MAX_EOS_PADDING) as usize })
    } else {
        Ok(st.out)
    }
}

/// Executes the instruction at `st.pos`, which must lie inside `src`. `cap`
/// bounds the number of decoded bytes.
pub open spec fn step(src: Seq<u8>, cap: nat, st: DecodeState) -> Step {
    let pos = st.pos as int;
    let op = src[pos];
    match opcode_kind(op) {
        None => Step::Stop(Err(Error::InvalidOpcode { position: st.pos as usize, opcode: op })),
        Some(kind) => match kind {
            OpcodeKind::SmallDistance => if pos + 2 > src.len() {
                truncated(st.pos)
            } else {
                literal_and_match(
                    src,
                    cap,
                    st,
                    2,
                    (op / 64) as nat,
                    ((op / 8) % 8 + 3) as nat,
                    ((op % 8) as nat) * 256 + src[pos + 1] as nat,
                )
            },
            OpcodeKind::MediumDistance => if pos + 3 > src.len() {
                truncated(st.pos)
            } else {
                let b1 = src[pos + 1];
                let b2 = src[pos + 2];
                literal_and_match(
                    src,
                    cap,
                    st,
                    3,
                    ((op / 8) % 4) as nat,
                    ((op % 8) as nat) * 4 + (b1 % 4) as nat + 3,
                    (b1 / 4) as nat + (b2 as nat) * 64,
                )
            },
            OpcodeKind::LargeDistance => if pos + 3 > src.len() {
                truncated(st.pos)
            } else {
                literal_and_match(
                    src,
                    cap,
                    st,
                    3,
                    (op / 64) as nat,
                    ((op / 8) % 8 + 3) as nat,
                    src[pos + 1] as nat + (src[pos + 2] as nat) * 256,
                )
            },
            OpcodeKind::PreviousDistance => literal_and_match(
                src,
                cap,
                st,
                1,
                (op / 64) as nat,
                ((op / 8) % 8 + 3) as nat,
                st.prev,
            ),
            OpcodeKind::SmallLiteral => literal_only(src, cap, st, 1, (op % 16) as nat),
            OpcodeKind::LargeLiteral => if pos + 2 > src.len() {
                truncated(st.pos)
            } else {
                literal_only(src, cap, st, 2, src[pos + 1] as nat + 16)
            },
            OpcodeKind::SmallMatch => match_only(src, cap, st, 1, (op % 16) as nat),
            OpcodeKind::LargeMatch => if pos + 2 > src.len() {
                truncated(st.pos)
            } else {
                match_only(src, cap, st, 2, src[pos + 1] as nat + 16)
            },
            OpcodeKind::Nop => Step::Next(DecodeState { pos: st.pos + 1, out: st.out, prev: st.prev }),
            OpcodeKind::Eos => Step::Stop(finish(src, st)),
        },
    }
}

/// Executes instructions from `st` until decoding ends: the decoded bytes,
/// or the first error. At most `cap` bytes may be decoded.
pub open spec fn run(src: Seq<u8>, cap: nat, st: DecodeState) -> core::result::Result<
    Seq<u8>,
    Error,
>
    decreases src.len() - st.pos,
{
    if st.pos >= src.len() {
        Err(Error::TruncatedInput { position: st.pos as usize })
    } else {
        match step(src, cap, st) {
            Step::Next(next) => if st.pos < next.pos <= src.len() {
                run(src, cap, next)
            } else {
                Err(Error::TruncatedInput { position: st.pos as usize })
            },
            Step::Stop(result) => result,
        }
    }
}

/// What a raw stream decodes to into a buffer of `cap` bytes.
pub open spec fn decode_spec(src: Seq<u8>, cap: nat) -> core::result::Result<Seq<u8>, Error> {
    run(src, cap, initial_state())
}

/// What a raw stream decodes to when exactly `decoded_len` bytes are
/// expected: fewer is a size mismatch, more does not fit.
pub open spec fn decode_exact_spec(src: Seq<u8>, decoded_len: nat) -> core::result::Result<
    Seq<u8>,
    Error,
> {
    match decode_spec(src, decoded_len) {
        Ok(out) => if out.len() == decoded_len {
            Ok(out)
        } else {
            Err(Error::SizeMismatch { expected: decoded_len as usize, actual: out.len() as usize })
        },
        Err(e) => Err(e),
    }
}

/// `expand` appends exactly `len` bytes and keeps what was there.
pub proof fn lemma_expand(out: Seq<u8>, dist: nat, len: nat)
    ensures
        expand(out, dist, len).len() == out.len() + len,
        expand(out, dist, len).subrange(0, out.len() as int) == out,
    decreases len,
{
    if len > 0 {
        lemma_expand(out, dist, (len - 1) as nat);
        let shorter = expand(out, dist, (len - 1) as nat);
        assert(expand(out, dist, len).subrange(0, out.len() as int) =~= shorter.subrange(
            0,
            out.len() as int,
        ));
    }
}

/// An instruction that completes moves strictly forward, inside the stream,
/// and only appends to the decoded bytes.
pub proof fn lemma_step_advances(src: Seq<u8>, cap: nat, st: DecodeState)
    requires
        st.pos < src.len(),
    ensures
        step(src, cap, st) matches Step::Next(next) ==> {
            &&& st.pos < next.pos <= src.len()
            &&& st.out.len() <= next.out.len() <= cap || next.out == st.out
            &&& next.out.subrange(0, st.out.len() as int) == st.out
        },
{
    let op = src[st.pos as int];
    if let Step::Next(next) = step(src, cap, st) {
        match opcode_kind(op) {
            Some(OpcodeKind::Nop) => {
                assert(next.out.subrange(0, st.out.len() as int) =~= st.out);
            },
            Some(OpcodeKind::SmallLiteral) | Some(OpcodeKind::LargeLiteral) => {
                assert(next.out.subrange(0, st.out.len() as int) =~= st.out);
            },
            Some(OpcodeKind::SmallMatch) | Some(OpcodeKind::LargeMatch) => {
                let m = if op == 0xF0 { src[st.pos as int + 1] as nat + 16 } else { (op % 16) as nat };
                lemma_expand(st.out, st.prev, m);
            },
            _ => {
                let (olen, lit, m, d) = literal_match_fields(src, st);
                let start = st.pos + olen;
                let mid = st.out + src.subrange(start as int, (start + lit) as int);
                lemma_expand(mid, d, m);
                assert(mid.subrange(0, st.out.len() as int) =~= st.out);
                assert(next.out.subrange(0, st.out.len() as int) =~= mid.subrange(
                    0,
                    mid.len() as int,
                ).subrange(0, st.out.len() as int));
            },
        }
    }
}

/// Opcode length, literal count, match length and distance of the
/// instruction at `st.pos`, for the families that carry both literals and a
/// match.
pub open spec fn literal_match_fields(src: Seq<u8>, st: DecodeState) -> (nat, nat, nat, nat) {
    let pos = st.pos as int;
    let op = src[pos];
    match opcode_kind(op) {
        Some(OpcodeKind::SmallDistance) => (
            2,
            (op / 64) as nat,
            ((op / 8) % 8 + 3) as nat,
            ((op % 8) as nat) * 256 + src[pos + 1] as nat,
        ),
        Some(OpcodeKind::MediumDistance) => (
            3,
            ((op / 8) % 4) as nat,
            ((op % 8) as nat) * 4 + (src[pos + 1] % 4) as nat + 3,
            (src[pos + 1] / 4) as nat + (src[pos + 2] as nat) * 64,
        ),
        Some(OpcodeKind::LargeDistance) => (
            3,
            (op / 64) as nat,
            ((op / 8) % 8 + 3) as nat,
            src[pos + 1] as nat + (src[pos + 2] as nat) * 256,
        ),
        _ => (1, (op / 64) as nat, ((op / 8) % 8 + 3) as nat, st.prev),
    }
}

/// Executing a completed instruction does not change the outcome.
pub proof fn lemma_run_step(src: Seq<u8>, cap: nat, st: DecodeState)
    requires
        st.pos < src.len(),
    ensures
        step(src, cap, st) matches Step::Next(next) ==> run(src, cap, st) == run(src, cap, next),
        step(src, cap, st) matches Step::Stop(r) ==> run(src, cap, st) == r,
{
    lemma_step_advances(src, cap, st);
}

/// An instruction that completes inside `src` completes the same way
/// whatever follows `src`.
pub proof fn lemma_step_extend(src: Seq<u8>, more: Seq<u8>, cap: nat, st: DecodeState)
    requires
        st.pos < src.len(),
        step(src, cap, st) is Next,
    ensures
        step(src + more, cap, st) == step(src, cap, st),
{
    let ext = src + more;
    let p = st.pos as int;
    lemma_step_advances(src, cap, st);
    assert(ext[p] == src[p]);
    if p + 1 < src.len() {
        assert(ext[p + 1] == src[p + 1]);
    }
    if p + 2 < src.len() {
        assert(ext[p + 2] == src[p + 2]);
    }
    if let Step::Next(next) = step(src, cap, st) {
        assert forall|a: int, b: int| 0 <= a <= b <= src.len() implies #[trigger] ext.subrange(a, b)
            == src.subrange(a, b) by {
            assert(ext.subrange(a, b) =~= src.subrange(a, b));
        }
    }
}

/// The largest output a stream decoder without a buffer of its own can hold.
pub open spec fn stream_cap() -> nat {
    usize::MAX as nat
}

/// From `s1`, decoding `fed` followed by anything reaches `s2` on the way:
/// the outcome is the same from either state.
pub open spec fn advances(fed: Seq<u8>, s1: DecodeState, s2: DecodeState) -> bool {
    forall|more: Seq<u8>|
        #[trigger] run(fed + more, stream_cap(), s1) == run(fed + more, stream_cap(), s2)
}

/// A completed instruction inside `fed` advances.
pub proof fn lemma_advances_step(fed: Seq<u8>, st: DecodeState, next: DecodeState)
    requires
        st.pos < fed.len(),
        step(fed, stream_cap(), st) == Step::Next(next),
    ensures
        advances(fed, st, next),
{
    assert forall|more: Seq<u8>| #[trigger] run(fed + more, stream_cap(), st) == run(
        fed + more,
        stream_cap(),
        next,
    ) by {
        lemma_step_extend(fed, more, stream_cap(), st);
        lemma_run_step(fed + more, stream_cap(), st);
    }
}

/// Advancing is transitive.
pub proof fn lemma_advances_trans(fed: Seq<u8>, s1: DecodeState, s2: DecodeState, s3: DecodeState)
    requires
        advances(fed, s1, s2),
        advances(fed, s2, s3),
    ensures
        advances(fed, s1, s3),
{
    assert forall|more: Seq<u8>| #[trigger] run(fed + more, stream_cap(), s1) == run(
        fed + more,
        stream_cap(),
        s3,
    ) by {
        assert(run(fed + more, stream_cap(), s1) == run(fed + more, stream_cap(), s2));
        assert(run(fed + more, stream_cap(), s2) == run(fed + more, stream_cap(), s3));
    }
}

/// Advancing over `fed` still holds after more bytes are appended to it.
pub proof fn lemma_advances_append(fed: Seq<u8>, extra: Seq<u8>, s1: DecodeState, s2: DecodeState)
    requires
        advances(fed, s1, s2),
    ensures
        advances(fed + extra, s1, s2),
{
    assert forall|more: Seq<u8>| #[trigger] run((fed + extra) + more, stream_cap(), s1) == run(
        (fed + extra) + more,
        stream_cap(),
        s2,
    ) by {
        assert((fed + extra) + more =~= fed + (extra + more));
        assert(run(fed + (extra + more), stream_cap(), s1) == run(fed + (extra + more), stream_cap(), s2));
    }
}

/// Every state advances to itself.
pub proof fn lemma_advances_refl(fed: Seq<u8>, st: DecodeState)
    ensures
        advances(fed, st, st),
{
}

/// An instruction that completes, or ends decoding successfully, does the
/// same with room for more bytes, as long as its output fits.
proof fn lemma_step_cap(src: Seq<u8>, cap1: nat, cap2: nat, st: DecodeState)
    requires
        st.pos < src.len(),
        st.out.len() <= cap2,
        step(src, cap1, st) matches Step::Next(next) ==> next.out.len() <= cap2,
        step(src, cap1, st) is Next || step(src, cap1, st) matches Step::Stop(Ok(_)),
    ensures
        step(src, cap2, st) == step(src, cap1, st),
{
    lemma_step_advances(src, cap1, st);
    let op = src[st.pos as int];
    match opcode_kind(op) {
        Some(OpcodeKind::SmallLiteral) | Some(OpcodeKind::LargeLiteral) => {},
        Some(OpcodeKind::SmallMatch) | Some(OpcodeKind::LargeMatch) => {
            let m = if op == 0xF0 { src[st.pos as int + 1] as nat + 16 } else { (op % 16) as nat };
            lemma_expand(st.out, st.prev, m);
        },
        Some(OpcodeKind::Nop) | Some(OpcodeKind::Eos) | None => {},
        _ => {
            let (olen, lit, m, d) = literal_match_fields(src, st);
            let start = st.pos + olen;
            if start + lit <= src.len() {
                let mid = st.out + src.subrange(start as int, (start + lit) as int);
                lemma_expand(mid, d, m);
            }
        },
    }
}

/// Decoding ends the same way with room for more bytes, as long as the
/// decoded bytes fit.
pub proof fn lemma_run_cap(src: Seq<u8>, cap1: nat, cap2: nat, st: DecodeState)
    requires
        run(src, cap1, st) matches Ok(out) && out.len() <= cap2,
        st.out.len() <= cap2,
    ensures
        run(src, cap2, st) == run(src, cap1, st),
    decreases src.len() - st.pos,
{
    if st.pos < src.len() {
        lemma_step_advances(src, cap1, st);
        match step(src, cap1, st) {
            Step::Next(next) => {
                lemma_run_out_grows(src, cap1, next);
                lemma_step_cap(src, cap1, cap2, st);
                lemma_step_advances(src, cap2, st);
                lemma_run_cap(src, cap1, cap2, next);
            },
            Step::Stop(r) => {
                lemma_step_cap(src, cap1, cap2, st);
            },
        }
    }
}

/// What decoding ends with extends the bytes decoded so far.
pub proof fn lemma_run_out_grows(src: Seq<u8>, cap: nat, st: DecodeState)
    ensures
        run(src, cap, st) matches Ok(out) ==> st.out.len() <= out.len(),
    decreases src.len() - st.pos,
{
    if st.pos < src.len() {
        lemma_step_advances(src, cap, st);
        match step(src, cap, st) {
            Step::Next(next) => {
                lemma_run_out_grows(src, cap, next);
            },
            Step::Stop(r) => {},
        }
    }
}

/// What decoding ends with fits the bound on the output.
pub proof fn lemma_run_within_cap(src: Seq<u8>, cap: nat, st: DecodeState)
    requires
        st.out.len() <= cap,
    ensures
        run(src, cap, st) matches Ok(out) ==> out.len() <= cap,
    decreases src.len() - st.pos,
{
    if st.pos < src.len() {
        lemma_step_advances(src, cap, st);
        match step(src, cap, st) {
            Step::Next(next) => {
                lemma_run_within_cap(src, cap, next);
            },
            Step::Stop(r) => {
                let op = src[st.pos as int];
                if opcode_kind(op) == Some(OpcodeKind::Eos) {
                    assert(r == finish(src, st));
                }
            },
        }
    }
}

/// An instruction whose output would pass a smaller bound stops at that
/// bound with `OutputTooSmall`, before any distance is checked.
proof fn lemma_step_cap_exceeds(src: Seq<u8>, cap1: nat, cap2: nat, st: DecodeState)
    requires
        st.pos < src.len(),
        st.out.len() <= cap2,
        step(src, cap1, st) matches Step::Next(next) && next.out.len() > cap2,
    ensures
        step(src, cap2, st) == Step::Stop(
            Err::<Seq<u8>, Error>(
                Error::OutputTooSmall { written: st.out.len() as usize, capacity: cap2 as usize },
            ),
        ),
{
    lemma_step_advances(src, cap1, st);
    let op = src[st.pos as int];
    match opcode_kind(op) {
        Some(OpcodeKind::SmallLiteral) | Some(OpcodeKind::LargeLiteral) => {},
        Some(OpcodeKind::SmallMatch) | Some(OpcodeKind::LargeMatch) => {
            let m = if op == 0xF0 { src[st.pos as int + 1] as nat + 16 } else { (op % 16) as nat };
            lemma_expand(st.out, st.prev, m);
        },
        Some(OpcodeKind::Nop) | Some(OpcodeKind::Eos) | None => {},
        _ => {
            let (olen, lit, m, d) = literal_match_fields(src, st);
            let start = st.pos + olen;
            if start + lit <= src.len() {
                let mid = st.out + src.subrange(start as int, (start + lit) as int);
                lemma_expand(mid, d, m);
            }
        },
    }
}

/// Decoding that succeeds with a larger bound, into more bytes than a
/// smaller bound holds, stops at the smaller bound with `OutputTooSmall`.
pub proof fn lemma_run_cap_exceeds(src: Seq<u8>, cap1: nat, cap2: nat, st: DecodeState)
    requires
        run(src, cap1, st) matches Ok(out) && cap2 < out.len(),
        st.out.len() <= cap2,
        cap2 <= usize::MAX,
    ensures
        run(src, cap2, st) matches Err(Error::OutputTooSmall { written, capacity }) && written
            <= cap2 && capacity == cap2 as usize,
    decreases src.len() - st.pos,
{
    if st.pos < src.len() {
        lemma_step_advances(src, cap1, st);
        match step(src, cap1, st) {
            Step::Next(next) => {
                if next.out.len() <= cap2 {
                    lemma_step_cap(src, cap1, cap2, st);
                    lemma_run_cap_exceeds(src, cap1, cap2, next);
                } else {
                    lemma_step_cap_exceeds(src, cap1, cap2, st);
                }
            },
            Step::Stop(r) => {
                let op = src[st.pos as int];
                if opcode_kind(op) == Some(OpcodeKind::Eos) {
                    assert(r == finish(src, st));
                }
            },
        }
    }
}

/// Zero bytes after the end marker: a stream whose last byte is the end
/// marker it stops at decodes the same with padding after it, as long as
/// the padding is zeros and at most seven bytes; otherwise the padding is
/// trailing data.
pub proof fn lemma_run_padding(src: Seq<u8>, pad: Seq<u8>, cap: nat, st: DecodeState)
    requires
        run(src, cap, st) is Ok,
        src.len() > 0,
        src[src.len() - 1] != 0,
    ensures
        run(src + pad, cap, st) == if has_nonzero_from(pad, 0) {
            Err::<Seq<u8>, Error>(Error::TrailingData { remaining: pad.len() as usize })
        } else if pad.len() > MAX_EOS_PADDING {
            Err::<Seq<u8>, Error>(
                Error::TrailingData { remaining: (pad.len() - MAX_EOS_PADDING) as usize },
            )
        } else {
            run(src, cap, st)
        },
    decreases src.len() - st.pos,
{
    let ext = src + pad;
    if st.pos < src.len() {
        lemma_step_advances(src, cap, st);
        match step(src, cap, st) {
            Step::Next(next) => {
                lemma_step_extend(src, pad, cap, st);
                lemma_run_padding(src, pad, cap, next);
            },
            Step::Stop(r) => {
                let p = st.pos as int;
                let op = src[p];
                assert(opcode_kind(op) == Some(OpcodeKind::Eos));
                assert(r == finish(src, st));
                if p < src.len() - 1 {
                    assert(has_nonzero_from(src, st.pos + 1)) by {
                        assert(src[src.len() - 1] != 0);
                    }
                }
                assert(p == src.len() - 1);
                assert(ext[p] == op);
                if has_nonzero_from(pad, 0) {
                    let i = choose|i: int| 0 <= i < pad.len() && pad[i] != 0;
                    assert(ext[src.len() + i] == pad[i]);
                    assert(has_nonzero_from(ext, st.pos + 1));
                } else {
                    assert forall|i: int| st.pos + 1 <= i < ext.len() implies !(ext[i] != 0) by {
                        assert(ext[i] == pad[i - src.len()]);
                    }
                }
            },
        }
    }
}

/// An instruction other than the end marker that does not need bytes past
/// `src` ends the same way whatever follows `src`.
proof fn lemma_step_extend_decided(src: Seq<u8>, more: Seq<u8>, cap: nat, st: DecodeState)
    requires
        st.pos < src.len(),
        step(src, cap, st) != truncated(st.pos),
        opcode_kind(src[st.pos as int]) != Some(OpcodeKind::Eos),
    ensures
        step(src + more, cap, st) == step(src, cap, st),
{
    let ext = src + more;
    let p = st.pos as int;
    assert(ext[p] == src[p]);
    if p + 1 < src.len() {
        assert(ext[p + 1] == src[p + 1]);
    }
    if p + 2 < src.len() {
        assert(ext[p + 2] == src[p + 2]);
    }
    assert forall|a: int, b: int| 0 <= a <= b <= src.len() implies #[trigger] ext.subrange(a, b)
        == src.subrange(a, b) by {
        assert(ext.subrange(a, b) =~= src.subrange(a, b));
    }
}

/// Decoding that fails for a reason other than running out of input fails
/// whatever bytes follow.
pub proof fn lemma_run_extend_err(src: Seq<u8>, more: Seq<u8>, cap: nat, st: DecodeState)
    requires
        run(src, cap, st) matches Err(e) && !(e is TruncatedInput),
    ensures
        run(src + more, cap, st) is Err,
    decreases src.len() - st.pos,
{
    let ext = src + more;
    if st.pos < src.len() {
        lemma_step_advances(src, cap, st);
        let p = st.pos as int;
        let op = src[p];
        match step(src, cap, st) {
            Step::Next(next) => {
                lemma_step_extend(src, more, cap, st);
                lemma_run_extend_err(src, more, cap, next);
            },
            Step::Stop(r) => {
                if opcode_kind(op) == Some(OpcodeKind::Eos) {
                    assert(ext[p] == op);
                    if has_nonzero_from(src, st.pos + 1) {
                        let i = choose|i: int| st.pos + 1 <= i < src.len() && src[i] != 0;
                        assert(ext[i] == src[i]);
                        assert(has_nonzero_from(ext, st.pos + 1));
                    }
                } else {
                    lemma_step_extend_decided(src, more, cap, st);
                }
            },
        }
    }
}

/// Decoding that succeeds over `src` and over `src` followed by more bytes
/// gives the same bytes.
pub proof fn lemma_run_extend_ok(src: Seq<u8>, more: Seq<u8>, cap: nat, st: DecodeState)
    requires
        run(src, cap, st) is Ok,
        run(src + more, cap, st) is Ok,
    ensures
        run(src + more, cap, st) == run(src, cap, st),
    decreases src.len() - st.pos,
{
    let ext = src + more;
    if st.pos < src.len() {
        lemma_step_advances(src, cap, st);
        let p = st.pos as int;
        let op = src[p];
        match step(src, cap, st) {
            Step::Next(next) => {
                lemma_step_extend(src, more, cap, st);
                lemma_run_extend_ok(src, more, cap, next);
            },
            Step::Stop(r) => {
                assert(opcode_kind(op) == Some(OpcodeKind::Eos));
                assert(ext[p] == op);
            },
        }
    }
}

/// What decoding ends with begins with the bytes decoded so far.
pub proof fn lemma_run_out_prefix(src: Seq<u8>, cap: nat, st: DecodeState)
    ensures
        run(src, cap, st) matches Ok(out) ==> st.out.len() <= out.len() && out.subrange(
            0,
            st.out.len() as int,
        ) == st.out,
    decreases src.len() - st.pos,
{
    if st.pos < src.len() {
        lemma_step_advances(src, cap, st);
        match step(src, cap, st) {
            Step::Next(next) => {
                lemma_run_out_prefix(src, cap, next);
                if let Ok(out) = run(src, cap, st) {
                    assert(out.subrange(0, st.out.len() as int) =~= out.subrange(
                        0,
                        next.out.len() as int,
                    ).subrange(0, st.out.len() as int));
                }
            },
            Step::Stop(r) => {
                let op = src[st.pos as int];
                if opcode_kind(op) == Some(OpcodeKind::Eos) {
                    assert(r == finish(src, st));
                    assert(st.out.subrange(0, st.out.len() as int) =~= st.out);
                }
            },
        }
    }
}

/// Decoding that succeeds over `q` and over `q` followed by `rest` stops at
/// the same end marker: nothing but zeros follows it in either, and at most
/// seven bytes follow it in the longer one.
pub proof fn lemma_run_ok_extension(q: Seq<u8>, rest: Seq<u8>, cap: nat, st: DecodeState)
    requires
        run(q, cap, st) is Ok,
        run(q + rest, cap, st) is Ok,
    ensures
        exists|p: int|
            #![trigger q[p]]
            st.pos <= p < q.len() && q[p] == 0x06 && !has_nonzero_from(q, (p + 1) as nat)
                && !has_nonzero_from(rest, 0) && q.len() + rest.len() - p - 1 <= MAX_EOS_PADDING,
    decreases q.len() - st.pos,
{
    let ext = q + rest;
    if st.pos < q.len() {
        lemma_step_advances(q, cap, st);
        let p = st.pos as int;
        let op = q[p];
        match step(q, cap, st) {
            Step::Next(next) => {
                lemma_step_extend(q, rest, cap, st);
                lemma_run_ok_extension(q, rest, cap, next);
                let w = choose|w: int|
                    #![trigger q[w]]
                    next.pos <= w < q.len() && q[w] == 0x06 && !has_nonzero_from(q, (w + 1) as nat)
                        && !has_nonzero_from(rest, 0) && q.len() + rest.len() - w - 1
                        <= MAX_EOS_PADDING;
                assert(st.pos <= w);
            },
            Step::Stop(r) => {
                assert(opcode_kind(op) == Some(OpcodeKind::Eos));
                assert(op == 0x06);
                assert(ext[p] == op);
                assert(step(ext, cap, st) == Step::Stop(finish(ext, st)));
                if has_nonzero_from(rest, 0) {
                    let i = choose|i: int| 0 <= i < rest.len() && rest[i] != 0;
                    assert(ext[q.len() + i] == rest[i]);
                    assert(has_nonzero_from(ext, st.pos + 1));
                }
                assert(q[p] == 0x06);
            },
        }
    }
}

} // verus!
