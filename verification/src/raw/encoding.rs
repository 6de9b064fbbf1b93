//! The instruction encodings that the encoder emits, and what each of them
//! decodes to.

use crate::raw::opcode::{opcode_kind, OpcodeKind};
use crate::raw::semantics::{
    expand, finish, lemma_expand, lemma_run_step, literal_only, match_only, literal_and_match, run,
    step, DecodeState, Step,
};
use vstd::prelude::*;

verus! {

/// The padded end-of-stream marker emitted by Apple-compatible encoders.
pub open spec fn eos_marker() -> Seq<u8> {
    seq![0x06u8, 0, 0, 0, 0, 0, 0, 0]
}

/// The bytes `seg`, wherever they stand in a stream, take the decoder from
/// output `out1` and previous distance `prev1` to output `out2` and previous
/// distance `prev2`, moving over exactly `seg`.
pub open spec fn segment_moves(
    seg: Seq<u8>,
    out1: Seq<u8>,
    prev1: nat,
    out2: Seq<u8>,
    prev2: nat,
) -> bool {
    forall|pre: Seq<u8>, post: Seq<u8>, cap: nat|
        cap >= out2.len() ==> #[trigger] run(
            pre + seg + post,
            cap,
            DecodeState { pos: pre.len(), out: out1, prev: prev1 },
        ) == run(
            pre + seg + post,
            cap,
            DecodeState { pos: pre.len() + seg.len(), out: out2, prev: prev2 },
        )
}

/// The instruction `seg`, wherever it stands, completes with the given effect.
pub open spec fn instruction_moves(
    seg: Seq<u8>,
    out1: Seq<u8>,
    prev1: nat,
    out2: Seq<u8>,
    prev2: nat,
) -> bool {
    forall|pre: Seq<u8>, post: Seq<u8>, cap: nat|
        cap >= out2.len() ==> #[trigger] step(
            pre + seg + post,
            cap,
            DecodeState { pos: pre.len(), out: out1, prev: prev1 },
        ) == Step::Next(DecodeState { pos: pre.len() + seg.len(), out: out2, prev: prev2 })
}

/// A single instruction is a segment.
pub proof fn lemma_instruction_segment(
    seg: Seq<u8>,
    out1: Seq<u8>,
    prev1: nat,
    out2: Seq<u8>,
    prev2: nat,
)
    requires
        seg.len() > 0,
        instruction_moves(seg, out1, prev1, out2, prev2),
    ensures
        segment_moves(seg, out1, prev1, out2, prev2),
{
    assert forall|pre: Seq<u8>, post: Seq<u8>, cap: nat| cap >= out2.len() implies #[trigger] run(
        pre + seg + post,
        cap,
        DecodeState { pos: pre.len(), out: out1, prev: prev1 },
    ) == run(
        pre + seg + post,
        cap,
        DecodeState { pos: pre.len() + seg.len(), out: out2, prev: prev2 },
    ) by {
        let st = DecodeState { pos: pre.len(), out: out1, prev: prev1 };
        assert(step(pre + seg + post, cap, st) == Step::Next(
            DecodeState { pos: pre.len() + seg.len(), out: out2, prev: prev2 },
        ));
        lemma_run_step(pre + seg + post, cap, st);
    }
}

/// Segments compose.
#[verifier::rlimit(40)]
#[verifier::spinoff_prover]
pub proof fn lemma_segments_compose(
    a: Seq<u8>,
    b: Seq<u8>,
    out1: Seq<u8>,
    prev1: nat,
    out2: Seq<u8>,
    prev2: nat,
    out3: Seq<u8>,
    prev3: nat,
)
    requires
        segment_moves(a, out1, prev1, out2, prev2),
        segment_moves(b, out2, prev2, out3, prev3),
        out2.len() <= out3.len(),
    ensures
        segment_moves(a + b, out1, prev1, out3, prev3),
{
    assert forall|pre: Seq<u8>, post: Seq<u8>, cap: nat| cap >= out3.len() implies #[trigger] run(
        pre + (a + b) + post,
        cap,
        DecodeState { pos: pre.len(), out: out1, prev: prev1 },
    ) == run(
        pre + (a + b) + post,
        cap,
        DecodeState { pos: pre.len() + (a + b).len(), out: out3, prev: prev3 },
    ) by {
        let src = pre + (a + b) + post;
        assert(src =~= pre + a + (b + post));
        assert(src =~= (pre + a) + b + post);
        assert(run(pre + a + (b + post), cap, DecodeState { pos: pre.len(), out: out1, prev: prev1 })
            == run(
            pre + a + (b + post),
            cap,
            DecodeState { pos: pre.len() + a.len(), out: out2, prev: prev2 },
        ));
        assert(run((pre + a) + b + post, cap, DecodeState { pos: (pre + a).len(), out: out2, prev: prev2 })
            == run(
            (pre + a) + b + post,
            cap,
            DecodeState { pos: (pre + a).len() + b.len(), out: out3, prev: prev3 },
        ));
    }
}

/// The empty segment moves nowhere.
pub proof fn lemma_empty_segment(out: Seq<u8>, prev: nat)
    ensures
        segment_moves(Seq::empty(), out, prev, out, prev),
{
    assert forall|pre: Seq<u8>, post: Seq<u8>, cap: nat| cap >= out.len() implies #[trigger] run(
        pre + Seq::empty() + post,
        cap,
        DecodeState { pos: pre.len(), out: out, prev: prev },
    ) == run(
        pre + Seq::empty() + post,
        cap,
        DecodeState { pos: pre.len() + Seq::<u8>::empty().len(), out: out, prev: prev },
    ) by {
    }
}

/// Where `seg` stands inside `pre + seg + post`.
pub proof fn lemma_placed(pre: Seq<u8>, seg: Seq<u8>, post: Seq<u8>)
    ensures
        forall|i: int| 0 <= i < seg.len() ==> #[trigger] (pre + seg + post)[pre.len() + i] == seg[i],
        (pre + seg + post).len() == pre.len() + seg.len() + post.len(),
        forall|i: int, j: int|
            0 <= i <= j <= seg.len() ==> #[trigger] (pre + seg + post).subrange(
                pre.len() + i,
                pre.len() + j,
            ) == seg.subrange(i, j),
{
    assert forall|i: int, j: int| 0 <= i <= j <= seg.len() implies #[trigger] (pre + seg
        + post).subrange(pre.len() + i, pre.len() + j) == seg.subrange(i, j) by {
        assert((pre + seg + post).subrange(pre.len() + i, pre.len() + j) =~= seg.subrange(i, j));
    }
}

/// The header of a run of `n` literals.
pub open spec fn literal_header(n: nat) -> Seq<u8> {
    if n <= 15 {
        seq![(0xE0 + n) as u8]
    } else {
        seq![0xE0u8, (n - 16) as u8]
    }
}

/// A literal instruction: its header, then the literals.
pub proof fn lemma_literal_instruction(lits: Seq<u8>, out: Seq<u8>, prev: nat)
    requires
        1 <= lits.len() <= 271,
    ensures
        segment_moves(literal_header(lits.len()) + lits, out, prev, out + lits, prev),
{
    let n = lits.len();
    let seg = literal_header(n) + lits;
    let h = literal_header(n).len();
    assert forall|pre: Seq<u8>, post: Seq<u8>, cap: nat| cap >= (out + lits).len() implies #[trigger] step(
        pre + seg + post,
        cap,
        DecodeState { pos: pre.len(), out: out, prev: prev },
    ) == Step::Next(DecodeState { pos: pre.len() + seg.len(), out: out + lits, prev: prev }) by {
        lemma_placed(pre, seg, post);
        let src = pre + seg + post;
        let p = pre.len() as int;
        assert(src[p + 0] == seg[0]);
        assert(seg.subrange(h as int, seg.len() as int) =~= lits);
        assert(src.subrange(p + h, p + seg.len()) == seg.subrange(h as int, seg.len() as int));
        if n <= 15 {
            assert(seg[0] == (0xE0 + n) as u8);
        } else {
            assert(seg[0] == 0xE0u8);
            assert(src[p + 1] == seg[1]);
            assert(seg[1] == (n - 16) as u8);
        }
    }
    lemma_instruction_segment(seg, out, prev, out + lits, prev);
}

/// The header of a match of `n` bytes at the previous distance.
pub open spec fn match_header(n: nat) -> Seq<u8> {
    if n <= 15 {
        seq![(0xF0 + n) as u8]
    } else {
        seq![0xF0u8, (n - 16) as u8]
    }
}

/// A match-only instruction repeats the previous distance.
pub proof fn lemma_match_instruction(n: nat, out: Seq<u8>, prev: nat)
    requires
        1 <= n <= 271,
        0 < prev <= out.len(),
    ensures
        segment_moves(match_header(n), out, prev, expand(out, prev, n), prev),
{
    let seg = match_header(n);
    lemma_expand(out, prev, n);
    assert forall|pre: Seq<u8>, post: Seq<u8>, cap: nat| cap >= expand(out, prev, n).len() implies #[trigger] step(
        pre + seg + post,
        cap,
        DecodeState { pos: pre.len(), out: out, prev: prev },
    ) == Step::Next(DecodeState { pos: pre.len() + seg.len(), out: expand(out, prev, n), prev: prev }) by {
        lemma_placed(pre, seg, post);
        let src = pre + seg + post;
        let p = pre.len() as int;
        assert(src[p + 0] == seg[0]);
        if n > 15 {
            assert(src[p + 1] == seg[1]);
        }
    }
    lemma_instruction_segment(seg, out, prev, expand(out, prev, n), prev);
}

/// Opcode of a small-distance instruction.
pub open spec fn small_distance_op(lit: nat, m: nat, d: nat) -> Seq<u8> {
    seq![(lit * 64 + (m - 3) * 8 + d / 256) as u8, (d % 256) as u8]
}

/// Opcode of a medium-distance instruction.
pub open spec fn medium_distance_op(lit: nat, m: nat, d: nat) -> Seq<u8> {
    let code = (m - 3) as nat;
    let packed = d * 4 + code % 4;
    seq![(0xA0 + lit * 8 + code / 4) as u8, (packed % 256) as u8, (packed / 256) as u8]
}

/// Opcode of a large-distance instruction.
pub open spec fn large_distance_op(lit: nat, m: nat, d: nat) -> Seq<u8> {
    seq![(lit * 64 + (m - 3) * 8 + 7) as u8, (d % 256) as u8, (d / 256) as u8]
}

/// Opcode of a previous-distance instruction.
pub open spec fn previous_distance_op(lit: nat, m: nat) -> Seq<u8> {
    seq![(lit * 64 + (m - 3) * 8 + 6) as u8]
}

/// The most match bytes that fit an instruction beside `lit` inline
/// literals.
pub open spec fn short_match_limit(lit: nat) -> nat {
    (10 - 2 * lit) as nat
}

/// What an instruction with literals and a match leaves behind.
pub open spec fn after_literal_match(out: Seq<u8>, lits: Seq<u8>, m: nat, d: nat) -> Seq<u8> {
    expand(out + lits, d, m)
}

proof fn lemma_literal_match_next(
    src: Seq<u8>,
    cap: nat,
    st: DecodeState,
    olen: nat,
    lits: Seq<u8>,
    m: nat,
    d: nat,
)
    requires
        st.pos + olen + lits.len() <= src.len(),
        src.subrange((st.pos + olen) as int, (st.pos + olen + lits.len()) as int) == lits,
        cap >= st.out.len() + lits.len() + m,
        0 < d <= st.out.len() + lits.len(),
    ensures
        literal_and_match(src, cap, st, olen, lits.len(), m, d) == Step::Next(
            DecodeState {
                pos: st.pos + olen + lits.len(),
                out: after_literal_match(st.out, lits, m, d),
                prev: d,
            },
        ),
{
}

/// A small-distance instruction with its inline literals.
pub proof fn lemma_small_distance_instruction(lits: Seq<u8>, m: nat, d: nat, out: Seq<u8>, prev: nat)
    requires
        lits.len() <= 3,
        3 <= m <= short_match_limit(lits.len()),
        0 < d < 0x600,
        d <= out.len() + lits.len(),
    ensures
        segment_moves(
            small_distance_op(lits.len(), m, d) + lits,
            out,
            prev,
            after_literal_match(out, lits, m, d),
            d,
        ),
{
    let seg = small_distance_op(lits.len(), m, d) + lits;
    let target = after_literal_match(out, lits, m, d);
    lemma_expand(out + lits, d, m);
    let lit = lits.len();
    let op = (lit * 64 + (m - 3) * 8 + d / 256) as u8;
    assert(lit * 64 + (m - 3) * 8 + d / 256 < 0xD0);
    assert(op / 64 == lit);
    assert((op / 8) % 8 == m - 3);
    assert(op % 8 == d / 256);
    assert(opcode_kind(op) == Some(OpcodeKind::SmallDistance));
    assert forall|pre: Seq<u8>, post: Seq<u8>, cap: nat| cap >= target.len() implies #[trigger] step(
        pre + seg + post,
        cap,
        DecodeState { pos: pre.len(), out: out, prev: prev },
    ) == Step::Next(DecodeState { pos: pre.len() + seg.len(), out: target, prev: d }) by {
        lemma_placed(pre, seg, post);
        let src = pre + seg + post;
        let p = pre.len() as int;
        assert(src[p + 0] == seg[0]);
        assert(src[p + 1] == seg[1]);
        assert(seg.subrange(2, seg.len() as int) =~= lits);
        assert(src.subrange(p + 2, p + seg.len()) == seg.subrange(2, seg.len() as int));
        lemma_literal_match_next(src, cap, DecodeState { pos: pre.len(), out: out, prev: prev }, 2, lits, m, d);
    }
    lemma_instruction_segment(seg, out, prev, target, d);
}

/// A medium-distance instruction with its inline literals.
pub proof fn lemma_medium_distance_instruction(lits: Seq<u8>, m: nat, d: nat, out: Seq<u8>, prev: nat)
    requires
        lits.len() <= 3,
        3 <= m <= 34,
        0 < d <= 0x3FFF,
        d <= out.len() + lits.len(),
    ensures
        segment_moves(
            medium_distance_op(lits.len(), m, d) + lits,
            out,
            prev,
            after_literal_match(out, lits, m, d),
            d,
        ),
{
    let seg = medium_distance_op(lits.len(), m, d) + lits;
    let target = after_literal_match(out, lits, m, d);
    lemma_expand(out + lits, d, m);
    let lit = lits.len();
    let code = (m - 3) as nat;
    let packed = d * 4 + code % 4;
    let op = (0xA0 + lit * 8 + code / 4) as u8;
    let b1 = (packed % 256) as u8;
    let b2 = (packed / 256) as u8;
    assert(0xA0 + lit * 8 + code / 4 < 0xC0);
    assert(opcode_kind(op) == Some(OpcodeKind::MediumDistance));
    assert((op / 8) % 4 == lit);
    assert(packed < 0x10000);
    assert(b1 % 4 == code % 4);
    assert((op % 8) as nat * 4 + (b1 % 4) as nat + 3 == m);
    assert((b1 / 4) as nat + (b2 as nat) * 64 == d);
    assert forall|pre: Seq<u8>, post: Seq<u8>, cap: nat| cap >= target.len() implies #[trigger] step(
        pre + seg + post,
        cap,
        DecodeState { pos: pre.len(), out: out, prev: prev },
    ) == Step::Next(DecodeState { pos: pre.len() + seg.len(), out: target, prev: d }) by {
        lemma_placed(pre, seg, post);
        let src = pre + seg + post;
        let p = pre.len() as int;
        assert(src[p + 0] == seg[0]);
        assert(src[p + 1] == seg[1]);
        assert(src[p + 2] == seg[2]);
        assert(seg.subrange(3, seg.len() as int) =~= lits);
        assert(src.subrange(p + 3, p + seg.len()) == seg.subrange(3, seg.len() as int));
        lemma_literal_match_next(src, cap, DecodeState { pos: pre.len(), out: out, prev: prev }, 3, lits, m, d);
    }
    lemma_instruction_segment(seg, out, prev, target, d);
}

/// A large-distance instruction with its inline literals.
pub proof fn lemma_large_distance_instruction(lits: Seq<u8>, m: nat, d: nat, out: Seq<u8>, prev: nat)
    requires
        lits.len() <= 3,
        3 <= m <= short_match_limit(lits.len()),
        0 < d <= 0xFFFF,
        d <= out.len() + lits.len(),
    ensures
        segment_moves(
            large_distance_op(lits.len(), m, d) + lits,
            out,
            prev,
            after_literal_match(out, lits, m, d),
            d,
        ),
{
    let seg = large_distance_op(lits.len(), m, d) + lits;
    let target = after_literal_match(out, lits, m, d);
    lemma_expand(out + lits, d, m);
    let lit = lits.len();
    let op = (lit * 64 + (m - 3) * 8 + 7) as u8;
    assert(lit * 64 + (m - 3) * 8 + 7 < 0xD0);
    assert(op / 64 == lit);
    assert((op / 8) % 8 == m - 3);
    assert(op % 8 == 7);
    assert(opcode_kind(op) == Some(OpcodeKind::LargeDistance));
    assert forall|pre: Seq<u8>, post: Seq<u8>, cap: nat| cap >= target.len() implies #[trigger] step(
        pre + seg + post,
        cap,
        DecodeState { pos: pre.len(), out: out, prev: prev },
    ) == Step::Next(DecodeState { pos: pre.len() + seg.len(), out: target, prev: d }) by {
        lemma_placed(pre, seg, post);
        let src = pre + seg + post;
        let p = pre.len() as int;
        assert(src[p + 0] == seg[0]);
        assert(src[p + 1] == seg[1]);
        assert(src[p + 2] == seg[2]);
        assert(seg.subrange(3, seg.len() as int) =~= lits);
        assert(src.subrange(p + 3, p + seg.len()) == seg.subrange(3, seg.len() as int));
        lemma_literal_match_next(src, cap, DecodeState { pos: pre.len(), out: out, prev: prev }, 3, lits, m, d);
    }
    lemma_instruction_segment(seg, out, prev, target, d);
}

/// A previous-distance instruction with its inline literals.
pub proof fn lemma_previous_distance_instruction(lits: Seq<u8>, m: nat, out: Seq<u8>, prev: nat)
    requires
        1 <= lits.len() <= 3,
        3 <= m <= short_match_limit(lits.len()),
        0 < prev <= out.len() + lits.len(),
    ensures
        segment_moves(
            previous_distance_op(lits.len(), m) + lits,
            out,
            prev,
            after_literal_match(out, lits, m, prev),
            prev,
        ),
{
    let seg = previous_distance_op(lits.len(), m) + lits;
    let target = after_literal_match(out, lits, m, prev);
    lemma_expand(out + lits, prev, m);
    let lit = lits.len();
    let op = (lit * 64 + (m - 3) * 8 + 6) as u8;
    assert(lit * 64 + (m - 3) * 8 + 6 < 0xD0);
    assert(op / 64 == lit);
    assert((op / 8) % 8 == m - 3);
    assert(op % 8 == 6);
    assert(op >= 0x40);
    assert(opcode_kind(op) == Some(OpcodeKind::PreviousDistance));
    assert forall|pre: Seq<u8>, post: Seq<u8>, cap: nat| cap >= target.len() implies #[trigger] step(
        pre + seg + post,
        cap,
        DecodeState { pos: pre.len(), out: out, prev: prev },
    ) == Step::Next(DecodeState { pos: pre.len() + seg.len(), out: target, prev: prev }) by {
        lemma_placed(pre, seg, post);
        let src = pre + seg + post;
        let p = pre.len() as int;
        assert(src[p + 0] == seg[0]);
        assert(seg.subrange(1, seg.len() as int) =~= lits);
        assert(src.subrange(p + 1, p + seg.len()) == seg.subrange(1, seg.len() as int));
        lemma_literal_match_next(src, cap, DecodeState { pos: pre.len(), out: out, prev: prev }, 1, lits, m, prev);
    }
    lemma_instruction_segment(seg, out, prev, target, prev);
}

/// The end marker, last in a stream, ends decoding with the bytes decoded
/// so far.
pub proof fn lemma_eos_finishes(pre: Seq<u8>, cap: nat, out: Seq<u8>, prev: nat)
    ensures
        run(pre + eos_marker(), cap, DecodeState { pos: pre.len(), out: out, prev: prev }) == Ok::<
            Seq<u8>,
            crate::error::Error,
        >(out),
{
    let src = pre + eos_marker();
    let st = DecodeState { pos: pre.len(), out: out, prev: prev };
    assert(src[pre.len() as int] == 0x06u8);
    assert(opcode_kind(0x06u8) == Some(OpcodeKind::Eos));
    assert forall|i: int| pre.len() + 1 <= i < src.len() implies src[i] == 0 by {
        assert(src[i] == eos_marker()[i - pre.len()]);
    }
    assert(!crate::raw::semantics::has_nonzero_from(src, pre.len() + 1));
    assert(finish(src, st) == Ok::<Seq<u8>, crate::error::Error>(out));
    lemma_run_step(src, cap, st);
}

/// How many bytes one literal or match chunk takes of a run of `n`.
pub open spec fn chunk_len(n: nat) -> nat {
    if n <= 271 {
        n
    } else {
        271
    }
}

/// A run of literals, split into chunks of at most 271 bytes.
pub open spec fn literal_run(lits: Seq<u8>) -> Seq<u8>
    decreases lits.len(),
{
    if lits.len() == 0 {
        Seq::empty()
    } else {
        let n = chunk_len(lits.len());
        literal_header(n) + lits.subrange(0, n as int) + literal_run(
            lits.subrange(n as int, lits.len() as int),
        )
    }
}

/// A match of `n` bytes at the previous distance, split into chunks of at
/// most 271 bytes.
pub open spec fn match_run(n: nat) -> Seq<u8>
    decreases n,
{
    if n == 0 {
        Seq::empty()
    } else {
        let c = chunk_len(n);
        match_header(c) + match_run((n - c) as nat)
    }
}

/// A literal run appends its literals.
pub proof fn lemma_literal_run(lits: Seq<u8>, out: Seq<u8>, prev: nat)
    ensures
        segment_moves(literal_run(lits), out, prev, out + lits, prev),
    decreases lits.len(),
{
    if lits.len() == 0 {
        assert(out + lits =~= out);
        lemma_empty_segment(out, prev);
    } else {
        let n = chunk_len(lits.len());
        let first = lits.subrange(0, n as int);
        let rest = lits.subrange(n as int, lits.len() as int);
        lemma_literal_instruction(first, out, prev);
        lemma_literal_run(rest, out + first, prev);
        assert(out + first + rest =~= out + lits);
        lemma_segments_compose(
            literal_header(n) + first,
            literal_run(rest),
            out,
            prev,
            out + first,
            prev,
            out + lits,
            prev,
        );
    }
}

/// Matches at one distance add up.
pub proof fn lemma_expand_compose(out: Seq<u8>, d: nat, a: nat, b: nat)
    ensures
        expand(expand(out, d, a), d, b) == expand(out, d, a + b),
    decreases b,
{
    if b > 0 {
        lemma_expand_compose(out, d, a, (b - 1) as nat);
        assert((a + b - 1) as nat == a + (b - 1) as nat);
    }
}

/// A match run copies at the previous distance.
pub proof fn lemma_match_run(n: nat, out: Seq<u8>, prev: nat)
    requires
        0 < prev <= out.len(),
    ensures
        segment_moves(match_run(n), out, prev, expand(out, prev, n), prev),
    decreases n,
{
    if n == 0 {
        lemma_empty_segment(out, prev);
    } else {
        let c = chunk_len(n);
        let mid = expand(out, prev, c);
        lemma_expand(out, prev, c);
        lemma_match_instruction(c, out, prev);
        lemma_match_run((n - c) as nat, mid, prev);
        lemma_expand_compose(out, prev, c, (n - c) as nat);
        lemma_expand(out, prev, n);
        lemma_expand(mid, prev, (n - c) as nat);
        lemma_segments_compose(
            match_header(c),
            match_run((n - c) as nat),
            out,
            prev,
            mid,
            prev,
            expand(out, prev, n),
            prev,
        );
    }
}

/// The smaller of two counts.
pub open spec fn min_nat(a: nat, b: nat) -> nat {
    if a <= b {
        a
    } else {
        b
    }
}

/// Where the literals before a match split: all but the last three go in
/// literal instructions of their own.
pub open spec fn inline_split(lits: Seq<u8>) -> nat {
    if lits.len() >= 3 {
        (lits.len() - 3) as nat
    } else {
        0
    }
}

/// The instruction that carries the inline literals and the first part of a
/// match, for each distance class.
pub open spec fn first_match_instruction(prev: nat, inline: Seq<u8>, m: nat, d: nat) -> (Seq<u8>, nat) {
    let limit = short_match_limit(inline.len());
    if d == prev {
        let first = min_nat(m, limit);
        (previous_distance_op(inline.len(), first) + inline, first)
    } else if d <= 0x3FFF && m > limit {
        let first = min_nat(m, 34);
        (medium_distance_op(inline.len(), first, d) + inline, first)
    } else if d < 0x600 {
        let first = min_nat(m, limit);
        (small_distance_op(inline.len(), first, d) + inline, first)
    } else {
        let first = min_nat(m, limit);
        (large_distance_op(inline.len(), first, d) + inline, first)
    }
}

/// What follows the separate literal instructions: the instruction with
/// the inline literals and the first part of the match, then match
/// instructions for the rest.
pub open spec fn match_tail(prev: nat, inline: Seq<u8>, m: nat, d: nat) -> Seq<u8> {
    if d == prev && inline.len() == 0 {
        match_run(m)
    } else {
        let (instruction, first) = first_match_instruction(prev, inline, m, d);
        instruction + match_run((m - first) as nat)
    }
}

/// The bytes the encoder emits for `lits` followed by a match of `m` bytes
/// at distance `d`, when the last match used distance `prev`.
pub open spec fn match_with_literals(prev: nat, lits: Seq<u8>, m: nat, d: nat) -> Seq<u8> {
    let split = inline_split(lits);
    literal_run(lits.subrange(0, split as int)) + match_tail(
        prev,
        lits.subrange(split as int, lits.len() as int),
        m,
        d,
    )
}

/// Literals and a match decode to the literals, then the copied bytes.
pub proof fn lemma_match_with_literals(prev: nat, lits: Seq<u8>, m: nat, d: nat, out: Seq<u8>)
    requires
        3 <= m,
        0 < d <= 0xFFFF,
        d <= out.len() + lits.len(),
    ensures
        segment_moves(
            match_with_literals(prev, lits, m, d),
            out,
            prev,
            expand(out + lits, d, m),
            d,
        ),
{
    let split = inline_split(lits);
    let head = lits.subrange(0, split as int);
    let inline = lits.subrange(split as int, lits.len() as int);
    let mid = out + head;
    assert(mid + inline =~= out + lits);
    lemma_literal_run(head, out, prev);
    lemma_expand(out + lits, d, m);
    if d == prev && inline.len() == 0 {
        assert(lits.len() == 0);
        assert(mid =~= out + lits);
        lemma_match_run(m, mid, prev);
        assert(match_with_literals(prev, lits, m, d) == literal_run(head) + match_run(m));
        lemma_segments_compose(literal_run(head), match_run(m), out, prev, mid, prev, expand(out + lits, d, m), d);
    } else {
        let (instruction, first) = first_match_instruction(prev, inline, m, d);
        let after_first = expand(out + lits, d, first);
        let limit = short_match_limit(inline.len());
        if d == prev {
            lemma_previous_distance_instruction(inline, first, mid, prev);
        } else if d <= 0x3FFF && m > limit {
            lemma_medium_distance_instruction(inline, first, d, mid, prev);
        } else if d < 0x600 {
            lemma_small_distance_instruction(inline, first, d, mid, prev);
        } else {
            lemma_large_distance_instruction(inline, first, d, mid, prev);
        }
        lemma_expand(out + lits, d, first);
        lemma_match_run((m - first) as nat, after_first, d);
        lemma_expand_compose(out + lits, d, first, (m - first) as nat);
        assert(first + (m - first) as nat == m);
        lemma_segments_compose(literal_run(head), instruction, out, prev, mid, prev, after_first, d);
        assert(match_with_literals(prev, lits, m, d) == literal_run(head) + instruction + match_run((m - first) as nat));
        lemma_segments_compose(
            literal_run(head) + instruction,
            match_run((m - first) as nat),
            out,
            prev,
            after_first,
            d,
            expand(out + lits, d, m),
            d,
        );
    }
}

/// Literal instructions take at most two bytes per literal.
pub proof fn lemma_literal_run_len(lits: Seq<u8>)
    ensures
        literal_run(lits).len() <= 2 * lits.len(),
    decreases lits.len(),
{
    if lits.len() > 0 {
        let n = chunk_len(lits.len());
        lemma_literal_run_len(lits.subrange(n as int, lits.len() as int));
    }
}

/// Match instructions at the previous distance take at most one byte per
/// matched byte.
pub proof fn lemma_match_run_len(n: nat)
    ensures
        match_run(n).len() <= n,
    decreases n,
{
    if n > 0 {
        lemma_match_run_len((n - chunk_len(n)) as nat);
    }
}

/// Literals and a match of at least three bytes take at most two bytes per
/// literal and one per matched byte.
pub proof fn lemma_match_with_literals_len(prev: nat, lits: Seq<u8>, m: nat, d: nat)
    requires
        3 <= m,
    ensures
        match_with_literals(prev, lits, m, d).len() <= 2 * lits.len() + m,
{
    let split = inline_split(lits);
    let head = lits.subrange(0, split as int);
    let inline = lits.subrange(split as int, lits.len() as int);
    lemma_literal_run_len(head);
    if d == prev && inline.len() == 0 {
        lemma_match_run_len(m);
    } else {
        let (instruction, first) = first_match_instruction(prev, inline, m, d);
        assert(3 <= first <= m);
        assert(instruction.len() <= 3 + inline.len());
        lemma_match_run_len((m - first) as nat);
    }
}

} // verus!
