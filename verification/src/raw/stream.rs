//! Incremental raw LZVN encoding and decoding.

use crate::error::{Error, Result};
use crate::raw::encode;
use crate::raw::encode::encode_spec;
use crate::raw::encoding::{eos_marker, lemma_expand_compose};
use crate::raw::opcode::{classify, opcode_kind, OpcodeKind};
use crate::raw::semantics::{
    advances, decode_exact_spec, decode_spec, lemma_run_cap, lemma_run_extend_err,
    lemma_run_extend_ok, lemma_run_out_prefix, expand, finish, has_nonzero_from, initial_state, lemma_advances_append,
    lemma_advances_refl, lemma_advances_step, lemma_advances_trans, lemma_expand, lemma_run_step,
    lemma_step_advances, literal_and_match, literal_only, match_only, run, step, stream_cap,
    truncated, DecodeState, Step, MAX_EOS_PADDING,
};
use crate::stream::{StreamProgress, StreamStatus};
use vstd::prelude::*;

verus! {

/// `encoded` is a raw LZVN stream that decodes to `src`, ending in the
/// padded end marker.
pub open spec fn raw_encoding_of(encoded: Seq<u8>, src: Seq<u8>) -> bool {
    &&& forall|cap: nat| cap >= src.len() ==> #[trigger] decode_spec(encoded, cap) == Ok::<
        Seq<u8>,
        Error,
    >(src)
    &&& encoded.len() >= 8
    &&& encoded.subrange(encoded.len() - 8, encoded.len() as int) == eos_marker()
}

/// Incremental raw LZVN encoder.
///
/// The encoder buffers all source bytes until [`RawEncoder::finish_input`] is
/// called, then drains the encoded stream in chunks via
/// [`RawEncoder::encode_into`].
#[derive(Debug)]
pub struct RawEncoder {
    input: Vec<u8>,
    encoded: Vec<u8>,
    output_offset: usize,
    finished_input: bool,
    prepared: bool,
}

/// What [`RawEncoder::encode_into`] does, from encoder `e0` and buffer
/// `dst0` to encoder `e1` and buffer `dst1`, returning `r`: nothing before
/// the input is complete; then the stream [`encode_spec`] of the fed bytes,
/// handed out in order, as much as fits each time.
pub open spec fn encode_into_outcome(
    e0: RawEncoder,
    dst0: Seq<u8>,
    e1: RawEncoder,
    dst1: Seq<u8>,
    r: core::result::Result<StreamProgress, Error>,
) -> bool {
    &&& e1.wf()
    &&& e1.fed() == e0.fed()
    &&& e1.input_finished() == e0.input_finished()
    &&& dst1.len() == dst0.len()
    &&& !e0.prepared() && !e0.input_finished() ==> {
        &&& r == Ok::<StreamProgress, Error>(
            StreamProgress { written: 0, status: StreamStatus::NeedInput },
        )
        &&& e1 == e0
        &&& dst1 == dst0
    }
    &&& e0.prepared() ==> e1.encoded() == e0.encoded()
    &&& !e0.prepared() && e0.input_finished() ==> {
        &&& raw_encoding_of(e1.encoded(), e0.fed())
        &&& e1.encoded().len() <= 2 * e0.fed().len() + 8
        &&& e1.encoded() == encode_spec(e0.fed())
        &&& e0.drained() == 0
    }
    &&& e0.prepared() || e0.input_finished() ==> {
        let enc = e1.encoded();
        let start = e0.drained();
        let remaining = enc.len() - start;
        let written = if remaining < dst0.len() {
            remaining
        } else {
            dst0.len() as int
        };
        &&& e1.prepared()
        &&& r matches Ok(p) && p.written == written
        &&& e1.drained() == start + written
        &&& dst1.subrange(0, written) == enc.subrange(start as int, start + written)
        &&& dst1.subrange(written, dst0.len() as int) == dst0.subrange(written, dst0.len() as int)
        &&& (r matches Ok(p) && (p.status == StreamStatus::Finished <==> e1.drained() == enc.len()))
        &&& (r matches Ok(p) && (p.status != StreamStatus::Finished ==> p.status
            == StreamStatus::NeedOutput))
    }
}

impl RawEncoder {
    /// The source bytes fed so far.
    pub closed spec fn fed(&self) -> Seq<u8> {
        self.input@
    }

    /// Whether the source has been declared complete.
    pub closed spec fn input_finished(&self) -> bool {
        self.finished_input
    }

    /// Whether the stream has been encoded (it then no longer changes).
    pub closed spec fn prepared(&self) -> bool {
        self.prepared
    }

    /// The encoded stream, once prepared.
    pub closed spec fn encoded(&self) -> Seq<u8> {
        self.encoded@
    }

    /// How many encoded bytes have been handed out.
    pub closed spec fn drained(&self) -> nat {
        self.output_offset as nat
    }

    /// The encoder's bookkeeping is consistent.
    pub closed spec fn wf(&self) -> bool {
        &&& self.output_offset <= self.encoded@.len()
        &&& !self.prepared ==> self.output_offset == 0
    }

    /// Create a new incremental raw encoder.
    pub fn new() -> (e: Self)
        ensures
            e.wf(),
            e.fed() == Seq::<u8>::empty(),
            !e.input_finished(),
            !e.prepared(),
            e.encoded() == Seq::<u8>::empty(),
            e.drained() == 0,
    {
        RawEncoder {
            input: Vec::new(),
            encoded: Vec::new(),
            output_offset: 0,
            finished_input: false,
            prepared: false,
        }
    }

    /// Append more source bytes.
    pub fn feed(&mut self, input: &[u8])
        requires
            old(self).wf(),
        ensures
            final(self).wf(),
            final(self).fed() == old(self).fed() + input@,
            final(self).input_finished() == old(self).input_finished(),
            final(self).prepared() == old(self).prepared(),
            final(self).encoded() == old(self).encoded(),
            final(self).drained() == old(self).drained(),
    {
        if !input.is_empty() {
            crate::bytes::extend_bytes(&mut self.input, input);
        } else {
            proof {
                assert(self.input@ + input@ =~= self.input@);
            }
        }
    }

    /// Mark the source stream as complete.
    pub fn finish_input(&mut self)
        requires
            old(self).wf(),
        ensures
            final(self).wf(),
            final(self).fed() == old(self).fed(),
            final(self).input_finished(),
            final(self).prepared() == old(self).prepared(),
            final(self).encoded() == old(self).encoded(),
            final(self).drained() == old(self).drained(),
    {
        self.finished_input = true;
    }

    /// Encode into `dst`, returning how many bytes were written and what is
    /// needed next.
    ///
    /// Nothing is written before the source is complete. The first call
    /// after that encodes the source; every call then hands out the next
    /// encoded bytes, as many as fit.
    pub fn encode_into(&mut self, dst: &mut [u8]) -> (r: Result<StreamProgress>)
        requires
            old(self).wf(),
        ensures
            encode_into_outcome(*old(self), old(dst)@, *final(self), final(dst)@, r),
    {
        if !self.prepared {
            if !self.finished_input {
                return Ok(StreamProgress::new(0, StreamStatus::NeedInput));
            }
            self.encoded = encode(self.input.as_slice());
            self.prepared = true;
        }
        if self.output_offset == self.encoded.len() {
            proof {
                assert(dst@.subrange(0, 0) =~= self.encoded@.subrange(self.output_offset as int, self.output_offset as int));
            }
            return Ok(StreamProgress::new(0, StreamStatus::Finished));
        }
        let written = drain_into(&self.encoded, &mut self.output_offset, dst);
        let status = if self.output_offset == self.encoded.len() {
            StreamStatus::Finished
        } else {
            StreamStatus::NeedOutput
        };
        Ok(StreamProgress::new(written, status))
    }

    /// Return whether the encoded output has been fully drained.
    pub fn is_finished(&self) -> (b: bool)
        requires
            self.wf(),
        ensures
            b == (self.prepared() && self.drained() == self.encoded().len()),
    {
        self.prepared && self.output_offset == self.encoded.len()
    }
}

/// The chunks an encoder hands out, call after call once its input is
/// complete, concatenate to the stream [`encode_spec`] of everything fed:
/// given the bytes `handed` out so far, one more call adds exactly the bytes
/// it wrote, asks for more room only with the buffer full, and reports
/// `Finished` exactly when the whole stream has been handed out.
pub proof fn lemma_encoder_hands_out_in_order(
    e0: RawEncoder,
    dst0: Seq<u8>,
    e1: RawEncoder,
    dst1: Seq<u8>,
    r: core::result::Result<StreamProgress, Error>,
    handed: Seq<u8>,
)
    requires
        e0.wf(),
        e0.input_finished(),
        e0.prepared() ==> e0.encoded() == encode_spec(e0.fed()),
        handed == if e0.prepared() {
            e0.encoded().subrange(0, e0.drained() as int)
        } else {
            Seq::<u8>::empty()
        },
        encode_into_outcome(e0, dst0, e1, dst1, r),
    ensures
        r matches Ok(p) && {
            &&& e1.fed() == e0.fed()
            &&& e1.prepared()
            &&& e1.encoded() == encode_spec(e1.fed())
            &&& handed + dst1.subrange(0, p.written as int) == e1.encoded().subrange(
                0,
                e1.drained() as int,
            )
            &&& (p.status == StreamStatus::Finished <==> e1.drained() == e1.encoded().len())
            &&& p.status != StreamStatus::Finished ==> p.status == StreamStatus::NeedOutput
                && p.written == dst0.len()
        },
{
    let enc = e1.encoded();
    let start = e0.drained();
    if let Ok(p) = r {
        let w = p.written as int;
        assert(handed =~= enc.subrange(0, start as int));
        assert(handed + dst1.subrange(0, w) =~= enc.subrange(0, start + w));
    }
}

impl Default for RawEncoder {
    fn default() -> (e: Self)
        ensures
            e.wf(),
            e.fed() == Seq::<u8>::empty(),
            !e.input_finished(),
            !e.prepared(),
            e.drained() == 0,
    {
        Self::new()
    }
}

/// Copies the next bytes of `encoded` after `*offset` into `dst`, as many as
/// fit, and advances the offset past them.
pub fn drain_into(encoded: &Vec<u8>, offset: &mut usize, dst: &mut [u8]) -> (written: usize)
    requires
        *old(offset) <= encoded@.len(),
    ensures
        ({
            let remaining = encoded@.len() - *old(offset);
            &&& written == if remaining < old(dst)@.len() { remaining } else { old(dst)@.len() as int }
            &&& *final(offset) == *old(offset) + written
            &&& final(dst)@.len() == old(dst)@.len()
            &&& final(dst)@.subrange(0, written as int) == encoded@.subrange(
                *old(offset) as int,
                *old(offset) + written,
            )
            &&& final(dst)@.subrange(written as int, old(dst)@.len() as int) == old(dst)@.subrange(
                written as int,
                old(dst)@.len() as int,
            )
        }),
{
    let start = *offset;
    let remaining = encoded.len() - start;
    let written = if remaining < dst.len() { remaining } else { dst.len() };
    let mut index: usize = 0;
    while index < written
        invariant
            index <= written,
            written <= dst@.len(),
            start + written <= encoded@.len(),
            encoded@.len() <= usize::MAX,
            dst@.len() == old(dst)@.len(),
            forall|k: int| 0 <= k < index ==> #[trigger] dst@[k] == encoded@[start + k],
            forall|k: int| written <= k < dst@.len() ==> #[trigger] dst@[k] == old(dst)@[k],
        decreases written - index,
    {
        dst[index] = encoded[start + index];
        index = index + 1;
    }
    proof {
        assert(dst@.subrange(0, written as int) =~= encoded@.subrange(start as int, start + written));
        assert(dst@.subrange(written as int, dst@.len() as int) =~= old(dst)@.subrange(
            written as int,
            old(dst)@.len() as int,
        ));
    }
    *offset = start + written;
    written
}

const INPUT_COMPACT_THRESHOLD: usize = 4_096;

/// The decoded instruction whose bytes have not all been handed out yet.
#[derive(Debug, Default, Clone, Copy, PartialEq, Eq)]
struct Pending {
    literal: usize,
    matched: usize,
    distance: usize,
}

impl Pending {
    fn is_empty(self) -> (b: bool)
        ensures
            b == (self.literal == 0 && self.matched == 0),
    {
        self.literal == 0 && self.matched == 0
    }
}

/// Incremental raw LZVN decoder.
///
/// The decoder accepts input in chunks via [`RawDecoder::feed`] and emits
/// decoded bytes into caller-provided buffers via [`RawDecoder::decode_into`].
/// It retains decoded history internally so that back-references continue to
/// work across output boundaries.
pub struct RawDecoder {
    input: Vec<u8>,
    input_offset: usize,
    input_base: usize,
    history: Vec<u8>,
    previous_distance: usize,
    pending: Pending,
    finished_input: bool,
    finished: bool,
    eos_padding: usize,
    trailing_after_finish: usize,
    fed: Ghost<Seq<u8>>,
}

/// What one call of [`RawDecoder::decode_into`] does, from the decoder's
/// state `m0` with output `out0` over the fed bytes `fed` and the buffer
/// `dst0`, to state `m1` with output `out1` and buffer `dst1`.
pub open spec fn stream_outcome(
    fed: Seq<u8>,
    m0: DecodeState,
    out0: Seq<u8>,
    dst0: Seq<u8>,
    m1: DecodeState,
    out1: Seq<u8>,
    dst1: Seq<u8>,
    done1: bool,
    idle1: bool,
    input_finished: bool,
    r: core::result::Result<StreamProgress, Error>,
) -> bool {
    match r {
        Ok(p) => {
            &&& p.written <= dst0.len()
            &&& out1 == out0 + dst1.subrange(0, p.written as int)
            &&& dst1.subrange(p.written as int, dst0.len() as int) == dst0.subrange(
                p.written as int,
                dst0.len() as int,
            )
            &&& advances(fed, m0, m1)
            &&& out1.len() <= m1.out.len()
            &&& m1.out.subrange(0, out1.len() as int) == out1
            &&& idle1 ==> m1.out == out1
            &&& (p.status == StreamStatus::NeedOutput ==> p.written == dst0.len() && !done1)
            &&& (p.status == StreamStatus::NeedInput ==> p.written < dst0.len() && !input_finished
                && idle1 && !done1 && needs_input(fed, m1))
            &&& (p.status == StreamStatus::Finished ==> done1 && run(fed, stream_cap(), m0) == Ok::<
                Seq<u8>,
                Error,
            >(out1))
        },
        Err(e) => {
            &&& run(fed, stream_cap(), m0) == Err::<Seq<u8>, Error>(e)
            &&& !input_finished ==> !(e is TruncatedInput)
        },
    }
}

/// The instruction at `st` needs bytes that `fed` does not hold yet.
pub open spec fn needs_input(fed: Seq<u8>, st: DecodeState) -> bool {
    st.pos >= fed.len() || step(fed, stream_cap(), st) == truncated(st.pos)
}

/// What [`RawDecoder::feed`] does: before the end of the stream the bytes
/// are appended; after it, zero bytes are taken as padding while at most
/// seven have come, and anything else counts as trailing data.
pub open spec fn feed_outcome(d0: RawDecoder, input: Seq<u8>, d1: RawDecoder) -> bool {
    &&& d1.wf()
    &&& d1.output() == d0.output()
    &&& d1.done() == d0.done()
    &&& d1.input_finished() == d0.input_finished()
    &&& d1.machine() == d0.machine()
    &&& d1.idle() == d0.idle()
    &&& takes_input(d0, input, d1)
    &&& d1.done() ==> ended_with_padding(d1.fed(), d1.padding())
    &&& d0.consistent() ==> d1.consistent()
}

/// Where the bytes `input` handed to decoder `d0` go in decoder `d1`: to
/// the stream, or, once it has ended and they are not all padding, to the
/// count of trailing bytes.
pub open spec fn takes_input(d0: RawDecoder, input: Seq<u8>, d1: RawDecoder) -> bool {
    &&& !d0.done() ==> d1.fed() == d0.fed() + input && d1.trailing() == d0.trailing()
        && d1.padding() == d0.padding()
    &&& d0.done() ==> if input.len() == 0 || (forall|k: int| 0 <= k < input.len() ==> input[k] == 0)
        && d0.padding() + input.len() <= MAX_EOS_PADDING {
        d1.fed() == d0.fed() + input && d1.trailing() == d0.trailing() && d1.padding()
            == d0.padding() + input.len()
    } else {
        d1.fed() == d0.fed() && d1.trailing() == d0.trailing() + input.len() && d1.padding()
            == d0.padding()
    }
}

/// `fed` ends in the end-of-stream opcode followed by `padding` zero bytes,
/// at most seven.
pub open spec fn ended_with_padding(fed: Seq<u8>, padding: nat) -> bool {
    &&& padding <= MAX_EOS_PADDING
    &&& fed.len() >= padding + 1
    &&& fed[fed.len() - 1 - padding] == 0x06
    &&& !has_nonzero_from(fed, (fed.len() - padding) as nat)
}

/// What [`RawDecoder::decode_into`] does, from decoder `d0` and buffer
/// `dst0` to decoder `d1` and buffer `dst1`, returning `r`: refused
/// trailing data is reported again and again; an ended stream reports
/// that it is finished; otherwise decoding goes on as [`stream_outcome`]
/// says.
pub open spec fn decode_step(
    d0: RawDecoder,
    dst0: Seq<u8>,
    d1: RawDecoder,
    dst1: Seq<u8>,
    r: core::result::Result<StreamProgress, Error>,
) -> bool {
    &&& d1.wf()
    &&& d1.fed() == d0.fed()
    &&& d1.input_finished() == d0.input_finished()
    &&& d1.trailing() == d0.trailing()
    &&& dst1.len() == dst0.len()
    &&& d0.trailing() != 0 ==> r == Err::<StreamProgress, Error>(
        Error::TrailingData { remaining: d0.trailing() as usize },
    ) && d1 == d0 && dst1 == dst0
    &&& d0.trailing() == 0 && d0.done() ==> r == Ok::<StreamProgress, Error>(
        StreamProgress { written: 0, status: StreamStatus::Finished },
    ) && d1 == d0 && dst1 == dst0
    &&& d0.trailing() == 0 && !d0.done() ==> stream_outcome(
        d0.fed(),
        d0.machine(),
        d0.output(),
        dst0,
        d1.machine(),
        d1.output(),
        dst1,
        d1.done(),
        d1.idle(),
        d0.input_finished(),
        r,
    )
    &&& d1.done() ==> ended_with_padding(d1.fed(), d1.padding())
    &&& d0.consistent() && r is Ok ==> d1.consistent()
}

impl RawDecoder {
    /// Every byte accepted as part of the stream so far (end-of-stream
    /// padding included, refused trailing bytes not).
    pub closed spec fn fed(&self) -> Seq<u8> {
        self.fed@
    }

    /// Every byte decoded so far.
    pub closed spec fn output(&self) -> Seq<u8> {
        self.history@
    }

    /// Whether the end-of-stream marker has been decoded.
    pub closed spec fn done(&self) -> bool {
        self.finished
    }

    /// Whether the input has been declared complete.
    pub closed spec fn input_finished(&self) -> bool {
        self.finished_input
    }

    /// How many bytes were fed after the stream ended that are not padding.
    pub closed spec fn trailing(&self) -> nat {
        self.trailing_after_finish as nat
    }

    /// How many padding bytes followed the end-of-stream marker.
    pub closed spec fn padding(&self) -> nat {
        self.eos_padding as nat
    }

    /// The position of the decoder: the state of the stream's decoding
    /// after the instruction whose bytes are being handed out. Once the
    /// stream has ended, the state at its end-of-stream marker.
    pub closed spec fn machine(&self) -> DecodeState {
        if self.finished {
            DecodeState {
                pos: (self.fed@.len() - 1 - self.eos_padding) as nat,
                out: self.history@,
                prev: self.previous_distance as nat,
            }
        } else {
            let abs = self.input_base + self.input_offset;
            let lits = self.fed@.subrange(abs as int, abs + self.pending.literal);
            DecodeState {
                pos: (abs + self.pending.literal) as nat,
                out: expand(
                    self.history@ + lits,
                    self.pending.distance as nat,
                    self.pending.matched as nat,
                ),
                prev: self.previous_distance as nat,
            }
        }
    }

    /// Nothing of a decoded instruction is left to hand out.
    pub closed spec fn idle(&self) -> bool {
        self.pending.literal == 0 && self.pending.matched == 0
    }

    /// The decoder's bookkeeping is consistent.
    pub closed spec fn wf(&self) -> bool {
        &&& self.fed@.len() <= usize::MAX
        &&& if self.finished {
            &&& self.idle()
            &&& self.eos_padding <= MAX_EOS_PADDING
            &&& self.fed@.len() >= 1 + self.eos_padding
            &&& self.fed@[self.fed@.len() - 1 - self.eos_padding] == 0x06
            &&& !has_nonzero_from(self.fed@, (self.fed@.len() - self.eos_padding) as nat)
        } else {
            &&& self.input_base + self.input@.len() == self.fed@.len()
            &&& self.input@ == self.fed@.subrange(self.input_base as int, self.fed@.len() as int)
            &&& self.input_offset <= self.input@.len()
            &&& self.pending.literal <= self.input@.len() - self.input_offset
            &&& self.pending.literal <= 3 || self.pending.matched == 0
            &&& self.pending.matched > 0 ==> {
                &&& self.pending.distance == self.previous_distance
                &&& 0 < self.pending.distance <= self.history@.len() + self.pending.literal
            }
            &&& self.history@.len() + self.pending.literal + self.pending.matched <= usize::MAX
        }
    }

    /// The decoder stands where decoding everything fed so far from the
    /// start would.
    pub open spec fn consistent(&self) -> bool {
        &&& self.wf()
        &&& advances(self.fed(), initial_state(), self.machine())
    }

    /// Create a new incremental raw decoder.
    pub fn new() -> (d: Self)
        ensures
            d.consistent(),
            d.fed() == Seq::<u8>::empty(),
            d.output() == Seq::<u8>::empty(),
            !d.done(),
            !d.input_finished(),
            d.trailing() == 0,
            d.machine() == initial_state(),
            d.idle(),
    {
        let d = RawDecoder {
            input: Vec::new(),
            input_offset: 0,
            input_base: 0,
            history: Vec::new(),
            previous_distance: 0,
            pending: Pending { literal: 0, matched: 0, distance: 0 },
            finished_input: false,
            finished: false,
            eos_padding: 0,
            trailing_after_finish: 0,
            fed: Ghost(Seq::empty()),
        };
        proof {
            assert(d.machine().out =~= Seq::<u8>::empty());
            lemma_advances_refl(Seq::empty(), initial_state());
        }
        d
    }

    /// Append more encoded input bytes.
    ///
    /// Once the stream has ended, zero bytes are accepted as end-of-stream
    /// padding (up to seven in all); anything else counts as trailing data.
    pub fn feed(&mut self, input: &[u8])
        requires
            old(self).wf(),
            old(self).fed().len() + old(self).trailing() + input@.len() <= usize::MAX,
        ensures
            feed_outcome(*old(self), input@, *final(self)),
    {
        if input.is_empty() {
            proof {
                assert(self.fed@ + input@ =~= self.fed@);
            }
            return;
        }
        let ghost before = *self;
        if self.finished {
            let mut all_zero = true;
            let mut index: usize = 0;
            while index < input.len()
                invariant
                    index <= input@.len(),
                    all_zero == (forall|k: int| 0 <= k < index ==> input@[k] == 0),
                decreases input@.len() - index,
            {
                if input[index] != 0 {
                    all_zero = false;
                }
                index = index + 1;
            }
            if all_zero && self.eos_padding.saturating_add(input.len()) <= MAX_EOS_PADDING {
                self.eos_padding = self.eos_padding + input.len();
                proof {
                    let old_fed = self.fed@;
                    self.fed@ = old_fed + input@;
                    assert(self.fed@[self.fed@.len() - 1 - self.eos_padding] == old_fed[old_fed.len() - 1 - before.eos_padding]);
                    assert(!has_nonzero_from(self.fed@, (self.fed@.len() - self.eos_padding) as nat)) by {
                        assert forall|i: int| (self.fed@.len() - self.eos_padding) <= i < self.fed@.len() implies self.fed@[i] == 0 by {
                            if i < old_fed.len() {
                                assert(!(old_fed[i] != 0));
                            }
                        }
                    }
                    if before.consistent() {
                        lemma_advances_append(old_fed, input@, initial_state(), before.machine());
                    }
                }
            } else {
                self.trailing_after_finish = self.trailing_after_finish + input.len();
            }
            return;
        }
        crate::bytes::extend_bytes(&mut self.input, input);
        proof {
            let old_fed = self.fed@;
            self.fed@ = old_fed + input@;
            assert(self.input@ =~= self.fed@.subrange(self.input_base as int, self.fed@.len() as int));
            let abs = self.input_base + self.input_offset;
            assert(self.fed@.subrange(abs as int, abs + self.pending.literal) =~= old_fed.subrange(abs as int, abs + self.pending.literal));
            if before.consistent() {
                lemma_advances_append(old_fed, input@, initial_state(), before.machine());
            }
        }
    }

    /// Mark the encoded input stream as complete.
    pub fn finish_input(&mut self)
        requires
            old(self).wf(),
        ensures
            final(self).wf(),
            final(self).fed() == old(self).fed(),
            final(self).output() == old(self).output(),
            final(self).done() == old(self).done(),
            final(self).input_finished(),
            final(self).trailing() == old(self).trailing(),
            final(self).padding() == old(self).padding(),
            final(self).machine() == old(self).machine(),
            final(self).idle() == old(self).idle(),
            old(self).consistent() ==> final(self).consistent(),
    {
        self.finished_input = true;
    }

    /// Where the next unread byte stands in the stream.
    closed spec fn abs(&self) -> nat {
        (self.input_base + self.input_offset) as nat
    }

    /// An idle decoder stands at its next opcode with everything decoded.
    proof fn lemma_idle_machine(&self)
        requires
            self.wf(),
            !self.finished,
            self.idle(),
        ensures
            self.machine() == (DecodeState {
                pos: self.abs(),
                out: self.history@,
                prev: self.previous_distance as nat,
            }),
    {
        let abs = self.abs();
        assert(self.history@ + self.fed@.subrange(abs as int, abs as int) =~= self.history@);
    }

    /// Decode into `dst`, returning how many bytes were written and what is
    /// needed next.
    ///
    /// The bytes written are the next ones the stream decodes to; the call
    /// stops when `dst` is full, when the next instruction is not all fed
    /// yet, or at the end-of-stream marker. An error is the one decoding the
    /// fed bytes from the decoder's position ends with.
    pub fn decode_into(&mut self, dst: &mut [u8]) -> (r: Result<StreamProgress>)
        requires
            old(self).wf(),
        ensures
            decode_step(*old(self), old(dst)@, *final(self), final(dst)@, r),
    {
        if self.trailing_after_finish != 0 {
            return Err(Error::TrailingData { remaining: self.trailing_after_finish });
        }
        if self.finished {
            return Ok(StreamProgress::new(0, StreamStatus::Finished));
        }
        let ghost fed = self.fed@;
        let ghost m0 = self.machine();
        let ghost h0 = self.history@;
        let ghost d0 = dst@;
        let ghost start = *self;
        let mut written: usize = 0;
        proof {
            lemma_advances_refl(fed, m0);
            assert(h0 + dst@.subrange(0, 0) =~= h0);
        }
        loop
            invariant
                self.wf(),
                !self.finished,
                self.trailing_after_finish == 0,
                self.fed@ == fed,
                self.finished_input == start.finished_input,
                start.wf(),
                start.fed@ == fed,
                start.trailing_after_finish == 0,
                !start.finished,
                m0 == start.machine(),
                h0 == start.history@,
                written <= dst@.len(),
                dst@.len() == d0.len(),
                d0 == old(dst)@,
                *old(self) == start,
                self.history@ == h0 + dst@.subrange(0, written as int),
                dst@.subrange(written as int, d0.len() as int) == d0.subrange(written as int, d0.len() as int),
                advances(fed, m0, self.machine()),
            decreases dst@.len() - written, fed.len() - self.abs(),
        {
            if written == dst.len() {
                proof {
                    self.lemma_output_in_machine();
                }
                return Ok(StreamProgress::new(written, StreamStatus::NeedOutput));
            }
            if !self.pending.is_empty() {
                let ghost before = dst@;
                let count = self.hand_out_pending(dst, written);
                proof {
                    self.lemma_dst_step(h0, d0, before, dst@, written as int, count as int);
                }
                written = written + count;
                continue;
            }
            proof {
                self.lemma_idle_machine();
            }
            let ghost m = self.machine();
            if self.available_input() == 0 {
                self.compact_input();
                proof {
                    self.lemma_idle_machine();
                    assert(fed + Seq::<u8>::empty() =~= fed);
                    assert(run(fed + Seq::<u8>::empty(), stream_cap(), m0) == run(fed + Seq::<u8>::empty(), stream_cap(), m));
                }
                if self.finished_input {
                    return Err(Error::TruncatedInput { position: self.absolute_offset() });
                }
                proof {
                    self.lemma_output_in_machine();
                }
                return Ok(StreamProgress::new(written, StreamStatus::NeedInput));
            }
            let opcode = self.input[self.input_offset];
            proof {
                assert(opcode == fed[m.pos as int]);
                assert(fed + Seq::<u8>::empty() =~= fed);
                assert(run(fed + Seq::<u8>::empty(), stream_cap(), m0) == run(fed + Seq::<u8>::empty(), stream_cap(), m));
                lemma_run_step(fed, stream_cap(), m);
            }
            let kind = match classify(opcode) {
                Some(k) => k,
                None => {
                    return Err(Error::InvalidOpcode { position: self.absolute_offset(), opcode });
                },
            };
            if kind == OpcodeKind::Eos {
                match self.consume_eos() {
                    Ok(()) => {},
                    Err(e) => return Err(e),
                }
                self.finished = true;
                proof {
                    assert(self.machine() == m);
                    lemma_advances_refl(fed, m);
                    assert(dst@.subrange(written as int, d0.len() as int) =~= d0.subrange(written as int, d0.len() as int));
                }
                proof {
                    self.lemma_output_in_machine();
                }
                return Ok(StreamProgress::new(written, StreamStatus::Finished));
            }
            match self.start_instruction(opcode, kind) {
                Ok(true) => {
                    proof {
                        lemma_advances_step(fed, m, self.machine());
                        lemma_advances_trans(fed, m0, m, self.machine());
                    }
                },
                Ok(false) => {
                    proof {
                        self.lemma_output_in_machine();
                    }
                    return Ok(StreamProgress::new(written, StreamStatus::NeedInput));
                },
                Err(e) => return Err(e),
            }
        }
    }

    /// The bytes decoded so far begin the machine's decoded bytes, and are
    /// all of them once nothing is left to hand out.
    proof fn lemma_output_in_machine(&self)
        requires
            self.wf(),
        ensures
            self.history@.len() <= self.machine().out.len(),
            self.machine().out.subrange(0, self.history@.len() as int) == self.history@,
            self.idle() ==> self.machine().out == self.history@,
    {
        let h = self.history@;
        if self.finished {
            assert(h.subrange(0, h.len() as int) =~= h);
        } else {
            let abs = self.abs();
            let lits = self.fed@.subrange(abs as int, abs + self.pending.literal);
            let x = h + lits;
            lemma_expand(x, self.pending.distance as nat, self.pending.matched as nat);
            let out = self.machine().out;
            assert(out.subrange(0, h.len() as int) =~= x.subrange(0, h.len() as int));
            assert(x.subrange(0, h.len() as int) =~= h);
            if self.idle() {
                assert(lits =~= Seq::<u8>::empty());
                assert(x =~= h);
            }
        }
    }

    /// Bookkeeping for bytes handed out at `at`.
    proof fn lemma_dst_step(
        &self,
        h0: Seq<u8>,
        d0: Seq<u8>,
        before: Seq<u8>,
        after: Seq<u8>,
        at: int,
        count: int,
    )
        requires
            0 <= at,
            0 <= count,
            at + count <= d0.len(),
            before.len() == d0.len(),
            after.len() == d0.len(),
            before.subrange(at, d0.len() as int) == d0.subrange(at, d0.len() as int),
            forall|i: int| 0 <= i < d0.len() && !(at <= i < at + count) ==> #[trigger] after[i] == before[i],
        ensures
            after.subrange(0, at) == before.subrange(0, at),
            after.subrange(at + count, d0.len() as int) == d0.subrange(at + count, d0.len() as int),
            before.subrange(0, at) + after.subrange(at, at + count) == after.subrange(0, at + count),
    {
        assert(after.subrange(0, at) =~= before.subrange(0, at));
        assert forall|i: int| at + count <= i < d0.len() implies after[i] == d0[i] by {
            assert(before[i] == before.subrange(at, d0.len() as int)[i - at]);
        }
        assert(after.subrange(at + count, d0.len() as int) =~= d0.subrange(at + count, d0.len() as int));
        assert(before.subrange(0, at) + after.subrange(at, at + count) =~= after.subrange(0, at + count));
    }

    /// The fields that the decoder's helpers leave alone.
    closed spec fn same_stream(&self, other: &Self) -> bool {
        &&& self.fed@ == other.fed@
        &&& self.finished == other.finished
        &&& self.finished_input == other.finished_input
        &&& self.trailing_after_finish == other.trailing_after_finish
    }

    fn available_input(&self) -> (n: usize)
        requires
            self.wf(),
            !self.finished,
        ensures
            n == self.input@.len() - self.input_offset,
            n == self.fed@.len() - self.abs(),
    {
        self.input.len() - self.input_offset
    }

    fn absolute_offset(&self) -> (n: usize)
        requires
            self.wf(),
            !self.finished,
        ensures
            n == self.abs(),
    {
        self.input_base + self.input_offset
    }

    /// Drops the bytes already read from the input buffer.
    fn compact_input(&mut self)
        requires
            old(self).wf(),
            !old(self).finished,
        ensures
            final(self).wf(),
            final(self).same_stream(&*old(self)),
            final(self).history == old(self).history,
            final(self).previous_distance == old(self).previous_distance,
            final(self).pending == old(self).pending,
            final(self).abs() == old(self).abs(),
            final(self).machine() == old(self).machine(),
            final(self).eos_padding == old(self).eos_padding,
            final(self).input_offset == 0,
            final(self).input_base == old(self).input_base + old(self).input_offset,
            final(self).input@ == old(self).input@.subrange(
                old(self).input_offset as int,
                old(self).input@.len() as int,
            ),
    {
        if self.input_offset == 0 {
            proof {
                assert(self.input@.subrange(0, self.input@.len() as int) =~= self.input@);
            }
            return;
        }
        let offset = self.input_offset;
        let mut rest: Vec<u8> = Vec::new();
        crate::bytes::extend_bytes(&mut rest, &self.input[offset..self.input.len()]);
        self.input = rest;
        self.input_base = self.input_base + offset;
        self.input_offset = 0;
        proof {
            assert(self.input@ =~= self.fed@.subrange(self.input_base as int, self.fed@.len() as int));
        }
    }

    fn compact_input_if_necessary(&mut self)
        requires
            old(self).wf(),
            !old(self).finished,
        ensures
            final(self).wf(),
            final(self).same_stream(&*old(self)),
            final(self).history == old(self).history,
            final(self).previous_distance == old(self).previous_distance,
            final(self).pending == old(self).pending,
            final(self).abs() == old(self).abs(),
            final(self).machine() == old(self).machine(),
            final(self).eos_padding == old(self).eos_padding,
            ({
                let len = old(self).input@.len();
                let offset = old(self).input_offset;
                if old(self).pending.literal == 0 && old(self).pending.matched == 0 && (offset == len
                    || offset >= INPUT_COMPACT_THRESHOLD || offset >= len - offset) {
                    &&& final(self).input_offset == 0
                    &&& final(self).input_base == old(self).input_base + offset
                    &&& final(self).input@ == old(self).input@.subrange(offset as int, len as int)
                } else {
                    &&& final(self).input == old(self).input
                    &&& final(self).input_offset == offset
                    &&& final(self).input_base == old(self).input_base
                }
            }),
    {
        let len = self.input.len();
        if self.pending.is_empty() && (self.input_offset == len || self.input_offset
            >= INPUT_COMPACT_THRESHOLD || self.input_offset >= len - self.input_offset) {
            self.compact_input();
        }
    }

    /// Hands out as much of the pending instruction as fits at `dst[at..]`:
    /// its literal bytes first, then its match bytes.
    fn hand_out_pending(&mut self, dst: &mut [u8], at: usize) -> (count: usize)
        requires
            old(self).wf(),
            !old(self).finished,
            !old(self).idle(),
            at < old(dst)@.len(),
        ensures
            final(self).wf(),
            final(self).same_stream(&*old(self)),
            final(self).machine() == old(self).machine(),
            0 < count <= old(dst)@.len() - at,
            final(dst)@.len() == old(dst)@.len(),
            forall|i: int| 0 <= i < old(dst)@.len() && !(at <= i < at + count) ==> #[trigger] final(dst)@[i] == old(dst)@[i],
            final(self).history@ == old(self).history@ + final(dst)@.subrange(at as int, at + count),
    {
        if self.pending.literal != 0 {
            return self.copy_pending_literal(dst, at);
        }
        let count = self.copy_pending_match(dst, at);
        if self.pending.matched == 0 {
            self.pending.distance = 0;
            proof {
                let abs = self.abs();
                assert(self.fed@.subrange(abs as int, abs as int) =~= Seq::<u8>::empty());
            }
        }
        count
    }

    /// Hands out as many pending literal bytes as fit at `dst[at..]`.
    fn copy_pending_literal(&mut self, dst: &mut [u8], at: usize) -> (count: usize)
        requires
            old(self).wf(),
            !old(self).finished,
            old(self).pending.literal > 0,
            at < old(dst)@.len(),
        ensures
            final(self).wf(),
            final(self).same_stream(&*old(self)),
            final(self).machine() == old(self).machine(),
            count > 0,
            count == if old(self).pending.literal < old(dst)@.len() - at {
                old(self).pending.literal as int
            } else {
                old(dst)@.len() - at
            },
            final(self).pending.literal == old(self).pending.literal - count,
            final(self).pending.matched == old(self).pending.matched,
            final(self).abs() == old(self).abs() + count,
            final(dst)@.len() == old(dst)@.len(),
            forall|i: int| 0 <= i < old(dst)@.len() && !(at <= i < at + count) ==> #[trigger] final(dst)@[i] == old(dst)@[i],
            final(self).history@ == old(self).history@ + final(dst)@.subrange(at as int, at + count),
    {
        let ghost before = *self;
        let dst_len = dst.len();
        let input_len = self.input.len();
        let room = dst.len() - at;
        let count = if self.pending.literal < room { self.pending.literal } else { room };
        let start = self.input_offset;
        let mut index: usize = 0;
        while index < count
            invariant
                index <= count,
                at + count <= dst@.len(),
                dst@.len() == old(dst)@.len(),
                dst@.len() <= usize::MAX,
                self.input@.len() <= usize::MAX,
                start + count <= self.input@.len(),
                *self == before || (self.history@.len() == before.history@.len() + index && self.input == before.input && self.input_offset == before.input_offset),
                self.input == before.input,
                self.input_offset == start,
                self.history@ == before.history@ + self.input@.subrange(start as int, start + index),
                forall|k: int| 0 <= k < index ==> #[trigger] dst@[at + k] == self.input@[start + k],
                forall|i: int| 0 <= i < old(dst)@.len() && !(at <= i < at + index) ==> #[trigger] dst@[i] == old(dst)@[i],
                self.input_base == before.input_base,
                self.pending == before.pending,
                self.previous_distance == before.previous_distance,
                self.fed@ == before.fed@,
                self.finished == before.finished,
                self.finished_input == before.finished_input,
                self.trailing_after_finish == before.trailing_after_finish,
                self.eos_padding == before.eos_padding,
            decreases count - index,
        {
            let byte = self.input[start + index];
            dst[at + index] = byte;
            self.history.push(byte);
            index = index + 1;
            proof {
                assert(self.history@ =~= before.history@ + self.input@.subrange(start as int, start + index));
            }
        }
        self.input_offset = start + count;
        self.pending.literal = self.pending.literal - count;
        proof {
            assert forall|k: int| 0 <= k < count implies #[trigger] dst@.subrange(at as int, at + count)[k] == self.input@.subrange(start as int, start + count)[k] by {
                assert(dst@[at + k] == self.input@[start + k]);
            }
            assert(dst@.subrange(at as int, at + count) =~= self.input@.subrange(start as int, start + count));
            let abs0 = before.abs();
            let lits0 = self.fed@.subrange(abs0 as int, abs0 + before.pending.literal);
            let abs1 = self.abs();
            let lits1 = self.fed@.subrange(abs1 as int, abs1 + self.pending.literal);
            assert(self.input@.subrange(start as int, start + count) =~= self.fed@.subrange(abs0 as int, abs0 + count));
            assert(self.history@ + lits1 =~= before.history@ + lits0);
        }
        self.compact_input_if_necessary();
        count
    }

    /// Hands out as many pending match bytes as fit at `dst[at..]`.
    fn copy_pending_match(&mut self, dst: &mut [u8], at: usize) -> (count: usize)
        requires
            old(self).wf(),
            !old(self).finished,
            old(self).pending.literal == 0,
            old(self).pending.matched > 0,
            at < old(dst)@.len(),
        ensures
            final(self).wf(),
            final(self).same_stream(&*old(self)),
            final(self).machine() == old(self).machine(),
            count > 0,
            count == if old(self).pending.matched < old(dst)@.len() - at {
                old(self).pending.matched as int
            } else {
                old(dst)@.len() - at
            },
            final(self).pending.literal == 0,
            final(self).pending.matched == old(self).pending.matched - count,
            final(self).pending.distance == old(self).pending.distance,
            final(self).abs() == old(self).abs(),
            final(self).input_base == old(self).input_base,
            final(self).input_offset == old(self).input_offset,
            final(dst)@.len() == old(dst)@.len(),
            forall|i: int| 0 <= i < old(dst)@.len() && !(at <= i < at + count) ==> #[trigger] final(dst)@[i] == old(dst)@[i],
            final(self).history@ == old(self).history@ + final(dst)@.subrange(at as int, at + count),
    {
        let ghost before = *self;
        let ghost h0 = self.history@;
        let dst_len = dst.len();
        let distance = self.pending.distance;
        let room = dst.len() - at;
        let count = if self.pending.matched < room { self.pending.matched } else { room };
        let mut index: usize = 0;
        proof {
            assert(h0.subrange(0, h0.len() as int) =~= h0);
        }
        while index < count
            invariant
                index <= count,
                count <= before.pending.matched,
                at + count <= dst@.len(),
                dst@.len() == old(dst)@.len(),
                dst@.len() <= usize::MAX,
                0 < distance <= h0.len(),
                before.history@.len() + before.pending.matched <= usize::MAX,
                h0 == before.history@,
                self.history@ == expand(h0, distance as nat, index as nat),
                forall|k: int| 0 <= k < index ==> #[trigger] dst@[at + k] == self.history@[h0.len() + k],
                forall|i: int| 0 <= i < old(dst)@.len() && !(at <= i < at + index) ==> #[trigger] dst@[i] == old(dst)@[i],
                self.input == before.input,
                self.input_offset == before.input_offset,
                self.input_base == before.input_base,
                self.pending == before.pending,
                self.previous_distance == before.previous_distance,
                self.fed@ == before.fed@,
                self.finished == before.finished,
                self.finished_input == before.finished_input,
                self.trailing_after_finish == before.trailing_after_finish,
                self.eos_padding == before.eos_padding,
            decreases count - index,
        {
            proof {
                lemma_expand(h0, distance as nat, index as nat);
            }
            let source = self.history.len() - distance;
            let byte = self.history[source];
            let ghost prior = self.history@;
            self.history.push(byte);
            dst[at + index] = byte;
            index = index + 1;
            proof {
                lemma_expand(h0, distance as nat, index as nat);
                assert(self.history@ == expand(h0, distance as nat, index as nat));
                assert forall|k: int| 0 <= k < index implies #[trigger] dst@[at + k] == self.history@[h0.len() + k] by {
                    if k < index - 1 {
                        assert(self.history@[h0.len() + k] == prior[h0.len() + k]);
                    }
                }
            }
        }
        self.pending.matched = self.pending.matched - count;
        proof {
            lemma_expand(h0, distance as nat, count as nat);
            assert forall|k: int| 0 <= k < count implies #[trigger] dst@.subrange(at as int, at + count)[k] == self.history@.subrange(h0.len() as int, h0.len() + count)[k] by {
                assert(dst@[at + k] == self.history@[h0.len() + k]);
            }
            assert(dst@.subrange(at as int, at + count) =~= self.history@.subrange(h0.len() as int, h0.len() + count));
            assert(self.history@ =~= h0 + self.history@.subrange(h0.len() as int, h0.len() + count)) by {
                assert(self.history@.subrange(0, h0.len() as int) == h0);
            }
            let abs = self.abs();
            let empty = self.fed@.subrange(abs as int, abs as int);
            assert(empty =~= Seq::<u8>::empty());
            assert(h0 + empty =~= h0);
            assert(self.history@ + empty =~= self.history@);
            lemma_expand_compose(h0, distance as nat, count as nat, (before.pending.matched - count) as nat);
            assert(count + (before.pending.matched - count) == before.pending.matched);
        }
        count
    }

    /// Consumes the end-of-stream marker and its padding.
    fn consume_eos(&mut self) -> (r: Result<()>)
        requires
            old(self).wf(),
            !old(self).finished,
            old(self).idle(),
            old(self).abs() < old(self).fed@.len(),
            old(self).fed@[old(self).abs() as int] == 0x06,
        ensures
            final(self).wf(),
            final(self).same_stream(&*old(self)),
            final(self).history == old(self).history,
            final(self).previous_distance == old(self).previous_distance,
            final(self).idle(),
            match finish(old(self).fed@, old(self).machine()) {
                Ok(_) => r is Ok && final(self).eos_padding == old(self).fed@.len() - old(self).abs() - 1
                    && final(self).eos_padding <= MAX_EOS_PADDING,
                Err(e) => r == Err::<(), Error>(e),
            },
    {
        proof {
            self.lemma_idle_machine();
        }
        let ghost fed = self.fed@;
        let ghost pos = self.abs();
        self.input_offset = self.input_offset + 1;
        let len = self.input.len();
        let after = self.input_offset;
        let mut index = after;
        let ghost s1 = *self;
        while index < len
            invariant
                *self == s1,
                s1.wf(),
                s1.same_stream(&*old(self)),
                s1.history == old(self).history,
                s1.previous_distance == old(self).previous_distance,
                old(self).machine().pos == pos,
                !s1.finished,
                s1.idle(),
                s1.fed@ == fed,
                s1.input_offset == after,
                after <= index <= len,
                len == self.input@.len(),
                self.input_base + len == fed.len(),
                self.input@ == fed.subrange(self.input_base as int, fed.len() as int),
                self.input_base + after == pos + 1,
                forall|i: int| after <= i < index ==> self.input@[i] == 0,
            decreases len - index,
        {
            if self.input[index] != 0 {
                proof {
                    assert(fed[self.input_base + index] == self.input@[index as int]);
                    assert(fed[self.input_base + index] != 0);
                    assert(has_nonzero_from(fed, pos + 1));
                }
                return Err(Error::TrailingData { remaining: len - after });
            }
            index = index + 1;
        }
        let padding = len - after;
        proof {
            assert forall|i: int| pos + 1 <= i < fed.len() implies !(fed[i] != 0) by {
                assert(fed[i] == self.input@[i - self.input_base]);
            }
        }
        if padding > MAX_EOS_PADDING {
            return Err(Error::TrailingData { remaining: padding - MAX_EOS_PADDING });
        }
        self.eos_padding = padding;
        self.input_offset = len;
        self.compact_input();
        Ok(())
    }

    /// Whether `needed` unread bytes are buffered; an error once no more
    /// will come.
    fn ensure_buffered(&self, needed: usize) -> (r: Result<bool>)
        requires
            self.wf(),
            !self.finished,
        ensures
            self.abs() + needed <= self.fed@.len() ==> r == Ok::<bool, Error>(true),
            self.abs() + needed > self.fed@.len() && self.finished_input ==> r == Err::<bool, Error>(
                Error::TruncatedInput { position: self.abs() as usize },
            ),
            self.abs() + needed > self.fed@.len() && !self.finished_input ==> r == Ok::<bool, Error>(false),
    {
        if self.available_input() >= needed {
            return Ok(true);
        }
        if self.finished_input {
            return Err(Error::TruncatedInput { position: self.absolute_offset() });
        }
        Ok(false)
    }

    fn validate_distance(&self, distance: usize, available: usize) -> (r: Result<()>)
        ensures
            r is Ok <==> !(distance == 0 || distance > available),
            r is Err ==> r == Err::<(), Error>(Error::InvalidMatchDistance { distance, available }),
    {
        if distance == 0 || distance > available {
            return Err(Error::InvalidMatchDistance { distance, available });
        }
        Ok(())
    }

    /// Room in the history for `needed` more bytes.
    fn ensure_room(&self, needed: usize) -> (r: Result<()>)
        ensures
            r is Ok <==> self.history@.len() + needed <= usize::MAX,
            r is Err ==> r == Err::<(), Error>(
                Error::OutputTooSmall { written: self.history@.len() as usize, capacity: usize::MAX },
            ),
    {
        if self.history.len() > usize::MAX - needed {
            return Err(Error::OutputTooSmall { written: self.history.len(), capacity: usize::MAX });
        }
        Ok(())
    }

    fn prepare_literal_only(&mut self, opcode_len: usize, literal_len: usize) -> (r: Result<()>)
        requires
            old(self).wf(),
            !old(self).finished,
            old(self).idle(),
            0 < opcode_len <= 2,
            old(self).abs() + opcode_len + literal_len <= old(self).fed@.len(),
        ensures
            final(self).wf(),
            final(self).same_stream(&*old(self)),
            final(self).history == old(self).history,
            match literal_only(old(self).fed@, stream_cap(), old(self).machine(), opcode_len as nat, literal_len as nat) {
                Step::Next(next) => r is Ok && final(self).machine() == next && final(self).abs() > old(self).abs(),
                Step::Stop(Err(e)) => r == Err::<(), Error>(e),
                Step::Stop(Ok(_)) => false,
            },
    {
        proof {
            self.lemma_idle_machine();
        }
        match self.ensure_room(literal_len) {
            Ok(()) => {},
            Err(e) => return Err(e),
        }
        self.input_offset = self.input_offset + opcode_len;
        self.pending = Pending { literal: literal_len, matched: 0, distance: 0 };
        Ok(())
    }

    fn prepare_match_only(&mut self, opcode_len: usize, match_len: usize) -> (r: Result<()>)
        requires
            old(self).wf(),
            !old(self).finished,
            old(self).idle(),
            0 < opcode_len <= 2,
            0 < match_len,
            old(self).abs() + opcode_len <= old(self).fed@.len(),
        ensures
            final(self).wf(),
            final(self).same_stream(&*old(self)),
            final(self).history == old(self).history,
            match match_only(old(self).fed@, stream_cap(), old(self).machine(), opcode_len as nat, match_len as nat) {
                Step::Next(next) => r is Ok && final(self).machine() == next && final(self).abs() > old(self).abs(),
                Step::Stop(Err(e)) => r == Err::<(), Error>(e),
                Step::Stop(Ok(_)) => false,
            },
    {
        proof {
            self.lemma_idle_machine();
        }
        match self.ensure_room(match_len) {
            Ok(()) => {},
            Err(e) => return Err(e),
        }
        let distance = self.previous_distance;
        match self.validate_distance(distance, self.history.len()) {
            Ok(()) => {},
            Err(e) => return Err(e),
        }
        self.input_offset = self.input_offset + opcode_len;
        self.previous_distance = distance;
        self.pending = Pending { literal: 0, matched: match_len, distance };
        proof {
            let abs = self.abs();
            assert(self.history@ + self.fed@.subrange(abs as int, abs as int) =~= self.history@);
        }
        self.compact_input_if_necessary();
        Ok(())
    }

    fn prepare_literal_and_match(
        &mut self,
        opcode_len: usize,
        literal_len: usize,
        match_len: usize,
        distance: usize,
    ) -> (r: Result<()>)
        requires
            old(self).wf(),
            !old(self).finished,
            old(self).idle(),
            0 < opcode_len <= 3,
            literal_len <= 3,
            3 <= match_len <= 34,
            old(self).abs() + opcode_len + literal_len <= old(self).fed@.len(),
        ensures
            final(self).wf(),
            final(self).same_stream(&*old(self)),
            final(self).history == old(self).history,
            match literal_and_match(
                old(self).fed@,
                stream_cap(),
                old(self).machine(),
                opcode_len as nat,
                literal_len as nat,
                match_len as nat,
                distance as nat,
            ) {
                Step::Next(next) => r is Ok && final(self).machine() == next && final(self).abs() > old(self).abs(),
                Step::Stop(Err(e)) => r == Err::<(), Error>(e),
                Step::Stop(Ok(_)) => false,
            },
    {
        proof {
            self.lemma_idle_machine();
        }
        match self.ensure_room(literal_len + match_len) {
            Ok(()) => {},
            Err(e) => return Err(e),
        }
        match self.validate_distance(distance, self.history.len() + literal_len) {
            Ok(()) => {},
            Err(e) => return Err(e),
        }
        self.input_offset = self.input_offset + opcode_len;
        self.previous_distance = distance;
        self.pending = Pending { literal: literal_len, matched: match_len, distance };
        Ok(())
    }

    /// Starts the instruction at the next opcode, other than the end marker:
    /// `false` when its bytes are not all fed yet.
    #[verifier::spinoff_prover]
    #[verifier::rlimit(40)]
    fn start_instruction(&mut self, opcode: u8, kind: OpcodeKind) -> (r: Result<bool>)
        requires
            old(self).wf(),
            !old(self).finished,
            old(self).idle(),
            old(self).abs() < old(self).fed@.len(),
            opcode == old(self).fed@[old(self).abs() as int],
            opcode_kind(opcode) == Some(kind),
            kind != OpcodeKind::Eos,
        ensures
            final(self).wf(),
            final(self).same_stream(&*old(self)),
            final(self).history == old(self).history,
            r == Ok::<bool, Error>(true) ==> step(old(self).fed@, stream_cap(), old(self).machine())
                == Step::Next(final(self).machine()) && final(self).abs() > old(self).abs(),
            r == Ok::<bool, Error>(false) ==> !old(self).finished_input && final(self).idle()
                && final(self).machine() == old(self).machine() && needs_input(
                old(self).fed@,
                old(self).machine(),
            ),
            r matches Err(e) ==> step(old(self).fed@, stream_cap(), old(self).machine())
                == Step::Stop(Err::<Seq<u8>, Error>(e)),
            r matches Err(e) && e is TruncatedInput ==> old(self).finished_input,
    {
        proof {
            self.lemma_idle_machine();
        }
        let offset = self.input_offset;
        match kind {
            OpcodeKind::SmallDistance => {
                match self.ensure_buffered(2) {
                    Ok(true) => {},
                    Ok(false) => return Ok(false),
                    Err(e) => return Err(e),
                }
                let literal_len = (opcode / 64) as usize;
                match self.ensure_buffered(2 + literal_len) {
                    Ok(true) => {},
                    Ok(false) => return Ok(false),
                    Err(e) => return Err(e),
                }
                let match_len = ((opcode / 8) % 8) as usize + 3;
                let distance = ((opcode % 8) as usize) * 256 + self.input[offset + 1] as usize;
                match self.prepare_literal_and_match(2, literal_len, match_len, distance) {
                    Ok(()) => Ok(true),
                    Err(e) => Err(e),
                }
            },
            OpcodeKind::MediumDistance => {
                match self.ensure_buffered(3) {
                    Ok(true) => {},
                    Ok(false) => return Ok(false),
                    Err(e) => return Err(e),
                }
                let literal_len = ((opcode / 8) % 4) as usize;
                match self.ensure_buffered(3 + literal_len) {
                    Ok(true) => {},
                    Ok(false) => return Ok(false),
                    Err(e) => return Err(e),
                }
                let second = self.input[offset + 1];
                let third = self.input[offset + 2];
                let match_len = ((opcode % 8) as usize) * 4 + (second % 4) as usize + 3;
                let distance = (second / 4) as usize + (third as usize) * 64;
                match self.prepare_literal_and_match(3, literal_len, match_len, distance) {
                    Ok(()) => Ok(true),
                    Err(e) => Err(e),
                }
            },
            OpcodeKind::LargeDistance => {
                match self.ensure_buffered(3) {
                    Ok(true) => {},
                    Ok(false) => return Ok(false),
                    Err(e) => return Err(e),
                }
                let literal_len = (opcode / 64) as usize;
                match self.ensure_buffered(3 + literal_len) {
                    Ok(true) => {},
                    Ok(false) => return Ok(false),
                    Err(e) => return Err(e),
                }
                let match_len = ((opcode / 8) % 8) as usize + 3;
                let distance = self.input[offset + 1] as usize + (self.input[offset + 2] as usize) * 256;
                match self.prepare_literal_and_match(3, literal_len, match_len, distance) {
                    Ok(()) => Ok(true),
                    Err(e) => Err(e),
                }
            },
            OpcodeKind::PreviousDistance => {
                let literal_len = (opcode / 64) as usize;
                match self.ensure_buffered(1 + literal_len) {
                    Ok(true) => {},
                    Ok(false) => return Ok(false),
                    Err(e) => return Err(e),
                }
                let match_len = ((opcode / 8) % 8) as usize + 3;
                let distance = self.previous_distance;
                match self.prepare_literal_and_match(1, literal_len, match_len, distance) {
                    Ok(()) => Ok(true),
                    Err(e) => Err(e),
                }
            },
            OpcodeKind::SmallLiteral => {
                let literal_len = (opcode % 16) as usize;
                match self.ensure_buffered(1 + literal_len) {
                    Ok(true) => {},
                    Ok(false) => return Ok(false),
                    Err(e) => return Err(e),
                }
                match self.prepare_literal_only(1, literal_len) {
                    Ok(()) => Ok(true),
                    Err(e) => Err(e),
                }
            },
            OpcodeKind::LargeLiteral => {
                match self.ensure_buffered(2) {
                    Ok(true) => {},
                    Ok(false) => return Ok(false),
                    Err(e) => return Err(e),
                }
                let literal_len = self.input[offset + 1] as usize + 16;
                match self.ensure_buffered(2 + literal_len) {
                    Ok(true) => {},
                    Ok(false) => return Ok(false),
                    Err(e) => return Err(e),
                }
                match self.prepare_literal_only(2, literal_len) {
                    Ok(()) => Ok(true),
                    Err(e) => Err(e),
                }
            },
            OpcodeKind::SmallMatch => {
                match self.prepare_match_only(1, (opcode % 16) as usize) {
                    Ok(()) => Ok(true),
                    Err(e) => Err(e),
                }
            },
            OpcodeKind::LargeMatch => {
                match self.ensure_buffered(2) {
                    Ok(true) => {},
                    Ok(false) => return Ok(false),
                    Err(e) => return Err(e),
                }
                let match_len = self.input[offset + 1] as usize + 16;
                match self.prepare_match_only(2, match_len) {
                    Ok(()) => Ok(true),
                    Err(e) => Err(e),
                }
            },
            OpcodeKind::Nop => {
                self.input_offset = self.input_offset + 1;
                proof {
                    self.lemma_idle_machine();
                }
                self.compact_input_if_necessary();
                Ok(true)
            },
            OpcodeKind::Eos => Ok(false),
        }
    }

    /// Return the total number of decoded bytes produced so far.
    pub fn total_output(&self) -> (n: usize)
        ensures
            n == self.output().len(),
    {
        self.history.len()
    }

    /// Return whether the end-of-stream marker has been decoded.
    pub fn is_finished(&self) -> (b: bool)
        ensures
            b == self.done(),
    {
        self.finished
    }
}

/// A raw decoder that has reached the end of its stream has decoded exactly
/// what decoding every byte fed to it in one piece gives, however the input
/// was split into chunks and however small the output buffers were.
pub proof fn lemma_finished_stream_matches_one_shot(d: RawDecoder, cap: nat)
    requires
        d.consistent(),
        d.done(),
        d.output().len() <= cap,
    ensures
        decode_spec(d.fed(), cap) == Ok::<Seq<u8>, Error>(d.output()),
        decode_exact_spec(d.fed(), d.output().len()) == Ok::<Seq<u8>, Error>(d.output()),
{
    let fed = d.fed@;
    let m = d.machine();
    assert(opcode_kind(fed[m.pos as int]) == Some(OpcodeKind::Eos));
    assert(step(fed, stream_cap(), m) == Step::Stop(finish(fed, m)));
    assert(run(fed, stream_cap(), m) == Ok::<Seq<u8>, Error>(d.history@));
    assert(fed + Seq::<u8>::empty() =~= fed);
    assert(run(fed + Seq::<u8>::empty(), stream_cap(), initial_state()) == run(
        fed + Seq::<u8>::empty(),
        stream_cap(),
        m,
    ));
    lemma_run_cap(fed, stream_cap(), cap, initial_state());
    lemma_run_cap(fed, stream_cap(), d.output().len(), initial_state());
}

/// A decoding error reported by a raw decoder that stood where decoding its
/// fed bytes from the start would is the error that decoding those bytes in
/// one piece, with no bound on the output, reports.
pub proof fn lemma_stream_error_matches_one_shot(
    d0: RawDecoder,
    dst0: Seq<u8>,
    d1: RawDecoder,
    dst1: Seq<u8>,
    e: Error,
)
    requires
        d0.consistent(),
        d0.trailing() == 0,
        !d0.done(),
        decode_step(d0, dst0, d1, dst1, Err(e)),
    ensures
        decode_spec(d0.fed(), stream_cap()) == Err::<Seq<u8>, Error>(e),
{
    let fed = d0.fed@;
    assert(fed + Seq::<u8>::empty() =~= fed);
    assert(run(fed + Seq::<u8>::empty(), stream_cap(), initial_state()) == run(
        fed + Seq::<u8>::empty(),
        stream_cap(),
        d0.machine(),
    ));
}

/// Every successful call adds to the decoder's output exactly the bytes it
/// wrote, so [`RawDecoder::total_output`] is the sum of what all calls
/// wrote.
pub proof fn lemma_output_grows_by_written(
    d0: RawDecoder,
    dst0: Seq<u8>,
    d1: RawDecoder,
    dst1: Seq<u8>,
    p: StreamProgress,
)
    requires
        decode_step(d0, dst0, d1, dst1, Ok(p)),
    ensures
        p.written <= dst1.len(),
        d1.output() == d0.output() + dst1.subrange(0, p.written as int),
        d1.output().len() == d0.output().len() + p.written,
{
    if d0.done() {
        assert(d0.output() + dst1.subrange(0, 0) =~= d0.output());
    }
}

/// Progress on a whole stream: a decoder fed a prefix of a stream `e` that
/// decodes to `data`, and told that the input is complete only once all of
/// `e` is fed, answers every call with `Ok`. Its output stays a prefix of
/// `data`; it asks for more input only while some of `e` is still to come;
/// it asks for more room only with the buffer full; and when it finishes,
/// its output is `data`. So feeding `e` in chunks of any size and draining
/// into buffers of any non-zero size ends with the decoder finished, holding
/// `data`.
pub proof fn lemma_stream_progress(
    d0: RawDecoder,
    dst0: Seq<u8>,
    d1: RawDecoder,
    dst1: Seq<u8>,
    r: core::result::Result<StreamProgress, Error>,
    e: Seq<u8>,
    data: Seq<u8>,
)
    requires
        d0.consistent(),
        d0.trailing() == 0,
        decode_spec(e, stream_cap()) == Ok::<Seq<u8>, Error>(data),
        d0.fed().len() <= e.len(),
        d0.fed() == e.subrange(0, d0.fed().len() as int),
        d0.input_finished() ==> d0.fed() == e,
        decode_step(d0, dst0, d1, dst1, r),
    ensures
        r matches Ok(p) && {
            &&& d1.consistent()
            &&& d1.output().len() <= data.len()
            &&& data.subrange(0, d1.output().len() as int) == d1.output()
            &&& p.status == StreamStatus::NeedInput ==> d0.fed().len() < e.len()
                && !d0.input_finished()
            &&& p.status == StreamStatus::NeedOutput ==> p.written == dst0.len()
            &&& p.status == StreamStatus::Finished ==> d1.done() && d1.output() == data
        },
{
    let fed = d0.fed();
    let rest = e.subrange(fed.len() as int, e.len() as int);
    assert(fed + rest =~= e);
    let m0 = d0.machine();
    assert(run(fed + rest, stream_cap(), initial_state()) == run(fed + rest, stream_cap(), m0));
    assert(fed + Seq::<u8>::empty() =~= fed);
    assert(run(fed + Seq::<u8>::empty(), stream_cap(), initial_state()) == run(
        fed + Seq::<u8>::empty(),
        stream_cap(),
        m0,
    ));
    if d0.done() {
        assert(d0.history@.len() == d0.history.len());
        lemma_finished_stream_matches_one_shot(d0, stream_cap());
        lemma_run_extend_ok(fed, rest, stream_cap(), initial_state());
        assert(d1.output() =~= data.subrange(0, d1.output().len() as int));
    } else {
        match r {
            Err(err) => {
                if d0.input_finished() {
                    assert(rest =~= Seq::<u8>::empty());
                } else {
                    lemma_run_extend_err(fed, rest, stream_cap(), m0);
                }
            },
            Ok(p) => {
                let m1 = d1.machine();
                assert(run(fed + rest, stream_cap(), m0) == run(fed + rest, stream_cap(), m1));
                lemma_run_out_prefix(e, stream_cap(), m1);
                let out1 = d1.output();
                assert(data.subrange(0, out1.len() as int) =~= data.subrange(
                    0,
                    m1.out.len() as int,
                ).subrange(0, out1.len() as int));
                if p.status == StreamStatus::NeedInput {
                    if fed.len() == e.len() {
                        assert(fed =~= e);
                        assert(rest =~= Seq::<u8>::empty());
                        lemma_needs_input_fails(fed, m1);
                    }
                }
                if p.status == StreamStatus::Finished {
                    lemma_run_extend_ok(fed, rest, stream_cap(), initial_state());
                }
            },
        }
    }
}

/// A state at an instruction that `fed` does not hold whole fails to decode
/// `fed` for want of input.
proof fn lemma_needs_input_fails(fed: Seq<u8>, st: DecodeState)
    requires
        needs_input(fed, st),
    ensures
        run(fed, stream_cap(), st) matches Err(e) && e is TruncatedInput,
{
}

/// A decoder that has reached the end of its stream has been fed the end
/// marker followed by as much zero padding as it reports.
pub proof fn lemma_done_ended(d: RawDecoder)
    requires
        d.wf(),
        d.done(),
    ensures
        ended_with_padding(d.fed(), d.padding()),
        d.output().len() <= usize::MAX,
{
    assert(d.history@.len() == d.history.len());
}

impl Default for RawDecoder {
    fn default() -> (d: Self)
        ensures
            d.consistent(),
            d.fed() == Seq::<u8>::empty(),
            d.output() == Seq::<u8>::empty(),
            !d.done(),
            !d.input_finished(),
            d.trailing() == 0,
    {
        Self::new()
    }
}

} // verus!
