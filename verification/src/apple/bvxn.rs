//! Apple `bvxn` blocks: a 12-byte header (magic, decoded size, payload
//! size) followed by a raw LZVN payload.

use crate::bytes::{le_u32, lemma_u32_roundtrip, push_u32_le, read_u32_le, u32_le_bytes};
use crate::error::{Error, Result};
use crate::stream::{StreamProgress, StreamStatus};
use crate::raw;
use crate::raw::decode::unchanged_outside;
use crate::raw::encode::encode_spec;
use crate::raw::semantics::{
    decode_exact_spec, decode_spec, has_nonzero_from, initial_state, lemma_run_cap,
    lemma_run_extend_ok, lemma_run_ok_extension, stream_cap, MAX_EOS_PADDING,
};
use crate::raw::stream::{
    decode_step, lemma_done_ended, lemma_finished_stream_matches_one_shot, lemma_stream_progress,
    takes_input, RawDecoder,
};
use vstd::prelude::*;

verus! {

const HEADER_LEN: usize = 12;

/// Little-endian magic value for an Apple `bvxn` block.
pub const BVXN_MAGIC: u32 = 0x6e78_7662;

/// Parsed metadata from an Apple `bvxn` block header.
#[derive(Debug, Clone, Copy, PartialEq, Eq)]
pub struct BvxnHeader {
    /// The number of bytes the payload must decode into.
    pub raw_bytes: usize,
    /// The number of bytes in the raw LZVN payload.
    pub payload_bytes: usize,
}

/// What the first 12 bytes of `src` say, or why they are no `bvxn` header.
pub open spec fn header_spec(src: Seq<u8>) -> core::result::Result<BvxnHeader, Error> {
    if src.len() < 12 {
        Err(Error::TruncatedInput { position: src.len() as usize })
    } else if le_u32(src, 0) != BVXN_MAGIC {
        Err(Error::UnsupportedBlockMagic { magic: le_u32(src, 0) as u32 })
    } else {
        Ok(
            BvxnHeader {
                raw_bytes: le_u32(src, 4) as usize,
                payload_bytes: le_u32(src, 8) as usize,
            },
        )
    }
}

/// A block's header and its payload, which must end the block exactly.
pub open spec fn split_spec(src: Seq<u8>) -> core::result::Result<(BvxnHeader, Seq<u8>), Error> {
    match header_spec(src) {
        Err(e) => Err(e),
        Ok(header) => {
            let total = 12 + header.payload_bytes;
            if src.len() < total {
                Err(Error::TruncatedInput { position: src.len() as usize })
            } else if src.len() > total {
                Err(Error::TrailingData { remaining: (src.len() - total) as usize })
            } else {
                Ok((header, src.subrange(12, total as int)))
            }
        },
    }
}

/// What a `bvxn` block decodes to.
pub open spec fn decode_block_spec(src: Seq<u8>) -> core::result::Result<Seq<u8>, Error> {
    match split_spec(src) {
        Err(e) => Err(e),
        Ok((header, payload)) => decode_exact_spec(payload, header.raw_bytes as nat),
    }
}

/// The block that carries `payload` for `raw_len` decoded bytes.
pub open spec fn block_bytes(raw_len: nat, payload: Seq<u8>) -> Seq<u8> {
    u32_le_bytes(BVXN_MAGIC as nat) + u32_le_bytes(raw_len) + u32_le_bytes(payload.len())
        + payload
}

/// `payload` is a raw LZVN stream that decodes to `src`.
pub open spec fn is_raw_encoding_of(payload: Seq<u8>, src: Seq<u8>) -> bool {
    forall|cap: nat| cap >= src.len() ==> #[trigger] decode_spec(payload, cap) == Ok::<
        Seq<u8>,
        Error,
    >(src)
}

/// What `encode` returns for `src`: the block around the raw stream
/// [`encode_spec`] of `src`, which decodes back to `src`; or, for a source
/// or payload longer than `u32::MAX` bytes, `SizeOverflow`. A payload takes
/// at most two bytes per source byte and eight more, so a source of up to
/// `(u32::MAX - 8) / 2` bytes always encodes.
pub open spec fn encode_outcome(src: Seq<u8>, r: core::result::Result<Vec<u8>, Error>) -> bool {
    let payload = encode_spec(src);
    &&& src.len() > u32::MAX ==> r == Err::<Vec<u8>, Error>(
        Error::SizeOverflow { value: src.len() as usize, max: u32::MAX as usize, what: "raw block" },
    )
    &&& src.len() <= u32::MAX && payload.len() > u32::MAX ==> r == Err::<Vec<u8>, Error>(
        Error::SizeOverflow {
            value: payload.len() as usize,
            max: u32::MAX as usize,
            what: "bvxn payload",
        },
    )
    &&& src.len() <= u32::MAX && payload.len() <= u32::MAX ==> (r matches Ok(block) && block@
        == block_bytes(src.len(), payload))
    &&& r matches Ok(block) ==> decode_block_spec(block@) == Ok::<Seq<u8>, Error>(src)
    &&& 2 * src.len() + 8 <= u32::MAX ==> r is Ok
}

/// Parse the fixed 12-byte header of an Apple `bvxn` block.
pub fn parse_header(src: &[u8]) -> (r: Result<BvxnHeader>)
    ensures
        r == header_spec(src@),
{
    if src.len() < HEADER_LEN {
        return Err(Error::TruncatedInput { position: src.len() });
    }
    let magic = read_u32_le(src, 0);
    if magic != BVXN_MAGIC {
        return Err(Error::UnsupportedBlockMagic { magic });
    }
    let raw_bytes = read_u32_le(src, 4);
    let payload_bytes = read_u32_le(src, 8);
    Ok(BvxnHeader { raw_bytes: raw_bytes as usize, payload_bytes: payload_bytes as usize })
}

/// Encode bytes as an Apple `bvxn` block.
///
/// A source longer than `u32::MAX` bytes, or a payload that would be, is
/// refused. The block decodes back to `src`.
pub fn encode(src: &[u8]) -> (r: Result<Vec<u8>>)
    ensures
        encode_outcome(src@, r),
{
    if src.len() > u32::MAX as usize {
        return Err(
            Error::SizeOverflow { value: src.len(), max: u32::MAX as usize, what: "raw block" },
        );
    }
    let payload = raw::encode(src);
    if payload.len() > u32::MAX as usize {
        return Err(
            Error::SizeOverflow {
                value: payload.len(),
                max: u32::MAX as usize,
                what: "bvxn payload",
            },
        );
    }
    let mut block = Vec::new();
    push_u32_le(&mut block, BVXN_MAGIC);
    push_u32_le(&mut block, src.len() as u32);
    push_u32_le(&mut block, payload.len() as u32);
    let mut index: usize = 0;
    let ghost header = block@;
    while index < payload.len()
        invariant
            index <= payload@.len(),
            block@ == header + payload@.subrange(0, index as int),
        decreases payload@.len() - index,
    {
        block.push(payload[index]);
        index = index + 1;
        proof {
            assert(block@ =~= header + payload@.subrange(0, index as int));
        }
    }
    proof {
        assert(payload@.subrange(0, payload@.len() as int) =~= payload@);
        assert(block@ == block_bytes(src@.len(), payload@));
        lemma_block_decodes(src@, payload@);
    }
    Ok(block)
}

/// A block built around a raw encoding of `src` decodes back to `src`.
pub proof fn lemma_block_decodes(src: Seq<u8>, payload: Seq<u8>)
    requires
        is_raw_encoding_of(payload, src),
        src.len() <= u32::MAX,
        payload.len() <= u32::MAX,
    ensures
        decode_block_spec(block_bytes(src.len(), payload)) == Ok::<Seq<u8>, Error>(src),
{
    let block = block_bytes(src.len(), payload);
    lemma_u32_roundtrip(BVXN_MAGIC as nat);
    lemma_u32_roundtrip(src.len());
    lemma_u32_roundtrip(payload.len());
    let m = u32_le_bytes(BVXN_MAGIC as nat);
    let r = u32_le_bytes(src.len());
    let p = u32_le_bytes(payload.len());
    assert(le_u32(block, 0) == le_u32(m, 0));
    assert(le_u32(block, 4) == le_u32(r, 0));
    assert(le_u32(block, 8) == le_u32(p, 0));
    assert(block.subrange(12, (12 + payload.len()) as int) =~= payload);
    assert(decode_spec(payload, src.len()) == Ok::<Seq<u8>, Error>(src));
}

/// Decode an Apple `bvxn` block into a newly allocated buffer.
pub fn decode(src: &[u8]) -> (r: Result<Vec<u8>>)
    ensures
        match decode_block_spec(src@) {
            Ok(out) => r matches Ok(v) && v@ == out,
            Err(e) => r == Err::<Vec<u8>, Error>(e),
        },
{
    let (header, payload) = match split_block(src) {
        Ok(parts) => parts,
        Err(e) => return Err(e),
    };
    raw::decode(payload, header.raw_bytes)
}

/// Decode an Apple `bvxn` block into an existing output buffer.
///
/// Returns the number of bytes written.
pub fn decode_into(src: &[u8], dst: &mut [u8]) -> (r: Result<usize>)
    ensures
        final(dst)@.len() == old(dst)@.len(),
        match split_spec(src@) {
            Err(e) => r == Err::<usize, Error>(e) && final(dst)@ == old(dst)@,
            Ok((header, payload)) => match decode_spec(payload, old(dst)@.len() as nat) {
                Err(e) => r == Err::<usize, Error>(e),
                Ok(out) => if out.len() == header.raw_bytes {
                    r == Ok::<usize, Error>(out.len() as usize)
                        && final(dst)@.subrange(0, out.len() as int) == out
                        && unchanged_outside(old(dst)@, final(dst)@, 0, out.len() as int)
                } else {
                    r == Err::<usize, Error>(
                        Error::SizeMismatch { expected: header.raw_bytes, actual: out.len() as usize },
                    )
                },
            },
        },
{
    let capacity = dst.len();
    let (header, payload) = match split_block(src) {
        Ok(parts) => parts,
        Err(e) => return Err(e),
    };
    let written = match raw::decode_into(payload, dst) {
        Ok(w) => w,
        Err(e) => return Err(e),
    };
    if written != header.raw_bytes {
        return Err(Error::SizeMismatch { expected: header.raw_bytes, actual: written });
    }
    Ok(written)
}

fn split_block(src: &[u8]) -> (r: Result<(BvxnHeader, &[u8])>)
    ensures
        match split_spec(src@) {
            Ok((header, payload)) => r matches Ok((h, p)) && h == header && p@ == payload,
            Err(e) => r matches Err(e2) && e2 == e,
        },
{
    let header = match parse_header(src) {
        Ok(h) => h,
        Err(e) => return Err(e),
    };
    let available = src.len() - HEADER_LEN;
    if available < header.payload_bytes {
        return Err(Error::TruncatedInput { position: src.len() });
    }
    if available > header.payload_bytes {
        return Err(Error::TrailingData { remaining: available - header.payload_bytes });
    }
    Ok((header, &src[HEADER_LEN..src.len()]))
}

/// Incremental Apple `bvxn` encoder.
///
/// The encoder buffers all source bytes until [`BvxnEncoder::finish_input`]
/// is called, then drains the encoded block in chunks via
/// [`BvxnEncoder::encode_into`].
#[derive(Debug)]
pub struct BvxnEncoder {
    input: Vec<u8>,
    encoded: Vec<u8>,
    output_offset: usize,
    finished_input: bool,
    prepared: bool,
}

/// What [`BvxnEncoder::encode_into`] does, from encoder `e0` and buffer
/// `dst0` to encoder `e1` and buffer `dst1`, returning `r`: nothing before
/// the input is complete; then the block around [`encode_spec`] of the fed
/// bytes, or the error [`encode`] gives, and the block handed out in order,
/// as much as fits each time.
pub open spec fn block_encode_into_outcome(
    e0: BvxnEncoder,
    dst0: Seq<u8>,
    e1: BvxnEncoder,
    dst1: Seq<u8>,
    r: core::result::Result<StreamProgress, Error>,
) -> bool {
    &&& e1.wf()
    &&& e1.fed() == e0.fed()
    &&& e1.input_finished() == e0.input_finished()
    &&& dst1.len() == dst0.len()
    &&& !e0.prepared() && !e0.input_finished() ==> {
        &&& r == Ok::<StreamProgress, Error>(
            StreamProgress { written: 0, status: StreamStatus::NeedInput },
        )
        &&& e1 == e0
        &&& dst1 == dst0
    }
    &&& e0.prepared() ==> e1.encoded() == e0.encoded()
    &&& !e0.prepared() && e0.input_finished() ==> match r {
        Err(e) => encode_outcome(e0.fed(), Err(e)) && e1 == e0 && dst1 == dst0,
        Ok(_) => {
            &&& e1.encoded() == block_bytes(e0.fed().len(), encode_spec(e0.fed()))
            &&& decode_block_spec(e1.encoded()) == Ok::<Seq<u8>, Error>(e0.fed())
            &&& e0.drained() == 0
        },
    }
    &&& r is Ok && (e0.prepared() || e0.input_finished()) ==> {
        let enc = e1.encoded();
        let start = e0.drained();
        let remaining = enc.len() - start;
        let written = if remaining < dst0.len() {
            remaining
        } else {
            dst0.len() as int
        };
        &&& e1.prepared()
        &&& r matches Ok(p) && p.written == written
        &&& e1.drained() == start + written
        &&& dst1.subrange(0, written) == enc.subrange(start as int, start + written)
        &&& dst1.subrange(written, dst0.len() as int) == dst0.subrange(written, dst0.len() as int)
        &&& (r matches Ok(p) && (p.status == StreamStatus::Finished <==> e1.drained() == enc.len()))
        &&& (r matches Ok(p) && (p.status != StreamStatus::Finished ==> p.status
            == StreamStatus::NeedOutput))
    }
    &&& e0.prepared() ==> r is Ok
}

/// The chunks a block encoder hands out, call after call once its input is
/// complete, concatenate to what [`encode`] returns for everything fed:
/// the first call fails as `encode` does, or else, given the bytes `handed`
/// out so far, one more call adds exactly the bytes it wrote, asks for more
/// room only with the buffer full, and reports `Finished` exactly when the
/// whole block has been handed out.
pub proof fn lemma_block_encoder_hands_out_in_order(
    e0: BvxnEncoder,
    dst0: Seq<u8>,
    e1: BvxnEncoder,
    dst1: Seq<u8>,
    r: core::result::Result<StreamProgress, Error>,
    handed: Seq<u8>,
)
    requires
        e0.wf(),
        e0.input_finished(),
        e0.prepared() ==> e0.encoded() == block_bytes(e0.fed().len(), encode_spec(e0.fed())),
        handed == if e0.prepared() {
            e0.encoded().subrange(0, e0.drained() as int)
        } else {
            Seq::<u8>::empty()
        },
        block_encode_into_outcome(e0, dst0, e1, dst1, r),
    ensures
        r matches Err(e) ==> !e0.prepared() && encode_outcome(e0.fed(), Err(e)),
        r matches Ok(p) ==> {
            &&& e1.fed() == e0.fed()
            &&& e1.prepared()
            &&& e1.encoded() == block_bytes(e1.fed().len(), encode_spec(e1.fed()))
            &&& handed + dst1.subrange(0, p.written as int) == e1.encoded().subrange(
                0,
                e1.drained() as int,
            )
            &&& (p.status == StreamStatus::Finished <==> e1.drained() == e1.encoded().len())
            &&& p.status != StreamStatus::Finished ==> p.status == StreamStatus::NeedOutput
                && p.written == dst0.len()
        },
{
    let enc = e1.encoded();
    let start = e0.drained();
    if let Ok(p) = r {
        let w = p.written as int;
        assert(handed =~= enc.subrange(0, start as int));
        assert(handed + dst1.subrange(0, w) =~= enc.subrange(0, start + w));
    }
}

impl BvxnEncoder {
    /// The source bytes fed so far.
    pub closed spec fn fed(&self) -> Seq<u8> {
        self.input@
    }

    /// Whether the source has been declared complete.
    pub closed spec fn input_finished(&self) -> bool {
        self.finished_input
    }

    /// Whether the block has been encoded (it then no longer changes).
    pub closed spec fn prepared(&self) -> bool {
        self.prepared
    }

    /// The encoded block, once prepared.
    pub closed spec fn encoded(&self) -> Seq<u8> {
        self.encoded@
    }

    /// How many encoded bytes have been handed out.
    pub closed spec fn drained(&self) -> nat {
        self.output_offset as nat
    }

    /// The encoder's bookkeeping is consistent.
    pub closed spec fn wf(&self) -> bool {
        &&& self.output_offset <= self.encoded@.len()
        &&& !self.prepared ==> self.output_offset == 0
    }

    /// Create a new incremental `bvxn` encoder.
    pub fn new() -> (e: Self)
        ensures
            e.wf(),
            e.fed() == Seq::<u8>::empty(),
            !e.input_finished(),
            !e.prepared(),
            e.encoded() == Seq::<u8>::empty(),
            e.drained() == 0,
    {
        BvxnEncoder {
            input: Vec::new(),
            encoded: Vec::new(),
            output_offset: 0,
            finished_input: false,
            prepared: false,
        }
    }

    /// Append more source bytes.
    pub fn feed(&mut self, input: &[u8])
        requires
            old(self).wf(),
        ensures
            final(self).wf(),
            final(self).fed() == old(self).fed() + input@,
            final(self).input_finished() == old(self).input_finished(),
            final(self).prepared() == old(self).prepared(),
            final(self).encoded() == old(self).encoded(),
            final(self).drained() == old(self).drained(),
    {
        if !input.is_empty() {
            crate::bytes::extend_bytes(&mut self.input, input);
        } else {
            proof {
                assert(self.input@ + input@ =~= self.input@);
            }
        }
    }

    /// Mark the source stream as complete.
    pub fn finish_input(&mut self)
        requires
            old(self).wf(),
        ensures
            final(self).wf(),
            final(self).fed() == old(self).fed(),
            final(self).input_finished(),
            final(self).prepared() == old(self).prepared(),
            final(self).encoded() == old(self).encoded(),
            final(self).drained() == old(self).drained(),
    {
        self.finished_input = true;
    }

    /// Encode into `dst`, returning how many bytes were written and what is
    /// needed next.
    ///
    /// Nothing is written before the source is complete. The first call
    /// after that encodes the block, failing as [`encode`] does; every call
    /// then hands out the next encoded bytes, as many as fit.
    pub fn encode_into(&mut self, dst: &mut [u8]) -> (r: Result<StreamProgress>)
        requires
            old(self).wf(),
        ensures
            block_encode_into_outcome(*old(self), old(dst)@, *final(self), final(dst)@, r),
    {
        if !self.prepared {
            if !self.finished_input {
                return Ok(StreamProgress::new(0, StreamStatus::NeedInput));
            }
            let block = match encode(self.input.as_slice()) {
                Ok(b) => b,
                Err(e) => return Err(e),
            };
            self.encoded = block;
            self.prepared = true;
        }
        if self.output_offset == self.encoded.len() {
            proof {
                assert(dst@.subrange(0, 0) =~= self.encoded@.subrange(self.output_offset as int, self.output_offset as int));
            }
            return Ok(StreamProgress::new(0, StreamStatus::Finished));
        }
        let written = raw::stream::drain_into(&self.encoded, &mut self.output_offset, dst);
        let status = if self.output_offset == self.encoded.len() {
            StreamStatus::Finished
        } else {
            StreamStatus::NeedOutput
        };
        Ok(StreamProgress::new(written, status))
    }

    /// Return whether the encoded block has been fully drained.
    pub fn is_finished(&self) -> (b: bool)
        requires
            self.wf(),
        ensures
            b == (self.prepared() && self.drained() == self.encoded().len()),
    {
        self.prepared && self.output_offset == self.encoded.len()
    }
}

impl Default for BvxnEncoder {
    fn default() -> (e: Self)
        ensures
            e.wf(),
            e.fed() == Seq::<u8>::empty(),
            !e.input_finished(),
            !e.prepared(),
            e.drained() == 0,
    {
        Self::new()
    }
}


/// Incremental Apple `bvxn` decoder.
///
/// The decoder accepts the block in chunks via [`BvxnDecoder::feed`], reads
/// its header, hands the payload on to a [`RawDecoder`], and emits decoded
/// bytes into caller-provided buffers via [`BvxnDecoder::decode_into`].
pub struct BvxnDecoder {
    input: Vec<u8>,
    input_offset: usize,
    input_base: usize,
    header: Option<BvxnHeader>,
    payload_remaining: usize,
    raw: RawDecoder,
    finished_input: bool,
    finished: bool,
    trailing_after_finish: usize,
    fed: Ghost<Seq<u8>>,
}

/// How the raw decoder `raw1` stands once the payload bytes `bytes` were
/// handed to `raw0` and, when `last`, its input was declared complete.
pub open spec fn pump_outcome(raw0: RawDecoder, bytes: Seq<u8>, last: bool, raw1: RawDecoder) -> bool {
    &&& raw1.wf()
    &&& raw1.output() == raw0.output()
    &&& raw1.done() == raw0.done()
    &&& raw1.machine() == raw0.machine()
    &&& raw1.idle() == raw0.idle()
    &&& raw1.input_finished() == (raw0.input_finished() || last)
    &&& takes_input(raw0, bytes, raw1)
    &&& raw0.consistent() ==> raw1.consistent()
}

/// What the block decoder answers once its raw decoder answered `r_raw`
/// and has decoded `actual` bytes in all, for a header that announces
/// `expected` bytes: `complete` says whether the whole payload has come,
/// `position` is the length of the block bytes fed, and `done1` whether the
/// block decoder has ended.
pub open spec fn checked_progress(
    r_raw: core::result::Result<StreamProgress, Error>,
    actual: nat,
    expected: usize,
    complete: bool,
    input_finished: bool,
    position: nat,
    done1: bool,
    r: core::result::Result<StreamProgress, Error>,
) -> bool {
    match r_raw {
        Err(e) => r == Err::<StreamProgress, Error>(e),
        Ok(p) => if actual > expected {
            r == Err::<StreamProgress, Error>(
                Error::SizeMismatch { expected, actual: actual as usize },
            )
        } else if p.status == StreamStatus::NeedInput {
            if !complete && input_finished {
                r == Err::<StreamProgress, Error>(
                    Error::TruncatedInput { position: position as usize },
                )
            } else {
                r == Ok::<StreamProgress, Error>(p) && !done1
            }
        } else if p.status == StreamStatus::NeedOutput {
            r == Ok::<StreamProgress, Error>(p) && !done1
        } else if actual != expected {
            r == Err::<StreamProgress, Error>(
                Error::SizeMismatch { expected, actual: actual as usize },
            )
        } else {
            r == Ok::<StreamProgress, Error>(p) && done1
        },
    }
}

/// One decoding call once the header `h` is known, over the block bytes
/// `fed`: bytes past the payload are refused; otherwise the payload bytes
/// not yet handed on go to the raw decoder `raw0` (told that its input is
/// complete once the whole payload has come), which then decodes into the
/// buffer, and its answer is checked against the announced size.
pub open spec fn payload_step(
    fed: Seq<u8>,
    input_finished: bool,
    h: BvxnHeader,
    raw0: RawDecoder,
    dst0: Seq<u8>,
    raw1: RawDecoder,
    dst1: Seq<u8>,
    done1: bool,
    r: core::result::Result<StreamProgress, Error>,
) -> bool {
    let end = 12 + h.payload_bytes;
    let start = 12 + raw0.fed().len() + raw0.trailing();
    if fed.len() > end {
        r == Err::<StreamProgress, Error>(Error::TrailingData { remaining: (fed.len() - end) as usize })
    } else {
        exists|raw_mid: RawDecoder, r_raw: core::result::Result<StreamProgress, Error>|
            #![trigger decode_step(raw_mid, dst0, raw1, dst1, r_raw)]
            {
                &&& pump_outcome(raw0, fed.subrange(start as int, fed.len() as int), fed.len() == end, raw_mid)
                &&& decode_step(raw_mid, dst0, raw1, dst1, r_raw)
                &&& checked_progress(
                    r_raw,
                    raw1.output().len(),
                    h.raw_bytes,
                    fed.len() == end,
                    input_finished,
                    fed.len(),
                    done1,
                    r,
                )
            }
    }
}

/// One decoding call of a block decoder that has refused no trailing data
/// and has not ended: without a header yet, one is read from the first 12
/// block bytes (asking for more input, or failing, while fewer have come);
/// then decoding goes on as [`payload_step`] says.
pub open spec fn block_step(
    fed: Seq<u8>,
    input_finished: bool,
    h0: Option<BvxnHeader>,
    raw0: RawDecoder,
    dst0: Seq<u8>,
    h1: Option<BvxnHeader>,
    raw1: RawDecoder,
    dst1: Seq<u8>,
    done1: bool,
    r: core::result::Result<StreamProgress, Error>,
) -> bool {
    match h0 {
        Some(h) => h1 == h0 && payload_step(fed, input_finished, h, raw0, dst0, raw1, dst1, done1, r),
        None => if fed.len() < 12 {
            &&& r == if input_finished {
                Err::<StreamProgress, Error>(Error::TruncatedInput { position: 0 })
            } else {
                Ok::<StreamProgress, Error>(StreamProgress { written: 0, status: StreamStatus::NeedInput })
            }
            &&& h1 == h0
            &&& raw1 == raw0
            &&& dst1 == dst0
            &&& !done1
        } else {
            match header_spec(fed.subrange(0, 12)) {
                Err(e) => r == Err::<StreamProgress, Error>(e),
                Ok(h) => h1 == Some(h) && payload_step(fed, input_finished, h, raw0, dst0, raw1, dst1, done1, r),
            }
        },
    }
}

/// What [`BvxnDecoder::decode_into`] does, from decoder `d0` and buffer
/// `dst0` to decoder `d1` and buffer `dst1`, returning `r`: refused
/// trailing data is reported again and again; an ended block reports that
/// it is finished; otherwise decoding goes on as [`block_step`] says.
pub open spec fn block_decode_outcome(
    d0: BvxnDecoder,
    dst0: Seq<u8>,
    d1: BvxnDecoder,
    dst1: Seq<u8>,
    r: core::result::Result<StreamProgress, Error>,
) -> bool {
    &&& d1.wf()
    &&& d1.fed() == d0.fed()
    &&& d1.input_finished() == d0.input_finished()
    &&& d1.trailing() == d0.trailing()
    &&& dst1.len() == dst0.len()
    &&& d0.trailing() != 0 ==> r == Err::<StreamProgress, Error>(
        Error::TrailingData { remaining: d0.trailing() as usize },
    ) && d1 == d0 && dst1 == dst0
    &&& d0.trailing() == 0 && d0.done() ==> r == Ok::<StreamProgress, Error>(
        StreamProgress { written: 0, status: StreamStatus::Finished },
    ) && d1 == d0 && dst1 == dst0
    &&& d0.trailing() == 0 && !d0.done() ==> block_step(
        d0.fed(),
        d0.input_finished(),
        d0.header(),
        d0.inner(),
        dst0,
        d1.header(),
        d1.inner(),
        dst1,
        d1.done(),
        r,
    )
    &&& d0.consistent() && r is Ok ==> d1.consistent()
    &&& d0.trailing() == 0 && r is Err ==> !d1.done()
}

impl BvxnDecoder {
    /// Every block byte accepted so far (refused trailing bytes not).
    pub closed spec fn fed(&self) -> Seq<u8> {
        self.fed@
    }

    /// The block header, once read.
    pub closed spec fn header(&self) -> Option<BvxnHeader> {
        self.header
    }

    /// The raw decoder the payload is handed to.
    pub closed spec fn inner(&self) -> RawDecoder {
        self.raw
    }

    /// Every byte decoded so far.
    pub closed spec fn output(&self) -> Seq<u8> {
        self.raw.output()
    }

    /// Whether the block has been decoded to its end.
    pub closed spec fn done(&self) -> bool {
        self.finished
    }

    /// Whether the input has been declared complete.
    pub closed spec fn input_finished(&self) -> bool {
        self.finished_input
    }

    /// How many bytes were fed after the block ended.
    pub closed spec fn trailing(&self) -> nat {
        self.trailing_after_finish as nat
    }

    /// Where the next unread block byte stands.
    closed spec fn abs(&self) -> nat {
        (self.input_base + self.input_offset) as nat
    }

    /// The decoder's bookkeeping is consistent.
    pub closed spec fn wf(&self) -> bool {
        &&& self.fed@.len() <= usize::MAX
        &&& self.raw.wf()
        &&& self.input_base + self.input@.len() == self.fed@.len()
        &&& self.input@ == self.fed@.subrange(self.input_base as int, self.fed@.len() as int)
        &&& self.input_offset <= self.input@.len()
        &&& match self.header {
            None => {
                &&& self.input_base == 0
                &&& self.input_offset == 0
                &&& !self.finished
                &&& self.raw.fed().len() == 0
                &&& self.raw.output().len() == 0
                &&& self.raw.trailing() == 0
                &&& !self.raw.done()
                &&& !self.raw.input_finished()
            },
            Some(h) => {
                &&& self.fed@.len() >= 12
                &&& header_spec(self.fed@.subrange(0, 12)) == Ok::<BvxnHeader, Error>(h)
                &&& 12 <= self.abs()
                &&& self.abs() + self.payload_remaining == 12 + h.payload_bytes
                &&& self.raw.fed().len() + self.raw.trailing() + 12 == self.abs()
                &&& self.raw.trailing() == 0 ==> self.raw.fed() == self.fed@.subrange(12, self.abs() as int)
                &&& self.raw.input_finished() ==> self.payload_remaining == 0
                &&& self.finished ==> {
                    &&& self.raw.done()
                    &&& self.raw.trailing() == 0
                    &&& self.raw.output().len() == h.raw_bytes
                    &&& self.abs() == self.fed@.len()
                }
            },
        }
    }

    /// The raw decoder stands where decoding the payload handed to it from
    /// the start would.
    pub closed spec fn consistent(&self) -> bool {
        &&& self.wf()
        &&& self.raw.consistent()
    }

    /// Create a new incremental `bvxn` decoder.
    pub fn new() -> (d: Self)
        ensures
            d.consistent(),
            d.fed() == Seq::<u8>::empty(),
            d.header() is None,
            d.output() == Seq::<u8>::empty(),
            !d.done(),
            !d.input_finished(),
            d.trailing() == 0,
            d.inner().consistent(),
            d.inner().fed() == Seq::<u8>::empty(),
            d.inner().output() == Seq::<u8>::empty(),
            !d.inner().done(),
            !d.inner().input_finished(),
            d.inner().trailing() == 0,
            d.inner().machine() == initial_state(),
            d.inner().idle(),
    {
        let d = BvxnDecoder {
            input: Vec::new(),
            input_offset: 0,
            input_base: 0,
            header: None,
            payload_remaining: 0,
            raw: RawDecoder::new(),
            finished_input: false,
            finished: false,
            trailing_after_finish: 0,
            fed: Ghost(Seq::empty()),
        };
        proof {
            assert(d.input@ =~= d.fed@.subrange(0, 0));
        }
        d
    }

    /// Append more `bvxn` bytes. Once the block has ended, they count as
    /// trailing data.
    pub fn feed(&mut self, input: &[u8])
        requires
            old(self).wf(),
            old(self).fed().len() + input@.len() <= usize::MAX,
            old(self).trailing() + input@.len() <= usize::MAX,
        ensures
            final(self).wf(),
            final(self).header() == old(self).header(),
            final(self).inner() == old(self).inner(),
            final(self).done() == old(self).done(),
            final(self).input_finished() == old(self).input_finished(),
            !old(self).done() ==> final(self).fed() == old(self).fed() + input@
                && final(self).trailing() == old(self).trailing(),
            old(self).done() ==> final(self).fed() == old(self).fed() && final(self).trailing()
                == old(self).trailing() + input@.len(),
            old(self).consistent() ==> final(self).consistent(),
    {
        if input.is_empty() {
            proof {
                assert(self.fed@ + input@ =~= self.fed@);
            }
            return;
        }
        if self.finished {
            self.trailing_after_finish = self.trailing_after_finish + input.len();
            return;
        }
        let ghost old_fed = self.fed@;
        crate::bytes::extend_bytes(&mut self.input, input);
        proof {
            self.fed@ = old_fed + input@;
            assert(self.input@ =~= self.fed@.subrange(self.input_base as int, self.fed@.len() as int));
            if self.header is Some {
                assert(self.fed@.subrange(0, 12) =~= old_fed.subrange(0, 12));
                assert(self.fed@.subrange(12, self.abs() as int) =~= old_fed.subrange(12, self.abs() as int));
            }
        }
    }

    /// Mark the `bvxn` input stream as complete.
    pub fn finish_input(&mut self)
        requires
            old(self).wf(),
        ensures
            final(self).wf(),
            final(self).fed() == old(self).fed(),
            final(self).header() == old(self).header(),
            final(self).inner() == old(self).inner(),
            final(self).done() == old(self).done(),
            final(self).input_finished(),
            final(self).trailing() == old(self).trailing(),
            old(self).consistent() ==> final(self).consistent(),
    {
        self.finished_input = true;
    }

    fn available_input(&self) -> (n: usize)
        requires
            self.wf(),
        ensures
            n == self.fed@.len() - self.abs(),
    {
        self.input.len() - self.input_offset
    }

    fn absolute_offset(&self) -> (n: usize)
        requires
            self.wf(),
        ensures
            n == self.abs(),
    {
        self.input_base + self.input_offset
    }

    /// Drops the bytes already read from the input buffer once they make up
    /// at least half of it.
    fn compact_input_if_necessary(&mut self)
        requires
            old(self).wf(),
        ensures
            final(self).wf(),
            final(self).fed@ == old(self).fed@,
            final(self).header == old(self).header,
            final(self).payload_remaining == old(self).payload_remaining,
            final(self).raw == old(self).raw,
            final(self).finished_input == old(self).finished_input,
            final(self).finished == old(self).finished,
            final(self).trailing_after_finish == old(self).trailing_after_finish,
            final(self).abs() == old(self).abs(),
            ({
                let len = old(self).input@.len();
                let offset = old(self).input_offset;
                if offset != 0 && (offset == len || offset >= len - offset) {
                    &&& final(self).input_offset == 0
                    &&& final(self).input_base == old(self).input_base + offset
                    &&& final(self).input@ == old(self).input@.subrange(offset as int, len as int)
                } else {
                    &&& final(self).input == old(self).input
                    &&& final(self).input_offset == offset
                    &&& final(self).input_base == old(self).input_base
                }
            }),
    {
        let len = self.input.len();
        let offset = self.input_offset;
        if offset != 0 && (offset == len || offset >= len - offset) {
            let mut rest: Vec<u8> = Vec::new();
            crate::bytes::extend_bytes(&mut rest, &self.input[offset..len]);
            self.input = rest;
            self.input_base = self.input_base + offset;
            self.input_offset = 0;
            proof {
                assert(self.input@ =~= self.fed@.subrange(self.input_base as int, self.fed@.len() as int));
            }
        }
    }

    /// Hands the buffered payload bytes on to the raw decoder, and tells it
    /// that its input is complete once the whole payload has come; bytes
    /// past the payload are refused.
    fn pump_payload(&mut self) -> (r: Result<()>)
        requires
            old(self).wf(),
            !old(self).finished,
            old(self).header is Some,
        ensures
            final(self).wf(),
            final(self).fed@ == old(self).fed@,
            final(self).header == old(self).header,
            final(self).finished_input == old(self).finished_input,
            final(self).finished == old(self).finished,
            final(self).trailing_after_finish == old(self).trailing_after_finish,
            old(self).header matches Some(h) && {
                let end = 12 + h.payload_bytes;
                let fed = old(self).fed@;
                &&& fed.len() > end ==> r == Err::<(), Error>(
                    Error::TrailingData { remaining: (fed.len() - end) as usize },
                )
                &&& fed.len() <= end ==> {
                    &&& r is Ok
                    &&& final(self).abs() == fed.len()
                    &&& pump_outcome(
                        old(self).raw,
                        fed.subrange(old(self).abs() as int, fed.len() as int),
                        fed.len() == end,
                        final(self).raw,
                    )
                }
            },
    {
        let ghost raw0 = self.raw;
        let ghost abs0 = self.abs();
        let ghost fed = self.fed@;
        let available = self.available_input();
        let to_feed = if available < self.payload_remaining {
            available
        } else {
            self.payload_remaining
        };
        if to_feed != 0 {
            let start = self.input_offset;
            let end = start + to_feed;
            proof {
                assert(self.input@.subrange(start as int, end as int) =~= fed.subrange(abs0 as int, abs0 + to_feed));
            }
            self.raw.feed(&self.input[start..end]);
            self.input_offset = end;
            self.payload_remaining = self.payload_remaining - to_feed;
            proof {
                let bytes = fed.subrange(abs0 as int, abs0 + to_feed);
                if raw0.trailing() == 0 && self.raw.trailing() == 0 {
                    assert(self.raw.fed() == raw0.fed() + bytes);
                    assert(self.raw.fed() =~= fed.subrange(12, self.abs() as int));
                }
            }
            self.compact_input_if_necessary();
        } else {
            proof {
                assert(raw0.fed() + fed.subrange(abs0 as int, abs0 as int) =~= raw0.fed());
            }
        }
        if self.payload_remaining == 0 {
            self.raw.finish_input();
            if self.available_input() != 0 {
                return Err(Error::TrailingData { remaining: self.available_input() });
            }
        }
        Ok(())
    }

    /// Decodes once the header is known: see [`payload_step`].
    fn decode_payload(&mut self, dst: &mut [u8]) -> (r: Result<StreamProgress>)
        requires
            old(self).wf(),
            !old(self).finished,
            old(self).header is Some,
        ensures
            final(self).wf(),
            final(self).fed@ == old(self).fed@,
            final(self).header == old(self).header,
            final(self).finished_input == old(self).finished_input,
            final(self).trailing_after_finish == old(self).trailing_after_finish,
            final(dst)@.len() == old(dst)@.len(),
            old(self).header matches Some(h) && payload_step(
                old(self).fed@,
                old(self).finished_input,
                h,
                old(self).raw,
                old(dst)@,
                final(self).raw,
                final(dst)@,
                final(self).finished,
                r,
            ),
            old(self).consistent() && r is Ok ==> final(self).consistent(),
            r is Err ==> !final(self).done(),
    {
        let ghost fed = self.fed@;
        let ghost raw0 = self.raw;
        let ghost d0 = dst@;
        match self.pump_payload() {
            Ok(()) => {},
            Err(e) => return Err(e),
        }
        let ghost raw_mid = self.raw;
        let progress = match self.raw.decode_into(dst) {
            Ok(p) => p,
            Err(e) => {
                proof {
                    assert(decode_step(raw_mid, d0, self.raw, dst@, Err::<StreamProgress, Error>(e)));
                }
                return Err(e);
            },
        };
        proof {
            assert(decode_step(raw_mid, d0, self.raw, dst@, Ok::<StreamProgress, Error>(progress)));
        }
        let expected = match self.header {
            Some(h) => h.raw_bytes,
            None => 0,
        };
        let actual = self.raw.total_output();
        if actual > expected {
            return Err(Error::SizeMismatch { expected, actual });
        }
        match progress.status {
            StreamStatus::NeedInput => {
                if self.payload_remaining != 0 && self.finished_input && self.available_input() == 0 {
                    return Err(Error::TruncatedInput { position: self.absolute_offset() });
                }
                Ok(progress)
            },
            StreamStatus::NeedOutput => Ok(progress),
            StreamStatus::Finished => {
                if actual != expected {
                    return Err(Error::SizeMismatch { expected, actual });
                }
                self.finished = true;
                if self.available_input() != 0 {
                    return Err(Error::TrailingData { remaining: self.available_input() });
                }
                Ok(progress)
            },
        }
    }

    /// Decode into `dst`, returning how many bytes were written and what is
    /// needed next: see [`block_step`].
    #[verifier::rlimit(40)]
    pub fn decode_into(&mut self, dst: &mut [u8]) -> (r: Result<StreamProgress>)
        requires
            old(self).wf(),
        ensures
            block_decode_outcome(*old(self), old(dst)@, *final(self), final(dst)@, r),
    {
        if self.trailing_after_finish != 0 {
            return Err(Error::TrailingData { remaining: self.trailing_after_finish });
        }
        if self.finished {
            return Ok(StreamProgress::new(0, StreamStatus::Finished));
        }
        if self.header.is_none() {
            if self.available_input() < HEADER_LEN {
                if self.finished_input {
                    return Err(Error::TruncatedInput { position: self.absolute_offset() });
                }
                return Ok(StreamProgress::new(0, StreamStatus::NeedInput));
            }
            let offset = self.input_offset;
            proof {
                assert(self.input@.subrange(offset as int, offset + 12) =~= self.fed@.subrange(0, 12));
            }
            let header = match parse_header(&self.input[offset..offset + HEADER_LEN]) {
                Ok(h) => h,
                Err(e) => return Err(e),
            };
            self.header = Some(header);
            self.payload_remaining = header.payload_bytes;
            self.input_offset = offset + HEADER_LEN;
            proof {
                assert(self.raw.fed() =~= self.fed@.subrange(12, 12));
            }
            self.compact_input_if_necessary();
        }
        self.decode_payload(dst)
    }

    /// Return whether the block has fully decoded.
    pub fn is_finished(&self) -> (b: bool)
        ensures
            b == self.done(),
    {
        self.finished
    }
}

/// A block decoder that has reached the end of its block stands on the
/// header read from the first 12 bytes fed; once the whole block has been
/// fed, it holds exactly what decoding the block in one piece gives,
/// however the block was split into chunks and however small the output
/// buffers were.
pub proof fn lemma_finished_block_matches_one_shot(d: BvxnDecoder)
    requires
        d.consistent(),
        d.done(),
    ensures
        d.header() matches Some(h) && {
            &&& header_spec(d.fed()) == Ok::<BvxnHeader, Error>(h)
            &&& d.fed().len() <= 12 + h.payload_bytes
            &&& d.fed().len() == 12 + h.payload_bytes ==> decode_block_spec(d.fed()) == Ok::<
                Seq<u8>,
                Error,
            >(d.output())
        },
{
    let fed = d.fed@;
    let head = fed.subrange(0, 12);
    assert(le_u32(fed, 0) == le_u32(head, 0));
    assert(le_u32(fed, 4) == le_u32(head, 4));
    assert(le_u32(fed, 8) == le_u32(head, 8));
    lemma_finished_stream_matches_one_shot(d.raw, d.raw.output().len());
}

/// A block decoder that has reached the end of its block has decoded
/// exactly as many bytes as the header announces.
pub proof fn lemma_finished_block_size(d: BvxnDecoder)
    requires
        d.wf(),
        d.done(),
    ensures
        d.header() matches Some(h) && d.output().len() == h.raw_bytes,
{
}

/// Progress on a whole block: a block decoder fed a prefix of a block `b`
/// that decodes to `data`, and told that the input is complete only once
/// all of `b` is fed, answers every call with `Ok`. Its output stays a
/// prefix of `data`; it asks for more input only while some of `b` is still
/// to come; it asks for more room only with the buffer full; and when it
/// finishes, its output is `data`. So feeding `b` in chunks of any size and
/// draining into buffers of any non-zero size ends with the decoder
/// finished, holding `data`.
#[verifier::rlimit(100)]
#[verifier::spinoff_prover]
pub proof fn lemma_block_stream_progress(
    d0: BvxnDecoder,
    dst0: Seq<u8>,
    d1: BvxnDecoder,
    dst1: Seq<u8>,
    r: core::result::Result<StreamProgress, Error>,
    b: Seq<u8>,
    data: Seq<u8>,
)
    requires
        d0.consistent(),
        d0.trailing() == 0,
        d0.inner().trailing() == 0,
        decode_block_spec(b) == Ok::<Seq<u8>, Error>(data),
        d0.fed().len() <= b.len(),
        d0.fed() == b.subrange(0, d0.fed().len() as int),
        d0.input_finished() ==> d0.fed() == b,
        block_decode_outcome(d0, dst0, d1, dst1, r),
    ensures
        r matches Ok(p) && {
            &&& d1.consistent()
            &&& d1.inner().trailing() == 0
            &&& d1.output().len() <= data.len()
            &&& data.subrange(0, d1.output().len() as int) == d1.output()
            &&& p.status == StreamStatus::NeedInput ==> d0.fed().len() < b.len()
                && !d0.input_finished()
            &&& p.status == StreamStatus::NeedOutput ==> p.written == dst0.len()
            &&& p.status == StreamStatus::Finished ==> d1.done() && d1.output() == data
        },
{
    let fed = d0.fed@;
    let (h, payload) = split_spec(b)->Ok_0;
    let end = 12 + h.payload_bytes;
    assert(b.len() == end);
    assert(payload == b.subrange(12, end as int));
    assert(decode_spec(payload, h.raw_bytes as nat) == Ok::<Seq<u8>, Error>(data));
    assert(data.len() == h.raw_bytes);
    lemma_run_cap(payload, h.raw_bytes as nat, stream_cap(), initial_state());
    assert(decode_spec(payload, stream_cap()) == Ok::<Seq<u8>, Error>(data));
    let head = b.subrange(0, 12);
    assert(le_u32(b, 0) == le_u32(head, 0));
    assert(le_u32(b, 4) == le_u32(head, 4));
    assert(le_u32(b, 8) == le_u32(head, 8));
    assert(header_spec(head) == Ok::<BvxnHeader, Error>(h));
    if fed.len() >= 12 {
        assert(fed.subrange(0, 12) =~= head);
    }
    let raw0 = d0.raw;
    if d0.finished {
        let q = raw0.fed();
        assert(q =~= payload.subrange(0, q.len() as int));
        let rest = payload.subrange(q.len() as int, payload.len() as int);
        assert(q + rest =~= payload);
        lemma_done_ended(raw0);
        lemma_finished_stream_matches_one_shot(raw0, stream_cap());
        lemma_run_extend_ok(q, rest, stream_cap(), initial_state());
        assert(d1.output() =~= data.subrange(0, d1.output().len() as int));
    } else if d0.header is None && fed.len() < 12 {
    } else {
        assert(d0.header is Some ==> d0.header == Some(h));
        let start = 12 + raw0.fed().len() + raw0.trailing();
        assert(payload_step(fed, d0.finished_input, h, raw0, dst0, d1.raw, dst1, d1.finished, r));
        let (raw_mid, r_raw) = choose|raw_mid: RawDecoder, r_raw: core::result::Result<StreamProgress, Error>|
            #![trigger decode_step(raw_mid, dst0, d1.raw, dst1, r_raw)]
            {
                &&& pump_outcome(raw0, fed.subrange(start as int, fed.len() as int), fed.len() == end, raw_mid)
                &&& decode_step(raw_mid, dst0, d1.raw, dst1, r_raw)
                &&& checked_progress(
                    r_raw,
                    d1.raw.output().len(),
                    h.raw_bytes,
                    fed.len() == end,
                    d0.finished_input,
                    fed.len(),
                    d1.finished,
                    r,
                )
            };
        let bytes = fed.subrange(start as int, fed.len() as int);
        let q = raw0.fed();
        assert(q =~= fed.subrange(12, start as int));
        if raw0.done() {
            assert(q =~= payload.subrange(0, q.len() as int));
            let rest = payload.subrange(q.len() as int, payload.len() as int);
            assert(q + rest =~= payload);
            lemma_done_ended(raw0);
            lemma_finished_stream_matches_one_shot(raw0, stream_cap());
            lemma_run_ok_extension(q, rest, stream_cap(), initial_state());
            let p0 = choose|p: int|
                #![trigger q[p]]
                0 <= p < q.len() && q[p] == 0x06 && !has_nonzero_from(q, (p + 1) as nat)
                    && !has_nonzero_from(rest, 0) && q.len() + rest.len() - p - 1
                    <= MAX_EOS_PADDING;
            let k = q.len() - 1 - raw0.padding();
            assert(q[k] == 0x06);
            if p0 < k {
                assert(has_nonzero_from(q, (p0 + 1) as nat));
            }
            if k < p0 {
                assert(has_nonzero_from(q, (q.len() - raw0.padding()) as nat));
            }
            assert(p0 == k);
            assert forall|i: int| 0 <= i < bytes.len() implies bytes[i] == 0 by {
                assert(bytes[i] == rest[i]);
                if rest[i] != 0 {
                    assert(has_nonzero_from(rest, 0));
                }
            }
        }
        assert(raw_mid.fed() =~= payload.subrange(0, fed.len() - 12));
        assert(raw0.input_finished() ==> fed.len() == end);
        if raw_mid.input_finished() {
            assert(fed.len() == end);
            assert(payload.subrange(0, payload.len() as int) =~= payload);
        }
        lemma_stream_progress(raw_mid, dst0, d1.raw, dst1, r_raw, payload, data);
    }
}

impl Default for BvxnDecoder {
    fn default() -> (d: Self)
        ensures
            d.consistent(),
            d.fed() == Seq::<u8>::empty(),
            d.header() is None,
            d.output() == Seq::<u8>::empty(),
            !d.done(),
            !d.input_finished(),
            d.trailing() == 0,
    {
        Self::new()
    }
}

} // verus!
