//! Raw LZVN encoding: a greedy match finder over a small hash table, and
//! the emitters for each instruction family.

use crate::raw::encoding::{
    chunk_len, eos_marker, first_match_instruction, inline_split, large_distance_op,
    lemma_eos_finishes, lemma_literal_run, lemma_literal_run_len, lemma_match_with_literals,
    lemma_match_with_literals_len, lemma_segments_compose, match_tail,
    literal_header, literal_run, match_header, match_run, match_with_literals, medium_distance_op,
    min_nat, previous_distance_op, segment_moves, short_match_limit, small_distance_op,
};
use crate::raw::semantics::{decode_spec, expand, initial_state, DecodeState};
use vstd::prelude::*;

verus! {

pub const CANDIDATES_PER_BUCKET: usize = 4;
pub const HASH_BITS: usize = 14;
pub const HASH_SIZE: usize = 16384;
pub const INVALID_POSITION: usize = usize::MAX;
pub const MAX_DISTANCE: usize = 0xFFFF;
pub const MAX_INLINE_LITERAL: usize = 3;
pub const MAX_LITERAL_LEN: usize = 271;
pub const MAX_MATCH_LEN: usize = 271;
pub const MAX_MEDIUM_DISTANCE: usize = 0x3FFF;
pub const MAX_MEDIUM_MATCH: usize = 34;
pub const MAX_SHORT_DISTANCE: usize = 0x600;
pub const MIN_MATCH_LEN: usize = 3;

/// Encode bytes as a raw LZVN stream.
///
/// The returned stream includes the padded 8-byte end marker emitted by
/// Apple-compatible encoders, and decodes back to `src` into any buffer that
/// can hold it. It is at most two bytes per source byte, plus eight, and is
/// exactly [`encode_spec`] of `src`.
pub fn encode(src: &[u8]) -> (out: Vec<u8>)
    ensures
        forall|cap: nat| cap >= src@.len() ==> #[trigger] decode_spec(out@, cap) == Ok::<
            Seq<u8>,
            crate::error::Error,
        >(src@),
        out@.len() >= 8,
        out@.subrange(out@.len() - 8, out@.len() as int) == eos_marker(),
        out@.len() <= 2 * src@.len() + 8,
        out@ == encode_spec(src@),
{
    Encoder::new(src).finish()
}

/// A back-reference: `length` bytes that repeat those `distance` bytes
/// earlier.
#[derive(Debug, Clone, Copy)]
pub struct Match {
    /// How far back the repeated bytes start.
    pub distance: usize,
    /// How many bytes repeat.
    pub length: usize,
}

/// `m` is a match of `src` at `position`.
spec fn valid_match(src: Seq<u8>, position: nat, m: Match) -> bool {
    &&& 0 < m.distance <= position
    &&& m.distance <= MAX_DISTANCE
    &&& MIN_MATCH_LEN <= m.length
    &&& position + m.length <= src.len()
    &&& forall|i: int|
        0 <= i < m.length ==> #[trigger] src[position + i] == src[position - m.distance + i]
}

/// Whether `candidate` is preferred over `current`: longer first, then one
/// that reuses the previous distance, then the nearer one.
pub open spec fn better_match(candidate: Match, current: Option<Match>, previous_distance: usize) -> bool {
    match current {
        None => true,
        Some(cur) => if candidate.length != cur.length {
            candidate.length > cur.length
        } else if (candidate.distance == previous_distance) != (cur.distance == previous_distance) {
            candidate.distance == previous_distance
        } else {
            candidate.distance < cur.distance
        },
    }
}

/// The hash bucket of the three bytes at `position`.
pub open spec fn hash_spec(src: Seq<u8>, position: int) -> usize {
    let value = (src[position] as u32) | ((src[position + 1] as u32) << 8u32) | ((src[position
        + 2] as u32) << 16u32);
    let hash = value.wrapping_mul(4161u32) >> 12u32;
    (hash & 0x3FFF) as usize
}

/// The length of the longest run of equal bytes from `candidate + k` and
/// from `position + k` on, plus `k`, stopping at the end of the input.
pub open spec fn common_len(src: Seq<u8>, candidate: int, position: int, k: nat) -> nat
    decreases src.len() - position - k,
{
    if position + k >= src.len() || src[candidate + k] != src[position + k] {
        k
    } else {
        common_len(src, candidate, position, k + 1)
    }
}

/// The best match so far after the earlier bytes at `candidate` were
/// considered for the bytes at `position`.
pub open spec fn consider_spec(
    src: Seq<u8>,
    position: int,
    candidate: int,
    previous_distance: usize,
    best: Option<Match>,
) -> Option<Match> {
    let distance = position - candidate;
    if distance == 0 || distance > MAX_DISTANCE {
        best
    } else if src[candidate] != src[position] || src[candidate + 1] != src[position + 1]
        || src[candidate + 2] != src[position + 2] {
        best
    } else {
        let next = Match {
            distance: distance as usize,
            length: common_len(src, candidate, position, 0) as usize,
        };
        if next.length < MIN_MATCH_LEN {
            best
        } else if better_match(next, best, previous_distance) {
            Some(next)
        } else {
            best
        }
    }
}

/// The best match after the candidates in slots `slot..` of the bucket at
/// `base` were considered.
pub open spec fn scan_bucket(
    src: Seq<u8>,
    table: Seq<usize>,
    base: int,
    position: int,
    previous_distance: usize,
    best: Option<Match>,
    slot: nat,
) -> Option<Match>
    decreases CANDIDATES_PER_BUCKET - slot,
{
    if slot >= CANDIDATES_PER_BUCKET {
        best
    } else {
        let candidate = table[base + slot];
        let next = if candidate == INVALID_POSITION || candidate >= position {
            best
        } else {
            consider_spec(src, position, candidate as int, previous_distance, best)
        };
        scan_bucket(src, table, base, position, previous_distance, next, slot + 1)
    }
}

/// Whether a match is worth an instruction.
pub open spec fn worthwhile(m: Match, previous_distance: usize) -> bool {
    if m.distance == previous_distance || m.distance < MAX_SHORT_DISTANCE {
        m.length >= MIN_MATCH_LEN
    } else {
        m.length > MIN_MATCH_LEN
    }
}

/// The match the encoder takes at `position`: the best of the previous
/// distance and the earlier positions in the bucket of its three bytes,
/// when it is worth an instruction.
pub open spec fn find_match_spec(
    src: Seq<u8>,
    table: Seq<usize>,
    position: int,
    previous_distance: usize,
) -> Option<Match> {
    if src.len() - position < MIN_MATCH_LEN {
        None
    } else {
        let start = if previous_distance != 0 && position >= previous_distance {
            consider_spec(src, position, position - previous_distance, previous_distance, None)
        } else {
            None
        };
        let best = scan_bucket(
            src,
            table,
            hash_spec(src, position) * CANDIDATES_PER_BUCKET,
            position,
            previous_distance,
            start,
            0,
        );
        match best {
            None => None,
            Some(found) => if worthwhile(found, previous_distance) {
                Some(found)
            } else {
                None
            },
        }
    }
}

/// The table after `position` was put first in the bucket of its three
/// bytes, the oldest entry there dropping out.
pub open spec fn insert_spec(table: Seq<usize>, src: Seq<u8>, position: int) -> Seq<usize> {
    if src.len() - position < MIN_MATCH_LEN {
        table
    } else {
        let base = hash_spec(src, position) * CANDIDATES_PER_BUCKET;
        table.update(base + 3, table[base + 2]).update(base + 2, table[base + 1]).update(
            base + 1,
            table[base],
        ).update(base, position as usize)
    }
}

/// The encoder's state between two steps of its scan of the input.
pub struct EncodeState {
    /// The hash table of earlier positions, bucket by bucket.
    pub table: Seq<usize>,
    /// The next position to look for a match at.
    pub position: nat,
    /// The first input byte not yet emitted.
    pub literal_start: nat,
    /// The distance of the last match emitted (0 before the first).
    pub previous_distance: usize,
    /// The bytes emitted so far.
    pub output: Seq<u8>,
}

/// The state before the scan: an empty table, nothing emitted.
pub open spec fn initial_encode_state() -> EncodeState {
    EncodeState {
        table: Seq::new((HASH_SIZE * CANDIDATES_PER_BUCKET) as nat, |_i: int| INVALID_POSITION),
        position: 0,
        literal_start: 0,
        previous_distance: 0,
        output: Seq::empty(),
    }
}

/// The table after the positions `from..to` were inserted in turn.
pub open spec fn insert_range(table: Seq<usize>, src: Seq<u8>, from: int, to: int) -> Seq<usize>
    decreases to - from,
{
    if from >= to {
        table
    } else {
        insert_range(insert_spec(table, src, from), src, from + 1, to)
    }
}

/// One step of the scan: with no match at the position, it is inserted in
/// the table and the scan moves on by one byte; with a match, the pending
/// literals and the match are emitted, every matched position is inserted,
/// and the scan goes on after the match.
pub open spec fn encode_step(src: Seq<u8>, st: EncodeState) -> EncodeState {
    match find_match_spec(src, st.table, st.position as int, st.previous_distance) {
        None => EncodeState {
            table: insert_spec(st.table, src, st.position as int),
            position: st.position + 1,
            literal_start: st.literal_start,
            previous_distance: st.previous_distance,
            output: st.output,
        },
        Some(m) => {
            let end = (st.position + m.length) as nat;
            EncodeState {
                table: insert_range(st.table, src, st.position as int, end as int),
                position: end,
                literal_start: end,
                previous_distance: m.distance,
                output: st.output + match_with_literals(
                    st.previous_distance as nat,
                    src.subrange(st.literal_start as int, st.position as int),
                    m.length as nat,
                    m.distance as nat,
                ),
            }
        },
    }
}

/// The scan from `st`, at most `fuel` steps, stopping at the end of the
/// input.
pub open spec fn encode_scan(src: Seq<u8>, st: EncodeState, fuel: nat) -> EncodeState
    decreases fuel,
{
    if st.position >= src.len() || fuel == 0 {
        st
    } else {
        encode_scan(src, encode_step(src, st), (fuel - 1) as nat)
    }
}

/// The raw LZVN stream the encoder emits for `src`: the scan's matches and
/// literals, the literals after the last match, then the padded end marker.
/// Every step moves on by at least one byte, so `src.len()` steps finish the
/// scan.
pub open spec fn encode_spec(src: Seq<u8>) -> Seq<u8> {
    let st = encode_scan(src, initial_encode_state(), src.len());
    st.output + literal_run(src.subrange(st.literal_start as int, src.len() as int))
        + eos_marker()
}

/// A match's bytes repeat earlier bytes, so copying them extends the
/// decoded prefix.
proof fn lemma_match_extends(src: Seq<u8>, position: nat, m: Match)
    requires
        valid_match(src, position, m),
    ensures
        expand(src.subrange(0, position as int), m.distance as nat, m.length as nat)
            == src.subrange(0, position + m.length),
{
    lemma_match_extends_upto(src, position, m, m.length as nat);
}

proof fn lemma_match_extends_upto(src: Seq<u8>, position: nat, m: Match, k: nat)
    requires
        valid_match(src, position, m),
        k <= m.length,
    ensures
        expand(src.subrange(0, position as int), m.distance as nat, k) == src.subrange(
            0,
            (position + k) as int,
        ),
    decreases k,
{
    if k > 0 {
        lemma_match_extends_upto(src, position, m, (k - 1) as nat);
        let shorter = src.subrange(0, position + k - 1);
        assert(src[position + (k - 1)] == src[position - m.distance + (k - 1)]);
        assert(shorter.push(shorter[shorter.len() - m.distance]) =~= src.subrange(0, (position + k) as int));
    }
}

/// The state of a one-shot encoder over `src`.
pub struct Encoder<'a> {
    /// The bytes being encoded.
    pub src: &'a [u8],
    /// The bytes emitted so far.
    pub output: Vec<u8>,
    /// Earlier positions, `CANDIDATES_PER_BUCKET` per hash bucket, newest
    /// first.
    pub table: Vec<usize>,
    /// The first input byte not yet emitted.
    pub literal_start: usize,
    /// The next position to look for a match at.
    pub position: usize,
    /// The distance of the last match emitted.
    pub previous_distance: usize,
}

impl<'a> Encoder<'a> {
    /// Whether the encoder's positions are consistent with its input.
    pub closed spec fn wf(&self) -> bool {
        &&& self.literal_start <= self.position <= self.src@.len()
        &&& self.table@.len() == HASH_SIZE * CANDIDATES_PER_BUCKET
    }

    /// What the bytes emitted so far decode to: the input up to the first
    /// literal not yet emitted.
    pub closed spec fn emitted_so_far(&self) -> bool {
        segment_moves(
            self.output@,
            Seq::empty(),
            0,
            self.src@.subrange(0, self.literal_start as int),
            self.previous_distance as nat,
        )
    }

    /// The bytes being encoded.
    pub closed spec fn input(&self) -> Seq<u8> {
        self.src@
    }

    /// The bytes emitted so far.
    pub open spec fn emitted(&self) -> Seq<u8> {
        self.output@
    }

    /// The distance of the last match emitted (0 before the first).
    pub open spec fn last_distance(&self) -> nat {
        self.previous_distance as nat
    }

    /// Where the encoder's scan stands.
    pub closed spec fn state(&self) -> EncodeState {
        EncodeState {
            table: self.table@,
            position: self.position as nat,
            literal_start: self.literal_start as nat,
            previous_distance: self.previous_distance,
            output: self.output@,
        }
    }

    /// Whether the encoder stands where its scan starts.
    pub closed spec fn fresh(&self) -> bool {
        self.state() == initial_encode_state()
    }

    /// Whether no input byte has been looked at yet.
    pub closed spec fn at_start(&self) -> bool {
        self.position == 0
    }

    /// `self` and `other` encode the same input and stand at the same place
    /// in it.
    pub closed spec fn same_place(&self, other: &Self) -> bool {
        &&& self.src == other.src
        &&& self.table == other.table
        &&& self.position == other.position
        &&& self.literal_start == other.literal_start
    }

    /// A new encoder that has emitted nothing.
    pub fn new(src: &'a [u8]) -> (e: Self)
        ensures
            e.wf(),
            e.emitted_so_far(),
            e.input() == src@,
            e.at_start(),
            e.emitted() == Seq::<u8>::empty(),
            e.last_distance() == 0,
            e.fresh(),
    {
        let e = Encoder {
            src,
            output: Vec::new(),
            table: vec![INVALID_POSITION; HASH_SIZE * CANDIDATES_PER_BUCKET],
            literal_start: 0,
            position: 0,
            previous_distance: 0,
        };
        proof {
            crate::raw::encoding::lemma_empty_segment(Seq::empty(), 0);
            assert(src@.subrange(0, 0) =~= Seq::<u8>::empty());
            assert(e.table@ =~= initial_encode_state().table);
        }
        e
    }

    /// Encodes the whole input and returns the stream.
    fn finish(self) -> (out: Vec<u8>)
        requires
            self.wf(),
            self.emitted_so_far(),
            self.position == 0,
            self.output@.len() == 0,
            self.fresh(),
        ensures
            out@ == encode_spec(self.src@),
            forall|cap: nat| cap >= self.src@.len() ==> #[trigger] decode_spec(out@, cap) == Ok::<
                Seq<u8>,
                crate::error::Error,
            >(self.src@),
            out@.len() >= 8,
            out@.subrange(out@.len() - 8, out@.len() as int) == eos_marker(),
            out@.len() <= 2 * self.src@.len() + 8,
    {
        let mut this = self;
        let ghost src = this.src@;
        let len = this.src.len();
        let ghost mut fuel: nat = len as nat;
        while this.position < len
            invariant
                this.wf(),
                this.emitted_so_far(),
                this.src@ == src,
                len == src.len(),
                this.output@.len() <= 2 * this.literal_start,
                len - this.position <= fuel,
                encode_scan(src, this.state(), fuel) == encode_scan(src, initial_encode_state(), len as nat),
            decreases len - this.position,
        {
            let position = this.position;
            let ghost st0 = this.state();
            proof {
                assert(encode_scan(src, st0, fuel) == encode_scan(src, encode_step(src, st0), (fuel - 1) as nat));
            }
            match this.find_match(position) {
                None => {
                    this.insert_position(position);
                    this.position = position + 1;
                    proof {
                        assert(this.state() == encode_step(src, st0));
                        fuel = (fuel - 1) as nat;
                    }
                },
                Some(next_match) => {
                    proof {
                        lemma_match_with_literals_len(
                            this.previous_distance as nat,
                            src.subrange(this.literal_start as int, position as int),
                            next_match.length as nat,
                            next_match.distance as nat,
                        );
                    }
                    this.emit_match(next_match);
                    let match_end = position + next_match.length;
                    let mut index = position;
                    let ghost emitted = this.output@;
                    let ghost last = this.previous_distance;
                    let ghost table0 = this.table@;
                    while index < match_end
                        invariant
                            insert_range(this.table@, src, index as int, match_end as int)
                                == insert_range(table0, src, position as int, match_end as int),
                            position <= index <= match_end,
                            this.output@ == emitted,
                            this.previous_distance == last,
                            this.literal_start <= this.position,
                            this.position == position,
                            match_end <= len,
                            this.table@.len() == HASH_SIZE * CANDIDATES_PER_BUCKET,
                            this.src@ == src,
                            len == src.len(),
                        decreases match_end - index,
                    {
                        this.insert_position(index);
                        index = index + 1;
                    }
                    this.position = match_end;
                    this.literal_start = match_end;
                    proof {
                        assert(this.state() == encode_step(src, st0));
                        fuel = (fuel - 1) as nat;
                    }
                },
            }
        }
        proof {
            assert(encode_scan(src, this.state(), fuel) == this.state());
        }
        let literal_start = this.literal_start;
        let ghost body_before = this.output@;
        this.emit_literals_from_source(literal_start, len);
        proof {
            let lits = src.subrange(literal_start as int, len as int);
            lemma_literal_run_len(lits);
            lemma_literal_run(lits, src.subrange(0, literal_start as int), this.previous_distance as nat);
            assert(src.subrange(0, literal_start as int) + lits =~= src);
            lemma_segments_compose(
                body_before,
                literal_run(lits),
                Seq::empty(),
                0,
                src.subrange(0, literal_start as int),
                this.previous_distance as nat,
                src,
                this.previous_distance as nat,
            );
        }
        let ghost body = this.output@;
        push_eos(&mut this.output);
        proof {
            let out = this.output@;
            assert(out =~= body + eos_marker());
            assert forall|cap: nat| cap >= src.len() implies #[trigger] decode_spec(out, cap) == Ok::<
                Seq<u8>,
                crate::error::Error,
            >(src) by {
                let empty = Seq::<u8>::empty();
                assert(empty + body + eos_marker() =~= out);
                assert(run_eq(empty, body, eos_marker(), cap, src, this.previous_distance as nat));
                lemma_eos_finishes(body, cap, src, this.previous_distance as nat);
                assert(initial_state() == DecodeState { pos: empty.len(), out: empty, prev: 0 });
            }
            assert(out.subrange(out.len() - 8, out.len() as int) =~= eos_marker());
        }
        this.output
    }

    fn find_match(&self, position: usize) -> (r: Option<Match>)
        requires
            self.wf(),
            position <= self.src@.len(),
        ensures
            r matches Some(m) ==> valid_match(self.src@, position as nat, m),
            r == find_match_spec(self.src@, self.table@, position as int, self.previous_distance),
    {
        if self.src.len() - position < MIN_MATCH_LEN {
            return None;
        }
        let mut best: Option<Match> = None;
        if self.previous_distance != 0 && position >= self.previous_distance {
            self.consider_candidate(position, position - self.previous_distance, &mut best);
        }
        let ghost start = best;
        let bucket = self.hash_at(position);
        let ghost base = bucket * CANDIDATES_PER_BUCKET;
        let mut slot: usize = 0;
        while slot < CANDIDATES_PER_BUCKET
            invariant
                self.wf(),
                position + MIN_MATCH_LEN <= self.src@.len(),
                bucket < HASH_SIZE,
                bucket == hash_spec(self.src@, position as int),
                base == bucket * CANDIDATES_PER_BUCKET,
                slot <= CANDIDATES_PER_BUCKET,
                best matches Some(m) ==> valid_match(self.src@, position as nat, m),
                scan_bucket(self.src@, self.table@, base, position as int, self.previous_distance, best, slot as nat)
                    == scan_bucket(self.src@, self.table@, base, position as int, self.previous_distance, start, 0),
            decreases CANDIDATES_PER_BUCKET - slot,
        {
            let candidate = self.table[bucket * CANDIDATES_PER_BUCKET + slot];
            if !(candidate == INVALID_POSITION || candidate >= position) {
                self.consider_candidate(position, candidate, &mut best);
            }
            slot = slot + 1;
        }
        match best {
            None => None,
            Some(found) => if self.match_is_worthwhile(found) {
                Some(found)
            } else {
                None
            },
        }
    }

    fn consider_candidate(&self, position: usize, candidate: usize, best: &mut Option<Match>)
        requires
            candidate < position,
            position + MIN_MATCH_LEN <= self.src@.len(),
            *old(best) matches Some(m) ==> valid_match(self.src@, position as nat, m),
        ensures
            *final(best) matches Some(m) ==> valid_match(self.src@, position as nat, m),
            *final(best) == consider_spec(
                self.src@,
                position as int,
                candidate as int,
                self.previous_distance,
                *old(best),
            ),
    {
        let distance = position - candidate;
        if distance == 0 || distance > MAX_DISTANCE {
            return;
        }
        if self.src[candidate] != self.src[position] || self.src[candidate + 1] != self.src[
            position + 1] || self.src[candidate + 2] != self.src[position + 2] {
            return;
        }
        let next = Match { distance, length: self.match_length(candidate, position) };
        if next.length < MIN_MATCH_LEN {
            return;
        }
        if Self::is_better_match(next, *best, self.previous_distance) {
            *best = Some(next);
        }
    }

    fn is_better_match(candidate: Match, current: Option<Match>, previous_distance: usize) -> (r: bool)
        ensures
            r == better_match(candidate, current, previous_distance),
    {
        let current = match current {
            None => return true,
            Some(c) => c,
        };
        if candidate.length != current.length {
            return candidate.length > current.length;
        }
        let candidate_prev = candidate.distance == previous_distance;
        let current_prev = current.distance == previous_distance;
        if candidate_prev != current_prev {
            return candidate_prev;
        }
        candidate.distance < current.distance
    }

    fn match_is_worthwhile(&self, next_match: Match) -> (r: bool)
        ensures
            r == if next_match.distance == self.previous_distance || next_match.distance
                < MAX_SHORT_DISTANCE {
                next_match.length >= MIN_MATCH_LEN
            } else {
                next_match.length > MIN_MATCH_LEN
            },
    {
        if next_match.distance == self.previous_distance || next_match.distance < MAX_SHORT_DISTANCE {
            return next_match.length >= MIN_MATCH_LEN;
        }
        next_match.length > MIN_MATCH_LEN
    }

    /// The length of the longest common prefix of the bytes from `candidate`
    /// and from `position`, stopping at the end of the input.
    fn match_length(&self, candidate: usize, position: usize) -> (length: usize)
        requires
            candidate < position <= self.src@.len(),
        ensures
            position + length <= self.src@.len(),
            forall|i: int|
                0 <= i < length ==> #[trigger] self.src@[position + i] == self.src@[candidate + i],
            position + length == self.src@.len() || self.src@[candidate + length]
                != self.src@[position + length],
            length == common_len(self.src@, candidate as int, position as int, 0),
    {
        let src_len = self.src.len();
        let max_length = src_len - position;
        let mut length: usize = 0;
        while length < max_length && self.src[candidate + length] == self.src[position + length]
            invariant
                common_len(self.src@, candidate as int, position as int, length as nat)
                    == common_len(self.src@, candidate as int, position as int, 0),
                length <= max_length,
                max_length == self.src@.len() - position,
                position + max_length == self.src@.len(),
                self.src@.len() <= usize::MAX,
                candidate < position,
                forall|i: int|
                    0 <= i < length ==> #[trigger] self.src@[position + i] == self.src@[candidate
                        + i],
            decreases max_length - length,
        {
            length = length + 1;
        }
        length
    }

    fn hash_at(&self, position: usize) -> (bucket: usize)
        requires
            position + MIN_MATCH_LEN <= self.src@.len(),
        ensures
            bucket < HASH_SIZE,
            bucket == hash_spec(self.src@, position as int),
    {
        let value = (self.src[position] as u32) | ((self.src[position + 1] as u32) << 8u32) | ((
        self.src[position + 2] as u32) << 16u32);
        let hash = value.wrapping_mul(4161u32) >> 12u32;
        let bucket = hash & 0x3FFF;
        assert(bucket < 0x4000) by (bit_vector)
            requires
                bucket == hash & 0x3FFF,
        ;
        bucket as usize
    }

    fn insert_position(&mut self, position: usize)
        requires
            old(self).table@.len() == HASH_SIZE * CANDIDATES_PER_BUCKET,
        ensures
            final(self).table@.len() == HASH_SIZE * CANDIDATES_PER_BUCKET,
            final(self).table@ == insert_spec(old(self).table@, old(self).src@, position as int),
            final(self).src == old(self).src,
            final(self).output == old(self).output,
            final(self).literal_start == old(self).literal_start,
            final(self).position == old(self).position,
            final(self).previous_distance == old(self).previous_distance,
    {
        if self.src.len().saturating_sub(position) < MIN_MATCH_LEN {
            return;
        }
        let bucket = self.hash_at(position);
        let base = bucket * CANDIDATES_PER_BUCKET;
        let second = self.table[base + 2];
        self.table[base + 3] = second;
        let first = self.table[base + 1];
        self.table[base + 2] = first;
        let zeroth = self.table[base];
        self.table[base + 1] = zeroth;
        self.table[base] = position;
    }

    fn emit_match(&mut self, next_match: Match)
        requires
            old(self).wf(),
            old(self).emitted_so_far(),
            valid_match(old(self).src@, old(self).position as nat, next_match),
        ensures
            final(self).src == old(self).src,
            final(self).table == old(self).table,
            final(self).position == old(self).position,
            final(self).literal_start == old(self).literal_start,
            final(self).previous_distance == next_match.distance,
            final(self).output@ == old(self).output@ + match_with_literals(
                old(self).previous_distance as nat,
                old(self).src@.subrange(old(self).literal_start as int, old(self).position as int),
                next_match.length as nat,
                next_match.distance as nat,
            ),
            segment_moves(
                final(self).output@,
                Seq::empty(),
                0,
                old(self).src@.subrange(0, old(self).position + next_match.length),
                next_match.distance as nat,
            ),
    {
        let src = self.src;
        let literal_start = self.literal_start;
        let literal_end = self.position;
        let ghost before = self.output@;
        let ghost prev = self.previous_distance as nat;
        let ghost done = src@.subrange(0, literal_start as int);
        self.emit_match_with_literals(
            &src[literal_start..literal_end],
            next_match.length,
            next_match.distance,
        );
        proof {
            let lits = src@.subrange(literal_start as int, literal_end as int);
            let d = next_match.distance as nat;
            let m = next_match.length as nat;
            assert(done + lits =~= src@.subrange(0, literal_end as int));
            lemma_match_with_literals(prev, lits, m, d, done);
            lemma_match_extends(src@, literal_end as nat, next_match);
            lemma_segments_compose(
                before,
                match_with_literals(prev, lits, m, d),
                Seq::empty(),
                0,
                done,
                prev,
                src@.subrange(0, literal_end + m),
                d,
            );
        }
    }

    /// Emits `literals` followed by a match of `match_len` bytes at
    /// `distance`, in the instructions that fit them best.
    pub fn emit_match_with_literals(&mut self, literals: &[u8], match_len: usize, distance: usize)
        requires
            3 <= match_len,
            0 < distance <= 0xFFFF,
        ensures
            final(self).emitted() == old(self).emitted() + match_with_literals(
                old(self).last_distance(),
                literals@,
                match_len as nat,
                distance as nat,
            ),
            final(self).last_distance() == distance,
            final(self).same_place(&*old(self)),
    {
        let inline_start = literals.len().saturating_sub(MAX_INLINE_LITERAL);
        self.emit_literals(&literals[0..inline_start]);
        let inline_literals = &literals[inline_start..literals.len()];
        self.emit_match_tail(inline_literals, match_len, distance);
        proof {
            assert(inline_start == inline_split(literals@));
        }
    }

    /// Emits the instruction that carries the inline literals and the start
    /// of the match, then the rest of the match.
    fn emit_match_tail(&mut self, inline_literals: &[u8], match_len: usize, distance: usize)
        requires
            3 <= match_len,
            0 < distance <= MAX_DISTANCE,
            inline_literals@.len() <= MAX_INLINE_LITERAL,
        ensures
            final(self).output@ == old(self).output@ + match_tail(
                old(self).previous_distance as nat,
                inline_literals@,
                match_len as nat,
                distance as nat,
            ),
            final(self).previous_distance == distance,
            final(self).same_place(&*old(self)),
    {
        let ghost prev = self.previous_distance as nat;
        let ghost before = self.output@;
        let ghost inline = inline_literals@;
        let ghost m = match_len as nat;
        let mut match_len = match_len;
        let inline_len = inline_literals.len();
        let short_match_limit = max_short_match(inline_len);
        if distance == self.previous_distance && inline_len == 0 {
            self.emit_match_chunks(match_len);
            return;
        }
        let initial_match = if distance == self.previous_distance {
            let initial_match = if match_len < short_match_limit { match_len } else { short_match_limit };
            self.emit_previous_distance(inline_literals, initial_match);
            initial_match
        } else if distance <= MAX_MEDIUM_DISTANCE && match_len > short_match_limit {
            let initial_match = if match_len < MAX_MEDIUM_MATCH { match_len } else { MAX_MEDIUM_MATCH };
            self.emit_medium_distance(inline_literals, initial_match, distance);
            initial_match
        } else if distance < MAX_SHORT_DISTANCE {
            let initial_match = if match_len < short_match_limit { match_len } else { short_match_limit };
            self.emit_small_distance(inline_literals, initial_match, distance);
            initial_match
        } else {
            let initial_match = if match_len < short_match_limit { match_len } else { short_match_limit };
            self.emit_large_distance(inline_literals, initial_match, distance);
            initial_match
        };
        let ghost after_first = self.output@;
        proof {
            let (instruction, first) = first_match_instruction(prev, inline, m, distance as nat);
            assert(first == initial_match);
            assert(after_first == before + instruction);
        }
        match_len = match_len - initial_match;
        self.previous_distance = distance;
        self.emit_match_chunks(match_len);
        proof {
            assert(self.output@ =~= before + match_tail(prev, inline, m, distance as nat));
        }
    }

    fn emit_literals_from_source(&mut self, start: usize, end: usize)
        requires
            start <= end <= old(self).src@.len(),
        ensures
            final(self).output@ == old(self).output@ + literal_run(
                old(self).src@.subrange(start as int, end as int),
            ),
            final(self).src == old(self).src,
            final(self).table == old(self).table,
            final(self).position == old(self).position,
            final(self).literal_start == old(self).literal_start,
            final(self).previous_distance == old(self).previous_distance,
    {
        let src = self.src;
        self.emit_literals(&src[start..end]);
    }

    /// Emits `literals` as literal instructions.
    fn emit_literals(&mut self, literals: &[u8])
        ensures
            final(self).output@ == old(self).output@ + literal_run(literals@),
            final(self).src == old(self).src,
            final(self).table == old(self).table,
            final(self).position == old(self).position,
            final(self).literal_start == old(self).literal_start,
            final(self).previous_distance == old(self).previous_distance,
    {
        let ghost total = old(self).output@ + literal_run(literals@);
        let len = literals.len();
        let mut offset: usize = 0;
        proof {
            assert(literals@.subrange(0, len as int) =~= literals@);
        }
        while offset < len
            invariant
                offset <= len,
                len == literals@.len(),
                self.src == old(self).src,
                self.table == old(self).table,
                self.position == old(self).position,
                self.literal_start == old(self).literal_start,
                self.previous_distance == old(self).previous_distance,
                total == self.output@ + literal_run(literals@.subrange(offset as int, len as int)),
            decreases len - offset,
        {
            let remaining = len - offset;
            let chunk = if remaining <= 15 {
                remaining
            } else if remaining < MAX_LITERAL_LEN {
                remaining
            } else {
                MAX_LITERAL_LEN
            };
            let ghost rest = literals@.subrange(offset as int, len as int);
            proof {
                assert(chunk == chunk_len(rest.len()));
                assert(rest.subrange(chunk as int, rest.len() as int) =~= literals@.subrange(
                    offset + chunk,
                    len as int,
                ));
                assert(rest.subrange(0, chunk as int) =~= literals@.subrange(
                    offset as int,
                    offset + chunk,
                ));
            }
            let ghost before = self.output@;
            if chunk <= 15 {
                self.output.push((0xE0 + chunk) as u8);
            } else {
                self.output.push(0xE0);
                self.output.push((chunk - 16) as u8);
            }
            proof {
                assert(self.output@ =~= before + literal_header(chunk as nat));
            }
            push_all(&mut self.output, &literals[offset..offset + chunk]);
            offset = offset + chunk;
            proof {
                assert(total == self.output@ + literal_run(literals@.subrange(offset as int, len as int)));
            }
        }
        proof {
            assert(literals@.subrange(len as int, len as int) =~= Seq::<u8>::empty());
            assert(self.output@ + Seq::<u8>::empty() =~= self.output@);
        }
    }

    fn emit_small_distance(&mut self, literals: &[u8], match_len: usize, distance: usize)
        requires
            distance < MAX_SHORT_DISTANCE,
            literals@.len() <= MAX_INLINE_LITERAL,
            MIN_MATCH_LEN <= match_len <= short_match_limit(literals@.len()),
        ensures
            final(self).output@ == old(self).output@ + small_distance_op(
                literals@.len(),
                match_len as nat,
                distance as nat,
            ) + literals@,
            final(self).src == old(self).src,
            final(self).table == old(self).table,
            final(self).position == old(self).position,
            final(self).literal_start == old(self).literal_start,
            final(self).previous_distance == old(self).previous_distance,
    {
        let ghost before = self.output@;
        let opcode = (literals.len() * 64 + (match_len - MIN_MATCH_LEN) * 8 + distance / 256) as u8;
        self.output.push(opcode);
        self.output.push((distance % 256) as u8);
        proof {
            assert(self.output@ =~= before + small_distance_op(literals@.len(), match_len as nat, distance as nat));
        }
        push_all(&mut self.output, literals);
    }

    fn emit_medium_distance(&mut self, literals: &[u8], match_len: usize, distance: usize)
        requires
            distance <= MAX_MEDIUM_DISTANCE,
            literals@.len() <= MAX_INLINE_LITERAL,
            MIN_MATCH_LEN <= match_len <= MAX_MEDIUM_MATCH,
        ensures
            final(self).output@ == old(self).output@ + medium_distance_op(
                literals@.len(),
                match_len as nat,
                distance as nat,
            ) + literals@,
            final(self).src == old(self).src,
            final(self).table == old(self).table,
            final(self).position == old(self).position,
            final(self).literal_start == old(self).literal_start,
            final(self).previous_distance == old(self).previous_distance,
    {
        let ghost before = self.output@;
        let match_code = match_len - MIN_MATCH_LEN;
        let opcode = (0xA0 + literals.len() * 8 + match_code / 4) as u8;
        let packed = distance * 4 + match_code % 4;
        self.output.push(opcode);
        self.output.push((packed % 256) as u8);
        self.output.push((packed / 256) as u8);
        proof {
            assert(self.output@ =~= before + medium_distance_op(literals@.len(), match_len as nat, distance as nat));
        }
        push_all(&mut self.output, literals);
    }

    fn emit_large_distance(&mut self, literals: &[u8], match_len: usize, distance: usize)
        requires
            distance <= MAX_DISTANCE,
            literals@.len() <= MAX_INLINE_LITERAL,
            MIN_MATCH_LEN <= match_len <= short_match_limit(literals@.len()),
        ensures
            final(self).output@ == old(self).output@ + large_distance_op(
                literals@.len(),
                match_len as nat,
                distance as nat,
            ) + literals@,
            final(self).src == old(self).src,
            final(self).table == old(self).table,
            final(self).position == old(self).position,
            final(self).literal_start == old(self).literal_start,
            final(self).previous_distance == old(self).previous_distance,
    {
        let ghost before = self.output@;
        let opcode = (literals.len() * 64 + (match_len - MIN_MATCH_LEN) * 8 + 7) as u8;
        self.output.push(opcode);
        self.output.push((distance % 256) as u8);
        self.output.push((distance / 256) as u8);
        proof {
            assert(self.output@ =~= before + large_distance_op(literals@.len(), match_len as nat, distance as nat));
        }
        push_all(&mut self.output, literals);
    }

    fn emit_previous_distance(&mut self, literals: &[u8], match_len: usize)
        requires
            literals@.len() <= MAX_INLINE_LITERAL,
            MIN_MATCH_LEN <= match_len <= short_match_limit(literals@.len()),
        ensures
            final(self).output@ == old(self).output@ + previous_distance_op(
                literals@.len(),
                match_len as nat,
            ) + literals@,
            final(self).src == old(self).src,
            final(self).table == old(self).table,
            final(self).position == old(self).position,
            final(self).literal_start == old(self).literal_start,
            final(self).previous_distance == old(self).previous_distance,
    {
        let ghost before = self.output@;
        let opcode = (literals.len() * 64 + (match_len - MIN_MATCH_LEN) * 8 + 6) as u8;
        self.output.push(opcode);
        proof {
            assert(self.output@ =~= before + previous_distance_op(literals@.len(), match_len as nat));
        }
        push_all(&mut self.output, literals);
    }

    fn emit_match_chunks(&mut self, match_len: usize)
        ensures
            final(self).output@ == old(self).output@ + match_run(match_len as nat),
            final(self).src == old(self).src,
            final(self).table == old(self).table,
            final(self).position == old(self).position,
            final(self).literal_start == old(self).literal_start,
            final(self).previous_distance == old(self).previous_distance,
    {
        let ghost total = old(self).output@ + match_run(match_len as nat);
        let mut match_len = match_len;
        while match_len > 0
            invariant
                self.src == old(self).src,
                self.table == old(self).table,
                self.position == old(self).position,
                self.literal_start == old(self).literal_start,
                self.previous_distance == old(self).previous_distance,
                total == self.output@ + match_run(match_len as nat),
            decreases match_len,
        {
            let chunk = if match_len <= 15 {
                match_len
            } else if match_len < MAX_MATCH_LEN {
                match_len
            } else {
                MAX_MATCH_LEN
            };
            let ghost before = self.output@;
            if chunk <= 15 {
                self.output.push((0xF0 + chunk) as u8);
            } else {
                self.output.push(0xF0);
                self.output.push((chunk - 16) as u8);
            }
            proof {
                assert(chunk == chunk_len(match_len as nat));
                assert(self.output@ =~= before + match_header(chunk as nat));
            }
            match_len = match_len - chunk;
        }
        proof {
            assert(self.output@ + Seq::<u8>::empty() =~= self.output@);
        }
    }
}

/// The most match bytes that fit an instruction beside `inline_literals`
/// inline literals.
fn max_short_match(inline_literals: usize) -> (r: usize)
    requires
        inline_literals <= MAX_INLINE_LITERAL,
    ensures
        r == short_match_limit(inline_literals as nat),
{
    10 - (inline_literals * 2)
}

/// Appends `bytes` to `out`.
fn push_all(out: &mut Vec<u8>, bytes: &[u8])
    ensures
        final(out)@ == old(out)@ + bytes@,
{
    let mut index: usize = 0;
    while index < bytes.len()
        invariant
            index <= bytes@.len(),
            out@ == old(out)@ + bytes@.subrange(0, index as int),
        decreases bytes@.len() - index,
    {
        out.push(bytes[index]);
        index = index + 1;
        proof {
            assert(out@ =~= old(out)@ + bytes@.subrange(0, index as int));
        }
    }
    proof {
        assert(bytes@.subrange(0, bytes@.len() as int) =~= bytes@);
    }
}

/// Appends the padded end-of-stream marker.
fn push_eos(out: &mut Vec<u8>)
    ensures
        final(out)@ == old(out)@ + eos_marker(),
{
    out.push(0x06);
    let mut count: usize = 0;
    while count < 7
        invariant
            count <= 7,
            out@ == old(out)@ + eos_marker().subrange(0, count + 1),
        decreases 7 - count,
    {
        out.push(0);
        count = count + 1;
        proof {
            assert(out@ =~= old(out)@ + eos_marker().subrange(0, count + 1));
        }
    }
    proof {
        assert(eos_marker().subrange(0, 8) =~= eos_marker());
    }
}

/// `segment_moves` instantiated at one place.
spec fn run_eq(pre: Seq<u8>, seg: Seq<u8>, post: Seq<u8>, cap: nat, out: Seq<u8>, prev: nat) -> bool {
    crate::raw::semantics::run(pre + seg + post, cap, DecodeState { pos: pre.len(), out: Seq::empty(), prev: 0 })
        == crate::raw::semantics::run(pre + seg + post, cap, DecodeState { pos: pre.len() + seg.len(), out: out, prev: prev })
}

} // verus!
