//! The block compression model: serializes one block's worth of event data
//! into a self-terminating byte stream and back, visiting positions in
//! zig-zag order so that spatially close pixels are coded near each other.
//!
//! Per visited position the coder emits a presence symbol and, for an
//! occupied slot, the decimation value and delta-t, both bounded by the
//! model's configured maxima. Encoder and decoder walk the identical
//! traversal; a malformed symbol is fatal for the rest of the stream.

use vstd::prelude::*;

use crate::blocks::{Block3, BLOCK_SIZE_BIG, BLOCK_SIZE_BIG_AREA};
use crate::raw_codec::{push_u32_be, read_u32_be, spec_combine_u32, spec_u32_be};
use crate::EventCoordless;

verus! {

/// Symbol marking an empty slot.
pub const SYMBOL_ABSENT: u8 = 0;

/// Symbol marking an occupied slot, followed by its values.
pub const SYMBOL_PRESENT: u8 = 1;

/// Terminator symbol appended by the encoder's flush.
pub const SYMBOL_FLUSH: u8 = 2;

/// The error returned by the block compression model.
#[derive(Debug, Copy, Clone, PartialEq, Eq, Structural)]
pub enum CompressionError {
    /// A slot's decimation value or delta-t exceeds the model's maxima.
    ValueOutOfBounds,
    /// The input ended inside a block's coded symbols.
    Eof,
    /// An unknown symbol: the coded stream is desynchronized, which is
    /// fatal for its remainder.
    Malformed,
}

impl CompressionError {
    /// A human-readable description of the error.
    pub fn message(&self) -> String {
        match self {
            CompressionError::ValueOutOfBounds => String::from_str(
                "event value exceeds the compression model bounds",
            ),
            CompressionError::Eof => String::from_str("input ended inside a coded block"),
            CompressionError::Malformed => String::from_str("malformed coded block symbol"),
        }
    }
}

/// The zig-zag traversal: the flat position visited at a given rank. Rows
/// are scanned in alternating direction, so successive ranks touch adjacent
/// pixels and the serialized order preserves spatial locality.
pub open spec fn spec_zigzag(r: int) -> int {
    let row = r / (BLOCK_SIZE_BIG as int);
    let off = r % (BLOCK_SIZE_BIG as int);
    if row % 2 == 0 {
        row * (BLOCK_SIZE_BIG as int) + off
    } else {
        row * (BLOCK_SIZE_BIG as int) + (BLOCK_SIZE_BIG as int) - 1 - off
    }
}

/// The zig-zag traversal is its own inverse: applying it twice gives the
/// rank back, so it permutes the block's positions.
pub proof fn lemma_zigzag_involution(r: int)
    requires
        0 <= r < BLOCK_SIZE_BIG_AREA,
    ensures
        0 <= spec_zigzag(r) < BLOCK_SIZE_BIG_AREA,
        spec_zigzag(spec_zigzag(r)) == r,
{
    let n = BLOCK_SIZE_BIG as int;
    let row = r / n;
    let off = r % n;
    assert(r == row * n + off && 0 <= off < n && 0 <= row < n) by (nonlinear_arith)
        requires
            0 <= r < 256 && n == 16 && row == r / n && off == r % n,
    ;
    let i = spec_zigzag(r);
    let off2: int = if row % 2 == 0 {
        off
    } else {
        n - 1 - off
    };
    assert(i == row * n + off2);
    assert(i / n == row && i % n == off2) by (nonlinear_arith)
        requires
            i == row * n + off2 && 0 <= off2 < n && n == 16 && 0 <= row < n,
    ;
    assert(0 <= i < 256) by (nonlinear_arith)
        requires
            i == row * n + off2 && 0 <= off2 < n && n == 16 && 0 <= row < n,
    ;
}

/// The flat position visited at a rank of the zig-zag traversal.
pub fn zigzag_index(rank: usize) -> (r: usize)
    requires
        rank < BLOCK_SIZE_BIG_AREA,
    ensures
        r as int == spec_zigzag(rank as int),
        r < BLOCK_SIZE_BIG_AREA,
{
    proof {
        lemma_zigzag_involution(rank as int);
    }
    let row = rank / BLOCK_SIZE_BIG;
    let off = rank % BLOCK_SIZE_BIG;
    if row % 2 == 0 {
        row * BLOCK_SIZE_BIG + off
    } else {
        row * BLOCK_SIZE_BIG + BLOCK_SIZE_BIG - 1 - off
    }
}

/// The coded symbols of one slot: the absent symbol alone, or the present
/// symbol followed by the decimation value and big-endian delta-t.
pub open spec fn spec_slot_bytes(s: Option<EventCoordless>) -> Seq<u8> {
    match s {
        None => seq![SYMBOL_ABSENT],
        Some(e) => seq![SYMBOL_PRESENT, e.d] + spec_u32_be(e.delta_t),
    }
}

/// The concatenated coded symbols of a sequence of slots.
pub open spec fn spec_slots_bytes(t: Seq<Option<EventCoordless>>) -> Seq<u8>
    decreases t.len(),
{
    if t.len() == 0 {
        Seq::empty()
    } else {
        spec_slot_bytes(t[0]) + spec_slots_bytes(t.drop_first())
    }
}

/// A block's slots reordered by traversal rank.
pub open spec fn spec_rank_seq(events: Seq<Option<EventCoordless>>) -> Seq<Option<EventCoordless>> {
    Seq::new(BLOCK_SIZE_BIG_AREA as nat, |r: int| events[spec_zigzag(r)])
}

/// The coded bytes of one whole block: its slots in zig-zag order.
pub open spec fn spec_block_bytes(events: Seq<Option<EventCoordless>>) -> Seq<u8> {
    spec_slots_bytes(spec_rank_seq(events))
}

/// Whether a slot's values lie within the model's configured maxima.
pub open spec fn spec_slot_in_bounds(s: Option<EventCoordless>, delta_t_max: u32, d_max: u8) -> bool {
    match s {
        None => true,
        Some(e) => e.d <= d_max && e.delta_t <= delta_t_max,
    }
}

/// The slots decoded from the front of a buffer, with the number of bytes
/// consumed, or nothing if the buffer is malformed or too short.
pub open spec fn spec_decode_slots(b: Seq<u8>, n: nat) -> Option<
    (Seq<Option<EventCoordless>>, nat),
>
    decreases n,
{
    if n == 0 {
        Some((Seq::empty(), 0))
    } else if b.len() < 1 {
        None
    } else if b[0] == SYMBOL_ABSENT {
        match spec_decode_slots(b.skip(1), (n - 1) as nat) {
            None => None,
            Some((s, c)) => Some((seq![Option::<EventCoordless>::None] + s, (c + 1) as nat)),
        }
    } else if b[0] == SYMBOL_PRESENT {
        if b.len() < 6 {
            None
        } else {
            let e = EventCoordless { d: b[1], delta_t: spec_combine_u32(b[2], b[3], b[4], b[5]) };
            match spec_decode_slots(b.skip(6), (n - 1) as nat) {
                None => None,
                Some((s, c)) => Some((seq![Some(e)] + s, (c + 6) as nat)),
            }
        }
    } else {
        None
    }
}

/// The block decoded from the front of a buffer: slots read in zig-zag
/// order and scattered back to their flat positions.
pub open spec fn spec_decoded_block(b: Seq<u8>) -> Option<(Seq<Option<EventCoordless>>, nat)> {
    match spec_decode_slots(b, BLOCK_SIZE_BIG_AREA as nat) {
        None => None,
        Some((t, c)) => Some(
            (Seq::new(BLOCK_SIZE_BIG_AREA as nat, |i: int| t[spec_zigzag(i)]), c),
        ),
    }
}

/// Decoding inverts encoding slot by slot: the coded symbols of a slot
/// sequence, followed by anything, decode to exactly that sequence.
proof fn lemma_decode_slots_round_trip(t: Seq<Option<EventCoordless>>, rest: Seq<u8>)
    ensures
        spec_decode_slots(spec_slots_bytes(t) + rest, t.len()) == Some(
            (t, spec_slots_bytes(t).len() as nat),
        ),
    decreases t.len(),
{
    let b = spec_slots_bytes(t) + rest;
    if t.len() == 0 {
        assert(t =~= Seq::<Option<EventCoordless>>::empty());
        assert(spec_slots_bytes(t).len() == 0);
        assert(spec_decode_slots(b, 0) == Some((Seq::<Option<EventCoordless>>::empty(), 0nat)));
    } else {
        let tail_bytes = spec_slots_bytes(t.drop_first()) + rest;
        lemma_decode_slots_round_trip(t.drop_first(), rest);
        match t[0] {
            None => {
                assert(b[0] == SYMBOL_ABSENT);
                assert(b.skip(1) =~= tail_bytes);
                assert(seq![Option::<EventCoordless>::None] + t.drop_first() =~= t);
            },
            Some(e) => {
                assert(b[0] == SYMBOL_PRESENT);
                assert(b.len() >= 6);
                assert(b[1] == e.d);
                assert(b[2] == spec_u32_be(e.delta_t)[0] && b[3] == spec_u32_be(e.delta_t)[1]
                    && b[4] == spec_u32_be(e.delta_t)[2] && b[5] == spec_u32_be(e.delta_t)[3]);
                crate::raw_codec::lemma_u32_be_round_trip(e.delta_t);
                assert(b.skip(6) =~= tail_bytes);
                assert(seq![Some(e)] + t.drop_first() =~= t);
            },
        }
    }
}

/// Round trip of the block compression model: the coded bytes of a block
/// decode to a block identical per slot, including emptiness, whatever
/// follows them in the stream.
pub proof fn lemma_block_round_trip(events: Seq<Option<EventCoordless>>, rest: Seq<u8>)
    requires
        events.len() == BLOCK_SIZE_BIG_AREA,
    ensures
        spec_decoded_block(spec_block_bytes(events) + rest) == Some(
            (events, spec_block_bytes(events).len() as nat),
        ),
{
    let t = spec_rank_seq(events);
    lemma_decode_slots_round_trip(t, rest);
    let unranked = Seq::new(BLOCK_SIZE_BIG_AREA as nat, |i: int| t[spec_zigzag(i)]);
    assert forall|i: int| 0 <= i < BLOCK_SIZE_BIG_AREA implies unranked[i] == events[i] by {
        lemma_zigzag_involution(i);
    }
    assert(unranked =~= events);
}

/// Coded symbols split at the last slot.
proof fn lemma_slots_bytes_snoc(t: Seq<Option<EventCoordless>>)
    requires
        t.len() > 0,
    ensures
        spec_slots_bytes(t) == spec_slots_bytes(t.drop_last()) + spec_slot_bytes(t.last()),
    decreases t.len(),
{
    if t.len() == 1 {
        assert(t.drop_first() =~= Seq::<Option<EventCoordless>>::empty());
        assert(t.drop_last() =~= Seq::<Option<EventCoordless>>::empty());
        assert(spec_slots_bytes(t) =~= spec_slots_bytes(t.drop_last()) + spec_slot_bytes(
            t.last(),
        ));
    } else {
        lemma_slots_bytes_snoc(t.drop_first());
        assert(t.drop_first().drop_last() =~= t.drop_last().drop_first());
        assert(t.drop_first().last() == t.last());
        assert(t.drop_last().len() > 0);
        assert(t.drop_last()[0] == t[0]);
        assert(spec_slots_bytes(t) =~= spec_slots_bytes(t.drop_last()) + spec_slot_bytes(
            t.last(),
        ));
    }
}

/// The encoding half of the compression model: validates a block against
/// the configured maxima and appends its coded symbols to the output.
pub struct CompressionModelEncoder {
    /// The largest delta-t the model admits.
    pub delta_t_max: u32,
    /// The largest decimation value the model admits.
    pub d_max: u8,
    /// The coded bytes produced so far.
    pub output: Vec<u8>,
}

impl CompressionModelEncoder {
    /// A fresh encoder with the given maxima and an empty output.
    pub fn new(delta_t_max: u32, d_max: u8) -> (r: Self)
        ensures
            r.delta_t_max == delta_t_max,
            r.d_max == d_max,
            r.output@ == Seq::<u8>::empty(),
    {
        CompressionModelEncoder { delta_t_max, d_max, output: Vec::new() }
    }

    /// Encodes one block end-to-end, visiting its slots in zig-zag order.
    /// Fails, leaving the output unchanged, when any occupied slot exceeds
    /// the configured maxima.
    pub fn encode_block(&mut self, block: &Block3) -> (r: Result<(), CompressionError>)
        requires
            block.wf(),
        ensures
            final(self).delta_t_max == old(self).delta_t_max,
            final(self).d_max == old(self).d_max,
            r is Ok <==> (forall|i: int|
                0 <= i < BLOCK_SIZE_BIG_AREA ==> spec_slot_in_bounds(
                    #[trigger] block.events[i],
                    old(self).delta_t_max,
                    old(self).d_max,
                )),
            r is Ok ==> final(self).output@ == old(self).output@ + spec_block_bytes(
                block.events@,
            ),
            r is Err ==> final(self).output@ == old(self).output@ && r == Err::<
                (),
                CompressionError,
            >(CompressionError::ValueOutOfBounds),
    {
        let mut i: usize = 0;
        while i < BLOCK_SIZE_BIG_AREA
            invariant
                i <= BLOCK_SIZE_BIG_AREA,
                block.wf(),
                forall|k: int|
                    0 <= k < i ==> spec_slot_in_bounds(
                        #[trigger] block.events[k],
                        self.delta_t_max,
                        self.d_max,
                    ),
                *self == *old(self),
            decreases BLOCK_SIZE_BIG_AREA - i,
        {
            match block.events[i] {
                Some(e) => {
                    if e.d > self.d_max || e.delta_t > self.delta_t_max {
                        return Err(CompressionError::ValueOutOfBounds);
                    }
                },
                None => {},
            }
            i = i + 1;
        }
        let ghost pre = *old(self);
        let ghost ranks = spec_rank_seq(block.events@);
        let mut rank: usize = 0;
        while rank < BLOCK_SIZE_BIG_AREA
            invariant
                rank <= BLOCK_SIZE_BIG_AREA,
                block.wf(),
                ranks == spec_rank_seq(block.events@),
                self.delta_t_max == pre.delta_t_max,
                self.d_max == pre.d_max,
                self.output@ == pre.output@ + spec_slots_bytes(ranks.take(rank as int)),
            decreases BLOCK_SIZE_BIG_AREA - rank,
        {
            let pos = zigzag_index(rank);
            match block.events[pos] {
                None => {
                    self.output.push(SYMBOL_ABSENT);
                },
                Some(e) => {
                    self.output.push(SYMBOL_PRESENT);
                    self.output.push(e.d);
                    push_u32_be(&mut self.output, e.delta_t);
                },
            }
            proof {
                assert(ranks[rank as int] == block.events@[spec_zigzag(rank as int)]);
                lemma_slots_bytes_snoc(ranks.take(rank as int + 1));
                assert(ranks.take(rank as int + 1).drop_last() =~= ranks.take(rank as int));
                assert(self.output@ =~= pre.output@ + spec_slots_bytes(
                    ranks.take(rank as int + 1),
                ));
            }
            rank = rank + 1;
        }
        proof {
            assert(ranks.take(BLOCK_SIZE_BIG_AREA as int) =~= ranks);
        }
        Ok(())
    }

    /// Finalizes the coded stream with the explicit terminator symbol, so
    /// that the bitstream is self-terminating.
    pub fn flush_encoder(&mut self)
        ensures
            final(self).delta_t_max == old(self).delta_t_max,
            final(self).d_max == old(self).d_max,
            final(self).output@ == old(self).output@ + seq![SYMBOL_FLUSH],
    {
        self.output.push(SYMBOL_FLUSH);
    }

    /// Takes the coded bytes out of the encoder, leaving it empty.
    pub fn take_output(&mut self) -> (r: Vec<u8>)
        ensures
            r@ == old(self).output@,
            final(self).output@ == Seq::<u8>::empty(),
            final(self).delta_t_max == old(self).delta_t_max,
            final(self).d_max == old(self).d_max,
    {
        let mut out: Vec<u8> = Vec::new();
        core::mem::swap(&mut self.output, &mut out);
        out
    }
}

/// The decoding half of the compression model: mirrors the encoder's
/// traversal and symbol layout exactly.
pub struct CompressionModelDecoder {
    /// The largest delta-t the model admits.
    pub delta_t_max: u32,
    /// The largest decimation value the model admits.
    pub d_max: u8,
    /// The coded bytes being consumed.
    pub input: Vec<u8>,
    /// Read position within `input`.
    pub pos: usize,
}

impl CompressionModelDecoder {
    /// A fresh decoder over a coded buffer.
    pub fn new(delta_t_max: u32, d_max: u8, input: Vec<u8>) -> (r: Self)
        ensures
            r.delta_t_max == delta_t_max,
            r.d_max == d_max,
            r.input == input,
            r.pos == 0,
    {
        CompressionModelDecoder { delta_t_max, d_max, input, pos: 0 }
    }

    /// Decodes one block's coded symbols from the current position into a
    /// block, mirroring the encoder's zig-zag traversal. On a short or
    /// malformed input the stream is desynchronized: the error is returned
    /// with the block and position left unchanged, and the remainder of the
    /// stream must be treated as lost.
    pub fn decode_block(&mut self, block: &mut Block3) -> (r: Result<(), CompressionError>)
        requires
            old(block).wf(),
            old(self).pos <= old(self).input.len(),
        ensures
            final(self).delta_t_max == old(self).delta_t_max,
            final(self).d_max == old(self).d_max,
            final(self).input@ == old(self).input@,
            final(block).wf(),
            final(self).pos <= final(self).input.len(),
            ({
                let b = old(self).input@.skip(old(self).pos as int);
                match spec_decoded_block(b) {
                    Some((slots, c)) => {
                        &&& r is Ok
                        &&& final(block).events@ == slots
                        &&& final(self).pos == old(self).pos + c
                    },
                    None => {
                        &&& r is Err
                        &&& *final(block) == *old(block)
                        &&& final(self).pos == old(self).pos
                    },
                }
            }),
    {
        let ghost b0 = self.input@.skip(self.pos as int);
        let mut slots: Vec<Option<EventCoordless>> = Vec::new();
        let mut p = self.pos;
        let mut rank: usize = 0;
        while rank < BLOCK_SIZE_BIG_AREA
            invariant
                rank <= BLOCK_SIZE_BIG_AREA,
                slots.len() == rank,
                *self == *old(self),
                *block == *old(block),
                old(block).wf(),
                self.pos <= p <= self.input.len(),
                b0 == self.input@.skip(self.pos as int),
                spec_decode_slots(b0, BLOCK_SIZE_BIG_AREA as nat) == (match spec_decode_slots(
                    self.input@.skip(p as int),
                    (BLOCK_SIZE_BIG_AREA - rank) as nat,
                ) {
                    None => None::<(Seq<Option<EventCoordless>>, nat)>,
                    Some((s, c)) => Some((slots@ + s, ((p - self.pos) + c) as nat)),
                }),
            decreases BLOCK_SIZE_BIG_AREA - rank,
        {
            let ghost rem = self.input@.skip(p as int);
            if p >= self.input.len() {
                return Err(CompressionError::Eof);
            }
            let symbol = self.input[p];
            if symbol == SYMBOL_ABSENT {
                slots.push(None);
                proof {
                    assert(self.input@.skip(p as int + 1) =~= rem.skip(1));
                }
                p = p + 1;
            } else if symbol == SYMBOL_PRESENT {
                if self.input.len() - p < 6 {
                    return Err(CompressionError::Eof);
                }
                let d = self.input[p + 1];
                let dt = read_u32_be(&self.input, p + 2);
                slots.push(Some(EventCoordless { d, delta_t: dt }));
                proof {
                    assert(rem[1] == d && rem[2] == self.input@[p as int + 2] && rem[3]
                        == self.input@[p as int + 3] && rem[4] == self.input@[p as int + 4]
                        && rem[5] == self.input@[p as int + 5]);
                    assert(self.input@.skip(p as int + 6) =~= rem.skip(6));
                }
                p = p + 6;
            } else {
                return Err(CompressionError::Malformed);
            }
            rank = rank + 1;
        }
        // Scatter the rank-ordered slots back to their flat positions.
        let ghost decoded = spec_decoded_block(b0);
        proof {
            assert(spec_decode_slots(self.input@.skip(p as int), 0nat) == Some(
                (Seq::<Option<EventCoordless>>::empty(), 0nat),
            ));
            assert(slots@ + Seq::<Option<EventCoordless>>::empty() =~= slots@);
        }
        let mut rank2: usize = 0;
        while rank2 < BLOCK_SIZE_BIG_AREA
            invariant
                rank2 <= BLOCK_SIZE_BIG_AREA,
                slots.len() == BLOCK_SIZE_BIG_AREA,
                block.wf(),
                forall|k: int|
                    0 <= k < rank2 ==> #[trigger] block.events@[spec_zigzag(k)] == slots@[k],
                forall|j: int|
                    0 <= j < BLOCK_SIZE_BIG_AREA && (forall|k: int|
                        0 <= k < rank2 ==> spec_zigzag(k) != j) ==> #[trigger] block.events@[j]
                        == old(block).events@[j],
            decreases BLOCK_SIZE_BIG_AREA - rank2,
        {
            let pos_in_block = zigzag_index(rank2);
            let s = slots[rank2];
            block.events.set(pos_in_block, s);
            proof {
                assert forall|k: int| 0 <= k < rank2 + 1 implies #[trigger] block.events@[
                    spec_zigzag(k)] == slots@[k] by {
                    if k < rank2 {
                        lemma_zigzag_involution(k);
                        lemma_zigzag_involution(rank2 as int);
                        if spec_zigzag(k) == spec_zigzag(rank2 as int) {
                            assert(k == rank2);
                        }
                    }
                }
            }
            rank2 = rank2 + 1;
        }
        self.pos = p;
        proof {
            let t = spec_decode_slots(b0, BLOCK_SIZE_BIG_AREA as nat).unwrap().0;
            assert(t == slots@);
            let scattered = Seq::new(BLOCK_SIZE_BIG_AREA as nat, |i: int| t[spec_zigzag(i)]);
            assert forall|i: int| 0 <= i < BLOCK_SIZE_BIG_AREA implies block.events@[i]
                == scattered[i] by {
                lemma_zigzag_involution(i);
                assert(block.events@[spec_zigzag(spec_zigzag(i))] == slots@[spec_zigzag(i)]);
            }
            assert(block.events@ =~= scattered);
        }
        Ok(())
    }

    /// Whether the next symbol is the encoder's terminator, consuming it if
    /// so: the check that a coded stream was read to its end.
    pub fn check_eof(&mut self) -> (r: bool)
        requires
            old(self).pos <= old(self).input.len(),
        ensures
            final(self).input@ == old(self).input@,
            final(self).delta_t_max == old(self).delta_t_max,
            final(self).d_max == old(self).d_max,
            r == (old(self).pos < old(self).input@.len() && old(self).input@[old(self).pos as int]
                == SYMBOL_FLUSH),
            r ==> final(self).pos == old(self).pos + 1,
            !r ==> final(self).pos == old(self).pos,
            final(self).pos <= final(self).input.len(),
    {
        if self.pos < self.input.len() && self.input[self.pos] == SYMBOL_FLUSH {
            self.pos = self.pos + 1;
            true
        } else {
            false
        }
    }
}

} // verus!
