//! The raw, uncompressed stream format: a fixed-width big-endian header
//! followed by fixed-size event records, with byte-position seek support.
//!
//! The stream works over in-memory byte buffers; reading and writing files
//! is left to the surrounding program.

use vstd::prelude::*;

use crate::framer::SourceType;
use crate::{spec_camera_from_tag, spec_camera_tag, Coord, Event, SourceCamera, EOF_PX_ADDRESS};

verus! {

/// Number of bytes in an encoded stream header.
pub const HEADER_SIZE: usize = 19;

/// The error returned by raw-stream encoding, decoding and seeking.
#[derive(Debug, Copy, Clone, PartialEq, Eq, Structural)]
pub enum StreamError {
    /// The input holds no further event record.
    Eof,
    /// The header bytes are malformed (an unknown camera tag).
    BadHeader,
    /// A seek target does not land on an event-record boundary.
    UnalignedPosition,
    /// A seek target lies outside the input.
    PositionOutOfBounds,
    /// An event's coordinate lies outside the declared plane.
    CoordOutOfBounds,
    /// An event's delta-t exceeds the declared maximum.
    DeltaTOutOfBounds,
    /// The operation needs a header to have been encoded or decoded first.
    HeaderRequired,
}

impl StreamError {
    /// A human-readable description of the error.
    pub fn message(&self) -> String {
        match self {
            StreamError::Eof => String::from_str("end of stream"),
            StreamError::BadHeader => String::from_str("malformed stream header"),
            StreamError::UnalignedPosition => String::from_str(
                "position is not aligned to an event record",
            ),
            StreamError::PositionOutOfBounds => String::from_str("position is out of bounds"),
            StreamError::CoordOutOfBounds => String::from_str(
                "event coordinate is outside the plane",
            ),
            StreamError::DeltaTOutOfBounds => String::from_str(
                "event delta-t exceeds the declared maximum",
            ),
            StreamError::HeaderRequired => String::from_str("no header has been read or written"),
        }
    }
}

/// The fields of a raw stream header.
#[derive(Debug, Copy, Clone, PartialEq, Eq)]
pub struct StreamHeader {
    pub width: u16,
    pub height: u16,
    pub tps: u32,
    pub ref_interval: u32,
    pub delta_t_max: u32,
    pub channels: u8,
    pub codec_version: u8,
    pub source_camera: SourceCamera,
}

/// The two big-endian bytes of a 16-bit value.
pub open spec fn spec_u16_be(v: u16) -> Seq<u8> {
    seq![(v / 256) as u8, (v % 256) as u8]
}

/// The four big-endian bytes of a 32-bit value.
pub open spec fn spec_u32_be(v: u32) -> Seq<u8> {
    seq![
        (v / 0x1000000) as u8,
        ((v / 0x10000) % 256) as u8,
        ((v / 256) % 256) as u8,
        (v % 256) as u8,
    ]
}

/// The 16-bit value read from two big-endian bytes.
pub open spec fn spec_combine_u16(b0: u8, b1: u8) -> u16 {
    (b0 * 256 + b1) as u16
}

/// The 32-bit value read from four big-endian bytes.
pub open spec fn spec_combine_u32(b0: u8, b1: u8, b2: u8, b3: u8) -> u32 {
    (b0 * 0x1000000 + b1 * 0x10000 + b2 * 256 + b3) as u32
}

/// Big-endian 16-bit encoding loses nothing.
pub proof fn lemma_u16_be_round_trip(v: u16)
    ensures
        spec_combine_u16(spec_u16_be(v)[0], spec_u16_be(v)[1]) == v,
{
}

/// Big-endian 32-bit encoding loses nothing.
pub proof fn lemma_u32_be_round_trip(v: u32)
    ensures
        spec_combine_u32(spec_u32_be(v)[0], spec_u32_be(v)[1], spec_u32_be(v)[2], spec_u32_be(v)[3])
            == v,
{
}

/// The bytes of an encoded header: width, height, ticks per second,
/// reference interval, maximum delta-t, channels, codec version, camera tag.
pub open spec fn spec_header_bytes(h: StreamHeader) -> Seq<u8> {
    spec_u16_be(h.width) + spec_u16_be(h.height) + spec_u32_be(h.tps) + spec_u32_be(h.ref_interval)
        + spec_u32_be(h.delta_t_max) + seq![h.channels, h.codec_version, spec_camera_tag(
        h.source_camera,
    )]
}

/// The header decoded from the first `HEADER_SIZE` bytes of a buffer, or
/// nothing if the camera tag is unknown.
pub open spec fn spec_decode_header(b: Seq<u8>) -> Option<StreamHeader> {
    if b.len() < HEADER_SIZE {
        None
    } else {
        match spec_camera_from_tag(b[18]) {
            None => None,
            Some(camera) => Some(
                StreamHeader {
                    width: spec_combine_u16(b[0], b[1]),
                    height: spec_combine_u16(b[2], b[3]),
                    tps: spec_combine_u32(b[4], b[5], b[6], b[7]),
                    ref_interval: spec_combine_u32(b[8], b[9], b[10], b[11]),
                    delta_t_max: spec_combine_u32(b[12], b[13], b[14], b[15]),
                    channels: b[16],
                    codec_version: b[17],
                    source_camera: camera,
                },
            ),
        }
    }
}

/// Idempotence of the header round trip: decoding an encoded header gives
/// back exactly the original header, for every field combination.
pub proof fn lemma_header_round_trip(h: StreamHeader)
    ensures
        spec_decode_header(spec_header_bytes(h)) == Some(h),
{
    let b = spec_header_bytes(h);
    assert(b.len() == HEADER_SIZE);
    crate::lemma_camera_tag_round_trip(h.source_camera);
    lemma_u16_be_round_trip(h.width);
    lemma_u16_be_round_trip(h.height);
    lemma_u32_be_round_trip(h.tps);
    lemma_u32_be_round_trip(h.ref_interval);
    lemma_u32_be_round_trip(h.delta_t_max);
}

/// Number of bytes in one event record of a stream with the given channel
/// count: the channel byte is present only for multi-channel streams.
pub open spec fn spec_event_size(channels: u8) -> int {
    if channels > 1 {
        10
    } else {
        9
    }
}

/// The bytes of one encoded event record: x, y, the channel byte for
/// multi-channel streams, the decimation value, and delta-t.
pub open spec fn spec_event_bytes(e: Event, channels: u8) -> Seq<u8> {
    let c_byte: Seq<u8> = if channels > 1 {
        seq![
            match e.coord.c {
                Some(c) => c,
                None => 0,
            },
        ]
    } else {
        Seq::empty()
    };
    spec_u16_be(e.coord.x) + spec_u16_be(e.coord.y) + c_byte + seq![e.d] + spec_u32_be(e.delta_t)
}

/// The event decoded from the first record-size bytes of a buffer.
/// Single-channel streams decode to `c == None`.
pub open spec fn spec_decode_event(b: Seq<u8>, channels: u8) -> Event {
    if channels > 1 {
        Event {
            coord: Coord {
                x: spec_combine_u16(b[0], b[1]),
                y: spec_combine_u16(b[2], b[3]),
                c: Some(b[4]),
            },
            d: b[5],
            delta_t: spec_combine_u32(b[6], b[7], b[8], b[9]),
        }
    } else {
        Event {
            coord: Coord { x: spec_combine_u16(b[0], b[1]), y: spec_combine_u16(b[2], b[3]), c: None },
            d: b[4],
            delta_t: spec_combine_u32(b[5], b[6], b[7], b[8]),
        }
    }
}

/// Round trip of the raw event record: decoding an encoded event gives back
/// exactly the original event, whenever the event's channel field agrees
/// with the stream's channel count (a multi-channel stream stores a channel
/// byte, a single-channel stream stores none).
pub proof fn lemma_event_round_trip(e: Event, channels: u8)
    requires
        (channels > 1 ==> e.coord.c is Some),
        (channels <= 1 ==> e.coord.c is None),
    ensures
        spec_decode_event(spec_event_bytes(e, channels), channels) == e,
{
    lemma_u16_be_round_trip(e.coord.x);
    lemma_u16_be_round_trip(e.coord.y);
    lemma_u32_be_round_trip(e.delta_t);
}

/// The concatenated records of a sequence of events.
pub open spec fn spec_events_bytes(events: Seq<Event>, channels: u8) -> Seq<u8>
    decreases events.len(),
{
    if events.len() == 0 {
        Seq::empty()
    } else {
        spec_event_bytes(events[0], channels) + spec_events_bytes(events.drop_first(), channels)
    }
}

/// The concatenated records of events grouped per chunk, in group order.
pub open spec fn spec_event_groups_bytes(groups: Seq<Vec<Event>>, channels: u8) -> Seq<u8>
    decreases groups.len(),
{
    if groups.len() == 0 {
        Seq::empty()
    } else {
        spec_events_bytes(groups[0]@, channels) + spec_event_groups_bytes(
            groups.drop_first(),
            channels,
        )
    }
}

/// Grouped records split at the last group.
proof fn lemma_event_groups_bytes_snoc(groups: Seq<Vec<Event>>, channels: u8)
    requires
        groups.len() > 0,
    ensures
        spec_event_groups_bytes(groups, channels) == spec_event_groups_bytes(
            groups.drop_last(),
            channels,
        ) + spec_events_bytes(groups.last()@, channels),
    decreases groups.len(),
{
    if groups.len() == 1 {
        assert(groups.drop_first() =~= Seq::<Vec<Event>>::empty());
        assert(groups.drop_last() =~= Seq::<Vec<Event>>::empty());
        assert(spec_event_groups_bytes(groups, channels) =~= spec_event_groups_bytes(
            groups.drop_last(),
            channels,
        ) + spec_events_bytes(groups.last()@, channels));
    } else {
        lemma_event_groups_bytes_snoc(groups.drop_first(), channels);
        assert(groups.drop_first().drop_last() =~= groups.drop_last().drop_first());
        assert(groups.drop_first().last() == groups.last());
        assert(groups.drop_last()[0] == groups[0]);
        assert(groups.drop_last().len() > 0);
        assert(spec_event_groups_bytes(groups, channels) =~= spec_event_groups_bytes(
            groups.drop_last(),
            channels,
        ) + spec_events_bytes(groups.last()@, channels));
    }
}

/// Whether one event may be encoded into a stream of the given geometry:
/// its coordinate lies inside the plane and its delta-t within the maximum.
pub open spec fn spec_event_encodable(e: Event, width: u16, height: u16, delta_t_max: u32) -> bool {
    e.coord.x < width && e.coord.y < height && e.delta_t <= delta_t_max
}

/// Appends the two big-endian bytes of a 16-bit value.
fn push_u16_be(out: &mut Vec<u8>, v: u16)
    ensures
        final(out)@ == old(out)@ + spec_u16_be(v),
{
    out.push((v / 256) as u8);
    out.push((v % 256) as u8);
    assert(final(out)@ =~= old(out)@ + spec_u16_be(v));
}

/// Appends the four big-endian bytes of a 32-bit value.
pub(crate) fn push_u32_be(out: &mut Vec<u8>, v: u32)
    ensures
        final(out)@ == old(out)@ + spec_u32_be(v),
{
    out.push((v / 0x1000000) as u8);
    out.push(((v / 0x10000) % 256) as u8);
    out.push(((v / 256) % 256) as u8);
    out.push((v % 256) as u8);
    assert(final(out)@ =~= old(out)@ + spec_u32_be(v));
}

/// Reads a big-endian 16-bit value at a byte position.
fn read_u16_be(input: &Vec<u8>, pos: usize) -> (r: u16)
    requires
        pos + 2 <= input.len(),
    ensures
        r == spec_combine_u16(input@[pos as int], input@[pos as int + 1]),
{
    input[pos] as u16 * 256 + input[pos + 1] as u16
}

/// Reads a big-endian 32-bit value at a byte position.
pub(crate) fn read_u32_be(input: &Vec<u8>, pos: usize) -> (r: u32)
    requires
        pos + 4 <= input.len(),
    ensures
        r == spec_combine_u32(
            input@[pos as int],
            input@[pos as int + 1],
            input@[pos as int + 2],
            input@[pos as int + 3],
        ),
{
    input[pos] as u32 * 0x1000000 + input[pos + 1] as u32 * 0x10000 + input[pos + 2] as u32 * 256
        + input[pos + 3] as u32
}

/// A raw stream codec over in-memory buffers: encoded bytes accumulate in
/// `output`; decoding consumes `input` from `pos`.
pub struct RawStream {
    /// Bytes encoded so far.
    pub output: Vec<u8>,
    /// Bytes available for decoding.
    pub input: Vec<u8>,
    /// Read position within `input`.
    pub pos: usize,
    pub width: u16,
    pub height: u16,
    pub tps: u32,
    pub ref_interval: u32,
    pub delta_t_max: u32,
    pub channels: u8,
    pub codec_version: u8,
    pub source_camera: SourceCamera,
    /// Bytes per event record: 9 for single-channel, 10 for multi-channel.
    pub event_size: usize,
    /// Whether a header has been encoded or decoded.
    pub has_header: bool,
}

impl RawStream {
    /// The geometry fields a stream carries once it has a header.
    pub open spec fn header(&self) -> StreamHeader {
        StreamHeader {
            width: self.width,
            height: self.height,
            tps: self.tps,
            ref_interval: self.ref_interval,
            delta_t_max: self.delta_t_max,
            channels: self.channels,
            codec_version: self.codec_version,
            source_camera: self.source_camera,
        }
    }

    /// A stream is well-formed when its record size matches its channel
    /// count and its read position lies inside the input.
    pub open spec fn wf(&self) -> bool {
        &&& self.event_size == spec_event_size(self.channels)
        &&& self.pos <= self.input.len()
    }

    /// A fresh codec with empty buffers and no header.
    pub fn new() -> (r: Self)
        ensures
            r.wf(),
            !r.has_header,
            r.output@ == Seq::<u8>::empty(),
            r.input@ == Seq::<u8>::empty(),
            r.pos == 0,
    {
        RawStream {
            output: Vec::new(),
            input: Vec::new(),
            pos: 0,
            width: 0,
            height: 0,
            tps: 0,
            ref_interval: 0,
            delta_t_max: 0,
            channels: 1,
            codec_version: 0,
            source_camera: SourceCamera::FramedU8,
            event_size: 9,
            has_header: false,
        }
    }

    /// Hands the codec bytes to decode, rewinding the read position.
    pub fn set_input(&mut self, input: Vec<u8>)
        ensures
            *final(self) == (RawStream { input, pos: 0usize, ..*old(self) }),
            final(self).wf() == (final(self).event_size == spec_event_size(final(self).channels)),
    {
        self.input = input;
        self.pos = 0;
    }

    /// Takes the encoded bytes out of the codec, leaving it empty.
    pub fn take_output(&mut self) -> (r: Vec<u8>)
        ensures
            r@ == old(self).output@,
            final(self).output@ == Seq::<u8>::empty(),
            final(self).input@ == old(self).input@,
            final(self).pos == old(self).pos,
            final(self).header() == old(self).header(),
            final(self).has_header == old(self).has_header,
            final(self).event_size == old(self).event_size,
    {
        let mut out: Vec<u8> = Vec::new();
        core::mem::swap(&mut self.output, &mut out);
        out
    }

    /// Encodes the stream header, fixing the stream's geometry and appending
    /// the header's fixed-width big-endian bytes to the output.
    pub fn encode_header(
        &mut self,
        width: u16,
        height: u16,
        tps: u32,
        ref_interval: u32,
        delta_t_max: u32,
        channels: u8,
        codec_version: u8,
        source_camera: SourceCamera,
    )
        requires
            old(self).pos <= old(self).input@.len(),
        ensures
            final(self).wf(),
            final(self).has_header,
            final(self).header() == (StreamHeader {
                width,
                height,
                tps,
                ref_interval,
                delta_t_max,
                channels,
                codec_version,
                source_camera,
            }),
            final(self).output@ == old(self).output@ + spec_header_bytes(final(self).header()),
            final(self).input@ == old(self).input@,
            final(self).pos == old(self).pos,
            final(self).event_size == spec_event_size(channels),
            old(self).wf() ==> final(self).wf(),
    {
        self.width = width;
        self.height = height;
        self.tps = tps;
        self.ref_interval = ref_interval;
        self.delta_t_max = delta_t_max;
        self.channels = channels;
        self.codec_version = codec_version;
        self.source_camera = source_camera;
        self.event_size = if channels > 1 {
            10
        } else {
            9
        };
        self.has_header = true;
        push_u16_be(&mut self.output, width);
        push_u16_be(&mut self.output, height);
        push_u32_be(&mut self.output, tps);
        push_u32_be(&mut self.output, ref_interval);
        push_u32_be(&mut self.output, delta_t_max);
        self.output.push(channels);
        self.output.push(codec_version);
        let tag = source_camera.to_tag();
        self.output.push(tag);
        assert(final(self).output@ =~= old(self).output@ + spec_header_bytes(
            final(self).header(),
        ));
    }

    /// Decodes the stream header at the current read position, adopting its
    /// geometry and advancing past it. Returns the header's byte size.
    /// Fails with `Eof` when fewer than `HEADER_SIZE` bytes remain and with
    /// `BadHeader` on an unknown camera tag, leaving the stream unchanged.
    pub fn decode_header(&mut self) -> (r: Result<usize, StreamError>)
        requires
            old(self).wf(),
        ensures
            final(self).wf(),
            final(self).output@ == old(self).output@,
            final(self).input@ == old(self).input@,
            ({
                let b = old(self).input@.subrange(
                    old(self).pos as int,
                    old(self).input@.len() as int,
                );
                match spec_decode_header(b) {
                    Some(h) => {
                        &&& r == Ok::<usize, StreamError>(HEADER_SIZE)
                        &&& final(self).has_header
                        &&& final(self).header() == h
                        &&& final(self).pos == old(self).pos + HEADER_SIZE
                    },
                    None => {
                        &&& r is Err
                        &&& *final(self) == *old(self)
                        &&& (b.len() < HEADER_SIZE ==> r == Err::<usize, StreamError>(
                            StreamError::Eof,
                        ))
                        &&& (b.len() >= HEADER_SIZE ==> r == Err::<usize, StreamError>(
                            StreamError::BadHeader,
                        ))
                    },
                }
            }),
    {
        let ghost b = self.input@.subrange(self.pos as int, self.input@.len() as int);
        if self.input.len() - self.pos < HEADER_SIZE {
            return Err(StreamError::Eof);
        }
        let base = self.pos;
        let width = read_u16_be(&self.input, base);
        let height = read_u16_be(&self.input, base + 2);
        let tps = read_u32_be(&self.input, base + 4);
        let ref_interval = read_u32_be(&self.input, base + 8);
        let delta_t_max = read_u32_be(&self.input, base + 12);
        let channels = self.input[base + 16];
        let codec_version = self.input[base + 17];
        let tag = self.input[base + 18];
        let camera = match SourceCamera::from_tag(tag) {
            Some(camera) => camera,
            None => {
                return Err(StreamError::BadHeader);
            },
        };
        self.width = width;
        self.height = height;
        self.tps = tps;
        self.ref_interval = ref_interval;
        self.delta_t_max = delta_t_max;
        self.channels = channels;
        self.codec_version = codec_version;
        self.source_camera = camera;
        self.event_size = if channels > 1 {
            10
        } else {
            9
        };
        self.has_header = true;
        self.pos = base + HEADER_SIZE;
        Ok(HEADER_SIZE)
    }

    /// Encodes one event record, validating it against the declared plane
    /// geometry: an out-of-bounds coordinate or an over-large delta-t is
    /// rejected and the stream is left unchanged. Success appends exactly
    /// the record's bytes.
    pub fn encode_event(&mut self, event: &Event) -> (r: Result<(), StreamError>)
        requires
            old(self).wf(),
            old(self).has_header,
        ensures
            final(self).wf(),
            final(self).has_header,
            final(self).header() == old(self).header(),
            final(self).input@ == old(self).input@,
            final(self).pos == old(self).pos,
            final(self).event_size == old(self).event_size,
            r is Ok <==> spec_event_encodable(
                *event,
                old(self).width,
                old(self).height,
                old(self).delta_t_max,
            ),
            r is Ok ==> final(self).output@ == old(self).output@ + spec_event_bytes(
                *event,
                old(self).channels,
            ),
            r is Err ==> final(self).output@ == old(self).output@,
            r == Err::<(), StreamError>(StreamError::CoordOutOfBounds) <==> (event.coord.x
                >= old(self).width || event.coord.y >= old(self).height),
            r == Err::<(), StreamError>(StreamError::DeltaTOutOfBounds) <==> (event.coord.x < old(
                self,
            ).width && event.coord.y < old(self).height && event.delta_t > old(self).delta_t_max),
    {
        if event.coord.x >= self.width || event.coord.y >= self.height {
            return Err(StreamError::CoordOutOfBounds);
        }
        if event.delta_t > self.delta_t_max {
            return Err(StreamError::DeltaTOutOfBounds);
        }
        self.encode_event_unchecked(event);
        Ok(())
    }

    /// Appends one event record without validating it: used for the
    /// end-of-stream sentinel, whose address lies outside every plane.
    fn encode_event_unchecked(&mut self, event: &Event)
        requires
            old(self).wf(),
        ensures
            *final(self) == (RawStream { output: final(self).output, ..*old(self) }),
            final(self).output@ == old(self).output@ + spec_event_bytes(
                *event,
                old(self).channels,
            ),
            final(self).wf(),
    {
        push_u16_be(&mut self.output, event.coord.x);
        push_u16_be(&mut self.output, event.coord.y);
        if self.channels > 1 {
            let c_byte = match event.coord.c {
                Some(c) => c,
                None => 0,
            };
            self.output.push(c_byte);
        }
        self.output.push(event.d);
        push_u32_be(&mut self.output, event.delta_t);
        assert(final(self).output@ =~= old(self).output@ + spec_event_bytes(
            *event,
            old(self).channels,
        ));
    }

    /// Encodes a batch of events in order, stopping at the first invalid
    /// one. Success appends exactly the concatenation of all the records.
    pub fn encode_events(&mut self, events: &[Event]) -> (r: Result<(), StreamError>)
        requires
            old(self).wf(),
            old(self).has_header,
        ensures
            final(self).wf(),
            final(self).has_header,
            final(self).header() == old(self).header(),
            final(self).input@ == old(self).input@,
            r is Ok <==> (forall|i: int|
                0 <= i < events@.len() ==> spec_event_encodable(
                    #[trigger] events@[i],
                    old(self).width,
                    old(self).height,
                    old(self).delta_t_max,
                )),
            r is Ok ==> final(self).output@ == old(self).output@ + spec_events_bytes(
                events@,
                old(self).channels,
            ),
    {
        let ghost pre = *old(self);
        let mut i: usize = 0;
        let n = events.len();
        while i < n
            invariant
                pre == *old(self),
                i <= n,
                n == events@.len(),
                self.wf(),
                self.has_header,
                self.header() == pre.header(),
                self.input@ == pre.input@,
                self.pos == pre.pos,
                self.width == pre.width && self.height == pre.height && self.delta_t_max
                    == pre.delta_t_max && self.channels == pre.channels,
                self.event_size == pre.event_size,
                forall|k: int|
                    0 <= k < i ==> spec_event_encodable(
                        #[trigger] events@[k],
                        pre.width,
                        pre.height,
                        pre.delta_t_max,
                    ),
                self.output@ == pre.output@ + spec_events_bytes(
                    events@.subrange(0, i as int),
                    pre.channels,
                ),
            decreases n - i,
        {
            let event = events[i];
            match self.encode_event(&event) {
                Ok(_) => {},
                Err(e) => {
                    return Err(e);
                },
            }
            proof {
                lemma_events_bytes_snoc(events@.subrange(0, i as int + 1), pre.channels);
                assert(events@.subrange(0, i as int + 1).drop_last() =~= events@.subrange(
                    0,
                    i as int,
                ));
            }
            i = i + 1;
        }
        proof {
            assert(events@.subrange(0, n as int) =~= events@);
        }
        Ok(())
    }

    /// Encodes events grouped per chunk, flattening the groups in order.
    pub fn encode_events_events(&mut self, events: &Vec<Vec<Event>>) -> (r: Result<
        (),
        StreamError,
    >)
        requires
            old(self).wf(),
            old(self).has_header,
        ensures
            final(self).wf(),
            final(self).has_header,
            final(self).header() == old(self).header(),
            r is Ok <==> (forall|g: int, i: int|
                0 <= g < events@.len() && 0 <= i < events@[g]@.len() ==> spec_event_encodable(
                    #[trigger] events@[g]@[i],
                    old(self).width,
                    old(self).height,
                    old(self).delta_t_max,
                )),
            r is Ok ==> final(self).output@ == old(self).output@ + spec_event_groups_bytes(
                events@,
                old(self).channels,
            ),
    {
        let ghost pre = *old(self);
        let mut g: usize = 0;
        let n = events.len();
        while g < n
            invariant
                pre == *old(self),
                g <= n,
                n == events@.len(),
                self.wf(),
                self.has_header,
                self.header() == pre.header(),
                self.input@ == pre.input@,
                self.width == pre.width && self.height == pre.height && self.delta_t_max
                    == pre.delta_t_max && self.channels == pre.channels,
                forall|k: int, i: int|
                    0 <= k < g && 0 <= i < events@[k]@.len() ==> spec_event_encodable(
                        #[trigger] events@[k]@[i],
                        pre.width,
                        pre.height,
                        pre.delta_t_max,
                    ),
                self.output@ == pre.output@ + spec_event_groups_bytes(
                    events@.subrange(0, g as int),
                    pre.channels,
                ),
            decreases n - g,
        {
            let group: &Vec<Event> = &events[g];
            match self.encode_events(group.as_slice()) {
                Ok(_) => {},
                Err(e) => {
                    return Err(e);
                },
            }
            proof {
                lemma_event_groups_bytes_snoc(events@.subrange(0, g as int + 1), pre.channels);
                assert(events@.subrange(0, g as int + 1).drop_last() =~= events@.subrange(
                    0,
                    g as int,
                ));
                assert(events@.subrange(0, g as int + 1).last() == events@[g as int]);
                assert(self.output@ =~= pre.output@ + spec_event_groups_bytes(
                    events@.subrange(0, g as int + 1),
                    pre.channels,
                ));
            }
            g = g + 1;
        }
        proof {
            assert(events@.subrange(0, n as int) =~= events@);
        }
        Ok(())
    }

    /// Appends the end-of-stream sentinel record: an event at the reserved
    /// out-of-plane address.
    pub fn write_eof(&mut self)
        requires
            old(self).wf(),
        ensures
            final(self).wf(),
            final(self).output@ == old(self).output@ + spec_event_bytes(
                spec_eof_event(),
                old(self).channels,
            ),
            final(self).input@ == old(self).input@,
            final(self).pos == old(self).pos,
            final(self).header() == old(self).header(),
            final(self).has_header == old(self).has_header,
    {
        let eof = Event {
            coord: Coord { x: EOF_PX_ADDRESS, y: EOF_PX_ADDRESS, c: Some(0) },
            d: 0,
            delta_t: 0,
        };
        self.encode_event_unchecked(&eof);
    }

    /// Decodes the event record at the current read position and advances
    /// past it. Fails with `Eof`, leaving the position unchanged, when
    /// fewer than a record's bytes remain or the record is the end-of-stream
    /// sentinel.
    pub fn decode_event(&mut self) -> (r: Result<Event, StreamError>)
        requires
            old(self).wf(),
            old(self).has_header,
        ensures
            final(self).wf(),
            final(self).has_header,
            final(self).header() == old(self).header(),
            final(self).input@ == old(self).input@,
            final(self).output@ == old(self).output@,
            final(self).event_size == old(self).event_size,
            ({
                let remaining = old(self).input@.len() - old(self).pos;
                let record = old(self).input@.subrange(
                    old(self).pos as int,
                    old(self).pos + old(self).event_size,
                );
                if remaining < old(self).event_size {
                    r == Err::<Event, StreamError>(StreamError::Eof) && *final(self) == *old(self)
                } else {
                    let e = spec_decode_event(record, old(self).channels);
                    if e.coord.x == EOF_PX_ADDRESS && e.coord.y == EOF_PX_ADDRESS {
                        r == Err::<Event, StreamError>(StreamError::Eof) && *final(self) == *old(
                            self,
                        )
                    } else {
                        r == Ok::<Event, StreamError>(e) && final(self).pos == old(self).pos + old(
                            self,
                        ).event_size
                    }
                }
            }),
    {
        if self.input.len() - self.pos < self.event_size {
            return Err(StreamError::Eof);
        }
        let base = self.pos;
        let x = read_u16_be(&self.input, base);
        let y = read_u16_be(&self.input, base + 2);
        let (c, d, dt): (Option<u8>, u8, u32) = if self.channels > 1 {
            (
                Some(self.input[base + 4]),
                self.input[base + 5],
                read_u32_be(&self.input, base + 6),
            )
        } else {
            (None, self.input[base + 4], read_u32_be(&self.input, base + 5))
        };
        if x == EOF_PX_ADDRESS && y == EOF_PX_ADDRESS {
            return Err(StreamError::Eof);
        }
        self.pos = base + self.event_size;
        Ok(Event { coord: Coord { x, y, c }, d, delta_t: dt })
    }

    /// The current read position, as a byte address.
    pub fn get_input_stream_position(&self) -> (r: Result<u64, StreamError>)
        ensures
            r == Ok::<u64, StreamError>(self.pos as u64),
    {
        Ok(self.pos as u64)
    }

    /// Seeks the read position to a byte address. The address must lie on
    /// an event-record boundary past the header and inside the input.
    pub fn set_input_stream_position(&mut self, pos: u64) -> (r: Result<(), StreamError>)
        requires
            old(self).wf(),
            old(self).has_header,
        ensures
            final(self).wf(),
            final(self).has_header,
            final(self).header() == old(self).header(),
            final(self).input@ == old(self).input@,
            final(self).output@ == old(self).output@,
            ({
                if pos > old(self).input@.len() {
                    r == Err::<(), StreamError>(StreamError::PositionOutOfBounds) && *final(self)
                        == *old(self)
                } else if pos < HEADER_SIZE || ((pos - HEADER_SIZE) as int) % (
                old(self).event_size as int) != 0 {
                    r == Err::<(), StreamError>(StreamError::UnalignedPosition) && *final(self)
                        == *old(self)
                } else {
                    r == Ok::<(), StreamError>(()) && final(self).pos == pos
                }
            }),
    {
        if pos > self.input.len() as u64 {
            return Err(StreamError::PositionOutOfBounds);
        }
        if pos < HEADER_SIZE as u64 || (pos - HEADER_SIZE as u64) % (self.event_size as u64) != 0 {
            return Err(StreamError::UnalignedPosition);
        }
        self.pos = pos as usize;
        Ok(())
    }

    /// The numeric type of the source samples, implied by the stream's
    /// camera kind.
    pub fn get_source_type(&self) -> (r: SourceType)
        ensures
            r == spec_source_type_of(self.source_camera),
    {
        match self.source_camera {
            SourceCamera::FramedU8 => SourceType::U8,
            SourceCamera::FramedU16 => SourceType::U16,
            SourceCamera::FramedU32 => SourceType::U32,
            SourceCamera::FramedU64 => SourceType::U64,
            SourceCamera::FramedF32 => SourceType::F32,
            SourceCamera::FramedF64 => SourceType::F64,
            SourceCamera::Dvs => SourceType::U8,
            SourceCamera::DavisU8 => SourceType::U8,
            SourceCamera::Atis => SourceType::U8,
            SourceCamera::Asint => SourceType::U8,
        }
    }

    /// The byte position just past the last input byte, for computing event
    /// counts from the stream size.
    pub fn get_eof_position(&self) -> (r: Result<usize, StreamError>)
        ensures
            r == Ok::<usize, StreamError>(self.input@.len() as usize),
    {
        Ok(self.input.len())
    }
}

/// The numeric sample type a stream's camera kind implies: the framed
/// kinds carry their declared depth; the event-camera kinds deliver 8-bit
/// samples.
pub open spec fn spec_source_type_of(c: SourceCamera) -> SourceType {
    match c {
        SourceCamera::FramedU8 => SourceType::U8,
        SourceCamera::FramedU16 => SourceType::U16,
        SourceCamera::FramedU32 => SourceType::U32,
        SourceCamera::FramedU64 => SourceType::U64,
        SourceCamera::FramedF32 => SourceType::F32,
        SourceCamera::FramedF64 => SourceType::F64,
        SourceCamera::Dvs => SourceType::U8,
        SourceCamera::DavisU8 => SourceType::U8,
        SourceCamera::Atis => SourceType::U8,
        SourceCamera::Asint => SourceType::U8,
    }
}

/// The end-of-stream sentinel event.
pub open spec fn spec_eof_event() -> Event {
    Event {
        coord: Coord { x: EOF_PX_ADDRESS, y: EOF_PX_ADDRESS, c: Some(0) },
        d: 0,
        delta_t: 0,
    }
}

/// Concatenated event records split at the last event.
proof fn lemma_events_bytes_snoc(events: Seq<Event>, channels: u8)
    requires
        events.len() > 0,
    ensures
        spec_events_bytes(events, channels) == spec_events_bytes(events.drop_last(), channels)
            + spec_event_bytes(events.last(), channels),
    decreases events.len(),
{
    if events.len() == 1 {
        assert(events.drop_first() =~= Seq::<Event>::empty());
        assert(events.drop_last() =~= Seq::<Event>::empty());
        assert(spec_events_bytes(events, channels) =~= spec_events_bytes(
            events.drop_last(),
            channels,
        ) + spec_event_bytes(events.last(), channels));
    } else {
        lemma_events_bytes_snoc(events.drop_first(), channels);
        assert(events.drop_first().drop_last() =~= events.drop_last().drop_first());
        assert(events.drop_first().last() == events.last());
        assert(events.drop_last().len() > 0);
        assert(spec_events_bytes(events, channels) == spec_event_bytes(events[0], channels)
            + spec_events_bytes(events.drop_first(), channels));
        assert(spec_events_bytes(events.drop_last(), channels) == spec_event_bytes(
            events.drop_last()[0],
            channels,
        ) + spec_events_bytes(events.drop_last().drop_first(), channels));
        assert(events.drop_last()[0] == events[0]);
        assert(spec_events_bytes(events, channels) =~= spec_events_bytes(
            events.drop_last(),
            channels,
        ) + spec_event_bytes(events.last(), channels));
    }
}

} // verus!
