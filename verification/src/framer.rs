//! The frame sequence driver: replays a decoded event stream into dense,
//! time-aligned frames across one or more horizontal row chunks.
//!
//! Each chunk owns a queue of pending frames plus per-pixel trackers: a
//! running timestamp, the index of the last output frame the pixel has
//! filled, and the pixel's last known intensity for carrying forward
//! through empty events. Chunks own disjoint rows and disjoint state, so
//! they can be ingested independently.

use vstd::prelude::*;

use crate::{
    spec_is_framed, two_pow, Coord, DeltaT, Event, PlaneSize, SourceCamera, EMPTY_EVENT_D,
};

verus! {

/// How events become frames: sample the first value per frame, or
/// accumulate contributions.
#[derive(Debug, Copy, Clone, PartialEq, Eq, Structural)]
pub enum FramerMode {
    INSTANTANEOUS,
    INTEGRATION,
}

/// The numeric type of the source samples a stream was transcoded from.
#[derive(Debug, Copy, Clone, PartialEq, Eq, Structural)]
pub enum SourceType {
    U8,
    U16,
    U32,
    U64,
    F32,
    F64,
}

/// What value a reconstructed frame shows for a pixel.
#[derive(Debug, Copy, Clone, PartialEq, Eq, Structural)]
pub enum FramedViewMode {
    /// The reconstructed light intensity.
    Intensity,
    /// The event's decimation value itself.
    D,
    /// The event's delta-t, scaled against the stream's maximum.
    DeltaT,
}

/// The error returned by the frame sequence driver.
#[derive(Debug, Copy, Clone, PartialEq, Eq, Structural)]
pub enum FrameSequenceError {
    /// Frame index out of bounds.
    InvalidIndex,
    /// Frame not initialized.
    UninitializedFrame,
    /// Frame chunk not initialized.
    UninitializedFrameChunk,
    /// An impossible fill count was encountered.
    BadFillCount,
}

impl FrameSequenceError {
    /// A human-readable description of the error.
    pub fn message(&self) -> String {
        match self {
            FrameSequenceError::InvalidIndex => String::from_str("Invalid frame index"),
            FrameSequenceError::UninitializedFrame => String::from_str("Uninitialized frame"),
            FrameSequenceError::UninitializedFrameChunk => String::from_str(
                "Uninitialized frame chunk",
            ),
            FrameSequenceError::BadFillCount => String::from_str("Bad fill count"),
        }
    }
}

/// Number of slots of a sequence that hold a value.
pub open spec fn count_filled(s: Seq<Option<u8>>) -> nat
    decreases s.len(),
{
    if s.len() == 0 {
        0
    } else {
        count_filled(s.drop_last()) + if s.last() is Some {
            1nat
        } else {
            0nat
        }
    }
}

/// The fill count never exceeds the slot count.
pub proof fn lemma_count_filled_le_len(s: Seq<Option<u8>>)
    ensures
        count_filled(s) <= s.len(),
    decreases s.len(),
{
    if s.len() > 0 {
        lemma_count_filled_le_len(s.drop_last());
    }
}

/// Writing a value into an empty slot raises the fill count by exactly
/// one.
pub proof fn lemma_count_filled_update(s: Seq<Option<u8>>, j: int, v: u8)
    requires
        0 <= j < s.len(),
        s[j] is None,
    ensures
        count_filled(s.update(j, Some(v))) == count_filled(s) + 1,
    decreases s.len(),
{
    let t = s.update(j, Some(v));
    if j == s.len() - 1 {
        assert(t.drop_last() =~= s.drop_last());
        assert(t.last() == Some(v));
    } else {
        lemma_count_filled_update(s.drop_last(), j, v);
        assert(t.drop_last() =~= s.drop_last().update(j, Some(v)));
        assert(t.last() == s.last());
    }
}

/// A full fill count means every slot has been set.
pub proof fn lemma_count_filled_full(s: Seq<Option<u8>>)
    requires
        count_filled(s) == s.len(),
    ensures
        forall|i: int| 0 <= i < s.len() ==> s[i] is Some,
    decreases s.len(),
{
    if s.len() > 0 {
        lemma_count_filled_le_len(s.drop_last());
        lemma_count_filled_full(s.drop_last());
        assert forall|i: int| 0 <= i < s.len() implies s[i] is Some by {
            if i < s.len() - 1 {
                assert(s.drop_last()[i] is Some);
            }
        }
    }
}

/// One dense output frame: a rows-by-columns-by-channels buffer of
/// optional intensity values, with a count of how many slots are set.
#[derive(Debug, Clone)]
pub struct Frame {
    /// The pixel slots, flattened row-major: row, then column, then channel.
    pub array: Vec<Option<u8>>,
    pub rows: usize,
    pub cols: usize,
    pub channels: usize,
    /// How many slots hold a value; the frame is full when this reaches
    /// the slot count.
    pub filled_count: usize,
}

impl Frame {
    /// A frame is well-formed when its buffer matches its dimensions and
    /// its fill count is exact.
    pub open spec fn wf(&self) -> bool {
        &&& self.array.len() == self.rows * self.cols * self.channels
        &&& self.filled_count == count_filled(self.array@)
    }

    /// Builds an empty frame of the given dimensions.
    pub fn new_empty(rows: usize, cols: usize, channels: usize) -> (r: Frame)
        requires
            channels >= 1,
            rows * cols * channels <= usize::MAX,
        ensures
            r.wf(),
            r.rows == rows && r.cols == cols && r.channels == channels,
            r.filled_count == 0,
            forall|i: int| 0 <= i < r.array.len() ==> r.array[i] is None,
    {
        proof {
            assert(rows * cols <= rows * cols * channels) by (nonlinear_arith)
                requires
                    channels >= 1 && rows >= 0 && cols >= 0,
            ;
        }
        let n = rows * cols * channels;
        let mut array: Vec<Option<u8>> = Vec::new();
        let mut i: usize = 0;
        while i < n
            invariant
                i <= n,
                array.len() == i,
                forall|j: int| 0 <= j < i ==> array[j] is None,
                count_filled(array@) == 0,
            decreases n - i,
        {
            let ghost before = array@;
            array.push(None);
            proof {
                assert(array@.drop_last() =~= before);
            }
            i = i + 1;
        }
        Frame { array, rows, cols, channels, filled_count: 0 }
    }
}

/// One horizontal stripe of rows, with its queue of pending frames and its
/// exclusively-owned per-pixel trackers.
#[derive(Debug, Clone)]
pub struct FrameChunk {
    /// Pending frames, oldest first.
    pub frames: Vec<Frame>,
    /// Per-pixel running timestamp, in ticks.
    pub pixel_ts: Vec<u64>,
    /// Per-pixel index of the last output frame already filled; -1 before
    /// any event arrives.
    pub last_filled: Vec<i64>,
    /// Per-pixel last known intensity, carried forward through empty
    /// events.
    pub last_intensity: Vec<u8>,
    /// The output-frame index of the back of the queue.
    pub frame_idx_offset: i64,
    /// Whether this chunk's oldest pending frame is completely filled.
    pub filled: bool,
    /// Number of image rows this chunk covers.
    pub rows: usize,
}

impl FrameChunk {
    /// A chunk is well-formed for a plane when it always has a pending
    /// frame, its frames match its dimensions, and its trackers cover
    /// exactly its pixels.
    pub open spec fn wf(&self, plane: PlaneSize) -> bool {
        &&& self.frames.len() >= 1
        &&& forall|i: int|
            0 <= i < self.frames.len() ==> (#[trigger] self.frames[i]).wf()
                && self.frames[i].rows == self.rows && self.frames[i].cols == plane.width
                && self.frames[i].channels == plane.channels
        &&& self.pixel_ts.len() == self.rows * plane.width * plane.channels
        &&& self.last_filled.len() == self.pixel_ts.len()
        &&& self.last_intensity.len() == self.pixel_ts.len()
        &&& forall|i: int| 0 <= i < self.last_filled.len() ==> #[trigger] self.last_filled[i] >= -1
        &&& self.frame_idx_offset >= 0
        &&& self.rows >= 1
    }

    /// Builds a chunk of the given rows with one empty pending frame and
    /// zeroed trackers.
    pub fn new(rows: usize, plane: PlaneSize) -> (r: FrameChunk)
        requires
            rows >= 1,
            plane.wf(),
            rows * plane.width as int * plane.channels as int <= usize::MAX,
        ensures
            r.wf(plane),
            r.frames.len() == 1,
            r.frames[0].filled_count == 0,
            r.frame_idx_offset == 0,
            !r.filled,
            r.rows == rows,
            forall|i: int| 0 <= i < r.pixel_ts.len() ==> #[trigger] r.pixel_ts[i] == 0,
            forall|i: int| 0 <= i < r.last_filled.len() ==> #[trigger] r.last_filled[i] == -1,
            forall|i: int| 0 <= i < r.frames[0].array.len() ==> r.frames[0].array[i] is None,
    {
        proof {
            assert(rows * plane.width as int <= rows * plane.width as int * plane.channels as int)
                by (nonlinear_arith)
                requires
                    plane.channels >= 1 && rows >= 0 && plane.width >= 0,
            ;
        }
        let n = rows * (plane.width as usize) * (plane.channels as usize);
        let frame = Frame::new_empty(rows, plane.width as usize, plane.channels as usize);
        let mut frames: Vec<Frame> = Vec::new();
        frames.push(frame);
        let mut pixel_ts: Vec<u64> = Vec::new();
        let mut last_filled: Vec<i64> = Vec::new();
        let mut last_intensity: Vec<u8> = Vec::new();
        let mut i: usize = 0;
        while i < n
            invariant
                i <= n,
                pixel_ts.len() == i && last_filled.len() == i && last_intensity.len() == i,
                forall|j: int| 0 <= j < i ==> #[trigger] pixel_ts[j] == 0,
                forall|j: int| 0 <= j < i ==> #[trigger] last_filled[j] == -1,
            decreases n - i,
        {
            pixel_ts.push(0);
            last_filled.push(-1);
            last_intensity.push(0);
            i = i + 1;
        }
        FrameChunk {
            frames,
            pixel_ts,
            last_filled,
            last_intensity,
            frame_idx_offset: 0,
            filled: false,
            rows,
        }
    }
}

/// Builds a frame sequence step by step: plane geometry and chunking first,
/// then timing, mode, source and codec version.
#[derive(Debug, Clone)]
pub struct FramerBuilder {
    pub plane: PlaneSize,
    pub tps: DeltaT,
    pub output_fps: u32,
    pub mode: FramerMode,
    pub view_mode: FramedViewMode,
    pub source: SourceType,
    pub codec_version: u8,
    pub source_camera: SourceCamera,
    pub ref_interval: DeltaT,
    pub delta_t_max: DeltaT,
    pub chunk_rows: usize,
}

impl FramerBuilder {
    /// A builder with the given plane and chunk height, and default timing:
    /// 150000 ticks per second at 30 output frames per second.
    pub fn new(plane: PlaneSize, chunk_rows: usize) -> (r: FramerBuilder)
        ensures
            r == (FramerBuilder {
                plane,
                chunk_rows,
                tps: 150000u32,
                output_fps: 30u32,
                mode: FramerMode::INSTANTANEOUS,
                view_mode: FramedViewMode::Intensity,
                source: SourceType::U8,
                codec_version: 1u8,
                source_camera: SourceCamera::FramedU8,
                ref_interval: 5000u32,
                delta_t_max: 5000u32,
            }),
    {
        FramerBuilder {
            plane,
            chunk_rows,
            tps: 150000,
            output_fps: 30,
            mode: FramerMode::INSTANTANEOUS,
            view_mode: FramedViewMode::Intensity,
            source: SourceType::U8,
            codec_version: 1,
            source_camera: SourceCamera::FramedU8,
            ref_interval: 5000,
            delta_t_max: 5000,
        }
    }

    /// Sets ticks per second, the reference interval, the maximum delta-t,
    /// and the output frame rate.
    pub fn time_parameters(
        self,
        tps: DeltaT,
        ref_interval: DeltaT,
        delta_t_max: DeltaT,
        output_fps: u32,
    ) -> (r: FramerBuilder)
        ensures
            r == (FramerBuilder { tps, ref_interval, delta_t_max, output_fps, ..self }),
    {
        FramerBuilder { tps, ref_interval, delta_t_max, output_fps, ..self }
    }

    /// Sets the reconstruction mode.
    pub fn mode(self, mode: FramerMode) -> (r: FramerBuilder)
        ensures
            r == (FramerBuilder { mode, ..self }),
    {
        FramerBuilder { mode, ..self }
    }

    /// Sets the view mode.
    pub fn view_mode(self, mode: FramedViewMode) -> (r: FramerBuilder)
        ensures
            r == (FramerBuilder { view_mode: mode, ..self }),
    {
        FramerBuilder { view_mode: mode, ..self }
    }

    /// Sets the source sample type and camera kind.
    pub fn source(self, source: SourceType, source_camera: SourceCamera) -> (r: FramerBuilder)
        ensures
            r == (FramerBuilder { source, source_camera, ..self }),
    {
        FramerBuilder { source, source_camera, ..self }
    }

    /// Sets the codec version.
    pub fn codec_version(self, codec_version: u8) -> (r: FramerBuilder)
        ensures
            r == (FramerBuilder { codec_version, ..self }),
    {
        FramerBuilder { codec_version, ..self }
    }

    /// Whether the builder's parameters can drive a frame sequence: a
    /// well-formed plane, at least one chunk row, a positive tick budget
    /// per output frame, a positive reference interval, and a frame volume
    /// that fits in memory.
    pub open spec fn valid(&self) -> bool {
        &&& self.plane.wf()
        &&& self.chunk_rows >= 1
        &&& self.output_fps >= 1
        &&& self.tps as int / self.output_fps as int >= 1
        &&& self.ref_interval >= 1
        &&& self.chunk_rows * self.plane.width as int * self.plane.channels as int <= usize::MAX
        &&& self.plane.height as int * self.plane.width as int * self.plane.channels as int
            <= usize::MAX
    }

    /// Finishes the builder into a frame sequence.
    pub fn finish(self) -> (r: FrameSequence)
        requires
            self.valid(),
        ensures
            r.wf(),
            r.tpf == self.tps / self.output_fps,
            r.mode == self.mode,
            r.view_mode == self.view_mode,
            r.source == self.source,
            r.codec_version == self.codec_version,
            r.source_camera == self.source_camera,
            r.ref_interval == self.ref_interval,
            r.source_dtm == self.delta_t_max,
            r.chunk_rows == self.chunk_rows,
            r.plane == self.plane,
            r.frames_written == 0,
            forall|k: int|
                0 <= k < r.chunks.len() ==> (#[trigger] r.chunks[k]).frames.len() == 1
                    && r.chunks[k].frame_idx_offset == 0 && !r.chunks[k].filled,
            forall|k: int, i: int|
                0 <= k < r.chunks.len() && 0 <= i < r.chunks[k].pixel_ts.len() ==> (
                #[trigger] r.chunks[k].pixel_ts[i]) == 0,
            forall|k: int, i: int|
                0 <= k < r.chunks.len() && 0 <= i < r.chunks[k].last_filled.len() ==> (
                #[trigger] r.chunks[k].last_filled[i]) == -1,
            forall|k: int, i: int|
                0 <= k < r.chunks.len() && 0 <= i < r.chunks[k].frames[0].array.len() ==> (
                #[trigger] r.chunks[k].frames[0].array[i]) is None,
    {
        FrameSequence::new(self)
    }
}

/// Number of chunks a plane splits into: height divided by the chunk rows,
/// rounded up.
pub open spec fn spec_num_chunks(height: int, chunk_rows: int) -> int {
    (height + chunk_rows - 1) / chunk_rows
}

/// The chunk count in division-and-remainder form, and that a positive
/// plane has at least one chunk.
proof fn lemma_num_chunks_form(h: int, ck: int)
    requires
        h >= 1,
        ck >= 1,
    ensures
        spec_num_chunks(h, ck) == (if h % ck == 0 {
            h / ck
        } else {
            h / ck + 1
        }),
        spec_num_chunks(h, ck) >= 1,
{
    let m = h + ck - 1;
    let q = h / ck;
    let r = h % ck;
    vstd::arithmetic::div_mod::lemma_fundamental_div_mod(h, ck);
    vstd::arithmetic::div_mod::lemma_mod_bound(h, ck);
    vstd::arithmetic::div_mod::lemma_fundamental_div_mod(m, ck);
    vstd::arithmetic::div_mod::lemma_mod_bound(m, ck);
    if r == 0 {
        assert(m / ck == q && q >= 1) by (nonlinear_arith)
            requires
                h == ck * q + r && r == 0 && h >= 1 && ck >= 1 && m == h + ck - 1 && m == ck * (m
                    / ck) + m % ck && 0 <= m % ck < ck,
        ;
    } else {
        assert(m / ck == q + 1 && q + 1 >= 1) by (nonlinear_arith)
            requires
                h == ck * q + r && 1 <= r < ck && ck >= 1 && m == h + ck - 1 && m == ck * (m / ck)
                    + m % ck && 0 <= m % ck < ck && q >= 0,
        ;
    }
}

/// Number of rows of one chunk: every chunk has the full chunk height but
/// the last, which takes the remaining rows.
pub open spec fn spec_chunk_rows(height: int, chunk_rows: int, k: int) -> int {
    if k == spec_num_chunks(height, chunk_rows) - 1 {
        height - k * chunk_rows
    } else {
        chunk_rows
    }
}

/// A sequence of pending dense frames reconstructed from an event stream,
/// split into independent row chunks.
#[derive(Debug, Clone)]
pub struct FrameSequence {
    /// The row chunks, top to bottom; each owns its rows' state.
    pub chunks: Vec<FrameChunk>,
    /// Number of frames already popped for output.
    pub frames_written: i64,
    pub mode: FramerMode,
    pub view_mode: FramedViewMode,
    /// Ticks per output frame.
    pub tpf: DeltaT,
    /// The numeric type of the source samples. Carried for callers; the
    /// 8-bit output mapping below is the same for every source kind, so
    /// this field does not influence reconstruction.
    pub source: SourceType,
    pub codec_version: u8,
    pub source_camera: SourceCamera,
    pub ref_interval: DeltaT,
    /// The source stream's maximum delta-t.
    pub source_dtm: DeltaT,
    /// Height of a chunk, in rows.
    pub chunk_rows: usize,
    /// The plane geometry the frames cover.
    pub plane: PlaneSize,
}

impl FrameSequence {
    /// The well-formedness every constructed frame sequence keeps: a chunk
    /// per stripe of rows, each chunk well-formed with the right height,
    /// positive timing parameters.
    pub open spec fn wf(&self) -> bool {
        &&& self.plane.wf()
        &&& self.chunk_rows >= 1
        &&& self.chunks.len() == spec_num_chunks(self.plane.height as int, self.chunk_rows as int)
        &&& self.chunks.len() >= 1
        &&& forall|k: int|
            0 <= k < self.chunks.len() ==> (#[trigger] self.chunks[k]).wf(self.plane)
        &&& forall|k: int|
            0 <= k < self.chunks.len() ==> (#[trigger] self.chunks[k]).rows == spec_chunk_rows(
                self.plane.height as int,
                self.chunk_rows as int,
                k,
            )
        &&& self.tpf >= 1
        &&& self.ref_interval >= 1
        &&& self.frames_written >= 0
        &&& self.plane.height as int * self.plane.width as int * self.plane.channels as int
            <= usize::MAX
    }

    /// Builds the frame sequence for a builder's parameters: one fresh
    /// chunk per stripe of rows, with the last chunk taking the rows left
    /// over when the chunk height does not divide the plane height.
    pub fn new(builder: FramerBuilder) -> (r: FrameSequence)
        requires
            builder.valid(),
        ensures
            r.wf(),
            r.tpf == builder.tps / builder.output_fps,
            r.mode == builder.mode,
            r.view_mode == builder.view_mode,
            r.source == builder.source,
            r.codec_version == builder.codec_version,
            r.source_camera == builder.source_camera,
            r.ref_interval == builder.ref_interval,
            r.source_dtm == builder.delta_t_max,
            r.chunk_rows == builder.chunk_rows,
            r.plane == builder.plane,
            r.frames_written == 0,
            forall|k: int|
                0 <= k < r.chunks.len() ==> (#[trigger] r.chunks[k]).frames.len() == 1
                    && r.chunks[k].frame_idx_offset == 0 && !r.chunks[k].filled,
            forall|k: int, i: int|
                0 <= k < r.chunks.len() && 0 <= i < r.chunks[k].pixel_ts.len() ==> (
                #[trigger] r.chunks[k].pixel_ts[i]) == 0,
            forall|k: int, i: int|
                0 <= k < r.chunks.len() && 0 <= i < r.chunks[k].last_filled.len() ==> (
                #[trigger] r.chunks[k].last_filled[i]) == -1,
            forall|k: int, i: int|
                0 <= k < r.chunks.len() && 0 <= i < r.chunks[k].frames[0].array.len() ==> (
                #[trigger] r.chunks[k].frames[0].array[i]) is None,
    {
        let height = builder.plane.h_usize();
        let chunk_rows = builder.chunk_rows;
        proof {
            lemma_num_chunks_form(height as int, chunk_rows as int);
            vstd::arithmetic::div_mod::lemma_div_is_ordered_by_denominator(
                height as int,
                1,
                chunk_rows as int,
            );
        }
        let num_chunks = if height % chunk_rows == 0 {
            height / chunk_rows
        } else {
            height / chunk_rows + 1
        };
        assert(num_chunks == spec_num_chunks(height as int, chunk_rows as int));
        assert(num_chunks >= 1);
        let mut chunks: Vec<FrameChunk> = Vec::new();
        let mut k: usize = 0;
        while k < num_chunks
            invariant
                k <= num_chunks,
                chunks.len() == k,
                builder.valid(),
                height == builder.plane.height,
                chunk_rows == builder.chunk_rows,
                num_chunks == spec_num_chunks(height as int, chunk_rows as int),
                forall|j: int|
                    0 <= j < k ==> (#[trigger] chunks[j]).wf(builder.plane) && chunks[j].rows
                        == spec_chunk_rows(height as int, chunk_rows as int, j),
                forall|j: int|
                    0 <= j < k ==> (#[trigger] chunks[j]).frames.len() == 1
                        && chunks[j].frame_idx_offset == 0 && !chunks[j].filled,
                forall|j: int, i: int|
                    0 <= j < k && 0 <= i < chunks[j].pixel_ts.len() ==> (
                    #[trigger] chunks[j].pixel_ts[i]) == 0,
                forall|j: int, i: int|
                    0 <= j < k && 0 <= i < chunks[j].last_filled.len() ==> (
                    #[trigger] chunks[j].last_filled[i]) == -1,
                forall|j: int, i: int|
                    0 <= j < k && 0 <= i < chunks[j].frames[0].array.len() ==> (
                    #[trigger] chunks[j].frames[0].array[i]) is None,
            decreases num_chunks - k,
        {
            proof {
                lemma_chunk_rows_bounds(height as int, chunk_rows as int, k as int);
            }
            let rows: usize = if k == num_chunks - 1 {
                height - k * chunk_rows
            } else {
                chunk_rows
            };
            proof {
                assert(rows as int * builder.plane.width as int * builder.plane.channels as int
                    <= builder.plane.height as int * builder.plane.width as int
                    * builder.plane.channels as int) by (nonlinear_arith)
                    requires
                        rows as int <= builder.plane.height as int && builder.plane.width as int
                            >= 0 && builder.plane.channels as int >= 0,
                ;
            }
            let chunk = FrameChunk::new(rows, builder.plane);
            chunks.push(chunk);
            k = k + 1;
        }
        FrameSequence {
            chunks,
            frames_written: 0,
            mode: builder.mode,
            view_mode: builder.view_mode,
            tpf: builder.tps / builder.output_fps,
            source: builder.source,
            codec_version: builder.codec_version,
            source_camera: builder.source_camera,
            ref_interval: builder.ref_interval,
            source_dtm: builder.delta_t_max,
            chunk_rows: builder.chunk_rows,
            plane: builder.plane,
        }
    }
}

/// Every chunk of a positive plane covers between one row and the chunk
/// height, and the row stripes tile the plane.
proof fn lemma_chunk_rows_bounds(height: int, chunk_rows: int, k: int)
    requires
        height >= 1,
        chunk_rows >= 1,
        0 <= k < spec_num_chunks(height, chunk_rows),
    ensures
        1 <= spec_chunk_rows(height, chunk_rows, k) <= chunk_rows,
        spec_chunk_rows(height, chunk_rows, k) <= height,
        k < spec_num_chunks(height, chunk_rows) - 1 ==> spec_chunk_rows(height, chunk_rows, k)
            == chunk_rows,
        k * chunk_rows < height,
{
    let n = spec_num_chunks(height, chunk_rows);
    let m = height + chunk_rows - 1;
    vstd::arithmetic::div_mod::lemma_fundamental_div_mod(m, chunk_rows);
    vstd::arithmetic::div_mod::lemma_mod_bound(m, chunk_rows);
    let rem = m % chunk_rows;
    assert(m == chunk_rows * n + rem);
    assert((n - 1) * chunk_rows == height - 1 - rem && n * chunk_rows == height + chunk_rows - 1
        - rem) by (nonlinear_arith)
        requires
            m == chunk_rows * n + rem && m == height + chunk_rows - 1,
    ;
    assert(k * chunk_rows <= (n - 1) * chunk_rows) by (nonlinear_arith)
        requires
            k <= n - 1 && chunk_rows >= 1,
    ;
    if k < n - 1 {
        assert(chunk_rows <= (n - 1) * chunk_rows) by (nonlinear_arith)
            requires
                n - 1 >= 1 && chunk_rows >= 1,
        ;
    }
}


/// The largest output-frame index the driver tracks; later indices clamp
/// here, a machine limit no real stream approaches.
pub const FRAME_IDX_MAX: i64 = 0x7FFF_FFFF;

/// Two to the fortieth, the threshold above which a decimation value maps
/// to full intensity whatever the delta-t.
pub const POW_40: u64 = 0x100_0000_0000;

/// Monotonicity and positivity of the power-of-two threshold scale.
pub proof fn lemma_two_pow_le(a: nat, b: nat)
    requires
        a <= b,
    ensures
        1 <= two_pow(a) <= two_pow(b),
    decreases b,
{
    if a < b {
        lemma_two_pow_le(a, (b - 1) as nat);
    } else if a > 0 {
        lemma_two_pow_le((a - 1) as nat, (a - 1) as nat);
    }
}

proof fn lemma_two_pow_40()
    ensures
        two_pow(40) == POW_40,
{
    reveal_with_fuel(two_pow, 41);
}

/// Two to a decimation value below forty, as a machine word.
fn pow2_u64(d: u8) -> (r: u64)
    requires
        d < 40,
    ensures
        r == two_pow(d as nat),
{
    proof {
        lemma_two_pow_40();
    }
    let mut v: u64 = 1;
    let mut i: u8 = 0;
    while i < d
        invariant
            i <= d < 40,
            v == two_pow(i as nat),
        decreases d - i,
    {
        proof {
            lemma_two_pow_le((i + 1) as nat, 40);
            lemma_two_pow_40();
        }
        v = v * 2;
        i = i + 1;
    }
    v
}

/// The intensity a reconstructed frame shows for an event: the event's
/// light rate over one reference interval, clamped to the 8-bit range; or,
/// in the alternative view modes, the raw decimation value or the delta-t
/// scaled against the stream's maximum. The mapping is the same for every
/// source sample type: with 8-bit output there is nothing further to
/// scale by.
pub open spec fn spec_frame_value(
    d: u8,
    delta_t: u32,
    ref_interval: u32,
    delta_t_max: u32,
    view: FramedViewMode,
) -> u8 {
    match view {
        FramedViewMode::Intensity => {
            if delta_t == 0 {
                255
            } else {
                let v = two_pow(d as nat) * ref_interval / delta_t as int;
                if v > 255 {
                    255
                } else {
                    v as u8
                }
            }
        },
        FramedViewMode::D => d,
        FramedViewMode::DeltaT => {
            if delta_t_max == 0 {
                0
            } else {
                let v = delta_t * 255 / delta_t_max as int;
                if v > 255 {
                    255
                } else {
                    v as u8
                }
            }
        },
    }
}

/// Computes the frame value of an event.
pub fn frame_value(
    d: u8,
    delta_t: u32,
    ref_interval: u32,
    delta_t_max: u32,
    view: FramedViewMode,
) -> (r: u8)
    requires
        ref_interval >= 1,
    ensures
        r == spec_frame_value(d, delta_t, ref_interval, delta_t_max, view),
{
    match view {
        FramedViewMode::Intensity => {
            if delta_t == 0 {
                255
            } else if d >= 40 {
                proof {
                    lemma_two_pow_le(40, d as nat);
                    lemma_two_pow_40();
                    let p = two_pow(d as nat) as int;
                    let prod = p * ref_interval as int;
                    assert(prod >= POW_40) by (nonlinear_arith)
                        requires
                            p >= POW_40 && ref_interval >= 1 && prod == p * ref_interval as int,
                    ;
                    vstd::arithmetic::div_mod::lemma_div_is_ordered(
                        POW_40 as int,
                        prod,
                        delta_t as int,
                    );
                    vstd::arithmetic::div_mod::lemma_div_is_ordered_by_denominator(
                        POW_40 as int,
                        delta_t as int,
                        0xFFFF_FFFF,
                    );
                    assert(POW_40 as int / 0xFFFF_FFFF as int == 256);
                }
                255
            } else {
                let p = pow2_u64(d);
                proof {
                    lemma_two_pow_le(d as nat, 40);
                    lemma_two_pow_40();
                    assert(p as int * ref_interval as int <= 0x100_0000_0000int
                        * 0xFFFF_FFFFint) by (nonlinear_arith)
                        requires
                            0 <= p as int <= 0x100_0000_0000int && 0 <= ref_interval as int
                                <= 0xFFFF_FFFFint,
                    ;
                }
                let v: u128 = (p as u128) * (ref_interval as u128) / (delta_t as u128);
                if v > 255 {
                    255
                } else {
                    v as u8
                }
            }
        },
        FramedViewMode::D => d,
        FramedViewMode::DeltaT => {
            if delta_t_max == 0 {
                0
            } else {
                let v: u64 = (delta_t as u64) * 255 / (delta_t_max as u64);
                if v > 255 {
                    255
                } else {
                    v as u8
                }
            }
        },
    }
}

/// Addition of a tick count to a running timestamp, stopping at the top of
/// the 64-bit range.
pub open spec fn spec_sat_add_u64(a: int, b: int) -> int {
    if a + b > u64::MAX {
        u64::MAX as int
    } else {
        a + b
    }
}

fn sat_add_u64(a: u64, b: u64) -> (r: u64)
    ensures
        r == spec_sat_add_u64(a as int, b as int),
{
    if a > u64::MAX - b {
        u64::MAX
    } else {
        a + b
    }
}

/// The output-frame index a running timestamp has reached: the number of
/// whole ticks-per-frame intervals that fit strictly below it.
pub open spec fn spec_frame_idx(ts: int, tpf: int) -> int {
    if ts <= 0 {
        0
    } else {
        (ts - 1) / tpf
    }
}

/// The frame index, clamped at the driver's tracking limit.
pub open spec fn spec_frame_idx_clamped(ts: int, tpf: int) -> int {
    if spec_frame_idx(ts, tpf) > FRAME_IDX_MAX {
        FRAME_IDX_MAX as int
    } else {
        spec_frame_idx(ts, tpf)
    }
}

fn compute_frame_idx(ts: u64, tpf: u32) -> (r: i64)
    requires
        tpf >= 1,
    ensures
        r == spec_frame_idx_clamped(ts as int, tpf as int),
        0 <= r <= FRAME_IDX_MAX,
{
    if ts == 0 {
        return 0;
    }
    let idx = (ts - 1) / (tpf as u64);
    proof {
        vstd::arithmetic::div_mod::lemma_div_is_ordered_by_denominator(
            ts as int - 1,
            1,
            tpf as int,
        );
        assert(idx >= 0);
    }
    if idx > FRAME_IDX_MAX as u64 {
        FRAME_IDX_MAX
    } else {
        idx as i64
    }
}

/// The running timestamp after the framed-source rate-halving step: for a
/// framed camera under a versioned codec, a timestamp that does not land
/// on a reference-interval boundary is rounded up to the next one.
pub open spec fn spec_halved_ts(
    ts: int,
    ref_interval: int,
    codec_version: u8,
    camera: SourceCamera,
) -> int {
    if codec_version > 0 && spec_is_framed(camera) && ts % ref_interval > 0 {
        let up = (ts / ref_interval + 1) * ref_interval;
        if up > u64::MAX {
            u64::MAX as int
        } else {
            up
        }
    } else {
        ts
    }
}

fn halved_ts(ts: u64, ref_interval: u32, codec_version: u8, camera: SourceCamera) -> (r: u64)
    requires
        ref_interval >= 1,
    ensures
        r == spec_halved_ts(ts as int, ref_interval as int, codec_version, camera),
{
    let is_framed = camera.is_framed();
    if codec_version > 0 && is_framed && ts % (ref_interval as u64) > 0 {
        let q = ts / (ref_interval as u64);
        proof {
            vstd::arithmetic::div_mod::lemma_fundamental_div_mod(ts as int, ref_interval as int);
            vstd::arithmetic::div_mod::lemma_mod_bound(ts as int, ref_interval as int);
            assert(q <= u64::MAX as int / 1);
            vstd::arithmetic::div_mod::lemma_div_is_ordered_by_denominator(
                ts as int,
                1,
                ref_interval as int,
            );
        }
        if q >= u64::MAX / (ref_interval as u64) {
            proof {
                let c = ref_interval as int;
                let m = u64::MAX as int;
                vstd::arithmetic::div_mod::lemma_fundamental_div_mod(m, c);
                vstd::arithmetic::div_mod::lemma_mod_bound(m, c);
                assert((q + 1) * c > m) by (nonlinear_arith)
                    requires
                        q >= m / c && m == c * (m / c) + m % c && 0 <= m % c < c && c >= 1,
                ;
            }
            u64::MAX
        } else {
            proof {
                let c = ref_interval as int;
                let m = u64::MAX as int;
                vstd::arithmetic::div_mod::lemma_fundamental_div_mod(m, c);
                vstd::arithmetic::div_mod::lemma_mod_bound(m, c);
                assert((q + 1) * c <= m) by (nonlinear_arith)
                    requires
                        q < m / c && m == c * (m / c) + m % c && 0 <= m % c < c && c >= 1,
                ;
            }
            (q + 1) * (ref_interval as u64)
        }
    } else {
        ts
    }
}

/// The flat tracker index of a pixel: row, then column, then channel.
pub open spec fn spec_pix_idx(y: int, x: int, c: int, width: int, channels: int) -> int {
    (y * width + x) * channels + c
}

/// The channel an event addresses; a channelless event addresses channel 0.
pub open spec fn spec_event_channel(e: Event) -> int {
    match e.coord.c {
        Some(c) => c as int,
        None => 0,
    }
}

/// A pixel inside a chunk has its tracker slot inside the trackers.
proof fn lemma_pix_idx_bound(y: int, x: int, c: int, rows: int, width: int, channels: int)
    requires
        0 <= y < rows,
        0 <= x < width,
        0 <= c < channels,
    ensures
        0 <= spec_pix_idx(y, x, c, width, channels) < rows * width * channels,
{
    assert(0 <= (y * width + x) * channels + c < rows * width * channels) by (nonlinear_arith)
        requires
            0 <= y < rows && 0 <= x < width && 0 <= c < channels,
    ;
}

/// The exact relation between a chunk's state before and after ingesting
/// one event, with the event's row already rebased into the chunk.
///
/// The event's delta-t advances the pixel's running timestamp (saturating
/// at the 64-bit limit). When the timestamp crosses into a later output
/// frame than the pixel last filled, the pixel's intensity is refreshed
/// from the event — unless the event is empty, in which case the previous
/// intensity carries forward — the queue grows to reach the new frame
/// index, and every queued frame between the old and new index receives
/// the intensity at this pixel, never overwriting a slot already set.
/// Frames whose index lies before the queue window (already popped) are
/// silently skipped. Finally a framed source's timestamp is rounded up to
/// the next reference-interval boundary.
pub open spec fn spec_chunk_ingest(
    pre: FrameChunk,
    post: FrameChunk,
    event: Event,
    frames_written: i64,
    tpf: u32,
    codec_version: u8,
    camera: SourceCamera,
    ref_interval: u32,
    delta_t_max: u32,
    view: FramedViewMode,
    plane: PlaneSize,
) -> bool {
    let pix = spec_pix_idx(
        event.coord.y as int,
        event.coord.x as int,
        spec_event_channel(event),
        plane.width as int,
        plane.channels as int,
    );
    let ts1 = spec_sat_add_u64(pre.pixel_ts[pix] as int, event.delta_t as int);
    let idx = spec_frame_idx_clamped(ts1, tpf as int);
    let prev = pre.last_filled[pix] as int;
    let crossing = idx > prev;
    let value = if event.d != EMPTY_EVENT_D {
        spec_frame_value(event.d, event.delta_t, ref_interval, delta_t_max, view)
    } else {
        pre.last_intensity[pix]
    };
    let growth: int = if idx > pre.frame_idx_offset {
        idx - pre.frame_idx_offset
    } else {
        0
    };
    let lo = prev - frames_written + 1;
    let hi = idx - frames_written;
    let slot_n = pre.frames[0].array.len() as int;
    &&& post.rows == pre.rows
    &&& post.pixel_ts@ == pre.pixel_ts@.update(
        pix,
        spec_halved_ts(ts1, ref_interval as int, codec_version, camera) as u64,
    )
    &&& (crossing ==> {
        &&& post.last_filled@ == pre.last_filled@.update(pix, idx as i64)
        &&& (event.d != EMPTY_EVENT_D ==> post.last_intensity@ == pre.last_intensity@.update(
            pix,
            value,
        ))
        &&& (event.d == EMPTY_EVENT_D ==> post.last_intensity@ == pre.last_intensity@)
        &&& post.frame_idx_offset == pre.frame_idx_offset + growth
        &&& post.frames.len() == pre.frames.len() + growth
        &&& forall|q: int|
            0 <= q < post.frames.len() ==> (#[trigger] post.frames[q]).array@ == {
                let base = if q < pre.frames.len() {
                    pre.frames[q].array@
                } else {
                    Seq::new(slot_n as nat, |j: int| Option::<u8>::None)
                };
                if lo <= q <= hi && base[pix] is None {
                    base.update(pix, Some(value))
                } else {
                    base
                }
            }
    })
    &&& (!crossing ==> {
        &&& post.last_filled == pre.last_filled
        &&& post.last_intensity == pre.last_intensity
        &&& post.frame_idx_offset == pre.frame_idx_offset
        &&& post.frames == pre.frames
    })
    &&& post.filled == (post.frames[0].filled_count == post.frames[0].array.len())
}

impl FrameChunk {
    /// Ingests one event whose row has been rebased into this chunk,
    /// updating the pixel's trackers and filling queued frames, and
    /// reports whether the chunk's oldest pending frame is now full. The
    /// exact effect is `spec_chunk_ingest`.
    pub fn ingest_event_for_chunk(
        &mut self,
        event: &Event,
        frames_written: i64,
        tpf: u32,
        codec_version: u8,
        camera: SourceCamera,
        ref_interval: u32,
        delta_t_max: u32,
        view: FramedViewMode,
        plane: PlaneSize,
    ) -> (filled: bool)
        requires
            old(self).wf(plane),
            plane.wf(),
            event.coord.y < old(self).rows,
            event.coord.x < plane.width,
            spec_event_channel(*event) < plane.channels,
            tpf >= 1,
            ref_interval >= 1,
            frames_written >= 0,
        ensures
            final(self).wf(plane),
            spec_chunk_ingest(
                *old(self),
                *final(self),
                *event,
                frames_written,
                tpf,
                codec_version,
                camera,
                ref_interval,
                delta_t_max,
                view,
                plane,
            ),
            filled == final(self).filled,
    {
        proof {
            lemma_pix_idx_bound(
                event.coord.y as int,
                event.coord.x as int,
                spec_event_channel(*event),
                self.rows as int,
                plane.width as int,
                plane.channels as int,
            );
            assert(self.rows * plane.width as int * plane.channels as int <= usize::MAX);
        }
        let channel: u8 = match event.coord.c {
            Some(c) => c,
            None => 0,
        };
        proof {
            let y = event.coord.y as int;
            let x = event.coord.x as int;
            let c = spec_event_channel(*event);
            let w = plane.width as int;
            let ch = plane.channels as int;
            let total = self.rows as int * w * ch;
            assert(y * w <= y * w + x && y * w + x <= (y * w + x) * ch + c && (y * w + x) * ch
                <= (y * w + x) * ch + c) by (nonlinear_arith)
                requires
                    0 <= y && 0 <= x && 0 <= c && w >= 1 && ch >= 1,
            ;
            assert(self.pixel_ts.len() <= usize::MAX);
        }
        let pix: usize = ((event.coord.y as usize) * (plane.width as usize) + (
        event.coord.x as usize)) * (plane.channels as usize) + (channel as usize);
        let prev: i64 = self.last_filled[pix];
        let ts1: u64 = sat_add_u64(self.pixel_ts[pix], event.delta_t as u64);
        let idx: i64 = compute_frame_idx(ts1, tpf);
        let ghost pre = *old(self);
        if idx > prev {
            let value: u8 = if event.d != EMPTY_EVENT_D {
                frame_value(event.d, event.delta_t, ref_interval, delta_t_max, view)
            } else {
                self.last_intensity[pix]
            };
            if event.d != EMPTY_EVENT_D {
                self.last_intensity.set(pix, value);
            }
            self.last_filled.set(pix, idx);
            // Grow the queue so its back reaches the new frame index.
            let growth: i64 = if idx > self.frame_idx_offset {
                idx - self.frame_idx_offset
            } else {
                0
            };
            let slot_n = self.frames[0].array.len();
            let rows0 = self.frames[0].rows;
            let cols0 = self.frames[0].cols;
            let chans0 = self.frames[0].channels;
            let mut g: i64 = 0;
            while g < growth
                invariant
                    0 <= g <= growth,
                    growth <= FRAME_IDX_MAX,
                    self.frames.len() == pre.frames.len() + g,
                    rows0 == pre.frames[0].rows && cols0 == pre.frames[0].cols && chans0
                        == pre.frames[0].channels,
                    slot_n == pre.frames[0].array.len(),
                    pre.wf(plane),
                    plane.wf(),
                    pix < slot_n,
                    pix < pre.last_filled.len() && pix < pre.last_intensity.len(),
                    rows0 == pre.rows && cols0 == plane.width && chans0 == plane.channels,
                    slot_n == rows0 * cols0 * chans0,
                    forall|q: int|
                        0 <= q < pre.frames.len() ==> #[trigger] self.frames[q] == pre.frames[q],
                    forall|q: int|
                        pre.frames.len() <= q < self.frames.len() ==> (
                        #[trigger] self.frames[q]).wf() && self.frames[q].rows == rows0
                            && self.frames[q].cols == cols0 && self.frames[q].channels == chans0
                            && self.frames[q].filled_count == 0 && self.frames[q].array@
                            =~= Seq::new(slot_n as nat, |j: int| Option::<u8>::None),
                    self.rows == pre.rows,
                    self.pixel_ts@ == pre.pixel_ts@,
                    self.filled == pre.filled,
                    self.frame_idx_offset == pre.frame_idx_offset,
                    self.last_filled@ == pre.last_filled@.update(pix as int, idx),
                    event.d != EMPTY_EVENT_D ==> self.last_intensity@
                        == pre.last_intensity@.update(pix as int, value),
                    event.d == EMPTY_EVENT_D ==> self.last_intensity@ == pre.last_intensity@,
                decreases growth - g,
            {
                let frame = Frame::new_empty(rows0, cols0, chans0);
                proof {
                    assert(frame.array@ =~= Seq::new(slot_n as nat, |j: int| Option::<u8>::None));
                }
                self.frames.push(frame);
                g = g + 1;
            }
            if growth > 0 {
                self.frame_idx_offset = self.frame_idx_offset + growth;
            }
            // Fill this pixel's slot in every queued frame between the old
            // and the new frame index, skipping indices already popped.
            let ghost frames_after_growth = self.frames@;
            let mut i: i64 = prev;
            while i < idx
                invariant
                    prev <= i <= idx,
                    idx <= FRAME_IDX_MAX,
                    prev >= -1,
                    frames_written >= 0,
                    pix < slot_n,
                    self.frames.len() == frames_after_growth.len(),
                    slot_n == pre.frames[0].array.len(),
                    forall|q: int|
                        0 <= q < self.frames.len() ==> (#[trigger] self.frames[q]).wf()
                            && self.frames[q].rows == rows0 && self.frames[q].cols == cols0
                            && self.frames[q].channels == chans0 && self.frames[q].array.len()
                            == slot_n,
                    forall|q: int|
                        0 <= q < frames_after_growth.len() ==> (#[trigger] frames_after_growth[q]).array.len()
                            == slot_n,
                    forall|q: int|
                        0 <= q < self.frames.len() ==> (#[trigger] self.frames[q]).array@ == (
                        if prev - frames_written + 1 <= q <= i - frames_written
                            && frames_after_growth[q].array@[pix as int] is None {
                            frames_after_growth[q].array@.update(pix as int, Some(value))
                        } else {
                            frames_after_growth[q].array@
                        }),
                    self.rows == pre.rows,
                    self.pixel_ts@ == pre.pixel_ts@,
                    self.filled == pre.filled,
                    pix < pre.last_filled.len() && pix < pre.last_intensity.len(),
                    self.frame_idx_offset == pre.frame_idx_offset + (if idx
                        > pre.frame_idx_offset {
                        idx - pre.frame_idx_offset
                    } else {
                        0int
                    }),
                    self.last_filled@ == pre.last_filled@.update(pix as int, idx),
                    event.d != EMPTY_EVENT_D ==> self.last_intensity@
                        == pre.last_intensity@.update(pix as int, value),
                    event.d == EMPTY_EVENT_D ==> self.last_intensity@ == pre.last_intensity@,
                decreases idx - i,
            {
                let q: i64 = i - frames_written + 1;
                if q >= 0 && (q as usize) < self.frames.len() {
                    let qu = q as usize;
                    let ghost frame_before = self.frames@[q as int];
                    let frame = &mut self.frames[qu];
                    let slot_is_none = matches!(frame.array[pix], None);
                    if slot_is_none {
                        proof {
                            lemma_count_filled_update(frame_before.array@, pix as int, value);
                            lemma_count_filled_le_len(
                                frame_before.array@.update(pix as int, Some(value)),
                            );
                        }
                        frame.array.set(pix, Some(value));
                        frame.filled_count = frame.filled_count + 1;
                    }
                }
                i = i + 1;
            }
            let filled = self.frames[0].filled_count == self.frames[0].array.len();
            self.filled = filled;
            // The framed-source rate halving.
            let ts_final = halved_ts(ts1, ref_interval, codec_version, camera);
            self.pixel_ts.set(pix, ts_final);
            proof {
                lemma_chunk_ingest_post(
                    pre,
                    *self,
                    *event,
                    frames_written,
                    tpf,
                    codec_version,
                    camera,
                    ref_interval,
                    delta_t_max,
                    view,
                    plane,
                    pix as int,
                    frames_after_growth,
                    value,
                    idx as int,
                );
            }
            filled
        } else {
            let ts_final = halved_ts(ts1, ref_interval, codec_version, camera);
            self.pixel_ts.set(pix, ts_final);
            let filled = self.frames[0].filled_count == self.frames[0].array.len();
            self.filled = filled;
            filled
        }
    }
}

/// Ties the ingest loop's final state to the chunk ingest relation in the
/// crossing case.
proof fn lemma_chunk_ingest_post(
    pre: FrameChunk,
    post: FrameChunk,
    event: Event,
    frames_written: i64,
    tpf: u32,
    codec_version: u8,
    camera: SourceCamera,
    ref_interval: u32,
    delta_t_max: u32,
    view: FramedViewMode,
    plane: PlaneSize,
    pix: int,
    frames_after_growth: Seq<Frame>,
    value: u8,
    idx: int,
)
    requires
        pre.wf(plane),
        0 <= pix < pre.frames[0].array.len(),
        idx == spec_frame_idx_clamped(
            spec_sat_add_u64(pre.pixel_ts[pix] as int, event.delta_t as int),
            tpf as int,
        ),
        idx > pre.last_filled[pix],
        value == (if event.d != EMPTY_EVENT_D {
            spec_frame_value(event.d, event.delta_t, ref_interval, delta_t_max, view)
        } else {
            pre.last_intensity[pix]
        }),
        // the grown queue: the old frames followed by empty frames
        frames_after_growth.len() == pre.frames.len() + (if idx > pre.frame_idx_offset {
            idx - pre.frame_idx_offset
        } else {
            0int
        }),
        forall|q: int|
            0 <= q < pre.frames.len() ==> #[trigger] frames_after_growth[q] == pre.frames[q],
        forall|q: int|
            pre.frames.len() <= q < frames_after_growth.len() ==> (
            #[trigger] frames_after_growth[q]).array@ =~= Seq::new(
                pre.frames[0].array.len() as nat,
                |j: int| Option::<u8>::None,
            ),
        // the final frames: slots written inside the window
        post.frames.len() == frames_after_growth.len(),
        forall|q: int|
            0 <= q < post.frames.len() ==> (#[trigger] post.frames[q]).array@ == (if pre.last_filled[pix]
                - frames_written + 1 <= q <= idx - frames_written
                && frames_after_growth[q].array@[pix] is None {
                frames_after_growth[q].array@.update(pix, Some(value))
            } else {
                frames_after_growth[q].array@
            }),
        post.rows == pre.rows,
        post.pixel_ts@ == pre.pixel_ts@.update(
            pix,
            spec_halved_ts(
                spec_sat_add_u64(pre.pixel_ts[pix] as int, event.delta_t as int),
                ref_interval as int,
                codec_version,
                camera,
            ) as u64,
        ),
        post.last_filled@ == pre.last_filled@.update(pix, idx as i64),
        event.d != EMPTY_EVENT_D ==> post.last_intensity@ == pre.last_intensity@.update(
            pix,
            value,
        ),
        event.d == EMPTY_EVENT_D ==> post.last_intensity@ == pre.last_intensity@,
        post.frame_idx_offset == pre.frame_idx_offset + (if idx > pre.frame_idx_offset {
            idx - pre.frame_idx_offset
        } else {
            0int
        }),
        post.filled == (post.frames[0].filled_count == post.frames[0].array.len()),
        pix == spec_pix_idx(
            event.coord.y as int,
            event.coord.x as int,
            spec_event_channel(event),
            plane.width as int,
            plane.channels as int,
        ),
    ensures
        spec_chunk_ingest(
            pre,
            post,
            event,
            frames_written,
            tpf,
            codec_version,
            camera,
            ref_interval,
            delta_t_max,
            view,
            plane,
        ),
{
    let slot_n = pre.frames[0].array.len() as int;
    assert forall|q: int| 0 <= q < post.frames.len() implies (#[trigger] post.frames[q]).array@
        == {
        let base = if q < pre.frames.len() {
            pre.frames[q].array@
        } else {
            Seq::new(slot_n as nat, |j: int| Option::<u8>::None)
        };
        if pre.last_filled[pix] - frames_written + 1 <= q <= idx - frames_written
            && base[pix] is None {
            base.update(pix, Some(value))
        } else {
            base
        }
    } by {
        let base = if q < pre.frames.len() {
            pre.frames[q].array@
        } else {
            Seq::new(slot_n as nat, |j: int| Option::<u8>::None)
        };
        assert(frames_after_growth[q].array@ =~= base);
    }
}



/// Computes a pixel's flat tracker index inside a chunk.
fn compute_pix(local_row: usize, x: usize, c: usize, rows: usize, plane: PlaneSize) -> (r: usize)
    requires
        local_row < rows,
        x < plane.width,
        c < plane.channels,
        plane.wf(),
        rows * plane.width as int * plane.channels as int <= usize::MAX,
    ensures
        r == spec_pix_idx(
            local_row as int,
            x as int,
            c as int,
            plane.width as int,
            plane.channels as int,
        ),
        r < rows * plane.width as int * plane.channels as int,
{
    proof {
        lemma_pix_idx_bound(
            local_row as int,
            x as int,
            c as int,
            rows as int,
            plane.width as int,
            plane.channels as int,
        );
        let y = local_row as int;
        let xi = x as int;
        let ci = c as int;
        let w = plane.width as int;
        let ch = plane.channels as int;
        assert(y * w <= y * w + xi && y * w + xi <= (y * w + xi) * ch + ci) by (nonlinear_arith)
            requires
                0 <= y && 0 <= xi && 0 <= ci && w >= 1 && ch >= 1,
        ;
    }
    (local_row * (plane.width as usize) + x) * (plane.channels as usize) + c
}

/// Which chunk a row belongs to, and that its rebased row lies inside that
/// chunk.
proof fn lemma_chunk_of_row(y: int, height: int, chunk_rows: int)
    requires
        0 <= y < height,
        chunk_rows >= 1,
        height >= 1,
    ensures
        0 <= y / chunk_rows < spec_num_chunks(height, chunk_rows),
        0 <= y - (y / chunk_rows) * chunk_rows,
        y - (y / chunk_rows) * chunk_rows < spec_chunk_rows(height, chunk_rows, y / chunk_rows),
        (y / chunk_rows) * chunk_rows <= y,
{
    let k = y / chunk_rows;
    let rem = y % chunk_rows;
    vstd::arithmetic::div_mod::lemma_fundamental_div_mod(y, chunk_rows);
    vstd::arithmetic::div_mod::lemma_mod_bound(y, chunk_rows);
    let n = spec_num_chunks(height, chunk_rows);
    let m = height + chunk_rows - 1;
    vstd::arithmetic::div_mod::lemma_fundamental_div_mod(m, chunk_rows);
    vstd::arithmetic::div_mod::lemma_mod_bound(m, chunk_rows);
    assert(height <= n * chunk_rows && (n - 1) * chunk_rows < height) by (nonlinear_arith)
        requires
            m == chunk_rows * n + m % chunk_rows && 0 <= m % chunk_rows < chunk_rows && m == height
                + chunk_rows - 1,
    ;
    assert(k >= 0 && k < n && k * chunk_rows <= y) by (nonlinear_arith)
        requires
            y == chunk_rows * k + rem && 0 <= rem < chunk_rows && 0 <= y < height && height <= n
                * chunk_rows && chunk_rows >= 1,
    ;
    if k == n - 1 {
        assert(y - k * chunk_rows < height - k * chunk_rows);
    } else {
        assert(y - k * chunk_rows == rem) by (nonlinear_arith)
            requires
                y == chunk_rows * k + rem,
        ;
    }
}

/// Whether every chunk's oldest pending frame is completely filled.
pub open spec fn spec_all_chunks_filled(fs: FrameSequence) -> bool {
    forall|k: int| 0 <= k < fs.chunks.len() ==> (#[trigger] fs.chunks[k]).filled
}

/// Whether every chunk's oldest pending frame has every slot set, judged
/// by its fill count.
pub open spec fn spec_front_filled(fs: FrameSequence) -> bool {
    forall|k: int|
        0 <= k < fs.chunks.len() ==> (#[trigger] fs.chunks[k]).frames[0].filled_count
            == fs.chunks[k].frames[0].array.len()
}

/// The effect of serializing and popping one frame across every chunk:
/// each chunk loses its oldest pending frame, one more frame counts as
/// written, and the configuration is untouched. The bytes produced are
/// exactly `spec_frames_bytes` of the chunks before the pop.
pub open spec fn spec_wrote_frame(pre: FrameSequence, post: FrameSequence) -> bool {
    &&& post.chunks.len() == pre.chunks.len()
    &&& forall|k: int|
        0 <= k < post.chunks.len() ==> spec_chunk_popped(
            pre.chunks[k],
            #[trigger] post.chunks[k],
        )
    &&& post.frames_written == (if pre.frames_written < i64::MAX {
        pre.frames_written + 1
    } else {
        pre.frames_written as int
    })
    &&& post.mode == pre.mode
    &&& post.view_mode == pre.view_mode
    &&& post.tpf == pre.tpf
    &&& post.source == pre.source
    &&& post.codec_version == pre.codec_version
    &&& post.source_camera == pre.source_camera
    &&& post.ref_interval == pre.ref_interval
    &&& post.source_dtm == pre.source_dtm
    &&& post.chunk_rows == pre.chunk_rows
    &&& post.plane == pre.plane
}

/// A frame sequence results from serializing and popping `count` frames
/// in order, each drained only while the oldest pending frame was filled
/// in every chunk, and `bytes` is exactly their serializations in order.
pub open spec fn spec_drained(
    pre: FrameSequence,
    post: FrameSequence,
    count: int,
    bytes: Seq<u8>,
) -> bool
    decreases count,
{
    if count <= 0 {
        count == 0 && post == pre && bytes == Seq::<u8>::empty()
    } else {
        let piece = spec_frames_bytes(pre.chunks@);
        &&& spec_front_filled(pre)
        &&& bytes.len() >= piece.len()
        &&& bytes.take(piece.len() as int) == piece
        &&& exists|mid: FrameSequence|
            #[trigger] spec_wrote_frame(pre, mid) && spec_drained(
                mid,
                post,
                count - 1,
                bytes.skip(piece.len() as int),
            )
    }
}

/// Draining one more frame extends a drain trace.
proof fn lemma_drained_snoc(
    pre: FrameSequence,
    mid: FrameSequence,
    post: FrameSequence,
    count: int,
    bytes: Seq<u8>,
    piece: Seq<u8>,
)
    requires
        count >= 0,
        spec_drained(pre, mid, count, bytes),
        spec_front_filled(mid),
        spec_wrote_frame(mid, post),
        piece == spec_frames_bytes(mid.chunks@),
    ensures
        spec_drained(pre, post, count + 1, bytes + piece),
    decreases count,
{
    if count == 0 {
        assert(mid == pre);
        assert((bytes + piece).take(piece.len() as int) =~= piece);
        assert((bytes + piece).skip(piece.len() as int) =~= Seq::<u8>::empty());
        assert(spec_drained(post, post, 0, Seq::<u8>::empty()));
    } else {
        let piece0 = spec_frames_bytes(pre.chunks@);
        let m1 = choose|m1: FrameSequence|
            #[trigger] spec_wrote_frame(pre, m1) && spec_drained(
                m1,
                mid,
                count - 1,
                bytes.skip(piece0.len() as int),
            );
        lemma_drained_snoc(m1, mid, post, count - 1, bytes.skip(piece0.len() as int), piece);
        assert((bytes + piece).take(piece0.len() as int) =~= bytes.take(piece0.len() as int));
        assert((bytes + piece).skip(piece0.len() as int) =~= bytes.skip(piece0.len() as int)
            + piece);
    }
}

/// The relation between a chunk before and after its oldest pending frame
/// is popped: the queue loses its front, or — when that would empty it —
/// gains a fresh empty frame in exchange and advances its index offset.
pub open spec fn spec_chunk_popped(pre: FrameChunk, post: FrameChunk) -> bool {
    &&& post.rows == pre.rows
    &&& post.pixel_ts == pre.pixel_ts
    &&& post.last_filled == pre.last_filled
    &&& post.last_intensity == pre.last_intensity
    &&& !post.filled
    &&& (pre.frames.len() > 1 ==> {
        &&& post.frames@ =~= pre.frames@.drop_first()
        &&& post.frame_idx_offset == pre.frame_idx_offset
    })
    &&& (pre.frames.len() == 1 ==> {
        &&& post.frames.len() == 1
        &&& post.frames[0].rows == pre.frames[0].rows
        &&& post.frames[0].cols == pre.frames[0].cols
        &&& post.frames[0].channels == pre.frames[0].channels
        &&& post.frames[0].filled_count == 0
        &&& post.frames[0].array@ =~= Seq::new(
            pre.frames[0].array@.len(),
            |j: int| Option::<u8>::None,
        )
        &&& post.frame_idx_offset == (if pre.frame_idx_offset < i64::MAX {
            pre.frame_idx_offset + 1
        } else {
            pre.frame_idx_offset as int
        })
    })
}

/// The byte serialization of one dense frame: each slot's value, with the
/// default value zero standing in for a never-filled slot.
pub open spec fn spec_frame_bytes(arr: Seq<Option<u8>>) -> Seq<u8> {
    Seq::new(
        arr.len(),
        |i: int|
            match arr[i] {
                Some(v) => v,
                None => 0u8,
            },
    )
}

/// An event with its row rebased into its chunk: the driver subtracts the
/// chunk's first row so the chunk indexes its own stripe from zero.
pub open spec fn spec_rebased(ev: Event, chunk_rows: int) -> Event {
    let cn = ev.coord.y as int / chunk_rows;
    Event {
        coord: Coord {
            x: ev.coord.x,
            y: (ev.coord.y - cn * chunk_rows) as u16,
            c: ev.coord.c,
        },
        d: ev.d,
        delta_t: ev.delta_t,
    }
}

/// The exact effect of ingesting one event into a frame sequence: the
/// event's chunk steps by the chunk ingest relation on the rebased event,
/// every other chunk and every configuration field is untouched.
pub open spec fn spec_ingest_one(pre: FrameSequence, ev: Event, post: FrameSequence) -> bool {
    let cn = ev.coord.y as int / pre.chunk_rows as int;
    &&& post.chunks.len() == pre.chunks.len()
    &&& forall|k: int|
        0 <= k < post.chunks.len() && k != cn ==> #[trigger] post.chunks[k] == pre.chunks[k]
    &&& spec_chunk_ingest(
        pre.chunks[cn],
        post.chunks[cn],
        spec_rebased(ev, pre.chunk_rows as int),
        pre.frames_written,
        pre.tpf,
        pre.codec_version,
        pre.source_camera,
        pre.ref_interval,
        pre.source_dtm,
        pre.view_mode,
        pre.plane,
    )
    &&& post.frames_written == pre.frames_written
    &&& post.mode == pre.mode
    &&& post.view_mode == pre.view_mode
    &&& post.tpf == pre.tpf
    &&& post.source == pre.source
    &&& post.codec_version == pre.codec_version
    &&& post.source_camera == pre.source_camera
    &&& post.ref_interval == pre.ref_interval
    &&& post.source_dtm == pre.source_dtm
    &&& post.chunk_rows == pre.chunk_rows
    &&& post.plane == pre.plane
}

/// A frame sequence results from ingesting a sequence of events in order.
pub open spec fn spec_ingests(pre: FrameSequence, events: Seq<Event>, post: FrameSequence) -> bool
    decreases events.len(),
{
    if events.len() == 0 {
        post == pre
    } else {
        exists|mid: FrameSequence|
            #[trigger] spec_ingest_one(pre, events[0], mid) && spec_ingests(
                mid,
                events.drop_first(),
                post,
            )
    }
}

/// The events of per-chunk groups, flattened in group order.
pub open spec fn spec_flatten_groups(groups: Seq<Vec<Event>>) -> Seq<Event>
    decreases groups.len(),
{
    if groups.len() == 0 {
        Seq::empty()
    } else {
        groups[0]@ + spec_flatten_groups(groups.drop_first())
    }
}

/// Ingesting one more event extends an ingestion trace.
proof fn lemma_ingests_snoc(
    pre: FrameSequence,
    s: Seq<Event>,
    mid: FrameSequence,
    ev: Event,
    post: FrameSequence,
)
    requires
        spec_ingests(pre, s, mid),
        spec_ingest_one(mid, ev, post),
    ensures
        spec_ingests(pre, s.push(ev), post),
    decreases s.len(),
{
    if s.len() == 0 {
        assert(mid == pre);
        assert(s.push(ev)[0] == ev);
        assert(s.push(ev).drop_first() =~= Seq::<Event>::empty());
        assert(spec_ingest_one(pre, ev, post) && spec_ingests(post, s.push(ev).drop_first(), post));
    } else {
        let m1 = choose|m1: FrameSequence|
            #[trigger] spec_ingest_one(pre, s[0], m1) && spec_ingests(m1, s.drop_first(), mid);
        lemma_ingests_snoc(m1, s.drop_first(), mid, ev, post);
        assert(s.push(ev)[0] == s[0]);
        assert(s.push(ev).drop_first() =~= s.drop_first().push(ev));
        assert(spec_ingest_one(pre, s.push(ev)[0], m1) && spec_ingests(
            m1,
            s.push(ev).drop_first(),
            post,
        ));
    }
}

/// Flattening splits at the last group.
proof fn lemma_flatten_groups_snoc(groups: Seq<Vec<Event>>)
    requires
        groups.len() > 0,
    ensures
        spec_flatten_groups(groups) == spec_flatten_groups(groups.drop_last())
            + groups.last()@,
    decreases groups.len(),
{
    if groups.len() == 1 {
        assert(groups.drop_first() =~= Seq::<Vec<Event>>::empty());
        assert(groups.drop_last() =~= Seq::<Vec<Event>>::empty());
        assert(spec_flatten_groups(groups) =~= spec_flatten_groups(groups.drop_last())
            + groups.last()@);
    } else {
        lemma_flatten_groups_snoc(groups.drop_first());
        assert(groups.drop_first().drop_last() =~= groups.drop_last().drop_first());
        assert(groups.drop_first().last() == groups.last());
        assert(groups.drop_last()[0] == groups[0]);
        assert(groups.drop_last().len() > 0);
        assert(spec_flatten_groups(groups) =~= spec_flatten_groups(groups.drop_last())
            + groups.last()@);
    }
}

impl FrameSequence {
    /// Number of chunk queues held (one per row stripe).
    pub fn get_frames_len(&self) -> (r: usize)
        ensures
            r == self.chunks.len(),
    {
        self.chunks.len()
    }

    /// Number of chunks in a frame.
    pub fn get_frame_chunks_num(&self) -> (r: usize)
        ensures
            r == self.chunks.len(),
    {
        self.chunks.len()
    }

    /// Ingests one event: resolves its chunk from its row, rebases the row
    /// into the chunk (mutating the event), feeds the chunk, and reports
    /// whether the oldest pending frame of every chunk is now filled.
    pub fn ingest_event(&mut self, event: &mut Event) -> (filled: bool)
        requires
            old(self).wf(),
            old(event).coord.x < old(self).plane.width,
            old(event).coord.y < old(self).plane.height,
            spec_event_channel(*old(event)) < old(self).plane.channels,
        ensures
            final(self).wf(),
            ({
                let cn = old(event).coord.y as int / old(self).chunk_rows as int;
                &&& *final(event) == (Event {
                    coord: Coord {
                        x: old(event).coord.x,
                        y: (old(event).coord.y - cn * old(self).chunk_rows) as u16,
                        c: old(event).coord.c,
                    },
                    d: old(event).d,
                    delta_t: old(event).delta_t,
                })
                &&& forall|k: int|
                    0 <= k < final(self).chunks.len() && k != cn
                        ==> #[trigger] final(self).chunks[k] == old(self).chunks[k]
                &&& spec_chunk_ingest(
                    old(self).chunks[cn],
                    final(self).chunks[cn],
                    *final(event),
                    old(self).frames_written,
                    old(self).tpf,
                    old(self).codec_version,
                    old(self).source_camera,
                    old(self).ref_interval,
                    old(self).source_dtm,
                    old(self).view_mode,
                    old(self).plane,
                )
            }),
            final(self).chunks.len() == old(self).chunks.len(),
            final(self).frames_written == old(self).frames_written,
            final(self).tpf == old(self).tpf,
            final(self).plane == old(self).plane,
            final(self).chunk_rows == old(self).chunk_rows,
            spec_ingest_one(*old(self), *old(event), *final(self)),
            filled == spec_all_chunks_filled(*final(self)),
    {
        proof {
            lemma_chunk_of_row(
                old(event).coord.y as int,
                self.plane.height as int,
                self.chunk_rows as int,
            );
        }
        let cn: usize = (event.coord.y as usize) / self.chunk_rows;
        event.coord.y = event.coord.y - ((cn * self.chunk_rows) as u16);
        let fw = self.frames_written;
        let tpf = self.tpf;
        let codec_version = self.codec_version;
        let camera = self.source_camera;
        let ref_interval = self.ref_interval;
        let source_dtm = self.source_dtm;
        let view = self.view_mode;
        let plane = self.plane;
        let chunk = &mut self.chunks[cn];
        chunk.ingest_event_for_chunk(
            event,
            fw,
            tpf,
            codec_version,
            camera,
            ref_interval,
            source_dtm,
            view,
            plane,
        );
        self.is_frame_0_filled()
    }

    /// Ingests events pre-partitioned into one group per chunk, feeding
    /// each group in order, and reports whether every chunk's oldest
    /// pending frame is now filled. The result is exactly that of
    /// ingesting the flattened groups one event at a time; chunks own
    /// disjoint rows and disjoint state, so the groups are independent of
    /// one another.
    pub fn ingest_events_events(&mut self, events: Vec<Vec<Event>>) -> (filled: bool)
        requires
            old(self).wf(),
            events@.len() == old(self).chunks@.len(),
            forall|g: int, i: int|
                0 <= g < events@.len() && 0 <= i < events@[g]@.len() ==> {
                    let e = #[trigger] events@[g]@[i];
                    &&& e.coord.x < old(self).plane.width
                    &&& e.coord.y < old(self).plane.height
                    &&& spec_event_channel(e) < old(self).plane.channels
                    &&& e.coord.y as int / old(self).chunk_rows as int == g
                },
        ensures
            final(self).wf(),
            spec_ingests(*old(self), spec_flatten_groups(events@), *final(self)),
            filled == spec_all_chunks_filled(*final(self)),
    {
        let ghost pre = *old(self);
        let n = events.len();
        let mut g: usize = 0;
        while g < n
            invariant
                g <= n,
                n == events@.len(),
                self.wf(),
                self.chunks.len() == pre.chunks.len(),
                self.plane == pre.plane,
                self.chunk_rows == pre.chunk_rows,
                n == pre.chunks@.len(),
                spec_ingests(pre, spec_flatten_groups(events@.take(g as int)), *self),
                forall|g2: int, i: int|
                    0 <= g2 < events@.len() && 0 <= i < events@[g2]@.len() ==> {
                        let e = #[trigger] events@[g2]@[i];
                        &&& e.coord.x < pre.plane.width
                        &&& e.coord.y < pre.plane.height
                        &&& spec_event_channel(e) < pre.plane.channels
                    },
            decreases n - g,
        {
            let ghost done = spec_flatten_groups(events@.take(g as int));
            let group: &Vec<Event> = &events[g];
            let m = group.len();
            let mut i: usize = 0;
            while i < m
                invariant
                    i <= m,
                    g < n,
                    n == events@.len(),
                    m == events@[g as int]@.len(),
                    group == events@[g as int],
                    self.wf(),
                    self.chunks.len() == pre.chunks.len(),
                    self.plane == pre.plane,
                    self.chunk_rows == pre.chunk_rows,
                    done == spec_flatten_groups(events@.take(g as int)),
                    spec_ingests(pre, done + group@.take(i as int), *self),
                    forall|g2: int, i2: int|
                        0 <= g2 < events@.len() && 0 <= i2 < events@[g2]@.len() ==> {
                            let e = #[trigger] events@[g2]@[i2];
                            &&& e.coord.x < pre.plane.width
                            &&& e.coord.y < pre.plane.height
                            &&& spec_event_channel(e) < pre.plane.channels
                        },
                decreases m - i,
            {
                let ghost before = *self;
                let mut ev = group[i];
                let ghost ev0 = ev;
                self.ingest_event(&mut ev);
                proof {
                    lemma_ingests_snoc(pre, done + group@.take(i as int), before, ev0, *self);
                    assert((done + group@.take(i as int)).push(ev0) =~= done + group@.take(
                        i as int + 1,
                    ));
                }
                i = i + 1;
            }
            proof {
                lemma_flatten_groups_snoc(events@.take(g as int + 1));
                assert(events@.take(g as int + 1).drop_last() =~= events@.take(g as int));
                assert(events@.take(g as int + 1).last() == events@[g as int]);
                assert(group@.take(m as int) =~= group@);
            }
            g = g + 1;
        }
        proof {
            assert(events@.take(n as int) =~= events@);
        }
        self.is_frame_0_filled()
    }

    /// A reference to a pixel's slot in the oldest pending frame.
    pub fn px_at_current(&self, y: usize, x: usize, c: usize) -> (r: Result<
        &Option<u8>,
        FrameSequenceError,
    >)
        requires
            self.wf(),
            y < self.plane.height,
            x < self.plane.width,
            c < self.plane.channels,
        ensures
            ({
                let cn = y as int / self.chunk_rows as int;
                let local = y - cn * self.chunk_rows;
                let pix = spec_pix_idx(
                    local,
                    x as int,
                    c as int,
                    self.plane.width as int,
                    self.plane.channels as int,
                );
                r matches Ok(v) && *v == self.chunks[cn].frames[0].array@[pix]
            }),
    {
        if self.chunks.is_empty() {
            return Err(FrameSequenceError::UninitializedFrame);
        }
        proof {
            lemma_chunk_of_row(y as int, self.plane.height as int, self.chunk_rows as int);
        }
        let chunk_num = y / self.chunk_rows;
        let local_row = y - chunk_num * self.chunk_rows;
        let rows = self.chunks[chunk_num].rows;
        proof {
            assert(self.chunks[chunk_num as int].pixel_ts.len() <= usize::MAX);
        }
        let pix = compute_pix(local_row, x, c, rows, self.plane);
        Ok(&self.chunks[chunk_num].frames[0].array[pix])
    }

    /// A reference to a pixel's slot in the pending frame at an index in
    /// the queue; `InvalidIndex` when the queue is shorter.
    pub fn px_at_frame(&self, y: usize, x: usize, c: usize, frame_idx: usize) -> (r: Result<
        &Option<u8>,
        FrameSequenceError,
    >)
        requires
            self.wf(),
            y < self.plane.height,
            x < self.plane.width,
            c < self.plane.channels,
        ensures
            ({
                let cn = y as int / self.chunk_rows as int;
                let local = y - cn * self.chunk_rows;
                let pix = spec_pix_idx(
                    local,
                    x as int,
                    c as int,
                    self.plane.width as int,
                    self.plane.channels as int,
                );
                if frame_idx < self.chunks[cn].frames.len() {
                    r matches Ok(v) && *v == self.chunks[cn].frames[frame_idx as int].array@[pix]
                } else {
                    r == Err::<&Option<u8>, FrameSequenceError>(FrameSequenceError::InvalidIndex)
                }
            }),
    {
        proof {
            lemma_chunk_of_row(y as int, self.plane.height as int, self.chunk_rows as int);
        }
        let chunk_num = y / self.chunk_rows;
        let local_row = y - chunk_num * self.chunk_rows;
        if frame_idx >= self.chunks[chunk_num].frames.len() {
            return Err(FrameSequenceError::InvalidIndex);
        }
        let rows = self.chunks[chunk_num].rows;
        proof {
            assert(self.chunks[chunk_num as int].pixel_ts.len() <= usize::MAX);
        }
        let pix = compute_pix(local_row, x, c, rows, self.plane);
        Ok(&self.chunks[chunk_num].frames[frame_idx].array[pix])
    }

    /// Whether the pending frame at an index is filled in every chunk.
    /// Fails with `InvalidIndex` exactly when some chunk's queue is
    /// shorter than the index. An over-full fill count would be an
    /// internal inconsistency (`BadFillCount`), which well-formedness
    /// rules out.
    pub fn is_frame_filled(&self, frame_idx: usize) -> (r: Result<bool, FrameSequenceError>)
        requires
            self.wf(),
        ensures
            r is Err <==> exists|k: int|
                0 <= k < self.chunks.len() && (#[trigger] self.chunks[k]).frames.len()
                    <= frame_idx,
            r is Err ==> r == Err::<bool, FrameSequenceError>(FrameSequenceError::InvalidIndex),
            r is Ok ==> r == Ok::<bool, FrameSequenceError>(
                forall|k: int|
                    0 <= k < self.chunks.len() ==> (#[trigger] self.chunks[k]).frames[frame_idx as int].filled_count
                        == self.chunks[k].frames[0].array.len(),
            ),
    {
        let n = self.chunks.len();
        let mut k: usize = 0;
        while k < n
            invariant
                k <= n,
                n == self.chunks.len(),
                forall|j: int| 0 <= j < k ==> (#[trigger] self.chunks[j]).frames.len() > frame_idx,
            decreases n - k,
        {
            if self.chunks[k].frames.len() <= frame_idx {
                return Err(FrameSequenceError::InvalidIndex);
            }
            k = k + 1;
        }
        let mut k2: usize = 0;
        while k2 < n
            invariant
                k2 <= n,
                n == self.chunks.len(),
                self.wf(),
                forall|j: int| 0 <= j < n ==> (#[trigger] self.chunks[j]).frames.len() > frame_idx,
                forall|j: int|
                    0 <= j < k2 ==> (#[trigger] self.chunks[j]).frames[frame_idx as int].filled_count
                        == self.chunks[j].frames[0].array.len(),
            decreases n - k2,
        {
            let chunk = &self.chunks[k2];
            let fc = chunk.frames[frame_idx].filled_count;
            let cap = chunk.frames[0].array.len();
            if fc == cap {
            } else if fc > cap {
                proof {
                    lemma_count_filled_le_len(
                        self.chunks[k2 as int].frames[frame_idx as int].array@,
                    );
                    assert(false);
                }
                return Err(FrameSequenceError::BadFillCount);
            } else {
                return Ok(false);
            }
            k2 = k2 + 1;
        }
        Ok(true)
    }

    /// Whether the oldest pending frame of every chunk is filled.
    pub fn is_frame_0_filled(&self) -> (r: bool)
        ensures
            r == spec_all_chunks_filled(*self),
    {
        let n = self.chunks.len();
        let mut k: usize = 0;
        while k < n
            invariant
                k <= n,
                n == self.chunks.len(),
                forall|j: int| 0 <= j < k ==> (#[trigger] self.chunks[j]).filled,
            decreases n - k,
        {
            if !self.chunks[k].filled {
                return false;
            }
            k = k + 1;
        }
        true
    }

    /// Pops the oldest pending frame of one chunk, replenishing the queue
    /// with a fresh empty frame when the pop would empty it so that a
    /// pending frame always exists.
    pub fn pop_next_frame_for_chunk(&mut self, chunk_num: usize) -> (r: Option<Frame>)
        requires
            old(self).wf(),
            chunk_num < old(self).chunks.len(),
        ensures
            final(self).wf(),
            final(self).chunks.len() == old(self).chunks.len(),
            forall|k: int|
                0 <= k < final(self).chunks.len() && k != chunk_num
                    ==> #[trigger] final(self).chunks[k] == old(self).chunks[k],
            r matches Some(f) && f == old(self).chunks[chunk_num as int].frames[0],
            spec_chunk_popped(
                old(self).chunks[chunk_num as int],
                final(self).chunks[chunk_num as int],
            ),
            final(self).frames_written == old(self).frames_written,
            final(self).plane == old(self).plane,
            final(self).chunk_rows == old(self).chunk_rows,
            final(self).tpf == old(self).tpf,
            final(self).mode == old(self).mode,
            final(self).view_mode == old(self).view_mode,
            final(self).source == old(self).source,
            final(self).codec_version == old(self).codec_version,
            final(self).source_camera == old(self).source_camera,
            final(self).ref_interval == old(self).ref_interval,
            final(self).source_dtm == old(self).source_dtm,
    {
        let plane = self.plane;
        let chunk = &mut self.chunks[chunk_num];
        let front = chunk.frames.remove(0);
        if chunk.frames.len() == 0 {
            let fresh = Frame::new_empty(front.rows, front.cols, front.channels);
            chunk.frames.push(fresh);
            if chunk.frame_idx_offset < i64::MAX {
                chunk.frame_idx_offset = chunk.frame_idx_offset + 1;
            }
        }
        chunk.filled = false;
        proof {
            assert(final(self).chunks[chunk_num as int].frames.len() >= 1);
        }
        Some(front)
    }

    /// Pops the oldest pending frame of every chunk, counting one more
    /// frame as written out.
    pub fn pop_next_frame(&mut self) -> (r: Option<Vec<Frame>>)
        requires
            old(self).wf(),
        ensures
            final(self).wf(),
            final(self).chunks.len() == old(self).chunks.len(),
            r matches Some(frames) && frames@.len() == old(self).chunks@.len(),
            r matches Some(frames) ==> forall|k: int|
                0 <= k < frames@.len() ==> #[trigger] frames@[k] == old(self).chunks[k].frames[0],
            forall|k: int|
                0 <= k < final(self).chunks.len() ==> spec_chunk_popped(
                    old(self).chunks[k],
                    #[trigger] final(self).chunks[k],
                ),
            final(self).frames_written == (if old(self).frames_written < i64::MAX {
                old(self).frames_written + 1
            } else {
                old(self).frames_written as int
            }),
            final(self).plane == old(self).plane,
            final(self).chunk_rows == old(self).chunk_rows,
            final(self).tpf == old(self).tpf,
    {
        let ghost pre = *old(self);
        let n = self.chunks.len();
        let mut ret: Vec<Frame> = Vec::new();
        let mut k: usize = 0;
        while k < n
            invariant
                k <= n,
                n == self.chunks.len(),
                n == pre.chunks.len(),
                self.wf(),
                ret@.len() == k,
                forall|j: int| 0 <= j < k ==> #[trigger] ret@[j] == pre.chunks[j].frames[0],
                forall|j: int|
                    0 <= j < k ==> spec_chunk_popped(pre.chunks[j], #[trigger] self.chunks[j]),
                forall|j: int| k <= j < n ==> #[trigger] self.chunks[j] == pre.chunks[j],
                self.frames_written == pre.frames_written,
                self.plane == pre.plane,
                self.chunk_rows == pre.chunk_rows,
                self.tpf == pre.tpf,
            decreases n - k,
        {
            match self.pop_next_frame_for_chunk(k) {
                Some(frame) => {
                    ret.push(frame);
                },
                None => {
                    return None;
                },
            }
            k = k + 1;
        }
        if self.frames_written < i64::MAX {
            self.frames_written = self.frames_written + 1;
        }
        Some(ret)
    }

    /// Pops and serializes the oldest pending frame of every chunk into
    /// bytes, one byte per slot in order, with zero standing in for a
    /// never-filled slot, and counts one more frame as written out.
    pub fn write_frame_bytes(&mut self) -> (r: Result<Vec<u8>, FrameSequenceError>)
        requires
            old(self).wf(),
        ensures
            final(self).wf(),
            final(self).chunks.len() == old(self).chunks.len(),
            forall|k: int|
                0 <= k < final(self).chunks.len() ==> spec_chunk_popped(
                    old(self).chunks[k],
                    #[trigger] final(self).chunks[k],
                ),
            final(self).frames_written == (if old(self).frames_written < i64::MAX {
                old(self).frames_written + 1
            } else {
                old(self).frames_written as int
            }),
            final(self).plane == old(self).plane,
            final(self).chunk_rows == old(self).chunk_rows,
            final(self).tpf == old(self).tpf,
            spec_wrote_frame(*old(self), *final(self)),
            r matches Ok(bytes) && bytes@ == spec_frames_bytes(old(self).chunks@),
    {
        let ghost pre = *old(self);
        let n = self.chunks.len();
        let mut bytes: Vec<u8> = Vec::new();
        let mut k: usize = 0;
        while k < n
            invariant
                k <= n,
                n == self.chunks.len(),
                n == pre.chunks.len(),
                self.wf(),
                bytes@ == spec_frames_bytes(pre.chunks@.take(k as int)),
                forall|j: int|
                    0 <= j < k ==> spec_chunk_popped(pre.chunks[j], #[trigger] self.chunks[j]),
                forall|j: int| k <= j < n ==> #[trigger] self.chunks[j] == pre.chunks[j],
                self.frames_written == pre.frames_written,
                self.plane == pre.plane,
                self.chunk_rows == pre.chunk_rows,
                self.tpf == pre.tpf,
                self.mode == pre.mode,
                self.view_mode == pre.view_mode,
                self.source == pre.source,
                self.codec_version == pre.codec_version,
                self.source_camera == pre.source_camera,
                self.ref_interval == pre.ref_interval,
                self.source_dtm == pre.source_dtm,
            decreases n - k,
        {
            let frame = match self.pop_next_frame_for_chunk(k) {
                Some(frame) => frame,
                None => {
                    return Err(FrameSequenceError::UninitializedFrameChunk);
                },
            };
            let m = frame.array.len();
            let ghost bytes_before = bytes@;
            let mut i: usize = 0;
            while i < m
                invariant
                    i <= m,
                    m == frame.array.len(),
                    bytes@ == bytes_before + spec_frame_bytes(frame.array@).take(i as int),
                decreases m - i,
            {
                let b: u8 = match frame.array[i] {
                    Some(v) => v,
                    None => 0,
                };
                bytes.push(b);
                proof {
                    assert(bytes@ =~= bytes_before + spec_frame_bytes(frame.array@).take(
                        i as int + 1,
                    ));
                }
                i = i + 1;
            }
            proof {
                assert(spec_frame_bytes(frame.array@).take(m as int) =~= spec_frame_bytes(
                    frame.array@,
                ));
                lemma_frames_bytes_snoc(pre.chunks@.take(k as int + 1));
                assert(pre.chunks@.take(k as int + 1).drop_last() =~= pre.chunks@.take(k as int));
                assert(pre.chunks@.take(k as int + 1).last() == pre.chunks@[k as int]);
                assert(bytes@ =~= spec_frames_bytes(pre.chunks@.take(k as int + 1)));
            }
            k = k + 1;
        }
        if self.frames_written < i64::MAX {
            self.frames_written = self.frames_written + 1;
        }
        proof {
            assert(pre.chunks@.take(n as int) =~= pre.chunks@);
        }
        Ok(bytes)
    }

    /// Pops and serializes pending frames for as long as the oldest one is
    /// filled in every chunk, returning how many frames were written and
    /// their bytes in order. On return the oldest pending frame is no
    /// longer filled (unless the counter's range was exhausted), and a
    /// sequence with nothing ready is left untouched.
    pub fn write_multi_frame_bytes(&mut self) -> (r: Result<
        (i32, Vec<u8>),
        FrameSequenceError,
    >)
        requires
            old(self).wf(),
        ensures
            final(self).wf(),
            final(self).chunks.len() == old(self).chunks.len(),
            final(self).plane == old(self).plane,
            final(self).chunk_rows == old(self).chunk_rows,
            final(self).tpf == old(self).tpf,
            r matches Ok(p) && p.0 >= 0,
            r matches Ok(p) ==> spec_drained(*old(self), *final(self), p.0 as int, p.1@),
            r matches Ok(p) ==> (p.0 < i32::MAX ==> !spec_front_filled(*final(self))),
            r matches Ok(p) ==> (p.0 == 0 ==> *final(self) == *old(self) && p.1@ == Seq::<
                u8,
            >::empty()),
            r matches Ok(p) ==> (old(self).frames_written + p.0 <= i64::MAX
                ==> final(self).frames_written == old(self).frames_written + p.0),
    {
        let ghost pre = *old(self);
        let mut frame_count: i32 = 0;
        let mut bytes: Vec<u8> = Vec::new();
        loop
            invariant
                pre == *old(self),
                self.wf(),
                self.chunks.len() == pre.chunks.len(),
                self.plane == pre.plane,
                self.chunk_rows == pre.chunk_rows,
                self.tpf == pre.tpf,
                frame_count >= 0,
                spec_drained(pre, *self, frame_count as int, bytes@),
                frame_count == 0 ==> *self == pre && bytes@ == Seq::<u8>::empty(),
                pre.frames_written + frame_count <= i64::MAX ==> self.frames_written
                    == pre.frames_written + frame_count,
            ensures
                self.wf(),
                self.chunks.len() == pre.chunks.len(),
                self.plane == pre.plane,
                self.chunk_rows == pre.chunk_rows,
                self.tpf == pre.tpf,
                frame_count >= 0,
                spec_drained(pre, *self, frame_count as int, bytes@),
                frame_count < i32::MAX ==> !spec_front_filled(*self),
                frame_count == 0 ==> *self == pre && bytes@ == Seq::<u8>::empty(),
                pre.frames_written + frame_count <= i64::MAX ==> self.frames_written
                    == pre.frames_written + frame_count,
            decreases self.chunks[0].frames.len() + 1,
        {
            let filled = match self.is_frame_filled(0) {
                Ok(filled) => filled,
                Err(_) => false,
            };
            if !filled {
                break;
            }
            if frame_count == i32::MAX {
                break;
            }
            let was_single = self.chunks[0].frames.len() == 1;
            let ghost before = *self;
            let ghost bytes_before = bytes@;
            match self.write_frame_bytes() {
                Ok(mut frame_bytes) => {
                    proof {
                        assert(frame_bytes@ == spec_frames_bytes(before.chunks@));
                    }
                    bytes.append(&mut frame_bytes);
                },
                Err(e) => {
                    return Err(e);
                },
            }
            proof {
                lemma_drained_snoc(
                    pre,
                    before,
                    *self,
                    frame_count as int,
                    bytes_before,
                    spec_frames_bytes(before.chunks@),
                );
            }
            frame_count = frame_count + 1;
            if was_single {
                proof {
                    // the replenished front frame is empty, and a frame
                    // has at least one slot
                    let c0 = self.chunks[0];
                    assert(spec_chunk_popped(before.chunks[0], c0));
                    assert(c0.frames[0].filled_count == 0);
                    assert(c0.frames[0].array.len() == c0.frames[0].rows * c0.frames[0].cols
                        * c0.frames[0].channels);
                    assert(c0.frames[0].rows * c0.frames[0].cols * c0.frames[0].channels >= 1)
                        by (nonlinear_arith)
                        requires
                            c0.frames[0].rows >= 1 && c0.frames[0].cols >= 1
                                && c0.frames[0].channels >= 1,
                    ;
                }
                break;
            }
        }
        Ok((frame_count, bytes))
    }
}

/// The concatenated byte serializations of every chunk's oldest pending
/// frame.
pub open spec fn spec_frames_bytes(chunks: Seq<FrameChunk>) -> Seq<u8>
    decreases chunks.len(),
{
    if chunks.len() == 0 {
        Seq::empty()
    } else {
        spec_frames_bytes(chunks.drop_last()) + spec_frame_bytes(chunks.last().frames[0].array@)
    }
}

proof fn lemma_frames_bytes_snoc(chunks: Seq<FrameChunk>)
    requires
        chunks.len() > 0,
    ensures
        spec_frames_bytes(chunks) == spec_frames_bytes(chunks.drop_last()) + spec_frame_bytes(
            chunks.last().frames[0].array@,
        ),
{
}

} // verus!
