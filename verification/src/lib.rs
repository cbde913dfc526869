//! Core value types for the ADDER event representation: coordinates, events,
//! plane geometry, and the decimation scale shared by every component.
//!
//! An event records that one pixel accumulated `2^d` units of light over
//! `delta_t` ticks since that pixel's previous event.

use vstd::prelude::*;

pub mod blocks;
pub mod compression;
pub mod framer;
pub mod pixel_tree;
pub mod raw_codec;

verus! {

/// Decimation value; a pixel's sensitivity exponent.
pub type D = u8;

/// Number of ticks elapsed since a given pixel last fired an event.
pub type DeltaT = u32;

/// Large count of ticks, for running timestamps over a whole stream.
pub type BigT = u64;

/// Pixel x- or y- coordinate address.
pub type PixelAddress = u16;

/// The maximum possible decimation value.
pub const D_MAX: u8 = 8;

/// The default decimation value for every pixel at the start of a transcode.
pub const D_START: u8 = 7;

/// Sentinel x/y address marking the end-of-stream event record.
pub const EOF_PX_ADDRESS: u16 = u16::MAX;

/// Sentinel decimation value marking an "empty" event: repeat the previous
/// intensity and advance time only.
pub const EMPTY_EVENT_D: u8 = 0xFF;

/// The intensity threshold that a pixel must accumulate to fire an event at
/// decimation `e`: two to the power `e`.
pub open spec fn two_pow(e: nat) -> nat
    decreases e,
{
    if e == 0 {
        1
    } else {
        2 * two_pow((e - 1) as nat)
    }
}

/// The threshold table entry for a decimation value: `2^d` units of intensity.
pub fn d_shift(d: D) -> (r: u32)
    requires
        d <= D_MAX,
    ensures
        r == two_pow(d as nat),
{
    proof {
        reveal_with_fuel(two_pow, 9);
    }
    if d == 0 {
        1
    } else if d == 1 {
        2
    } else if d == 2 {
        4
    } else if d == 3 {
        8
    } else if d == 4 {
        16
    } else if d == 5 {
        32
    } else if d == 6 {
        64
    } else if d == 7 {
        128
    } else {
        256
    }
}

/// The camera kind that produced a stream; framed sources are frame-quantized,
/// the event-camera kinds are not.
#[derive(Debug, Clone, Copy, PartialEq, Eq, Structural)]
pub enum SourceCamera {
    FramedU8,
    FramedU16,
    FramedU32,
    FramedU64,
    FramedF32,
    FramedF64,
    Dvs,
    DavisU8,
    Atis,
    Asint,
}

impl Default for SourceCamera {
    fn default() -> (r: Self)
        ensures
            r == SourceCamera::FramedU8,
    {
        SourceCamera::FramedU8
    }
}

/// Whether a source camera delivers framed (frame-quantized) samples.
pub open spec fn spec_is_framed(c: SourceCamera) -> bool {
    c == SourceCamera::FramedU8 || c == SourceCamera::FramedU16 || c == SourceCamera::FramedU32
        || c == SourceCamera::FramedU64 || c == SourceCamera::FramedF32 || c
        == SourceCamera::FramedF64
}

impl SourceCamera {
    /// True exactly for the framed (frame-quantized) camera kinds.
    pub fn is_framed(&self) -> (r: bool)
        ensures
            r == spec_is_framed(*self),
    {
        match self {
            SourceCamera::FramedU8
            | SourceCamera::FramedU16
            | SourceCamera::FramedU32
            | SourceCamera::FramedU64
            | SourceCamera::FramedF32
            | SourceCamera::FramedF64 => true,
            SourceCamera::Dvs | SourceCamera::DavisU8 | SourceCamera::Atis
            | SourceCamera::Asint => false,
        }
    }

    /// A human-readable description of the camera kind.
    pub fn description(&self) -> String {
        match self {
            SourceCamera::FramedU8 => String::from_str(
                "FramedU8 - Framed video with 8-bit pixel depth, unsigned integer",
            ),
            SourceCamera::FramedU16 => String::from_str(
                "FramedU16 - Framed video with 16-bit pixel depth, unsigned integer",
            ),
            SourceCamera::FramedU32 => String::from_str(
                "FramedU32 - Framed video with 32-bit pixel depth, unsigned integer",
            ),
            SourceCamera::FramedU64 => String::from_str(
                "FramedU64 - Framed video with 64-bit pixel depth, unsigned integer",
            ),
            SourceCamera::FramedF32 => String::from_str(
                "FramedF32 - Framed video with 32-bit pixel depth, floating point",
            ),
            SourceCamera::FramedF64 => String::from_str(
                "FramedF64 - Framed video with 64-bit pixel depth, floating point",
            ),
            SourceCamera::Dvs => String::from_str("Dvs - Dynamic Vision System camera"),
            SourceCamera::DavisU8 => String::from_str(
                "DavisU8 - Dynamic and Active Vision System camera. Active frames with 8-bit pixel depth, unsigned integer",
            ),
            SourceCamera::Atis => String::from_str(
                "Atis - Asynchronous Time-Based Image Sensor camera",
            ),
            SourceCamera::Asint => String::from_str("Asint - Asynchronous Integration camera"),
        }
    }

    /// The fixed tag under which a camera kind is stored in a stream header.
    pub fn to_tag(&self) -> (r: u8)
        ensures
            r == spec_camera_tag(*self),
            r <= 9,
    {
        match self {
            SourceCamera::FramedU8 => 0,
            SourceCamera::FramedU16 => 1,
            SourceCamera::FramedU32 => 2,
            SourceCamera::FramedU64 => 3,
            SourceCamera::FramedF32 => 4,
            SourceCamera::FramedF64 => 5,
            SourceCamera::Dvs => 6,
            SourceCamera::DavisU8 => 7,
            SourceCamera::Atis => 8,
            SourceCamera::Asint => 9,
        }
    }

    /// The camera kind stored under a header tag, if the tag is valid.
    pub fn from_tag(tag: u8) -> (r: Option<SourceCamera>)
        ensures
            r == spec_camera_from_tag(tag),
    {
        match tag {
            0 => Some(SourceCamera::FramedU8),
            1 => Some(SourceCamera::FramedU16),
            2 => Some(SourceCamera::FramedU32),
            3 => Some(SourceCamera::FramedU64),
            4 => Some(SourceCamera::FramedF32),
            5 => Some(SourceCamera::FramedF64),
            6 => Some(SourceCamera::Dvs),
            7 => Some(SourceCamera::DavisU8),
            8 => Some(SourceCamera::Atis),
            9 => Some(SourceCamera::Asint),
            _ => None,
        }
    }
}

/// The header tag of a camera kind.
pub open spec fn spec_camera_tag(c: SourceCamera) -> u8 {
    match c {
        SourceCamera::FramedU8 => 0,
        SourceCamera::FramedU16 => 1,
        SourceCamera::FramedU32 => 2,
        SourceCamera::FramedU64 => 3,
        SourceCamera::FramedF32 => 4,
        SourceCamera::FramedF64 => 5,
        SourceCamera::Dvs => 6,
        SourceCamera::DavisU8 => 7,
        SourceCamera::Atis => 8,
        SourceCamera::Asint => 9,
    }
}

/// The camera kind of a header tag, if any.
pub open spec fn spec_camera_from_tag(tag: u8) -> Option<SourceCamera> {
    if tag == 0 {
        Some(SourceCamera::FramedU8)
    } else if tag == 1 {
        Some(SourceCamera::FramedU16)
    } else if tag == 2 {
        Some(SourceCamera::FramedU32)
    } else if tag == 3 {
        Some(SourceCamera::FramedU64)
    } else if tag == 4 {
        Some(SourceCamera::FramedF32)
    } else if tag == 5 {
        Some(SourceCamera::FramedF64)
    } else if tag == 6 {
        Some(SourceCamera::Dvs)
    } else if tag == 7 {
        Some(SourceCamera::DavisU8)
    } else if tag == 8 {
        Some(SourceCamera::Atis)
    } else if tag == 9 {
        Some(SourceCamera::Asint)
    } else {
        None
    }
}

/// Round-trip of the camera tag: every camera kind survives the header
/// encoding of its tag.
pub proof fn lemma_camera_tag_round_trip(c: SourceCamera)
    ensures
        spec_camera_from_tag(spec_camera_tag(c)) == Some(c),
{
}

/// A pixel coordinate: x, y, and an optional color channel. `c == None`
/// means a single-channel (gray) source.
#[derive(Debug, Copy, Clone, PartialEq, Eq)]
pub struct Coord {
    pub x: PixelAddress,
    pub y: PixelAddress,
    pub c: Option<u8>,
}

/// A pixel coordinate without a channel, for single-channel streams.
#[derive(Debug, Copy, Clone, PartialEq, Eq)]
pub struct CoordSingle {
    pub x: PixelAddress,
    pub y: PixelAddress,
}

/// An ADDER event: a coordinate, a decimation value, and the ticks elapsed
/// since the pixel's previous event.
#[derive(Debug, Copy, Clone, PartialEq, Eq)]
pub struct Event {
    pub coord: Coord,
    pub d: D,
    pub delta_t: DeltaT,
}

/// An ADDER event for a single-channel stream.
#[derive(Debug, Copy, Clone, PartialEq, Eq)]
pub struct EventSingle {
    pub coord: CoordSingle,
    pub d: D,
    pub delta_t: DeltaT,
}

/// An event without its coordinate, for use where the position is implied by
/// an array index.
#[derive(Debug, Copy, Clone, PartialEq, Eq)]
pub struct EventCoordless {
    pub d: D,
    pub delta_t: DeltaT,
}

impl EventCoordless {
    /// The additive identity: no light over no ticks.
    pub fn zero() -> (r: Self)
        ensures
            r.d == 0 && r.delta_t == 0,
    {
        EventCoordless { d: 0, delta_t: 0 }
    }

    /// True exactly when both fields are zero.
    pub fn is_zero(&self) -> (r: bool)
        ensures
            r == (self.d == 0 && self.delta_t == 0),
    {
        self.d == 0 && self.delta_t == 0
    }
}

impl From<Event> for EventSingle {
    fn from(event: Event) -> (r: Self) {
        EventSingle {
            coord: CoordSingle { x: event.coord.x, y: event.coord.y },
            d: event.d,
            delta_t: event.delta_t,
        }
    }
}

impl vstd::std_specs::convert::FromSpecImpl<Event> for EventSingle {
    open spec fn obeys_from_spec() -> bool {
        true
    }

    open spec fn from_spec(event: Event) -> Self {
        EventSingle {
            coord: CoordSingle { x: event.coord.x, y: event.coord.y },
            d: event.d,
            delta_t: event.delta_t,
        }
    }
}

impl From<EventSingle> for Event {
    fn from(event: EventSingle) -> (r: Self) {
        Event {
            coord: Coord { x: event.coord.x, y: event.coord.y, c: None },
            d: event.d,
            delta_t: event.delta_t,
        }
    }
}

impl vstd::std_specs::convert::FromSpecImpl<EventSingle> for Event {
    open spec fn obeys_from_spec() -> bool {
        true
    }

    open spec fn from_spec(event: EventSingle) -> Self {
        Event {
            coord: Coord { x: event.coord.x, y: event.coord.y, c: None },
            d: event.d,
            delta_t: event.delta_t,
        }
    }
}

impl From<Event> for EventCoordless {
    fn from(event: Event) -> (r: Self) {
        EventCoordless { d: event.d, delta_t: event.delta_t }
    }
}

impl vstd::std_specs::convert::FromSpecImpl<Event> for EventCoordless {
    open spec fn obeys_from_spec() -> bool {
        true
    }

    open spec fn from_spec(event: Event) -> Self {
        EventCoordless { d: event.d, delta_t: event.delta_t }
    }
}

/// The error returned for an impossible plane geometry.
#[derive(Debug, Copy, Clone, PartialEq, Eq, Structural)]
pub enum PlaneError {
    /// Width or height is zero.
    ZeroDimension,
    /// The channel count is neither 1 (gray) nor 3 (color).
    InvalidChannels,
}

/// The geometry of an event plane: width, height, and channel count.
/// Constructed only through `new`, which enforces the invariant.
#[derive(Debug, Copy, Clone, PartialEq, Eq)]
pub struct PlaneSize {
    pub width: u16,
    pub height: u16,
    pub channels: u8,
}

impl PlaneSize {
    /// The invariant every constructed plane satisfies: positive extent and a
    /// gray or color channel count.
    pub open spec fn wf(&self) -> bool {
        self.width >= 1 && self.height >= 1 && (self.channels == 1 || self.channels == 3)
    }

    /// Builds a plane descriptor, rejecting a zero extent and a channel count
    /// other than 1 or 3.
    pub fn new(width: u16, height: u16, channels: u8) -> (r: Result<Self, PlaneError>)
        ensures
            (width >= 1 && height >= 1 && (channels == 1 || channels == 3)) <==> r is Ok,
            r matches Ok(p) ==> p == (PlaneSize { width, height, channels }) && p.wf(),
            r matches Err(e) ==> (e == PlaneError::ZeroDimension <==> (width == 0 || height == 0)),
    {
        if width == 0 || height == 0 {
            Err(PlaneError::ZeroDimension)
        } else if channels != 1 && channels != 3 {
            Err(PlaneError::InvalidChannels)
        } else {
            Ok(PlaneSize { width, height, channels })
        }
    }

    pub fn w(&self) -> (r: u16)
        ensures
            r == self.width,
    {
        self.width
    }

    pub fn h(&self) -> (r: u16)
        ensures
            r == self.height,
    {
        self.height
    }

    pub fn c(&self) -> (r: u8)
        ensures
            r == self.channels,
    {
        self.channels
    }

    pub fn w_usize(&self) -> (r: usize)
        ensures
            r == self.width,
    {
        self.width as usize
    }

    pub fn h_usize(&self) -> (r: usize)
        ensures
            r == self.height,
    {
        self.height as usize
    }

    pub fn c_usize(&self) -> (r: usize)
        ensures
            r == self.channels,
    {
        self.channels as usize
    }

    /// The number of pixel slots in one dense frame of this plane.
    pub fn volume(&self) -> (r: usize)
        requires
            self.wf(),
            self.height as int * self.width as int * self.channels as int <= usize::MAX,
        ensures
            r == self.height as int * self.width as int * self.channels as int,
    {
        self.height as usize * self.width as usize * self.channels as usize
    }
}

/// The command-line request understood by the stream-inspection tool: an
/// input path and whether to compute the stream's dynamic range.
#[derive(Debug, Clone)]
pub struct MyArgs {
    pub input: String,
    pub dynamic_range: bool,
}

} // verus!
