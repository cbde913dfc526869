use adder_codec::raw_codec::{RawStream, StreamError, HEADER_SIZE};
use adder_codec::{Coord, Event, SourceCamera, EOF_PX_ADDRESS};

#[test]
fn encode_raw() {}

fn sample_event() -> Event {
    Event {
        coord: Coord { x: 5, y: 7, c: Some(2) },
        d: 12,
        delta_t: 1_000_000,
    }
}

// Idempotence of the header round trip: every field of a valid header
// survives encode then decode.
#[test]
fn header_round_trip() {
    let mut enc = RawStream::new();
    enc.encode_header(640, 480, 150_000, 5000, 240_000, 3, 1, SourceCamera::DavisU8);
    let bytes = enc.take_output();
    assert_eq!(bytes.len(), HEADER_SIZE);

    let mut dec = RawStream::new();
    dec.set_input(bytes);
    let n = dec.decode_header().unwrap();
    assert_eq!(n, HEADER_SIZE);
    assert_eq!(dec.width, 640);
    assert_eq!(dec.height, 480);
    assert_eq!(dec.tps, 150_000);
    assert_eq!(dec.ref_interval, 5000);
    assert_eq!(dec.delta_t_max, 240_000);
    assert_eq!(dec.channels, 3);
    assert_eq!(dec.codec_version, 1);
    assert_eq!(dec.source_camera, SourceCamera::DavisU8);
    assert_eq!(dec.event_size, 10);
}

// Raw-codec event round trip: encode then decode reproduces the exact event.
#[test]
fn event_round_trip() {
    let mut stream = RawStream::new();
    stream.encode_header(640, 480, 150_000, 5000, 2_000_000, 3, 1, SourceCamera::FramedU8);
    let event = sample_event();
    stream.encode_event(&event).unwrap();
    let bytes = stream.take_output();
    assert_eq!(bytes.len(), HEADER_SIZE + 10);

    let mut dec = RawStream::new();
    dec.set_input(bytes);
    dec.decode_header().unwrap();
    let decoded = dec.decode_event().unwrap();
    assert_eq!(decoded, event);
    // the stream is exhausted afterwards
    assert_eq!(dec.decode_event(), Err(StreamError::Eof));
}

#[test]
fn event_round_trip_single_channel() {
    let mut stream = RawStream::new();
    stream.encode_header(100, 100, 1000, 100, 1000, 1, 1, SourceCamera::Dvs);
    let event = Event { coord: Coord { x: 3, y: 4, c: None }, d: 0xFF, delta_t: 42 };
    stream.encode_event(&event).unwrap();
    let bytes = stream.take_output();
    assert_eq!(bytes.len(), HEADER_SIZE + 9);

    let mut dec = RawStream::new();
    dec.set_input(bytes);
    dec.decode_header().unwrap();
    let decoded = dec.decode_event().unwrap();
    assert_eq!(decoded, event);
}

// Boundary: an out-of-plane coordinate or an over-large delta-t must fail,
// not silently truncate.
#[test]
fn encode_event_rejects_bad_coord_and_delta_t() {
    let mut stream = RawStream::new();
    stream.encode_header(10, 10, 1000, 100, 5000, 1, 1, SourceCamera::FramedU8);
    let before = stream.output.len();

    let off_plane_x = Event { coord: Coord { x: 10, y: 0, c: None }, d: 1, delta_t: 1 };
    assert_eq!(stream.encode_event(&off_plane_x), Err(StreamError::CoordOutOfBounds));

    let off_plane_y = Event { coord: Coord { x: 0, y: 10, c: None }, d: 1, delta_t: 1 };
    assert_eq!(stream.encode_event(&off_plane_y), Err(StreamError::CoordOutOfBounds));

    let too_slow = Event { coord: Coord { x: 0, y: 0, c: None }, d: 1, delta_t: 5001 };
    assert_eq!(stream.encode_event(&too_slow), Err(StreamError::DeltaTOutOfBounds));

    // nothing was appended by the failures
    assert_eq!(stream.output.len(), before);

    let at_limit = Event { coord: Coord { x: 9, y: 9, c: None }, d: 1, delta_t: 5000 };
    assert!(stream.encode_event(&at_limit).is_ok());
}

#[test]
fn encode_events_stops_at_first_invalid() {
    let mut stream = RawStream::new();
    stream.encode_header(10, 10, 1000, 100, 5000, 1, 1, SourceCamera::FramedU8);
    let good = Event { coord: Coord { x: 1, y: 1, c: None }, d: 1, delta_t: 1 };
    let bad = Event { coord: Coord { x: 99, y: 1, c: None }, d: 1, delta_t: 1 };
    let events = vec![good, bad, good];
    assert_eq!(stream.encode_events(&events), Err(StreamError::CoordOutOfBounds));
}

#[test]
fn eof_sentinel_ends_decoding() {
    let mut stream = RawStream::new();
    stream.encode_header(10, 10, 1000, 100, 5000, 1, 1, SourceCamera::FramedU8);
    let event = Event { coord: Coord { x: 1, y: 2, c: None }, d: 3, delta_t: 4 };
    stream.encode_event(&event).unwrap();
    stream.write_eof();
    let bytes = stream.take_output();

    let mut dec = RawStream::new();
    dec.set_input(bytes);
    dec.decode_header().unwrap();
    assert_eq!(dec.decode_event().unwrap(), event);
    assert_eq!(dec.decode_event(), Err(StreamError::Eof));
    // the sentinel carries the reserved address
    assert_eq!(EOF_PX_ADDRESS, u16::MAX);
}

#[test]
fn seek_checks_alignment() {
    let mut stream = RawStream::new();
    stream.encode_header(10, 10, 1000, 100, 5000, 1, 1, SourceCamera::FramedU8);
    let event = Event { coord: Coord { x: 1, y: 2, c: None }, d: 3, delta_t: 4 };
    stream.encode_event(&event).unwrap();
    stream.encode_event(&event).unwrap();
    let bytes = stream.take_output();
    let total = bytes.len();

    let mut dec = RawStream::new();
    dec.set_input(bytes);
    dec.decode_header().unwrap();
    // one event record is 9 bytes here
    assert_eq!(
        dec.set_input_stream_position((HEADER_SIZE + 1) as u64),
        Err(StreamError::UnalignedPosition)
    );
    assert_eq!(
        dec.set_input_stream_position((total + 9) as u64),
        Err(StreamError::PositionOutOfBounds)
    );
    assert!(dec.set_input_stream_position((HEADER_SIZE + 9) as u64).is_ok());
    assert_eq!(dec.get_input_stream_position().unwrap(), (HEADER_SIZE + 9) as u64);
    let second = dec.decode_event().unwrap();
    assert_eq!(second, event);
    assert_eq!(dec.get_eof_position().unwrap(), total);
}

#[test]
fn decode_header_rejects_bad_camera_tag() {
    let mut enc = RawStream::new();
    enc.encode_header(1, 1, 1, 1, 1, 1, 0, SourceCamera::FramedU8);
    let mut bytes = enc.take_output();
    let last = bytes.len() - 1;
    bytes[last] = 200;
    let mut dec = RawStream::new();
    dec.set_input(bytes);
    assert_eq!(dec.decode_header(), Err(StreamError::BadHeader));
}

#[test]
fn decode_header_short_input_is_eof() {
    let mut dec = RawStream::new();
    dec.set_input(vec![0u8; HEADER_SIZE - 1]);
    assert_eq!(dec.decode_header(), Err(StreamError::Eof));
}
