use adder_codec::framer::{FrameSequenceError, FramedViewMode, FramerBuilder, FramerMode, SourceType};
use adder_codec::{Coord, Event, PlaneSize, SourceCamera};

fn event(x: u16, y: u16, c: Option<u8>, d: u8, delta_t: u32) -> Event {
    Event { coord: Coord { x, y, c }, d, delta_t }
}

// Frame driver scenario: a 10x10x3 plane in a single 64-row chunk at
// 150000 ticks per second and 30 output frames per second gives 5000
// ticks per frame; one event maps to its intensity at (5,5,1) and every
// other pixel stays unset.
#[test]
fn single_event_sets_one_pixel() {
    let plane = PlaneSize::new(10, 10, 3).unwrap();
    let mut fs = FramerBuilder::new(plane, 64)
        .codec_version(1)
        .mode(FramerMode::INSTANTANEOUS)
        .source(SourceType::U8, SourceCamera::FramedU8)
        .finish();
    assert_eq!(fs.tpf, 5000);
    assert_eq!(fs.get_frame_chunks_num(), 1);

    let mut ev = event(5, 5, Some(1), 5, 1000);
    fs.ingest_event(&mut ev);
    // 2^5 intensity over 1000 ticks, scaled by the 5000-tick reference
    // interval: 32 * 5000 / 1000
    assert_eq!(*fs.px_at_current(5, 5, 1).unwrap(), Some(160));
    for y in 0..10 {
        for x in 0..10 {
            for c in 0..3 {
                if (y, x, c) != (5, 5, 1) {
                    assert_eq!(*fs.px_at_current(y, x, c).unwrap(), None);
                }
            }
        }
    }
}

// The reference-interval scaling: with 1000 ticks per frame and a
// 1000-tick reference interval, a d=5 event over 1000 ticks shows 32.
#[test]
fn intensity_scaling_against_reference_interval() {
    let plane = PlaneSize::new(10, 10, 3).unwrap();
    let mut fs = FramerBuilder::new(plane, 64)
        .codec_version(1)
        .time_parameters(50000, 1000, 1000, 50)
        .mode(FramerMode::INSTANTANEOUS)
        .source(SourceType::U8, SourceCamera::FramedU8)
        .finish();
    assert_eq!(fs.tpf, 1000);
    let mut ev = event(5, 5, Some(1), 5, 1000);
    fs.ingest_event(&mut ev);
    assert_eq!(*fs.px_at_current(5, 5, 1).unwrap(), Some(32));
}

// Frame driver scenario: events that exactly fill every pixel slot of the
// first frame make ingest_event return true exactly once, on the filling
// event, and is_frame_0_filled becomes true.
#[test]
fn filling_first_frame_reports_true_once() {
    let plane = PlaneSize::new(2, 2, 1).unwrap();
    let mut fs = FramerBuilder::new(plane, 64)
        .codec_version(1)
        .time_parameters(1000, 100, 1000, 10)
        .mode(FramerMode::INSTANTANEOUS)
        .source(SourceType::U8, SourceCamera::Dvs)
        .finish();
    assert_eq!(fs.tpf, 100);
    assert!(!fs.is_frame_0_filled());

    let mut true_count = 0;
    let mut last_was_true = false;
    for (i, (x, y)) in [(0u16, 0u16), (1, 0), (0, 1), (1, 1)].iter().enumerate() {
        let mut ev = event(*x, *y, None, 5, 100);
        let filled = fs.ingest_event(&mut ev);
        if filled {
            true_count += 1;
            last_was_true = i == 3;
        }
    }
    assert_eq!(true_count, 1);
    assert!(last_was_true);
    assert!(fs.is_frame_0_filled());
    assert_eq!(fs.is_frame_filled(0), Ok(true));
}

// An empty event (d = 0xFF) carries the previous intensity forward into
// the next frame.
#[test]
fn empty_event_carries_intensity_forward() {
    let plane = PlaneSize::new(1, 1, 1).unwrap();
    let mut fs = FramerBuilder::new(plane, 64)
        .codec_version(1)
        .time_parameters(1000, 100, 1000, 10)
        .mode(FramerMode::INSTANTANEOUS)
        .source(SourceType::U8, SourceCamera::Dvs)
        .finish();
    let mut ev1 = event(0, 0, None, 5, 100);
    fs.ingest_event(&mut ev1);
    // 32 * 100 / 100
    assert_eq!(*fs.px_at_current(0, 0, 0).unwrap(), Some(32));
    let mut ev2 = event(0, 0, None, 0xFF, 100);
    fs.ingest_event(&mut ev2);
    assert_eq!(*fs.px_at_frame(0, 0, 0, 1).unwrap(), Some(32));
}

#[test]
fn px_at_frame_rejects_out_of_range_index() {
    let plane = PlaneSize::new(2, 2, 1).unwrap();
    let fs = FramerBuilder::new(plane, 64)
        .source(SourceType::U8, SourceCamera::FramedU8)
        .finish();
    assert_eq!(fs.px_at_frame(0, 0, 0, 5), Err(FrameSequenceError::InvalidIndex));
    assert_eq!(fs.is_frame_filled(5), Err(FrameSequenceError::InvalidIndex));
    assert_eq!(fs.is_frame_filled(0), Ok(false));
}

#[test]
fn chunked_plane_rebases_rows() {
    let plane = PlaneSize::new(10, 10, 1).unwrap();
    let mut fs = FramerBuilder::new(plane, 4)
        .codec_version(1)
        .time_parameters(1000, 100, 1000, 10)
        .mode(FramerMode::INSTANTANEOUS)
        .source(SourceType::U8, SourceCamera::Dvs)
        .finish();
    // chunks of 4, 4 and 2 rows
    assert_eq!(fs.get_frame_chunks_num(), 3);
    let mut ev = event(3, 9, None, 5, 100);
    fs.ingest_event(&mut ev);
    // the event's row was rebased into the last chunk
    assert_eq!(ev.coord.y, 1);
    assert_eq!(*fs.px_at_current(9, 3, 0).unwrap(), Some(32));
}

#[test]
fn pop_replenishes_the_queue() {
    let plane = PlaneSize::new(2, 2, 1).unwrap();
    let mut fs = FramerBuilder::new(plane, 64)
        .source(SourceType::U8, SourceCamera::FramedU8)
        .finish();
    let popped = fs.pop_next_frame_for_chunk(0).unwrap();
    assert_eq!(popped.filled_count, 0);
    assert_eq!(popped.array.len(), 4);
    // a pending frame always exists
    assert!(fs.px_at_current(0, 0, 0).is_ok());
}

#[test]
fn write_frame_bytes_serializes_with_default_fill() {
    let plane = PlaneSize::new(2, 2, 1).unwrap();
    let mut fs = FramerBuilder::new(plane, 64)
        .codec_version(1)
        .time_parameters(1000, 100, 1000, 10)
        .mode(FramerMode::INSTANTANEOUS)
        .source(SourceType::U8, SourceCamera::Dvs)
        .finish();
    let mut ev = event(1, 0, None, 5, 100);
    fs.ingest_event(&mut ev);
    let bytes = fs.write_frame_bytes().unwrap();
    // one byte per pixel slot; unfilled slots serialize as zero
    assert_eq!(bytes, vec![0, 32, 0, 0]);
    assert_eq!(fs.frames_written, 1);
}

#[test]
fn write_multi_frame_bytes_drains_filled_frames() {
    let plane = PlaneSize::new(1, 1, 1).unwrap();
    let mut fs = FramerBuilder::new(plane, 64)
        .codec_version(1)
        .time_parameters(1000, 100, 1000, 10)
        .mode(FramerMode::INSTANTANEOUS)
        .source(SourceType::U8, SourceCamera::Dvs)
        .finish();
    // one event reaching frame index 2 fills frames 0 through 2
    let mut ev = event(0, 0, None, 5, 300);
    fs.ingest_event(&mut ev);
    let (count, bytes) = fs.write_multi_frame_bytes().unwrap();
    assert_eq!(count, 3);
    // 32 * 100 / 300 truncates to 10
    assert_eq!(bytes, vec![10, 10, 10]);
}

#[test]
fn batched_ingestion_matches_chunk_partition() {
    let plane = PlaneSize::new(2, 2, 1).unwrap();
    let mut fs = FramerBuilder::new(plane, 1)
        .codec_version(1)
        .time_parameters(1000, 100, 1000, 10)
        .mode(FramerMode::INSTANTANEOUS)
        .source(SourceType::U8, SourceCamera::Dvs)
        .finish();
    assert_eq!(fs.get_frame_chunks_num(), 2);
    let groups = vec![
        vec![event(0, 0, None, 5, 100), event(1, 0, None, 5, 100)],
        vec![event(0, 1, None, 5, 100), event(1, 1, None, 5, 100)],
    ];
    let filled = fs.ingest_events_events(groups);
    assert!(filled);
    assert!(fs.is_frame_0_filled());
    assert_eq!(*fs.px_at_current(1, 1, 0).unwrap(), Some(32));
}

#[test]
fn view_modes_map_d_and_delta_t() {
    let plane = PlaneSize::new(1, 1, 1).unwrap();
    let mut fs = FramerBuilder::new(plane, 64)
        .codec_version(1)
        .time_parameters(1000, 100, 200, 10)
        .view_mode(FramedViewMode::D)
        .source(SourceType::U8, SourceCamera::Dvs)
        .finish();
    let mut ev = event(0, 0, None, 5, 100);
    fs.ingest_event(&mut ev);
    assert_eq!(*fs.px_at_current(0, 0, 0).unwrap(), Some(5));

    let mut fs2 = FramerBuilder::new(plane, 64)
        .codec_version(1)
        .time_parameters(1000, 100, 200, 10)
        .view_mode(FramedViewMode::DeltaT)
        .source(SourceType::U8, SourceCamera::Dvs)
        .finish();
    let mut ev2 = event(0, 0, None, 5, 100);
    fs2.ingest_event(&mut ev2);
    // 100 * 255 / 200 truncates to 127
    assert_eq!(*fs2.px_at_current(0, 0, 0).unwrap(), Some(127));
}

#[test]
fn framed_source_rounds_timestamp_up() {
    // with a framed camera and codec version > 0, a timestamp that does
    // not land on a reference-interval boundary is rounded up, halving
    // the event rate with no precision loss
    let plane = PlaneSize::new(1, 1, 1).unwrap();
    let mut fs = FramerBuilder::new(plane, 64)
        .codec_version(1)
        .time_parameters(1000, 100, 1000, 10)
        .mode(FramerMode::INSTANTANEOUS)
        .source(SourceType::U8, SourceCamera::FramedU8)
        .finish();
    // 150 ticks rounds up to 200; the next 100-tick event reaches 300,
    // crossing into frame index 2 and filling frames 0 and 1
    let mut ev1 = event(0, 0, None, 5, 150);
    fs.ingest_event(&mut ev1);
    let mut ev2 = event(0, 0, None, 5, 100);
    fs.ingest_event(&mut ev2);
    assert!(fs.px_at_frame(0, 0, 0, 1).unwrap().is_some());
}
