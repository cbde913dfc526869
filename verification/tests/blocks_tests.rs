use adder_codec::blocks::{set_event_for_channel, Block3, BlockError, Cube3, BLOCK_SIZE_BIG_AREA};
use adder_codec::{Coord, Event};

fn setup_event() -> Event {
    Event {
        coord: Coord { x: 0, y: 0, c: Some(0) },
        d: 7,
        delta_t: 100,
    }
}

#[test]
fn test_create_cube() {
    let cube = Cube3::new(0, 0, 0);
    assert_eq!(cube.blocks_r.len(), 1);
    assert_eq!(cube.blocks_g.len(), 1);
    assert_eq!(cube.blocks_b.len(), 1);
}

#[test]
fn test_set_event() {
    let mut cube = Cube3::new(0, 0, 0);
    let event = setup_event();

    assert!(cube.set_event(event).is_ok());
    assert_eq!(cube.block_idx_map_r[0], 1);
}

// Setting one event at (y=0, x=0, c=0) advances only the red channel's
// open-index map; the other two channels' vectors stay length 1, untouched.
#[test]
fn cube_set_event_isolates_channels() {
    let mut cube = Cube3::new(0, 0, 0);
    let event = setup_event();

    assert!(cube.set_event(event).is_ok());
    assert_eq!(cube.block_idx_map_r[0], 1);
    assert_eq!(cube.block_idx_map_g[0], 0);
    assert_eq!(cube.block_idx_map_b[0], 0);
    assert_eq!(cube.blocks_g.len(), 1);
    assert_eq!(cube.blocks_b.len(), 1);
    assert!(cube.blocks_g[0].events[0].is_none());
    assert!(cube.blocks_b[0].events[0].is_none());
    assert!(cube.blocks_r[0].events[0].is_some());
}

// A repeat visit to the same position opens a new block for it.
#[test]
fn cube_set_event_repeat_position_appends_block() {
    let mut cube = Cube3::new(0, 0, 0);
    let event = setup_event();

    assert!(cube.set_event(event).is_ok());
    assert_eq!(cube.blocks_r.len(), 1);
    assert!(cube.set_event(event).is_ok());
    assert_eq!(cube.blocks_r.len(), 2);
    assert_eq!(cube.block_idx_map_r[0], 2);
    assert!(cube.blocks_r[1].events[0].is_some());
}

// An event naming a channel the cube does not have is rejected with the
// typed error, and the cube is untouched.
#[test]
fn cube_set_event_rejects_invalid_channel() {
    let mut cube = Cube3::new(0, 0, 0);
    let mut event = setup_event();
    event.coord.c = Some(3);
    assert_eq!(cube.set_event(event), Err(BlockError::InvalidChannel));
    assert_eq!(cube.blocks_r.len(), 1);
    assert_eq!(cube.block_idx_map_r[0], 0);
    assert!(cube.blocks_r[0].events[0].is_none());
}

// Writing an occupied slot of the open block is an error and changes nothing.
#[test]
fn block_set_event_already_exists() {
    let mut block = Block3::new(0, 0, 0);
    let event = setup_event();
    assert!(block.set_event(&event, 3).is_ok());
    let r = block.set_event(&event, 3);
    assert_eq!(r, Err(BlockError::AlreadyExists { idx: 3 }));
}

#[test]
fn channel_write_routes_by_event_channel() {
    let mut cube = Cube3::new(0, 0, 0);
    let mut event = setup_event();
    event.coord.c = Some(1);
    event.coord.x = 2;
    event.coord.y = 1;
    assert!(cube.set_event(event).is_ok());
    // position 1 * 16 + 2 within the green channel
    assert_eq!(cube.block_idx_map_g[18], 1);
    assert!(cube.blocks_g[0].events[18].is_some());
    assert_eq!(cube.block_idx_map_r[18], 0);
}

#[test]
fn set_event_for_channel_direct() {
    let mut blocks = vec![Block3::new(0, 0, 0)];
    let mut map = vec![0usize; BLOCK_SIZE_BIG_AREA];
    let event = setup_event();
    assert!(set_event_for_channel(&mut blocks, &mut map, event, 5).is_ok());
    assert_eq!(map[5], 1);
    let r = set_event_for_channel(&mut blocks, &mut map, event, 5);
    assert!(r.is_ok());
    assert_eq!(blocks.len(), 2);
    assert_eq!(map[5], 2);
}
