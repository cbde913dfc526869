use adder_codec::blocks::{Block3, Cube3, BLOCK_SIZE_BIG};
use adder_codec::compression::{
    CompressionError, CompressionModelDecoder, CompressionModelEncoder, SYMBOL_FLUSH,
};
use adder_codec::{Coord, Event};

fn filled_cube(seed: u64) -> Cube3 {
    // a deterministic pseudo-random block's worth of events
    let mut cube = Cube3::new(0, 0, 0);
    let mut state = seed;
    for y in 0..BLOCK_SIZE_BIG {
        for x in 0..BLOCK_SIZE_BIG {
            state = state.wrapping_mul(6364136223846793005).wrapping_add(1442695040888963407);
            let d = (state >> 33) as u8 % 20;
            let delta_t = 1 + (state >> 40) as u32 % 2549;
            let event = Event {
                coord: Coord { y: y as u16, x: x as u16, c: Some(0) },
                d,
                delta_t,
            };
            assert!(cube.set_event(event).is_ok());
        }
    }
    cube
}

// Round trip: encoding a block through the compression model and decoding
// it yields a block identical per slot, including emptiness.
#[test]
fn block_round_trip() {
    let cube = filled_cube(42);
    let block = &cube.blocks_r[0];

    let mut model = CompressionModelEncoder::new(2550, 255);
    model.encode_block(block).unwrap();
    model.flush_encoder();
    let bytes = model.take_output();

    let mut decoder = CompressionModelDecoder::new(2550, 255, bytes);
    let mut out = Block3::new(0, 0, 0);
    decoder.decode_block(&mut out).unwrap();
    assert!(decoder.check_eof());

    for i in 0..block.events.len() {
        assert_eq!(block.events[i], out.events[i]);
    }
}

// A partially-filled block round trips too, empty slots included.
#[test]
fn sparse_block_round_trip() {
    let mut cube = Cube3::new(0, 0, 0);
    for (x, y) in [(0u16, 0u16), (3, 2), (15, 15), (7, 8)] {
        let event = Event { coord: Coord { x, y, c: Some(1) }, d: 7, delta_t: 100 + x as u32 };
        assert!(cube.set_event(event).is_ok());
    }
    let block = &cube.blocks_g[0];

    let mut model = CompressionModelEncoder::new(2550, 255);
    model.encode_block(block).unwrap();
    model.flush_encoder();
    let bytes = model.take_output();

    let mut decoder = CompressionModelDecoder::new(2550, 255, bytes);
    let mut out = Block3::new(0, 0, 0);
    decoder.decode_block(&mut out).unwrap();
    for i in 0..block.events.len() {
        assert_eq!(block.events[i], out.events[i]);
    }
}

// A slot whose delta-t exceeds the model's maximum is rejected and nothing
// is emitted.
#[test]
fn encode_block_rejects_out_of_bounds() {
    let mut cube = Cube3::new(0, 0, 0);
    let event = Event { coord: Coord { x: 0, y: 0, c: Some(0) }, d: 5, delta_t: 5000 };
    assert!(cube.set_event(event).is_ok());

    let mut model = CompressionModelEncoder::new(2550, 255);
    let r = model.encode_block(&cube.blocks_r[0]);
    assert_eq!(r, Err(CompressionError::ValueOutOfBounds));
    assert!(model.take_output().is_empty());
}

#[test]
fn decode_block_short_input_is_eof() {
    let mut decoder = CompressionModelDecoder::new(2550, 255, vec![0u8; 10]);
    let mut out = Block3::new(0, 0, 0);
    assert_eq!(decoder.decode_block(&mut out), Err(CompressionError::Eof));
}

#[test]
fn decode_block_unknown_symbol_is_malformed() {
    // the flush symbol inside a block's symbols desynchronizes the stream
    let mut decoder = CompressionModelDecoder::new(2550, 255, vec![SYMBOL_FLUSH; 300]);
    let mut out = Block3::new(0, 0, 0);
    assert_eq!(decoder.decode_block(&mut out), Err(CompressionError::Malformed));
}

// Two blocks coded back to back decode in order from one stream.
#[test]
fn two_blocks_in_one_stream() {
    let cube_a = filled_cube(1);
    let cube_b = filled_cube(2);
    let mut model = CompressionModelEncoder::new(2550, 255);
    model.encode_block(&cube_a.blocks_r[0]).unwrap();
    model.encode_block(&cube_b.blocks_r[0]).unwrap();
    model.flush_encoder();
    let bytes = model.take_output();

    let mut decoder = CompressionModelDecoder::new(2550, 255, bytes);
    let mut out_a = Block3::new(0, 0, 0);
    let mut out_b = Block3::new(0, 0, 0);
    decoder.decode_block(&mut out_a).unwrap();
    decoder.decode_block(&mut out_b).unwrap();
    assert!(decoder.check_eof());
    for i in 0..256 {
        assert_eq!(out_a.events[i], cube_a.blocks_r[0].events[i]);
        assert_eq!(out_b.events[i], cube_b.blocks_r[0].events[i]);
    }
}
