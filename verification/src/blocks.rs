//! Spatial aggregation of events into fixed-size square blocks and
//! per-channel cubes, the unit fed to the block compression model.
//!
//! A block holds one optional coordless event per pixel position; a cube
//! holds one growable vector of blocks per color channel together with a
//! per-position map of which block in the vector is currently open for
//! writing at that position.

use vstd::prelude::*;

use crate::{Event, EventCoordless};

verus! {

/// Side length of a big block, in pixels.
pub const BLOCK_SIZE_BIG: usize = 16;

/// Number of pixel positions in a big block.
pub const BLOCK_SIZE_BIG_AREA: usize = 256;

/// The error returned when event aggregation cannot accept a write.
#[derive(Debug, Copy, Clone, PartialEq, Eq, Structural)]
pub enum BlockError {
    /// An event already occupies the target slot of the open block.
    AlreadyExists { idx: usize },
    /// The event names a color channel the cube does not have.
    InvalidChannel,
}

impl BlockError {
    /// A human-readable description of the error.
    pub fn message(&self) -> String {
        match self {
            BlockError::AlreadyExists { idx: _ } => String::from_str(
                "event already exists at this index for this block",
            ),
            BlockError::InvalidChannel => String::from_str("invalid color channel"),
        }
    }
}

/// A fixed-size square grid of optional coordless events, one slot per pixel
/// position inside the block.
pub struct Block3 {
    pub events: Vec<Option<EventCoordless>>,
}

impl Block3 {
    /// A block is well-formed when it has exactly one slot per position.
    pub open spec fn wf(&self) -> bool {
        self.events.len() == BLOCK_SIZE_BIG_AREA
    }

    /// Builds an empty block. The grid indices of the block within its cube
    /// are implied by its position in the cube's vectors.
    pub fn new(_block_idx_y: usize, _block_idx_x: usize, _block_idx_c: usize) -> (r: Self)
        ensures
            r.wf(),
            forall|i: int| 0 <= i < BLOCK_SIZE_BIG_AREA ==> r.events[i] is None,
    {
        let mut events: Vec<Option<EventCoordless>> = Vec::new();
        let mut i: usize = 0;
        while i < BLOCK_SIZE_BIG_AREA
            invariant
                i <= BLOCK_SIZE_BIG_AREA,
                events.len() == i,
                forall|j: int| 0 <= j < i ==> events[j] is None,
            decreases BLOCK_SIZE_BIG_AREA - i,
        {
            events.push(None);
            i = i + 1;
        }
        Block3 { events }
    }

    /// Writes an event into slot `idx`, failing if the slot is occupied.
    /// A slot is written at most once per block.
    pub fn set_event(&mut self, event: &Event, idx: usize) -> (r: Result<(), BlockError>)
        requires
            old(self).wf(),
            idx < BLOCK_SIZE_BIG_AREA,
        ensures
            final(self).wf(),
            r is Ok <==> old(self).events[idx as int] is None,
            r is Ok ==> final(self).events@ == old(self).events@.update(
                idx as int,
                Some(EventCoordless { d: event.d, delta_t: event.delta_t }),
            ),
            r is Err ==> *final(self) == *old(self) && r == Err::<(), BlockError>(
                BlockError::AlreadyExists { idx },
            ),
    {
        match self.events[idx] {
            Some(_) => Err(BlockError::AlreadyExists { idx }),
            None => {
                self.events.set(idx, Some(EventCoordless { d: event.d, delta_t: event.delta_t }));
                Ok(())
            },
        }
    }
}

/// The exact effect of writing one event at a position into a channel:
/// when every block so far is closed at the position, a fresh block is
/// appended and receives the event; when the open block's slot is free it
/// receives the event; otherwise nothing changes and the write fails. On
/// success the position's open-block index advances by one.
pub open spec fn spec_channel_set(
    pre_vec: Seq<Block3>,
    pre_map: Seq<usize>,
    post_vec: Seq<Block3>,
    post_map: Seq<usize>,
    event: Event,
    idx: int,
    ok: bool,
) -> bool {
    let j = pre_map[idx] as int;
    if j == pre_vec.len() {
        &&& ok
        &&& post_vec.len() == pre_vec.len() + 1
        &&& forall|k: int| 0 <= k < pre_vec.len() ==> #[trigger] post_vec[k] == pre_vec[k]
        &&& post_vec[j].events[idx] == Some(
            EventCoordless { d: event.d, delta_t: event.delta_t },
        )
        &&& post_vec[j].events.len() == BLOCK_SIZE_BIG_AREA
        &&& forall|p: int|
            0 <= p < BLOCK_SIZE_BIG_AREA && p != idx ==> #[trigger] post_vec[j].events[p] is None
        &&& post_map == pre_map.update(idx, (j + 1) as usize)
    } else if pre_vec[j].events[idx] is None {
        &&& ok
        &&& post_vec.len() == pre_vec.len()
        &&& forall|k: int|
            0 <= k < pre_vec.len() && k != j ==> #[trigger] post_vec[k] == pre_vec[k]
        &&& post_vec[j].events@ == pre_vec[j].events@.update(
            idx,
            Some(EventCoordless { d: event.d, delta_t: event.delta_t }),
        )
        &&& post_map == pre_map.update(idx, (j + 1) as usize)
    } else {
        &&& !ok
        &&& post_vec == pre_vec
        &&& post_map == pre_map
    }
}

/// Writes an event at position `idx` into the channel's currently open block,
/// appending a fresh block when every block so far has been closed for that
/// position, and advancing the position's open-block index on success.
pub fn set_event_for_channel(
    block_vec: &mut Vec<Block3>,
    block_idx_map: &mut Vec<usize>,
    event: Event,
    idx: usize,
) -> (r: Result<(), BlockError>)
    requires
        idx < BLOCK_SIZE_BIG_AREA,
        channel_wf(old(block_vec), old(block_idx_map)),
    ensures
        channel_wf(final(block_vec), final(block_idx_map)),
        final(block_idx_map).len() == old(block_idx_map).len(),
        spec_channel_set(
            old(block_vec)@,
            old(block_idx_map)@,
            final(block_vec)@,
            final(block_idx_map)@,
            event,
            idx as int,
            r is Ok,
        ),
        r is Err ==> r == Err::<(), BlockError>(BlockError::AlreadyExists { idx }),
{
    assert(old(block_idx_map)[idx as int] <= old(block_vec).len());
    if block_idx_map[idx] >= block_vec.len() {
        block_vec.push(Block3::new(0, 0, 0));
    }
    let j = block_idx_map[idx];
    assert(j < block_vec.len());
    let res = {
        let block = &mut block_vec[j];
        block.set_event(&event, idx)
    };
    match res {
        Ok(_) => {
            block_idx_map.set(idx, j + 1);
            Ok(())
        },
        Err(e) => {
            proof {
                assert(block_vec@ =~= old(block_vec)@);
                assert(block_idx_map@ =~= old(block_idx_map)@);
            }
            Err(e)
        },
    }
}

/// Well-formedness of one channel of a cube: a full-size open-block map whose
/// entries never run past the block vector, a non-empty block vector, and
/// well-formed blocks.
pub open spec fn channel_wf(block_vec: &Vec<Block3>, block_idx_map: &Vec<usize>) -> bool {
    &&& block_idx_map.len() == BLOCK_SIZE_BIG_AREA
    &&& block_vec.len() >= 1
    &&& forall|i: int|
        0 <= i < BLOCK_SIZE_BIG_AREA ==> #[trigger] block_idx_map[i] <= block_vec.len()
    &&& forall|k: int| 0 <= k < block_vec.len() ==> (#[trigger] block_vec[k]).wf()
}

/// A block's full temporal history for one spatial tile: one vector of blocks
/// per color channel, with the per-position open-block maps.
pub struct Cube3 {
    pub blocks_r: Vec<Block3>,
    pub blocks_g: Vec<Block3>,
    pub blocks_b: Vec<Block3>,
    pub cube_idx_y: usize,
    pub cube_idx_x: usize,
    pub cube_idx_c: usize,
    pub block_idx_map_r: Vec<usize>,
    pub block_idx_map_g: Vec<usize>,
    pub block_idx_map_b: Vec<usize>,
}

impl Cube3 {
    /// A cube is well-formed when each of its three channels is.
    pub open spec fn wf(&self) -> bool {
        &&& channel_wf(&self.blocks_r, &self.block_idx_map_r)
        &&& channel_wf(&self.blocks_g, &self.block_idx_map_g)
        &&& channel_wf(&self.blocks_b, &self.block_idx_map_b)
    }

    /// Builds a cube with one empty block per channel and every open-block
    /// index at zero.
    pub fn new(cube_idx_y: usize, cube_idx_x: usize, cube_idx_c: usize) -> (r: Self)
        ensures
            r.wf(),
            r.blocks_r.len() == 1 && r.blocks_g.len() == 1 && r.blocks_b.len() == 1,
            forall|i: int| 0 <= i < BLOCK_SIZE_BIG_AREA ==> r.block_idx_map_r[i] == 0,
            forall|i: int| 0 <= i < BLOCK_SIZE_BIG_AREA ==> r.block_idx_map_g[i] == 0,
            forall|i: int| 0 <= i < BLOCK_SIZE_BIG_AREA ==> r.block_idx_map_b[i] == 0,
            r.cube_idx_y == cube_idx_y && r.cube_idx_x == cube_idx_x && r.cube_idx_c == cube_idx_c,
            forall|i: int| 0 <= i < BLOCK_SIZE_BIG_AREA ==> r.blocks_r[0].events[i] is None,
            forall|i: int| 0 <= i < BLOCK_SIZE_BIG_AREA ==> r.blocks_g[0].events[i] is None,
            forall|i: int| 0 <= i < BLOCK_SIZE_BIG_AREA ==> r.blocks_b[0].events[i] is None,
    {
        let mut blocks_r: Vec<Block3> = Vec::new();
        blocks_r.push(Block3::new(0, 0, 0));
        let mut blocks_g: Vec<Block3> = Vec::new();
        blocks_g.push(Block3::new(0, 0, 0));
        let mut blocks_b: Vec<Block3> = Vec::new();
        blocks_b.push(Block3::new(0, 0, 0));
        let mut map_r: Vec<usize> = Vec::new();
        let mut map_g: Vec<usize> = Vec::new();
        let mut map_b: Vec<usize> = Vec::new();
        let mut i: usize = 0;
        while i < BLOCK_SIZE_BIG_AREA
            invariant
                i <= BLOCK_SIZE_BIG_AREA,
                map_r.len() == i && map_g.len() == i && map_b.len() == i,
                forall|j: int| 0 <= j < i ==> map_r[j] == 0,
                forall|j: int| 0 <= j < i ==> map_g[j] == 0,
                forall|j: int| 0 <= j < i ==> map_b[j] == 0,
            decreases BLOCK_SIZE_BIG_AREA - i,
        {
            map_r.push(0);
            map_g.push(0);
            map_b.push(0);
            i = i + 1;
        }
        Cube3 {
            blocks_r,
            blocks_g,
            blocks_b,
            cube_idx_y,
            cube_idx_x,
            cube_idx_c,
            block_idx_map_r: map_r,
            block_idx_map_g: map_g,
            block_idx_map_b: map_b,
        }
    }

    /// The in-block position and channel an event addresses, relative to this
    /// cube's origin.
    pub open spec fn spec_block_idx(&self, event: Event) -> (int, int) {
        (
            (event.coord.y - (self.cube_idx_y as int) / (BLOCK_SIZE_BIG as int)) * (
            BLOCK_SIZE_BIG as int) + (event.coord.x - (self.cube_idx_x as int) / (
            BLOCK_SIZE_BIG as int)),
            match event.coord.c {
                Some(c) => c as int,
                None => 0,
            },
        )
    }

    /// Whether an event's coordinate lands inside this cube's block grid,
    /// whatever channel it names.
    pub open spec fn coord_in_range(&self, event: Event) -> bool {
        let idx = self.spec_block_idx(event).0;
        let origin_y = (self.cube_idx_y as int) / (BLOCK_SIZE_BIG as int);
        let origin_x = (self.cube_idx_x as int) / (BLOCK_SIZE_BIG as int);
        &&& event.coord.y >= origin_y
        &&& event.coord.x >= origin_x
        &&& event.coord.x - origin_x < (BLOCK_SIZE_BIG as int)
        &&& 0 <= idx
        &&& idx < (BLOCK_SIZE_BIG_AREA as int)
    }

    /// Whether an event's coordinate lands inside this cube's block grid with
    /// a channel the cube has.
    pub open spec fn event_in_range(&self, event: Event) -> bool {
        let c = self.spec_block_idx(event).1;
        &&& self.coord_in_range(event)
        &&& 0 <= c
        &&& c < 3
    }

    /// Computes the in-block position index and the channel of an event.
    pub fn event_coord_to_block_idx(&self, event: &Event) -> (r: (usize, usize))
        requires
            self.event_in_range(*event),
        ensures
            r.0 as int == self.spec_block_idx(*event).0,
            r.1 as int == self.spec_block_idx(*event).1,
            r.0 < BLOCK_SIZE_BIG_AREA,
            r.1 < 3,
    {
        let idx_y = event.coord.y as usize - (self.cube_idx_y / BLOCK_SIZE_BIG);
        let idx_x = event.coord.x as usize - (self.cube_idx_x / BLOCK_SIZE_BIG);
        let c: usize = match event.coord.c {
            Some(c) => c as usize,
            None => 0,
        };
        (idx_y * BLOCK_SIZE_BIG + idx_x, c)
    }

    /// Routes an event to its channel's block vector, writing it into the
    /// currently open block at the event's position. An event naming a
    /// channel the cube does not have is rejected with `InvalidChannel`
    /// and changes nothing.
    pub fn set_event(&mut self, event: Event) -> (r: Result<(), BlockError>)
        requires
            old(self).wf(),
            old(self).coord_in_range(event),
        ensures
            final(self).wf(),
            final(self).cube_idx_y == old(self).cube_idx_y,
            final(self).cube_idx_x == old(self).cube_idx_x,
            ({
                let pre = *old(self);
                let post = *final(self);
                let idx = pre.spec_block_idx(event).0;
                let c = pre.spec_block_idx(event).1;
                &&& (c >= 3 <==> r == Err::<(), BlockError>(BlockError::InvalidChannel))
                &&& (c == 0 ==> post.blocks_g == pre.blocks_g && post.blocks_b == pre.blocks_b
                    && post.block_idx_map_g == pre.block_idx_map_g && post.block_idx_map_b
                    == pre.block_idx_map_b)
                &&& (c == 1 ==> post.blocks_r == pre.blocks_r && post.blocks_b == pre.blocks_b
                    && post.block_idx_map_r == pre.block_idx_map_r && post.block_idx_map_b
                    == pre.block_idx_map_b)
                &&& (c == 2 ==> post.blocks_r == pre.blocks_r && post.blocks_g == pre.blocks_g
                    && post.block_idx_map_r == pre.block_idx_map_r && post.block_idx_map_g
                    == pre.block_idx_map_g)
                &&& (c == 0 && r is Ok ==> post.block_idx_map_r[idx] == pre.block_idx_map_r[idx]
                    + 1)
                &&& (c == 1 && r is Ok ==> post.block_idx_map_g[idx] == pre.block_idx_map_g[idx]
                    + 1)
                &&& (c == 2 && r is Ok ==> post.block_idx_map_b[idx] == pre.block_idx_map_b[idx]
                    + 1)
                &&& (c == 0 ==> spec_channel_set(
                    pre.blocks_r@,
                    pre.block_idx_map_r@,
                    post.blocks_r@,
                    post.block_idx_map_r@,
                    event,
                    idx,
                    r is Ok,
                ))
                &&& (c == 1 ==> spec_channel_set(
                    pre.blocks_g@,
                    pre.block_idx_map_g@,
                    post.blocks_g@,
                    post.block_idx_map_g@,
                    event,
                    idx,
                    r is Ok,
                ))
                &&& (c == 2 ==> spec_channel_set(
                    pre.blocks_b@,
                    pre.block_idx_map_b@,
                    post.blocks_b@,
                    post.block_idx_map_b@,
                    event,
                    idx,
                    r is Ok,
                ))
                &&& (c < 3 && r is Err ==> r == Err::<(), BlockError>(
                    BlockError::AlreadyExists { idx: idx as usize },
                ))
                &&& (r is Err ==> post.blocks_r@ == pre.blocks_r@ && post.blocks_g@
                    == pre.blocks_g@ && post.blocks_b@ == pre.blocks_b@ && post.block_idx_map_r@
                    == pre.block_idx_map_r@ && post.block_idx_map_g@ == pre.block_idx_map_g@
                    && post.block_idx_map_b@ == pre.block_idx_map_b@)
                &&& ({
                    // With a valid channel, success exactly when the open
                    // block's slot is free (a fresh block is always free).
                    let open_free = if c == 0 {
                        pre.block_idx_map_r[idx] == pre.blocks_r.len()
                            || pre.blocks_r[pre.block_idx_map_r[idx] as int].events[idx] is None
                    } else if c == 1 {
                        pre.block_idx_map_g[idx] == pre.blocks_g.len()
                            || pre.blocks_g[pre.block_idx_map_g[idx] as int].events[idx] is None
                    } else {
                        pre.block_idx_map_b[idx] == pre.blocks_b.len()
                            || pre.blocks_b[pre.block_idx_map_b[idx] as int].events[idx] is None
                    };
                    c < 3 ==> (r is Ok <==> open_free)
                })
            }),
    {
        let channel_valid = match event.coord.c {
            Some(c) => c <= 2,
            None => true,
        };
        if !channel_valid {
            return Err(BlockError::InvalidChannel);
        }
        let (idx, c) = self.event_coord_to_block_idx(&event);
        if c == 0 {
            set_event_for_channel(&mut self.blocks_r, &mut self.block_idx_map_r, event, idx)
        } else if c == 1 {
            set_event_for_channel(&mut self.blocks_g, &mut self.block_idx_map_g, event, idx)
        } else {
            set_event_for_channel(&mut self.blocks_b, &mut self.block_idx_map_b, event, idx)
        }
    }
}

} // verus!
