//! The state of one run, and the rules by which frames advance it.

use vstd::prelude::*;
use crate::canvas::{Fill, BLOCK_PIXELS, MILLI};

verus! {

/// The height of the highest segment of `landscape`, and zero where none
/// rises above zero.
pub open spec fn highest(landscape: Seq<i64>) -> int
    decreases landscape.len(),
{
    if landscape.len() == 0 {
        0
    } else {
        let below = highest(landscape.drop_last());
        if landscape.last() > below {
            landscape.last() as int
        } else {
            below
        }
    }
}

/// `highest` is an upper bound of the landscape and of zero, and is zero or
/// the height of one of the segments.
pub proof fn lemma_highest(landscape: Seq<i64>)
    ensures
        highest(landscape) >= 0,
        forall|i: int| 0 <= i < landscape.len() ==> landscape[i] <= highest(landscape),
        highest(landscape) == 0 || exists|i: int|
            0 <= i < landscape.len() && landscape[i] == highest(landscape),
    decreases landscape.len(),
{
    if landscape.len() > 0 {
        let front = landscape.drop_last();
        lemma_highest(front);
        assert forall|i: int| 0 <= i < landscape.len() implies landscape[i] <= highest(
            landscape,
        ) by {
            if i < front.len() {
                assert(front[i] == landscape[i]);
            }
        }
        if highest(landscape) != 0 {
            if landscape.last() > highest(front) {
                assert(landscape[landscape.len() - 1] == highest(landscape));
            } else {
                let i = choose|i: int| 0 <= i < front.len() && front[i] == highest(front);
                assert(landscape[i] == highest(landscape));
            }
        }
    }
}

/// The smallest number of whole blocks that reach up to `height`, a height in
/// thousandths of a block.
pub open spec fn whole_blocks(height: int) -> int {
    (height + (MILLI - 1)) / (MILLI as int)
}

/// The canvas is as many pixels wide as `segments` blocks side by side.
pub open spec fn canvas_width_for(segments: nat) -> int {
    segments * BLOCK_PIXELS
}

/// The canvas is high enough, in whole blocks, for the highest segment with
/// all the rain of the run standing on it.
pub open spec fn canvas_height_for(landscape: Seq<i64>, rain_hours: int) -> int {
    whole_blocks(highest(landscape) + rain_hours) * BLOCK_PIXELS
}

/// What a run looks like to its observers.
pub struct WorldView {
    /// Terrain height of each segment, in thousandths of a block.
    pub landscape: Seq<i64>,
    /// Height of the water's top over each segment, in thousandths of a block;
    /// equal to the terrain height where the segment is dry.
    pub surface: Seq<i64>,
    /// Rain still to fall, in thousandths of an hour.
    pub remaining_rain_hours: int,
    /// Canvas width in pixels.
    pub canvas_width: int,
    /// Canvas height in pixels.
    pub canvas_height: int,
    /// Timestamp of the latest frame in milliseconds, `None` before the first.
    pub last_timestamp: Option<u64>,
}

impl WorldView {
    /// The state in which a run over `landscape` with `rain_hours` of rain
    /// begins: dry, with the whole budget left and no frame seen.
    pub open spec fn created(landscape: Seq<i64>, rain_hours: int) -> WorldView {
        WorldView {
            landscape,
            surface: landscape,
            remaining_rain_hours: rain_hours,
            canvas_width: canvas_width_for(landscape.len()),
            canvas_height: canvas_height_for(landscape, rain_hours),
            last_timestamp: None,
        }
    }

    /// The latest timestamp as a number, zero before the first frame.
    pub open spec fn clock(self) -> int {
        match self.last_timestamp {
            Some(t) => t as int,
            None => 0,
        }
    }

    /// What holds of every state of a run: the surface has one height for each
    /// segment, no lower than the terrain there; the canvas is as wide as the
    /// landscape. The three last lines bound the numbers by what a run can
    /// reach from 64-bit inputs.
    pub open spec fn valid(self) -> bool {
        &&& self.surface.len() == self.landscape.len()
        &&& forall|i: int| 0 <= i < self.landscape.len() ==> self.surface[i] >= self.landscape[i]
        &&& self.canvas_width == canvas_width_for(self.landscape.len())
        &&& self.landscape.len() <= usize::MAX
        &&& -0x1_0000_0000_0000_0000 <= self.canvas_height <= 0x1_0000_0000_0000_0000
        &&& i64::MIN <= self.remaining_rain_hours + self.clock() <= i64::MAX + (
        if self.last_timestamp is Some {
            u64::MAX as int
        } else {
            0
        })
    }

    /// Whether the rain has ended.
    pub open spec fn finished(self) -> bool {
        self.remaining_rain_hours <= 0
    }

    /// What comes after this state: the end of the run once the rain has
    /// ended, another frame until then.
    pub open spec fn outcome(self) -> StepOutcome {
        if self.finished() {
            StepOutcome::Finished
        } else {
            StepOutcome::Continue
        }
    }

    /// Milliseconds from the latest frame to a frame at `timestamp`; zero for
    /// the first frame of a run, which so warms up the loop without any rain.
    pub open spec fn elapsed_ms(self, timestamp: u64) -> int {
        match self.last_timestamp {
            Some(last) => timestamp - last,
            None => 0,
        }
    }

    /// Whether `solved` can be the next surface: one height for each segment,
    /// none below the terrain.
    pub open spec fn admits(self, solved: Seq<i64>) -> bool {
        &&& solved.len() == self.landscape.len()
        &&& forall|i: int| 0 <= i < self.landscape.len() ==> solved[i] >= self.landscape[i]
    }

    /// The state after the frame at `timestamp`, for which the solver has
    /// levelled the rain of that frame into the surface `solved`: the rain is
    /// taken off the budget in full, also where it exceeds what was left.
    pub open spec fn stepped(self, timestamp: u64, solved: Seq<i64>) -> WorldView {
        WorldView {
            surface: solved,
            remaining_rain_hours: self.remaining_rain_hours - rain_in(self.elapsed_ms(timestamp)),
            last_timestamp: Some(timestamp),
            ..self
        }
    }

    /// What a frame draws in this state: the water alone while it rains,
    /// since the land and the cloud stay as they are; the land under a sky
    /// now clear and then the water once the rain has ended.
    pub open spec fn frame_fills(self) -> Seq<Fill> {
        if self.finished() {
            self.land_sky_fills() + self.water_fills()
        } else {
            self.water_fills()
        }
    }
}

/// Rain that falls in `elapsed_ms` milliseconds, in thousandths of an hour.
/// An hour of rain falls in each second on the clock, which is a thousandth
/// of an hour in each millisecond.
pub open spec fn rain_in(elapsed_ms: int) -> int {
    elapsed_ms
}

/// Whether the run goes on after a frame.
#[derive(Clone, Copy, PartialEq, Eq, Debug, Structural)]
pub enum StepOutcome {
    /// Rain remains: the next frame is to be requested.
    Continue,
    /// The rain has ended: no frame is requested, and the run is over.
    Finished,
}

/// What one frame asks of the page.
#[derive(Debug)]
pub struct Frame {
    /// The fill commands to carry out, in this order.
    pub commands: Vec<Fill>,
    /// Whether to request another frame.
    pub outcome: StepOutcome,
}

/// One frame as a run takes it in.
pub struct FrameInput {
    /// When the frame came, in milliseconds.
    pub timestamp: u64,
    /// The surface that the solver made for it.
    pub solved: Seq<i64>,
}

impl WorldView {
    /// The state after the frames `frames`, taken in from first to last.
    pub open spec fn after(self, frames: Seq<FrameInput>) -> WorldView
        decreases frames.len(),
    {
        if frames.len() == 0 {
            self
        } else {
            self.after(frames.drop_last()).stepped(frames.last().timestamp, frames.last().solved)
        }
    }

    /// Whether every surface of `frames` can be a surface of this world.
    pub open spec fn admits_all(self, frames: Seq<FrameInput>) -> bool {
        forall|k: int| 0 <= k < frames.len() ==> self.admits(#[trigger] frames[k].solved)
    }

    /// Whether the timestamps of `frames` come in order, none earlier than
    /// the one before it or than the latest that this world has seen.
    pub open spec fn in_order(self, frames: Seq<FrameInput>) -> bool {
        &&& forall|k: int| 0 <= k < frames.len() ==> self.clock() <= (#[trigger] frames[k]).timestamp
        &&& forall|j: int, k: int|
            0 <= j <= k < frames.len() ==> (#[trigger] frames[j]).timestamp <= (
            #[trigger] frames[k]).timestamp
    }
}

/// A run begins in a valid state, whatever the landscape and the rain.
pub proof fn lemma_created_valid(landscape: Seq<i64>, rain_hours: i64)
    requires
        landscape.len() <= usize::MAX,
    ensures
        WorldView::created(landscape, rain_hours as int).valid(),
{
    lemma_highest(landscape);
}

/// A frame keeps the state valid and the land as it is, and leaves the
/// surface that the solver made.
pub proof fn lemma_step_valid(world: WorldView, timestamp: u64, solved: Seq<i64>)
    requires
        world.valid(),
        world.admits(solved),
    ensures
        world.stepped(timestamp, solved).valid(),
        world.stepped(timestamp, solved).landscape == world.landscape,
        world.stepped(timestamp, solved).surface == solved,
{
}

/// At every step of a run the surface has one height for each segment of
/// the landscape, and the landscape stays what it was.
pub proof fn lemma_surface_spans_landscape(world: WorldView, frames: Seq<FrameInput>)
    requires
        world.valid(),
        world.admits_all(frames),
    ensures
        world.after(frames).valid(),
        world.after(frames).landscape == world.landscape,
        world.after(frames).surface.len() == world.landscape.len(),
    decreases frames.len(),
{
    if frames.len() > 0 {
        let earlier = frames.drop_last();
        assert forall|k: int| 0 <= k < earlier.len() implies world.admits(
            #[trigger] earlier[k].solved,
        ) by {
            assert(earlier[k] == frames[k]);
        }
        lemma_surface_spans_landscape(world, earlier);
        assert(world.admits(frames[frames.len() - 1].solved));
    }
}

/// At every step of a run the surface lies nowhere below the terrain.
pub proof fn lemma_surface_above_landscape(world: WorldView, frames: Seq<FrameInput>, i: int)
    requires
        world.valid(),
        world.admits_all(frames),
        0 <= i < world.landscape.len(),
    ensures
        world.after(frames).surface[i] >= world.after(frames).landscape[i],
{
    lemma_surface_spans_landscape(world, frames);
}

/// A frame that comes no earlier than the one before it never adds to the
/// rain that remains.
pub proof fn lemma_budget_never_grows(world: WorldView, timestamp: u64, solved: Seq<i64>)
    requires
        world.last_timestamp matches Some(last) ==> last <= timestamp,
    ensures
        world.stepped(timestamp, solved).remaining_rain_hours <= world.remaining_rain_hours,
{
}

/// Whatever the order of the frames, the rain that has left the budget after
/// a run is what falls in the time from the first frame that the world has
/// seen to the last.
pub proof fn lemma_budget_spent(world: WorldView, frames: Seq<FrameInput>)
    requires
        frames.len() > 0,
    ensures
        world.after(frames).last_timestamp == Some(frames.last().timestamp),
        world.after(frames).remaining_rain_hours == world.remaining_rain_hours - rain_in(
            frames.last().timestamp - (match world.last_timestamp {
                Some(last) => last,
                None => frames[0].timestamp,
            }),
        ),
    decreases frames.len(),
{
    let earlier = frames.drop_last();
    if earlier.len() > 0 {
        lemma_budget_spent(world, earlier);
        assert(earlier[0] == frames[0]);
    } else {
        assert(world.after(earlier) == world);
    }
}

/// Over a run whose frames come in order, the rain that remains after a
/// longer part of the run is never more than after a shorter part.
pub proof fn lemma_budget_non_increasing(
    world: WorldView,
    frames: Seq<FrameInput>,
    shorter: int,
    longer: int,
)
    requires
        world.in_order(frames),
        0 <= shorter <= longer <= frames.len(),
    ensures
        world.after(frames.take(longer)).remaining_rain_hours <= world.after(
            frames.take(shorter),
        ).remaining_rain_hours,
{
    if shorter < longer {
        let long_part = frames.take(longer);
        lemma_budget_spent(world, long_part);
        assert(long_part.last() == frames[longer - 1]);
        assert(long_part[0] == frames[0]);
        if shorter > 0 {
            let short_part = frames.take(shorter);
            lemma_budget_spent(world, short_part);
            assert(short_part.last() == frames[shorter - 1]);
            assert(short_part[0] == frames[0]);
        } else {
            assert(frames.take(0).len() == 0);
        }
    }
}

/// A run of the simulation.
pub struct World {
    landscape: Vec<i64>,
    surface: Vec<i64>,
    remaining_rain_hours: i128,
    canvas_width: i128,
    canvas_height: i128,
    last_timestamp: Option<u64>,
}

impl View for World {
    type V = WorldView;

    closed spec fn view(&self) -> WorldView {
        WorldView {
            landscape: self.landscape@,
            surface: self.surface@,
            remaining_rain_hours: self.remaining_rain_hours as int,
            canvas_width: self.canvas_width as int,
            canvas_height: self.canvas_height as int,
            last_timestamp: self.last_timestamp,
        }
    }
}

/// The height of the highest segment, and zero where none rises above zero.
pub fn highest_segment(landscape: &Vec<i64>) -> (top: i64)
    ensures
        top == highest(landscape@),
{
    let mut top: i64 = 0;
    let mut i: usize = 0;
    while i < landscape.len()
        invariant
            i <= landscape.len(),
            top == highest(landscape@.take(i as int)),
        decreases landscape.len() - i,
    {
        assert(landscape@.take(i + 1).drop_last() =~= landscape@.take(i as int));
        if landscape[i] > top {
            top = landscape[i];
        }
        i += 1;
    }
    assert(landscape@.take(i as int) =~= landscape@);
    top
}

/// `whole_blocks` rounds up: it gives the one number of blocks that reaches
/// `height` while one block less does not.
pub proof fn lemma_whole_blocks(height: int)
    ensures
        (whole_blocks(height) - 1) * MILLI < height <= whole_blocks(height) * MILLI,
{
}

/// Rounds a height in thousandths of a block up to whole blocks.
fn round_up_to_blocks(height: i128) -> (blocks: i128)
    requires
        -0x1_0000_0000_0000_0000 <= height <= 0x1_0000_0000_0000_0000,
    ensures
        blocks == whole_blocks(height as int),
{
    if height > 0 {
        (height + (MILLI - 1)) / MILLI
    } else {
        let below: i128 = (0 - height) / MILLI;
        0 - below
    }
}

/// The value nearest to `pixels` that a canvas dimension can take.
pub open spec fn canvas_dimension(pixels: int) -> u32 {
    if pixels < 0 {
        0
    } else if pixels > u32::MAX {
        u32::MAX
    } else {
        pixels as u32
    }
}

impl World {
    /// Creates the world of a run over `landscape`, heights in thousandths of
    /// a block, with `rain_hours` thousandths of an hour of rain to fall.
    pub fn new(landscape: Vec<i64>, rain_hours: i64) -> (world: World)
        ensures
            world@ == WorldView::created(landscape@, rain_hours as int),
            world@.valid(),
    {
        let top: i64 = highest_segment(&landscape);
        proof {
            lemma_highest(landscape@);
        }
        let segments: usize = landscape.len();
        let canvas_width: i128 = segments as i128 * BLOCK_PIXELS;
        let canvas_height: i128 = round_up_to_blocks(top as i128 + rain_hours as i128)
            * BLOCK_PIXELS;
        let surface = landscape.clone();
        assert(surface@ =~= landscape@);
        World {
            landscape,
            surface,
            remaining_rain_hours: rain_hours as i128,
            canvas_width,
            canvas_height,
            last_timestamp: None,
        }
    }

    /// Terrain height of each segment, in thousandths of a block.
    pub fn landscape(&self) -> (landscape: &Vec<i64>)
        ensures
            landscape@ == self@.landscape,
    {
        &self.landscape
    }

    /// Height of the water's top over each segment, in thousandths of a block.
    pub fn surface(&self) -> (surface: &Vec<i64>)
        ensures
            surface@ == self@.surface,
    {
        &self.surface
    }

    /// Rain still to fall, in thousandths of an hour. Zero or less once the
    /// run has finished.
    pub fn remaining_rain_hours(&self) -> (hours: i128)
        ensures
            hours == self@.remaining_rain_hours,
    {
        self.remaining_rain_hours
    }

    /// Canvas width in pixels.
    pub fn canvas_width(&self) -> (pixels: i128)
        ensures
            pixels == self@.canvas_width,
    {
        self.canvas_width
    }

    /// Canvas height in pixels.
    pub fn canvas_height(&self) -> (pixels: i128)
        ensures
            pixels == self@.canvas_height,
    {
        self.canvas_height
    }

    /// Timestamp of the latest frame in milliseconds, `None` before the first.
    pub fn last_timestamp(&self) -> (timestamp: Option<u64>)
        ensures
            timestamp == self@.last_timestamp,
    {
        self.last_timestamp
    }

    /// Says whether to request the next frame or to finish the run.
    pub fn schedule_next_or_finish(&self) -> (outcome: StepOutcome)
        ensures
            outcome == self@.outcome(),
    {
        if self.remaining_rain_hours <= 0 {
            StepOutcome::Finished
        } else {
            StepOutcome::Continue
        }
    }

    /// The rain to hand to the solver for a frame at `timestamp`, in
    /// thousandths of an hour: what falls in the time since the latest frame.
    /// It is not cut to the rain that remains.
    pub fn rain_since(&self, timestamp: u64) -> (rain_hours: i128)
        ensures
            rain_hours == rain_in(self@.elapsed_ms(timestamp)),
    {
        match self.last_timestamp {
            Some(last) => timestamp as i128 - last as i128,
            None => 0,
        }
    }

    /// Whether `solved` can be the next surface.
    pub fn accepts(&self, solved: &Vec<i64>) -> (admitted: bool)
        requires
            self@.valid(),
        ensures
            admitted == self@.admits(solved@),
    {
        if solved.len() != self.landscape.len() {
            return false;
        }
        let mut i: usize = 0;
        while i < solved.len()
            invariant
                i <= solved.len(),
                solved.len() == self.landscape.len(),
                forall|k: int| 0 <= k < i ==> solved[k] >= self.landscape[k],
            decreases solved.len() - i,
        {
            if solved[i] < self.landscape[i] {
                return false;
            }
            i += 1;
        }
        true
    }

    /// Performs one animation step, for the frame at `timestamp`. `solved` is
    /// the surface that the solver made of the current one and of the rain of
    /// `rain_since(timestamp)`; it replaces the surface, and that rain leaves
    /// the budget. The frame returned draws the new state.
    pub fn step(&mut self, timestamp: u64, solved: Vec<i64>) -> (frame: Frame)
        requires
            old(self)@.valid(),
            old(self)@.admits(solved@),
        ensures
            final(self)@ == old(self)@.stepped(timestamp, solved@),
            final(self)@.valid(),
            frame.commands@ == final(self)@.frame_fills(),
            frame.outcome == final(self)@.outcome(),
    {
        let rain_hours: i128 = self.rain_since(timestamp);
        self.last_timestamp = Some(timestamp);
        self.surface = solved;
        self.remaining_rain_hours = self.remaining_rain_hours - rain_hours;
        let mut commands: Vec<Fill> = Vec::new();
        if self.remaining_rain_hours <= 0 {
            commands = self.draw_land_sky();
        }
        let mut water = self.draw_water();
        commands.append(&mut water);
        Frame { commands, outcome: self.schedule_next_or_finish() }
    }

    /// Performs one animation step if `solved` can be the next surface, and
    /// otherwise leaves the world as it is.
    pub fn try_step(&mut self, timestamp: u64, solved: Vec<i64>) -> (frame: Option<Frame>)
        requires
            old(self)@.valid(),
        ensures
            final(self)@.valid(),
            match frame {
                Some(frame) => {
                    &&& old(self)@.admits(solved@)
                    &&& final(self)@ == old(self)@.stepped(timestamp, solved@)
                    &&& frame.commands@ == final(self)@.frame_fills()
                    &&& frame.outcome == final(self)@.outcome()
                },
                None => !old(self)@.admits(solved@) && final(self)@ == old(self)@,
            },
    {
        if self.accepts(&solved) {
            Some(self.step(timestamp, solved))
        } else {
            None
        }
    }

    /// Performs one animation step whatever the solver made: with `solved`
    /// where it can be the next surface, and with the surface as it stands
    /// where it cannot. The frame takes its rain off the budget either way,
    /// so that the run goes on to its end.
    pub fn step_or_keep(&mut self, timestamp: u64, solved: Vec<i64>) -> (frame: Frame)
        requires
            old(self)@.valid(),
        ensures
            final(self)@ == old(self)@.stepped(
                timestamp,
                if old(self)@.admits(solved@) {
                    solved@
                } else {
                    old(self)@.surface
                },
            ),
            final(self)@.valid(),
            frame.commands@ == final(self)@.frame_fills(),
            frame.outcome == final(self)@.outcome(),
    {
        if self.accepts(&solved) {
            self.step(timestamp, solved)
        } else {
            let kept = self.surface.clone();
            assert(kept@ =~= self.surface@);
            self.step(timestamp, kept)
        }
    }

    /// Width and height to give the canvas element, which takes each as a
    /// `u32`: the canvas size in pixels, cut to that range.
    pub fn canvas_size(&self) -> (size: (u32, u32))
        ensures
            size.0 == canvas_dimension(self@.canvas_width),
            size.1 == canvas_dimension(self@.canvas_height),
    {
        (to_canvas_dimension(self.canvas_width), to_canvas_dimension(self.canvas_height))
    }
}

/// Cuts a number of pixels to the range of a canvas dimension.
fn to_canvas_dimension(pixels: i128) -> (dimension: u32)
    ensures
        dimension == canvas_dimension(pixels as int),
{
    if pixels < 0 {
        0
    } else if pixels > u32::MAX as i128 {
        u32::MAX
    } else {
        pixels as u32
    }
}

} // verus!
