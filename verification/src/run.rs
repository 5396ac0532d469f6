//! Starting a run from what the user entered.

use vstd::prelude::*;
use crate::parse::{fails_with, parse_landscape, reads_as, ParseError};
use crate::world::{Frame, World, WorldView};

verus! {

/// Begins a run over `landscape`, heights in thousandths of a block, with
/// `rain_hours` thousandths of an hour of rain to fall: creates the world
/// and draws the dry land under its backdrop. The frame returned also says
/// whether to request a first frame from the scheduler: with no rain to fall
/// the run is finished at once.
pub fn launch(landscape: Vec<i64>, rain_hours: i64) -> (run: (World, Frame))
    ensures
        run.0@ == WorldView::created(landscape@, rain_hours as int),
        run.0@.valid(),
        run.1.commands@ == run.0@.land_sky_fills(),
        run.1.outcome == run.0@.outcome(),
{
    let world = World::new(landscape, rain_hours);
    let commands = world.draw_land_sky();
    let outcome = world.schedule_next_or_finish();
    (world, Frame { commands, outcome })
}

/// Begins a run from the landscape as the user wrote it: reads the
/// landscape and launches the run over it.
///
/// Where the landscape cannot be read no world is created, and the error
/// reports the first token that is no height.
pub fn simulate_world(landscape: &str, rain_hours: i64) -> (run: Result<(World, Frame), ParseError>)
    ensures
        match run {
            Ok((world, frame)) => {
                &&& reads_as(landscape@, world@.landscape)
                &&& world@ == WorldView::created(world@.landscape, rain_hours as int)
                &&& world@.valid()
                &&& frame.commands@ == world@.land_sky_fills()
                &&& frame.outcome == world@.outcome()
            },
            Err(error) => fails_with(landscape@, error.token@, error.cause),
        },
{
    match parse_landscape(landscape) {
        Ok(heights) => Ok(launch(heights, rain_hours)),
        Err(error) => Err(error),
    }
}

} // verus!
