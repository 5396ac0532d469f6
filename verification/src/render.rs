//! What to draw: the fill commands that show a state of the world.
//!
//! Drawing is a function of the state alone. The terrain pass repaints the
//! whole canvas and so wipes any water drawn before; the water pass only adds
//! the water columns on top.

use vstd::prelude::*;
use crate::canvas::{
    lemma_paint_erases, lemma_paint_twice, paint, Color, Fill, Raster, Rect, BLOCK_EDGE,
    BLOCK_PIXELS, MILLI,
};
use crate::world::{World, WorldView};

verus! {

impl WorldView {
    /// Canvas height in thousandths of a pixel: the `y` of the ground line.
    pub open spec fn ground(self) -> int {
        self.canvas_height * MILLI
    }

    /// Left edge of segment `i`, in thousandths of a pixel.
    pub open spec fn column(i: int) -> int {
        i * BLOCK_EDGE
    }

    /// The backdrop: the whole canvas in the color of cloud while rain
    /// remains, and of clear sky once it has ended.
    pub open spec fn backdrop(self) -> Fill {
        Fill {
            color: if self.finished() {
                Color::Sky
            } else {
                Color::Cloud
            },
            rect: Rect {
                x: 0,
                y: 0,
                width: (self.canvas_width * MILLI) as i128,
                height: self.ground() as i128,
            },
        }
    }

    /// The terrain of segment `i`: a block-wide column from the bottom of the
    /// canvas up to the terrain height.
    pub open spec fn land_fill(self, i: int) -> Fill {
        Fill {
            color: Color::Land,
            rect: Rect {
                x: Self::column(i) as i128,
                y: (self.ground() - self.landscape[i] * BLOCK_PIXELS) as i128,
                width: BLOCK_EDGE,
                height: (self.landscape[i] * BLOCK_PIXELS) as i128,
            },
        }
    }

    /// The water of segment `i`: a block-wide column from the terrain height
    /// up to the surface.
    pub open spec fn water_fill(self, i: int) -> Fill {
        Fill {
            color: Color::Water,
            rect: Rect {
                x: Self::column(i) as i128,
                y: (self.ground() - self.surface[i] * BLOCK_PIXELS) as i128,
                width: BLOCK_EDGE,
                height: ((self.surface[i] - self.landscape[i]) * BLOCK_PIXELS) as i128,
            },
        }
    }

    /// Whether water stands on segment `i`.
    pub open spec fn wet(self, i: int) -> bool {
        self.surface[i] > self.landscape[i]
    }

    /// The terrain pass: the backdrop, then the terrain of every segment from
    /// left to right.
    pub open spec fn land_sky_fills(self) -> Seq<Fill> {
        seq![self.backdrop()] + Seq::new(self.landscape.len(), |i: int| self.land_fill(i))
    }

    /// The water of the wet segments among the first `n`, from left to right.
    pub open spec fn water_fills_to(self, n: int) -> Seq<Fill>
        decreases n,
    {
        if n <= 0 {
            Seq::empty()
        } else if self.wet(n - 1) {
            self.water_fills_to(n - 1).push(self.water_fill(n - 1))
        } else {
            self.water_fills_to(n - 1)
        }
    }

    /// The water pass: the water of every wet segment from left to right.
    /// Dry segments get no command.
    pub open spec fn water_fills(self) -> Seq<Fill> {
        self.water_fills_to(self.landscape.len() as int)
    }
}

/// The water pass draws the wet segments and nothing else: each of its
/// commands is the water of a wet segment, and each wet segment has its
/// command.
pub proof fn lemma_water_fills(world: WorldView, n: int)
    requires
        0 <= n <= world.landscape.len(),
    ensures
        forall|k: int|
            0 <= k < world.water_fills_to(n).len() ==> exists|i: int|
                0 <= i < n && world.wet(i) && #[trigger] world.water_fills_to(n)[k]
                    == world.water_fill(i),
        forall|i: int|
            0 <= i < n && world.wet(i) ==> world.water_fills_to(n).contains(
                #[trigger] world.water_fill(i),
            ),
    decreases n,
{
    if n > 0 {
        lemma_water_fills(world, n - 1);
        let earlier = world.water_fills_to(n - 1);
        let all = world.water_fills_to(n);
        assert forall|k: int| 0 <= k < all.len() implies exists|i: int|
            0 <= i < n && world.wet(i) && #[trigger] all[k] == world.water_fill(i) by {
            if k < earlier.len() {
                let i = choose|i: int|
                    0 <= i < n - 1 && world.wet(i) && earlier[k] == world.water_fill(i);
                assert(all[k] == world.water_fill(i));
            } else {
                assert(all[k] == world.water_fill(n - 1));
            }
        }
        assert forall|i: int| 0 <= i < n && world.wet(i) implies all.contains(
            #[trigger] world.water_fill(i),
        ) by {
            if i < n - 1 {
                let k = choose|k: int| 0 <= k < earlier.len() && earlier[k] == world.water_fill(i);
                assert(all[k] == world.water_fill(i));
            } else {
                assert(all[all.len() - 1] == world.water_fill(i));
            }
        }
    }
}

/// Drawing the water twice leaves the same picture as drawing it once,
/// whatever the canvas showed before.
pub proof fn lemma_draw_water_twice(world: WorldView, raster: Raster)
    ensures
        paint(paint(raster, world.water_fills()), world.water_fills()) == paint(
            raster,
            world.water_fills(),
        ),
{
    lemma_paint_twice(raster, world.water_fills());
}

/// Drawing a frame twice leaves the same picture as drawing it once.
pub proof fn lemma_draw_frame_twice(world: WorldView, raster: Raster)
    ensures
        paint(paint(raster, world.frame_fills()), world.frame_fills()) == paint(
            raster,
            world.frame_fills(),
        ),
{
    lemma_paint_twice(raster, world.frame_fills());
}

/// Whether `raster` shows no point outside the canvas of `world`.
pub open spec fn on_canvas(world: WorldView, raster: Raster) -> bool {
    forall|p: (int, int)|
        raster.dom().contains(p) ==> 0 <= p.0 < world.canvas_width * MILLI && 0 <= p.1
            < world.ground()
}

/// The terrain pass erases the canvas: what it leaves does not depend on
/// what the canvas showed before, water included.
pub proof fn lemma_draw_land_sky_erases(world: WorldView, before: Raster, other: Raster)
    requires
        world.valid(),
        on_canvas(world, before),
        before.dom() == other.dom(),
    ensures
        paint(before, world.land_sky_fills()) == paint(other, world.land_sky_fills()),
{
    let commands = world.land_sky_fills();
    assert(commands[0] == world.backdrop());
    assert(world.canvas_width == world.landscape.len() * BLOCK_PIXELS);
    assert forall|p: (int, int)| before.dom().contains(p) implies commands[0].rect.covers(
        p.0,
        p.1,
    ) by {}
    lemma_paint_erases(before, other, commands);
}

/// The water of a segment stands on its land: in the same column, from the
/// top of the land upwards.
pub proof fn lemma_water_on_land(world: WorldView, i: int)
    requires
        world.valid(),
        0 <= i < world.landscape.len(),
    ensures
        world.water_fill(i).rect.x == world.land_fill(i).rect.x,
        world.water_fill(i).rect.width == world.land_fill(i).rect.width,
        world.water_fill(i).rect.y + world.water_fill(i).rect.height == world.land_fill(i).rect.y,
        world.wet(i) <==> world.water_fill(i).rect.height > 0,
{
}

impl World {
    /// The commands that draw sky or cloud and the land. Carried out, they
    /// erase all that the canvas showed before.
    pub fn draw_land_sky(&self) -> (commands: Vec<Fill>)
        requires
            self@.valid(),
        ensures
            commands@ == self@.land_sky_fills(),
    {
        let landscape = self.landscape();
        let ground: i128 = self.canvas_height() * MILLI;
        let sky_color = if self.remaining_rain_hours() > 0 {
            Color::Cloud
        } else {
            Color::Sky
        };
        assert(self@.canvas_width == landscape.len() * BLOCK_PIXELS);
        let mut commands: Vec<Fill> = Vec::new();
        commands.push(
            Fill {
                color: sky_color,
                rect: Rect { x: 0, y: 0, width: self.canvas_width() * MILLI, height: ground },
            },
        );
        let mut i: usize = 0;
        while i < landscape.len()
            invariant
                i <= landscape.len(),
                landscape@ == self@.landscape,
                self@.valid(),
                ground == self@.ground(),
                commands@ == seq![self@.backdrop()] + Seq::new(
                    i as nat,
                    |k: int| self@.land_fill(k),
                ),
            decreases landscape.len() - i,
        {
            let pixel_height: i128 = landscape[i] as i128 * BLOCK_PIXELS;
            commands.push(
                Fill {
                    color: Color::Land,
                    rect: Rect {
                        x: i as i128 * BLOCK_EDGE,
                        y: ground - pixel_height,
                        width: BLOCK_EDGE,
                        height: pixel_height,
                    },
                },
            );
            i += 1;
        }
        commands
    }

    /// The commands that draw the water. They expect the land to be drawn
    /// already.
    pub fn draw_water(&self) -> (commands: Vec<Fill>)
        requires
            self@.valid(),
        ensures
            commands@ == self@.water_fills(),
    {
        let landscape = self.landscape();
        let surface = self.surface();
        let ground: i128 = self.canvas_height() * MILLI;
        let mut commands: Vec<Fill> = Vec::new();
        let mut i: usize = 0;
        while i < landscape.len()
            invariant
                i <= landscape.len(),
                landscape@ == self@.landscape,
                surface@ == self@.surface,
                self@.valid(),
                ground == self@.ground(),
                commands@ == self@.water_fills_to(i as int),
            decreases landscape.len() - i,
        {
            let pixel_height: i128 = (surface[i] as i128 - landscape[i] as i128) * BLOCK_PIXELS;
            if pixel_height > 0 {
                let pixel_surface: i128 = surface[i] as i128 * BLOCK_PIXELS;
                commands.push(
                    Fill {
                        color: Color::Water,
                        rect: Rect {
                            x: i as i128 * BLOCK_EDGE,
                            y: ground - pixel_surface,
                            width: BLOCK_EDGE,
                            height: pixel_height,
                        },
                    },
                );
            }
            i += 1;
        }
        commands
    }
}

} // verus!
