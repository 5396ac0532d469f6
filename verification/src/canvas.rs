//! Canvas geometry: colors, rectangles, fill commands, and a model of the
//! raster that fill commands paint on.

use vstd::prelude::*;

verus! {

/// Steps of the fixed-point scale in one whole block, hour or pixel.
pub const MILLI: i128 = 1000;

/// Edge of one block on the canvas, in pixels. A segment is one block wide,
/// and an hour of rain is one block high.
pub const BLOCK_PIXELS: i128 = 30;

/// Edge of one block on the canvas, in thousandths of a pixel.
pub const BLOCK_EDGE: i128 = BLOCK_PIXELS * MILLI;

/// The four colors of the picture.
#[derive(Clone, Copy, PartialEq, Eq, Debug, Structural)]
pub enum Color {
    /// Terrain.
    Land,
    /// Standing water.
    Water,
    /// Backdrop once the rain has ended.
    Sky,
    /// Backdrop while it rains.
    Cloud,
}

impl Color {
    /// The color as the canvas wants it: `#` and six hexadecimal digits.
    pub open spec fn css_code(self) -> Seq<char> {
        match self {
            Color::Land => "#eed994"@,
            Color::Water => "#0c60ae"@,
            Color::Sky => "#edf4f4"@,
            Color::Cloud => "#b0b8bb"@,
        }
    }

    /// The fill style to hand to the canvas for this color.
    pub fn css(self) -> (code: &'static str)
        ensures
            code@ == self.css_code(),
    {
        match self {
            Color::Land => "#eed994",
            Color::Water => "#0c60ae",
            Color::Sky => "#edf4f4",
            Color::Cloud => "#b0b8bb",
        }
    }
}

/// An axis-aligned rectangle in thousandths of a pixel, `y` growing downwards
/// from the top edge of the canvas. A negative `width` or `height` extends to
/// the left of `x` or above `y`, as the canvas reads it.
#[derive(Clone, Copy, PartialEq, Eq, Debug, Structural)]
pub struct Rect {
    pub x: i128,
    pub y: i128,
    pub width: i128,
    pub height: i128,
}

/// Whether `at` lies in the half-open interval that starts at `from` and
/// extends by `by`, to the right if `by` is positive, to the left if negative.
pub open spec fn spans(from: int, by: int, at: int) -> bool {
    if by >= 0 {
        from <= at < from + by
    } else {
        from + by <= at < from
    }
}

impl Rect {
    /// Whether the rectangle covers the point `(x, y)`.
    pub open spec fn covers(self, x: int, y: int) -> bool {
        spans(self.x as int, self.width as int, x) && spans(self.y as int, self.height as int, y)
    }
}

/// One command to the canvas: fill `rect` with `color`.
#[derive(Clone, Copy, PartialEq, Eq, Debug, Structural)]
pub struct Fill {
    pub color: Color,
    pub rect: Rect,
}

/// The picture on a canvas: the color of each of its points, a point being a
/// pair `(x, y)` in thousandths of a pixel.
pub type Raster = Map<(int, int), Color>;

/// The raster after one fill command: the points of the raster that the
/// rectangle covers take the command's color, the others keep theirs, and
/// what falls outside the raster is clipped.
pub open spec fn fill(raster: Raster, command: Fill) -> Raster {
    Map::new(
        |p: (int, int)| raster.dom().contains(p),
        |p: (int, int)|
            if command.rect.covers(p.0, p.1) {
                command.color
            } else {
                raster[p]
            },
    )
}

/// The raster after a sequence of fill commands, carried out from first to
/// last.
pub open spec fn paint(raster: Raster, commands: Seq<Fill>) -> Raster
    decreases commands.len(),
{
    if commands.len() == 0 {
        raster
    } else {
        fill(paint(raster, commands.drop_last()), commands.last())
    }
}

/// The color that the last command covering `(x, y)` gives to that point, if
/// any command covers it.
pub open spec fn top_color(commands: Seq<Fill>, x: int, y: int) -> Option<Color>
    decreases commands.len(),
{
    if commands.len() == 0 {
        None
    } else if commands.last().rect.covers(x, y) {
        Some(commands.last().color)
    } else {
        top_color(commands.drop_last(), x, y)
    }
}

/// Painting keeps the extent of the raster, and leaves each point with the
/// color of the last command that covers it, or with its earlier color where
/// no command does.
pub proof fn lemma_paint_point(raster: Raster, commands: Seq<Fill>, x: int, y: int)
    ensures
        paint(raster, commands).dom() == raster.dom(),
        raster.dom().contains((x, y)) ==> paint(raster, commands)[(x, y)] == (match top_color(
            commands,
            x,
            y,
        ) {
            Some(color) => color,
            None => raster[(x, y)],
        }),
    decreases commands.len(),
{
    if commands.len() > 0 {
        lemma_paint_point(raster, commands.drop_last(), x, y);
        assert(paint(raster, commands).dom() =~= raster.dom());
    }
}

/// Painting the same commands a second time changes nothing: fills replace
/// colors and never blend with what is there.
pub proof fn lemma_paint_twice(raster: Raster, commands: Seq<Fill>)
    ensures
        paint(paint(raster, commands), commands) == paint(raster, commands),
{
    let once = paint(raster, commands);
    let twice = paint(once, commands);
    assert forall|p: (int, int)| once.dom().contains(p) implies #[trigger] twice[p] == once[p] by {
        lemma_paint_point(raster, commands, p.0, p.1);
        lemma_paint_point(once, commands, p.0, p.1);
    }
    lemma_paint_point(raster, commands, 0, 0);
    lemma_paint_point(once, commands, 0, 0);
    assert(twice =~= once);
}

/// Where the first command covers every point of the raster, the outcome of
/// painting does not depend on what the raster showed before.
pub proof fn lemma_paint_erases(before: Raster, other: Raster, commands: Seq<Fill>)
    requires
        before.dom() == other.dom(),
        commands.len() > 0,
        forall|p: (int, int)| before.dom().contains(p) ==> commands[0].rect.covers(p.0, p.1),
    ensures
        paint(before, commands) == paint(other, commands),
{
    let a = paint(before, commands);
    let b = paint(other, commands);
    assert forall|p: (int, int)| a.dom().contains(p) implies #[trigger] a[p] == b[p] by {
        lemma_paint_point(before, commands, p.0, p.1);
        lemma_paint_point(other, commands, p.0, p.1);
        lemma_first_cover(commands, p.0, p.1);
    }
    lemma_paint_point(before, commands, 0, 0);
    lemma_paint_point(other, commands, 0, 0);
    assert(a =~= b);
}

/// A point that the first command covers is covered by some command.
proof fn lemma_first_cover(commands: Seq<Fill>, x: int, y: int)
    requires
        commands.len() > 0,
        commands[0].rect.covers(x, y),
    ensures
        top_color(commands, x, y) is Some,
    decreases commands.len(),
{
    if commands.len() > 1 && !commands.last().rect.covers(x, y) {
        lemma_first_cover(commands.drop_last(), x, y);
    }
}

} // verus!
