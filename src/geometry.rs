//! Points, colours and sprites, and the world bounds that positions live in.

use vstd::prelude::*;

verus! {

/// Largest x coordinate a stored position may have.
pub const WORLD_WIDTH: i32 = 800;

/// Largest y coordinate a stored position may have.
pub const WORLD_HEIGHT: i32 = 600;

/// An integer position or displacement.
#[derive(Debug, Clone, Copy, PartialEq, Eq, Structural)]
pub struct Point {
    pub x: i32,
    pub y: i32,
}

/// A pixel colour; equality is channel equality.
#[derive(Debug, Clone, Copy, PartialEq, Eq, Structural)]
pub struct Color {
    pub r: u8,
    pub g: u8,
    pub b: u8,
}

/// A row-major bitmap. A 0×0 image stands for "no sprite yet".
#[derive(Debug)]
pub struct Image {
    pub width: usize,
    pub height: usize,
    pub pixels: Vec<Color>,
}

/// What an image holds, as mathematical values.
pub struct ImageView {
    pub width: nat,
    pub height: nat,
    pub pixels: Seq<Color>,
}

impl View for Image {
    type V = ImageView;

    open spec fn view(&self) -> ImageView {
        ImageView { width: self.width as nat, height: self.height as nat, pixels: self.pixels@ }
    }
}

/// The view of a 0×0 image.
pub open spec fn empty_image_view() -> ImageView {
    ImageView { width: 0, height: 0, pixels: Seq::empty() }
}

/// `v` forced into `[lo, hi]`.
pub open spec fn clamp_spec(v: int, lo: int, hi: int) -> int {
    if v < lo {
        lo
    } else if v > hi {
        hi
    } else {
        v
    }
}

/// A position that may be stored or broadcast.
pub open spec fn in_world(p: Point) -> bool {
    0 <= p.x <= WORLD_WIDTH && 0 <= p.y <= WORLD_HEIGHT
}

/// The point `(x, y)` clamped to the world bounds.
pub open spec fn clamp_to_world(x: int, y: int) -> Point {
    Point {
        x: clamp_spec(x, 0, WORLD_WIDTH as int) as i32,
        y: clamp_spec(y, 0, WORLD_HEIGHT as int) as i32,
    }
}

/// Where a session stands after moving by `delta` from `p`.
pub open spec fn step_spec(p: Point, delta: Point) -> Point {
    clamp_to_world(p.x + delta.x, p.y + delta.y)
}

impl Point {
    pub fn new(x: i32, y: i32) -> (r: Point)
        ensures
            r.x == x,
            r.y == y,
    {
        Point { x, y }
    }
}

impl Color {
    pub fn new(r: u8, g: u8, b: u8) -> (c: Color)
        ensures
            c.r == r,
            c.g == g,
            c.b == b,
    {
        Color { r, g, b }
    }
}

/// Clamps `v` into `[lo, hi]`.
pub fn clamp_i64(v: i64, lo: i64, hi: i64) -> (r: i64)
    requires
        lo <= hi,
    ensures
        r == clamp_spec(v as int, lo as int, hi as int),
{
    if v < lo {
        lo
    } else if v > hi {
        hi
    } else {
        v
    }
}

/// Moves `p` by `delta` and clamps the result to the world bounds.
pub fn step(p: Point, delta: Point) -> (r: Point)
    ensures
        r == step_spec(p, delta),
        in_world(r),
{
    let x = clamp_i64(p.x as i64 + delta.x as i64, 0, WORLD_WIDTH as i64);
    let y = clamp_i64(p.y as i64 + delta.y as i64, 0, WORLD_HEIGHT as i64);
    Point { x: x as i32, y: y as i32 }
}

/// Copies a pixel sequence.
pub fn copy_pixels(v: &Vec<Color>) -> (r: Vec<Color>)
    ensures
        r@ == v@,
{
    let mut r: Vec<Color> = Vec::with_capacity(v.len());
    let mut i: usize = 0;
    while i < v.len()
        invariant
            i <= v.len(),
            r@ == v@.subrange(0, i as int),
        decreases v.len() - i,
    {
        r.push(v[i]);
        i += 1;
        assert(r@ =~= v@.subrange(0, i as int));
    }
    assert(r@ =~= v@);
    r
}

impl Image {
    /// Pixel count matches the dimensions.
    pub open spec fn wf(&self) -> bool {
        self.pixels@.len() == self.width * self.height
    }

    /// The placeholder sprite of a fresh session.
    pub fn empty() -> (r: Image)
        ensures
            r@ == empty_image_view(),
            r.wf(),
    {
        let r = Image { width: 0, height: 0, pixels: Vec::new() };
        assert(r@.pixels =~= Seq::<Color>::empty());
        r
    }

    /// Builds an image, refusing a pixel count that does not match.
    pub fn from_pixels(width: usize, height: usize, pixels: Vec<Color>) -> (r: Option<Image>)
        ensures
            r.is_some() <==> pixels@.len() == width * height,
            r matches Some(img) ==> img.width == width && img.height == height
                && img.pixels@ == pixels@,
    {
        let len = pixels.len();
        match width.checked_mul(height) {
            Some(n) => if n == len {
                Some(Image { width, height, pixels })
            } else {
                None
            },
            None => None,
        }
    }

    /// A copy with the same dimensions and pixels.
    pub fn duplicate(&self) -> (r: Image)
        ensures
            r@ == self@,
    {
        Image { width: self.width, height: self.height, pixels: copy_pixels(&self.pixels) }
    }
}

/// Where a session standing at `start` ends up after the moves `deltas`,
/// each step clamped to the world as it is taken.
pub open spec fn walk(start: Point, deltas: Seq<Point>) -> Point
    decreases deltas.len(),
{
    if deltas.len() == 0 {
        start
    } else {
        step_spec(walk(start, deltas.drop_last()), deltas.last())
    }
}

/// The sum of the x components of `deltas`.
pub open spec fn sum_x(deltas: Seq<Point>) -> int
    decreases deltas.len(),
{
    if deltas.len() == 0 {
        0
    } else {
        sum_x(deltas.drop_last()) + deltas.last().x
    }
}

/// The sum of the y components of `deltas`.
pub open spec fn sum_y(deltas: Seq<Point>) -> int
    decreases deltas.len(),
{
    if deltas.len() == 0 {
        0
    } else {
        sum_y(deltas.drop_last()) + deltas.last().y
    }
}

/// The running sum of the first `k` moves taken from `start` lies in the world.
pub open spec fn prefix_in_world(start: Point, deltas: Seq<Point>, k: int) -> bool {
    let t = deltas.subrange(0, k);
    0 <= start.x + sum_x(t) <= WORLD_WIDTH && 0 <= start.y + sum_y(t) <= WORLD_HEIGHT
}

/// A session standing at `start` and moved by `deltas` stands at the clamp of the running sum of
/// its moves, provided the running sum stayed in the world before the last
/// move (each step clamps, so once the sum leaves the world the two part).
pub proof fn lemma_walk_is_clamped_sum(start: Point, deltas: Seq<Point>)
    requires
        in_world(start),
        forall|k: int| 0 <= k < deltas.len() ==> #[trigger] prefix_in_world(start, deltas, k),
    ensures
        walk(start, deltas) == clamp_to_world(start.x + sum_x(deltas), start.y + sum_y(deltas)),
    decreases deltas.len(),
{
    if deltas.len() == 0 {
        assert(clamp_to_world(start.x as int, start.y as int) == start);
    } else {
        let init = deltas.drop_last();
        assert forall|k: int| 0 <= k < init.len() implies #[trigger] prefix_in_world(start, init, k) by {
            assert(init.subrange(0, k) =~= deltas.subrange(0, k));
            assert(prefix_in_world(start, deltas, k));
        }
        lemma_walk_is_clamped_sum(start, init);
        assert(deltas.subrange(0, init.len() as int) =~= init);
        assert(prefix_in_world(start, deltas, init.len() as int));
    }
}

/// Over a run of moves, where each stored position is the previous one
/// moved by the next delta and clamped (what every successful motion
/// does), the position after the first `k` moves is `walk` of those moves;
/// and while the running sums stay in the world, it is the running sum.
pub proof fn lemma_motion_run(positions: Seq<Point>, deltas: Seq<Point>)
    requires
        positions.len() == deltas.len() + 1,
        in_world(positions[0]),
        forall|k: int|
            0 <= k < deltas.len() ==> #[trigger] positions[k + 1] == step_spec(
                positions[k],
                deltas[k],
            ),
    ensures
        forall|k: int|
            0 <= k < positions.len() ==> #[trigger] positions[k] == walk(
                positions[0],
                deltas.subrange(0, k),
            ),
        forall|k: int|
            0 <= k < positions.len() && (forall|j: int|
                0 <= j <= k ==> #[trigger] prefix_in_world(positions[0], deltas, j)) ==> positions[k]
                == clamp_to_world(
                positions[0].x + sum_x(deltas.subrange(0, k)),
                positions[0].y + sum_y(deltas.subrange(0, k)),
            ),
    decreases deltas.len(),
{
    if deltas.len() > 0 {
        let n = deltas.len() as int;
        lemma_motion_run(positions.drop_last(), deltas.drop_last());
        assert forall|k: int| 0 <= k < positions.len() implies #[trigger] positions[k] == walk(
            positions[0],
            deltas.subrange(0, k),
        ) by {
            if k < n {
                assert(deltas.drop_last().subrange(0, k) =~= deltas.subrange(0, k));
                assert(positions.drop_last()[k] == positions[k]);
            } else {
                assert(deltas.drop_last().subrange(0, n - 1) =~= deltas.subrange(0, n - 1));
                assert(positions.drop_last()[n - 1] == positions[n - 1]);
                assert(deltas.subrange(0, n).drop_last() =~= deltas.subrange(0, n - 1));
                assert(positions[n - 1 + 1] == step_spec(positions[n - 1], deltas[n - 1]));
            }
        }
    }
    assert forall|k: int|
        0 <= k < positions.len() && (forall|j: int|
            0 <= j <= k ==> #[trigger] prefix_in_world(positions[0], deltas, j)) implies positions[k]
        == clamp_to_world(
        positions[0].x + sum_x(deltas.subrange(0, k)),
        positions[0].y + sum_y(deltas.subrange(0, k)),
    ) by {
        let t = deltas.subrange(0, k);
        assert forall|j: int| 0 <= j < t.len() implies #[trigger] prefix_in_world(positions[0], t, j) by {
            assert(t.subrange(0, j) =~= deltas.subrange(0, j));
            assert(prefix_in_world(positions[0], deltas, j));
        }
        lemma_walk_is_clamped_sum(positions[0], t);
    }
}

} // verus!
