//! Painting a frame buffer: clearing, a saturating colour wash, and sprite
//! blits clipped to both buffers with an optional transparency key.

use vstd::prelude::*;
use vstd::arithmetic::div_mod::{lemma_fundamental_div_mod, lemma_fundamental_div_mod_converse, lemma_div_pos_is_pos, lemma_mod_bound};
use crate::geometry::{Color, Image, Point};

verus! {

/// A row-major grid of pixels that the compositor paints into.
#[derive(Debug)]
pub struct Screen {
    pub width: usize,
    pub height: usize,
    pub pixels: Vec<Color>,
}

impl Screen {
    /// Pixel count matches the dimensions.
    pub open spec fn wf(&self) -> bool {
        self.pixels@.len() == self.width * self.height
    }

    /// A screen of the given size, every pixel `fill`.
    pub fn new(width: usize, height: usize, fill: Color) -> (r: Option<Screen>)
        ensures
            r.is_some() <==> width * height <= usize::MAX,
            r matches Some(s) ==> s.wf() && s.width == width && s.height == height
                && s.pixels@ == Seq::new((width * height) as nat, |i: int| fill),
    {
        let n = width.checked_mul(height);
        match n {
            None => None,
            Some(n) => {
                let mut pixels: Vec<Color> = Vec::with_capacity(n);
                let mut i: usize = 0;
                while i < n
                    invariant
                        i <= n,
                        pixels@ == Seq::new(i as nat, |j: int| fill),
                    decreases n - i,
                {
                    pixels.push(fill);
                    i += 1;
                    assert(pixels@ =~= Seq::new(i as nat, |j: int| fill));
                }
                Some(Screen { width, height, pixels })
            },
        }
    }
}

/// The pixel at column `x`, row `y` of a row-major grid `w` pixels wide.
pub open spec fn pixel_at(s: Seq<Color>, w: int, x: int, y: int) -> Color {
    s[y * w + x]
}

/// Whether `(x, y)` lies under an `iw`×`ih` sprite placed at `pos`.
pub open spec fn covered(pos: Point, iw: int, ih: int, x: int, y: int) -> bool {
    pos.x <= x < pos.x + iw && pos.y <= y < pos.y + ih
}

/// The colour left after drawing `src` over `dst`: a source pixel equal to
/// the key leaves the destination as it was.
pub open spec fn over(dst: Color, src: Color, key: Option<Color>) -> Color {
    match key {
        Some(k) => if src == k { dst } else { src },
        None => src,
    }
}

/// The colour at screen point `(x, y)`, formerly `dst`, after blitting.
pub open spec fn blit_pixel(
    dst: Color,
    img: Seq<Color>,
    iw: int,
    ih: int,
    pos: Point,
    key: Option<Color>,
    x: int,
    y: int,
) -> Color {
    if covered(pos, iw, ih, x, y) {
        over(dst, pixel_at(img, iw, x - pos.x, y - pos.y), key)
    } else {
        dst
    }
}

/// A screen `sw` pixels wide after blitting the sprite `img` at `pos`.
pub open spec fn blit_spec(
    before: Seq<Color>,
    sw: int,
    img: Seq<Color>,
    iw: int,
    ih: int,
    pos: Point,
    key: Option<Color>,
) -> Seq<Color> {
    Seq::new(before.len(), |i: int| blit_pixel(before[i], img, iw, ih, pos, key, i % sw, i / sw))
}

/// A channel moved by `d`, saturating at 0 and 255.
pub open spec fn shift_channel(c: u8, d: int) -> u8 {
    if c + d < 0 {
        0
    } else if c + d > 255 {
        255
    } else {
        (c + d) as u8
    }
}

/// A colour moved channel by channel.
pub open spec fn shift_color(c: Color, dr: int, dg: int, db: int) -> Color {
    Color { r: shift_channel(c.r, dr), g: shift_channel(c.g, dg), b: shift_channel(c.b, db) }
}

proof fn lemma_index_bound(w: int, h: int, x: int, y: int)
    requires
        0 <= x < w,
        0 <= y < h,
    ensures
        0 <= y * w + x < w * h,
{
    assert(0 <= y * w) by (nonlinear_arith)
        requires
            0 <= y,
            0 <= w,
    ;
    assert(y * w + w <= h * w) by (nonlinear_arith)
        requires
            y + 1 <= h,
            0 <= w,
    ;
    assert(w * h == h * w) by (nonlinear_arith);
}

proof fn lemma_index_distinct(w: int, x1: int, y1: int, x2: int, y2: int)
    requires
        0 <= x1 < w,
        0 <= x2 < w,
        x1 != x2 || y1 != y2,
    ensures
        y1 * w + x1 != y2 * w + x2,
{
    if y1 < y2 {
        assert(y1 * w + w <= y2 * w) by (nonlinear_arith)
            requires
                y1 + 1 <= y2,
                0 <= w,
        ;
    } else if y2 < y1 {
        assert(y2 * w + w <= y1 * w) by (nonlinear_arith)
            requires
                y2 + 1 <= y1,
                0 <= w,
        ;
    }
}

/// Row-major coordinates of a pixel index recover the index.
proof fn lemma_coords(w: int, h: int, i: int)
    requires
        0 <= w,
        0 <= h,
        0 <= i < w * h,
    ensures
        w > 0,
        0 <= i % w < w,
        0 <= i / w < h,
        (i / w) * w + i % w == i,
{
    if w == 0 {
        assert(w * h == 0) by (nonlinear_arith)
            requires
                w == 0,
        ;
    }
    lemma_fundamental_div_mod(i, w);
    lemma_mod_bound(i, w);
    lemma_div_pos_is_pos(i, w);
    assert((i / w) * w == w * (i / w)) by (nonlinear_arith);
    if i / w >= h {
        assert(w * (i / w) >= w * h) by (nonlinear_arith)
            requires
                i / w >= h,
                w > 0,
        ;
    }
}

/// `v` lies in `[lo, hi)`.
pub open spec fn within(v: int, lo: int, hi: int) -> bool {
    lo <= v < hi
}

/// The part of `[p, p + len)` that lies in `[0, bound)`, as `[lo, hi)`, and
/// when it is not empty, how far `lo` lies past `p`.
pub fn span(p: i32, len: usize, bound: usize) -> (r: (usize, usize, usize))
    ensures
        r.0 <= r.1 <= bound,
        forall|v: int|
            #[trigger] within(v, r.0 as int, r.1 as int) <==> (within(v, 0, bound as int)
                && within(v, p as int, p + len)),
        r.0 < r.1 ==> r.0 - p == r.2,
{
    if p >= 0 {
        let s = p as usize;
        if s >= bound {
            (bound, bound, 0)
        } else {
            let e = if len <= bound - s {
                s + len
            } else {
                bound
            };
            (s, e, 0)
        }
    } else {
        let neg = (0i64 - p as i64) as usize;
        if len <= neg {
            (0, 0, 0)
        } else {
            let rest = len - neg;
            let e = if rest <= bound {
                rest
            } else {
                bound
            };
            (0, e, neg)
        }
    }
}

/// Paints every pixel of `screen` with `color`.
pub fn clear_to(screen: &mut Screen, color: Color)
    ensures
        final(screen).width == old(screen).width,
        final(screen).height == old(screen).height,
        final(screen).pixels@ == Seq::new(old(screen).pixels@.len(), |i: int| color),
{
    let n = screen.pixels.len();
    let mut i: usize = 0;
    while i < n
        invariant
            i <= n,
            n == old(screen).pixels@.len(),
            screen.width == old(screen).width,
            screen.height == old(screen).height,
            screen.pixels@.len() == n,
            forall|j: int| 0 <= j < i ==> screen.pixels@[j] == color,
        decreases n - i,
    {
        screen.pixels.set(i, color);
        i += 1;
    }
    assert(screen.pixels@ =~= Seq::new(n as nat, |i: int| color));
}

fn shift_u8(c: u8, d: i16) -> (r: u8)
    ensures
        r == shift_channel(c, d as int),
{
    let v = c as i32 + d as i32;
    if v < 0 {
        0
    } else if v > 255 {
        255
    } else {
        v as u8
    }
}

/// Adds `(dr, dg, db)` to every pixel, each channel saturating at 0 and 255.
pub fn tint(screen: &mut Screen, dr: i16, dg: i16, db: i16)
    ensures
        final(screen).width == old(screen).width,
        final(screen).height == old(screen).height,
        final(screen).pixels@ == Seq::new(
            old(screen).pixels@.len(),
            |i: int| shift_color(old(screen).pixels@[i], dr as int, dg as int, db as int),
        ),
{
    let n = screen.pixels.len();
    let mut i: usize = 0;
    while i < n
        invariant
            i <= n,
            n == old(screen).pixels@.len(),
            screen.width == old(screen).width,
            screen.height == old(screen).height,
            screen.pixels@.len() == n,
            forall|j: int|
                0 <= j < i ==> screen.pixels@[j] == shift_color(
                    old(screen).pixels@[j],
                    dr as int,
                    dg as int,
                    db as int,
                ),
            forall|j: int| i <= j < n ==> screen.pixels@[j] == old(screen).pixels@[j],
        decreases n - i,
    {
        let c = screen.pixels[i];
        let shifted = Color { r: shift_u8(c.r, dr), g: shift_u8(c.g, dg), b: shift_u8(c.b, db) };
        screen.pixels.set(i, shifted);
        i += 1;
    }
    assert(screen.pixels@ =~= Seq::new(
        n as nat,
        |i: int| shift_color(old(screen).pixels@[i], dr as int, dg as int, db as int),
    ));
}

/// Screen points before row `y`, and on row `y` before column `x`, show the
/// blit; every other point still shows `before`.
pub open spec fn blitted_up_to(
    cur: Seq<Color>,
    before: Seq<Color>,
    sw: int,
    sh: int,
    img: Seq<Color>,
    iw: int,
    ih: int,
    pos: Point,
    key: Option<Color>,
    x: int,
    y: int,
) -> bool {
    forall|cx: int, cy: int|
        0 <= cx < sw && 0 <= cy < sh ==> #[trigger] pixel_at(cur, sw, cx, cy) == if cy < y || (cy
            == y && cx < x) {
            blit_pixel(pixel_at(before, sw, cx, cy), img, iw, ih, pos, key, cx, cy)
        } else {
            pixel_at(before, sw, cx, cy)
        }
}

/// Draws `image` with its top-left corner at `position`, clipped to the
/// screen. With a transparency key, sprite pixels equal to it are skipped.
/// Nothing outside either buffer is read or written.
pub fn draw_image(
    screen: &mut Screen,
    image: &Image,
    position: Point,
    transparent_color: Option<Color>,
)
    requires
        old(screen).wf(),
        image.wf(),
    ensures
        final(screen).width == old(screen).width,
        final(screen).height == old(screen).height,
        final(screen).pixels@ == blit_spec(
            old(screen).pixels@,
            old(screen).width as int,
            image.pixels@,
            image.width as int,
            image.height as int,
            position,
            transparent_color,
        ),
{
    let ghost before = screen.pixels@;
    let ghost sw = screen.width as int;
    let ghost sh = screen.height as int;
    let ghost img = image.pixels@;
    let ghost iw = image.width as int;
    let ghost ih = image.height as int;
    let (x0, x1, offx) = span(position.x, image.width, screen.width);
    let (y0, y1, offy) = span(position.y, image.height, screen.height);
    let screen_len = screen.pixels.len();
    let image_len = image.pixels.len();
    proof {
        assert forall|cx: int, cy: int| 0 <= cx < sw && 0 <= cy < sh implies #[trigger] pixel_at(
            screen.pixels@,
            sw,
            cx,
            cy,
        ) == if cy < y0 || (cy == y0 && cx < 0) {
            blit_pixel(pixel_at(before, sw, cx, cy), img, iw, ih, position, transparent_color, cx, cy)
        } else {
            pixel_at(before, sw, cx, cy)
        } by {
            if cy < y0 {
                assert(!within(cy, y0 as int, y1 as int));
            }
        }
    }
    let mut y = y0;
    while y < y1
        invariant
            y0 <= y <= y1,
            x0 <= x1 <= sw,
            y1 <= sh,
            sw == screen.width,
            sh == screen.height,
            screen.width == old(screen).width,
            screen.height == old(screen).height,
            before == old(screen).pixels@,
            screen.pixels@.len() == before.len(),
            before.len() == sw * sh,
            before.len() == screen_len,
            img.len() == image_len,
            img == image.pixels@,
            iw == image.width,
            ih == image.height,
            img.len() == iw * ih,
            forall|v: int|
                #[trigger] within(v, x0 as int, x1 as int) <==> (within(v, 0, sw) && within(
                    v,
                    position.x as int,
                    position.x + iw,
                )),
            forall|v: int|
                #[trigger] within(v, y0 as int, y1 as int) <==> (within(v, 0, sh) && within(
                    v,
                    position.y as int,
                    position.y + ih,
                )),
            x0 < x1 ==> x0 - position.x == offx,
            y0 < y1 ==> y0 - position.y == offy,
            blitted_up_to(
                screen.pixels@,
                before,
                sw,
                sh,
                img,
                iw,
                ih,
                position,
                transparent_color,
                0,
                y as int,
            ),
        decreases y1 - y,
    {
        assert(within(y as int, y0 as int, y1 as int));
        let iy = y - y0 + offy;
        proof {
            assert forall|cx: int, cy: int| 0 <= cx < sw && 0 <= cy < sh implies #[trigger] pixel_at(
                screen.pixels@,
                sw,
                cx,
                cy,
            ) == if cy < y || (cy == y && cx < x0) {
                blit_pixel(pixel_at(before, sw, cx, cy), img, iw, ih, position, transparent_color, cx, cy)
            } else {
                pixel_at(before, sw, cx, cy)
            } by {
                if cy == y && cx < x0 {
                    assert(!within(cx, x0 as int, x1 as int));
                }
            }
        }
        let mut x = x0;
        while x < x1
            invariant
                y0 <= y < y1,
                x0 <= x <= x1,
                x1 <= sw,
                y1 <= sh,
                iy == y - position.y,
                sw == screen.width,
                sh == screen.height,
                screen.width == old(screen).width,
                screen.height == old(screen).height,
                before == old(screen).pixels@,
                screen.pixels@.len() == before.len(),
                before.len() == sw * sh,
            before.len() == screen_len,
            img.len() == image_len,
                img == image.pixels@,
                iw == image.width,
                ih == image.height,
                img.len() == iw * ih,
                forall|v: int|
                    #[trigger] within(v, x0 as int, x1 as int) <==> (within(v, 0, sw) && within(
                        v,
                        position.x as int,
                        position.x + iw,
                    )),
                forall|v: int|
                    #[trigger] within(v, y0 as int, y1 as int) <==> (within(v, 0, sh) && within(
                        v,
                        position.y as int,
                        position.y + ih,
                    )),
                x0 < x1 ==> x0 - position.x == offx,
                blitted_up_to(
                    screen.pixels@,
                    before,
                    sw,
                    sh,
                    img,
                    iw,
                    ih,
                    position,
                    transparent_color,
                    x as int,
                    y as int,
                ),
            decreases x1 - x,
        {
            assert(within(x as int, x0 as int, x1 as int));
            let ix = x - x0 + offx;
            proof {
                assert(within(y as int, y0 as int, y1 as int));
                lemma_index_bound(sw, sh, x as int, y as int);
                lemma_index_bound(iw, ih, ix as int, iy as int);
            }
            let idx = y * screen.width + x;
            let src = image.pixels[iy * image.width + ix];
            let paint = match transparent_color {
                Some(k) => src != k,
                None => true,
            };
            let ghost prev = screen.pixels@;
            if paint {
                screen.pixels.set(idx, src);
            }
            proof {
                assert forall|cx: int, cy: int| 0 <= cx < sw && 0 <= cy < sh implies #[trigger] pixel_at(
                    screen.pixels@,
                    sw,
                    cx,
                    cy,
                ) == if cy < y || (cy == y && cx < x + 1) {
                    blit_pixel(pixel_at(before, sw, cx, cy), img, iw, ih, position, transparent_color, cx, cy)
                } else {
                    pixel_at(before, sw, cx, cy)
                } by {
                    if cx != x || cy != y {
                        lemma_index_distinct(sw, cx, cy, x as int, y as int);
                        lemma_index_bound(sw, sh, cx, cy);
                        assert(idx as int == y * sw + x);
                        assert(pixel_at(screen.pixels@, sw, cx, cy) == pixel_at(prev, sw, cx, cy));
                    } else {
                        assert(pixel_at(prev, sw, cx, cy) == pixel_at(before, sw, cx, cy));
                    }
                }
            }
            x += 1;
        }
        proof {
            assert forall|cx: int, cy: int| 0 <= cx < sw && 0 <= cy < sh implies #[trigger] pixel_at(
                screen.pixels@,
                sw,
                cx,
                cy,
            ) == if cy < y + 1 || (cy == y + 1 && cx < 0) {
                blit_pixel(pixel_at(before, sw, cx, cy), img, iw, ih, position, transparent_color, cx, cy)
            } else {
                pixel_at(before, sw, cx, cy)
            } by {
                if cy == y && cx >= x1 {
                    assert(!within(cx, x0 as int, x1 as int));
                }
            }
        }
        y += 1;
    }
    proof {
        let cur = screen.pixels@;
        let target = blit_spec(before, sw, img, iw, ih, position, transparent_color);
        assert forall|i: int| 0 <= i < cur.len() implies cur[i] == target[i] by {
            lemma_coords(sw, sh, i);
            let cx = i % sw;
            let cy = i / sw;
            assert(pixel_at(cur, sw, cx, cy) == cur[i]);
            if cy >= y1 {
                assert(!within(cy, y0 as int, y1 as int));
            }
        }
        assert(cur =~= target);
    }
}

/// The blit seen at one screen point.
pub proof fn lemma_blit_at(
    before: Seq<Color>,
    sw: int,
    sh: int,
    img: Seq<Color>,
    iw: int,
    ih: int,
    pos: Point,
    key: Option<Color>,
    x: int,
    y: int,
)
    requires
        before.len() == sw * sh,
        0 <= x < sw,
        0 <= y < sh,
    ensures
        pixel_at(blit_spec(before, sw, img, iw, ih, pos, key), sw, x, y) == blit_pixel(
            pixel_at(before, sw, x, y),
            img,
            iw,
            ih,
            pos,
            key,
            x,
            y,
        ),
{
    lemma_index_bound(sw, sh, x, y);
    lemma_fundamental_div_mod_converse(y * sw + x, sw, y, x);
}

/// Blitting without a transparency key overwrites every screen point under
/// the sprite with the sprite's pixel, and leaves every other point as it was.
pub proof fn lemma_opaque_blit_overwrites(
    before: Seq<Color>,
    sw: int,
    sh: int,
    img: Seq<Color>,
    iw: int,
    ih: int,
    pos: Point,
)
    requires
        before.len() == sw * sh,
    ensures
        forall|x: int, y: int|
            0 <= x < sw && 0 <= y < sh ==> #[trigger] pixel_at(
                blit_spec(before, sw, img, iw, ih, pos, None),
                sw,
                x,
                y,
            ) == if covered(pos, iw, ih, x, y) {
                pixel_at(img, iw, x - pos.x, y - pos.y)
            } else {
                pixel_at(before, sw, x, y)
            },
{
    assert forall|x: int, y: int| 0 <= x < sw && 0 <= y < sh implies #[trigger] pixel_at(
        blit_spec(before, sw, img, iw, ih, pos, None),
        sw,
        x,
        y,
    ) == if covered(pos, iw, ih, x, y) {
        pixel_at(img, iw, x - pos.x, y - pos.y)
    } else {
        pixel_at(before, sw, x, y)
    } by {
        lemma_blit_at(before, sw, sh, img, iw, ih, pos, None, x, y);
    }
}

/// Blitting with a transparency key that every sprite pixel equals leaves
/// the screen exactly as it was.
pub proof fn lemma_fully_transparent_blit_is_identity(
    before: Seq<Color>,
    sw: int,
    sh: int,
    img: Seq<Color>,
    iw: int,
    ih: int,
    pos: Point,
    key: Color,
)
    requires
        0 <= sw,
        0 <= sh,
        before.len() == sw * sh,
        0 <= iw,
        0 <= ih,
        img.len() == iw * ih,
        forall|i: int| 0 <= i < img.len() ==> img[i] == key,
    ensures
        blit_spec(before, sw, img, iw, ih, pos, Some(key)) == before,
{
    let after = blit_spec(before, sw, img, iw, ih, pos, Some(key));
    assert forall|i: int| 0 <= i < before.len() implies after[i] == before[i] by {
        lemma_coords(sw, sh, i);
        let x = i % sw;
        let y = i / sw;
        if covered(pos, iw, ih, x, y) {
            lemma_index_bound(iw, ih, x - pos.x, y - pos.y);
        }
    }
    assert(after =~= before);
}

/// Wherever the sprite is placed, however far off-screen, the blit keeps the
/// screen's size and changes no point outside the part of the sprite that
/// lies on the screen.
pub proof fn lemma_blit_stays_in_bounds(
    before: Seq<Color>,
    sw: int,
    sh: int,
    img: Seq<Color>,
    iw: int,
    ih: int,
    pos: Point,
    key: Option<Color>,
)
    requires
        before.len() == sw * sh,
    ensures
        blit_spec(before, sw, img, iw, ih, pos, key).len() == before.len(),
        forall|x: int, y: int|
            0 <= x < sw && 0 <= y < sh && !covered(pos, iw, ih, x, y) ==> #[trigger] pixel_at(
                blit_spec(before, sw, img, iw, ih, pos, key),
                sw,
                x,
                y,
            ) == pixel_at(before, sw, x, y),
{
    assert forall|x: int, y: int|
        0 <= x < sw && 0 <= y < sh && !covered(pos, iw, ih, x, y) implies #[trigger] pixel_at(
        blit_spec(before, sw, img, iw, ih, pos, key),
        sw,
        x,
        y,
    ) == pixel_at(before, sw, x, y) by {
        lemma_blit_at(before, sw, sh, img, iw, ih, pos, key, x, y);
    }
}

} // verus!
