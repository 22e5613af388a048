//! Pictures of point lists as images: a canvas of RGBA pixels, the frame
//! that fits a list of points with a margin, grid lines through the origin,
//! and pictures of several lists stacked or coloured along a gradient.
use vstd::prelude::*;
use crate::parser::{E, Int};
use crate::visualize::{
    collect_list_of_coords, collect_list_of_list_of_coords, coords_list, max_x, max_y, min_x, min_y,
    lemma_bounds,
};

verus! {

/// An image: `width` columns and `height` rows of RGBA pixels, stored row
/// after row.
pub struct Canvas {
    pub width: u32,
    pub height: u32,
    pub pixels: Vec<[u8; 4]>,
}

/// The colour of the turbo gradient at `i` of `n` steps:
/// `colorous::TURBO.eval_rational(i, n)`.
pub uninterp spec fn turbo(i: usize, n: usize) -> (u8, u8, u8);

/// Samples the turbo colour map: calls `colorous::TURBO.eval_rational(i, n)`
/// (which panics for `n == 0`) and returns the colour's red, green and blue.
/// The colour is claimed to be `turbo(i, n)` and nothing more.
#[verifier::external_body]
fn turbo_color(i: usize, n: usize) -> (r: (u8, u8, u8))
    requires
        n > 0,
    ensures
        r == turbo(i, n),
{
    let c = colorous::TURBO.eval_rational(i, n);
    (c.r, c.g, c.b)
}

/// The place of `(x, y)` in the pixels of a canvas `w` wide and `h` high
/// is in range.
proof fn lemma_index(x: int, y: int, w: int, h: int)
    requires
        0 <= x < w,
        0 <= y < h,
    ensures
        0 <= y * w + x < w * h,
{
    assert(0 <= y * w + x < w * h) by (nonlinear_arith)
        requires
            0 <= x < w,
            0 <= y < h,
    ;
}

/// No two points of a canvas `w` wide share a place.
proof fn lemma_index_inj(x: int, y: int, x2: int, y2: int, w: int)
    requires
        0 <= x < w,
        0 <= x2 < w,
        0 <= y,
        0 <= y2,
        y2 * w + x2 == y * w + x,
    ensures
        x2 == x && y2 == y,
{
    assert(x2 == x && y2 == y) by (nonlinear_arith)
        requires
            0 <= x < w,
            0 <= x2 < w,
            0 <= y,
            0 <= y2,
            y2 * w + x2 == y * w + x,
    ;
}

impl Canvas {
    /// The canvas holds one pixel for each column of each row.
    pub open spec fn wf(self) -> bool {
        self.pixels@.len() == self.width * self.height
    }

    /// The pixel at column `x` of row `y`.
    pub open spec fn at(self, x: int, y: int) -> [u8; 4] {
        self.pixels@[y * self.width + x]
    }

    /// A canvas `width` by `height` with every pixel `fill`.
    pub fn new(width: u32, height: u32, fill: [u8; 4]) -> (r: Self)
        requires
            width * height <= usize::MAX,
        ensures
            r.wf(),
            r.width == width,
            r.height == height,
            forall|x: int, y: int| 0 <= x < width && 0 <= y < height ==> r.at(x, y) == fill,
    {
        let n = (width as usize) * (height as usize);
        let mut pixels: Vec<[u8; 4]> = Vec::new();
        let mut i: usize = 0;
        while i < n
            invariant
                i <= n,
                pixels@.len() == i,
                forall|k: int| 0 <= k < i ==> pixels@[k] == fill,
            decreases n - i,
        {
            pixels.push(fill);
            i = i + 1;
        }
        let r = Canvas { width, height, pixels };
        assert forall|x: int, y: int| 0 <= x < width && 0 <= y < height implies r.at(x, y) == fill by {
            lemma_index(x, y, width as int, height as int);
        }
        r
    }

    /// The pixel at column `x` of row `y`.
    pub fn get_pixel(&self, x: u32, y: u32) -> (r: [u8; 4])
        requires
            self.wf(),
            x < self.width,
            y < self.height,
        ensures
            r == self.at(x as int, y as int),
    {
        proof {
            lemma_index(x as int, y as int, self.width as int, self.height as int);
        }
        assert((y as int) * (self.width as int) + (x as int) < self.pixels.len());
        self.pixels[(y as usize) * (self.width as usize) + (x as usize)]
    }

    /// Sets the pixel at column `x` of row `y` to `px`; every other pixel
    /// stays.
    pub fn put_pixel(&mut self, x: u32, y: u32, px: [u8; 4])
        requires
            old(self).wf(),
            x < old(self).width,
            y < old(self).height,
        ensures
            final(self).wf(),
            final(self).width == old(self).width,
            final(self).height == old(self).height,
            forall|x2: int, y2: int|
                0 <= x2 < old(self).width && 0 <= y2 < old(self).height ==>
                    #[trigger] final(self).at(x2, y2) == if x2 == x && y2 == y {
                    px
                } else {
                    old(self).at(x2, y2)
                },
    {
        proof {
            lemma_index(x as int, y as int, self.width as int, self.height as int);
        }
        assert((y as int) * (self.width as int) + (x as int) < self.pixels.len());
        let k = (y as usize) * (self.width as usize) + (x as usize);
        self.pixels.set(k, px);
        proof {
            assert forall|x2: int, y2: int|
                0 <= x2 < old(self).width && 0 <= y2 < old(self).height implies #[trigger] self.at(
                x2,
                y2,
            ) == if x2 == x && y2 == y {
                px
            } else {
                old(self).at(x2, y2)
            } by {
                lemma_index(x2, y2, self.width as int, self.height as int);
                lemma_index(x as int, y as int, self.width as int, self.height as int);
                if y2 * self.width + x2 == y * self.width + x {
                    lemma_index_inj(x as int, y as int, x2, y2, self.width as int);
                }
            }
        }
    }
}

/// The points of the list `e` (see `visualize::collect_list_of_coords`).
pub fn translate_to_vec(e: &E) -> (r: Option<Vec<(Int, Int)>>)
    ensures
        match r {
            Some(v) => coords_list(*e) == Some(v@),
            None => coords_list(*e) is None,
        },
{
    collect_list_of_coords(e)
}

/// The lists of points of the list `e` (see
/// `visualize::collect_list_of_list_of_coords`).
pub fn translate_to_vecvec(e: &E) -> (r: Option<Vec<Vec<(Int, Int)>>>)
    ensures
        match r {
            Some(v) => crate::parser::list_of(*e) matches Some(items) && v@.len() == items.len()
                && forall|i: int| 0 <= i < items.len() ==> coords_list(#[trigger] items[i]) == Some(v@[i]@),
            None => !(crate::parser::list_of(*e) matches Some(items) && forall|i: int|
                0 <= i < items.len() ==> (#[trigger] coords_list(items[i])) is Some),
        },
{
    collect_list_of_list_of_coords(e)
}

/// Whether the frame of the points `s` fits: the points spread over at
/// most `2^32 - 4` columns and rows, and the least coordinates leave room
/// for the margin.
pub open spec fn frame_fits(s: Seq<(Int, Int)>) -> bool {
    &&& s.len() > 0
    &&& max_x(s) - min_x(s) + 3 <= u32::MAX
    &&& max_y(s) - min_y(s) + 3 <= u32::MAX
    &&& min_x(s) >= i128::MIN + 2
    &&& min_y(s) >= i128::MIN + 2
}

/// The frame of the points `s`: its width and height, with a margin of one
/// pixel around the points, and the offset that takes a point to its pixel.
pub open spec fn frame(s: Seq<(Int, Int)>) -> ((u32, u32), (Int, Int)) {
    (
        ((max_x(s) - min_x(s) + 3) as u32, (max_y(s) - min_y(s) + 3) as u32),
        ((1 - min_x(s)) as Int, (1 - min_y(s)) as Int),
    )
}

/// The frame of the points (see `frame`).
pub fn range_v(v: &Vec<(Int, Int)>) -> (r: ((u32, u32), (Int, Int)))
    requires
        frame_fits(v@),
    ensures
        r == frame(v@),
{
    let ghost s = v@;
    let n = v.len();
    let mut mnx = v[0].0;
    let mut mxx = v[0].0;
    let mut mny = v[0].1;
    let mut mxy = v[0].1;
    let mut i: usize = 1;
    while i < n
        invariant
            1 <= i <= n,
            n == v.len(),
            s == v@,
            mnx == min_x(s.take(i as int)),
            mxx == max_x(s.take(i as int)),
            mny == min_y(s.take(i as int)),
            mxy == max_y(s.take(i as int)),
        decreases n - i,
    {
        let c = v[i];
        proof {
            assert(s.take(i + 1).drop_last() == s.take(i as int));
            assert(s.take(i + 1).last() == c);
        }
        if c.0 < mnx {
            mnx = c.0;
        }
        if c.0 > mxx {
            mxx = c.0;
        }
        if c.1 < mny {
            mny = c.1;
        }
        if c.1 > mxy {
            mxy = c.1;
        }
        i = i + 1;
    }
    assert(s.take(n as int) == s);
    proof {
        lemma_bounds(s);
    }
    let w = (mxx - mnx + 3) as u32;
    let h = (mxy - mny + 3) as u32;
    ((w, h), (1 - mnx, 1 - mny))
}

/// The points of all the lists, one list after the other.
pub open spec fn flat(vv: Seq<Vec<(Int, Int)>>) -> Seq<(Int, Int)>
    decreases vv.len(),
{
    if vv.len() == 0 {
        Seq::empty()
    } else {
        flat(vv.drop_last()) + vv.last()@
    }
}

/// The frame of the points of all the lists (see `frame`).
pub fn range_vv(vv: &Vec<Vec<(Int, Int)>>) -> (r: ((u32, u32), (Int, Int)))
    requires
        frame_fits(flat(vv@)),
    ensures
        r == frame(flat(vv@)),
{
    let mut all: Vec<(Int, Int)> = Vec::new();
    let mut i: usize = 0;
    while i < vv.len()
        invariant
            i <= vv.len(),
            all@ == flat(vv@.take(i as int)),
        decreases vv.len() - i,
    {
        let mut j: usize = 0;
        let ghost before = all@;
        while j < vv[i].len()
            invariant
                i < vv.len(),
                j <= vv@[i as int]@.len(),
                all@ == before + vv@[i as int]@.take(j as int),
            decreases vv@[i as int]@.len() - j,
        {
            all.push(vv[i][j]);
            assert(vv@[i as int]@.take(j + 1) == vv@[i as int]@.take(j as int).push(vv@[i as int]@[j as int]));
            j = j + 1;
        }
        assert(vv@[i as int]@.take(j as int) == vv@[i as int]@);
        assert(vv@.take(i + 1).drop_last() == vv@.take(i as int));
        i = i + 1;
    }
    assert(vv@.take(vv.len() as int) == vv@);
    range_v(&all)
}

/// The pixel a point lands on with the offset `offset`, if it is in the
/// range of `u32` on both axes.
pub open spec fn spot(p: (Int, Int), offset: (Int, Int)) -> Option<(int, int)> {
    let x = p.0 + offset.0;
    let y = p.1 + offset.1;
    if 0 <= x <= u32::MAX && 0 <= y <= u32::MAX {
        Some((x, y))
    } else {
        None
    }
}

/// Whether some point of `dots` lands on `(x, y)`.
pub open spec fn hit(dots: Seq<(Int, Int)>, offset: (Int, Int), x: int, y: int) -> bool {
    exists|i: int| 0 <= i < dots.len() && #[trigger] spot(dots[i], offset) == Some((x, y))
}

/// Whether every point of `dots` can be moved by `offset` within `i128`,
/// and every one that lands in the range of `u32` lands on the canvas
/// `w` by `h` blown up `scale` times.
pub open spec fn lands(dots: Seq<(Int, Int)>, offset: (Int, Int), w: int, h: int, scale: int) -> bool {
    forall|i: int|
        0 <= i < dots.len() ==> {
            &&& i128::MIN <= #[trigger] dots[i].0 + offset.0 <= i128::MAX
            &&& i128::MIN <= dots[i].1 + offset.1 <= i128::MAX
            &&& (spot(dots[i], offset) matches Some((x, y)) ==> (x + 1) * scale <= w && (y + 1)
                * scale <= h)
        }
}

/// Paints with `px` each pixel that a point of `dots` lands on.
pub fn draw_on(img: &mut Canvas, dots: &Vec<(Int, Int)>, offset: &(Int, Int), px: [u8; 4])
    requires
        old(img).wf(),
        lands(dots@, *offset, old(img).width as int, old(img).height as int, 1),
    ensures
        final(img).wf(),
        final(img).width == old(img).width,
        final(img).height == old(img).height,
        forall|x: int, y: int|
            0 <= x < old(img).width && 0 <= y < old(img).height ==> #[trigger] final(img).at(x, y)
                == if hit(dots@, *offset, x, y) {
                px
            } else {
                old(img).at(x, y)
            },
{
    let ghost w = img.width as int;
    let ghost h = img.height as int;
    let mut i: usize = 0;
    while i < dots.len()
        invariant
            i <= dots.len(),
            img.wf(),
            img.width == w,
            img.height == h,
            w == old(img).width,
            h == old(img).height,
            lands(dots@, *offset, w, h, 1),
            forall|x: int, y: int|
                0 <= x < w && 0 <= y < h ==> #[trigger] img.at(x, y) == if hit(
                    dots@.take(i as int),
                    *offset,
                    x,
                    y,
                ) {
                    px
                } else {
                    old(img).at(x, y)
                },
        decreases dots.len() - i,
    {
        let d = dots[i];
        assert(i128::MIN <= dots@[i as int].0 + offset.0 <= i128::MAX);
        let x = d.0 + offset.0;
        let y = d.1 + offset.1;
        let ghost before = *img;
        if 0 <= x && x <= 0xffff_ffff && 0 <= y && y <= 0xffff_ffff {
            img.put_pixel(x as u32, y as u32, px);
        }
        proof {
            assert forall|xx: int, yy: int| 0 <= xx < w && 0 <= yy < h implies #[trigger] img.at(
                xx,
                yy,
            ) == if hit(dots@.take(i + 1), *offset, xx, yy) {
                px
            } else {
                old(img).at(xx, yy)
            } by {
                let t = dots@.take(i + 1);
                assert(t[i as int] == dots@[i as int]);
                if hit(dots@.take(i as int), *offset, xx, yy) {
                    let k = choose|k: int|
                        0 <= k < i && #[trigger] spot(dots@.take(i as int)[k], *offset) == Some(
                            (xx, yy),
                        );
                    assert(t[k] == dots@.take(i as int)[k]);
                }
                if hit(t, *offset, xx, yy) && !hit(dots@.take(i as int), *offset, xx, yy) {
                    let k = choose|k: int| 0 <= k < i + 1 && #[trigger] spot(t[k], *offset) == Some((xx, yy));
                    if k < i {
                        assert(dots@.take(i as int)[k] == t[k]);
                    }
                }
            }
        }
        i = i + 1;
    }
    assert(dots@.take(dots.len() as int) == dots@);
}

/// A coordinate `c >= 0` blown up `s` times lands in cell `x` exactly when
/// it lies in `[x * s, x * s + s)`.
proof fn lemma_block(c: int, s: int, x: int)
    requires
        s > 0,
        c >= 0,
    ensures
        (c / s == x) <==> (x * s <= c < x * s + s),
{
    vstd::arithmetic::div_mod::lemma_fundamental_div_mod(c, s);
    vstd::arithmetic::div_mod::lemma_mod_bound(c, s);
    let q = c / s;
    let r = c % s;
    if x * s <= c < x * s + s {
        assert(q == x) by (nonlinear_arith)
            requires
                s > 0,
                c == s * q + r,
                0 <= r < s,
                x * s <= c < x * s + s,
        ;
    }
    if q == x {
        assert(x * s <= c < x * s + s) by (nonlinear_arith)
            requires
                s > 0,
                c == s * q + r,
                0 <= r < s,
                q == x,
        ;
    }
}

/// Whether `(x, y)` lies in the cell `(cx, cy)` of a picture blown up `s`
/// times.
pub open spec fn in_cell(x: int, y: int, cx: int, cy: int, s: int) -> bool {
    cx * s <= x < cx * s + s && cy * s <= y < cy * s + s
}

/// Paints with `px` the square of side `s` at cell `(cx, cy)`.
fn fill_block(img: &mut Canvas, cx: u32, cy: u32, s: u32, px: [u8; 4])
    requires
        old(img).wf(),
        s > 0,
        (cx + 1) * s <= old(img).width,
        (cy + 1) * s <= old(img).height,
    ensures
        final(img).wf(),
        final(img).width == old(img).width,
        final(img).height == old(img).height,
        forall|x: int, y: int|
            0 <= x < old(img).width && 0 <= y < old(img).height ==> #[trigger] final(img).at(x, y)
                == if in_cell(x, y, cx as int, cy as int, s as int) {
                px
            } else {
                old(img).at(x, y)
            },
{
    let ghost w = img.width as int;
    let ghost h = img.height as int;
    assert((cx + 1) * s == cx * s + s) by (nonlinear_arith);
    assert((cy + 1) * s == cy * s + s) by (nonlinear_arith);
    let bx = cx * s;
    let by = cy * s;
    let mut xs: u32 = 0;
    while xs < s
        invariant
            xs <= s,
            s > 0,
            img.wf(),
            img.width == w,
            img.height == h,
            w == old(img).width,
            h == old(img).height,
            bx == cx * s,
            by == cy * s,
            bx + s <= w,
            by + s <= h,
            forall|x: int, y: int|
                0 <= x < w && 0 <= y < h ==> #[trigger] img.at(x, y) == if bx <= x < bx + xs && by
                    <= y < by + s {
                    px
                } else {
                    old(img).at(x, y)
                },
        decreases s - xs,
    {
        let mut ys: u32 = 0;
        let ghost before = *img;
        while ys < s
            invariant
                xs < s,
                ys <= s,
                img.wf(),
                img.width == w,
                img.height == h,
                bx + s <= w,
                by + s <= h,
                forall|x: int, y: int|
                    0 <= x < w && 0 <= y < h ==> #[trigger] img.at(x, y) == if x == bx + xs && by
                        <= y < by + ys {
                        px
                    } else {
                        before.at(x, y)
                    },
            decreases s - ys,
        {
            img.put_pixel(bx + xs, by + ys, px);
            ys = ys + 1;
        }
        xs = xs + 1;
    }
}

/// Whether some point of `dots` lands on the cell of `(x, y)` in a picture
/// blown up `s` times.
pub open spec fn hit_scaled(dots: Seq<(Int, Int)>, offset: (Int, Int), s: int, x: int, y: int) -> bool {
    s > 0 && hit(dots, offset, x / s, y / s)
}

/// Paints with `px`, in a picture blown up `scale` times, the square of
/// each pixel that a point of `dots` lands on.
pub fn draw_on_scale(img: &mut Canvas, dots: &Vec<(Int, Int)>, offset: &(Int, Int), px: [u8; 4], scale: u32)
    requires
        old(img).wf(),
        lands(dots@, *offset, old(img).width as int, old(img).height as int, scale as int),
    ensures
        final(img).wf(),
        final(img).width == old(img).width,
        final(img).height == old(img).height,
        forall|x: int, y: int|
            0 <= x < old(img).width && 0 <= y < old(img).height ==> #[trigger] final(img).at(x, y)
                == if hit_scaled(dots@, *offset, scale as int, x, y) {
                px
            } else {
                old(img).at(x, y)
            },
{
    let ghost w = img.width as int;
    let ghost h = img.height as int;
    let mut i: usize = 0;
    while i < dots.len()
        invariant
            i <= dots.len(),
            img.wf(),
            img.width == w,
            img.height == h,
            w == old(img).width,
            h == old(img).height,
            lands(dots@, *offset, w, h, scale as int),
            forall|x: int, y: int|
                0 <= x < w && 0 <= y < h ==> #[trigger] img.at(x, y) == if hit_scaled(
                    dots@.take(i as int),
                    *offset,
                    scale as int,
                    x,
                    y,
                ) {
                    px
                } else {
                    old(img).at(x, y)
                },
        decreases dots.len() - i,
    {
        let d = dots[i];
        assert(i128::MIN <= dots@[i as int].0 + offset.0 <= i128::MAX);
        let x = d.0 + offset.0;
        let y = d.1 + offset.1;
        let ghost before = *img;
        let inside = 0 <= x && x <= 0xffff_ffff && 0 <= y && y <= 0xffff_ffff;
        if inside && scale > 0 {
            fill_block(img, x as u32, y as u32, scale, px);
        }
        proof {
            assert forall|xx: int, yy: int| 0 <= xx < w && 0 <= yy < h implies #[trigger] img.at(
                xx,
                yy,
            ) == if hit_scaled(dots@.take(i + 1), *offset, scale as int, xx, yy) {
                px
            } else {
                old(img).at(xx, yy)
            } by {
                let t = dots@.take(i + 1);
                assert(t[i as int] == dots@[i as int]);
                if scale > 0 {
                    lemma_block(xx, scale as int, x as int);
                    lemma_block(yy, scale as int, y as int);
                    let cx = xx / scale as int;
                    let cy = yy / scale as int;
                    if hit(dots@.take(i as int), *offset, cx, cy) {
                        let k = choose|k: int|
                            0 <= k < i && #[trigger] spot(dots@.take(i as int)[k], *offset) == Some(
                                (cx, cy),
                            );
                        assert(t[k] == dots@.take(i as int)[k]);
                    }
                    if hit(t, *offset, cx, cy) && !hit(dots@.take(i as int), *offset, cx, cy) {
                        let k = choose|k: int| 0 <= k < i + 1 && #[trigger] spot(t[k], *offset) == Some((cx, cy));
                        if k < i {
                            assert(dots@.take(i as int)[k] == t[k]);
                        }
                    }
                }
            }
        }
        i = i + 1;
    }
    assert(dots@.take(dots.len() as int) == dots@);
}

/// The colour of the axes.
pub open spec fn axes_color() -> [u8; 4] {
    [255, 0, 0, 255]
}

/// The colour of the grid.
pub open spec fn grid_color() -> [u8; 4] {
    [127, 127, 127, 255]
}

/// The colour of the line at coordinate `c` of a grid with lines `step`
/// apart through the axis at `o`, if a line lies there: none when `o` is
/// out of the range of `u32`.
pub open spec fn line_at(o: Int, step: int, c: int) -> Option<[u8; 4]> {
    if 0 <= o <= u32::MAX && c % step == (o as int) % step {
        Some(if c == o { axes_color() } else { grid_color() })
    } else {
        None
    }
}

/// The pixel at `(x, y)` with the grid drawn over `under`: the columns of
/// the grid cover its rows.
pub open spec fn with_axes(under: [u8; 4], offset: (Int, Int), step: int, x: int, y: int) -> [u8; 4] {
    match line_at(offset.0, step, x) {
        Some(c) => c,
        None => match line_at(offset.1, step, y) {
            Some(c) => c,
            None => under,
        },
    }
}

/// No coordinate strictly between `c` and `c + step` has the remainder of
/// `c`, and `c + step` has it.
proof fn lemma_mod_gap(c: int, d: int, step: int)
    requires
        c >= 0,
        step > 0,
        0 <= d,
    ensures
        (c + step) % step == c % step,
        0 < d < step ==> (c + d) % step != c % step,
{
    vstd::arithmetic::div_mod::lemma_mod_add_multiples_vanish(c, step);
    if 0 < d < step {
        vstd::arithmetic::div_mod::lemma_fundamental_div_mod(c, step);
        vstd::arithmetic::div_mod::lemma_fundamental_div_mod(c + d, step);
        vstd::arithmetic::div_mod::lemma_mod_bound(c, step);
        vstd::arithmetic::div_mod::lemma_mod_bound(c + d, step);
        let q1 = c / step;
        let q2 = (c + d) / step;
        if (c + d) % step == c % step {
            assert(false) by (nonlinear_arith)
                requires
                    step > 0,
                    0 < d < step,
                    c == step * q1 + c % step,
                    c + d == step * q2 + (c + d) % step,
                    (c + d) % step == c % step,
            ;
        }
    }
}

/// Paints every pixel of row `y` with `c`.
fn paint_row(img: &mut Canvas, y: u32, c: [u8; 4])
    requires
        old(img).wf(),
        y < old(img).height,
    ensures
        final(img).wf(),
        final(img).width == old(img).width,
        final(img).height == old(img).height,
        forall|xx: int, yy: int|
            0 <= xx < old(img).width && 0 <= yy < old(img).height ==> #[trigger] final(img).at(xx, yy)
                == if yy == y {
                c
            } else {
                old(img).at(xx, yy)
            },
{
    let w = img.width;
    let ghost h = img.height as int;
    let mut x: u32 = 0;
    while x < w
        invariant
            x <= w,
            y < h,
            img.wf(),
            img.width == w,
            img.height == h,
            w == old(img).width,
            h == old(img).height,
            forall|xx: int, yy: int|
                0 <= xx < w && 0 <= yy < h ==> #[trigger] img.at(xx, yy) == if yy == y && xx < x {
                    c
                } else {
                    old(img).at(xx, yy)
                },
        decreases w - x,
    {
        img.put_pixel(x, y, c);
        x = x + 1;
    }
}

/// Paints every pixel of column `x` with `c`.
fn paint_col(img: &mut Canvas, x: u32, c: [u8; 4])
    requires
        old(img).wf(),
        x < old(img).width,
    ensures
        final(img).wf(),
        final(img).width == old(img).width,
        final(img).height == old(img).height,
        forall|xx: int, yy: int|
            0 <= xx < old(img).width && 0 <= yy < old(img).height ==> #[trigger] final(img).at(xx, yy)
                == if xx == x {
                c
            } else {
                old(img).at(xx, yy)
            },
{
    let h = img.height;
    let ghost w = img.width as int;
    let mut y: u32 = 0;
    while y < h
        invariant
            y <= h,
            x < w,
            img.wf(),
            img.width == w,
            img.height == h,
            w == old(img).width,
            h == old(img).height,
            forall|xx: int, yy: int|
                0 <= xx < w && 0 <= yy < h ==> #[trigger] img.at(xx, yy) == if xx == x && yy < y {
                    c
                } else {
                    old(img).at(xx, yy)
                },
        decreases h - y,
    {
        img.put_pixel(x, y, c);
        y = y + 1;
    }
}

/// Draws the grid with lines `step` apart through the axes at `offset`
/// (see `with_axes`).
pub fn draw_axes(img: &mut Canvas, offset: &(Int, Int), step: u32)
    requires
        old(img).wf(),
        step > 0,
    ensures
        final(img).wf(),
        final(img).width == old(img).width,
        final(img).height == old(img).height,
        forall|x: int, y: int|
            0 <= x < old(img).width && 0 <= y < old(img).height ==> #[trigger] final(img).at(x, y)
                == with_axes(old(img).at(x, y), *offset, step as int, x, y),
{
    let w = img.width;
    let h = img.height;
    let ghost mid = *img;
    if 0 <= offset.1 && offset.1 <= 0xffff_ffff {
        let ya = offset.1 as u32;
        let r = ya % step;
        proof {
            vstd::arithmetic::div_mod::lemma_small_mod(r as nat, step as nat);
            assert forall|yy: int| 0 <= yy < r implies #[trigger] (yy % (step as int)) != r by {
                vstd::arithmetic::div_mod::lemma_small_mod(yy as nat, step as nat);
            }
        }
        let mut y: u64 = r as u64;
        while y < h as u64
            invariant
                img.wf(),
                img.width == w,
                img.height == h,
                w == old(img).width,
                h == old(img).height,
                step > 0,
                ya == offset.1,
                r == ya % step,
                (y as int) % (step as int) == r,
                y >= r,
                y <= h + step,
                forall|xx: int, yy: int|
                    0 <= xx < w && 0 <= yy < h ==> #[trigger] img.at(xx, yy) == if yy < y && yy
                        % (step as int) == r {
                        if yy == ya {
                            axes_color()
                        } else {
                            grid_color()
                        }
                    } else {
                        old(img).at(xx, yy)
                    },
            decreases h + step - y,
        {
            let yy = y as u32;
            let c = if yy == ya {
                [255u8, 0u8, 0u8, 255u8]
            } else {
                [127u8, 127u8, 127u8, 255u8]
            };
            paint_row(img, yy, c);
            proof {
                lemma_mod_gap(y as int, 0, step as int);
                assert forall|xx: int, yv: int|
                    0 <= xx < w && 0 <= yv < h implies #[trigger] img.at(xx, yv) == if yv < y + step
                    && yv % (step as int) == r {
                    if yv == ya {
                        axes_color()
                    } else {
                        grid_color()
                    }
                } else {
                    old(img).at(xx, yv)
                } by {
                    if y < yv < y + step {
                        lemma_mod_gap(y as int, yv - y, step as int);
                    }
                }
            }
            y = y + step as u64;
        }
        proof {
            assert forall|xx: int, yy: int| 0 <= xx < w && 0 <= yy < h implies #[trigger] img.at(xx, yy)
                == match line_at(offset.1, step as int, yy) {
                Some(c) => c,
                None => old(img).at(xx, yy),
            } by {}
        }
    }
    let ghost rows = *img;
    proof {
        assert forall|xx: int, yy: int| 0 <= xx < w && 0 <= yy < h implies #[trigger] rows.at(xx, yy)
            == match line_at(offset.1, step as int, yy) {
            Some(c) => c,
            None => old(img).at(xx, yy),
        } by {}
    }
    if 0 <= offset.0 && offset.0 <= 0xffff_ffff {
        let xa = offset.0 as u32;
        let r = xa % step;
        proof {
            vstd::arithmetic::div_mod::lemma_small_mod(r as nat, step as nat);
            assert forall|xx: int| 0 <= xx < r implies #[trigger] (xx % (step as int)) != r by {
                vstd::arithmetic::div_mod::lemma_small_mod(xx as nat, step as nat);
            }
        }
        let mut x: u64 = r as u64;
        while x < w as u64
            invariant
                img.wf(),
                img.width == w,
                img.height == h,
                w == old(img).width,
                h == old(img).height,
                step > 0,
                xa == offset.0,
                r == xa % step,
                (x as int) % (step as int) == r,
                x >= r,
                x <= w + step,
                forall|xx: int, yy: int|
                    0 <= xx < w && 0 <= yy < h ==> #[trigger] img.at(xx, yy) == if xx < x && xx
                        % (step as int) == r {
                        if xx == xa {
                            axes_color()
                        } else {
                            grid_color()
                        }
                    } else {
                        rows.at(xx, yy)
                    },
            decreases w + step - x,
        {
            let xx0 = x as u32;
            let c = if xx0 == xa {
                [255u8, 0u8, 0u8, 255u8]
            } else {
                [127u8, 127u8, 127u8, 255u8]
            };
            paint_col(img, xx0, c);
            proof {
                lemma_mod_gap(x as int, 0, step as int);
                assert forall|xv: int, yy: int|
                    0 <= xv < w && 0 <= yy < h implies #[trigger] img.at(xv, yy) == if xv < x + step
                    && xv % (step as int) == r {
                    if xv == xa {
                        axes_color()
                    } else {
                        grid_color()
                    }
                } else {
                    rows.at(xv, yy)
                } by {
                    if x < xv < x + step {
                        lemma_mod_gap(x as int, xv - x, step as int);
                    }
                }
            }
            x = x + step as u64;
        }
    }
}

/// White.
pub open spec fn white() -> [u8; 4] {
    [255, 255, 255, 255]
}

/// Black.
pub open spec fn black() -> [u8; 4] {
    [0, 0, 0, 255]
}

/// Every point of a list whose frame fits lands, with the frame's offset,
/// on the frame blown up `scale` times.
proof fn lemma_frame_lands(all: Seq<(Int, Int)>, dots: Seq<(Int, Int)>, scale: int)
    requires
        frame_fits(all),
        scale >= 0,
        forall|j: int|
            0 <= j < dots.len() ==> min_x(all) <= (#[trigger] dots[j]).0 <= max_x(all) && min_y(all)
                <= dots[j].1 <= max_y(all),
    ensures
        lands(
            dots,
            frame(all).1,
            frame(all).0.0 as int * scale,
            frame(all).0.1 as int * scale,
            scale,
        ),
{
    lemma_bounds(all);
    let (wh, off) = frame(all);
    assert forall|j: int| 0 <= j < dots.len() implies {
        &&& i128::MIN <= #[trigger] dots[j].0 + off.0 <= i128::MAX
        &&& i128::MIN <= dots[j].1 + off.1 <= i128::MAX
        &&& (spot(dots[j], off) matches Some((x, y)) ==> (x + 1) * scale <= wh.0 * scale && (y + 1)
            * scale <= wh.1 * scale)
    } by {
        let x = dots[j].0 + off.0;
        let y = dots[j].1 + off.1;
        let w = wh.0 as int;
        let h = wh.1 as int;
        assert(x + 1 <= w && y + 1 <= h);
        assert((x + 1) * scale <= w * scale) by (nonlinear_arith)
            requires
                x + 1 <= w,
                scale >= 0,
        ;
        assert((y + 1) * scale <= h * scale) by (nonlinear_arith)
            requires
                y + 1 <= h,
                scale >= 0,
        ;
    }
}

/// The `j`-th point of the `k`-th list is among the points of all the
/// lists, at the place returned.
proof fn lemma_in_flat(vv: Seq<Vec<(Int, Int)>>, k: int, j: int) -> (t: int)
    requires
        0 <= k < vv.len(),
        0 <= j < vv[k]@.len(),
    ensures
        0 <= t < flat(vv).len(),
        flat(vv)[t] == vv[k]@[j],
    decreases vv.len(),
{
    let d = vv.drop_last();
    assert(flat(vv) == flat(d) + vv.last()@);
    if k == vv.len() - 1 {
        flat(d).len() + j
    } else {
        assert(d[k] == vv[k]);
        lemma_in_flat(d, k, j)
    }
}

/// Every point of the `k`-th list lies within the bounds of all the points.
proof fn lemma_layer_in_flat(vv: Seq<Vec<(Int, Int)>>, k: int)
    requires
        0 <= k < vv.len(),
        flat(vv).len() > 0,
    ensures
        forall|j: int|
            0 <= j < vv[k]@.len() ==> min_x(flat(vv)) <= (#[trigger] vv[k]@[j]).0 <= max_x(flat(vv))
                && min_y(flat(vv)) <= vv[k]@[j].1 <= max_y(flat(vv)),
{
    lemma_bounds(flat(vv));
    assert forall|j: int| 0 <= j < vv[k]@.len() implies min_x(flat(vv)) <= (#[trigger] vv[k]@[j]).0
        <= max_x(flat(vv)) && min_y(flat(vv)) <= vv[k]@[j].1 <= max_y(flat(vv)) by {
        let t = lemma_in_flat(vv, k, j);
        assert(flat(vv)[t] == vv[k]@[j]);
    }
}

/// The picture of the points: white where a point lands, black elsewhere,
/// in their frame (see `frame`).
pub fn draw(dots: &Vec<(Int, Int)>) -> (r: Canvas)
    requires
        frame_fits(dots@),
        frame(dots@).0.0 * frame(dots@).0.1 <= usize::MAX,
    ensures
        r.wf(),
        r.width == frame(dots@).0.0,
        r.height == frame(dots@).0.1,
        forall|x: int, y: int|
            0 <= x < r.width && 0 <= y < r.height ==> #[trigger] r.at(x, y) == if hit(
                dots@,
                frame(dots@).1,
                x,
                y,
            ) {
                white()
            } else {
                black()
            },
{
    let ((w, h), offset) = range_v(dots);
    let mut img = Canvas::new(w, h, [0, 0, 0, 255]);
    proof {
        lemma_bounds(dots@);
        lemma_frame_lands(dots@, dots@, 1);
    }
    draw_on(&mut img, dots, &offset, [255, 255, 255, 255]);
    img
}

/// The picture of several lists stacked from the top: a white frame of all
/// the points with a grid 10 apart through the axes, and the first list in
/// black. (The other lists would go below the frame, so they must be empty.)
pub fn multidraw_stack(v: &Vec<Vec<(Int, Int)>>) -> (r: Canvas)
    requires
        frame_fits(flat(v@)),
        frame(flat(v@)).0.0 * frame(flat(v@)).0.1 <= usize::MAX,
        forall|i: int| 1 <= i < v.len() ==> (#[trigger] v@[i])@.len() == 0,
        frame(flat(v@)).0.1 * (v.len() - 1) <= u32::MAX,
    ensures
        r.wf(),
        r.width == frame(flat(v@)).0.0,
        r.height == frame(flat(v@)).0.1,
        forall|x: int, y: int|
            0 <= x < r.width && 0 <= y < r.height ==> #[trigger] r.at(x, y) == if v.len() > 0 && hit(
                v@[0]@,
                frame(flat(v@)).1,
                x,
                y,
            ) {
                black()
            } else {
                with_axes(white(), frame(flat(v@)).1, 10, x, y)
            },
{
    let ((w, h), offset) = range_vv(v);
    let mut img = Canvas::new(w, h, [255, 255, 255, 255]);
    draw_axes(&mut img, &offset, 10);
    if v.len() > 0 {
        proof {
            lemma_layer_in_flat(v@, 0);
            lemma_frame_lands(flat(v@), v@[0]@, 1);
        }
        draw_on(&mut img, &v[0], &offset, [0, 0, 0, 255]);
    }
    img
}

/// The colour of the `k`-th of `n` lists: the turbo gradient at `k + 1` of
/// `n + 1` steps, opaque.
pub open spec fn layer_color(k: int, n: int) -> [u8; 4] {
    let c = turbo((k + 1) as usize, (n + 1) as usize);
    [c.0, c.1, c.2, 255]
}

/// The first list from the `from`-th on that has a point landing on
/// `(x, y)`.
pub open spec fn top_layer(v: Seq<Vec<(Int, Int)>>, offset: (Int, Int), x: int, y: int, from: int) -> Option<int>
    decreases v.len() - from,
{
    if from < 0 || from >= v.len() {
        None
    } else if hit(v[from]@, offset, x, y) {
        Some(from)
    } else {
        top_layer(v, offset, x, y, from + 1)
    }
}

/// The first list from the `from`-th on that has a point landing on the
/// cell of `(x, y)` in a picture blown up `s` times.
pub open spec fn top_layer_scaled(
    v: Seq<Vec<(Int, Int)>>,
    offset: (Int, Int),
    s: int,
    x: int,
    y: int,
    from: int,
) -> Option<int>
    decreases v.len() - from,
{
    if from < 0 || from >= v.len() {
        None
    } else if hit_scaled(v[from]@, offset, s, x, y) {
        Some(from)
    } else {
        top_layer_scaled(v, offset, s, x, y, from + 1)
    }
}

/// The picture of several lists: a white frame of all the points with a
/// grid 10 apart through the axes, and each pixel a point lands on in the
/// colour of the first list with such a point (see `layer_color`).
pub fn multidraw_gradient(v: &Vec<Vec<(Int, Int)>>) -> (r: Canvas)
    requires
        frame_fits(flat(v@)),
        frame(flat(v@)).0.0 * frame(flat(v@)).0.1 <= usize::MAX,
        v.len() < usize::MAX,
    ensures
        r.wf(),
        r.width == frame(flat(v@)).0.0,
        r.height == frame(flat(v@)).0.1,
        forall|x: int, y: int|
            0 <= x < r.width && 0 <= y < r.height ==> #[trigger] r.at(x, y) == match top_layer(
                v@,
                frame(flat(v@)).1,
                x,
                y,
                0,
            ) {
                Some(k) => layer_color(k, v.len() as int),
                None => with_axes(white(), frame(flat(v@)).1, 10, x, y),
            },
{
    let ((w, h), offset) = range_vv(v);
    let mut img = Canvas::new(w, h, [255, 255, 255, 255]);
    draw_axes(&mut img, &offset, 10);
    let ghost base = img;
    let n = v.len();
    let mut i: usize = 0;
    while i < n
        invariant
            i <= n,
            n == v.len(),
            n < usize::MAX,
            frame_fits(flat(v@)),
            offset == frame(flat(v@)).1,
            w == frame(flat(v@)).0.0,
            h == frame(flat(v@)).0.1,
            img.wf(),
            img.width == w,
            img.height == h,
            forall|x: int, y: int|
                0 <= x < w && 0 <= y < h ==> #[trigger] img.at(x, y) == match top_layer(
                    v@,
                    offset,
                    x,
                    y,
                    n - i,
                ) {
                    Some(k) => layer_color(k, n as int),
                    None => base.at(x, y),
                },
        decreases n - i,
    {
        let k = n - 1 - i;
        let c = turbo_color(k + 1, n + 1);
        proof {
            lemma_layer_in_flat(v@, k as int);
            lemma_frame_lands(flat(v@), v@[k as int]@, 1);
        }
        draw_on(&mut img, &v[k], &offset, [c.0, c.1, c.2, 255]);
        i = i + 1;
    }
    img
}

/// `multidraw_gradient` blown up `scale` times: each pixel becomes a
/// square of side `scale`, the grid lines `10 * scale` apart through the
/// axes moved as far.
pub fn multidraw_gradient_scale(v: &Vec<Vec<(Int, Int)>>, scale: u32) -> (r: Canvas)
    requires
        scale > 0,
        frame_fits(flat(v@)),
        frame(flat(v@)).0.0 * scale <= u32::MAX,
        frame(flat(v@)).0.1 * scale <= u32::MAX,
        10 * scale <= u32::MAX,
        (frame(flat(v@)).0.0 * scale) * (frame(flat(v@)).0.1 * scale) <= usize::MAX,
        i128::MIN <= frame(flat(v@)).1.0 * scale <= i128::MAX,
        i128::MIN <= frame(flat(v@)).1.1 * scale <= i128::MAX,
        v.len() < usize::MAX,
    ensures
        r.wf(),
        r.width == frame(flat(v@)).0.0 * scale,
        r.height == frame(flat(v@)).0.1 * scale,
        forall|x: int, y: int|
            0 <= x < r.width && 0 <= y < r.height ==> #[trigger] r.at(x, y) == match top_layer_scaled(
                v@,
                frame(flat(v@)).1,
                scale as int,
                x,
                y,
                0,
            ) {
                Some(k) => layer_color(k, v.len() as int),
                None => with_axes(
                    white(),
                    (
                        (frame(flat(v@)).1.0 * scale) as Int,
                        (frame(flat(v@)).1.1 * scale) as Int,
                    ),
                    10 * scale,
                    x,
                    y,
                ),
            },
{
    let ((w, h), offset) = range_vv(v);
    let mut img = Canvas::new(w * scale, h * scale, [255, 255, 255, 255]);
    let scaled = (offset.0 * (scale as i128), offset.1 * (scale as i128));
    draw_axes(&mut img, &scaled, 10 * scale);
    let ghost base = img;
    let n = v.len();
    let mut i: usize = 0;
    while i < n
        invariant
            i <= n,
            n == v.len(),
            n < usize::MAX,
            frame_fits(flat(v@)),
            offset == frame(flat(v@)).1,
            w == frame(flat(v@)).0.0,
            h == frame(flat(v@)).0.1,
            img.wf(),
            img.width == w * scale,
            img.height == h * scale,
            forall|x: int, y: int|
                0 <= x < w * scale && 0 <= y < h * scale ==> #[trigger] img.at(x, y) == match top_layer_scaled(
                    v@,
                    offset,
                    scale as int,
                    x,
                    y,
                    n - i,
                ) {
                    Some(k) => layer_color(k, n as int),
                    None => base.at(x, y),
                },
        decreases n - i,
    {
        let k = n - 1 - i;
        let c = turbo_color(k + 1, n + 1);
        proof {
            lemma_layer_in_flat(v@, k as int);
            lemma_frame_lands(flat(v@), v@[k as int]@, scale as int);
        }
        draw_on_scale(&mut img, &v[k], &offset, [c.0, c.1, c.2, 255], scale);
        i = i + 1;
    }
    img
}

/// Every point lands inside the frame of its list, one pixel away from
/// the border: at `(x, y)` with `1 <= x <= width - 2` and
/// `1 <= y <= height - 2`.
pub proof fn lemma_frame_holds_points(s: Seq<(Int, Int)>, i: int)
    requires
        frame_fits(s),
        0 <= i < s.len(),
    ensures
        spot(s[i], frame(s).1) matches Some((x, y)) && 1 <= x <= frame(s).0.0 - 2 && 1 <= y
            <= frame(s).0.1 - 2,
{
    lemma_bounds(s);
}

} // verus!
