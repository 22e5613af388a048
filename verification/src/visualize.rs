//! Pictures of the galaxy: lists of points read from terms, and the bitmaps
//! that hold them.
use vstd::prelude::*;
use crate::parser::{E, Int, get_list, list_of, unrc_seq, coords_of};
use crate::text::{int_text, int_to_string, push_str, string_push};

verus! {

/// The points of the list `e`, when every item is a point.
pub open spec fn coords_list(e: E) -> Option<Seq<(Int, Int)>> {
    match list_of(e) {
        None => None,
        Some(items) => if forall|i: int| 0 <= i < items.len() ==> (#[trigger] coords_of(items[i])) is Some {
            Some(items.map_values(|x: E| coords_of(x).unwrap()))
        } else {
            None
        },
    }
}

/// The points of the list `e`; `None` unless `e` is a list of points.
pub fn collect_list_of_coords(e: &E) -> (r: Option<Vec<(Int, Int)>>)
    ensures
        match r {
            Some(v) => coords_list(*e) == Some(v@),
            None => coords_list(*e) is None,
        },
{
    let items = match get_list(e) {
        Some(items) => items,
        None => return None,
    };
    let ghost es = unrc_seq(items@);
    let mut v: Vec<(Int, Int)> = Vec::new();
    let mut i: usize = 0;
    while i < items.len()
        invariant
            i <= items.len(),
            es == unrc_seq(items@),
            list_of(*e) == Some(es),
            v@.len() == i,
            forall|k: int| 0 <= k < i ==> (#[trigger] coords_of(es[k])) is Some && v@[k] == coords_of(
                es[k],
            ).unwrap(),
        decreases items.len() - i,
    {
        match items[i].coords() {
            Some(p) => v.push(p),
            None => {
                assert(coords_of(es[i as int]) is None);
                return None;
            },
        }
        i = i + 1;
    }
    assert(v@ == es.map_values(|x: E| coords_of(x).unwrap()));
    Some(v)
}

/// The lists of points of the list `e`; `None` unless every item is a list
/// of points.
pub fn collect_list_of_list_of_coords(e: &E) -> (r: Option<Vec<Vec<(Int, Int)>>>)
    ensures
        match r {
            Some(v) => list_of(*e) matches Some(items) && v@.len() == items.len() && forall|i: int|
                0 <= i < items.len() ==> coords_list(#[trigger] items[i]) == Some(v@[i]@),
            None => !(list_of(*e) matches Some(items) && forall|i: int|
                0 <= i < items.len() ==> (#[trigger] coords_list(items[i])) is Some),
        },
{
    let items = match get_list(e) {
        Some(items) => items,
        None => return None,
    };
    let ghost es = unrc_seq(items@);
    let mut v: Vec<Vec<(Int, Int)>> = Vec::new();
    let mut i: usize = 0;
    while i < items.len()
        invariant
            i <= items.len(),
            es == unrc_seq(items@),
            list_of(*e) == Some(es),
            v@.len() == i,
            forall|k: int| 0 <= k < i ==> coords_list(#[trigger] es[k]) == Some(v@[k]@),
        decreases items.len() - i,
    {
        match collect_list_of_coords(&items[i]) {
            Some(p) => v.push(p),
            None => {
                assert(coords_list(es[i as int]) is None);
                return None;
            },
        }
        i = i + 1;
    }
    Some(v)
}

pub open spec fn min_x(s: Seq<(Int, Int)>) -> int
    decreases s.len(),
{
    if s.len() <= 1 {
        s[0].0 as int
    } else if (s.last().0 as int) < min_x(s.drop_last()) {
        s.last().0 as int
    } else {
        min_x(s.drop_last())
    }
}

pub open spec fn max_x(s: Seq<(Int, Int)>) -> int
    decreases s.len(),
{
    if s.len() <= 1 {
        s[0].0 as int
    } else if (s.last().0 as int) > max_x(s.drop_last()) {
        s.last().0 as int
    } else {
        max_x(s.drop_last())
    }
}

pub open spec fn min_y(s: Seq<(Int, Int)>) -> int
    decreases s.len(),
{
    if s.len() <= 1 {
        s[0].1 as int
    } else if (s.last().1 as int) < min_y(s.drop_last()) {
        s.last().1 as int
    } else {
        min_y(s.drop_last())
    }
}

pub open spec fn max_y(s: Seq<(Int, Int)>) -> int
    decreases s.len(),
{
    if s.len() <= 1 {
        s[0].1 as int
    } else if (s.last().1 as int) > max_y(s.drop_last()) {
        s.last().1 as int
    } else {
        max_y(s.drop_last())
    }
}

pub proof fn lemma_bounds(s: Seq<(Int, Int)>)
    requires
        s.len() > 0,
    ensures
        i128::MIN <= min_x(s) <= max_x(s) <= i128::MAX,
        i128::MIN <= min_y(s) <= max_y(s) <= i128::MAX,
        forall|i: int|
            0 <= i < s.len() ==> min_x(s) <= #[trigger] s[i].0 <= max_x(s) && min_y(s) <= s[i].1
                <= max_y(s),
    decreases s.len(),
{
    if s.len() > 1 {
        lemma_bounds(s.drop_last());
        assert forall|i: int| 0 <= i < s.len() implies min_x(s) <= #[trigger] s[i].0 <= max_x(s)
            && min_y(s) <= s[i].1 <= max_y(s) by {
            if i < s.len() - 1 {
                assert(s[i] == s.drop_last()[i]);
            }
        }
    }
}

/// Whether `(x, y)` of the bitmap of `s` (placed at `(mx, my)`) is set.
pub open spec fn covered(s: Seq<(Int, Int)>, mx: int, my: int, x: int, y: int) -> bool {
    exists|i: int| 0 <= i < s.len() && #[trigger] s[i] == ((mx + x) as Int, (my + y) as Int)
}

/// Whether `bmp` is the bitmap of the points `s` placed with its corner at
/// `(mx, my)`, `w` wide and `h` high.
pub open spec fn bitmap_ok(
    bmp: Seq<Vec<bool>>,
    s: Seq<(Int, Int)>,
    mx: int,
    my: int,
    w: int,
    h: int,
) -> bool {
    &&& bmp.len() == h
    &&& forall|y: int| 0 <= y < h ==> (#[trigger] bmp[y])@.len() == w
    &&& forall|y: int, x: int|
        0 <= y < h && 0 <= x < w ==> (#[trigger] bmp[y]@[x] <==> covered(s, mx, my, x, y))
}

/// Whether the cells of the bitmap of the points fit in one `Vec` of
/// `bool`s: at most `isize::MAX` of them, the most bytes a `Vec` can hold.
pub open spec fn fits(s: Seq<(Int, Int)>) -> bool {
    s.len() > 0 ==> (max_x(s) - min_x(s) + 1) * (max_y(s) - min_y(s) + 1) <= isize::MAX
}

proof fn lemma_frame_grows(a: int, b: int)
    requires
        a >= 1,
        b >= 1,
    ensures
        a <= a * b,
{
    assert(a <= a * b) by (nonlinear_arith)
        requires
            a >= 1,
            b >= 1,
    ;
}

/// The bitmap of the points, one row per `y` from the least to the
/// greatest, one column per `x`, and the point its corner stands for. With
/// no points, one empty row at `(0, 0)`. `None` when its cells could not be
/// held in memory (see `fits`).
pub fn create_bitmap_with_offset(list_of_coords: &Vec<(Int, Int)>) -> (r: Option<(Vec<Vec<bool>>, (Int, Int))>)
    ensures
        r is None <==> !fits(list_of_coords@),
        r matches Some(b) ==> (list_of_coords.len() == 0 ==> b.0@.len() == 1 && b.0@[0]@.len() == 0 && b.1 == (0i128, 0i128)),
        r matches Some(b) ==> (list_of_coords.len() > 0 ==> {
            let s = list_of_coords@;
            &&& b.1 == (min_x(s) as Int, min_y(s) as Int)
            &&& bitmap_ok(b.0@, s, min_x(s), min_y(s), max_x(s) - min_x(s) + 1, max_y(s) - min_y(s) + 1)
        }),
{
    let n = list_of_coords.len();
    if n == 0 {
        let mut rows: Vec<Vec<bool>> = Vec::new();
        rows.push(Vec::new());
        return Some((rows, (0, 0)));
    }
    let ghost s = list_of_coords@;
    let mut mnx = list_of_coords[0].0;
    let mut mxx = list_of_coords[0].0;
    let mut mny = list_of_coords[0].1;
    let mut mxy = list_of_coords[0].1;
    let mut i: usize = 1;
    while i < n
        invariant
            1 <= i <= n,
            n == list_of_coords.len(),
            s == list_of_coords@,
            mnx == min_x(s.take(i as int)),
            mxx == max_x(s.take(i as int)),
            mny == min_y(s.take(i as int)),
            mxy == max_y(s.take(i as int)),
        decreases n - i,
    {
        let c = list_of_coords[i];
        proof {
            assert(s.take(i + 1).drop_last() == s.take(i as int));
            assert(s.take(i + 1).last() == c);
        }
        if c.0 < mnx {
            mnx = c.0;
        }
        if c.0 > mxx {
            mxx = c.0;
        }
        if c.1 < mny {
            mny = c.1;
        }
        if c.1 > mxy {
            mxy = c.1;
        }
        i = i + 1;
    }
    assert(s.take(n as int) == s);
    proof {
        lemma_bounds(s);
    }
    let dx = match mxx.checked_sub(mnx) {
        Some(d) => d,
        None => {
            proof {
                lemma_frame_grows(max_x(s) - min_x(s) + 1, max_y(s) - min_y(s) + 1);
            }
            return None;
        },
    };
    let dy = match mxy.checked_sub(mny) {
        Some(d) => d,
        None => {
            proof {
                lemma_frame_grows(max_y(s) - min_y(s) + 1, max_x(s) - min_x(s) + 1);
            }
            return None;
        },
    };
    if dx >= 0x7fff_ffff_ffff_ffff {
        proof {
            lemma_frame_grows(max_x(s) - min_x(s) + 1, max_y(s) - min_y(s) + 1);
        }
        return None;
    }
    if dy >= 0x7fff_ffff_ffff_ffff {
        proof {
            lemma_frame_grows(max_y(s) - min_y(s) + 1, max_x(s) - min_x(s) + 1);
        }
        return None;
    }
    let wide: u128 = (dx + 1) as u128;
    let high: u128 = (dy + 1) as u128;
    assert(wide * high <= 0x7fff_ffff_ffff_ffff * 0x7fff_ffff_ffff_ffff) by (nonlinear_arith)
        requires
            1 <= wide <= 0x7fff_ffff_ffff_ffff,
            1 <= high <= 0x7fff_ffff_ffff_ffff,
    ;
    if wide * high > isize::MAX as u128 {
        return None;
    }
    proof {
        lemma_frame_grows(wide as int, high as int);
        lemma_frame_grows(high as int, wide as int);
    }
    let w = wide as usize;
    let h = high as usize;
    assert(w * h <= isize::MAX);
    let mut flat: Vec<bool> = Vec::new();
    let mut k: usize = 0;
    while k < w * h
        invariant
            k <= w * h,
            w * h <= isize::MAX,
            flat@.len() == k,
            forall|j: int| 0 <= j < k ==> !(#[trigger] flat@[j]),
        decreases w * h - k,
    {
        flat.push(false);
        k = k + 1;
    }
    proof {
        assert forall|yy: int, xx: int|
            0 <= yy < h && 0 <= xx < w implies (#[trigger] flat@[yy * w + xx] <==> exists|i: int|
                0 <= i < 0 && s[i] == ((mnx + xx) as Int, (mny + yy) as Int)) by {
            assert(0 <= yy * w + xx < w * h) by (nonlinear_arith)
                requires
                    0 <= yy < h,
                    0 <= xx < w,
            ;
        }
    }
    let mut j: usize = 0;
    while j < n
        invariant
            j <= n,
            n == list_of_coords.len(),
            s == list_of_coords@,
            flat@.len() == w * h,
            w * h <= isize::MAX,
            w == max_x(s) - min_x(s) + 1,
            h == max_y(s) - min_y(s) + 1,
            mnx == min_x(s),
            mny == min_y(s),
            mxx == max_x(s),
            mxy == max_y(s),
            forall|i: int|
                0 <= i < s.len() ==> min_x(s) <= #[trigger] s[i].0 <= max_x(s) && min_y(s) <= s[i].1
                    <= max_y(s),
            forall|yy: int, xx: int|
                0 <= yy < h && 0 <= xx < w ==> (#[trigger] flat@[yy * w + xx] <==> exists|i: int|
                    0 <= i < j && s[i] == ((mnx + xx) as Int, (mny + yy) as Int)),
        decreases n - j,
    {
        let c = list_of_coords[j];
        assert(min_x(s) <= c.0 <= max_x(s) && min_y(s) <= c.1 <= max_y(s));
        let x = (c.0 - mnx) as usize;
        let y = (c.1 - mny) as usize;
        assert(x == c.0 - mnx && y == c.1 - mny);
        assert(0 <= y * w + x < w * h) by (nonlinear_arith)
            requires
                x < w,
                y < h,
        ;
        let ghost before = flat@;
        flat.set(y * w + x, true);
        proof {
            assert(c == s[j as int]);
            assert forall|yy: int, xx: int|
                0 <= yy < h && 0 <= xx < w implies (#[trigger] flat@[yy * w + xx] <==> exists|i: int|
                    0 <= i < j + 1 && s[i] == ((mnx + xx) as Int, (mny + yy) as Int)) by {
                assert(0 <= yy * w + xx < w * h) by (nonlinear_arith)
                    requires
                        0 <= yy < h,
                        0 <= xx < w,
                ;
                assert(min_x(s) <= mnx + xx <= max_x(s));
                assert(min_y(s) <= mny + yy <= max_y(s));
                if yy == y && xx == x {
                    assert(s[j as int] == ((mnx + xx) as Int, (mny + yy) as Int));
                } else {
                    assert(yy * w + xx != y * w + x) by (nonlinear_arith)
                        requires
                            yy != y || xx != x,
                            0 <= xx < w,
                            0 <= x < w,
                            0 <= yy,
                            0 <= y,
                    ;
                    assert(flat@[yy * w + xx] == before[yy * w + xx]);
                    if s[j as int] == ((mnx + xx) as Int, (mny + yy) as Int) {
                        assert(c.0 == mnx + xx);
                        assert(c.1 == mny + yy);
                        assert(false);
                    }
                }
            }
        }
        j = j + 1;
    }
    let mut rows: Vec<Vec<bool>> = Vec::new();
    let mut yy: usize = 0;
    while yy < h
        invariant
            yy <= h,
            flat@.len() == w * h,
            w * h <= isize::MAX,
            rows@.len() == yy,
            forall|r: int| 0 <= r < yy ==> (#[trigger] rows@[r])@.len() == w,
            forall|r: int, xx: int|
                0 <= r < yy && 0 <= xx < w ==> #[trigger] rows@[r]@[xx] == flat@[r * w + xx],
        decreases h - yy,
    {
        let mut row: Vec<bool> = Vec::new();
        let mut xx: usize = 0;
        while xx < w
            invariant
                xx <= w,
                yy < h,
                flat@.len() == w * h,
                w * h <= isize::MAX,
                row@.len() == xx,
                forall|c: int| 0 <= c < xx ==> #[trigger] row@[c] == flat@[yy * w + c],
            decreases w - xx,
        {
            assert(0 <= yy * w + xx < w * h) by (nonlinear_arith)
                requires
                    xx < w,
                    yy < h,
            ;
            row.push(flat[yy * w + xx]);
            xx = xx + 1;
        }
        rows.push(row);
        yy = yy + 1;
    }
    proof {
        assert forall|y: int, x: int| 0 <= y < h && 0 <= x < w implies (#[trigger] rows@[y]@[x]
            <==> covered(s, min_x(s), min_y(s), x, y)) by {
            assert(rows@[y]@[x] == flat@[y * w + x]);
        }
    }
    Some((rows, (mnx, mny)))
}

/// The bitmap of the points (see `create_bitmap_with_offset`).
pub fn create_bitmap(list_of_coords: &Vec<(Int, Int)>) -> (r: Option<Vec<Vec<bool>>>)
    ensures
        r is None <==> !fits(list_of_coords@),
        r matches Some(b) ==> (list_of_coords.len() == 0 ==> b@.len() == 1 && b@[0]@.len() == 0),
        r matches Some(b) ==> (list_of_coords.len() > 0 ==> {
            let s = list_of_coords@;
            bitmap_ok(b@, s, min_x(s), min_y(s), max_x(s) - min_x(s) + 1, max_y(s) - min_y(s) + 1)
        }),
{
    match create_bitmap_with_offset(list_of_coords) {
        Some((b, _)) => Some(b),
        None => None,
    }
}

/// A row of a bitmap as text: `#` for a set cell, a space for a clear one.
pub open spec fn row_text(row: Seq<bool>) -> Seq<char>
    decreases row.len(),
{
    if row.len() == 0 {
        Seq::empty()
    } else {
        row_text(row.drop_last()).push(if row.last() { '#' } else { ' ' })
    }
}

/// The rows of a bitmap as text, each followed by a line break.
pub open spec fn rows_text(rows: Seq<Vec<bool>>) -> Seq<char>
    decreases rows.len(),
{
    if rows.len() == 0 {
        Seq::empty()
    } else {
        rows_text(rows.drop_last()) + row_text(rows.last()@) + seq!['\n']
    }
}

/// The text of a drawing: a header line with the name, the rows (or
/// `(Empty)` for no rows), and a closing line.
pub open spec fn drawing_text(rows: Seq<Vec<bool>>, name: Seq<char>) -> Seq<char> {
    "---------- "@ + name + " ----------\n"@ + (if rows.len() == 0 {
        "(Empty)\n"@
    } else {
        rows_text(rows)
    }) + "--------------------\n"@
}

/// Whether `text` is the drawing of the points `s` under the title `name`:
/// the `drawing_text` of their bitmap (one empty row for no points).
pub open spec fn drawing_ok(s: Seq<(Int, Int)>, name: Seq<char>, text: Seq<char>) -> bool {
    exists|bmp: Seq<Vec<bool>>|
        {
            &&& s.len() == 0 ==> bmp.len() == 1 && bmp[0]@.len() == 0
            &&& s.len() > 0 ==> bitmap_ok(
                bmp,
                s,
                min_x(s),
                min_y(s),
                max_x(s) - min_x(s) + 1,
                max_y(s) - min_y(s) + 1,
            )
            &&& text == #[trigger] drawing_text(bmp, name)
        }
}

/// The points drawn as text under the title `name` (see `drawing_text`);
/// `None` when the bitmap would be too large (see `fits`).
pub fn draw(list_of_coords: &Vec<(Int, Int)>, name: &str) -> (r: Option<String>)
    ensures
        r is None <==> !fits(list_of_coords@),
        r matches Some(r) ==> drawing_ok(list_of_coords@, name@, r@),
{
    let bitmap = match create_bitmap(list_of_coords) {
        Some(b) => b,
        None => return None,
    };
    let mut out = String::new();
    push_str(&mut out, "---------- ");
    push_str(&mut out, name);
    push_str(&mut out, " ----------\n");
    let ghost head = out@;
    if bitmap.len() == 0 {
        push_str(&mut out, "(Empty)\n");
    } else {
        let mut y: usize = 0;
        while y < bitmap.len()
            invariant
                y <= bitmap.len(),
                out@ == head + rows_text(bitmap@.take(y as int)),
            decreases bitmap.len() - y,
        {
            let ghost before = out@;
            let mut x: usize = 0;
            while x < bitmap[y].len()
                invariant
                    y < bitmap.len(),
                    x <= bitmap@[y as int]@.len(),
                    out@ == before + row_text(bitmap@[y as int]@.take(x as int)),
                decreases bitmap@[y as int]@.len() - x,
            {
                string_push(&mut out, if bitmap[y][x] { '#' } else { ' ' });
                assert(bitmap@[y as int]@.take(x + 1).drop_last() == bitmap@[y as int]@.take(x as int));
                x = x + 1;
            }
            assert(bitmap@[y as int]@.take(x as int) == bitmap@[y as int]@);
            string_push(&mut out, '\n');
            assert(bitmap@.take(y + 1).drop_last() == bitmap@.take(y as int));
            y = y + 1;
        }
        assert(bitmap@.take(bitmap.len() as int) == bitmap@);
    }
    push_str(&mut out, "--------------------\n");
    assert(out@ == drawing_text(bitmap@, name@));
    Some(out)
}

/// The texts one after the other.
pub open spec fn concat(ts: Seq<Seq<char>>) -> Seq<char>
    decreases ts.len(),
{
    if ts.len() == 0 {
        Seq::empty()
    } else {
        concat(ts.drop_last()) + ts.last()
    }
}

/// Whether `text` holds the drawings of the lists `v`, each under its
/// index as title, one after the other.
pub open spec fn drawings_ok(v: Seq<Vec<(Int, Int)>>, text: Seq<char>) -> bool {
    exists|ts: Seq<Seq<char>>|
        {
            &&& ts.len() == v.len()
            &&& forall|i: int| 0 <= i < v.len() ==> drawing_ok(v[i]@, int_text(i), #[trigger] ts[i])
            &&& text == concat(ts)
        }
}

/// The drawings of the lists as text, each titled with its index (see
/// `draw`); `None` when one of them would be too large.
pub fn multidraw(list_of_list_of_coords: &Vec<Vec<(Int, Int)>>) -> (r: Option<String>)
    ensures
        r is None <==> exists|i: int|
            0 <= i < list_of_list_of_coords@.len() && !fits(#[trigger] list_of_list_of_coords@[i]@),
        r matches Some(t) ==> drawings_ok(list_of_list_of_coords@, t@),
{
    let v = list_of_list_of_coords;
    let mut out = String::new();
    let ghost mut ts: Seq<Seq<char>> = Seq::empty();
    let mut i: usize = 0;
    while i < v.len()
        invariant
            i <= v.len(),
            v@ == list_of_list_of_coords@,
            ts.len() == i,
            forall|k: int| 0 <= k < i ==> drawing_ok(v@[k]@, int_text(k), #[trigger] ts[k]),
            forall|k: int| 0 <= k < i ==> fits(#[trigger] v@[k]@),
            out@ == concat(ts),
        decreases v.len() - i,
    {
        let name = int_to_string(i as i128);
        match draw(&v[i], name.as_str()) {
            Some(t) => {
                push_str(&mut out, t.as_str());
                proof {
                    let ts2 = ts.push(t@);
                    assert(ts2.drop_last() == ts);
                    ts = ts2;
                }
            },
            None => {
                assert(!fits(v@[i as int]@));
                return None;
            },
        }
        i = i + 1;
    }
    Some(out)
}

/// The drawings of the lists of points that `e` holds (see `multidraw`);
/// `None` when `e` is no list of lists of points or a drawing would be too
/// large.
pub fn multidraw_from_e(list_of_list_of_coords: &E) -> (r: Option<String>)
    ensures
        r matches Some(t) ==> exists|v: Seq<Vec<(Int, Int)>>|
            {
                &&& list_of(*list_of_list_of_coords) matches Some(items)
                &&& v.len() == items.len()
                &&& forall|i: int| 0 <= i < items.len() ==> coords_list(#[trigger] items[i]) == Some(v[i]@)
                &&& forall|i: int| 0 <= i < v.len() ==> fits(#[trigger] v[i]@)
                &&& #[trigger] drawings_ok(v, t@)
            },
        r is None ==> !(list_of(*list_of_list_of_coords) matches Some(items) && forall|i: int|
            0 <= i < items.len() ==> (#[trigger] coords_list(items[i])) is Some) || exists|i: int|
            0 <= i < list_of(*list_of_list_of_coords)->0.len() && !fits(
            coords_list(#[trigger] list_of(*list_of_list_of_coords)->0[i])->0,
        ),
{
    let v = match collect_list_of_list_of_coords(list_of_list_of_coords) {
        Some(v) => v,
        None => return None,
    };
    let r = multidraw(&v);
    proof {
        if r is None {
            let i = choose|i: int| 0 <= i < v@.len() && !fits(#[trigger] v@[i]@);
            let items = list_of(*list_of_list_of_coords)->0;
            assert(coords_list(items[i]) == Some(v@[i]@));
        }
    }
    r
}

} // verus!
