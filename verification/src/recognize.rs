//! Recognition of known glyphs in the galaxy's pictures, and of the number
//! glyphs (a corner, two bars and a square of bits).
use vstd::prelude::*;
use crate::parser::{E, Int};
use crate::text::{chars_of, push_str, push_int, int_text, string_push};
use crate::visualize::{collect_list_of_list_of_coords, create_bitmap_with_offset, coords_list, fits, bitmap_ok, min_x, min_y, max_x, max_y};
use crate::parser::list_of;

verus! {

/// A recognized glyph: a number, or a named character.
#[derive(Debug, Clone)]
pub enum RecognizedChar {
    Num(Int),
    Char(String),
}

/// The model of a recognized glyph.
pub open spec fn rc_view(rc: RecognizedChar) -> Option<Seq<char>> {
    match rc {
        RecognizedChar::Num(_) => None,
        RecognizedChar::Char(name) => Some(name@),
    }
}

fn starts_with_chars(s: &str, prefix: &str) -> (r: bool)
    ensures
        r == prefix@.is_prefix_of(s@),
{
    let a = chars_of(s);
    let b = chars_of(prefix);
    if b.len() > a.len() {
        return false;
    }
    let mut i: usize = 0;
    while i < b.len()
        invariant
            a@ == s@,
            b@ == prefix@,
            b.len() <= a.len(),
            i <= b.len(),
            forall|k: int| 0 <= k < i ==> a@[k] == b@[k],
        decreases b.len() - i,
    {
        if a[i] != b[i] {
            return false;
        }
        i = i + 1;
    }
    true
}

impl RecognizedChar {
    /// Whether the glyph is a named character whose name begins with
    /// `prefix`; a number never does.
    pub fn starts_with(&self, prefix: &str) -> (r: bool)
        ensures
            r == (rc_view(*self) matches Some(name) && prefix@.is_prefix_of(name)),
    {
        match self {
            RecognizedChar::Num(_) => false,
            RecognizedChar::Char(name) => starts_with_chars(name.as_str(), prefix),
        }
    }
}

/// The pictures of the known glyphs: a name, and rows of `#` and `.`. The
/// one glyph known is the galaxy.
pub open spec fn glyph_pictures() -> Seq<(&'static str, &'static str)> {
    seq![("galaxy", "\n..###..\n.....#.\n.###..#\n#.#.#.#\n#..###.\n.#.....\n..###..\n")]
}

/// The pictures of the known glyphs (see `glyph_pictures`).
pub fn char_sources() -> (r: Vec<(&'static str, &'static str)>)
    ensures
        r@ == glyph_pictures(),
{
    let mut v: Vec<(&'static str, &'static str)> = Vec::new();
    v.push(
        (
            "galaxy",
            "\n..###..\n.....#.\n.###..#\n#.#.#.#\n#..###.\n.#.....\n..###..\n",
        ),
    );
    v
}

/// The first position from `i` on that holds a line break, or the length.
pub open spec fn line_end(cs: Seq<char>, i: int) -> int
    decreases cs.len() - i,
{
    if 0 <= i < cs.len() && cs[i] != '\n' {
        line_end(cs, i + 1)
    } else {
        i
    }
}

pub proof fn lemma_line_end(cs: Seq<char>, i: int)
    requires
        0 <= i <= cs.len(),
    ensures
        i <= line_end(cs, i) <= cs.len(),
        line_end(cs, i) < cs.len() ==> cs[line_end(cs, i)] == '\n',
    decreases cs.len() - i,
{
    if i < cs.len() && cs[i] != '\n' {
        lemma_line_end(cs, i + 1);
    }
}

/// A line without the carriage return of a `\r\n` ending.
pub open spec fn strip_cr(line: Seq<char>, ended: bool) -> Seq<char> {
    if ended && line.len() > 0 && line.last() == '\r' {
        line.drop_last()
    } else {
        line
    }
}

/// The non-empty lines of `cs` from position `i` on, as `str::lines` gives
/// them, each as cells: `#` set, anything else clear.
pub open spec fn rows_from(cs: Seq<char>, i: int) -> Seq<Seq<bool>>
    decreases cs.len() - i,
{
    if i < 0 || i >= cs.len() {
        Seq::empty()
    } else {
        proof {
            lemma_line_end(cs, i);
        }
        let j = line_end(cs, i);
        let line = strip_cr(cs.subrange(i, j), j < cs.len());
        let rest = if j < cs.len() {
            rows_from(cs, j + 1)
        } else {
            Seq::empty()
        };
        if line.len() == 0 {
            rest
        } else {
            seq![line.map_values(|c: char| c == '#')] + rest
        }
    }
}

/// Whether all rows have the width of the first.
pub open spec fn rectangular(rows: Seq<Seq<bool>>) -> bool {
    forall|i: int| 0 <= i < rows.len() ==> (#[trigger] rows[i]).len() == rows[0].len()
}

/// The glyph a picture describes: `None` for a picture with no row or with
/// rows of unequal widths.
pub open spec fn template_spec(text: Seq<char>) -> Option<Seq<Seq<bool>>> {
    let rows = rows_from(text, 0);
    if rows.len() > 0 && rectangular(rows) {
        Some(rows)
    } else {
        None
    }
}

/// The rows of a bitmap as sequences.
pub open spec fn rows_view(b: Seq<Vec<bool>>) -> Seq<Seq<bool>> {
    b.map_values(|r: Vec<bool>| r@)
}

fn line_end_at(cs: &Vec<char>, i: usize) -> (r: usize)
    requires
        i <= cs.len(),
    ensures
        r == line_end(cs@, i as int),
    decreases cs.len() - i,
{
    if i < cs.len() && cs[i] != '\n' {
        line_end_at(cs, i + 1)
    } else {
        i
    }
}

fn rows_at(cs: &Vec<char>, i: usize) -> (r: Vec<Vec<bool>>)
    requires
        i <= cs.len(),
    ensures
        rows_view(r@) == rows_from(cs@, i as int),
    decreases cs.len() - i,
{
    if i >= cs.len() {
        return Vec::new();
    }
    proof {
        lemma_line_end(cs@, i as int);
    }
    let j = line_end_at(cs, i);
    let mut end = j;
    if j < cs.len() && j > i && cs[j - 1] == '\r' {
        end = j - 1;
    }
    let ghost line = strip_cr(cs@.subrange(i as int, j as int), j < cs.len());
    assert(line == cs@.subrange(i as int, end as int));
    let mut row: Vec<bool> = Vec::new();
    let mut k = i;
    while k < end
        invariant
            i <= k <= end <= cs.len(),
            row@ == cs@.subrange(i as int, k as int).map_values(|c: char| c == '#'),
        decreases end - k,
    {
        row.push(cs[k] == '#');
        assert(cs@.subrange(i as int, k + 1).map_values(|c: char| c == '#') == cs@.subrange(
            i as int,
            k as int,
        ).map_values(|c: char| c == '#').push(cs@[k as int] == '#'));
        k = k + 1;
    }
    let rest = if j < cs.len() {
        rows_at(cs, j + 1)
    } else {
        Vec::new()
    };
    assert(rows_view(rest@) == rows_from(cs@, j + 1));
    if end == i {
        rest
    } else {
        let mut rest = rest;
        let ghost rv = rows_view(rest@);
        rest.insert(0, row);
        assert(rows_view(rest@) =~= seq![row@] + rv);
        rest
    }
}

/// The glyph the picture `text` describes (see `template_spec`).
pub fn template_of(text: &str) -> (r: Option<Vec<Vec<bool>>>)
    ensures
        match r {
            Some(b) => template_spec(text@) == Some(rows_view(b@)),
            None => template_spec(text@) is None,
        },
{
    let cs = chars_of(text);
    let rows = rows_at(&cs, 0);
    if rows.len() == 0 {
        return None;
    }
    let w = rows[0].len();
    let mut i: usize = 0;
    while i < rows.len()
        invariant
            i <= rows.len(),
            rows.len() > 0,
            rows_view(rows@) == rows_from(text@, 0),
            w == rows@[0]@.len(),
            forall|k: int| 0 <= k < i ==> (#[trigger] rows@[k])@.len() == w,
        decreases rows.len() - i,
    {
        if rows[i].len() != w {
            assert(rows_view(rows@)[i as int].len() != rows_view(rows@)[0].len());
            return None;
        }
        i = i + 1;
    }
    assert(rectangular(rows_view(rows@)));
    Some(rows)
}

/// The known glyphs, as names and bitmaps.
pub open spec fn templates_view(t: Seq<(&'static str, Vec<Vec<bool>>)>) -> Seq<(Seq<char>, Seq<Seq<bool>>)> {
    t.map_values(|p: (&'static str, Vec<Vec<bool>>)| (p.0@, rows_view(p.1@)))
}

/// The glyphs of the pictures `srcs` from `i` on, leaving out those that
/// describe none.
pub open spec fn templates_from(srcs: Seq<(&'static str, &'static str)>, i: int) -> Seq<(Seq<char>, Seq<Seq<bool>>)>
    decreases srcs.len() - i,
{
    if i < 0 || i >= srcs.len() {
        Seq::empty()
    } else {
        match template_spec(srcs[i].1@) {
            Some(t) => seq![(srcs[i].0@, t)] + templates_from(srcs, i + 1),
            None => templates_from(srcs, i + 1),
        }
    }
}

/// The known glyphs, read from their pictures (see `glyph_pictures`); a
/// picture with rows of unequal widths is left out.
pub fn prepare_char_templates() -> (r: Vec<(&'static str, Vec<Vec<bool>>)>)
    ensures
        templates_view(r@) == templates_from(glyph_pictures(), 0),
{
    let srcs = char_sources();
    let mut v: Vec<(&'static str, Vec<Vec<bool>>)> = Vec::new();
    let mut i = srcs.len();
    let mut rev: Vec<(&'static str, Vec<Vec<bool>>)> = Vec::new();
    while i > 0
        invariant
            i <= srcs.len(),
            templates_view(rev@).reverse() == templates_from(srcs@, i as int),
        decreases i,
    {
        i = i - 1;
        let (name, text) = srcs[i];
        match template_of(text) {
            Some(t) => {
                let ghost before = rev@;
                rev.push((name, t));
                assert(templates_view(rev@) == templates_view(before).push((name@, rows_view(t@))));
                assert(templates_view(rev@).reverse() =~= seq![(name@, rows_view(t@))] + templates_view(before).reverse());
            },
            None => {},
        }
    }
    let n = rev.len();
    let mut k: usize = 0;
    while k < n
        invariant
            n == rev.len() + k,
            templates_view(v@) + templates_view(rev@).reverse() == templates_from(srcs@, 0),
        decreases n - k,
    {
        let p = rev.pop().unwrap();
        let ghost before_v = v@;
        v.push(p);
        assert(templates_view(v@) =~= templates_view(before_v).push((p.0@, rows_view(p.1@))));
        k = k + 1;
    }
    assert(templates_view(v@) + templates_view(rev@).reverse() =~= templates_view(v@));
    v
}

/// The recognizer of the known glyphs.
pub struct Recognizer {
    char_templates: Vec<(&'static str, Vec<Vec<bool>>)>,
}

impl Recognizer {
    /// The glyphs it knows.
    pub closed spec fn templates(self) -> Seq<(Seq<char>, Seq<Seq<bool>>)> {
        templates_view(self.char_templates@)
    }

    /// Whether the glyphs it knows are all rectangular and not empty.
    pub closed spec fn wf(self) -> bool {
        forall|i: int| 0 <= i < self.templates().len() ==> {
            let t = #[trigger] self.templates()[i].1;
            t.len() > 0 && rectangular(t)
        }
    }

    pub fn new() -> (r: Self)
        ensures
            r.wf(),
            r.templates() == templates_from(glyph_pictures(), 0),
    {
        let t = prepare_char_templates();
        let r = Self { char_templates: t };
        proof {
            lemma_templates_wf(glyph_pictures(), 0);
        }
        r
    }
}

proof fn lemma_templates_wf(srcs: Seq<(&'static str, &'static str)>, i: int)
    ensures
        forall|k: int| 0 <= k < templates_from(srcs, i).len() ==> {
            let t = #[trigger] templates_from(srcs, i)[k].1;
            t.len() > 0 && rectangular(t)
        },
    decreases srcs.len() - i,
{
    if 0 <= i < srcs.len() {
        lemma_templates_wf(srcs, i + 1);
        let rest = templates_from(srcs, i + 1);
        match template_spec(srcs[i].1@) {
            Some(t) => {
                let all = templates_from(srcs, i);
                assert(all == seq![(srcs[i].0@, t)] + rest);
                assert forall|k: int| 0 <= k < all.len() implies {
                    let t = #[trigger] all[k].1;
                    t.len() > 0 && rectangular(t)
                } by {
                    if k > 0 {
                        assert(all[k] == rest[k - 1]);
                    }
                }
            },
            None => {
                assert(templates_from(srcs, i) == rest);
            },
        }
    }
}

/// Whether the glyph `tpl` stands in `bmp` with its corner at `(x, y)`.
pub open spec fn matches_at(bmp: Seq<Seq<bool>>, tpl: Seq<Seq<bool>>, x: int, y: int) -> bool {
    let tw = tpl[0].len() as int;
    let th = tpl.len() as int;
    &&& x + tw <= bmp[0].len()
    &&& y + th <= bmp.len()
    &&& forall|dy: int, dx: int|
        0 <= dy < th && 0 <= dx < tw ==> #[trigger] bmp[y + dy][x + dx] == tpl[dy][dx]
}

/// The first of the glyphs from `k` on that stands at `(x, y)`: its center
/// (half its width right, half its height down) and its name.
pub open spec fn match_spec(
    tpls: Seq<(Seq<char>, Seq<Seq<bool>>)>,
    bmp: Seq<Seq<bool>>,
    x: int,
    y: int,
    k: int,
) -> Option<((int, int), Seq<char>)>
    decreases tpls.len() - k,
{
    if k < 0 || k >= tpls.len() {
        None
    } else if matches_at(bmp, tpls[k].1, x, y) {
        Some(((x + tpls[k].1[0].len() / 2, y + tpls[k].1.len() / 2), tpls[k].0))
    } else {
        match_spec(tpls, bmp, x, y, k + 1)
    }
}

/// The matches in row `y` of the cells left of `x`, left to right.
pub open spec fn row_matches(
    tpls: Seq<(Seq<char>, Seq<Seq<bool>>)>,
    bmp: Seq<Seq<bool>>,
    y: int,
    x: int,
) -> Seq<((int, int), Seq<char>)>
    decreases x,
{
    if x <= 0 {
        Seq::empty()
    } else {
        let prev = row_matches(tpls, bmp, y, x - 1);
        match match_spec(tpls, bmp, x - 1, y, 0) {
            Some(m) => prev.push(m),
            None => prev,
        }
    }
}

/// The matches in the rows above `y`, row by row.
pub open spec fn all_matches(
    tpls: Seq<(Seq<char>, Seq<Seq<bool>>)>,
    bmp: Seq<Seq<bool>>,
    y: int,
) -> Seq<((int, int), Seq<char>)>
    decreases y,
{
    if y <= 0 {
        Seq::empty()
    } else {
        all_matches(tpls, bmp, y - 1) + row_matches(tpls, bmp, y - 1, bmp[0].len() as int)
    }
}

/// The model of a match found.
pub open spec fn found_view(f: ((usize, usize), RecognizedChar)) -> ((int, int), Seq<char>) {
    ((f.0.0 as int, f.0.1 as int), rc_view(f.1).unwrap())
}

/// Whether a bitmap has a row, all rows have the width of the first, and
/// its width and height together fit a `usize`.
pub open spec fn bitmap_wf(bmp: Seq<Seq<bool>>) -> bool {
    bmp.len() > 0 && rectangular(bmp) && bmp.len() + bmp[0].len() <= usize::MAX
}

impl Recognizer {
    fn does_match_char_at(&self, bmp: &Vec<Vec<bool>>, template: &Vec<Vec<bool>>, x: usize, y: usize) -> (r: bool)
        requires
            bitmap_wf(rows_view(bmp@)),
            template.len() > 0,
            rectangular(rows_view(template@)),
        ensures
            r == matches_at(rows_view(bmp@), rows_view(template@), x as int, y as int),
    {
        let ghost b = rows_view(bmp@);
        let ghost t = rows_view(template@);
        let tw = template[0].len();
        let th = template.len();
        assert(b[0] == bmp@[0]@ && t[0] == template@[0]@);
        let blen = bmp.len();
        let w0 = bmp[0].len();
        if x > w0 || tw > w0 - x {
            return false;
        }
        if y > blen || th > blen - y {
            return false;
        }
        let mut dy: usize = 0;
        while dy < th
            invariant
                b == rows_view(bmp@),
                t == rows_view(template@),
                b.len() == bmp@.len(),
                b[0].len() == bmp@[0]@.len(),
                bitmap_wf(b),
                rectangular(t),
                tw == t[0].len(),
                th == t.len(),
                x + tw <= w0,
                y + th <= blen,
                w0 == b[0].len(),
                blen == b.len(),
                dy <= th,
                forall|ey: int, ex: int|
                    0 <= ey < dy && 0 <= ex < tw ==> #[trigger] b[y + ey][x + ex] == t[ey][ex],
            decreases th - dy,
        {
            let mut dx: usize = 0;
            assert(b[y + dy].len() == b[0].len() && t[dy as int].len() == tw);
            while dx < tw
                invariant
                    b == rows_view(bmp@),
                    t == rows_view(template@),
                    b.len() == bmp@.len(),
                    b[0].len() == bmp@[0]@.len(),
                    bitmap_wf(b),
                    rectangular(t),
                    tw == t[0].len(),
                    th == t.len(),
                    x + tw <= w0,
                    y + th <= blen,
                    w0 == b[0].len(),
                    blen == b.len(),
                    dy < th,
                    dx <= tw,
                    b[y + dy].len() == b[0].len(),
                    t[dy as int].len() == tw,
                    forall|ey: int, ex: int|
                        0 <= ey < dy && 0 <= ex < tw ==> #[trigger] b[y + ey][x + ex] == t[ey][ex],
                    forall|ex: int| 0 <= ex < dx ==> #[trigger] b[y + dy][x + ex] == t[dy as int][ex],
                decreases tw - dx,
            {
                assert(bmp@[(y + dy) as int]@ == b[y + dy] && template@[dy as int]@ == t[dy as int]);
                if bmp[y + dy][x + dx] != template[dy][dx] {
                    return false;
                }
                dx = dx + 1;
            }
            dy = dy + 1;
        }
        true
    }

    fn match_chars_at(&self, bmp: &Vec<Vec<bool>>, x: usize, y: usize) -> (r: Option<((usize, usize), RecognizedChar)>)
        requires
            self.wf(),
            bitmap_wf(rows_view(bmp@)),
            x < bmp@[0]@.len(),
            y < bmp.len(),
        ensures
            match r {
                Some(f) => f.1 is Char && match_spec(self.templates(), rows_view(bmp@), x as int, y as int, 0) == Some(found_view(f))
                    && f.0.0 < bmp@[0]@.len() && f.0.1 < bmp@.len(),
                None => match_spec(self.templates(), rows_view(bmp@), x as int, y as int, 0) is None,
            },
    {
        let ghost tpls = self.templates();
        let mut k: usize = 0;
        while k < self.char_templates.len()
            invariant
                self.wf(),
                tpls == self.templates(),
                bitmap_wf(rows_view(bmp@)),
                x < bmp@[0]@.len(),
                y < bmp.len(),
                k <= self.char_templates.len(),
                match_spec(tpls, rows_view(bmp@), x as int, y as int, 0) == match_spec(tpls, rows_view(bmp@), x as int, y as int, k as int),
            decreases self.char_templates.len() - k,
        {
            let ghost tk = tpls[k as int];
            assert(tk.1.len() > 0 && rectangular(tk.1));
            let (name, template) = &self.char_templates[k];
            assert(tk.1 == rows_view(template@) && tk.0 == name@);
            if self.does_match_char_at(bmp, template, x, y) {
                let w0 = bmp[0].len();
                let h0 = bmp.len();
                assert(rows_view(bmp@)[0] == bmp@[0]@);
                let half_w = template[0].len() / 2;
                let half_h = template.len() / 2;
                assert(template@[0]@ == tk.1[0]);
                assert(x + half_w < w0);
                assert(y + half_h < h0);
                let mut n = String::new();
                push_str(&mut n, name);
                assert(template@[0]@ == tk.1[0]);
                return Some(((x + half_w, y + half_h), RecognizedChar::Char(n)));
            }
            k = k + 1;
        }
        None
    }

    fn match_at(&self, bmp: &Vec<Vec<bool>>, x: usize, y: usize) -> (r: Option<((usize, usize), RecognizedChar)>)
        requires
            self.wf(),
            bitmap_wf(rows_view(bmp@)),
            x < bmp@[0]@.len(),
            y < bmp.len(),
        ensures
            match r {
                Some(f) => f.1 is Char && match_spec(self.templates(), rows_view(bmp@), x as int, y as int, 0) == Some(found_view(f))
                    && f.0.0 < bmp@[0]@.len() && f.0.1 < bmp@.len(),
                None => match_spec(self.templates(), rows_view(bmp@), x as int, y as int, 0) is None,
            },
    {
        self.match_chars_at(bmp, x, y)
    }

    fn match_all(&self, bmp: &Vec<Vec<bool>>) -> (r: Vec<((usize, usize), RecognizedChar)>)
        requires
            self.wf(),
            bitmap_wf(rows_view(bmp@)),
        ensures
            r@.map_values(|f: ((usize, usize), RecognizedChar)| found_view(f)) == all_matches(self.templates(), rows_view(bmp@), bmp.len() as int),
            forall|i: int| 0 <= i < r@.len() ==> (#[trigger] r@[i]).1 is Char && r@[i].0.0 < bmp@[0]@.len()
                && r@[i].0.1 < bmp@.len(),
    {
        let ghost b = rows_view(bmp@);
        let ghost tpls = self.templates();
        let h = bmp.len();
        let w = bmp[0].len();
        assert(b[0] == bmp@[0]@);
        let mut results: Vec<((usize, usize), RecognizedChar)> = Vec::new();
        let mut y: usize = 0;
        while y < h
            invariant
                self.wf(),
                tpls == self.templates(),
                b == rows_view(bmp@),
                bitmap_wf(b),
                h == b.len(),
                w == b[0].len(),
                y <= h,
                results@.map_values(|f: ((usize, usize), RecognizedChar)| found_view(f)) == all_matches(tpls, b, y as int),
                forall|i: int| 0 <= i < results@.len() ==> (#[trigger] results@[i]).1 is Char && results@[i].0.0 < bmp@[0]@.len()
                    && results@[i].0.1 < bmp@.len(),
            decreases h - y,
        {
            let ghost base = results@.map_values(|f: ((usize, usize), RecognizedChar)| found_view(f));
            let mut x: usize = 0;
            while x < w
                invariant
                    self.wf(),
                    tpls == self.templates(),
                    b == rows_view(bmp@),
                    bitmap_wf(b),
                    h == b.len(),
                    w == b[0].len(),
                    y < h,
                    x <= w,
                    results@.map_values(|f: ((usize, usize), RecognizedChar)| found_view(f)) == base + row_matches(tpls, b, y as int, x as int),
                    forall|i: int| 0 <= i < results@.len() ==> (#[trigger] results@[i]).1 is Char && results@[i].0.0 < bmp@[0]@.len()
                        && results@[i].0.1 < bmp@.len(),
                decreases w - x,
            {
                let ghost before = results@;
                match self.match_at(bmp, x, y) {
                    Some(f) => {
                        results.push(f);
                        assert(results@.map_values(|f: ((usize, usize), RecognizedChar)| found_view(f)) =~= before.map_values(|f: ((usize, usize), RecognizedChar)| found_view(f)).push(found_view(f)));
                    },
                    None => {},
                }
                x = x + 1;
            }
            y = y + 1;
        }
        results
    }
}

/// What recognition found: for each glyph, the channel (the index of the
/// picture), the position, and the glyph.
#[derive(Debug)]
pub struct RecognitionResult {
    chars: Vec<((usize, Int, Int), RecognizedChar)>,
}

/// The model of a finding.
pub open spec fn finding_view(f: ((usize, Int, Int), RecognizedChar)) -> ((int, int, int), Option<Seq<char>>) {
    ((f.0.0 as int, f.0.1 as int, f.0.2 as int), rc_view(f.1))
}

/// Whether `b` is the bitmap of the points `s`, with its corner.
pub open spec fn bitmap_of(b: (Seq<Vec<bool>>, (Int, Int)), s: Seq<(Int, Int)>) -> bool {
    if s.len() == 0 {
        b.0.len() == 1 && b.0[0]@.len() == 0 && b.1 == (0i128, 0i128)
    } else {
        &&& b.1 == (min_x(s) as Int, min_y(s) as Int)
        &&& bitmap_ok(b.0, s, min_x(s), min_y(s), max_x(s) - min_x(s) + 1, max_y(s) - min_y(s) + 1)
    }
}

/// The glyphs found in channel `c`, whose bitmap `b` has its corner at
/// `(mx, my)`, in picture coordinates.
pub open spec fn channel_findings(
    tpls: Seq<(Seq<char>, Seq<Seq<bool>>)>,
    c: int,
    b: (Seq<Vec<bool>>, (Int, Int)),
) -> Seq<((int, int, int), Option<Seq<char>>)> {
    all_matches(tpls, rows_view(b.0), b.0.len() as int).map_values(
        |m: ((int, int), Seq<char>)| ((c, b.1.0 + m.0.0, b.1.1 + m.0.1), Some(m.1)),
    )
}

/// The glyphs found in the channels before `c`, channel by channel.
pub open spec fn findings_upto(
    tpls: Seq<(Seq<char>, Seq<Seq<bool>>)>,
    bs: Seq<(Seq<Vec<bool>>, (Int, Int))>,
    c: int,
) -> Seq<((int, int, int), Option<Seq<char>>)>
    decreases c,
{
    if c <= 0 {
        Seq::empty()
    } else {
        findings_upto(tpls, bs, c - 1) + channel_findings(tpls, c - 1, bs[c - 1])
    }
}

impl RecognitionResult {
    /// The findings, in order.
    pub closed spec fn view(self) -> Seq<((int, int, int), Option<Seq<char>>)> {
        self.chars@.map_values(|f: ((usize, Int, Int), RecognizedChar)| finding_view(f))
    }

    pub fn new_empty() -> (r: Self)
        ensures
            r.view() == Seq::<((int, int, int), Option<Seq<char>>)>::empty(),
    {
        let r = Self { chars: Vec::new() };
        assert(r.view() =~= Seq::<((int, int, int), Option<Seq<char>>)>::empty());
        r
    }
}

proof fn lemma_bitmap_wf(b: Seq<Vec<bool>>, s: Seq<(Int, Int)>)
    requires
        fits(s),
        bitmap_of((b, (0i128, 0i128)), s) || (s.len() > 0 && bitmap_ok(
            b,
            s,
            min_x(s),
            min_y(s),
            max_x(s) - min_x(s) + 1,
            max_y(s) - min_y(s) + 1,
        )),
    ensures
        bitmap_wf(rows_view(b)),
{
    let r = rows_view(b);
    if s.len() > 0 {
        let w = max_x(s) - min_x(s) + 1;
        let h = max_y(s) - min_y(s) + 1;
        assert(w >= 1 && h >= 1) by {
            crate::visualize::lemma_bounds(s);
            assert(min_x(s) <= s[0].0 <= max_x(s));
            assert(min_y(s) <= s[0].1 <= max_y(s));
        }
        assert(r[0] == b[0]@);
        assert(w + h <= w * h + 1) by (nonlinear_arith)
            requires
                w >= 1,
                h >= 1,
        ;
        assert forall|i: int| 0 <= i < r.len() implies (#[trigger] r[i]).len() == r[0].len() by {
            assert(r[i] == b[i]@);
        }
    } else {
        assert(r[0] == b[0]@);
    }
}

/// Whether recognition can place the points `s`: their bitmap fits (see
/// `fits`).
pub open spec fn placeable(s: Seq<(Int, Int)>) -> bool {
    fits(s)
}

/// Whether `it` is a list of points recognition can place.
pub open spec fn placeable_item(it: E) -> bool {
    coords_list(it) matches Some(s) && placeable(s)
}

/// Whether `e` is a list of pictures recognition can work on.
pub open spec fn pictures_ok(e: E) -> bool {
    &&& list_of(e) is Some
    &&& forall|c: int|
        0 <= c < list_of(e).unwrap().len() ==> #[trigger] placeable_item(list_of(e).unwrap()[c])
}

/// Whether recognition can place the points `s`, and `b` is their bitmap.
pub open spec fn pair_ok(s: Seq<(Int, Int)>, b: (Seq<Vec<bool>>, (Int, Int))) -> bool {
    placeable(s) && bitmap_of(b, s)
}

/// Whether `b` is the bitmap of the points `it` holds.
pub open spec fn channel_ok(it: E, b: (Seq<Vec<bool>>, (Int, Int))) -> bool {
    coords_list(it) matches Some(s) && bitmap_of(b, s)
}

proof fn lemma_findings_prefix(
    tpls: Seq<(Seq<char>, Seq<Seq<bool>>)>,
    bs: Seq<(Seq<Vec<bool>>, (Int, Int))>,
    c: int,
)
    requires
        0 <= c < bs.len(),
    ensures
        findings_upto(tpls, bs, c) == findings_upto(tpls, bs.take(c), c),
    decreases c,
{
    if c > 0 {
        lemma_findings_prefix(tpls, bs, c - 1);
        lemma_findings_prefix(tpls, bs.take(c), c - 1);
        assert(bs.take(c).take(c - 1) == bs.take(c - 1));
        assert(bs.take(c)[c - 1] == bs[c - 1]);
    }
}

impl Recognizer {
    /// The known glyphs found in the pictures `e` holds (a list of lists of
    /// points, one picture each); `None` where `e` holds no such list or a
    /// picture is too large (see `fits`).
    pub fn recognize(&self, e: &E) -> (r: Option<RecognitionResult>)
        requires
            self.wf(),
        ensures
            r is None <==> !pictures_ok(*e),
            r matches Some(res) ==> exists|bs: Seq<(Seq<Vec<bool>>, (Int, Int))>|
                {
                    &&& list_of(*e) matches Some(items)
                    &&& bs.len() == items.len()
                    &&& forall|c: int| 0 <= c < items.len() ==> #[trigger] channel_ok(items[c], bs[c])
                    &&& res.view() == #[trigger] findings_upto(self.templates(), bs, bs.len() as int)
                },
    {
        let lists = match collect_list_of_list_of_coords(e) {
            Some(l) => l,
            None => {
                proof {
                    if pictures_ok(*e) {
                        let items = list_of(*e).unwrap();
                        assert forall|i: int| 0 <= i < items.len() implies (#[trigger] coords_list(items[i])) is Some by {
                            assert(placeable_item(items[i]));
                        }
                    }
                }
                return None;
            },
        };
        let ghost items = list_of(*e).unwrap();
        let ghost tpls = self.templates();
        let mut results: Vec<((usize, Int, Int), RecognizedChar)> = Vec::new();
        let ghost mut bs: Seq<(Seq<Vec<bool>>, (Int, Int))> = Seq::empty();
        let mut channel: usize = 0;
        while channel < lists.len()
            invariant
                self.wf(),
                tpls == self.templates(),
                list_of(*e) == Some(items),
                lists@.len() == items.len(),
                forall|i: int| 0 <= i < items.len() ==> coords_list(#[trigger] items[i]) == Some(lists@[i]@),
                channel <= lists.len(),
                bs.len() == channel,
                forall|c: int| 0 <= c < channel ==> #[trigger] pair_ok(lists@[c]@, bs[c]),
                results@.map_values(|f: ((usize, Int, Int), RecognizedChar)| finding_view(f)) == findings_upto(tpls, bs, channel as int),
            decreases lists.len() - channel,
        {
            let (bmp, (mnx, mny)) = match create_bitmap_with_offset(&lists[channel]) {
                Some(b) => b,
                None => {
                    proof {
                        assert(coords_list(items[channel as int]) == Some(lists@[channel as int]@));
                        assert(!placeable_item(items[channel as int]));
                        if pictures_ok(*e) {
                            assert(list_of(*e).unwrap() == items);
                            assert(0 <= channel < list_of(*e).unwrap().len());
                            assert(placeable_item(list_of(*e).unwrap()[channel as int]));
                        }
                    }
                    return None;
                },
            };
            let ghost s = lists@[channel as int]@;
            proof {
                lemma_bitmap_wf(bmp@, s);
                if s.len() > 0 {
                    crate::visualize::lemma_bounds(s);
                }
            }
            assert(placeable(s));
            let mut found = self.match_all(&bmp);
            let ghost chan = (bmp@, (mnx, mny));
            assert(bitmap_of(chan, s));
            let ghost before = results@.map_values(|f: ((usize, Int, Int), RecognizedChar)| finding_view(f));
            let ghost orig = found@;
            let ghost all = all_matches(tpls, rows_view(bmp@), bmp.len() as int);
            let ghost n = found@.len();
            let nn = found.len();
            assert(n == nn);
            proof {
                assert(results@.map_values(|f: ((usize, Int, Int), RecognizedChar)| finding_view(f)) == before + all.take(0).map_values(
                    |m: ((int, int), Seq<char>)| ((channel as int, mnx + m.0.0, mny + m.0.1), Some(m.1)),
                ));
            }
            let mut k: usize = 0;
            while found.len() > 0
                invariant
                    k <= n,
                    n <= usize::MAX,
                    found@ == orig.subrange(k as int, n as int),
                    orig.map_values(|f: ((usize, usize), RecognizedChar)| found_view(f)) == all,
                    forall|i: int| 0 <= i < orig.len() ==> (#[trigger] orig[i]).1 is Char,
                    n == orig.len(),
                    forall|i: int| 0 <= i < orig.len() ==> (#[trigger] orig[i]).0.0 < bmp@[0]@.len() && orig[i].0.1 < bmp@.len(),
                    results@.map_values(|f: ((usize, Int, Int), RecognizedChar)| finding_view(f)) == before + all.take(k as int).map_values(
                        |m: ((int, int), Seq<char>)| ((channel as int, mnx + m.0.0, mny + m.0.1), Some(m.1)),
                    ),
                    mnx as int + bmp@[0]@.len() <= i128::MAX + 1,
                    mny as int + bmp@.len() <= i128::MAX + 1,
                    mnx >= i128::MIN,
                    bitmap_of(chan, s),
                    chan == (bmp@, (mnx, mny)),
                    placeable(s),
                    s == lists@[channel as int]@,
                    bs.len() == channel,
                    forall|c: int| 0 <= c < channel ==> #[trigger] pair_ok(lists@[c]@, bs[c]),
                    before == findings_upto(tpls, bs, channel as int),
                    self.wf(),
                    tpls == self.templates(),
                    list_of(*e) == Some(items),
                    lists@.len() == items.len(),
                    forall|i: int| 0 <= i < items.len() ==> coords_list(#[trigger] items[i]) == Some(lists@[i]@),
                    channel < lists.len(),
                decreases found.len(),
            {
                let f = found.remove(0);
                assert(f == orig[k as int]);
                let ((x, y), rc) = f;
                let gx = mnx + x as Int;
                let gy = mny + y as Int;
                let ghost prev = results@;
                results.push(((channel, gx, gy), rc));
                proof {
                    let m = all[k as int];
                    assert(m == found_view(orig[k as int]));
                    assert(all.take(k + 1) == all.take(k as int).push(m));
                    assert(results@.map_values(|f: ((usize, Int, Int), RecognizedChar)| finding_view(f)) =~= prev.map_values(|f: ((usize, Int, Int), RecognizedChar)| finding_view(f)).push(((channel as int, mnx + m.0.0, mny + m.0.1), Some(m.1))));
                    assert(all.take(k + 1).map_values(
                        |m: ((int, int), Seq<char>)| ((channel as int, mnx + m.0.0, mny + m.0.1), Some(m.1)),
                    ) =~= all.take(k as int).map_values(
                        |m: ((int, int), Seq<char>)| ((channel as int, mnx + m.0.0, mny + m.0.1), Some(m.1)),
                    ).push(((channel as int, mnx + m.0.0, mny + m.0.1), Some(m.1))));
                }
                k = k + 1;
            }
            proof {
                assert(all.len() == n);
                assert(all.take(n as int) == all);
                let bs0 = bs;
                bs = bs.push(chan);
                lemma_findings_prefix(tpls, bs, channel as int);
                if channel > 0 {
                    lemma_findings_prefix(tpls, bs0, (channel - 1) as int);
                }
                assert(bs.take(channel as int) =~= bs0);
                assert(findings_upto(tpls, bs0, channel as int) == findings_upto(tpls, bs0.take(channel as int), channel as int)) by {
                    assert(bs0.take(channel as int) =~= bs0);
                }
                assert(findings_upto(tpls, bs, (channel + 1) as int) == findings_upto(tpls, bs, channel as int) + channel_findings(tpls, channel as int, chan));
                assert(channel_findings(tpls, channel as int, chan) == all.map_values(
                    |m: ((int, int), Seq<char>)| ((channel as int, mnx + m.0.0, mny + m.0.1), Some(m.1)),
                ));
                assert forall|c: int| 0 <= c < channel + 1 implies #[trigger] pair_ok(lists@[c]@, bs[c]) by {
                    if c < channel {
                        assert(bs[c] == bs0[c]);
                    } else {
                        assert(bs[c] == chan);
                    }
                }
            }
            channel = channel + 1;
        }
        proof {
            assert forall|c: int| 0 <= c < items.len() implies #[trigger] placeable_item(items[c]) by {
                assert(coords_list(items[c]) == Some(lists@[c]@));
                assert(pair_ok(lists@[c]@, bs[c]));
            }
            assert forall|c: int| 0 <= c < items.len() implies #[trigger] channel_ok(items[c], bs[c]) by {
                assert(coords_list(items[c]) == Some(lists@[c]@));
                assert(pair_ok(lists@[c]@, bs[c]));
            }
        }
        let res = RecognitionResult { chars: results };
        assert(res.view() == findings_upto(tpls, bs, bs.len() as int));
        Some(res)
    }
}

/// The places of the findings that are named characters beginning with
/// `cmd`, in order.
pub open spec fn matching(v: Seq<((int, int, int), Option<Seq<char>>)>, cmd: Seq<char>) -> Seq<(int, int, int)>
    decreases v.len(),
{
    if v.len() == 0 {
        Seq::empty()
    } else {
        let prev = matching(v.drop_last(), cmd);
        if v.last().1 matches Some(name) && cmd.is_prefix_of(name) {
            prev.push(v.last().0)
        } else {
            prev
        }
    }
}

/// The command a typed command becomes: the position of the one glyph
/// whose name begins with it, as `x y`; the command itself when it is empty
/// or when no glyph or more than one matches.
pub open spec fn filter_spec(v: Seq<((int, int, int), Option<Seq<char>>)>, cmd: Seq<char>) -> Seq<char> {
    if cmd.len() == 0 {
        cmd
    } else {
        let m = matching(v, cmd);
        if m.len() == 1 {
            int_text(m[0].1) + seq![' '] + int_text(m[0].2)
        } else {
            cmd
        }
    }
}

impl RecognitionResult {
    /// The typed command `typed_command` turned into a position where it
    /// names exactly one recognized glyph (see `filter_spec`).
    pub fn filter_command(&self, typed_command: &str) -> (r: String)
        ensures
            r@ == filter_spec(self.view(), typed_command@),
    {
        let mut same = String::new();
        push_str(&mut same, typed_command);
        let cs = chars_of(typed_command);
        if cs.len() == 0 {
            return same;
        }
        let ghost v = self.view();
        let mut matches: Vec<(usize, Int, Int)> = Vec::new();
        let mut i: usize = 0;
        while i < self.chars.len()
            invariant
                i <= self.chars.len(),
                v == self.view(),
                matches@.map_values(|m: (usize, Int, Int)| (m.0 as int, m.1 as int, m.2 as int)) == matching(v.take(i as int), typed_command@),
            decreases self.chars.len() - i,
        {
            let ((c, x, y), rc) = &self.chars[i];
            let ghost before = matches@;
            assert(v.take(i + 1).drop_last() == v.take(i as int));
            assert(v.take(i + 1).last() == finding_view(self.chars@[i as int]));
            if rc.starts_with(typed_command) {
                matches.push((*c, *x, *y));
                assert(matches@.map_values(|m: (usize, Int, Int)| (m.0 as int, m.1 as int, m.2 as int)) =~= before.map_values(|m: (usize, Int, Int)| (m.0 as int, m.1 as int, m.2 as int)).push((*c as int, *x as int, *y as int)));
            }
            i = i + 1;
        }
        assert(v.take(self.chars.len() as int) == v);
        if matches.len() != 1 {
            return same;
        }
        let (_, x, y) = matches[0];
        let mut out = String::new();
        push_int(x, &mut out);
        string_push(&mut out, ' ');
        push_int(y, &mut out);
        assert(out@ == int_text(x as int) + seq![' '] + int_text(y as int));
        out
    }
}

/// Whether `(x1, y1)` comes before `(x2, y2)` in reading order.
pub open spec fn reading_order(x1: int, y1: int, x2: int, y2: int) -> bool {
    y1 < y2 || (y1 == y2 && x1 < x2)
}

pub open spec fn square(k: int) -> int {
    k * k
}

/// Whether `(x, y, bits)` is a number glyph in `bmp`: a clear corner at
/// `(x, y)`, set cells on the `k` cells right of it and below it, where the
/// run of both stops at `k`, and the `k * k` bits of the square inside, row
/// by row, least significant first.
pub open spec fn number_at(bmp: Seq<Seq<bool>>, x: int, y: int, bits: Seq<bool>) -> bool {
    let h = bmp.len() as int;
    let w = bmp[0].len() as int;
    exists|k: int|
        {
            &&& 1 <= k
            &&& bits.len() == #[trigger] square(k)
            &&& y + k < h
            &&& x + k < w
            &&& !bmp[y][x]
            &&& forall|t: int| 1 <= t <= k ==> #[trigger] bmp[y + t][x] && bmp[y][x + t]
            &&& !(y + k + 1 < h && bmp[y + k + 1][x] && x + k + 1 < w && bmp[y][x + k + 1])
            &&& forall|i: int| 0 <= i < k * k ==> #[trigger] bits[i] == bmp[y + 1 + i / k][x + 1 + i % k]
        }
}

/// Whether `(cx, cy)` lies in the square of the glyph `g`: at most its
/// side (the square root of its number of bits) right of and below its
/// corner.
pub open spec fn in_glyph(g: (usize, usize, Vec<bool>), cx: int, cy: int) -> bool {
    let d = g.2@.len() as int;
    &&& g.0 <= cx && g.1 <= cy
    &&& (cx - g.0) * (cx - g.0) <= d
    &&& (cy - g.1) * (cy - g.1) <= d
}

/// Whether `(cx, cy)` lies in the square of one of the glyphs `r`.
pub open spec fn covered(r: Seq<(usize, usize, Vec<bool>)>, cx: int, cy: int) -> bool {
    exists|i: int| 0 <= i < r.len() && #[trigger] in_glyph(r[i], cx, cy)
}

/// The mark of the cell `(cx, cy)` in the marks `u` of a bitmap `w` wide,
/// stored row after row.
pub open spec fn marked(u: Seq<bool>, w: int, cx: int, cy: int) -> bool {
    u[cy * w + cx]
}

proof fn lemma_side(d: int, k: int)
    requires
        0 <= d,
        0 <= k,
    ensures
        (d <= k) == (d * d <= k * k),
{
    if d <= k {
        assert(d * d <= k * k) by (nonlinear_arith)
            requires
                0 <= d <= k,
        ;
    } else {
        assert(d * d > k * k) by (nonlinear_arith)
            requires
                0 <= k < d,
        ;
    }
}

proof fn lemma_cell(w: int, h: int, cx: int, cy: int, px: int, py: int)
    requires
        0 <= cx < w,
        0 <= px < w,
        0 <= cy < h,
        0 <= py < h,
    ensures
        0 <= cy * w + cx < h * w,
        (cy * w + cx == py * w + px) == (cx == px && cy == py),
{
    assert(0 <= cy * w + cx < h * w) by (nonlinear_arith)
        requires
            0 <= cx < w,
            0 <= cy < h,
    ;
    if cy < py {
        assert(cy * w + cx < py * w + px) by (nonlinear_arith)
            requires
                0 <= cx < w,
                0 <= px,
                0 <= cy < py,
        ;
    } else if py < cy {
        assert(py * w + px < cy * w + cx) by (nonlinear_arith)
            requires
                0 <= px < w,
                0 <= cx,
                0 <= py < cy,
        ;
    }
}

proof fn lemma_covered_push(r: Seq<(usize, usize, Vec<bool>)>, g: (usize, usize, Vec<bool>), cx: int, cy: int)
    ensures
        covered(r.push(g), cx, cy) == (covered(r, cx, cy) || in_glyph(g, cx, cy)),
{
    if covered(r, cx, cy) {
        let i = choose|i: int| 0 <= i < r.len() && #[trigger] in_glyph(r[i], cx, cy);
        assert(r.push(g)[i] == r[i]);
    }
    if in_glyph(g, cx, cy) {
        assert(r.push(g)[r.len() as int] == g);
    }
    if covered(r.push(g), cx, cy) {
        let i = choose|i: int| 0 <= i < r.push(g).len() && #[trigger] in_glyph(r.push(g)[i], cx, cy);
        if i < r.len() {
            assert(r.push(g)[i] == r[i]);
        }
    }
}

/// A glyph with its corner at `(x, y)` has the side that the scan along
/// its frame finds: the frame is set for the `k0 - 1` cells right of and
/// below the corner, and not both at `k0`.
proof fn lemma_glyph_side(b: Seq<Seq<bool>>, x: int, y: int, k0: int, bits: Seq<bool>)
    requires
        1 <= k0,
        y + k0 <= b.len(),
        x + k0 <= b[0].len(),
        forall|t: int| 1 <= t < k0 ==> #[trigger] b[y + t][x] && b[y][x + t],
        !(y + k0 < b.len() && b[y + k0][x] && x + k0 < b[0].len() && b[y][x + k0]),
        number_at(b, x, y, bits),
    ensures
        k0 >= 2,
        bits.len() == (k0 - 1) * (k0 - 1),
{
    let k = choose|k: int|
        {
            &&& 1 <= k
            &&& bits.len() == #[trigger] square(k)
            &&& y + k < b.len()
            &&& x + k < b[0].len()
            &&& !b[y][x]
            &&& forall|t: int| 1 <= t <= k ==> #[trigger] b[y + t][x] && b[y][x + t]
            &&& !(y + k + 1 < b.len() && b[y + k + 1][x] && x + k + 1 < b[0].len() && b[y][x + k + 1])
            &&& forall|i: int| 0 <= i < k * k ==> #[trigger] bits[i] == b[y + 1 + i / k][x + 1 + i % k]
        };
    if k < k0 - 1 {
        assert(b[y + (k + 1)][x] && b[y][x + (k + 1)]);
    } else if k > k0 - 1 {
        assert(b[y + k0][x] && b[y][x + k0]);
    }
}

/// The glyph found by the scan of its frame and its bits is a number glyph.
proof fn lemma_number_at(b: Seq<Seq<bool>>, x: int, y: int, k: int, bits: Seq<bool>)
    requires
        1 <= k,
        y + k < b.len(),
        x + k < b[0].len(),
        !b[y][x],
        forall|t: int| 1 <= t <= k ==> #[trigger] b[y + t][x] && b[y][x + t],
        !(y + k + 1 < b.len() && b[y + k + 1][x] && x + k + 1 < b[0].len() && b[y][x + k + 1]),
        bits.len() == k * k,
        forall|j: int| 0 <= j < k * k ==> #[trigger] bits[j] == b[y + 1 + j / k][x + 1 + j % k],
    ensures
        number_at(b, x, y, bits),
{
    assert(bits.len() == square(k));
}

/// Sets the marks of the cells of the square from `(x, y)` to
/// `(x + k, y + k)` in the marks `usd` of a bitmap `w` wide and `h` high.
fn mark_square(usd: &mut Vec<bool>, w: usize, h: usize, x: usize, y: usize, k: usize)
    requires
        old(usd)@.len() == h * w,
        h * w <= usize::MAX,
        y + k < h,
        x + k < w,
    ensures
        final(usd)@.len() == h * w,
        forall|cx: int, cy: int|
            0 <= cx < w && 0 <= cy < h ==> #[trigger] marked(final(usd)@, w as int, cx, cy) == (marked(
                old(usd)@,
                w as int,
                cx,
                cy,
            ) || (x <= cx <= x + k && y <= cy <= y + k)),
{
    let mut dx: usize = 0;
    while dx <= k
        invariant
            dx <= k + 1,
            y + k < h,
            x + k < w,
            h * w <= usize::MAX,
            usd@.len() == h * w,
            forall|cx: int, cy: int|
                0 <= cx < w && 0 <= cy < h ==> #[trigger] marked(usd@, w as int, cx, cy) == (marked(
                    old(usd)@,
                    w as int,
                    cx,
                    cy,
                ) || (x <= cx < x + dx && y <= cy <= y + k)),
        decreases k + 1 - dx,
    {
        let mut dy: usize = 0;
        while dy <= k
            invariant
                dy <= k + 1,
                dx <= k,
                y + k < h,
                x + k < w,
                h * w <= usize::MAX,
                usd@.len() == h * w,
                forall|cx: int, cy: int|
                    0 <= cx < w && 0 <= cy < h ==> #[trigger] marked(usd@, w as int, cx, cy) == (marked(
                        old(usd)@,
                        w as int,
                        cx,
                        cy,
                    ) || (x <= cx < x + dx && y <= cy <= y + k) || (cx == x + dx && y <= cy < y + dy)),
            decreases k + 1 - dy,
        {
            proof {
                lemma_cell(w as int, h as int, (x + dx) as int, (y + dy) as int, 0, 0);
            }
            let p = (y + dy) * w + (x + dx);
            let ghost u0 = usd@;
            usd.set(p, true);
            proof {
                assert forall|cx: int, cy: int| 0 <= cx < w && 0 <= cy < h implies #[trigger] marked(
                    usd@,
                    w as int,
                    cx,
                    cy,
                ) == (marked(u0, w as int, cx, cy) || (cx == x + dx && cy == y + dy)) by {
                    lemma_cell(w as int, h as int, cx, cy, (x + dx) as int, (y + dy) as int);
                }
            }
            dy = dy + 1;
        }
        dx = dx + 1;
    }
}

impl Recognizer {
    /// The number glyphs of `bmp`, in reading order of their corners; a
    /// corner inside the square of a glyph found before is passed over.
    /// Every glyph's corner lies in the square of a glyph found.
    #[verifier::spinoff_prover]
    pub fn detect_chars(&self, bmp: &Vec<Vec<bool>>) -> (r: Vec<(usize, usize, Vec<bool>)>)
        requires
            bitmap_wf(rows_view(bmp@)),
            bmp@.len() * bmp@[0]@.len() <= usize::MAX,
        ensures
            forall|i: int| 0 <= i < r@.len() ==> #[trigger] number_at(rows_view(bmp@), r@[i].0 as int, r@[i].1 as int, r@[i].2@),
            forall|i: int, j: int|
                #![trigger r@[i], r@[j]]
                0 <= i < j < r@.len() ==> reading_order(r@[i].0 as int, r@[i].1 as int, r@[j].0 as int, r@[j].1 as int),
            forall|i: int, j: int|
                #![trigger r@[i], r@[j]]
                0 <= j < i < r@.len() ==> !in_glyph(r@[j], r@[i].0 as int, r@[i].1 as int),
            forall|cx: int, cy: int, bits: Seq<bool>|
                0 <= cx && 0 <= cy && #[trigger] number_at(rows_view(bmp@), cx, cy, bits) ==> covered(r@, cx, cy),
    {
        let ghost b = rows_view(bmp@);
        let h = bmp.len();
        let w = bmp[0].len();
        assert(b[0] == bmp@[0]@);
        let mut usd: Vec<bool> = Vec::new();
        let mut q: usize = 0;
        while q < h * w
            invariant
                q <= h * w,
                h * w <= usize::MAX,
                usd@.len() == q,
                forall|p: int| 0 <= p < q ==> !(#[trigger] usd@[p]),
            decreases h * w - q,
        {
            usd.push(false);
            q = q + 1;
        }
        let mut found: Vec<(usize, usize, Vec<bool>)> = Vec::new();
        assert forall|cx: int, cy: int| 0 <= cx < w && 0 <= cy < h implies #[trigger] marked(
            usd@,
            w as int,
            cx,
            cy,
        ) == covered(found@, cx, cy) by {
            lemma_cell(w as int, h as int, cx, cy, 0, 0);
        }
        let mut y: usize = 0;
        while y < h
            invariant
                b == rows_view(bmp@),
                bitmap_wf(b),
                h == b.len(),
                w == b[0].len(),
                h * w <= usize::MAX,
                usd@.len() == h * w,
                y <= h,
                forall|i: int| 0 <= i < found@.len() ==> #[trigger] number_at(b, found@[i].0 as int, found@[i].1 as int, found@[i].2@),
                forall|i: int| 0 <= i < found@.len() ==> (#[trigger] found@[i]).1 < y,
                forall|i: int, j: int|
                    #![trigger found@[i], found@[j]]
                    0 <= i < j < found@.len() ==> reading_order(found@[i].0 as int, found@[i].1 as int, found@[j].0 as int, found@[j].1 as int),
                forall|i: int, j: int|
                    #![trigger found@[i], found@[j]]
                    0 <= j < i < found@.len() ==> !in_glyph(found@[j], found@[i].0 as int, found@[i].1 as int),
                forall|cx: int, cy: int|
                    0 <= cx < w && 0 <= cy < h ==> #[trigger] marked(usd@, w as int, cx, cy) == covered(found@, cx, cy),
                forall|cx: int, cy: int, bits: Seq<bool>|
                    0 <= cx && 0 <= cy < y && #[trigger] number_at(b, cx, cy, bits) ==> covered(found@, cx, cy),
            decreases h - y,
        {
            assert(bmp@[y as int]@ == b[y as int] && b[y as int].len() == w);
            let mut x: usize = 0;
            while x < w
                invariant
                    b == rows_view(bmp@),
                    bitmap_wf(b),
                    h == b.len(),
                    w == b[0].len(),
                    h * w <= usize::MAX,
                    usd@.len() == h * w,
                    y < h,
                    x <= w,
                    forall|i: int| 0 <= i < found@.len() ==> #[trigger] number_at(b, found@[i].0 as int, found@[i].1 as int, found@[i].2@),
                    forall|i: int| 0 <= i < found@.len() ==> reading_order((#[trigger] found@[i]).0 as int, found@[i].1 as int, x as int, y as int),
                    forall|i: int, j: int|
                        #![trigger found@[i], found@[j]]
                        0 <= i < j < found@.len() ==> reading_order(found@[i].0 as int, found@[i].1 as int, found@[j].0 as int, found@[j].1 as int),
                    forall|i: int, j: int|
                        #![trigger found@[i], found@[j]]
                        0 <= j < i < found@.len() ==> !in_glyph(found@[j], found@[i].0 as int, found@[i].1 as int),
                    forall|cx: int, cy: int|
                        0 <= cx < w && 0 <= cy < h ==> #[trigger] marked(usd@, w as int, cx, cy) == covered(found@, cx, cy),
                    forall|cx: int, cy: int, bits: Seq<bool>|
                        0 <= cx && 0 <= cy && reading_order(cx, cy, x as int, y as int) && #[trigger] number_at(b, cx, cy, bits) ==> covered(found@, cx, cy),
                    bmp@[y as int]@ == b[y as int],
                    b[y as int].len() == w,
                decreases w - x,
            {
                proof {
                    lemma_cell(w as int, h as int, x as int, y as int, 0, 0);
                }
                assert(bmp@[y as int]@ == b[y as int] && b[y as int].len() == w);
                assert(usd@[(y * w + x) as int] == marked(usd@, w as int, x as int, y as int));
                if usd[y * w + x] || bmp[y][x] {
                    proof {
                        assert forall|bits: Seq<bool>| #[trigger] number_at(b, x as int, y as int, bits) implies covered(found@, x as int, y as int) by {
                            if !usd@[(y * w + x) as int] {
                                assert(b[y as int][x as int]);
                            }
                        }
                    }
                    x = x + 1;
                    continue;
                }
                let mut k: usize = 1;
                loop
                    invariant
                        b == rows_view(bmp@),
                        bitmap_wf(b),
                        h == b.len(),
                        w == b[0].len(),
                        y < h,
                        x < w,
                        1 <= k,
                        y + k <= h,
                        x + k <= w,
                        bmp@[y as int]@ == b[y as int],
                        !b[y as int][x as int],
                        forall|t: int| 1 <= t < k ==> #[trigger] b[y + t][x as int] && b[y as int][x + t],
                    ensures
                        !b[y as int][x as int],
                        1 <= k,
                        y + k <= h,
                        x + k <= w,
                        forall|t: int| 1 <= t < k ==> #[trigger] b[y + t][x as int] && b[y as int][x + t],
                        !(y + k < h && b[y + k][x as int] && x + k < w && b[y as int][x + k]),
                    decreases h - y - k,
                {
                    if y + k >= h {
                        break;
                    }
                    assert(bmp@[(y + k) as int]@ == b[y + k] && b[y + k].len() == w);
                    if !bmp[y + k][x] {
                        break;
                    }
                    if x + k >= w {
                        break;
                    }
                    if !bmp[y][x + k] {
                        break;
                    }
                    k = k + 1;
                }
                let ghost k0 = k;
                k = k - 1;
                if k == 0 {
                    proof {
                        assert forall|bits: Seq<bool>| #[trigger] number_at(b, x as int, y as int, bits) implies false by {
                            lemma_glyph_side(b, x as int, y as int, k0 as int, bits);
                        }
                    }
                    x = x + 1;
                    continue;
                }
                assert forall|t: int| 1 <= t <= k implies #[trigger] b[y + t][x as int] && b[y as int][x + t] by {
                    assert(1 <= t < k0);
                    assert(b[y + t][x as int] && b[y as int][x + t]);
                }
                assert(k * k <= h * w) by (nonlinear_arith)
                    requires
                        k < h,
                        k < w,
                ;
                let mut bits: Vec<bool> = Vec::new();
                let mut i: usize = 0;
                while i < k * k
                    invariant
                        b == rows_view(bmp@),
                        bitmap_wf(b),
                        h == b.len(),
                        w == b[0].len(),
                        1 <= k,
                        y + k < h,
                        x + k < w,
                        k * k <= h * w,
                        h * w <= usize::MAX,
                        i <= k * k,
                        bits@.len() == i,
                        !b[y as int][x as int],
                        forall|t: int| 1 <= t <= k ==> #[trigger] b[y + t][x as int] && b[y as int][x + t],
                        !(y + k + 1 < h && b[y + k + 1][x as int] && x + k + 1 < w && b[y as int][x + k + 1]),
                        forall|j: int| 0 <= j < i ==> #[trigger] bits@[j] == b[y + 1 + j / (k as int)][x + 1 + j % (k as int)],
                    decreases k * k - i,
                {
                    let r = i / k;
                    let c = i % k;
                    assert(r < k && c < k) by (nonlinear_arith)
                        requires
                            i < k * k,
                            r == i / k,
                            c == i % k,
                            k >= 1,
                    ;
                    assert(bmp@[(y + 1 + r) as int]@ == b[y + 1 + r] && b[y + 1 + r].len() == w);
                    bits.push(bmp[y + 1 + r][x + 1 + c]);
                    i = i + 1;
                }
                proof {
                    lemma_number_at(b, x as int, y as int, k as int, bits@);
                }
                let ghost found0 = found@;
                let ghost usd0 = usd@;
                assert(!covered(found0, x as int, y as int));
                mark_square(&mut usd, w, h, x, y, k);
                let ghost g = (x, y, bits);
                found.push((x, y, bits));
                proof {
                    assert(found@ == found0.push(g));
                    assert(g.2@.len() == k * k);
                    lemma_side(0, k as int);
                    assert(in_glyph(g, x as int, y as int));
                    lemma_covered_push(found0, g, x as int, y as int);
                    assert forall|cx: int, cy: int| 0 <= cx < w && 0 <= cy < h implies #[trigger] marked(
                        usd@,
                        w as int,
                        cx,
                        cy,
                    ) == covered(found@, cx, cy) by {
                        lemma_covered_push(found0, g, cx, cy);
                        assert(marked(usd0, w as int, cx, cy) == covered(found0, cx, cy));
                        if g.0 <= cx && g.1 <= cy {
                            lemma_side(cx - x, k as int);
                            lemma_side(cy - y, k as int);
                        }
                    }
                    assert forall|cx: int, cy: int, bits2: Seq<bool>|
                        0 <= cx && 0 <= cy && reading_order(cx, cy, (x + 1) as int, y as int) && #[trigger] number_at(b, cx, cy, bits2)
                        implies covered(found@, cx, cy) by {
                        lemma_covered_push(found0, g, cx, cy);
                    }
                    assert forall|i2: int, j2: int|
                        #![trigger found@[i2], found@[j2]]
                        0 <= j2 < i2 < found@.len() implies !in_glyph(found@[j2], found@[i2].0 as int, found@[i2].1 as int) by {
                        if i2 == found0.len() {
                            assert(found@[j2] == found0[j2]);
                            assert(!in_glyph(found0[j2], x as int, y as int));
                        } else {
                            assert(found@[j2] == found0[j2] && found@[i2] == found0[i2]);
                        }
                    }
                }
                x = x + 1;
            }
            y = y + 1;
        }
        found
    }
}
} // verus!
