//! Routing of a ship around the planet: positions and velocities under the
//! planet's gravity, the area a ship may stay in, and a breadth-first search
//! for the acceleration that brings a ship nearest to a target.
use std::collections::HashMap;
use vstd::prelude::*;
use crate::client::Ship;

verus! {

broadcast use vstd::std_specs::hash::group_hash_axioms;

/// Half the side of the square outside which a ship is lost.
pub const SIZE_OUTER: i32 = 128;

/// Half the side of the planet.
pub const SIZE_INNER: i32 = 16;

/// The bound on the speed along each axis.
pub const MAX_V: i32 = 16;

/// The depth of the search, in turns.
pub const STEP_LIMIT: i32 = 5;

pub open spec fn abs(x: int) -> int {
    if x < 0 {
        -x
    } else {
        x
    }
}

pub open spec fn sign(x: int) -> int {
    if x > 0 {
        1
    } else if x < 0 {
        -1
    } else {
        0
    }
}

/// `x` with its magnitude cut down to `limit`, its sign kept.
pub open spec fn clip(x: int, limit: int) -> int {
    if x > limit {
        limit
    } else if x < -limit {
        -limit
    } else {
        x
    }
}

fn iabs(x: i32) -> (r: i32)
    requires
        x != i32::MIN,
    ensures
        r == abs(x as int),
{
    if x < 0 {
        -x
    } else {
        x
    }
}

pub fn clip_int(x: i32, limit: i32) -> (r: i32)
    requires
        x != i32::MIN,
        limit >= 0,
    ensures
        r == clip(x as int, limit as int),
{
    let sign: i32 = if x > 0 {
        1
    } else if x < 0 {
        -1
    } else {
        0
    };
    let a = iabs(x);
    let m = if a < limit {
        a
    } else {
        limit
    };
    sign * m
}

pub fn clip_pos(x: i32) -> (r: i32)
    requires
        x != i32::MIN,
    ensures
        r == clip(x as int, SIZE_OUTER - 1),
{
    clip_int(x, SIZE_OUTER - 1)
}

pub fn clip_vel(x: i32) -> (r: i32)
    requires
        x != i32::MIN,
    ensures
        r == clip(x as int, MAX_V - 1),
{
    clip_int(x, MAX_V - 1)
}

/// Whether a ship at `x` with speed `v` along one axis, braking as hard as
/// gravity alone would (by one each turn, down to rest), stays inside the
/// outer bound.
pub open spec fn valid_1d(x: int, v: int) -> bool {
    let (x, v) = if v < 0 {
        (-x, -v)
    } else {
        (x, v)
    };
    let t = v / 2;
    x + v * t - t * (t + 1) < SIZE_OUTER
}

pub fn is_valid_1d(x: i32, v: i32) -> (r: bool)
    requires
        -SIZE_OUTER < x < SIZE_OUTER,
        -MAX_V < v < MAX_V,
    ensures
        r == valid_1d(x as int, v as int),
    decreases
        if v < 0 { 1int } else { 0int },
{
    if v < 0 {
        return is_valid_1d(-x, -v);
    }
    let t = v / 2;
    assert(0 <= v * t <= 15 * 7 && 0 <= t * (t + 1) <= 7 * 8) by (nonlinear_arith)
        requires
            0 <= v < 16,
            t == v / 2,
    ;
    let x1 = x + v * t - t * (t + 1);
    x1 < SIZE_OUTER
}

/// A ship's position and velocity.
#[derive(PartialEq, Eq, Structural, Copy, Clone, Debug)]
pub struct PosVel {
    pub x: i32,
    pub y: i32,
    pub vx: i32,
    pub vy: i32,
}

/// The pull of the planet at `(x, y)`: one towards it along the axis (or both
/// axes) on which the ship is farthest from it.
pub open spec fn gravity_at(x: int, y: int) -> (int, int) {
    let gx = if abs(x) >= abs(y) {
        -sign(x)
    } else {
        0
    };
    let gy = if abs(x) <= abs(y) {
        -sign(y)
    } else {
        0
    };
    (gx, gy)
}

/// Whether `(dvx, dvy)` is an acceleration the search tries.
pub open spec fn is_move(dvx: int, dvy: int) -> bool {
    -2 <= dvx < 2 && -2 <= dvy < 2
}

impl PosVel {
    /// The marker of no state: every field at `i32::MIN`.
    pub open spec fn empty() -> PosVel {
        PosVel { x: i32::MIN, y: i32::MIN, vx: i32::MIN, vy: i32::MIN }
    }

    pub open spec fn gravity(self) -> (int, int) {
        gravity_at(self.x as int, self.y as int)
    }

    /// The state one turn later, after gravity and the acceleration
    /// `(dvx, dvy)`.
    pub open spec fn next(self, dvx: int, dvy: int) -> PosVel {
        let vx = self.vx + self.gravity().0 + dvx;
        let vy = self.vy + self.gravity().1 + dvy;
        PosVel { x: (self.x + vx) as i32, y: (self.y + vy) as i32, vx: vx as i32, vy: vy as i32 }
    }

    /// Whether the state is one a ship may be in: inside the outer square,
    /// outside the planet, slower than `MAX_V` on each axis, and able to
    /// stay inside by braking.
    pub open spec fn valid(self) -> bool {
        &&& abs(self.x as int) < SIZE_OUTER
        &&& abs(self.y as int) < SIZE_OUTER
        &&& !(abs(self.x as int) <= SIZE_INNER && abs(self.y as int) <= SIZE_INNER)
        &&& abs(self.vx as int) < MAX_V
        &&& abs(self.vy as int) < MAX_V
        &&& valid_1d(self.x as int, self.vx as int)
        &&& valid_1d(self.y as int, self.vy as int)
    }

    /// The square of the distance from the ship to `(x, y)`.
    pub open spec fn dist2(self, x: int, y: int) -> int {
        (x - self.x) * (x - self.x) + (y - self.y) * (y - self.y)
    }

    pub fn new(x: i32, y: i32, vx: i32, vy: i32) -> (r: Self)
        ensures
            r == (PosVel { x, y, vx, vy }),
    {
        Self { x, y, vx, vy }
    }

    pub fn new_empty() -> (r: Self)
        ensures
            r == PosVel::empty(),
    {
        Self { x: i32::MIN, y: i32::MIN, vx: i32::MIN, vy: i32::MIN }
    }

    pub fn is_empty(&self) -> (r: bool)
        ensures
            r == (*self == PosVel::empty()),
    {
        self.x == i32::MIN && self.y == i32::MIN && self.vx == i32::MIN && self.vy == i32::MIN
    }

    pub fn get_gravity(&self) -> (r: (i32, i32))
        requires
            self.x != i32::MIN,
            self.y != i32::MIN,
        ensures
            r.0 == self.gravity().0,
            r.1 == self.gravity().1,
    {
        let ax = iabs(self.x);
        let ay = iabs(self.y);
        let apply_x = ax >= ay;
        let apply_y = ax <= ay;
        let gx = if apply_x {
            if self.x > 0 {
                -1
            } else if self.x < 0 {
                1
            } else {
                0
            }
        } else {
            0
        };
        let gy = if apply_y {
            if self.y > 0 {
                -1
            } else if self.y < 0 {
                1
            } else {
                0
            }
        } else {
            0
        };
        (gx, gy)
    }

    pub fn apply_gravity(&self) -> (r: Self)
        requires
            self.x != i32::MIN,
            self.y != i32::MIN,
            i32::MIN <= self.vx + self.gravity().0 <= i32::MAX,
            i32::MIN <= self.vy + self.gravity().1 <= i32::MAX,
        ensures
            r == (PosVel {
                x: self.x,
                y: self.y,
                vx: (self.vx + self.gravity().0) as i32,
                vy: (self.vy + self.gravity().1) as i32,
            }),
    {
        let (gx, gy) = self.get_gravity();
        Self { x: self.x, y: self.y, vx: self.vx + gx, vy: self.vy + gy }
    }

    pub fn accelerate_and_move(&self, dvx: i32, dvy: i32) -> (r: Self)
        requires
            i32::MIN <= self.vx + dvx <= i32::MAX,
            i32::MIN <= self.vy + dvy <= i32::MAX,
            i32::MIN <= self.x + self.vx + dvx <= i32::MAX,
            i32::MIN <= self.y + self.vy + dvy <= i32::MAX,
        ensures
            r == (PosVel {
                x: (self.x + self.vx + dvx) as i32,
                y: (self.y + self.vy + dvy) as i32,
                vx: (self.vx + dvx) as i32,
                vy: (self.vy + dvy) as i32,
            }),
    {
        let vx = self.vx + dvx;
        let vy = self.vy + dvy;
        Self { x: self.x + vx, y: self.y + vy, vx, vy }
    }

    pub fn is_in_valid_area(&self) -> (r: bool)
        requires
            self.x != i32::MIN,
            abs(self.x as int) < SIZE_OUTER ==> self.y != i32::MIN,
            abs(self.x as int) < SIZE_OUTER && abs(self.y as int) < SIZE_OUTER && !(abs(
                self.x as int,
            ) <= SIZE_INNER && abs(self.y as int) <= SIZE_INNER) ==> self.vx != i32::MIN && (abs(
                self.vx as int,
            ) < MAX_V ==> self.vy != i32::MIN),
        ensures
            r == self.valid(),
    {
        if SIZE_OUTER <= iabs(self.x) || SIZE_OUTER <= iabs(self.y) {
            return false;
        }
        if iabs(self.x) <= SIZE_INNER && iabs(self.y) <= SIZE_INNER {
            return false;
        }
        if MAX_V <= iabs(self.vx) || MAX_V <= iabs(self.vy) {
            return false;
        }
        if !is_valid_1d(self.x, self.vx) || !is_valid_1d(self.y, self.vy) {
            return false;
        }
        true
    }

    pub fn hypot_to(&self, x: i32, y: i32) -> (r: i32)
        requires
            i32::MIN <= x - self.x <= i32::MAX,
            i32::MIN <= y - self.y <= i32::MAX,
            self.dist2(x as int, y as int) <= i32::MAX,
        ensures
            r == self.dist2(x as int, y as int),
    {
        let dx = x - self.x;
        let dy = y - self.y;
        assert(0 <= dx * dx && 0 <= dy * dy) by (nonlinear_arith);
        dx * dx + dy * dy
    }
}


/// Whether `(dvx, dvy)` takes `p` to the valid state `q` in one turn.
pub open spec fn succ(p: PosVel, q: PosVel) -> bool {
    exists|dvx: int, dvy: int| is_move(dvx, dvy) && #[trigger] p.next(dvx, dvy) == q && q.valid()
}

/// The states reachable from `start` in at most `k` turns through valid
/// states (`start` itself need not be valid).
pub open spec fn within(start: PosVel, k: nat) -> Set<PosVel>
    decreases k,
{
    if k == 0 {
        set![start]
    } else {
        let prev = within(start, (k - 1) as nat);
        prev + Set::new(|q: PosVel| exists|p: PosVel| prev.contains(p) && #[trigger] succ(p, q))
    }
}

/// Whether `k` is the fewest turns in which `q` is reachable from `start`.
pub open spec fn new_at(start: PosVel, q: PosVel, k: nat) -> bool {
    within(start, k).contains(q) && (k == 0 || !within(start, (k - 1) as nat).contains(q))
}

/// Whether the state at `i` in `path` reaches the next one in one turn.
pub open spec fn link(path: Seq<PosVel>, i: int) -> bool {
    succ(path[i], path[i + 1])
}

/// Whether each state of `path` reaches the next in one turn.
pub open spec fn is_path(path: Seq<PosVel>) -> bool {
    forall|i: int| 0 <= i < path.len() - 1 ==> #[trigger] link(path, i)
}

/// Whether some tried acceleration takes `start` to a valid state other
/// than itself.
pub open spec fn can_move(start: PosVel) -> bool {
    exists|dvx: int, dvy: int|
        is_move(dvx, dvy) && (#[trigger] start.next(dvx, dvy)).valid() && start.next(dvx, dvy)
            != start
}

/// The lexicographic order on (squared distance, turns).
pub open spec fn lex_le(h1: int, n1: int, h2: int, n2: int) -> bool {
    h1 < h2 || (h1 == h2 && n1 <= n2)
}

/// The state the search starts from: the position and the velocity cut down
/// to the bounds the search works in.
pub open spec fn start_of(sx: int, sy: int, vx: int, vy: int) -> PosVel {
    PosVel {
        x: clip(sx, SIZE_OUTER - 1) as i32,
        y: clip(sy, SIZE_OUTER - 1) as i32,
        vx: clip(vx, MAX_V - 1) as i32,
        vy: clip(vy, MAX_V - 1) as i32,
    }
}

impl PosVel {
    /// Whether the state fits the search's table.
    pub open spec fn in_box(self) -> bool {
        &&& -SIZE_OUTER <= self.x < SIZE_OUTER
        &&& -SIZE_OUTER <= self.y < SIZE_OUTER
        &&& -MAX_V <= self.vx < MAX_V
        &&& -MAX_V <= self.vy < MAX_V
    }

    /// The index of the state in the search's table.
    pub open spec fn key(self) -> int {
        ((self.vy + MAX_V) * (2 * MAX_V) + (self.vx + MAX_V)) * 65536 + (self.y + SIZE_OUTER) * 256
            + (self.x + SIZE_OUTER)
    }
}

proof fn lemma_table_entry(t: Map<PosVel, (i32, PosVel)>, start: PosVel, c: nat, q: PosVel)
    requires
        table_ok(t, start, c),
        t.contains_key(q),
    ensures
        start.in_box(),
        t.contains_key(start),
        t[start] == (0i32, PosVel::empty()),
        q.in_box(),
        0 <= t[q].0 <= c,
        new_at(start, q, t[q].0 as nat),
        q != start ==> {
            &&& q.valid()
            &&& succ(t[q].1, q)
            &&& t.contains_key(t[q].1)
            &&& t[t[q].1].0 == t[q].0 - 1
        },
{
    reveal(table_ok);
}

proof fn lemma_key_injective(p: PosVel, q: PosVel)
    requires
        p.in_box(),
        q.in_box(),
        p.key() == q.key(),
    ensures
        p == q,
{
    let a1 = (p.vy + 16) as u64;
    let b1 = (p.vx + 16) as u64;
    let c1 = (p.y + 128) as u64;
    let d1 = (p.x + 128) as u64;
    let a2 = (q.vy + 16) as u64;
    let b2 = (q.vx + 16) as u64;
    let c2 = (q.y + 128) as u64;
    let d2 = (q.x + 128) as u64;
    assert(a1 == a2 && b1 == b2 && c1 == c2 && d1 == d2) by (bit_vector)
        requires
            a1 < 32 && b1 < 32 && c1 < 256 && d1 < 256,
            a2 < 32 && b2 < 32 && c2 < 256 && d2 < 256,
            (a1 * 32 + b1) * 65536 + c1 * 256 + d1 == (a2 * 32 + b2) * 65536 + c2 * 256 + d2,
    ;
}

proof fn lemma_within_mono(start: PosVel, j: nat, k: nat)
    requires
        j <= k,
    ensures
        within(start, j).subset_of(within(start, k)),
    decreases k,
{
    if j < k {
        lemma_within_mono(start, j, (k - 1) as nat);
    }
}

proof fn lemma_level_unique(start: PosVel, q: PosVel, c1: nat, c2: nat)
    requires
        new_at(start, q, c1),
        new_at(start, q, c2),
    ensures
        c1 == c2,
{
    if c1 < c2 {
        lemma_within_mono(start, c1, (c2 - 1) as nat);
    } else if c2 < c1 {
        lemma_within_mono(start, c2, (c1 - 1) as nat);
    }
}

proof fn lemma_succ_within(start: PosVel, p: PosVel, q: PosVel, c: nat)
    requires
        within(start, c).contains(p),
        succ(p, q),
    ensures
        within(start, c + 1).contains(q),
{
    let prev = within(start, c);
    assert(Set::new(|q: PosVel| exists|p: PosVel| prev.contains(p) && #[trigger] succ(p, q)).contains(q));
}

fn index_of(s: &PosVel) -> (r: u64)
    requires
        s.in_box(),
    ensures
        r == s.key(),
{
    ((s.vy + MAX_V) as u64 * 32 + (s.vx + MAX_V) as u64) * 65536 + (s.y + SIZE_OUTER) as u64 * 256
        + (s.x + SIZE_OUTER) as u64
}

/// The search for the next acceleration. Its table maps each state reached
/// to the fewest turns it takes and the state it was first reached from.
pub struct Router {
    mem: HashMap<u64, (i32, PosVel)>,
    ver: u16,
}

impl Router {
    /// The table, by state.
    pub closed spec fn table(self) -> Map<PosVel, (i32, PosVel)> {
        Map::new(
            |q: PosVel| q.in_box() && self.mem@.contains_key(q.key() as u64),
            |q: PosVel| self.mem@[q.key() as u64],
        )
    }

    /// How many searches have been made.
    pub closed spec fn searches(self) -> u16 {
        self.ver
    }

    pub fn new() -> (r: Self)
        ensures
            r.table() == Map::<PosVel, (i32, PosVel)>::empty(),
            r.searches() == 0,
    {
        let r = Self { mem: HashMap::new(), ver: 0 };
        assert(r.table() =~= Map::<PosVel, (i32, PosVel)>::empty());
        r
    }

    /// How many searches have been made.
    pub fn ver(&self) -> (r: u16)
        ensures
            r == self.searches(),
    {
        self.ver
    }

    pub fn get(&self, s: &PosVel) -> (r: (i32, PosVel))
        requires
            s.in_box(),
        ensures
            r == (if self.table().contains_key(*s) {
                self.table()[*s]
            } else {
                (i32::MAX, PosVel::empty())
            }),
    {
        let k = index_of(s);
        match self.mem.get(&k) {
            Some(v) => *v,
            None => (i32::MAX, PosVel::new_empty()),
        }
    }

    pub fn set(&mut self, s: &PosVel, value: (i32, PosVel))
        requires
            s.in_box(),
        ensures
            final(self).table() == old(self).table().insert(*s, value),
            final(self).searches() == old(self).searches(),
    {
        let k = index_of(s);
        self.mem.insert(k, value);
        proof {
            assert forall|q: PosVel| q.in_box() && q != *s implies q.key() != s.key() by {
                if q.key() == s.key() {
                    lemma_key_injective(q, *s);
                }
            }
            assert(self.table() =~= old(self).table().insert(*s, value));
        }
    }
}


/// What the search's table holds after `c` turns: each state reached, once,
/// with the fewest turns it takes and, but for `start`, a state one turn
/// nearer from which it is reached.
#[verifier::opaque]
pub open spec fn table_ok(t: Map<PosVel, (i32, PosVel)>, start: PosVel, c: nat) -> bool {
    &&& start.in_box()
    &&& t.contains_key(start)
    &&& t[start] == (0i32, PosVel::empty())
    &&& forall|q: PosVel| #[trigger]
        t.contains_key(q) ==> {
            &&& q.in_box()
            &&& 0 <= t[q].0 <= c
            &&& new_at(start, q, t[q].0 as nat)
            &&& q != start ==> {
                &&& q.valid()
                &&& succ(t[q].1, q)
                &&& t.contains_key(t[q].1)
                &&& t[t[q].1].0 == t[q].0 - 1
            }
        }
}

/// `best` is the state of the table other than `start` nearest to `(tx, ty)`,
/// with its turns; `None` when the table holds `start` alone.
#[verifier::opaque]
pub open spec fn best_ok(
    t: Map<PosVel, (i32, PosVel)>,
    start: PosVel,
    best: Option<(i128, i32, PosVel)>,
    tx: int,
    ty: int,
) -> bool {
    match best {
        None => forall|q: PosVel| #[trigger] t.contains_key(q) ==> q == start,
        Some((h, n, b)) => {
            &&& t.contains_key(b)
            &&& b != start
            &&& t[b].0 == n
            &&& h == b.dist2(tx, ty)
            &&& forall|q: PosVel| #[trigger]
                t.contains_key(q) && q != start ==> lex_le(h as int, n as int, q.dist2(tx, ty), t[q].0 as int)
        },
    }
}

/// The table while the states `c + 1` turns away are being added: `t0` is
/// the table at `c` turns, `next` the states added so far.
#[verifier::opaque]
pub open spec fn level_ok(
    t: Map<PosVel, (i32, PosVel)>,
    t0: Map<PosVel, (i32, PosVel)>,
    start: PosVel,
    c: nat,
    next: Seq<PosVel>,
) -> bool {
    &&& table_ok(t, start, c + 1)
    &&& table_ok(t0, start, c)
    &&& t0.dom() == within(start, c)
    &&& forall|q: PosVel| #[trigger]
        t0.contains_key(q) ==> t.contains_key(q) && t[q] == t0[q]
    &&& forall|q: PosVel| #[trigger] t.contains_key(q) ==> t0.contains_key(q) || next.contains(q)
    &&& forall|q: PosVel| #[trigger] next.contains(q) ==> t.contains_key(q) && t[q].0 == c + 1
}

/// A search in progress: the table, the states added at the level being
/// built, and the best state so far with its squared distance and turns.
pub type Progress = (Map<PosVel, (i32, PosVel)>, Seq<PosVel>, Option<(i128, i32, PosVel)>);

/// The turns the table records for `q`, `i32::MAX` where it has none.
pub open spec fn turns_in(t: Map<PosVel, (i32, PosVel)>, q: PosVel) -> int {
    if t.contains_key(q) {
        t[q].0 as int
    } else {
        i32::MAX as int
    }
}

/// One acceleration `(dvx, dvy)` tried from `s`, which is `c` turns away: a
/// valid state not yet in the table is added with `c + 1` turns and `s` as
/// where it comes from, and becomes the best when it is nearer to
/// `(tx, ty)`, or as near in fewer turns.
pub open spec fn try_spec(p: Progress, s: PosVel, dvx: int, dvy: int, c: int, tx: int, ty: int) -> Progress {
    let pv = s.next(dvx, dvy);
    if pv.valid() && turns_in(p.0, pv) > c + 1 {
        add_spec(p, pv, s, c, tx, ty)
    } else {
        p
    }
}

/// The state `pv`, reached from `s`, added `c + 1` turns away.
pub open spec fn add_spec(p: Progress, pv: PosVel, s: PosVel, c: int, tx: int, ty: int) -> Progress {
    let h = pv.dist2(tx, ty);
    let better = match p.2 {
        None => true,
        Some((bh, bn, _)) => h < bh || (h == bh && c + 1 < bn),
    };
    (
        p.0.insert(pv, ((c + 1) as i32, s)),
        p.1.push(pv),
        if better {
            Some((h as i128, (c + 1) as i32, pv))
        } else {
            p.2
        },
    )
}

/// The accelerations from the `m`-th on tried from `s`, in the order
/// `(-2, -2), (-2, -1), ..., (1, 1)`.
pub open spec fn expand_spec(p: Progress, s: PosVel, c: int, tx: int, ty: int, m: int) -> Progress
    decreases (if m < 16 { 16 - m } else { 0 }),
{
    if m < 0 || m >= 16 {
        p
    } else {
        expand_spec(try_spec(p, s, m / 4 - 2, m % 4 - 2, c, tx, ty), s, c, tx, ty, m + 1)
    }
}

/// The states of `frontier` from the `i`-th on expanded in turn.
pub open spec fn level_spec(p: Progress, frontier: Seq<PosVel>, i: int, c: int, tx: int, ty: int) -> Progress
    decreases frontier.len() - i,
{
    if i < 0 || i >= frontier.len() {
        p
    } else {
        level_spec(expand_spec(p, frontier[i], c, tx, ty, 0), frontier, i + 1, c, tx, ty)
    }
}

/// The levels from `c` turns on, each built from the states the one
/// before added.
pub open spec fn levels_spec(p: Progress, frontier: Seq<PosVel>, c: int, tx: int, ty: int) -> Progress
    decreases STEP_LIMIT - c,
{
    if c < 0 || c >= STEP_LIMIT {
        (p.0, Seq::empty(), p.2)
    } else {
        let q = level_spec((p.0, Seq::empty(), p.2), frontier, 0, c, tx, ty);
        levels_spec(q, q.1, c + 1, tx, ty)
    }
}

/// The whole search from `start` towards `(tx, ty)`.
#[verifier::opaque]
pub open spec fn search_spec(start: PosVel, tx: int, ty: int) -> Progress {
    levels_spec(
        (Map::empty().insert(start, (0i32, PosVel::empty())), Seq::empty(), None),
        seq![start],
        0,
        tx,
        ty,
    )
}

/// Following the table from `cur` back towards the start while the state
/// is more than one turn away, at most `k` times.
pub open spec fn back_spec(t: Map<PosVel, (i32, PosVel)>, cur: PosVel, k: nat) -> PosVel
    decreases k,
{
    if k > 0 && turns_in(t, cur) > 1 {
        back_spec(t, t[cur].1, (k - 1) as nat)
    } else {
        cur
    }
}

/// What `get_next_move` answers for a ship in the state `start`: the
/// acceleration towards the first state on the recorded way to the best
/// state of the search, and that state's turns.
pub open spec fn route_spec(start: PosVel, tx: int, ty: int) -> ((i32, i32), i32) {
    let p = search_spec(start, tx, ty);
    let (h, n, b) = match p.2 {
        Some(v) => v,
        None => (0i128, 0i32, start),
    };
    let cur = back_spec(p.0, b, n as nat);
    let g = start.gravity();
    (((cur.vx - start.vx - g.0) as i32, (cur.vy - start.vy - g.1) as i32), n)
}

fn dist2_wide(pv: &PosVel, tx: i32, ty: i32) -> (r: i128)
    ensures
        r == pv.dist2(tx as int, ty as int),
{
    let dx = tx as i128 - pv.x as i128;
    let dy = ty as i128 - pv.y as i128;
    assert(0 <= dx * dx <= 0x1_0000_0000_0000_0000 && 0 <= dy * dy <= 0x1_0000_0000_0000_0000)
        by (nonlinear_arith)
        requires
            -0x1_0000_0000 <= dx <= 0x1_0000_0000,
            -0x1_0000_0000 <= dy <= 0x1_0000_0000,
    ;
    dx * dx + dy * dy
}

proof fn lemma_level_complete(
    t: Map<PosVel, (i32, PosVel)>,
    t0: Map<PosVel, (i32, PosVel)>,
    start: PosVel,
    c: nat,
    next: Seq<PosVel>,
    frontier: Seq<PosVel>,
)
    requires
        level_ok(t, t0, start, c, next),
        forall|q: PosVel| #[trigger]
            frontier.contains(q) <==> t0.contains_key(q) && t0[q].0 == c,
        forall|j: int, dvx: int, dvy: int|
            0 <= j < frontier.len() && is_move(dvx, dvy) && (#[trigger] frontier[j].next(
                dvx,
                dvy,
            )).valid() ==> t.contains_key(frontier[j].next(dvx, dvy)),
    ensures
        t.dom() == within(start, c + 1),
        forall|q: PosVel| #[trigger] next.contains(q) <==> t.contains_key(q) && t[q].0 == c + 1,
{
    reveal(table_ok);
    reveal(level_ok);
    reveal(best_ok);
    assert forall|q: PosVel| t.contains_key(q) implies #[trigger] within(start, c + 1).contains(q) by {
        lemma_within_mono(start, t[q].0 as nat, c + 1);
    }
    assert forall|q: PosVel| #[trigger] within(start, c + 1).contains(q) implies t.contains_key(q) by {
        let prev = within(start, c);
        if !prev.contains(q) {
            let p = choose|p: PosVel| prev.contains(p) && #[trigger] succ(p, q);
            let cp = t0[p].0 as nat;
            if cp < c {
                lemma_succ_within(start, p, q, cp);
                lemma_within_mono(start, cp + 1, c);
            } else {
                assert(frontier.contains(p));
                let j = frontier.index_of(p);
                let (dvx, dvy) = choose|dvx: int, dvy: int|
                    is_move(dvx, dvy) && #[trigger] p.next(dvx, dvy) == q && q.valid();
                assert(frontier[j].next(dvx, dvy) == q);
            }
        }
    }
    assert(t.dom() =~= within(start, c + 1));
    assert forall|q: PosVel| t.contains_key(q) && t[q].0 == c + 1 implies #[trigger] next.contains(q) by {
        if t0.contains_key(q) {
            assert(t0[q].0 <= c);
        }
    }
}

impl Router {
    fn expand_one(
        &mut self,
        s: PosVel,
        c: i32,
        tx: i32,
        ty: i32,
        next: &mut Vec<PosVel>,
        best: &mut Option<(i128, i32, PosVel)>,
        Ghost(start): Ghost<PosVel>,
        Ghost(t0): Ghost<Map<PosVel, (i32, PosVel)>>,
    )
        requires
            0 <= c < STEP_LIMIT,
            level_ok(old(self).table(), t0, start, c as nat, old(next)@),
            t0.contains_key(s),
            t0[s].0 == c,
            best_ok(old(self).table(), start, *old(best), tx as int, ty as int),
        ensures
            level_ok(final(self).table(), t0, start, c as nat, final(next)@),
            best_ok(final(self).table(), start, *final(best), tx as int, ty as int),
            forall|q: PosVel| #[trigger]
                old(self).table().contains_key(q) ==> final(self).table().contains_key(q)
                    && final(self).table()[q] == old(self).table()[q],
            forall|dvx: int, dvy: int|
                is_move(dvx, dvy) && (#[trigger] s.next(dvx, dvy)).valid() ==> final(self).table().contains_key(
                    s.next(dvx, dvy),
                ),
            final(self).searches() == old(self).searches(),
            (final(self).table(), final(next)@, *final(best)) == expand_spec(
                (old(self).table(), old(next)@, *old(best)),
                s,
                c as int,
                tx as int,
                ty as int,
                0,
            ),
    {
        let ghost t_in = self.table();
        let ghost p_in: Progress = (self.table(), next@, *best);
        let cst = c + 1;
        let mut dvx: i32 = -2;
        while dvx < 2
            invariant
                -2 <= dvx <= 2,
                0 <= c < STEP_LIMIT,
                cst == c + 1,
                t0.contains_key(s),
                t0[s].0 == c,
                level_ok(self.table(), t0, start, c as nat, next@),
                best_ok(self.table(), start, *best, tx as int, ty as int),
                forall|q: PosVel| #[trigger]
                    t_in.contains_key(q) ==> self.table().contains_key(q) && self.table()[q]
                        == t_in[q],
                forall|mx: int, my: int|
                    is_move(mx, my) && mx < dvx && (#[trigger] s.next(mx, my)).valid()
                        ==> self.table().contains_key(s.next(mx, my)),
                self.searches() == old(self).searches(),
                expand_spec((self.table(), next@, *best), s, c as int, tx as int, ty as int, (dvx + 2) * 4)
                    == expand_spec(p_in, s, c as int, tx as int, ty as int, 0),
            decreases 2 - dvx,
        {
            let mut dvy: i32 = -2;
            while dvy < 2
                invariant
                    -2 <= dvx < 2,
                    -2 <= dvy <= 2,
                    0 <= c < STEP_LIMIT,
                    cst == c + 1,
                    t0.contains_key(s),
                    t0[s].0 == c,
                    level_ok(self.table(), t0, start, c as nat, next@),
                    best_ok(self.table(), start, *best, tx as int, ty as int),
                    forall|q: PosVel| #[trigger]
                        t_in.contains_key(q) ==> self.table().contains_key(q) && self.table()[q]
                            == t_in[q],
                    forall|mx: int, my: int|
                        is_move(mx, my) && (mx < dvx || (mx == dvx && my < dvy)) && (
                        #[trigger] s.next(mx, my)).valid() ==> self.table().contains_key(
                            s.next(mx, my),
                        ),
                    self.searches() == old(self).searches(),
                    expand_spec(
                        (self.table(), next@, *best),
                        s,
                        c as int,
                        tx as int,
                        ty as int,
                        (dvx + 2) * 4 + (dvy + 2),
                    ) == expand_spec(p_in, s, c as int, tx as int, ty as int, 0),
                decreases 2 - dvy,
            {
                let ghost m = (dvx + 2) * 4 + (dvy + 2);
                assert(m / 4 - 2 == dvx && m % 4 - 2 == dvy);
                self.try_move(s, dvx, dvy, c, tx, ty, next, best, Ghost(start), Ghost(t0));
                dvy = dvy + 1;
            }
            dvx = dvx + 1;
        }
    }

    fn try_move(
        &mut self,
        s: PosVel,
        dvx: i32,
        dvy: i32,
        c: i32,
        tx: i32,
        ty: i32,
        next: &mut Vec<PosVel>,
        best: &mut Option<(i128, i32, PosVel)>,
        Ghost(start): Ghost<PosVel>,
        Ghost(t0): Ghost<Map<PosVel, (i32, PosVel)>>,
    )
        requires
            0 <= c < STEP_LIMIT,
            is_move(dvx as int, dvy as int),
            level_ok(old(self).table(), t0, start, c as nat, old(next)@),
            t0.contains_key(s),
            t0[s].0 == c,
            best_ok(old(self).table(), start, *old(best), tx as int, ty as int),
        ensures
            level_ok(final(self).table(), t0, start, c as nat, final(next)@),
            best_ok(final(self).table(), start, *final(best), tx as int, ty as int),
            forall|q: PosVel| #[trigger]
                old(self).table().contains_key(q) ==> final(self).table().contains_key(q)
                    && final(self).table()[q] == old(self).table()[q],
            s.next(dvx as int, dvy as int).valid() ==> final(self).table().contains_key(
                s.next(dvx as int, dvy as int),
            ),
            final(self).searches() == old(self).searches(),
            (final(self).table(), final(next)@, *final(best)) == try_spec(
                (old(self).table(), old(next)@, *old(best)),
                s,
                dvx as int,
                dvy as int,
                c as int,
                tx as int,
                ty as int,
            ),
    {
        proof {
            reveal(table_ok);
        }
        proof {
            reveal(level_ok);
        }
        let ghost t = self.table();
        assert(t.contains_key(s) && t[s] == t0[s]);
        assert(s.in_box());
        assert(-1 <= s.gravity().0 <= 1 && -1 <= s.gravity().1 <= 1);
        let pv = s.apply_gravity().accelerate_and_move(dvx, dvy);
        assert(pv == s.next(dvx as int, dvy as int));
        if pv.is_in_valid_area() && self.get(&pv).0 > c + 1 {
            proof {
                assert(succ(s, pv));
            }
            self.add_state(pv, s, c, tx, ty, next, best, Ghost(start), Ghost(t0));
        }
    }

    fn add_state(
        &mut self,
        pv: PosVel,
        s: PosVel,
        c: i32,
        tx: i32,
        ty: i32,
        next: &mut Vec<PosVel>,
        best: &mut Option<(i128, i32, PosVel)>,
        Ghost(start): Ghost<PosVel>,
        Ghost(t0): Ghost<Map<PosVel, (i32, PosVel)>>,
    )
        requires
            0 <= c < STEP_LIMIT,
            level_ok(old(self).table(), t0, start, c as nat, old(next)@),
            t0.contains_key(s),
            t0[s].0 == c,
            succ(s, pv),
            !old(self).table().contains_key(pv),
            best_ok(old(self).table(), start, *old(best), tx as int, ty as int),
        ensures
            level_ok(final(self).table(), t0, start, c as nat, final(next)@),
            best_ok(final(self).table(), start, *final(best), tx as int, ty as int),
            final(self).table() == old(self).table().insert(pv, ((c + 1) as i32, s)),
            final(self).searches() == old(self).searches(),
            (final(self).table(), final(next)@, *final(best)) == add_spec(
                (old(self).table(), old(next)@, *old(best)),
                pv,
                s,
                c as int,
                tx as int,
                ty as int,
            ),
    {
        proof {
            reveal(table_ok);
        }
        proof {
            reveal(level_ok);
        }
        let ghost t = self.table();
        let ghost nx = next@;
        let cst = c + 1;
        proof {
            assert(t.contains_key(s) && t[s] == t0[s]);
            lemma_succ_within(start, s, pv, c as nat);
            assert(!within(start, c as nat).contains(pv));
            assert(new_at(start, pv, cst as nat));
            lemma_table_insert(t, start, c as nat, pv, s);
        }
        self.set(&pv, (cst, s));
        next.push(pv);
        let h = dist2_wide(&pv, tx, ty);
        let ghost b0 = *best;
        let better = match best {
            None => true,
            Some((bh, bn, _)) => h < *bh || (h == *bh && cst < *bn),
        };
        if better {
            *best = Some((h, cst, pv));
        }
        proof {
            assert(next@ == nx.push(pv));
            lemma_level_insert(t, t0, start, c as nat, nx, pv, s);
            lemma_best_insert(t, start, b0, *best, pv, s, cst, tx as int, ty as int);
        }
    }
}

proof fn lemma_table_insert(t: Map<PosVel, (i32, PosVel)>, start: PosVel, c: nat, pv: PosVel, s: PosVel)
    requires
        c < STEP_LIMIT,
        table_ok(t, start, c + 1),
        t.contains_key(s),
        t[s].0 == c,
        succ(s, pv),
        new_at(start, pv, c + 1),
        !t.contains_key(pv),
    ensures
        table_ok(t.insert(pv, ((c + 1) as i32, s)), start, c + 1),
{
    reveal(table_ok);
    let t2 = t.insert(pv, ((c + 1) as i32, s));
    assert forall|q: PosVel| #[trigger] t2.contains_key(q) implies {
        &&& q.in_box()
        &&& 0 <= t2[q].0 <= c + 1
        &&& new_at(start, q, t2[q].0 as nat)
        &&& q != start ==> {
            &&& q.valid()
            &&& succ(t2[q].1, q)
            &&& t2.contains_key(t2[q].1)
            &&& t2[t2[q].1].0 == t2[q].0 - 1
        }
    } by {
        if q != pv {
            assert(t.contains_key(q));
            if q != start {
                assert(t.contains_key(t[q].1));
            }
        }
    }
}

proof fn lemma_level_insert(
    t: Map<PosVel, (i32, PosVel)>,
    t0: Map<PosVel, (i32, PosVel)>,
    start: PosVel,
    c: nat,
    nx: Seq<PosVel>,
    pv: PosVel,
    s: PosVel,
)
    requires
        c < STEP_LIMIT,
        level_ok(t, t0, start, c, nx),
        t0.contains_key(s),
        t0[s].0 == c,
        succ(s, pv),
        new_at(start, pv, c + 1),
        !t.contains_key(pv),
    ensures
        level_ok(t.insert(pv, ((c + 1) as i32, s)), t0, start, c, nx.push(pv)),
{
    reveal(table_ok);
    reveal(level_ok);
    reveal(best_ok);
    let t2 = t.insert(pv, ((c + 1) as i32, s));
    let next = nx.push(pv);
    lemma_table_insert(t, start, c, pv, s);
    assert forall|q: PosVel| #[trigger] t2.contains_key(q) implies t0.contains_key(q)
        || next.contains(q) by {
        if q != pv {
            assert(t.contains_key(q));
            if !t0.contains_key(q) {
                let k = nx.index_of(q);
                assert(next[k] == q);
            }
        } else {
            assert(next[next.len() - 1] == pv);
        }
    }
    assert forall|q: PosVel| #[trigger] next.contains(q) implies t2.contains_key(q)
        && t2[q].0 == c + 1 by {
        if q != pv {
            let k = next.index_of(q);
            assert(nx[k] == q);
            assert(nx.contains(q));
        }
    }
    assert forall|q: PosVel| #[trigger] t0.contains_key(q) implies t2.contains_key(q) && t2[q] == t0[q] by {
        assert(t.contains_key(q));
    }
}

proof fn lemma_best_insert(
    t: Map<PosVel, (i32, PosVel)>,
    start: PosVel,
    b0: Option<(i128, i32, PosVel)>,
    b1: Option<(i128, i32, PosVel)>,
    pv: PosVel,
    s: PosVel,
    cst: i32,
    tx: int,
    ty: int,
)
    requires
        best_ok(t, start, b0, tx, ty),
        pv != start,
        !t.contains_key(pv),
        forall|q: PosVel| #[trigger] t.contains_key(q) ==> t[q].0 <= cst,
        b1 == (match b0 {
            None => Some((pv.dist2(tx, ty) as i128, cst, pv)),
            Some((bh, bn, bq)) => if pv.dist2(tx, ty) < bh || (pv.dist2(tx, ty) == bh && cst < bn) {
                Some((pv.dist2(tx, ty) as i128, cst, pv))
            } else {
                b0
            },
        }),
        i128::MIN <= pv.dist2(tx, ty) <= i128::MAX,
    ensures
        best_ok(t.insert(pv, (cst, s)), start, b1, tx, ty),
{
    reveal(level_ok);
    reveal(best_ok);
    let t2 = t.insert(pv, (cst, s));
    let d = pv.dist2(tx, ty);
    assert((d as i128) as int == d);
    match b0 {
        None => {
            assert(b1 == Some((d as i128, cst, pv)));
            assert(t2.contains_key(pv) && t2[pv].0 == cst);
            assert forall|q: PosVel| #[trigger]
                t2.contains_key(q) && q != start implies lex_le(d, cst as int, q.dist2(tx, ty), t2[q].0 as int) by {
                if q != pv {
                    assert(t.contains_key(q));
                }
            }
            assert(pv.dist2(tx, ty) == (d as i128) as int);
            assert(best_ok(t2, start, b1, tx, ty));
        },
        Some((bh, bn, bq)) => {
            if d < bh || (d == bh && cst < bn) {
                assert forall|q: PosVel| #[trigger]
                    t2.contains_key(q) && q != start implies lex_le(d, cst as int, q.dist2(tx, ty), t2[q].0 as int) by {
                    if q != pv {
                        assert(t.contains_key(q));
                        assert(lex_le(bh as int, bn as int, q.dist2(tx, ty), t[q].0 as int));
                    }
                }
                assert(b1 == Some((d as i128, cst, pv)));
                assert(best_ok(t2, start, b1, tx, ty));
            } else {
                assert(t.contains_key(bq));
                assert(bq != pv);
                assert(t2[bq] == t[bq]);
                assert forall|q: PosVel| #[trigger]
                    t2.contains_key(q) && q != start implies lex_le(bh as int, bn as int, q.dist2(tx, ty), t2[q].0 as int) by {
                    if q != pv {
                        assert(t.contains_key(q));
                    }
                }
                assert(best_ok(t2, start, b1, tx, ty));
            }
        },
    }
}



/// What the search answers from `start` towards `(tx, ty)`: `r.1` turns and
/// the acceleration `r.0` that begins a shortest path to a state nearest to
/// the target among those reachable within `STEP_LIMIT` turns (other than
/// `start`), ties between equally near states going to the fewer turns.
pub open spec fn next_move_ok(start: PosVel, tx: int, ty: int, r: ((i32, i32), i32)) -> bool {
    let ((ax, ay), n) = r;
    &&& 1 <= n <= STEP_LIMIT
    &&& is_move(ax as int, ay as int)
    &&& exists|path: Seq<PosVel>|
        {
            &&& path.len() == n + 1
            &&& path[0] == start
            &&& is_path(path)
            &&& #[trigger] new_at(start, path[n as int], n as nat)
            &&& start.next(ax as int, ay as int) == path[1]
            &&& forall|q: PosVel, c: nat|
                1 <= c <= STEP_LIMIT && #[trigger] new_at(start, q, c) ==> lex_le(
                    path[n as int].dist2(tx, ty),
                    n as int,
                    q.dist2(tx, ty),
                    c as int,
                )
        }
}

proof fn lemma_best_exists(
    t: Map<PosVel, (i32, PosVel)>,
    start: PosVel,
    best: Option<(i128, i32, PosVel)>,
    tx: int,
    ty: int,
)
    requires
        table_ok(t, start, STEP_LIMIT as nat),
        t.dom() == within(start, STEP_LIMIT as nat),
        best_ok(t, start, best, tx, ty),
        can_move(start),
    ensures
        best is Some,
{
    reveal(table_ok);
    reveal(best_ok);
    let (dvx, dvy) = choose|dvx: int, dvy: int|
        is_move(dvx, dvy) && (#[trigger] start.next(dvx, dvy)).valid() && start.next(dvx, dvy)
            != start;
    let q = start.next(dvx, dvy);
    assert(succ(start, q));
    lemma_succ_within(start, start, q, 0);
    lemma_within_mono(start, 1, STEP_LIMIT as nat);
    assert(t.contains_key(q));
}

proof fn lemma_best_minimal(
    t: Map<PosVel, (i32, PosVel)>,
    start: PosVel,
    h: i128,
    n: i32,
    b: PosVel,
    tx: int,
    ty: int,
)
    requires
        table_ok(t, start, STEP_LIMIT as nat),
        t.dom() == within(start, STEP_LIMIT as nat),
        best_ok(t, start, Some((h, n, b)), tx, ty),
    ensures
        new_at(start, b, n as nat),
        1 <= n <= STEP_LIMIT,
        h == b.dist2(tx, ty),
        forall|q: PosVel, c: nat|
            1 <= c <= STEP_LIMIT && #[trigger] new_at(start, q, c) ==> lex_le(
                b.dist2(tx, ty),
                n as int,
                q.dist2(tx, ty),
                c as int,
            ),
{
    reveal(table_ok);
    reveal(best_ok);
    assert(t.contains_key(b));
    if n == 0 {
        assert(within(start, 0).contains(b));
    }
    assert forall|q: PosVel, c: nat|
        1 <= c <= STEP_LIMIT && #[trigger] new_at(start, q, c) implies lex_le(
            b.dist2(tx, ty),
            n as int,
            q.dist2(tx, ty),
            c as int,
        ) by {
        lemma_within_mono(start, c, STEP_LIMIT as nat);
        assert(t.contains_key(q));
        lemma_level_unique(start, q, c, t[q].0 as nat);
        if q == start {
            lemma_within_mono(start, 0, (c - 1) as nat);
        }
    }
}

impl Router {
    /// The breadth-first search from `pv`, whose table holds `pv` alone: the
    /// table then holds every state reachable within `STEP_LIMIT` turns, and
    /// the result is the best of them.
    fn search(&mut self, pv: PosVel, tx: i32, ty: i32) -> (best: Option<(i128, i32, PosVel)>)
        requires
            pv.in_box(),
            old(self).table() == Map::<PosVel, (i32, PosVel)>::empty().insert(
                pv,
                (0i32, PosVel::empty()),
            ),
        ensures
            table_ok(final(self).table(), pv, STEP_LIMIT as nat),
            final(self).table().dom() == within(pv, STEP_LIMIT as nat),
            best_ok(final(self).table(), pv, best, tx as int, ty as int),
            final(self).searches() == old(self).searches(),
            (final(self).table(), Seq::<PosVel>::empty(), best) == search_spec(pv, tx as int, ty as int),
    {
        proof {
            reveal(table_ok);
        }
        let ghost start = pv;
        let mut frontier: Vec<PosVel> = Vec::new();
        frontier.push(pv);
        let mut best: Option<(i128, i32, PosVel)> = None;
        let mut c: i32 = 0;
        proof {
            reveal(best_ok);
            reveal(search_spec);
            assert(self.table().dom() =~= within(start, 0));
            assert(frontier@[0] == pv);
        }
        while c < STEP_LIMIT
            invariant
                0 <= c <= STEP_LIMIT,
                start == pv,
                start.in_box(),
                table_ok(self.table(), start, c as nat),
                self.table().dom() == within(start, c as nat),
                forall|q: PosVel| #[trigger]
                    frontier@.contains(q) <==> self.table().contains_key(q) && self.table()[q].0
                        == c,
                best_ok(self.table(), start, best, tx as int, ty as int),
                self.searches() == old(self).searches(),
                levels_spec((self.table(), Seq::empty(), best), frontier@, c as int, tx as int, ty as int)
                    == search_spec(start, tx as int, ty as int),
            decreases STEP_LIMIT - c,
        {
            let ghost t0 = self.table();
            let ghost best0 = best;
            let mut next: Vec<PosVel> = Vec::new();
            proof {
                reveal(level_ok);
                reveal(table_ok);
                assert(level_ok(t0, t0, start, c as nat, next@));
            }
            let mut i: usize = 0;
            while i < frontier.len()
                invariant
                    0 <= c < STEP_LIMIT,
                    i <= frontier.len(),
                    level_ok(self.table(), t0, start, c as nat, next@),
                    best_ok(self.table(), start, best, tx as int, ty as int),
                    forall|q: PosVel| #[trigger]
                        frontier@.contains(q) <==> t0.contains_key(q) && t0[q].0 == c,
                    forall|j: int, dvx: int, dvy: int|
                        0 <= j < i && is_move(dvx, dvy) && (#[trigger] frontier@[j].next(
                            dvx,
                            dvy,
                        )).valid() ==> self.table().contains_key(frontier@[j].next(dvx, dvy)),
                    self.searches() == old(self).searches(),
                    level_spec((self.table(), next@, best), frontier@, i as int, c as int, tx as int, ty as int)
                        == level_spec((t0, Seq::empty(), best0), frontier@, 0, c as int, tx as int, ty as int),
                decreases frontier.len() - i,
            {
                let s = frontier[i];
                assert(frontier@.contains(s));
                let ghost t1 = self.table();
                self.expand_one(s, c, tx, ty, &mut next, &mut best, Ghost(start), Ghost(t0));
                proof {
                    assert forall|j: int, dvx: int, dvy: int|
                        0 <= j < i + 1 && is_move(dvx, dvy) && (#[trigger] frontier@[j].next(
                            dvx,
                            dvy,
                        )).valid() implies self.table().contains_key(
                        frontier@[j].next(dvx, dvy),
                    ) by {
                        if j < i {
                            assert(t1.contains_key(frontier@[j].next(dvx, dvy)));
                        }
                    }
                }
                i = i + 1;
            }
            proof {
                lemma_level_complete(self.table(), t0, start, c as nat, next@, frontier@);
                reveal(level_ok);
                let q: Progress = (self.table(), next@, best);
                assert(levels_spec(q, next@, c + 1, tx as int, ty as int) == levels_spec(
                    (q.0, Seq::empty(), q.2),
                    next@,
                    c + 1,
                    tx as int,
                    ty as int,
                ));
            }
            frontier = next;
            c = c + 1;
        }
        best
    }

    /// The state one turn from `start` on the path the table records to `b`.
    fn first_step(&self, b: PosVel, Ghost(start): Ghost<PosVel>, Ghost(n): Ghost<int>) -> (cur:
        PosVel)
        requires
            table_ok(self.table(), start, STEP_LIMIT as nat),
            self.table().contains_key(b),
            b != start,
            self.table()[b].0 == n,
        ensures
            exists|path: Seq<PosVel>|
                {
                    &&& path.len() == n + 1
                    &&& path[0] == start
                    &&& #[trigger] path[1] == cur
                    &&& path[n] == b
                    &&& is_path(path)
                },
            cur == back_spec(self.table(), b, n as nat),
    {
        let mut cur = b;
        let ghost mut path: Seq<PosVel> = seq![b];
        proof {
            lemma_table_entry(self.table(), start, STEP_LIMIT as nat, b);
        }
        while self.get(&cur).0 > 1
            invariant
                table_ok(self.table(), start, STEP_LIMIT as nat),
                self.table().contains_key(cur),
                cur.in_box(),
                cur != start,
                1 <= self.table()[cur].0 <= n,
                self.table()[b].0 == n,
                path.len() == n - self.table()[cur].0 + 1,
                path[0] == cur,
                path[path.len() - 1] == b,
                is_path(path),
                back_spec(self.table(), cur, self.table()[cur].0 as nat) == back_spec(self.table(), b, n as nat),
            decreases self.table()[cur].0,
        {
            let par = self.get(&cur).1;
            proof {
                let t = self.table();
                lemma_table_entry(t, start, STEP_LIMIT as nat, cur);
                lemma_table_entry(t, start, STEP_LIMIT as nat, par);
                let p2 = seq![par] + path;
                assert forall|k: int| 0 <= k < p2.len() - 1 implies #[trigger] link(p2, k) by {
                    if k > 0 {
                        assert(link(path, k - 1));
                        assert(p2[k] == path[k - 1] && p2[k + 1] == path[k]);
                    }
                }
                if par == start {
                    assert(t[par].0 == 0);
                }
                path = p2;
            }
            cur = par;
        }
        proof {
            let t = self.table();
            let par = t[cur].1;
            lemma_table_entry(t, start, STEP_LIMIT as nat, cur);
            lemma_table_entry(t, start, STEP_LIMIT as nat, par);
            assert(new_at(start, par, 0));
            assert(par == start);
            assert(succ(par, cur));
            let p2 = seq![start] + path;
            assert forall|k: int| 0 <= k < p2.len() - 1 implies #[trigger] link(p2, k) by {
                if k > 0 {
                    assert(link(path, k - 1));
                    assert(p2[k] == path[k - 1] && p2[k + 1] == path[k]);
                }
            }
            assert(p2[1] == cur);
            assert(p2[n] == b);
        }
        cur
    }

    /// The acceleration to apply now, and the number of turns, on the way to
    /// the state nearest to `(tx, ty)` that the ship at `(sx, sy)` with
    /// velocity `(vx, vy)` can reach within `STEP_LIMIT` turns. The answer
    /// is `route_spec` of the arguments: it does not depend on earlier
    /// searches.
    #[verifier::spinoff_prover]
    #[verifier::rlimit(30)]
    pub fn get_next_move(&mut self, sx: i32, sy: i32, vx: i32, vy: i32, tx: i32, ty: i32) -> (r: (
        (i32, i32),
        i32,
    ))
        requires
            sx != i32::MIN,
            sy != i32::MIN,
            vx != i32::MIN,
            vy != i32::MIN,
            old(self).searches() < u16::MAX,
            can_move(start_of(sx as int, sy as int, vx as int, vy as int)),
        ensures
            final(self).searches() == old(self).searches() + 1,
            final(self).table().dom() == within(
                start_of(sx as int, sy as int, vx as int, vy as int),
                STEP_LIMIT as nat,
            ),
            next_move_ok(
                start_of(sx as int, sy as int, vx as int, vy as int),
                tx as int,
                ty as int,
                r,
            ),
            r == route_spec(start_of(sx as int, sy as int, vx as int, vy as int), tx as int, ty as int),
    {
        let sx = clip_pos(sx);
        let sy = clip_pos(sy);
        let vx = clip_vel(vx);
        let vy = clip_vel(vy);
        self.ver = self.ver + 1;
        self.mem.clear();
        assert(self.table() =~= Map::<PosVel, (i32, PosVel)>::empty());
        let pv = PosVel::new(sx, sy, vx, vy);
        let ghost start = pv;
        self.set(&pv, (0, PosVel::new_empty()));
        let best = self.search(pv, tx, ty);
        proof {
            lemma_best_exists(self.table(), start, best, tx as int, ty as int);
        }
        let (h, n, b) = match best {
            Some(v) => v,
            None => (0, 0, pv),
        };
        proof {
            lemma_best_minimal(self.table(), start, h, n, b, tx as int, ty as int);
            reveal(best_ok);
        }
        let cur = self.first_step(b, Ghost(start), Ghost(n as int));
        proof {
            let path = choose|path: Seq<PosVel>|
                {
                    &&& path.len() == n + 1
                    &&& path[0] == start
                    &&& #[trigger] path[1] == cur
                    &&& path[n as int] == b
                    &&& is_path(path)
                };
            assert(link(path, 0));
            let (mx, my) = choose|mx: int, my: int|
                is_move(mx, my) && #[trigger] start.next(mx, my) == cur && cur.valid();
            assert(new_at(start, path[n as int], n as nat));
        }
        let g = pv.get_gravity();
        let ax = cur.vx - pv.vx - g.0;
        let ay = cur.vy - pv.vy - g.1;
        proof {
            let path = choose|path: Seq<PosVel>|
                {
                    &&& path.len() == n + 1
                    &&& path[0] == start
                    &&& #[trigger] path[1] == cur
                    &&& path[n as int] == b
                    &&& is_path(path)
                };
            assert(link(path, 0));
            let (mx, my) = choose|mx: int, my: int|
                is_move(mx, my) && #[trigger] start.next(mx, my) == cur && cur.valid();
            assert(ax == mx && ay == my);
            assert(is_move(ax as int, ay as int));
            assert(start.next(ax as int, ay as int) == path[1]);
            assert(new_at(start, path[n as int], n as nat));
            assert(next_move_ok(start, tx as int, ty as int, ((ax, ay), n)));
        }
        ((ax, ay), n)
    }
}


/// The state after `n` turns without acceleration.
pub open spec fn drift(p: PosVel, n: nat) -> PosVel
    decreases n,
{
    if n == 0 {
        p
    } else {
        drift(p, (n - 1) as nat).next(0, 0)
    }
}

impl PosVel {
    /// The position and velocity of a ship.
    pub fn from(s: &Ship) -> (r: Self)
        ensures
            r == (PosVel { x: s.pos.0, y: s.pos.1, vx: s.v.0, vy: s.v.1 }),
    {
        PosVel { x: s.pos.0, y: s.pos.1, vx: s.v.0, vy: s.v.1 }
    }
}

/// Whether a search may start from the ship at `(sx, sy)` with velocity
/// `(vx, vy)`: whether some tried acceleration moves it (see `can_move`).
pub fn movable(sx: i32, sy: i32, vx: i32, vy: i32) -> (r: bool)
    requires
        sx != i32::MIN,
        sy != i32::MIN,
        vx != i32::MIN,
        vy != i32::MIN,
    ensures
        r == can_move(start_of(sx as int, sy as int, vx as int, vy as int)),
{
    let start = PosVel::new(clip_pos(sx), clip_pos(sy), clip_vel(vx), clip_vel(vy));
    assert(start == start_of(sx as int, sy as int, vx as int, vy as int));
    let mut dvx: i32 = -2;
    while dvx < 2
        invariant
            -2 <= dvx <= 2,
            start == start_of(sx as int, sy as int, vx as int, vy as int),
            abs(start.x as int) < SIZE_OUTER && abs(start.y as int) < SIZE_OUTER,
            abs(start.vx as int) <= MAX_V && abs(start.vy as int) <= MAX_V,
            forall|a: int, b: int|
                -2 <= a < dvx && -2 <= b < 2 ==> !(#[trigger] start.next(a, b)).valid()
                    || start.next(a, b) == start,
        decreases 2 - dvx,
    {
        let mut dvy: i32 = -2;
        while dvy < 2
            invariant
                -2 <= dvx < 2,
                -2 <= dvy <= 2,
                start == start_of(sx as int, sy as int, vx as int, vy as int),
                abs(start.x as int) < SIZE_OUTER && abs(start.y as int) < SIZE_OUTER,
                abs(start.vx as int) <= MAX_V && abs(start.vy as int) <= MAX_V,
                forall|a: int, b: int|
                    (-2 <= a < dvx && -2 <= b < 2) || (a == dvx && -2 <= b < dvy) ==> !(
                    #[trigger] start.next(a, b)).valid() || start.next(a, b) == start,
            decreases 2 - dvy,
        {
            let n = start.apply_gravity().accelerate_and_move(dvx, dvy);
            assert(n == start.next(dvx as int, dvy as int));
            if n.is_in_valid_area() && !(n.x == start.x && n.y == start.y && n.vx == start.vx
                && n.vy == start.vy) {
                assert(is_move(dvx as int, dvy as int) && start.next(dvx as int, dvy as int).valid()
                    && start.next(dvx as int, dvy as int) != start);
                return true;
            }
            dvy = dvy + 1;
        }
        dvx = dvx + 1;
    }
    false
}

/// Whether one turn of `p` with the acceleration `(dvx, dvy)`, gravity
/// first, can be computed in `i32`.
pub open spec fn move_fits(p: PosVel, dvx: int, dvy: int) -> bool {
    let vx = p.vx + p.gravity().0 + dvx;
    let vy = p.vy + p.gravity().1 + dvy;
    &&& p.x != i32::MIN && p.y != i32::MIN
    &&& i32::MIN <= p.vx + p.gravity().0 <= i32::MAX && i32::MIN <= p.vy + p.gravity().1 <= i32::MAX
    &&& i32::MIN <= vx <= i32::MAX && i32::MIN <= vy <= i32::MAX
    &&& i32::MIN <= p.x + vx <= i32::MAX && i32::MIN <= p.y + vy <= i32::MAX
}

/// Whether `p` can be let drift `n` turns in `i32`.
pub open spec fn drift_fits(p: PosVel, n: nat) -> bool {
    forall|k: nat| k < n ==> move_fits(#[trigger] drift(p, k), 0, 0)
}

/// Whether `Router::doit` can cut the position of `en_ship` to the square
/// and let it drift as many turns as any answer of the first search
/// (towards that point) takes.
pub open spec fn chase_fits(my_ship: Ship, en_ship: Ship) -> bool {
    let start = start_of(
        my_ship.pos.0 as int,
        my_ship.pos.1 as int,
        my_ship.v.0 as int,
        my_ship.v.1 as int,
    );
    let en = PosVel { x: en_ship.pos.0, y: en_ship.pos.1, vx: en_ship.v.0, vy: en_ship.v.1 };
    &&& en_ship.pos.0 != i32::MIN && en_ship.pos.1 != i32::MIN
    &&& forall|a1: (i32, i32), n1: i32|
        #[trigger] next_move_ok(
            start,
            clip(en.x as int, SIZE_OUTER - 1),
            clip(en.y as int, SIZE_OUTER - 1),
            (a1, n1),
        ) ==> drift_fits(en, n1 as nat)
}

/// Whether one turn of `p` with the acceleration `(dvx, dvy)` can be
/// computed in `i32` (see `move_fits`).
pub fn fits_move(p: &PosVel, dvx: i32, dvy: i32) -> (r: bool)
    ensures
        r == move_fits(*p, dvx as int, dvy as int),
{
    if p.x == i32::MIN || p.y == i32::MIN {
        return false;
    }
    let (gx, gy) = p.get_gravity();
    let lo: i64 = -0x8000_0000;
    let hi: i64 = 0x7fff_ffff;
    let gvx = p.vx as i64 + gx as i64;
    let gvy = p.vy as i64 + gy as i64;
    let vx = gvx + dvx as i64;
    let vy = gvy + dvy as i64;
    let x = p.x as i64 + vx;
    let y = p.y as i64 + vy;
    lo <= gvx && gvx <= hi && lo <= gvy && gvy <= hi && lo <= vx && vx <= hi && lo <= vy && vy <= hi
        && lo <= x && x <= hi && lo <= y && y <= hi
}

/// Whether the ship `en_ship` can be cut to the square and let drift for
/// as many turns as any search takes (`STEP_LIMIT`); then every chase of it
/// can be computed (see `lemma_drift_chase`).
pub fn drifts_within(en_ship: &Ship) -> (r: bool)
    ensures
        r == (en_ship.pos.0 != i32::MIN && en_ship.pos.1 != i32::MIN && drift_fits(
            PosVel { x: en_ship.pos.0, y: en_ship.pos.1, vx: en_ship.v.0, vy: en_ship.v.1 },
            STEP_LIMIT as nat,
        )),
{
    let ghost en = PosVel { x: en_ship.pos.0, y: en_ship.pos.1, vx: en_ship.v.0, vy: en_ship.v.1 };
    if en_ship.pos.0 == i32::MIN || en_ship.pos.1 == i32::MIN {
        return false;
    }
    let mut p = PosVel::from(en_ship);
    let mut k: i32 = 0;
    while k < STEP_LIMIT
        invariant
            0 <= k <= STEP_LIMIT,
            en == (PosVel { x: en_ship.pos.0, y: en_ship.pos.1, vx: en_ship.v.0, vy: en_ship.v.1 }),
            en_ship.pos.0 != i32::MIN && en_ship.pos.1 != i32::MIN,
            p == drift(en, k as nat),
            drift_fits(en, k as nat),
        decreases STEP_LIMIT - k,
    {
        if !fits_move(&p, 0, 0) {
            assert(!move_fits(drift(en, k as nat), 0, 0));
            assert((k as nat) < STEP_LIMIT as nat);
            assert(!drift_fits(en, STEP_LIMIT as nat));
            return false;
        }
        p = p.apply_gravity().accelerate_and_move(0, 0);
        proof {
            assert forall|j: nat| j < (k + 1) as nat implies move_fits(#[trigger] drift(en, j), 0, 0) by {
                if j < k as nat {
                    assert(move_fits(drift(en, j), 0, 0));
                }
            }
        }
        k = k + 1;
    }
    true
}

/// A ship that can drift for `STEP_LIMIT` turns can be chased from any
/// ship.
pub proof fn lemma_drift_chase(my_ship: Ship, en_ship: Ship)
    requires
        en_ship.pos.0 != i32::MIN,
        en_ship.pos.1 != i32::MIN,
        drift_fits(
            PosVel { x: en_ship.pos.0, y: en_ship.pos.1, vx: en_ship.v.0, vy: en_ship.v.1 },
            STEP_LIMIT as nat,
        ),
    ensures
        chase_fits(my_ship, en_ship),
{
    let en = PosVel { x: en_ship.pos.0, y: en_ship.pos.1, vx: en_ship.v.0, vy: en_ship.v.1 };
    let start = start_of(my_ship.pos.0 as int, my_ship.pos.1 as int, my_ship.v.0 as int, my_ship.v.1 as int);
    assert forall|a1: (i32, i32), n1: i32|
        #[trigger] next_move_ok(
            start,
            clip(en.x as int, SIZE_OUTER - 1),
            clip(en.y as int, SIZE_OUTER - 1),
            (a1, n1),
        ) implies drift_fits(en, n1 as nat) by {
        assert forall|k: nat| k < n1 as nat implies move_fits(#[trigger] drift(en, k), 0, 0) by {
            assert(k < STEP_LIMIT as nat);
        }
    }
}

/// What `Router::doit` answers for `my_ship` chasing `en_ship`: some
/// search towards the enemy's present position (cut to the square) takes
/// `n1` turns, and `r` is the answer of a search towards where the enemy
/// drifts in `n1` turns.
pub open spec fn chase_ok(my_ship: Ship, en_ship: Ship, r: (i32, i32)) -> bool {
    let start = start_of(
        my_ship.pos.0 as int,
        my_ship.pos.1 as int,
        my_ship.v.0 as int,
        my_ship.v.1 as int,
    );
    let en = PosVel { x: en_ship.pos.0, y: en_ship.pos.1, vx: en_ship.v.0, vy: en_ship.v.1 };
    exists|a1: (i32, i32), n1: i32, n2: i32|
        #![trigger next_move_ok(start, clip(en.x as int, SIZE_OUTER - 1), clip(en.y as int, SIZE_OUTER - 1), (a1, n1)), next_move_ok(start, drift(en, n1 as nat).x as int, drift(en, n1 as nat).y as int, (r, n2))]
        {
            &&& next_move_ok(
                start,
                clip(en.x as int, SIZE_OUTER - 1),
                clip(en.y as int, SIZE_OUTER - 1),
                (a1, n1),
            )
            &&& next_move_ok(
                start,
                drift(en, n1 as nat).x as int,
                drift(en, n1 as nat).y as int,
                (r, n2),
            )
        }
}

/// The chase answer itself: the search towards the enemy's position (cut
/// to the search's bounds) gives the turns `n`; the enemy drifts `n`
/// turns; the acceleration is the search's answer towards where it then is.
pub open spec fn chase_spec(my_ship: Ship, en_ship: Ship) -> (i32, i32) {
    let start = start_of(
        my_ship.pos.0 as int,
        my_ship.pos.1 as int,
        my_ship.v.0 as int,
        my_ship.v.1 as int,
    );
    let en = PosVel { x: en_ship.pos.0, y: en_ship.pos.1, vx: en_ship.v.0, vy: en_ship.v.1 };
    let n1 = route_spec(start, clip(en.x as int, SIZE_OUTER - 1), clip(en.y as int, SIZE_OUTER - 1)).1;
    let en2 = drift(en, n1 as nat);
    route_spec(start, en2.x as int, en2.y as int).0
}

/// Whether `Router::doit` may be asked to chase from `my_ship`, with a
/// router that has made `searches` searches: the ship's coordinates are
/// not `i32::MIN`, some acceleration moves it (its velocity cut to the
/// bounds of the search),
/// and the search counter has room for two more searches.
pub open spec fn chase_ready(searches: u16, my_ship: Ship) -> bool {
    &&& my_ship.pos.0 != i32::MIN
    &&& my_ship.pos.1 != i32::MIN
    &&& my_ship.v.0 != i32::MIN
    &&& my_ship.v.1 != i32::MIN
    &&& searches < u16::MAX - 1
    &&& can_move(
        start_of(my_ship.pos.0 as int, my_ship.pos.1 as int, my_ship.v.0 as int, my_ship.v.1 as int),
    )
}

/// A chase answer is an acceleration the search tries.
pub proof fn lemma_chase_is_move(my_ship: Ship, en_ship: Ship, r: (i32, i32))
    requires
        chase_ok(my_ship, en_ship, r),
    ensures
        is_move(r.0 as int, r.1 as int),
{
}

impl Router {
    /// The acceleration that takes `my_ship` towards where `en_ship` will
    /// be: the first search gives the turns to the enemy's present position,
    /// the enemy is let drift that many turns, and the second search aims at
    /// where it then is.
    pub fn doit(&mut self, my_ship: &Ship, en_ship: &Ship) -> (r: (i32, i32))
        requires
            chase_ready(old(self).searches(), *my_ship),
            chase_fits(*my_ship, *en_ship),
        ensures
            final(self).searches() == old(self).searches() + 2,
            chase_ok(*my_ship, *en_ship, r),
            r == chase_spec(*my_ship, *en_ship),
    {
        let tx = clip_pos(en_ship.pos.0);
        let ty = clip_pos(en_ship.pos.1);
        let (a1, n_steps) = self.get_next_move(
            my_ship.pos.0,
            my_ship.pos.1,
            my_ship.v.0,
            my_ship.v.1,
            tx,
            ty,
        );
        let ghost en = PosVel { x: en_ship.pos.0, y: en_ship.pos.1, vx: en_ship.v.0, vy: en_ship.v.1 };
        assert(next_move_ok(
            start_of(my_ship.pos.0 as int, my_ship.pos.1 as int, my_ship.v.0 as int, my_ship.v.1 as int),
            clip(en.x as int, SIZE_OUTER - 1),
            clip(en.y as int, SIZE_OUTER - 1),
            (a1, n_steps),
        ));
        let mut tpv = PosVel::from(en_ship);
        let mut k: i32 = 0;
        while k < n_steps
            invariant
                0 <= k <= n_steps <= STEP_LIMIT,
                tpv == drift(en, k as nat),
                drift_fits(en, n_steps as nat),
            decreases n_steps - k,
        {
            assert(move_fits(drift(en, k as nat), 0, 0));
            tpv = tpv.apply_gravity().accelerate_and_move(0, 0);
            k = k + 1;
        }
        let (r, n2) = self.get_next_move(
            my_ship.pos.0,
            my_ship.pos.1,
            my_ship.v.0,
            my_ship.v.1,
            tpv.x,
            tpv.y,
        );
        r
    }
}
} // verus!
