//! The defender's strategy: how long a ship falls freely before it is lost
//! (out of the field, into the planet, or too fast), and the choice of the
//! acceleration that keeps it alive longest.
use vstd::prelude::*;
use std::collections::VecDeque;
use crate::routing::{abs, sign, gravity_at};

verus! {

broadcast use vstd::std_specs::vecdeque::group_vec_dequeue_axioms;

/// Updating a value to the least or the greatest of it and another; the
/// result tells whether it changed.
pub trait SetMinMax: Sized {
    fn setmin(&mut self, v: Self) -> bool;

    fn setmax(&mut self, v: Self) -> bool;
}

impl SetMinMax for i32 {
    fn setmin(&mut self, v: i32) -> (r: bool)
        ensures
            r == (*old(self) > v),
            *final(self) == if *old(self) > v {
                v
            } else {
                *old(self)
            },
    {
        if *self > v {
            *self = v;
            true
        } else {
            false
        }
    }

    fn setmax(&mut self, v: i32) -> (r: bool)
        ensures
            r == (*old(self) < v),
            *final(self) == if *old(self) < v {
                v
            } else {
                *old(self)
            },
    {
        if *self < v {
            *self = v;
            true
        } else {
            false
        }
    }
}

/// The lexicographic order on pairs.
pub open spec fn pair_lt(a: (i32, usize), b: (i32, usize)) -> bool {
    a.0 < b.0 || (a.0 == b.0 && a.1 < b.1)
}

impl SetMinMax for (i32, usize) {
    fn setmin(&mut self, v: (i32, usize)) -> (r: bool)
        ensures
            r == pair_lt(v, *old(self)),
            *final(self) == if pair_lt(v, *old(self)) {
                v
            } else {
                *old(self)
            },
    {
        if v.0 < self.0 || (v.0 == self.0 && v.1 < self.1) {
            *self = v;
            true
        } else {
            false
        }
    }

    fn setmax(&mut self, v: (i32, usize)) -> (r: bool)
        ensures
            r == pair_lt(*old(self), v),
            *final(self) == if pair_lt(*old(self), v) {
                v
            } else {
                *old(self)
            },
    {
        if self.0 < v.0 || (self.0 == v.0 && self.1 < v.1) {
            *self = v;
            true
        } else {
            false
        }
    }
}

/// The value of a state that is never lost.
pub const INF: i32 = 1000000000;

/// The half side of the square the strategy plans in.
pub const W: i32 = 100;

/// Whether `(x, y)` is lost ground: outside the square or on the planet.
pub open spec fn lost_at(x: int, y: int) -> bool {
    x < -W || x > W || y < -W || y > W || (-16 <= x <= 16 && -16 <= y <= 16)
}

/// Whether the velocity is beyond what the strategy plans for.
pub open spec fn too_fast(dx: int, dy: int) -> bool {
    dx < -10 || dx > 10 || dy < -10 || dy > 10
}

pub fn check_range(x: i32, y: i32) -> (r: bool)
    ensures
        r == lost_at(x as int, y as int),
{
    x < -W || x > W || y < -W || y > W || -16 <= x && x <= 16 && -16 <= y && y <= 16
}

pub fn check_v(dx: i32, dy: i32) -> (r: bool)
    ensures
        r == too_fast(dx as int, dy as int),
{
    dx < -10 || dx > 10 || dy < -10 || dy > 10
}

/// The side of the planning square, in cells.
pub open spec fn side() -> int {
    2 * W + 1
}

/// Whether `g` is a gravity table: `side()` rows of `side()` cells, each
/// in `-1..=1`.
pub open spec fn table_ok(g: Seq<Vec<i32>>) -> bool {
    &&& g.len() == side()
    &&& forall|i: int| 0 <= i < side() ==> (#[trigger] g[i])@.len() == side()
    &&& forall|i: int, j: int| 0 <= i < side() && 0 <= j < side() ==> -1 <= #[trigger] g[i]@[j] <= 1
}

/// The time of the first loss, from turn `t` on, of a ship at `(x, y)`
/// with velocity `(dx, dy)` at turn `t`, falling with the gravity of the
/// tables `gx`, `gy`; 256 when none comes before turn 256.
pub open spec fn naive_from(
    x: int,
    y: int,
    dx: int,
    dy: int,
    gx: Seq<Vec<i32>>,
    gy: Seq<Vec<i32>>,
    t: int,
) -> int
    decreases 256 - t,
{
    if t >= 256 || t < 1 {
        256
    } else {
        let ndx = dx + gx[x + W]@[y + W];
        let ndy = dy + gy[x + W]@[y + W];
        let nx = x + ndx;
        let ny = y + ndy;
        if lost_at(nx, ny) || too_fast(ndx, ndy) {
            t
        } else {
            naive_from(nx, ny, ndx, ndy, gx, gy, t + 1)
        }
    }
}

/// Whether the first turn of the fall from `(x, y)` with velocity
/// `(dx, dy)` can be computed in `i32`: the velocity after the pull and the
/// position after moving.
pub open spec fn first_step_fits(x: int, y: int, dx: int, dy: int, gx: Seq<Vec<i32>>, gy: Seq<Vec<i32>>) -> bool {
    let ndx = dx + gx[x + W]@[y + W];
    let ndy = dy + gy[x + W]@[y + W];
    &&& i32::MIN <= ndx <= i32::MAX && i32::MIN <= x + ndx <= i32::MAX
    &&& i32::MIN <= ndy <= i32::MAX && i32::MIN <= y + ndy <= i32::MAX
}

/// The turn at which a ship falling freely from `(x, y)` with velocity
/// `(dx, dy)` is first lost, simulated turn by turn; 256 when it is not
/// lost before.
pub fn test_naive(x: i32, y: i32, dx: i32, dy: i32, gx: &Vec<Vec<i32>>, gy: &Vec<Vec<i32>>) -> (r: i32)
    requires
        table_ok(gx@),
        table_ok(gy@),
        -W <= x <= W,
        -W <= y <= W,
        first_step_fits(x as int, y as int, dx as int, dy as int, gx@, gy@),
    ensures
        r == naive_from(x as int, y as int, dx as int, dy as int, gx@, gy@, 1),
{
    let ghost (x0, y0, dx0, dy0) = (x, y, dx, dy);
    let mut cx = x;
    let mut cy = y;
    let mut vx = dx;
    let mut vy = dy;
    let mut t: i32 = 1;
    while t < 256
        invariant
            1 <= t <= 256,
            table_ok(gx@),
            table_ok(gy@),
            -W <= cx <= W,
            -W <= cy <= W,
            t == 1 ==> first_step_fits(cx as int, cy as int, vx as int, vy as int, gx@, gy@),
            t > 1 ==> -10 <= vx <= 10 && -10 <= vy <= 10,
            x0 == x && y0 == y && dx0 == dx && dy0 == dy,
            naive_from(cx as int, cy as int, vx as int, vy as int, gx@, gy@, t as int) == naive_from(
                x0 as int, y0 as int, dx0 as int, dy0 as int, gx@, gy@, 1),
        decreases 256 - t,
    {
        let i = (cx + W) as usize;
        let j = (cy + W) as usize;
        assert(-1 <= gx@[i as int]@[j as int] <= 1 && -1 <= gy@[i as int]@[j as int] <= 1);
        let ghost (xb, yb, dxb, dyb) = (cx, cy, vx, vy);
        vx = vx + gx[i][j];
        vy = vy + gy[i][j];
        cx = cx + vx;
        cy = cy + vy;
        assert(naive_from(xb as int, yb as int, dxb as int, dyb as int, gx@, gy@, t as int) == if lost_at(
            cx as int,
            cy as int,
        ) || too_fast(vx as int, vy as int) {
            t as int
        } else {
            naive_from(cx as int, cy as int, vx as int, vy as int, gx@, gy@, t + 1)
        });
        if check_range(cx, cy) || check_v(vx, vy) {
            assert(t as int == naive_from(x0 as int, y0 as int, dx0 as int, dy0 as int, gx@, gy@, 1));
            return t;
        }
        t = t + 1;
    }
    256
}


/// A state of a ship: position and velocity.
pub type St = (int, int, int, int);

/// The state one turn later when the ship does not accelerate.
pub open spec fn step(s: St) -> St {
    let g = gravity_at(s.0, s.1);
    let ndx = s.2 + g.0;
    let ndy = s.3 + g.1;
    (s.0 + ndx, s.1 + ndy, ndx, ndy)
}

/// The state `t` turns later, falling freely.
pub open spec fn fall(s: St, t: nat) -> St
    decreases t,
{
    if t == 0 {
        s
    } else {
        step(fall(s, (t - 1) as nat))
    }
}

/// Whether the state is lost: on lost ground or too fast.
pub open spec fn gone(s: St) -> bool {
    lost_at(s.0, s.1) || too_fast(s.2, s.3)
}

/// Whether a ship falling freely from `s` is first lost after `c` turns.
pub open spec fn lost_after(s: St, c: nat) -> bool {
    &&& c >= 1
    &&& gone(fall(s, c))
    &&& forall|t: nat| 1 <= t < c ==> !gone(#[trigger] fall(s, t))
}

/// The turns a ship at `s` survives falling freely: 0 on lost ground, the
/// turn of its first loss, or `INF` when it is never lost (or lost only
/// after `INF` turns).
pub open spec fn survival(s: St) -> int {
    if lost_at(s.0, s.1) {
        0
    } else if exists|c: nat| lost_after(s, c) && c < INF {
        (choose|c: nat| lost_after(s, c) && c < INF) as int
    } else {
        INF as int
    }
}

/// Whether the state is one of the planning table: position within `W`,
/// velocity within 10.
pub open spec fn in_space(s: St) -> bool {
    -W <= s.0 <= W && -W <= s.1 <= W && -10 <= s.2 <= 10 && -10 <= s.3 <= 10
}

/// The number of states of the planning table.
pub const N_STATES: usize = 17816841;

/// The place of a state in the planning table.
pub open spec fn key(s: St) -> int {
    (((s.0 + W) * 201 + (s.1 + W)) * 21 + (s.2 + 10)) * 21 + (s.3 + 10)
}

/// The state whose step is `s`, if any.
pub open spec fn pred(s: St) -> St {
    let px = s.0 - s.2;
    let py = s.1 - s.3;
    let g = gravity_at(px, py);
    (px, py, s.2 - g.0, s.3 - g.1)
}

proof fn lemma_fall_shift(s: St, t: nat)
    ensures
        fall(s, t + 1) == fall(step(s), t),
    decreases t,
{
    if t > 0 {
        lemma_fall_shift(s, (t - 1) as nat);
        assert(fall(s, t + 1) == step(fall(s, t)));
        assert(fall(step(s), t) == step(fall(step(s), (t - 1) as nat)));
    } else {
        assert(fall(s, 1) == step(fall(s, 0)));
    }
}

proof fn lemma_lost_after_unique(s: St, c1: nat, c2: nat)
    requires
        lost_after(s, c1),
        lost_after(s, c2),
    ensures
        c1 == c2,
{
    if c1 < c2 {
        assert(!gone(fall(s, c1)));
    } else if c2 < c1 {
        assert(!gone(fall(s, c2)));
    }
}

/// A state survives one turn longer than the state it falls into, unless
/// that one is lost.
proof fn lemma_lost_after_step(s: St, c: nat)
    requires
        !gone(step(s)),
        lost_after(step(s), c),
    ensures
        lost_after(s, c + 1),
{
    lemma_fall_shift(s, c);
    assert forall|t: nat| 1 <= t < c + 1 implies !gone(#[trigger] fall(s, t)) by {
        if t == 1 {
            assert(fall(s, 1) == step(fall(s, 0)));
        } else {
            lemma_fall_shift(s, (t - 1) as nat);
            assert(fall(s, t) == fall(step(s), (t - 1) as nat));
        }
    }
}

proof fn lemma_lost_after_next(s: St, c: nat)
    requires
        lost_after(s, c),
        c > 1,
    ensures
        !gone(step(s)),
        lost_after(step(s), (c - 1) as nat),
{
    assert(fall(s, 1) == step(fall(s, 0)));
    assert(!gone(fall(s, 1)));
    lemma_fall_shift(s, (c - 1) as nat);
    assert forall|t: nat| 1 <= t < c - 1 implies !gone(#[trigger] fall(step(s), t)) by {
        lemma_fall_shift(s, t);
        assert(!gone(fall(s, t + 1)));
    }
}

proof fn lemma_pred_step(s: St)
    ensures
        pred(step(s)) == s,
{
}

proof fn lemma_key_injective(a: St, b: St)
    requires
        in_space(a),
        in_space(b),
        key(a) == key(b),
    ensures
        a == b,
{
    assert(a == b) by (nonlinear_arith)
        requires
            -W <= a.0 <= W && -W <= a.1 <= W && -10 <= a.2 <= 10 && -10 <= a.3 <= 10,
            -W <= b.0 <= W && -W <= b.1 <= W && -10 <= b.2 <= 10 && -10 <= b.3 <= 10,
            (((a.0 + W) * 201 + (a.1 + W)) * 21 + (a.2 + 10)) * 21 + (a.3 + 10) == (((b.0 + W) * 201
                + (b.1 + W)) * 21 + (b.2 + 10)) * 21 + (b.3 + 10),
    ;
}

/// The gravity tables of the planning square: the pull at
/// `(i - W, j - W)`.
pub open spec fn gravity_tables_ok(gx: Seq<Vec<i32>>, gy: Seq<Vec<i32>>) -> bool {
    &&& table_ok(gx)
    &&& table_ok(gy)
    &&& forall|i: int, j: int|
        0 <= i < side() && 0 <= j < side() ==> #[trigger] gx[i]@[j] == gravity_at(i - W, j - W).0
    &&& forall|i: int, j: int|
        0 <= i < side() && 0 <= j < side() ==> #[trigger] gy[i]@[j] == gravity_at(i - W, j - W).1
}

fn gravity_tables() -> (r: (Vec<Vec<i32>>, Vec<Vec<i32>>))
    ensures
        gravity_tables_ok(r.0@, r.1@),
{
    let n: usize = 201;
    let mut gx: Vec<Vec<i32>> = Vec::new();
    let mut gy: Vec<Vec<i32>> = Vec::new();
    let mut i: usize = 0;
    while i < n
        invariant
            n == 201,
            i <= n,
            gx@.len() == i,
            gy@.len() == i,
            forall|a: int| 0 <= a < i ==> (#[trigger] gx@[a])@.len() == side(),
            forall|a: int| 0 <= a < i ==> (#[trigger] gy@[a])@.len() == side(),
            forall|a: int, b: int|
                0 <= a < i && 0 <= b < side() ==> #[trigger] gx@[a]@[b] == gravity_at(a - W, b - W).0,
            forall|a: int, b: int|
                0 <= a < i && 0 <= b < side() ==> #[trigger] gy@[a]@[b] == gravity_at(a - W, b - W).1,
        decreases n - i,
    {
        let x = i as i32 - W;
        let mut rx: Vec<i32> = Vec::new();
        let mut ry: Vec<i32> = Vec::new();
        let mut j: usize = 0;
        while j < n
            invariant
                n == 201,
                i < n,
                x == i - W,
                j <= n,
                rx@.len() == j,
                ry@.len() == j,
                forall|b: int| 0 <= b < j ==> #[trigger] rx@[b] == gravity_at(x as int, b - W).0,
                forall|b: int| 0 <= b < j ==> #[trigger] ry@[b] == gravity_at(x as int, b - W).1,
            decreases n - j,
        {
            let y = j as i32 - W;
            let ax = if x < 0 { -x } else { x };
            let ay = if y < 0 { -y } else { y };
            let mut vx: i32 = 0;
            let mut vy: i32 = 0;
            if ax > ay {
                if x < 0 {
                    vx = 1;
                } else {
                    vx = -1;
                }
            } else if ax < ay {
                if y < 0 {
                    vy = 1;
                } else {
                    vy = -1;
                }
            } else {
                if x < 0 {
                    vx = 1;
                } else if x > 0 {
                    vx = -1;
                }
                if y < 0 {
                    vy = 1;
                } else if y > 0 {
                    vy = -1;
                }
            }
            rx.push(vx);
            ry.push(vy);
            j = j + 1;
        }
        gx.push(rx);
        gy.push(ry);
        i = i + 1;
    }
    proof {
        assert forall|a: int, b: int| 0 <= a < side() && 0 <= b < side() implies -1 <= #[trigger] gx@[a]@[b] <= 1 by {
            assert(gx@[a]@[b] == gravity_at(a - W, b - W).0);
        }
        assert forall|a: int, b: int| 0 <= a < side() && 0 <= b < side() implies -1 <= #[trigger] gy@[a]@[b] <= 1 by {
            assert(gy@[a]@[b] == gravity_at(a - W, b - W).1);
        }
    }
    (gx, gy)
}

/// The tables the strategy plans with: the gravity, and the turns each
/// state survives falling freely.
pub struct Preprocess {
    pub gx: Vec<Vec<i32>>,
    pub gy: Vec<Vec<i32>>,
    pub dp: Vec<i32>,
}

impl Preprocess {
    /// The tables hold the gravity and `survival` of every state.
    pub open spec fn wf(self) -> bool {
        &&& gravity_tables_ok(self.gx@, self.gy@)
        &&& self.dp@.len() == N_STATES
        &&& forall|s: St| in_space(s) ==> #[trigger] self.dp@[key(s)] == survival(s)
    }
}

/// The state of an entry of the search queue.
pub open spec fn entry_state(e: (usize, usize, usize, usize, i32)) -> St {
    (e.0 - W, e.1 - W, e.2 - 10, e.3 - 10)
}

/// The places of the table that hold a value.
pub open spec fn assigned(dp: Seq<i32>) -> Set<int> {
    Set::new(|k: int| 0 <= k < N_STATES && dp[k] != INF)
}

/// Every value the table holds is right: 0 on lost ground, else the turn
/// of the first loss; every value is at most `bound`.
pub open spec fn sound(dp: Seq<i32>, bound: int) -> bool {
    &&& forall|s: St|
        in_space(s) && #[trigger] dp[key(s)] != INF ==> if lost_at(s.0, s.1) {
            dp[key(s)] == 0
        } else {
            dp[key(s)] >= 1 && lost_after(s, dp[key(s)] as nat)
        }
    &&& forall|s: St| in_space(s) && lost_at(s.0, s.1) ==> #[trigger] dp[key(s)] == 0
    &&& forall|k: int| 0 <= k < N_STATES && #[trigger] dp[k] != INF ==> 0 <= dp[k] <= bound
}

/// Whether `s` waits in the queue.
pub open spec fn queued(q: Seq<(usize, usize, usize, usize, i32)>, s: St) -> bool {
    exists|k: int| 0 <= k < q.len() && entry_state(#[trigger] q[k]) == s
}

/// Every state with a value that no longer waits in the queue has passed it
/// on to the state that falls into it.
pub open spec fn closed(dp: Seq<i32>, q: Seq<(usize, usize, usize, usize, i32)>) -> bool {
    forall|s: St|
        in_space(s) && !lost_at(s.0, s.1) && #[trigger] dp[key(s)] != INF && !queued(q, s) ==> (
        in_space(pred(s)) && !lost_at(pred(s).0, pred(s).1) ==> dp[key(pred(s))] != INF)
}

/// The queue holds distinct states of the table, not on lost ground, each
/// with its value.
pub open spec fn queue_ok(dp: Seq<i32>, q: Seq<(usize, usize, usize, usize, i32)>) -> bool {
    &&& forall|k: int|
        0 <= k < q.len() ==> {
            let e = #[trigger] q[k];
            &&& e.0 < 201 && e.1 < 201 && e.2 < 21 && e.3 < 21
            &&& !lost_at(entry_state(e).0, entry_state(e).1)
            &&& dp[key(entry_state(e))] == e.4
            &&& 1 <= e.4 < INF
        }
    &&& forall|k1: int, k2: int|
        #![trigger q[k1], q[k2]]
        0 <= k1 < k2 < q.len() ==> entry_state(q[k1]) != entry_state(q[k2])
}

proof fn lemma_assigned_len(dp: Seq<i32>)
    ensures
        assigned(dp).finite(),
        assigned(dp).len() <= N_STATES,
{
    vstd::set_lib::lemma_int_range(0, N_STATES as int);
    assert(assigned(dp).subset_of(vstd::set_lib::set_int_range(0, N_STATES as int)));
    vstd::set_lib::lemma_len_subset(assigned(dp), vstd::set_lib::set_int_range(0, N_STATES as int));
}

fn key_of(x: i32, y: i32, dx: i32, dy: i32) -> (r: usize)
    requires
        in_space((x as int, y as int, dx as int, dy as int)),
    ensures
        r == key((x as int, y as int, dx as int, dy as int)),
        r < N_STATES,
{
    ((((x + W) as usize) * 201 + (y + W) as usize) * 21 + (dx + 10) as usize) * 21 + (dy + 10) as usize
}

/// The value a state first gets: 0 on lost ground, 1 when it is lost after
/// one turn, `INF` otherwise.
pub open spec fn init_value(s: St) -> int {
    if lost_at(s.0, s.1) {
        0
    } else if gone(step(s)) {
        1
    } else {
        INF as int
    }
}

/// The search's state is consistent: table and queue.
#[verifier::opaque]
pub open spec fn search_ok(
    dp: Seq<i32>,
    q: Seq<(usize, usize, usize, usize, i32)>,
    gx: Seq<Vec<i32>>,
    gy: Seq<Vec<i32>>,
) -> bool {
    &&& gravity_tables_ok(gx, gy)
    &&& dp.len() == N_STATES
    &&& sound(dp, assigned(dp).len() as int)
    &&& closed(dp, q)
    &&& queue_ok(dp, q)
    &&& forall|s: St| in_space(s) && !lost_at(s.0, s.1) && gone(step(s)) ==> #[trigger] dp[key(s)] != INF
}

proof fn lemma_state_of_entry(e: (usize, usize, usize, usize, i32))
    requires
        e.0 < 201 && e.1 < 201 && e.2 < 21 && e.3 < 21,
    ensures
        in_space(entry_state(e)),
        0 <= key(entry_state(e)) < N_STATES,
{
}

pub(crate) proof fn lemma_key_range(s: St)
    requires
        in_space(s),
    ensures
        0 <= key(s) < N_STATES,
{
}

proof fn lemma_search_front(
    dp: Seq<i32>,
    q: Seq<(usize, usize, usize, usize, i32)>,
    gx: Seq<Vec<i32>>,
    gy: Seq<Vec<i32>>,
)
    requires
        search_ok(dp, q, gx, gy),
        q.len() > 0,
    ensures
        gravity_tables_ok(gx, gy),
        dp.len() == N_STATES,
        q[0].0 < 201 && q[0].1 < 201 && q[0].2 < 21 && q[0].3 < 21,
        in_space(entry_state(q[0])),
        !lost_at(entry_state(q[0]).0, entry_state(q[0]).1),
        dp[key(entry_state(q[0]))] == q[0].4,
        1 <= q[0].4 < INF,
        q[0].4 <= assigned(dp).len(),
        lost_after(entry_state(q[0]), q[0].4 as nat),
        assigned(dp).finite(),
        assigned(dp).len() <= N_STATES,
{
    reveal(search_ok);
    lemma_state_of_entry(q[0]);
    lemma_assigned_len(dp);
    let e = q[0];
    assert(dp[key(entry_state(e))] != INF);
}

proof fn lemma_search_sound(
    dp: Seq<i32>,
    q: Seq<(usize, usize, usize, usize, i32)>,
    gx: Seq<Vec<i32>>,
    gy: Seq<Vec<i32>>,
    p: St,
)
    requires
        search_ok(dp, q, gx, gy),
        in_space(p),
        !lost_at(p.0, p.1),
    ensures
        dp[key(p)] != INF ==> dp[key(p)] >= 1 && lost_after(p, dp[key(p)] as nat),
{
    reveal(search_ok);
}

#[verifier::spinoff_prover]
#[verifier::rlimit(40)]
fn bfs_step(
    dp: &mut Vec<i32>,
    queue: &mut VecDeque<(usize, usize, usize, usize, i32)>,
    gx: &Vec<Vec<i32>>,
    gy: &Vec<Vec<i32>>,
)
    requires
        search_ok(old(dp)@, old(queue)@, gx@, gy@),
        old(queue)@.len() > 0,
    ensures
        search_ok(final(dp)@, final(queue)@, gx@, gy@),
        2 * (N_STATES - assigned(final(dp)@).len()) + final(queue)@.len() < 2 * (N_STATES - assigned(
            old(dp)@,
        ).len()) + old(queue)@.len(),
{
    let ghost dp0 = dp@;
    let ghost q0 = queue@;
    proof {
        lemma_search_front(dp0, q0, gx@, gy@);
    }
    let e = queue.pop_front().unwrap();
    let ghost q1 = queue@;
    let ghost s = entry_state(e);
    assert(q0[0] == e);
    let (i, j, di, dj, c) = e;
    let x = i as i32 - W;
    let y = j as i32 - W;
    let dx = di as i32 - 10;
    let dy = dj as i32 - 10;
    let px = x - dx;
    let py = y - dy;
    let ghost p = pred(s);
    if !check_range(px, py) {
        let pi = (px + W) as usize;
        let pj = (py + W) as usize;
        assert(gx@[pi as int]@[pj as int] == gravity_at(px as int, py as int).0);
        assert(gy@[pi as int]@[pj as int] == gravity_at(px as int, py as int).1);
        let pdx = dx - gx[pi][pj];
        let pdy = dy - gy[pi][pj];
        assert(p == (px as int, py as int, pdx as int, pdy as int));
        if !check_v(pdx, pdy) {
            let k = key_of(px, py, pdx, pdy);
            proof {
                lemma_pred_step(p);
                assert(step(p) == s) by {
                    assert(step(pred(s)) == s);
                }
                lemma_lost_after_step(p, c as nat);
                lemma_search_sound(dp0, q0, gx@, gy@, p);
                if dp0[k as int] != INF {
                    lemma_lost_after_unique(p, dp0[key(p)] as nat, (c + 1) as nat);
                }
            }
            if dp[k] > c + 1 {
                let ghost a0 = assigned(dp0);
                dp.set(k, c + 1);
                queue.push_back((pi, pj, (pdx + 10) as usize, (pdy + 10) as usize, c + 1));
                proof {
                    let dp1 = dp@;
                    assert(assigned(dp1) =~= a0.insert(k as int));
                    assert(!a0.contains(k as int));
                    lemma_assigned_len(dp1);
                    lemma_search_push(dp0, q0, gx@, gy@, s, p, (pi, pj, (pdx + 10) as usize, (pdy + 10) as usize, (c + 1) as i32));
                }
            } else {
                proof {
                    lemma_search_pop(dp0, q0, gx@, gy@, s);
                }
            }
        } else {
            proof {
                lemma_search_pop(dp0, q0, gx@, gy@, s);
            }
        }
    } else {
        proof {
            lemma_search_pop(dp0, q0, gx@, gy@, s);
        }
    }
}

proof fn lemma_search_pop(
    dp: Seq<i32>,
    q: Seq<(usize, usize, usize, usize, i32)>,
    gx: Seq<Vec<i32>>,
    gy: Seq<Vec<i32>>,
    s: St,
)
    requires
        search_ok(dp, q, gx, gy),
        q.len() > 0,
        s == entry_state(q[0]),
        in_space(pred(s)) && !lost_at(pred(s).0, pred(s).1) ==> dp[key(pred(s))] != INF,
    ensures
        search_ok(dp, q.subrange(1, q.len() as int), gx, gy),
{
    reveal(search_ok);
    let q1 = q.subrange(1, q.len() as int);
    assert forall|k: int| 0 <= k < q1.len() implies {
        let e = #[trigger] q1[k];
        &&& e.0 < 201 && e.1 < 201 && e.2 < 21 && e.3 < 21
        &&& !lost_at(entry_state(e).0, entry_state(e).1)
        &&& dp[key(entry_state(e))] == e.4
        &&& 1 <= e.4 < INF
    } by {
        assert(q1[k] == q[k + 1]);
    }
    assert forall|k1: int, k2: int| 0 <= k1 < k2 < q1.len() implies entry_state(#[trigger] q1[k1]) != entry_state(#[trigger] q1[k2]) by {
        assert(q1[k1] == q[k1 + 1] && q1[k2] == q[k2 + 1]);
    }
    assert forall|s2: St|
        in_space(s2) && !lost_at(s2.0, s2.1) && #[trigger] dp[key(s2)] != INF && !queued(q1, s2) implies (
        in_space(pred(s2)) && !lost_at(pred(s2).0, pred(s2).1) ==> dp[key(pred(s2))] != INF) by {
        if s2 != s && queued(q, s2) {
            let k = choose|k: int| 0 <= k < q.len() && entry_state(#[trigger] q[k]) == s2;
            assert(k != 0);
            assert(q1[k - 1] == q[k]);
        }
    }
}

proof fn lemma_search_push(
    dp: Seq<i32>,
    q: Seq<(usize, usize, usize, usize, i32)>,
    gx: Seq<Vec<i32>>,
    gy: Seq<Vec<i32>>,
    s: St,
    p: St,
    e2: (usize, usize, usize, usize, i32),
)
    requires
        search_ok(dp, q, gx, gy),
        q.len() > 0,
        s == entry_state(q[0]),
        p == pred(s),
        in_space(p),
        !lost_at(p.0, p.1),
        e2.0 < 201 && e2.1 < 201 && e2.2 < 21 && e2.3 < 21,
        entry_state(e2) == p,
        e2.4 == q[0].4 + 1,
        lost_after(p, e2.4 as nat),
        dp[key(p)] == INF,
        e2.4 <= assigned(dp).len() + 1,
        assigned(dp.update(key(p), e2.4)).len() == assigned(dp).len() + 1,
    ensures
        search_ok(dp.update(key(p), e2.4), q.subrange(1, q.len() as int).push(e2), gx, gy),
{
    reveal(search_ok);
    let k = key(p);
    let dp1 = dp.update(k, e2.4);
    let q1 = q.subrange(1, q.len() as int).push(e2);
    let b1 = assigned(dp1).len() as int;
    lemma_key_range(p);
    lemma_assigned_len(dp);
    lemma_assigned_len(dp1);
    assert(1 <= q[0].4 < INF);
    assert forall|s2: St| in_space(s2) && #[trigger] dp1[key(s2)] != INF implies if lost_at(s2.0, s2.1) {
        dp1[key(s2)] == 0
    } else {
        dp1[key(s2)] >= 1 && lost_after(s2, dp1[key(s2)] as nat)
    } by {
        lemma_key_range(s2);
        if s2 != p {
            if key(s2) == k {
                lemma_key_injective(s2, p);
            }
            assert(dp1[key(s2)] == dp[key(s2)]);
        }
    }
    assert forall|s2: St| in_space(s2) && lost_at(s2.0, s2.1) implies #[trigger] dp1[key(s2)] == 0 by {
        lemma_key_range(s2);
        if key(s2) == k {
            lemma_key_injective(s2, p);
        }
        assert(dp[key(s2)] == 0);
    }
    assert forall|kk: int| 0 <= kk < N_STATES && #[trigger] dp1[kk] != INF implies 0 <= dp1[kk] <= b1 by {
        if kk != k {
            assert(dp1[kk] == dp[kk]);
        }
    }
    assert(sound(dp1, b1));
    assert forall|i: int| 0 <= i < q1.len() implies {
        let e = #[trigger] q1[i];
        &&& e.0 < 201 && e.1 < 201 && e.2 < 21 && e.3 < 21
        &&& !lost_at(entry_state(e).0, entry_state(e).1)
        &&& dp1[key(entry_state(e))] == e.4
        &&& 1 <= e.4 < INF
    } by {
        if i < q1.len() - 1 {
            assert(q1[i] == q[i + 1]);
            let st = entry_state(q[i + 1]);
            lemma_state_of_entry(q[i + 1]);
            if key(st) == k {
                lemma_key_injective(st, p);
                assert(dp[key(p)] == q[i + 1].4);
            }
            assert(dp1[key(st)] == dp[key(st)]);
        } else {
            assert(q1[i] == e2);
            assert(dp1[k] == e2.4);
            assert(q[0] == q[0]);
        }
    }
    assert forall|k1: int, k2: int| 0 <= k1 < k2 < q1.len() implies entry_state(#[trigger] q1[k1]) != entry_state(#[trigger] q1[k2]) by {
        assert(q1[k1] == q[k1 + 1]);
        if k2 < q1.len() - 1 {
            assert(q1[k2] == q[k2 + 1]);
        } else {
            assert(q1[k2] == e2);
            if entry_state(q[k1 + 1]) == p {
                assert(dp[key(p)] == q[k1 + 1].4);
            }
        }
    }
    assert forall|s2: St|
        in_space(s2) && !lost_at(s2.0, s2.1) && #[trigger] dp1[key(s2)] != INF && !queued(q1, s2) implies (
        in_space(pred(s2)) && !lost_at(pred(s2).0, pred(s2).1) ==> dp1[key(pred(s2))] != INF) by {
        lemma_key_range(s2);
        if s2 == p {
            assert(q1[q1.len() - 1] == e2);
            assert(queued(q1, s2));
        } else {
            if key(s2) == k {
                lemma_key_injective(s2, p);
            }
            assert(dp[key(s2)] != INF);
            if s2 == s {
                assert(dp1[key(p)] != INF);
            } else {
                if queued(q, s2) {
                    let kk = choose|kk: int| 0 <= kk < q.len() && entry_state(#[trigger] q[kk]) == s2;
                    assert(kk != 0);
                    assert(q1[kk - 1] == q[kk]);
                }
                if in_space(pred(s2)) && !lost_at(pred(s2).0, pred(s2).1) {
                    lemma_key_range(pred(s2));
                    assert(dp[key(pred(s2))] != INF);
                    if key(pred(s2)) == k {
                        lemma_key_injective(pred(s2), p);
                    }
                }
            }
        }
    }
    assert forall|s2: St| in_space(s2) && !lost_at(s2.0, s2.1) && gone(step(s2)) implies #[trigger] dp1[key(s2)] != INF by {
        lemma_key_range(s2);
        if key(s2) != k {
            assert(dp[key(s2)] != INF);
        }
    }
}

fn init_search(gx: &Vec<Vec<i32>>, gy: &Vec<Vec<i32>>) -> (r: (Vec<i32>, VecDeque<(usize, usize, usize, usize, i32)>))
    requires
        gravity_tables_ok(gx@, gy@),
    ensures
        search_ok(r.0@, r.1@, gx@, gy@),
{
    let mut dp: Vec<i32> = Vec::new();
    let mut queue: VecDeque<(usize, usize, usize, usize, i32)> = VecDeque::new();
    let n = N_STATES;
    let mut k: usize = 0;
    while k < n
        invariant
            n == N_STATES,
            k <= n,
            gravity_tables_ok(gx@, gy@),
            dp@.len() == k,
            forall|s: St| in_space(s) && key(s) < k ==> #[trigger] dp@[key(s)] == init_value(s),
            forall|q: int|
                0 <= q < queue@.len() ==> {
                    let e = #[trigger] queue@[q];
                    &&& e.0 < 201 && e.1 < 201 && e.2 < 21 && e.3 < 21
                    &&& key(entry_state(e)) < k
                    &&& init_value(entry_state(e)) == 1
                    &&& e.4 == 1
                },
            forall|k1: int, k2: int|
                #![trigger queue@[k1], queue@[k2]]
                0 <= k1 < k2 < queue@.len() ==> key(entry_state(queue@[k1])) < key(entry_state(queue@[k2])),
            forall|s: St| in_space(s) && key(s) < k && init_value(s) == 1 ==> #[trigger] queued(queue@, s),
        decreases n - k,
    {
        let i = k / 88641;
        let r1 = k % 88641;
        let j = r1 / 441;
        let r2 = r1 % 441;
        let di = r2 / 21;
        let dj = r2 % 21;
        assert(k == i * 88641 + j * 441 + di * 21 + dj && i < 201 && j < 201 && di < 21 && dj < 21)
            by (nonlinear_arith)
            requires
                k < 17816841,
                i == k / 88641,
                r1 == k % 88641,
                j == r1 / 441,
                r2 == r1 % 441,
                di == r2 / 21,
                dj == r2 % 21,
        ;
        let x = i as i32 - W;
        let y = j as i32 - W;
        let dx = di as i32 - 10;
        let dy = dj as i32 - 10;
        let ghost s: St = (x as int, y as int, dx as int, dy as int);
        assert(in_space(s) && key(s) == k);
        let ghost q0 = queue@;
        if check_range(x, y) {
            dp.push(0);
        } else {
            assert(gx@[i as int]@[j as int] == gravity_at(x as int, y as int).0);
            assert(gy@[i as int]@[j as int] == gravity_at(x as int, y as int).1);
            let ndx = dx + gx[i][j];
            let ndy = dy + gy[i][j];
            let nx = x + ndx;
            let ny = y + ndy;
            assert(step(s) == (nx as int, ny as int, ndx as int, ndy as int));
            if check_range(nx, ny) || check_v(ndx, ndy) {
                dp.push(1);
                queue.push_back((i, j, di, dj, 1));
                assert(entry_state((i, j, di, dj, 1i32)) == s);
            } else {
                dp.push(INF);
            }
        }
        proof {
            assert forall|s2: St| in_space(s2) && key(s2) < k + 1 implies #[trigger] dp@[key(s2)] == init_value(s2) by {
                if key(s2) == k {
                    lemma_key_injective(s2, s);
                }
            }
            assert forall|s2: St| in_space(s2) && key(s2) < k + 1 && init_value(s2) == 1 implies #[trigger] queued(queue@, s2) by {
                if key(s2) == k {
                    lemma_key_injective(s2, s);
                    assert(queue@[queue@.len() - 1] == (i, j, di, dj, 1i32));
                } else {
                    assert(queued(q0, s2));
                    let qq = choose|qq: int| 0 <= qq < q0.len() && entry_state(#[trigger] q0[qq]) == s2;
                    assert(queue@[qq] == q0[qq]);
                }
            }
            assert forall|k1: int, k2: int| 0 <= k1 < k2 < queue@.len() implies key(entry_state(#[trigger] queue@[k1])) < key(entry_state(#[trigger] queue@[k2])) by {
                if k2 < q0.len() {
                    assert(queue@[k1] == q0[k1] && queue@[k2] == q0[k2]);
                } else {
                    assert(queue@[k1] == q0[k1]);
                }
            }
            assert forall|q: int| 0 <= q < queue@.len() implies {
                let e = #[trigger] queue@[q];
                &&& e.0 < 201 && e.1 < 201 && e.2 < 21 && e.3 < 21
                &&& key(entry_state(e)) < k + 1
                &&& init_value(entry_state(e)) == 1
                &&& e.4 == 1
            } by {
                if q < q0.len() {
                    assert(queue@[q] == q0[q]);
                }
            }
        }
        k = k + 1;
    }
    proof {
        lemma_init_ok(dp@, queue@, gx@, gy@);
    }
    (dp, queue)
}

proof fn lemma_init_ok(
    dp: Seq<i32>,
    q: Seq<(usize, usize, usize, usize, i32)>,
    gx: Seq<Vec<i32>>,
    gy: Seq<Vec<i32>>,
)
    requires
        gravity_tables_ok(gx, gy),
        dp.len() == N_STATES,
        forall|s: St| in_space(s) && key(s) < N_STATES ==> #[trigger] dp[key(s)] == init_value(s),
        forall|i: int|
            0 <= i < q.len() ==> {
                let e = #[trigger] q[i];
                &&& e.0 < 201 && e.1 < 201 && e.2 < 21 && e.3 < 21
                &&& init_value(entry_state(e)) == 1
                &&& e.4 == 1
            },
        forall|k1: int, k2: int|
            #![trigger q[k1], q[k2]]
            0 <= k1 < k2 < q.len() ==> key(entry_state(q[k1])) < key(entry_state(q[k2])),
        forall|s: St| in_space(s) && key(s) < N_STATES && init_value(s) == 1 ==> #[trigger] queued(q, s),
    ensures
        search_ok(dp, q, gx, gy),
{
    reveal(search_ok);
    lemma_assigned_len(dp);
    let s0: St = (0, 0, 0, 0);
    lemma_key_range(s0);
    assert(dp[key(s0)] == 0);
    assert(assigned(dp).contains(key(s0)));
    assert(assigned(dp).remove(key(s0)).len() + 1 == assigned(dp).len());
    assert forall|s: St| in_space(s) && #[trigger] dp[key(s)] != INF implies if lost_at(s.0, s.1) {
        dp[key(s)] == 0
    } else {
        dp[key(s)] >= 1 && lost_after(s, dp[key(s)] as nat)
    } by {
        lemma_key_range(s);
        if !lost_at(s.0, s.1) {
            assert(fall(s, 1) == step(fall(s, 0)));
        }
    }
    assert forall|s: St| in_space(s) && lost_at(s.0, s.1) implies #[trigger] dp[key(s)] == 0 by {
        lemma_key_range(s);
    }
    assert forall|k: int| 0 <= k < N_STATES && #[trigger] dp[k] != INF implies 0 <= dp[k] <= assigned(dp).len() by {
        let i = k / 88641;
        let r1 = k % 88641;
        let j = r1 / 441;
        let r2 = r1 % 441;
        let di = r2 / 21;
        let dj = r2 % 21;
        assert(k == i * 88641 + j * 441 + di * 21 + dj && 0 <= i < 201 && 0 <= j < 201 && 0 <= di < 21 && 0 <= dj < 21)
            by (nonlinear_arith)
            requires
                0 <= k < 17816841,
                i == k / 88641,
                r1 == k % 88641,
                j == r1 / 441,
                r2 == r1 % 441,
                di == r2 / 21,
                dj == r2 % 21,
        ;
        let s: St = (i - W, j - W, di - 10, dj - 10);
        assert(key(s) == k);
    }
    assert forall|s: St|
        in_space(s) && !lost_at(s.0, s.1) && #[trigger] dp[key(s)] != INF && !queued(q, s) implies (
        in_space(pred(s)) && !lost_at(pred(s).0, pred(s).1) ==> dp[key(pred(s))] != INF) by {
        lemma_key_range(s);
    }
    assert forall|i: int| 0 <= i < q.len() implies {
        let e = #[trigger] q[i];
        &&& e.0 < 201 && e.1 < 201 && e.2 < 21 && e.3 < 21
        &&& !lost_at(entry_state(e).0, entry_state(e).1)
        &&& dp[key(entry_state(e))] == e.4
        &&& 1 <= e.4 < INF
    } by {
        lemma_state_of_entry(q[i]);
    }
    assert forall|k1: int, k2: int| 0 <= k1 < k2 < q.len() implies entry_state(#[trigger] q[k1]) != entry_state(#[trigger] q[k2]) by {
    }
    assert forall|s: St| in_space(s) && !lost_at(s.0, s.1) && gone(step(s)) implies #[trigger] dp[key(s)] != INF by {
        lemma_key_range(s);
    }
}

proof fn lemma_complete(dp: Seq<i32>, gx: Seq<Vec<i32>>, gy: Seq<Vec<i32>>, s: St, c: nat)
    requires
        search_ok(dp, Seq::empty(), gx, gy),
        in_space(s),
        !lost_at(s.0, s.1),
        lost_after(s, c),
        c < INF,
    ensures
        dp[key(s)] == c,
    decreases c,
{
    reveal(search_ok);
    lemma_key_range(s);
    if c == 1 {
        assert(fall(s, 1) == step(fall(s, 0)));
        assert(dp[key(s)] != INF);
        lemma_lost_after_unique(s, dp[key(s)] as nat, c);
    } else {
        lemma_lost_after_next(s, c);
        let s1 = step(s);
        lemma_complete(dp, gx, gy, s1, (c - 1) as nat);
        lemma_pred_step(s);
        lemma_key_range(s1);
        assert(!queued(Seq::<(usize, usize, usize, usize, i32)>::empty(), s1));
        assert(dp[key(s1)] != INF);
        assert(dp[key(s)] != INF);
        lemma_lost_after_unique(s, dp[key(s)] as nat, c);
    }
}

/// The number of places before `k` whose value is at least 256.
pub open spec fn count_long(dp: Seq<i32>, k: int) -> int
    decreases k,
{
    if k <= 0 {
        0
    } else {
        count_long(dp, k - 1) + if dp[k - 1] >= 256 {
            1int
        } else {
            0int
        }
    }
}

/// The planning tables (see `Preprocess::wf`), and the number of states
/// that survive at least 256 turns falling freely.
pub fn preprocess() -> (r: (Preprocess, usize))
    ensures
        r.0.wf(),
        r.1 == count_long(r.0.dp@, N_STATES as int),
{
    let (gx, gy) = gravity_tables();
    let (mut dp, mut queue) = init_search(&gx, &gy);
    proof {
        lemma_assigned_len(dp@);
    }
    while queue.len() > 0
        invariant
            search_ok(dp@, queue@, gx@, gy@),
            assigned(dp@).len() <= N_STATES,
        decreases 2 * (N_STATES - assigned(dp@).len()) + queue@.len(),
    {
        bfs_step(&mut dp, &mut queue, &gx, &gy);
        proof {
            lemma_assigned_len(dp@);
        }
    }
    proof {
        assert(queue@ =~= Seq::<(usize, usize, usize, usize, i32)>::empty());
        assert forall|s: St| in_space(s) implies #[trigger] dp@[key(s)] == survival(s) by {
            lemma_survival(dp@, gx@, gy@, s);
        }
        reveal(search_ok);
    }
    let mut count: usize = 0;
    let mut k: usize = 0;
    while k < dp.len()
        invariant
            k <= dp@.len(),
            dp@.len() == N_STATES,
            count == count_long(dp@, k as int),
            count <= k,
        decreases dp.len() - k,
    {
        if dp[k] >= 256 {
            count = count + 1;
        }
        k = k + 1;
    }
    (Preprocess { gx, gy, dp }, count)
}

proof fn lemma_survival(dp: Seq<i32>, gx: Seq<Vec<i32>>, gy: Seq<Vec<i32>>, s: St)
    requires
        search_ok(dp, Seq::empty(), gx, gy),
        in_space(s),
    ensures
        dp[key(s)] == survival(s),
{
    lemma_key_range(s);
    if lost_at(s.0, s.1) {
        reveal(search_ok);
    } else if exists|c: nat| lost_after(s, c) && c < INF {
        let c = choose|c: nat| lost_after(s, c) && c < INF;
        lemma_complete(dp, gx, gy, s, c);
    } else {
        reveal(search_ok);
        lemma_assigned_len(dp);
        if dp[key(s)] != INF {
            assert(lost_after(s, dp[key(s)] as nat));
            assert(dp[key(s)] <= assigned(dp).len());
        }
    }
}

/// From turn `t` on, the simulation of `naive_from` follows the free fall
/// of `s`, when the ship was not lost before turn `t`.
proof fn lemma_naive_fall(gx: Seq<Vec<i32>>, gy: Seq<Vec<i32>>, s: St, t: int)
    requires
        gravity_tables_ok(gx, gy),
        1 <= t <= 256,
        !lost_at(fall(s, (t - 1) as nat).0, fall(s, (t - 1) as nat).1),
        forall|u: nat| 1 <= u < t ==> !gone(#[trigger] fall(s, u)),
    ensures
        ({
            let f = fall(s, (t - 1) as nat);
            let r = naive_from(f.0, f.1, f.2, f.3, gx, gy, t);
            &&& t <= r <= 256
            &&& r < 256 ==> lost_after(s, r as nat)
            &&& r == 256 ==> forall|u: nat| 1 <= u < 256 ==> !gone(#[trigger] fall(s, u))
        }),
    decreases 256 - t,
{
    let f = fall(s, (t - 1) as nat);
    if t < 256 {
        let x = f.0;
        let y = f.1;
        assert(gx[x + W]@[y + W] == gravity_at(x, y).0);
        assert(gy[x + W]@[y + W] == gravity_at(x, y).1);
        assert(fall(s, t as nat) == step(f));
        let nf = fall(s, t as nat);
        if !gone(nf) {
            assert(fall(s, ((t + 1) - 1) as nat) == nf);
            lemma_naive_fall(gx, gy, s, t + 1);
        }
    }
}

/// One turn of the naive simulation is one turn of free fall (see
/// `step`): it ends at turn `t` when the ship lands on lost ground or goes
/// too fast, and goes on from the next state otherwise.
pub proof fn lemma_naive_step(gx: Seq<Vec<i32>>, gy: Seq<Vec<i32>>, s: St, t: int)
    requires
        gravity_tables_ok(gx, gy),
        !lost_at(s.0, s.1),
        1 <= t < 256,
    ensures
        ({
            let n = step(s);
            naive_from(s.0, s.1, s.2, s.3, gx, gy, t) == if lost_at(n.0, n.1) || too_fast(n.2, n.3) {
                t
            } else {
                naive_from(n.0, n.1, n.2, n.3, gx, gy, t + 1)
            }
        }),
{
    assert(gx[s.0 + W]@[s.1 + W] == gravity_at(s.0, s.1).0);
    assert(gy[s.0 + W]@[s.1 + W] == gravity_at(s.0, s.1).1);
}

/// Starting the count one turn later gives one turn more, up to the cap:
/// `naive_from` at turn `t + 1` is the value at turn `t` plus one, at most
/// 256.
pub proof fn lemma_naive_shift(x: int, y: int, dx: int, dy: int, gx: Seq<Vec<i32>>, gy: Seq<Vec<i32>>, t: int)
    requires
        1 <= t,
    ensures
        naive_from(x, y, dx, dy, gx, gy, t + 1) == if naive_from(x, y, dx, dy, gx, gy, t) + 1 < 256 {
            naive_from(x, y, dx, dy, gx, gy, t) + 1
        } else {
            256
        },
    decreases 256 - t,
{
    let ndx = dx + gx[x + W]@[y + W];
    let ndy = dy + gy[x + W]@[y + W];
    if t < 255 {
        lemma_naive_shift(x + ndx, y + ndy, ndx, ndy, gx, gy, t + 1);
    } else if t == 255 {
        assert(naive_from(x + ndx, y + ndy, ndx, ndy, gx, gy, 256) == 256);
    }
}

/// One turn of free fall later there is one turn less to live: for a
/// ship off lost ground whose next state is neither lost nor too fast, the
/// value of `test_naive` there is the value at the next state plus one, at
/// most 256.
pub proof fn lemma_naive_one_turn_less(gx: Seq<Vec<i32>>, gy: Seq<Vec<i32>>, s: St)
    requires
        gravity_tables_ok(gx, gy),
        !lost_at(s.0, s.1),
        !(lost_at(step(s).0, step(s).1) || too_fast(step(s).2, step(s).3)),
    ensures
        ({
            let n = step(s);
            naive_from(s.0, s.1, s.2, s.3, gx, gy, 1) == if naive_from(n.0, n.1, n.2, n.3, gx, gy, 1) + 1
                < 256 {
                naive_from(n.0, n.1, n.2, n.3, gx, gy, 1) + 1
            } else {
                256
            }
        }),
{
    let n = step(s);
    lemma_naive_step(gx, gy, s, 1);
    lemma_naive_shift(n.0, n.1, n.2, n.3, gx, gy, 1);
}

/// The naive simulation agrees with the planning table: for a ship off
/// lost ground, `naive_from` (the value of `test_naive`) is the survival of
/// its state, capped at 256.
pub proof fn lemma_naive_survival(gx: Seq<Vec<i32>>, gy: Seq<Vec<i32>>, s: St)
    requires
        gravity_tables_ok(gx, gy),
        !lost_at(s.0, s.1),
    ensures
        naive_from(s.0, s.1, s.2, s.3, gx, gy, 1) == if survival(s) < 256 {
            survival(s)
        } else {
            256
        },
{
    assert(fall(s, 0) == s);
    lemma_naive_fall(gx, gy, s, 1);
    let r = naive_from(s.0, s.1, s.2, s.3, gx, gy, 1);
    if r < 256 {
        assert(lost_after(s, r as nat) && r < INF);
        let c = choose|c: nat| lost_after(s, c) && c < INF;
        lemma_lost_after_unique(s, c, r as nat);
    } else {
        if exists|c: nat| lost_after(s, c) && c < INF {
            let c = choose|c: nat| lost_after(s, c) && c < INF;
            if c < 256 {
                assert(gone(fall(s, c)));
            }
        }
    }
}

impl Preprocess {
    /// The tables have the sizes the strategy indexes them with.
    pub open spec fn shape_ok(self) -> bool {
        gravity_tables_ok(self.gx@, self.gy@) && self.dp@.len() == N_STATES
    }
}

/// The greater of two pairs in the lexicographic order.
pub open spec fn pair_max(a: (i32, usize), b: (i32, usize)) -> (i32, usize) {
    if pair_lt(a, b) {
        b
    } else {
        a
    }
}

/// The best outcome within `d` more turns from `(x, y)` with velocity
/// `(dx, dy)`, the last acceleration having been `(lax, lay)`: on lost
/// ground or too fast, `(0, 0)`; else the greatest of the survival here
/// (with `d`) and of the outcomes after each acceleration in `-2..=2` on
/// both axes that does not reverse the last one.
pub open spec fn rec_spec(
    x: int,
    y: int,
    dx: int,
    dy: int,
    lax: int,
    lay: int,
    d: nat,
    dp: Seq<i32>,
) -> (i32, usize)
    decreases d, 26nat,
{
    if lost_at(x, y) || too_fast(dx, dy) {
        (0i32, 0usize)
    } else {
        let here = (dp[key((x, y, dx, dy))], d as usize);
        if d == 0 {
            here
        } else {
            rec_moves(x, y, dx, dy, lax, lay, d, dp, 0, here)
        }
    }
}

/// `best` updated with the outcomes of the accelerations from the `m`-th
/// on (in the order `(-2, -2), (-2, -1), ..., (2, 2)`).
pub open spec fn rec_moves(
    x: int,
    y: int,
    dx: int,
    dy: int,
    lax: int,
    lay: int,
    d: nat,
    dp: Seq<i32>,
    m: int,
    best: (i32, usize),
) -> (i32, usize)
    decreases d, (if m < 25 { 25 - m } else { 0 }) as nat,
{
    if m >= 25 || m < 0 || d == 0 {
        best
    } else {
        let ax = m / 5 - 2;
        let ay = m % 5 - 2;
        if lax * ax < 0 || lay * ay < 0 {
            rec_moves(x, y, dx, dy, lax, lay, d, dp, m + 1, best)
        } else {
            let g = gravity_at(x, y);
            let ndx = dx + ax + g.0;
            let ndy = dy + ay + g.1;
            let child = rec_spec(x + ndx, y + ndy, ndx, ndy, ax, ay, (d - 1) as nat, dp);
            rec_moves(x, y, dx, dy, lax, lay, d, dp, m + 1, pair_max(best, child))
        }
    }
}

proof fn lemma_rec_moves_ge(
    x: int,
    y: int,
    dx: int,
    dy: int,
    lax: int,
    lay: int,
    d: nat,
    dp: Seq<i32>,
    m: int,
    best: (i32, usize),
)
    ensures
        !pair_lt(rec_moves(x, y, dx, dy, lax, lay, d, dp, m, best), best),
    decreases (if m < 25 { 25 - m } else { 0 }),
{
    if 0 <= m < 25 && d > 0 {
        let ax = m / 5 - 2;
        let ay = m % 5 - 2;
        if lax * ax < 0 || lay * ay < 0 {
            lemma_rec_moves_ge(x, y, dx, dy, lax, lay, d, dp, m + 1, best);
        } else {
            let g = gravity_at(x, y);
            let ndx = dx + ax + g.0;
            let ndy = dy + ay + g.1;
            let child = rec_spec(x + ndx, y + ndy, ndx, ndy, ax, ay, (d - 1) as nat, dp);
            lemma_rec_moves_ge(x, y, dx, dy, lax, lay, d, dp, m + 1, pair_max(best, child));
        }
    }
}

/// The search never does worse than staying: from a state that is not
/// lost and not too fast, its outcome is at least the survival there with
/// the full depth `d`.
pub proof fn lemma_rec_at_least_here(
    x: int,
    y: int,
    dx: int,
    dy: int,
    lax: int,
    lay: int,
    d: nat,
    dp: Seq<i32>,
)
    requires
        !(lost_at(x, y) || too_fast(dx, dy)),
    ensures
        !pair_lt(rec_spec(x, y, dx, dy, lax, lay, d, dp), (dp[key((x, y, dx, dy))], d as usize)),
{
    if d > 0 {
        lemma_rec_moves_ge(x, y, dx, dy, lax, lay, d, dp, 0, (dp[key((x, y, dx, dy))], d as usize));
    }
}

proof fn lemma_moves_deeper(
    x: int,
    y: int,
    dx: int,
    dy: int,
    lax: int,
    lay: int,
    d: nat,
    dp: Seq<i32>,
    m: int,
    b1: (i32, usize),
    b2: (i32, usize),
)
    requires
        d > 0,
        !pair_lt(b2, b1),
        d + 1 <= usize::MAX,
    ensures
        !pair_lt(
            rec_moves(x, y, dx, dy, lax, lay, (d + 1) as nat, dp, m, b2),
            rec_moves(x, y, dx, dy, lax, lay, d, dp, m, b1),
        ),
    decreases d, (if m < 25 { 25 - m } else { 0 }),
{
    if 0 <= m < 25 {
        let ax = m / 5 - 2;
        let ay = m % 5 - 2;
        if lax * ax < 0 || lay * ay < 0 {
            lemma_moves_deeper(x, y, dx, dy, lax, lay, d, dp, m + 1, b1, b2);
        } else {
            let g = gravity_at(x, y);
            let ndx = dx + ax + g.0;
            let ndy = dy + ay + g.1;
            lemma_rec_deeper(x + ndx, y + ndy, ndx, ndy, ax, ay, (d - 1) as nat, dp);
            let c1 = rec_spec(x + ndx, y + ndy, ndx, ndy, ax, ay, (d - 1) as nat, dp);
            let c2 = rec_spec(x + ndx, y + ndy, ndx, ndy, ax, ay, d, dp);
            lemma_moves_deeper(x, y, dx, dy, lax, lay, d, dp, m + 1, pair_max(b1, c1), pair_max(b2, c2));
        }
    }
}

/// A deeper search never does worse: with one more turn of depth, the
/// outcome is at least as good.
pub proof fn lemma_rec_deeper(
    x: int,
    y: int,
    dx: int,
    dy: int,
    lax: int,
    lay: int,
    d: nat,
    dp: Seq<i32>,
)
    requires
        d + 1 <= usize::MAX,
    ensures
        !pair_lt(rec_spec(x, y, dx, dy, lax, lay, d + 1, dp), rec_spec(x, y, dx, dy, lax, lay, d, dp)),
    decreases d, 26nat,
{
    if !(lost_at(x, y) || too_fast(dx, dy)) {
        let v = dp[key((x, y, dx, dy))];
        if d == 0 {
            lemma_rec_moves_ge(x, y, dx, dy, lax, lay, 1, dp, 0, (v, 1usize));
        } else {
            lemma_moves_deeper(x, y, dx, dy, lax, lay, d, dp, 0, (v, d as usize), (v, (d + 1) as usize));
        }
    }
}

proof fn lemma_moves_depth(
    x: int,
    y: int,
    dx: int,
    dy: int,
    lax: int,
    lay: int,
    d: nat,
    dp: Seq<i32>,
    m: int,
    best: (i32, usize),
)
    requires
        d <= usize::MAX,
        best.1 <= d,
    ensures
        rec_moves(x, y, dx, dy, lax, lay, d, dp, m, best).1 <= d,
    decreases d, (if m < 25 { 25 - m } else { 0 }),
{
    if 0 <= m < 25 && d > 0 {
        let ax = m / 5 - 2;
        let ay = m % 5 - 2;
        if lax * ax < 0 || lay * ay < 0 {
            lemma_moves_depth(x, y, dx, dy, lax, lay, d, dp, m + 1, best);
        } else {
            let g = gravity_at(x, y);
            let ndx = dx + ax + g.0;
            let ndy = dy + ay + g.1;
            lemma_rec_depth(x + ndx, y + ndy, ndx, ndy, ax, ay, (d - 1) as nat, dp);
            let child = rec_spec(x + ndx, y + ndy, ndx, ndy, ax, ay, (d - 1) as nat, dp);
            lemma_moves_depth(x, y, dx, dy, lax, lay, d, dp, m + 1, pair_max(best, child));
        }
    }
}

proof fn lemma_rec_depth(x: int, y: int, dx: int, dy: int, lax: int, lay: int, d: nat, dp: Seq<i32>)
    requires
        d <= usize::MAX,
    ensures
        rec_spec(x, y, dx, dy, lax, lay, d, dp).1 <= d,
    decreases d, 26nat,
{
    if !(lost_at(x, y) || too_fast(dx, dy)) && d > 0 {
        lemma_moves_depth(x, y, dx, dy, lax, lay, d, dp, 0, (dp[key((x, y, dx, dy))], d as usize));
    }
}

/// What the search answers: the depth it reports is at most the depth it
/// was given; from lost ground or too fast a velocity it answers `(0, 0)`;
/// elsewhere, where the survival there is not negative, it answers `(0, 0)`
/// only at depth zero with no survival at all.
pub proof fn lemma_rec_outcome(x: int, y: int, dx: int, dy: int, lax: int, lay: int, d: nat, dp: Seq<i32>)
    requires
        d <= usize::MAX,
    ensures
        rec_spec(x, y, dx, dy, lax, lay, d, dp).1 <= d,
        (lost_at(x, y) || too_fast(dx, dy)) ==> rec_spec(x, y, dx, dy, lax, lay, d, dp) == (0i32, 0usize),
        !(lost_at(x, y) || too_fast(dx, dy)) && dp[key((x, y, dx, dy))] >= 0 ==> (rec_spec(
            x,
            y,
            dx,
            dy,
            lax,
            lay,
            d,
            dp,
        ) == (0i32, 0usize) <==> d == 0 && dp[key((x, y, dx, dy))] == 0),
{
    lemma_rec_depth(x, y, dx, dy, lax, lay, d, dp);
    if !(lost_at(x, y) || too_fast(dx, dy)) {
        lemma_rec_at_least_here(x, y, dx, dy, lax, lay, d, dp);
    }
}

fn setmax_pair(best: &mut (i32, usize), v: (i32, usize))
    ensures
        *final(best) == pair_max(*old(best), v),
{
    best.setmax(v);
}

/// The best outcome within `d` more turns (see `rec_spec`).
pub fn rec(x: i32, y: i32, dx: i32, dy: i32, last_ax: i32, last_ay: i32, d: usize, prep: &Preprocess) -> (r: (i32, usize))
    requires
        prep.shape_ok(),
        !(lost_at(x as int, y as int) || too_fast(dx as int, dy as int)) && d > 0 ==> {
            &&& -0x3fff_ffff <= last_ax <= 0x3fff_ffff
            &&& -0x3fff_ffff <= last_ay <= 0x3fff_ffff
        },
    ensures
        r == rec_spec(x as int, y as int, dx as int, dy as int, last_ax as int, last_ay as int, d as nat, prep.dp@),
    decreases d,
{
    if check_range(x, y) || check_v(dx, dy) {
        return (0, 0);
    }
    let i = (x + W) as usize;
    let j = (y + W) as usize;
    let k = key_of(x, y, dx, dy);
    let mut best = (prep.dp[k], d);
    if d == 0 {
        return best;
    }
    let ghost here = best;
    assert(prep.gx@[i as int]@[j as int] == gravity_at(x as int, y as int).0);
    assert(prep.gy@[i as int]@[j as int] == gravity_at(x as int, y as int).1);
    let gxv = prep.gx[i][j];
    let gyv = prep.gy[i][j];
    let mut ax: i32 = -2;
    while ax <= 2
        invariant
            prep.shape_ok(),
            -2 <= ax <= 3,
            !lost_at(x as int, y as int),
            !too_fast(dx as int, dy as int),
            -W <= x <= W,
            -W <= y <= W,
            -10 <= dx <= 10,
            -10 <= dy <= 10,
            -0x3fff_ffff <= last_ax <= 0x3fff_ffff,
            -0x3fff_ffff <= last_ay <= 0x3fff_ffff,
            d > 0,
            gxv == gravity_at(x as int, y as int).0,
            gyv == gravity_at(x as int, y as int).1,
            rec_spec(x as int, y as int, dx as int, dy as int, last_ax as int, last_ay as int, d as nat, prep.dp@)
                == rec_moves(x as int, y as int, dx as int, dy as int, last_ax as int, last_ay as int, d as nat, prep.dp@, (ax + 2) * 5, best),
        decreases 3 - ax,
    {
        let mut ay: i32 = -2;
        while ay <= 2
            invariant
                prep.shape_ok(),
                -2 <= ax <= 2,
                -2 <= ay <= 3,
                !lost_at(x as int, y as int),
                !too_fast(dx as int, dy as int),
                -W <= x <= W,
                -W <= y <= W,
                -10 <= dx <= 10,
                -10 <= dy <= 10,
                -0x3fff_ffff <= last_ax <= 0x3fff_ffff,
                -0x3fff_ffff <= last_ay <= 0x3fff_ffff,
                d > 0,
                gxv == gravity_at(x as int, y as int).0,
                gyv == gravity_at(x as int, y as int).1,
                rec_spec(x as int, y as int, dx as int, dy as int, last_ax as int, last_ay as int, d as nat, prep.dp@)
                    == rec_moves(x as int, y as int, dx as int, dy as int, last_ax as int, last_ay as int, d as nat, prep.dp@, (ax + 2) * 5 + (ay + 2), best),
            decreases 3 - ay,
        {
            let ghost m = (ax + 2) * 5 + (ay + 2);
            assert(m / 5 - 2 == ax && m % 5 - 2 == ay);
            assert(-0x7fff_fffe <= last_ax * ax <= 0x7fff_fffe && -0x7fff_fffe <= last_ay * ay
                <= 0x7fff_fffe) by (nonlinear_arith)
                requires
                    -0x3fff_ffff <= last_ax <= 0x3fff_ffff,
                    -2 <= ax <= 2,
                    -0x3fff_ffff <= last_ay <= 0x3fff_ffff,
                    -2 <= ay <= 2,
            ;
            if !(last_ax * ax < 0) && !(last_ay * ay < 0) {
                let ndx = dx + ax + gxv;
                let ndy = dy + ay + gyv;
                let child = rec(x + ndx, y + ndy, ndx, ndy, ax, ay, d - 1, prep);
                setmax_pair(&mut best, child);
            }
            ay = ay + 1;
        }
        ax = ax + 1;
    }
    best
}

/// The scan of the gentle accelerations (within 1 on each axis) from the
/// `m`-th on: `acc` is the best survival so far and the acceleration that
/// gives it; an acceleration counts only when it is strictly better.
pub open spec fn gentle_scan(
    x: int,
    y: int,
    dx: int,
    dy: int,
    force: bool,
    dp: Seq<i32>,
    m: int,
    acc: (int, int, int),
) -> (int, int, int)
    decreases (if m < 9 { 9 - m } else { 0 }),
{
    if m >= 9 || m < 0 {
        acc
    } else {
        let ax = m / 3 - 1;
        let ay = m % 3 - 1;
        let ndx = dx + ax;
        let ndy = dy + ay;
        if (force && ax == 0 && ay == 0) || too_fast(ndx, ndy) {
            gentle_scan(x, y, dx, dy, force, dp, m + 1, acc)
        } else {
            let v = dp[key((x, y, ndx, ndy))] as int;
            if acc.0 < v {
                gentle_scan(x, y, dx, dy, force, dp, m + 1, (v, ax, ay))
            } else {
                gentle_scan(x, y, dx, dy, force, dp, m + 1, acc)
            }
        }
    }
}

/// The scan of the accelerations within 2 on each axis from the `m`-th on,
/// each judged by the best outcome within 5 turns (see `rec_spec`).
pub open spec fn deep_scan(
    x: int,
    y: int,
    dx: int,
    dy: int,
    force: bool,
    dp: Seq<i32>,
    m: int,
    best: (i32, usize),
    acc: (int, int),
) -> (int, int)
    decreases (if m < 25 { 25 - m } else { 0 }),
{
    if m >= 25 || m < 0 {
        acc
    } else {
        let ax = m / 5 - 2;
        let ay = m % 5 - 2;
        if force && ax == 0 && ay == 0 {
            deep_scan(x, y, dx, dy, force, dp, m + 1, best, acc)
        } else {
            let g = gravity_at(x, y);
            let ndx = dx + ax + g.0;
            let ndy = dy + ay + g.1;
            let child = rec_spec(x + ndx, y + ndy, ndx, ndy, ax, ay, 5, dp);
            if pair_lt(best, child) {
                deep_scan(x, y, dx, dy, force, dp, m + 1, child, (ax, ay))
            } else {
                deep_scan(x, y, dx, dy, force, dp, m + 1, best, acc)
            }
        }
    }
}

/// The acceleration a ship on lost ground or too fast takes to get back:
/// away from the planet when near it, else around it against its drift,
/// and back into the square when beyond `W`.
pub open spec fn rescue(x: int, y: int, dx: int, dy: int) -> (int, int) {
    let ax0: int = 0;
    let ay0: int = 0;
    let (ax1, ay1) = if abs(x) < 30 && abs(y) < 30 {
        (if x < 0 { -1int } else { 1int }, if y < 0 { -1int } else { 1int })
    } else {
        let (a, b) = if x >= 0 && abs(x) >= abs(y) && dy < 7 {
            (if dx < 0 { 1int } else { ax0 }, 1int)
        } else {
            (ax0, ay0)
        };
        let (a, b) = if x <= 0 && abs(x) >= abs(y) && dy > -7 {
            (if dx > 0 { -1int } else { a }, -1int)
        } else {
            (a, b)
        };
        let (a, b) = if y >= 0 && abs(y) >= abs(x) && dx > -7 {
            (-1int, if dy < 0 { 1int } else { b })
        } else {
            (a, b)
        };
        let (a, b) = if y <= 0 && abs(y) >= abs(x) && dx < 7 {
            (1int, if dy > 0 { -1int } else { b })
        } else {
            (a, b)
        };
        (a, b)
    };
    let ax2 = if abs(x) > 100 {
        if x < 0 { 1int } else { -1int }
    } else {
        ax1
    };
    let ay2 = if abs(y) > 100 {
        if y < 0 { 1int } else { -1int }
    } else {
        ay1
    };
    (ax2, ay2)
}

/// Whether the `m`-th gentle acceleration `(m / 3 - 1, m % 3 - 1)` is
/// tried: not the null one when forced away, and not one that makes the
/// ship too fast.
pub open spec fn gentle_ok(dx: int, dy: int, force: bool, m: int) -> bool {
    let ax = m / 3 - 1;
    let ay = m % 3 - 1;
    !((force && ax == 0 && ay == 0) || too_fast(dx + ax, dy + ay))
}

/// The survival after the `m`-th gentle acceleration.
pub open spec fn gentle_val(x: int, y: int, dx: int, dy: int, dp: Seq<i32>, m: int) -> int {
    dp[key((x, y, dx + m / 3 - 1, dy + m % 3 - 1))] as int
}

proof fn lemma_gentle_argmax(
    x: int,
    y: int,
    dx: int,
    dy: int,
    force: bool,
    dp: Seq<i32>,
    m: int,
    acc: (int, int, int),
)
    requires
        0 <= m <= 9,
    ensures
        ({
            let r = gentle_scan(x, y, dx, dy, force, dp, m, acc);
            &&& r.0 >= acc.0
            &&& forall|k: int| m <= k < 9 && gentle_ok(dx, dy, force, k) ==> #[trigger] gentle_val(x, y, dx, dy, dp, k) <= r.0
            &&& r != acc ==> exists|k: int|
                {
                    &&& m <= k < 9
                    &&& gentle_ok(dx, dy, force, k)
                    &&& #[trigger] gentle_val(x, y, dx, dy, dp, k) == r.0
                    &&& r.1 == k / 3 - 1 && r.2 == k % 3 - 1
                    &&& acc.0 < r.0
                    &&& forall|j: int| m <= j < k && gentle_ok(dx, dy, force, j) ==> gentle_val(x, y, dx, dy, dp, j) < r.0
                }
        }),
    decreases 9 - m,
{
    if m < 9 {
        let ax = m / 3 - 1;
        let ay = m % 3 - 1;
        let v = dp[key((x, y, dx + ax, dy + ay))] as int;
        assert(gentle_val(x, y, dx, dy, dp, m) == v);
        if !gentle_ok(dx, dy, force, m) {
            lemma_gentle_argmax(x, y, dx, dy, force, dp, m + 1, acc);
        } else if acc.0 < v {
            let acc2 = (v, ax, ay);
            lemma_gentle_argmax(x, y, dx, dy, force, dp, m + 1, acc2);
            let r = gentle_scan(x, y, dx, dy, force, dp, m, acc);
            assert(r == gentle_scan(x, y, dx, dy, force, dp, m + 1, acc2));
            if r == acc2 {
                assert(gentle_val(x, y, dx, dy, dp, m) == r.0);
            }
        } else {
            lemma_gentle_argmax(x, y, dx, dy, force, dp, m + 1, acc);
        }
    }
}

/// The gentle choice of the defender: among the tried gentle accelerations
/// (see `gentle_ok`), one with the greatest survival, the first such in the
/// order `(-1, -1), (-1, 0), ..., (1, 1)`, taken when that survival is
/// positive.
pub proof fn lemma_gentle_choice(x: int, y: int, dx: int, dy: int, force: bool, dp: Seq<i32>)
    ensures
        ({
            let r = gentle_scan(x, y, dx, dy, force, dp, 0, (0, 0, 0));
            &&& forall|k: int| 0 <= k < 9 && gentle_ok(dx, dy, force, k) ==> #[trigger] gentle_val(x, y, dx, dy, dp, k) <= r.0
            &&& r.0 > 0 ==> exists|k: int|
                {
                    &&& 0 <= k < 9
                    &&& gentle_ok(dx, dy, force, k)
                    &&& #[trigger] gentle_val(x, y, dx, dy, dp, k) == r.0
                    &&& r.1 == k / 3 - 1 && r.2 == k % 3 - 1
                    &&& forall|j: int| 0 <= j < k && gentle_ok(dx, dy, force, j) ==> gentle_val(x, y, dx, dy, dp, j) < r.0
                }
        }),
{
    lemma_gentle_argmax(x, y, dx, dy, force, dp, 0, (0, 0, 0));
}

/// The acceleration the defender chooses (see `next_move`).
pub open spec fn next_move_spec(x: int, y: int, dx: int, dy: int, force: bool, tick: int, dp: Seq<i32>) -> (int, int) {
    let gentle = gentle_scan(x, y, dx, dy, force, dp, 0, (0, 0, 0));
    if !lost_at(x, y) && tick > 20 && gentle.0 > 0 {
        (gentle.1, gentle.2)
    } else if lost_at(x, y) || too_fast(dx, dy) {
        rescue(x, y, dx, dy)
    } else {
        deep_scan(x, y, dx, dy, force, dp, 0, (0i32, 0usize), (0, 0))
    }
}

proof fn lemma_gentle_small(
    x: int,
    y: int,
    dx: int,
    dy: int,
    force: bool,
    dp: Seq<i32>,
    m: int,
    acc: (int, int, int),
)
    requires
        -1 <= acc.1 <= 1,
        -1 <= acc.2 <= 1,
    ensures
        -1 <= gentle_scan(x, y, dx, dy, force, dp, m, acc).1 <= 1,
        -1 <= gentle_scan(x, y, dx, dy, force, dp, m, acc).2 <= 1,
    decreases (if m < 9 { 9 - m } else { 0 }),
{
    if 0 <= m < 9 {
        let ax = m / 3 - 1;
        let ay = m % 3 - 1;
        let v = dp[key((x, y, dx + ax, dy + ay))] as int;
        lemma_gentle_small(x, y, dx, dy, force, dp, m + 1, acc);
        lemma_gentle_small(x, y, dx, dy, force, dp, m + 1, (v, ax, ay));
    }
}

proof fn lemma_deep_small(
    x: int,
    y: int,
    dx: int,
    dy: int,
    force: bool,
    dp: Seq<i32>,
    m: int,
    best: (i32, usize),
    acc: (int, int),
)
    requires
        -2 <= acc.0 <= 2,
        -2 <= acc.1 <= 2,
    ensures
        -2 <= deep_scan(x, y, dx, dy, force, dp, m, best, acc).0 <= 2,
        -2 <= deep_scan(x, y, dx, dy, force, dp, m, best, acc).1 <= 2,
    decreases (if m < 25 { 25 - m } else { 0 }),
{
    if 0 <= m < 25 {
        let ax = m / 5 - 2;
        let ay = m % 5 - 2;
        let g = gravity_at(x, y);
        let ndx = dx + ax + g.0;
        let ndy = dy + ay + g.1;
        let child = rec_spec(x + ndx, y + ndy, ndx, ndy, ax, ay, 5, dp);
        lemma_deep_small(x, y, dx, dy, force, dp, m + 1, best, acc);
        lemma_deep_small(x, y, dx, dy, force, dp, m + 1, child, (ax, ay));
    }
}

/// Every acceleration the defender chooses is within 2 on each axis.
pub proof fn lemma_next_move_small(
    x: int,
    y: int,
    dx: int,
    dy: int,
    force: bool,
    tick: int,
    dp: Seq<i32>,
)
    ensures
        -2 <= next_move_spec(x, y, dx, dy, force, tick, dp).0 <= 2,
        -2 <= next_move_spec(x, y, dx, dy, force, tick, dp).1 <= 2,
{
    lemma_gentle_small(x, y, dx, dy, force, dp, 0, (0, 0, 0));
    lemma_deep_small(x, y, dx, dy, force, dp, 0, (0i32, 0usize), (0, 0));
}

fn gentle(x: i32, y: i32, dx: i32, dy: i32, force: bool, prep: &Preprocess) -> (r: (i32, i32, i32))
    requires
        prep.shape_ok(),
        !lost_at(x as int, y as int),
        i32::MIN < dx < i32::MAX,
        i32::MIN < dy < i32::MAX,
    ensures
        (r.0 as int, r.1 as int, r.2 as int) == gentle_scan(x as int, y as int, dx as int, dy as int, force, prep.dp@, 0, (0, 0, 0)),
{
    let mut best: i32 = 0;
    let mut bx: i32 = 0;
    let mut by: i32 = 0;
    let mut m: i32 = 0;
    while m < 9
        invariant
            prep.shape_ok(),
            !lost_at(x as int, y as int),
            i32::MIN < dx < i32::MAX,
            i32::MIN < dy < i32::MAX,
            0 <= m <= 9,
            gentle_scan(x as int, y as int, dx as int, dy as int, force, prep.dp@, 0, (0, 0, 0))
                == gentle_scan(x as int, y as int, dx as int, dy as int, force, prep.dp@, m as int, (best as int, bx as int, by as int)),
        decreases 9 - m,
    {
        let ax = m / 3 - 1;
        let ay = m % 3 - 1;
        let ndx = dx + ax;
        let ndy = dy + ay;
        if !(force && ax == 0 && ay == 0) && !check_v(ndx, ndy) {
            let k = key_of(x, y, ndx, ndy);
            let v = prep.dp[k];
            if best.setmax(v) {
                bx = ax;
                by = ay;
            }
        }
        m = m + 1;
    }
    (best, bx, by)
}

fn deep(x: i32, y: i32, dx: i32, dy: i32, force: bool, prep: &Preprocess) -> (r: (i32, i32))
    requires
        prep.shape_ok(),
        !lost_at(x as int, y as int),
        !too_fast(dx as int, dy as int),
    ensures
        (r.0 as int, r.1 as int) == deep_scan(x as int, y as int, dx as int, dy as int, force, prep.dp@, 0, (0i32, 0usize), (0, 0)),
{
    let i = (x + W) as usize;
    let j = (y + W) as usize;
    assert(prep.gx@[i as int]@[j as int] == gravity_at(x as int, y as int).0);
    assert(prep.gy@[i as int]@[j as int] == gravity_at(x as int, y as int).1);
    let gxv = prep.gx[i][j];
    let gyv = prep.gy[i][j];
    let mut best: (i32, usize) = (0, 0);
    let mut bx: i32 = 0;
    let mut by: i32 = 0;
    let mut m: i32 = 0;
    while m < 25
        invariant
            prep.shape_ok(),
            !lost_at(x as int, y as int),
            !too_fast(dx as int, dy as int),
            -W <= x <= W,
            -W <= y <= W,
            gxv == gravity_at(x as int, y as int).0,
            gyv == gravity_at(x as int, y as int).1,
            0 <= m <= 25,
            deep_scan(x as int, y as int, dx as int, dy as int, force, prep.dp@, 0, (0i32, 0usize), (0, 0))
                == deep_scan(x as int, y as int, dx as int, dy as int, force, prep.dp@, m as int, best, (bx as int, by as int)),
        decreases 25 - m,
    {
        let ax = m / 5 - 2;
        let ay = m % 5 - 2;
        if !(force && ax == 0 && ay == 0) {
            let ndx = dx + ax + gxv;
            let ndy = dy + ay + gyv;
            let child = rec(x + ndx, y + ndy, ndx, ndy, ax, ay, 5, prep);
            if best.setmax(child) {
                bx = ax;
                by = ay;
            }
        }
        m = m + 1;
    }
    (bx, by)
}

pub(crate) fn rescue_move(x: i32, y: i32, dx: i32, dy: i32) -> (r: (i32, i32))
    requires
        x != i32::MIN,
        y != i32::MIN,
    ensures
        (r.0 as int, r.1 as int) == rescue(x as int, y as int, dx as int, dy as int),
{
    let ax_ = if x < 0 { -x } else { x };
    let ay_ = if y < 0 { -y } else { y };
    let mut addx: i32 = 0;
    let mut addy: i32 = 0;
    if ax_ < 30 && ay_ < 30 {
        if x < 0 {
            addx = -1;
        } else {
            addx = 1;
        }
        if y < 0 {
            addy = -1;
        } else {
            addy = 1;
        }
    } else {
        if x >= 0 && ax_ >= ay_ {
            if dy < 7 {
                addy = 1;
                if dx < 0 {
                    addx = 1;
                }
            }
        }
        if x <= 0 && ax_ >= ay_ {
            if dy > -7 {
                addy = -1;
                if dx > 0 {
                    addx = -1;
                }
            }
        }
        if y >= 0 && ay_ >= ax_ {
            if dx > -7 {
                addx = -1;
                if dy < 0 {
                    addy = 1;
                }
            }
        }
        if y <= 0 && ay_ >= ax_ {
            if dx < 7 {
                addx = 1;
                if dy > 0 {
                    addy = -1;
                }
            }
        }
    }
    if ax_ > 100 {
        if x < 0 {
            addx = 1;
        } else {
            addx = -1;
        }
    }
    if ay_ > 100 {
        if y < 0 {
            addy = 1;
        } else {
            addy = -1;
        }
    }
    (addx, addy)
}

/// The acceleration the defender chooses for a ship at `(x, y)` with
/// velocity `(dx, dy)` (see `next_move_spec`): after turn 20 and on safe
/// ground, the gentle acceleration that leaves it the longest survival, if
/// any survives; on lost ground or too fast, the rescue; else the
/// acceleration with the best outcome within 5 turns. With `force`, some
/// acceleration is taken.
pub fn next_move(x: i32, y: i32, dx: i32, dy: i32, force: bool, tick: i32, prep: &Preprocess) -> (r: (i32, i32))
    requires
        prep.shape_ok(),
        x != i32::MIN,
        y != i32::MIN,
        !lost_at(x as int, y as int) && tick > 20 ==> i32::MIN < dx < i32::MAX && i32::MIN < dy < i32::MAX,
    ensures
        (r.0 as int, r.1 as int) == next_move_spec(x as int, y as int, dx as int, dy as int, force, tick as int, prep.dp@),
{
    if !check_range(x, y) && tick > 20 {
        let (best, bx, by) = gentle(x, y, dx, dy, force, prep);
        if best > 0 {
            return (bx, by);
        }
    }
    if check_range(x, y) || check_v(dx, dy) {
        rescue_move(x, y, dx, dy)
    } else {
        deep(x, y, dx, dy, force, prep)
    }
}
} // verus!
