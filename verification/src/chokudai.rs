//! The attacker's strategy: pick the enemy ship to go after, lead the shot
//! to where it will be, and choose between chasing it and keeping an orbit.
use vstd::prelude::*;
use crate::client::{Command, Response, Ship};
use crate::routing::{Router, abs, chase_fits, chase_ok, chase_ready, chase_spec, drifts_within, lemma_chase_is_move, lemma_drift_chase, movable};

verus! {

/// A number drawn from the thread's generator in `[low, high)`.
///
/// Calls `rand::Rng::gen_range` on `rand::thread_rng()`; the rand crate
/// documents that the value lies in the half-open range and that the call
/// panics when `low >= high`. Nothing else is claimed of the value.
#[verifier::external_body]
pub(crate) fn random_in(low: i32, high: i32) -> (r: i32)
    requires
        low < high,
    ensures
        low <= r < high,
{
    rand::Rng::gen_range(&mut rand::thread_rng(), low, high)
}

/// What the strategy remembers between turns: how often the enemy made
/// each acceleration (indexed by `(2 - ax) * 5 + (2 - ay)`), and whether it
/// is going after the enemy.
pub struct EnemyData {
    pub pattern: Vec<i32>,
    pub go_near: bool,
}

impl EnemyData {
    /// The table has a count for each of the 25 accelerations.
    pub open spec fn wf(self) -> bool {
        self.pattern@.len() == 25
    }

    /// No acceleration seen yet, and going after the enemy.
    pub fn new() -> (r: Self)
        ensures
            r.wf(),
            forall|i: int| 0 <= i < 25 ==> r.pattern@[i] == 0,
            r.go_near,
    {
        let mut pattern: Vec<i32> = Vec::new();
        let mut i: usize = 0;
        while i < 25
            invariant
                i <= 25,
                pattern@.len() == i,
                forall|k: int| 0 <= k < i ==> pattern@[k] == 0,
            decreases 25 - i,
        {
            pattern.push(0);
            i = i + 1;
        }
        EnemyData { pattern, go_near: true }
    }
}

/// Whether `v` lies in the range of `i32`.
pub open spec fn in_i32(v: int) -> bool {
    i32::MIN <= v <= i32::MAX
}

/// Whether the distance between the ships can be computed in `i32`: the
/// differences of the coordinates, their magnitudes, and their sum.
pub open spec fn dist_fits(a: Ship, b: Ship) -> bool {
    let dx = a.pos.0 - b.pos.0;
    let dy = a.pos.1 - b.pos.1;
    &&& in_i32(dx) && dx != i32::MIN
    &&& in_i32(dy) && dy != i32::MIN
    &&& abs(dx) + abs(dy) <= i32::MAX
}

/// The index of the last of the first `n` ships with role `role`, or 0.
pub open spec fn mine(ships: Seq<Ship>, role: i32, n: nat) -> int
    decreases n,
{
    if n == 0 {
        0
    } else if ships[n - 1].role == role {
        n - 1
    } else {
        mine(ships, role, (n - 1) as nat)
    }
}

/// The acceleration table, the last acceleration seen (negated), and
/// whether every count so far was in range.
pub struct Seen {
    pub pattern: Seq<i32>,
    pub px: int,
    pub py: int,
    pub ok: bool,
}

/// `s` after counting the accelerations among the first `k` commands.
pub open spec fn absorb(s: Seen, cmds: Seq<Command>, k: nat) -> Seen
    decreases k,
{
    if k == 0 {
        s
    } else {
        let p = absorb(s, cmds, (k - 1) as nat);
        match cmds[k - 1] {
            Command::Accelerate(_, v) => {
                let idx = (2 - v.0) * 5 + (2 - v.1);
                let fits = -2 <= v.0 <= 2 && -2 <= v.1 <= 2 && p.pattern[idx] < i32::MAX;
                Seen {
                    pattern: p.pattern.update(idx, (p.pattern[idx] + 1) as i32),
                    px: -v.0,
                    py: -v.1,
                    ok: p.ok && fits,
                }
            },
            _ => p,
        }
    }
}

/// The distance between two ships, along the axes.
pub open spec fn dist_spec(a: Ship, b: Ship) -> int {
    abs(a.pos.0 - b.pos.0) + abs(a.pos.1 - b.pos.1)
}

/// Whether a scan should now take to ship `i`: nothing taken yet, it has
/// more energy than the one taken, or as much and is nearer to ship `my`.
pub open spec fn prefer(ships: Seq<Ship>, chosen: bool, idx: int, my: int, i: int) -> bool {
    let e = ships[idx];
    let s = ships[i];
    let m = ships[my];
    ||| !chosen
    ||| e.status.energy < s.status.energy
    ||| (e.status.energy == s.status.energy && dist_spec(e, m) > dist_spec(s, m))
}

/// The state of the scan for the enemy.
pub struct Pick {
    pub chosen: bool,
    pub idx: int,
    pub cnt: int,
    pub seen: Seen,
}

/// Whether the comparison of `prefer` computes distances that fit: it
/// does when something is taken, the ship has no more energy than it, and
/// exactly as much.
pub open spec fn compared_fits(ships: Seq<Ship>, chosen: bool, idx: int, my: int, i: int) -> bool {
    let e = ships[idx];
    let s = ships[i];
    chosen && !(e.status.energy < s.status.energy) && e.status.energy == s.status.energy ==> dist_fits(
        e,
        ships[my],
    ) && dist_fits(s, ships[my])
}

/// The scan of the first `n` ships: each ship of another role than `role`
/// is counted; it is taken when `prefer` says so, and then the
/// accelerations among its last commands are counted in the table. The
/// scan's `ok` also records that every comparison fit (see
/// `compared_fits`).
pub open spec fn pick(ships: Seq<Ship>, role: i32, my: int, pat: Seq<i32>, n: nat) -> Pick
    decreases n,
{
    if n == 0 {
        Pick { chosen: false, idx: 0, cnt: 0, seen: Seen { pattern: pat, px: 0, py: 0, ok: true } }
    } else {
        let p = pick(ships, role, my, pat, (n - 1) as nat);
        let i = n - 1;
        if ships[i].role == role {
            p
        } else {
            let fits = compared_fits(ships, p.chosen, p.idx, my, i);
            let seen = Seen {
                pattern: p.seen.pattern,
                px: p.seen.px,
                py: p.seen.py,
                ok: p.seen.ok && fits,
            };
            if prefer(ships, p.chosen, p.idx, my, i) {
                Pick {
                    chosen: true,
                    idx: i,
                    cnt: p.cnt + 1,
                    seen: absorb(seen, ships[i].commands@, ships[i].commands@.len()),
                }
            } else {
                Pick { chosen: p.chosen, idx: p.idx, cnt: p.cnt + 1, seen }
            }
        }
    }
}

/// The scan of all ships of `resp` for a player of role `role`.
pub open spec fn scan(resp: Response, role: i32, pat: Seq<i32>) -> Pick {
    let ships = resp.state.ships@;
    pick(ships, role, mine(ships, role, ships.len()), pat, ships.len())
}

/// Where the enemy `e` will be: one turn of drift, one step of pull towards
/// the planet along its dominant axis, and its last acceleration `(px, py)`.
pub open spec fn lead(e: Ship, px: int, py: int) -> (int, int) {
    let nx0 = e.pos.0 + e.v.0;
    let ny0 = e.pos.1 + e.v.1;
    let ny1 = if abs(e.pos.0 as int) <= abs(e.pos.1 as int) {
        if e.pos.1 >= 0 {
            ny0 - 1
        } else {
            ny0 + 1
        }
    } else {
        ny0
    };
    let nx1 = if abs(e.pos.1 as int) <= abs(e.pos.0 as int) {
        if e.pos.0 >= 0 {
            nx0 - 1
        } else {
            nx0 + 1
        }
    } else {
        nx0
    };
    (nx1 + px, ny1 + py)
}

/// Whether `lead` of the enemy `e` can be computed in `i32`, step by step.
pub open spec fn lead_fits(e: Ship, px: int, py: int) -> bool {
    &&& e.pos.0 != i32::MIN && e.pos.1 != i32::MIN
    &&& in_i32(e.pos.0 + e.v.0) && in_i32(e.pos.1 + e.v.1)
    &&& in_i32(lead(e, 0, 0).0) && in_i32(lead(e, 0, 0).1)
    &&& in_i32(lead(e, px, py).0) && in_i32(lead(e, px, py).1)
}

/// Whether the strategy goes after the enemy this turn: it starts to when
/// its ship is cool and has energy, and stops when it is hot, short of
/// energy, or facing a swarm of spent ships.
pub open spec fn near_after(g: bool, m: Ship, e: Ship, cnt: int) -> bool {
    let g1 = if m.heat <= 20 && m.status.energy >= 20 {
        true
    } else {
        g
    };
    if m.heat as i64 >= m.max_heat as i64 - 50 || m.status.energy <= 20 || (cnt >= 10 && e.status.energy < 5) {
        false
    } else {
        g1
    }
}

/// The greater and the lesser distance, along the axes, from where the
/// ship `m` will be after the acceleration `add` to the point `ne`.
pub open spec fn spread(m: Ship, add: (int, int), ne: (int, int)) -> (int, int) {
    let a = abs(m.pos.0 + m.v.0 + add.0 - ne.0);
    let b = abs(m.pos.1 + m.v.1 + add.1 - ne.1);
    if a >= b {
        (a, b)
    } else {
        (b, a)
    }
}

/// Whether the line of fire is good: far from the diagonals, or short and
/// not near them.
pub open spec fn clear_shot(maxlen: int, minlen: int) -> bool {
    let terrible = maxlen * 2 / 10 <= minlen && maxlen * 8 / 10 >= minlen;
    let bad = maxlen / 10 <= minlen && maxlen * 9 / 10 >= minlen;
    !bad || (!terrible && minlen + maxlen <= 35)
}

/// Whether the ship, about to coast close to a strong and cool enemy with
/// a clear line, dodges with a random diagonal step.
pub open spec fn jitter_wanted(m: Ship, e: Ship, add: (int, int), ne: (int, int)) -> bool {
    let (maxlen, minlen) = spread(m, add, ne);
    &&& clear_shot(maxlen, minlen)
    &&& add == (0int, 0int)
    &&& minlen + maxlen <= 70
    &&& e.max_heat - e.heat >= 30
    &&& e.status.power >= 30
    &&& m.status.energy >= 10
}

/// The diagonal step for the draw `num` in `[0, 4)`.
pub open spec fn jitter(num: int) -> (int, int) {
    (num / 2 * 2 - 1, num % 2 * 2 - 1)
}

/// The commands of ship `id`: a shot of power 64 at `ne` when the ship is
/// cool enough and the line is clear, then the thrust (the negated
/// acceleration) when it accelerates.
pub open spec fn orders(id: i32, m: Ship, e: Ship, add: (int, int), ne: (int, int), num: int) -> Seq<
    Command,
> {
    let (maxlen, minlen) = spread(m, add, ne);
    let shoot = m.heat <= m.max_heat - 45 && clear_shot(maxlen, minlen);
    let add2 = if jitter_wanted(m, e, add, ne) {
        jitter(num)
    } else {
        add
    };
    let shots = if shoot {
        seq![Command::Shoot(id, (ne.0 as i32, ne.1 as i32), 64)]
    } else {
        Seq::empty()
    };
    let thrusts = if add2 != (0int, 0int) {
        seq![Command::Accelerate(id, ((-add2.0) as i32, (-add2.1) as i32))]
    } else {
        Seq::empty()
    };
    shots + thrusts
}

proof fn lemma_absorb_ok(s: Seen, cmds: Seq<Command>, k: nat, n: nat)
    requires
        k <= n <= cmds.len(),
        absorb(s, cmds, n).ok,
    ensures
        absorb(s, cmds, k).ok,
        s.ok,
    decreases n,
{
    if n > 0 {
        lemma_absorb_ok(s, cmds, if k < n { k } else { (n - 1) as nat }, (n - 1) as nat);
    }
}

proof fn lemma_absorb(s: Seen, cmds: Seq<Command>, n: nat)
    requires
        n <= cmds.len(),
        absorb(s, cmds, n).ok,
        s.pattern.len() == 25,
    ensures
        absorb(s, cmds, n).pattern.len() == 25,
        -2 <= s.px <= 2 && -2 <= s.py <= 2 ==> -2 <= absorb(s, cmds, n).px <= 2 && -2 <= absorb(
            s,
            cmds,
            n,
        ).py <= 2,
    decreases n,
{
    if n > 0 {
        lemma_absorb_ok(s, cmds, (n - 1) as nat, n);
        lemma_absorb(s, cmds, (n - 1) as nat);
    }
}

proof fn lemma_pick(ships: Seq<Ship>, role: i32, my: int, pat: Seq<i32>, k: nat, n: nat)
    requires
        k <= n <= ships.len(),
        pick(ships, role, my, pat, n).seen.ok,
        pat.len() == 25,
    ensures
        pick(ships, role, my, pat, k).seen.ok,
        pick(ships, role, my, pat, n).seen.pattern.len() == pat.len(),
        -2 <= pick(ships, role, my, pat, n).seen.px <= 2,
        -2 <= pick(ships, role, my, pat, n).seen.py <= 2,
        0 <= pick(ships, role, my, pat, n).cnt <= n,
        0 <= pick(ships, role, my, pat, n).idx < ships.len() || ships.len() == 0,
    decreases n,
{
    if n > 0 {
        let p = pick(ships, role, my, pat, (n - 1) as nat);
        let i = n - 1;
        let seen = Seen {
            pattern: p.seen.pattern,
            px: p.seen.px,
            py: p.seen.py,
            ok: p.seen.ok && compared_fits(ships, p.chosen, p.idx, my, i),
        };
        if ships[i].role != role && prefer(ships, p.chosen, p.idx, my, i) {
            lemma_absorb_ok(seen, ships[i].commands@, 0, ships[i].commands@.len());
        }
        lemma_pick(ships, role, my, pat, if k < n { k } else { (n - 1) as nat }, (n - 1) as nat);
        if ships[i].role != role && prefer(ships, p.chosen, p.idx, my, i) {
            lemma_absorb(seen, ships[i].commands@, ships[i].commands@.len());
        }
    }
}

fn labs(x: i64) -> (r: i64)
    requires
        -0x10_0000_0000 <= x <= 0x10_0000_0000,
    ensures
        r == abs(x as int),
        r <= 0x10_0000_0000,
{
    if x < 0 {
        -x
    } else {
        x
    }
}

fn iabs(x: i32) -> (r: i32)
    requires
        x != i32::MIN,
    ensures
        r == abs(x as int),
{
    if x < 0 {
        -x
    } else {
        x
    }
}

/// The distance between two ships, along the axes.
pub fn dist(a: &Ship, b: &Ship) -> (r: i32)
    requires
        dist_fits(*a, *b),
    ensures
        r == dist_spec(*a, *b),
{
    iabs(a.pos.0 - b.pos.0) + iabs(a.pos.1 - b.pos.1)
}

fn find_mine(ships: &Vec<Ship>, role: i32) -> (r: usize)
    requires
        ships.len() > 0,
    ensures
        r == mine(ships@, role, ships@.len()),
        r < ships.len(),
{
    let mut my: usize = 0;
    let mut i: usize = 0;
    while i < ships.len()
        invariant
            i <= ships.len(),
            ships.len() > 0,
            my == mine(ships@, role, i as nat),
            my < ships.len(),
        decreases ships.len() - i,
    {
        if ships[i].role == role {
            my = i;
        }
        i = i + 1;
    }
    my
}

impl EnemyData {
    /// Counts the accelerations among `cmds` in the table; returns the last
    /// one seen, negated, or `(px, py)` when there is none.
    fn absorb_commands(&mut self, cmds: &Vec<Command>, px: i32, py: i32) -> (r: (i32, i32))
        requires
            old(self).wf(),
            absorb(
                Seen { pattern: old(self).pattern@, px: px as int, py: py as int, ok: true },
                cmds@,
                cmds@.len(),
            ).ok,
        ensures
            ({
                let s = absorb(
                    Seen { pattern: old(self).pattern@, px: px as int, py: py as int, ok: true },
                    cmds@,
                    cmds@.len(),
                );
                &&& final(self).pattern@ == s.pattern
                &&& r.0 == s.px
                &&& r.1 == s.py
            }),
            final(self).go_near == old(self).go_near,
            final(self).wf(),
    {
        let ghost s0 = Seen { pattern: self.pattern@, px: px as int, py: py as int, ok: true };
        let mut qx = px;
        let mut qy = py;
        let mut k: usize = 0;
        while k < cmds.len()
            invariant
                k <= cmds.len(),
                absorb(s0, cmds@, cmds@.len()).ok,
                s0.pattern.len() == 25,
                self.pattern@.len() == 25,
                absorb(s0, cmds@, k as nat).pattern == self.pattern@,
                absorb(s0, cmds@, k as nat).px == qx,
                absorb(s0, cmds@, k as nat).py == qy,
                self.go_near == old(self).go_near,
            decreases cmds.len() - k,
        {
            proof {
                lemma_absorb_ok(s0, cmds@, (k + 1) as nat, cmds@.len());
            }
            match cmds[k] {
                Command::Accelerate(_, v) => {
                    let idx = ((2 - v.0) * 5 + (2 - v.1)) as usize;
                    let c = self.pattern[idx];
                    self.pattern.set(idx, c + 1);
                    qx = -v.0;
                    qy = -v.1;
                },
                _ => {},
            }
            k = k + 1;
        }
        (qx, qy)
    }
}

/// The scan for the enemy (see `pick`): the index of the ship taken, the
/// number of ships of other roles, and the last acceleration seen, negated.
fn pick_enemy(ships: &Vec<Ship>, role: i32, my: usize, e_data: &mut EnemyData) -> (r: (
    usize,
    i32,
    i32,
    i32,
))
    requires
        0 <= my < ships.len(),
        ships.len() < i32::MAX,
        old(e_data).wf(),
        pick(ships@, role, my as int, old(e_data).pattern@, ships@.len()).seen.ok,
    ensures
        ({
            let p = pick(ships@, role, my as int, old(e_data).pattern@, ships@.len());
            &&& r.0 == p.idx
            &&& r.1 == p.cnt
            &&& r.2 == p.seen.px
            &&& r.3 == p.seen.py
            &&& final(e_data).pattern@ == p.seen.pattern
        }),
        r.0 < ships.len(),
        final(e_data).go_near == old(e_data).go_near,
        final(e_data).wf(),
{
    let ghost pat = e_data.pattern@;
    let ghost n = ships@.len();
    let mut chosen = false;
    let mut idx: usize = 0;
    let mut cnt: i32 = 0;
    let mut px: i32 = 0;
    let mut py: i32 = 0;
    let mut i: usize = 0;
    while i < ships.len()
        invariant
            i <= ships.len(),
            n == ships@.len(),
            0 <= my < ships.len(),
            ships.len() < i32::MAX,
            pick(ships@, role, my as int, pat, n).seen.ok,
            e_data.pattern@.len() == 25,
            pat.len() == 25,
            e_data.go_near == old(e_data).go_near,
            ({
                let p = pick(ships@, role, my as int, pat, i as nat);
                &&& chosen == p.chosen
                &&& idx == p.idx
                &&& cnt == p.cnt
                &&& px == p.seen.px
                &&& py == p.seen.py
                &&& e_data.pattern@ == p.seen.pattern
            }),
            idx < ships.len(),
        decreases ships.len() - i,
    {
        proof {
            lemma_pick(ships@, role, my as int, pat, (i + 1) as nat, n);
            lemma_pick(ships@, role, my as int, pat, i as nat, (i + 1) as nat);
            lemma_pick(ships@, role, my as int, pat, i as nat, i as nat);
        }
        proof {
            let p = pick(ships@, role, my as int, pat, i as nat);
            let fits = compared_fits(ships@, p.chosen, p.idx, my as int, i as int);
            let seen = Seen {
                pattern: p.seen.pattern,
                px: p.seen.px,
                py: p.seen.py,
                ok: p.seen.ok && fits,
            };
            if ships@[i as int].role != role && prefer(ships@, p.chosen, p.idx, my as int, i as int) {
                lemma_absorb_ok(seen, ships@[i as int].commands@, 0, ships@[i as int].commands@.len());
            }
            assert(ships@[i as int].role != role ==> fits);
        }
        if ships[i].role != role {
            let take = !chosen || ships[idx].status.energy < ships[i].status.energy || (
            ships[idx].status.energy == ships[i].status.energy && dist(&ships[idx], &ships[my]) > dist(
                &ships[i],
                &ships[my],
            ));
            if take {
                idx = i;
                chosen = true;
                proof {
                    let p = pick(ships@, role, my as int, pat, i as nat);
                    assert(Seen {
                        pattern: p.seen.pattern,
                        px: p.seen.px,
                        py: p.seen.py,
                        ok: p.seen.ok && compared_fits(ships@, p.chosen, p.idx, my as int, i as int),
                    } == Seen { pattern: e_data.pattern@, px: px as int, py: py as int, ok: true });
                }
                let (qx, qy) = e_data.absorb_commands(&ships[i].commands, px, py);
                px = qx;
                py = qy;
            }
            cnt = cnt + 1;
        }
        i = i + 1;
    }
    (idx, cnt, px, py)
}

/// Counts the accelerations among `cmds` in the table `pat`, checking each
/// count (see `absorb`); `None` when one is out of range or a count would
/// pass `i32::MAX`.
fn absorb_checked(pat: &mut Vec<i32>, cmds: &Vec<Command>, px: i32, py: i32) -> (r: Option<(i32, i32)>)
    requires
        old(pat)@.len() == 25,
    ensures
        ({
            let s = absorb(
                Seen { pattern: old(pat)@, px: px as int, py: py as int, ok: true },
                cmds@,
                cmds@.len(),
            );
            match r {
                Some(q) => s.ok && final(pat)@ == s.pattern && q.0 == s.px && q.1 == s.py,
                None => !s.ok,
            }
        }),
        final(pat)@.len() == 25,
{
    let ghost s0 = Seen { pattern: pat@, px: px as int, py: py as int, ok: true };
    let mut qx = px;
    let mut qy = py;
    let mut k: usize = 0;
    while k < cmds.len()
        invariant
            k <= cmds.len(),
            s0 == (Seen { pattern: old(pat)@, px: px as int, py: py as int, ok: true }),
            s0.pattern.len() == 25,
            pat@.len() == 25,
            absorb(s0, cmds@, k as nat).ok,
            absorb(s0, cmds@, k as nat).pattern == pat@,
            absorb(s0, cmds@, k as nat).px == qx,
            absorb(s0, cmds@, k as nat).py == qy,
        decreases cmds.len() - k,
    {
        match cmds[k] {
            Command::Accelerate(_, v) => {
                if v.0 < -2 || v.0 > 2 || v.1 < -2 || v.1 > 2 {
                    proof {
                        assert(!absorb(s0, cmds@, (k + 1) as nat).ok);
                        if absorb(s0, cmds@, cmds@.len()).ok {
                            lemma_absorb_ok(s0, cmds@, (k + 1) as nat, cmds@.len());
                        }
                    }
                    return None;
                }
                let idx = ((2 - v.0) * 5 + (2 - v.1)) as usize;
                let c = pat[idx];
                if c == i32::MAX {
                    proof {
                        assert(!absorb(s0, cmds@, (k + 1) as nat).ok);
                        if absorb(s0, cmds@, cmds@.len()).ok {
                            lemma_absorb_ok(s0, cmds@, (k + 1) as nat, cmds@.len());
                        }
                    }
                    return None;
                }
                pat.set(idx, c + 1);
                qx = -v.0;
                qy = -v.1;
            },
            _ => {},
        }
        k = k + 1;
    }
    Some((qx, qy))
}

/// Whether the distance of `a` and `b` can be computed (see `dist_fits`).
fn dist_fits_check(a: &Ship, b: &Ship) -> (r: bool)
    ensures
        r == dist_fits(*a, *b),
{
    let dx = a.pos.0 as i64 - b.pos.0 as i64;
    let dy = a.pos.1 as i64 - b.pos.1 as i64;
    if dx <= -0x8000_0000 || dx > 0x7fff_ffff || dy <= -0x8000_0000 || dy > 0x7fff_ffff {
        return false;
    }
    let ax = if dx < 0 { -dx } else { dx };
    let ay = if dy < 0 { -dy } else { dy };
    ax + ay <= 0x7fff_ffff
}

/// The scan for the enemy (see `pick`), from the table `pattern`, with its
/// checks: the ship taken, the count, and the last acceleration, negated;
/// `None` exactly when the scan is not `ok`.
fn scan_checked(ships: &Vec<Ship>, role: i32, my: usize, pattern: &Vec<i32>) -> (r: Option<(
    usize,
    i32,
    i32,
    i32,
)>)
    requires
        0 <= my < ships.len(),
        ships.len() < i32::MAX,
        pattern@.len() == 25,
    ensures
        ({
            let p = pick(ships@, role, my as int, pattern@, ships@.len());
            match r {
                Some(q) => p.seen.ok && q.0 == p.idx && q.1 == p.cnt && q.2 == p.seen.px && q.3
                    == p.seen.py,
                None => !p.seen.ok,
            }
        }),
{
    let ghost pat0 = pattern@;
    let ghost n = ships@.len();
    let mut pat = pattern.clone();
    assert(pat@ == pat0);
    let mut chosen = false;
    let mut idx: usize = 0;
    let mut cnt: i32 = 0;
    let mut px: i32 = 0;
    let mut py: i32 = 0;
    let mut i: usize = 0;
    while i < ships.len()
        invariant
            i <= ships.len(),
            n == ships@.len(),
            0 <= my < ships.len(),
            ships.len() < i32::MAX,
            pat@.len() == 25,
            pat0.len() == 25,
            pat0 == pattern@,
            ({
                let p = pick(ships@, role, my as int, pat0, i as nat);
                &&& p.seen.ok
                &&& chosen == p.chosen
                &&& idx == p.idx
                &&& cnt == p.cnt
                &&& px == p.seen.px
                &&& py == p.seen.py
                &&& pat@ == p.seen.pattern
            }),
            idx < ships.len(),
            0 <= cnt <= i,
        decreases ships.len() - i,
    {
        proof {
            lemma_pick(ships@, role, my as int, pat0, i as nat, i as nat);
        }
        if ships[i].role != role {
            let ghost p = pick(ships@, role, my as int, pat0, i as nat);
            let ghost fits = compared_fits(ships@, p.chosen, p.idx, my as int, i as int);
            let need = chosen && !(ships[idx].status.energy < ships[i].status.energy)
                && ships[idx].status.energy == ships[i].status.energy;
            if need && !(dist_fits_check(&ships[idx], &ships[my]) && dist_fits_check(&ships[i], &ships[my])) {
                proof {
                    assert(!fits);
                    let seen = Seen { pattern: p.seen.pattern, px: p.seen.px, py: p.seen.py, ok: p.seen.ok && fits };
                    if prefer(ships@, p.chosen, p.idx, my as int, i as int) {
                        if absorb(seen, ships@[i as int].commands@, ships@[i as int].commands@.len()).ok {
                            lemma_absorb_ok(seen, ships@[i as int].commands@, 0, ships@[i as int].commands@.len());
                        }
                    }
                    assert(!pick(ships@, role, my as int, pat0, (i + 1) as nat).seen.ok);
                    if pick(ships@, role, my as int, pat0, n).seen.ok {
                        lemma_pick(ships@, role, my as int, pat0, (i + 1) as nat, n);
                    }
                }
                return None;
            }
            let take = !chosen || ships[idx].status.energy < ships[i].status.energy || (
            ships[idx].status.energy == ships[i].status.energy && dist(&ships[idx], &ships[my]) > dist(
                &ships[i],
                &ships[my],
            ));
            proof {
                assert(fits);
            }
            if take {
                assert(Seen { pattern: p.seen.pattern, px: p.seen.px, py: p.seen.py, ok: p.seen.ok && fits }
                    == Seen { pattern: pat@, px: px as int, py: py as int, ok: true });
                match absorb_checked(&mut pat, &ships[i].commands, px, py) {
                    Some((qx, qy)) => {
                        px = qx;
                        py = qy;
                    },
                    None => {
                        proof {
                            assert(!pick(ships@, role, my as int, pat0, (i + 1) as nat).seen.ok);
                            if pick(ships@, role, my as int, pat0, n).seen.ok {
                                lemma_pick(ships@, role, my as int, pat0, (i + 1) as nat, n);
                            }
                        }
                        return None;
                    },
                }
                idx = i;
                chosen = true;
            }
            cnt = cnt + 1;
        }
        i = i + 1;
    }
    Some((idx, cnt, px, py))
}

/// A check that the attacker can play `resp` as a ship of role `my_role`
/// (the demands of `chokud_ai`): when it holds, `chokud_ai` may be called.
/// It asks a little more than needed when the attacker goes after the
/// enemy: that the enemy can drift for as many turns as any search may
/// take.
pub fn can_attack(resp: &Response, my_role: i32, e_data: &EnemyData, orbit: (i32, i32), router: &Router) -> (r: bool)
    ensures
        r ==> {
            &&& resp.state.ships.len() > 0
            &&& resp.state.ships.len() < i32::MAX
            &&& e_data.wf()
            &&& scan(*resp, my_role, e_data.pattern@).seen.ok
            &&& {
                let (m, e) = ships_of(*resp, my_role, e_data.pattern@);
                let p = scan(*resp, my_role, e_data.pattern@);
                &&& lead_fits(e, p.seen.px, p.seen.py)
                &&& going_near(*resp, my_role, *e_data) ==> chase_ready(router.searches(), m)
                    && chase_fits(m, e)
                &&& !going_near(*resp, my_role, *e_data) ==> orbit.0 != i32::MIN && orbit.1
                    != i32::MIN
            }
        },
{
    let ships = &resp.state.ships;
    if ships.len() == 0 || ships.len() >= 0x7fff_ffff || e_data.pattern.len() != 25 {
        return false;
    }
    let my = find_mine(ships, my_role);
    let (ei, cnt, px, py) = match scan_checked(ships, my_role, my, &e_data.pattern) {
        Some(q) => q,
        None => return false,
    };
    proof {
        lemma_pick(ships@, my_role, my as int, e_data.pattern@, ships@.len(), ships@.len());
    }
    let m = &ships[my];
    let e = &ships[ei];
    if e.pos.0 == i32::MIN || e.pos.1 == i32::MIN {
        return false;
    }
    let lo: i64 = -0x8000_0000;
    let hi: i64 = 0x7fff_ffff;
    let nx = e.pos.0 as i64 + e.v.0 as i64;
    let ny = e.pos.1 as i64 + e.v.1 as i64;
    let ax: i64 = if e.pos.0 < 0 { -(e.pos.0 as i64) } else { e.pos.0 as i64 };
    let ay: i64 = if e.pos.1 < 0 { -(e.pos.1 as i64) } else { e.pos.1 as i64 };
    let mut lx = nx;
    let mut ly = ny;
    if ax <= ay {
        if e.pos.1 >= 0 {
            ly = ly - 1;
        } else {
            ly = ly + 1;
        }
    }
    if ay <= ax {
        if e.pos.0 >= 0 {
            lx = lx - 1;
        } else {
            lx = lx + 1;
        }
    }
    assert((lx as int, ly as int) == lead(*e, 0, 0));
    let fx = lx + px as i64;
    let fy = ly + py as i64;
    assert((fx as int, fy as int) == lead(*e, px as int, py as int));
    if nx < lo || nx > hi || ny < lo || ny > hi || lx < lo || lx > hi || ly < lo || ly > hi || fx < lo
        || fx > hi || fy < lo || fy > hi {
        return false;
    }
    let mut near = e_data.go_near;
    if m.heat <= 20 && m.status.energy >= 20 {
        near = true;
    }
    if m.heat as i64 >= m.max_heat as i64 - 50 || m.status.energy <= 20 || (cnt >= 10 && e.status.energy < 5) {
        near = false;
    }
    if near {
        if m.pos.0 == i32::MIN || m.pos.1 == i32::MIN || m.v.0 == i32::MIN || m.v.1 == i32::MIN {
            return false;
        }
        if router.ver() >= u16::MAX - 1 || !movable(m.pos.0, m.pos.1, m.v.0, m.v.1) {
            return false;
        }
        if !drifts_within(e) {
            return false;
        }
        proof {
            lemma_drift_chase(*m, *e);
        }
        true
    } else {
        orbit.0 != i32::MIN && orbit.1 != i32::MIN
    }
}

/// `lead` of the enemy `e`, with its last acceleration `(px, py)`.
fn lead_of(e: &Ship, px: i32, py: i32) -> (r: (i32, i32))
    requires
        lead_fits(*e, px as int, py as int),
    ensures
        (r.0 as int, r.1 as int) == lead(*e, px as int, py as int),
{
    let mut nx = e.pos.0 + e.v.0;
    let mut ny = e.pos.1 + e.v.1;
    if iabs(e.pos.0) <= iabs(e.pos.1) {
        if e.pos.1 >= 0 {
            ny = ny - 1;
        } else {
            ny = ny + 1;
        }
    }
    if iabs(e.pos.1) <= iabs(e.pos.0) {
        if e.pos.0 >= 0 {
            nx = nx - 1;
        } else {
            nx = nx + 1;
        }
    }
    (nx + px, ny + py)
}

/// Whether the line of fire from the ship `m` after the acceleration `add`
/// to `ne` is clear, and whether the ship dodges (see `jitter_wanted`).
fn aim(m: &Ship, e: &Ship, add: (i32, i32), ne: (i32, i32)) -> (r: (bool, bool))
    ensures
        ({
            let (maxlen, minlen) = spread(
                *m,
                (add.0 as int, add.1 as int),
                (ne.0 as int, ne.1 as int),
            );
            r.0 == clear_shot(maxlen, minlen)
        }),
        r.1 == jitter_wanted(*m, *e, (add.0 as int, add.1 as int), (ne.0 as int, ne.1 as int)),
{
    let a = labs(m.pos.0 as i64 + m.v.0 as i64 + add.0 as i64 - ne.0 as i64);
    let b = labs(m.pos.1 as i64 + m.v.1 as i64 + add.1 as i64 - ne.1 as i64);
    let (maxlen, minlen) = if a >= b {
        (a, b)
    } else {
        (b, a)
    };
    let terrible = maxlen * 2 / 10 <= minlen && maxlen * 8 / 10 >= minlen;
    let bad = maxlen * 1 / 10 <= minlen && maxlen * 9 / 10 >= minlen;
    let clear = !bad || (!terrible && minlen + maxlen <= 35);
    let wanted = clear && add.0 == 0 && add.1 == 0 && minlen + maxlen <= 70 && e.max_heat as i64
        - e.heat as i64 >= 30 && e.status.power >= 30 && m.status.energy >= 10;
    (clear, wanted)
}

/// The commands of ship `id` (see `orders`) for the ship `m` and the enemy
/// `e`, the acceleration `add`, the lead point `ne` and the draw `num`.
pub fn place_orders(id: i32, m: &Ship, e: &Ship, add: (i32, i32), ne: (i32, i32), num: i32) -> (r:
    Vec<Command>)
    requires
        add.0 != i32::MIN,
        add.1 != i32::MIN,
        0 <= num < 4,
    ensures
        r@ == orders(
            id,
            *m,
            *e,
            (add.0 as int, add.1 as int),
            (ne.0 as int, ne.1 as int),
            num as int,
        ),
{
    let (clear, wanted) = aim(m, e, add, ne);
    let shoot = m.heat as i64 <= m.max_heat as i64 - 45 && clear;
    let (ax, ay) = if wanted {
        (num / 2 * 2 - 1, num % 2 * 2 - 1)
    } else {
        add
    };
    let mut ret: Vec<Command> = Vec::new();
    if shoot {
        ret.push(Command::Shoot(id, ne, 64));
    }
    if ax != 0 || ay != 0 {
        ret.push(Command::Accelerate(id, (-ax, -ay)));
    }
    proof {
        let o = orders(
            id,
            *m,
            *e,
            (add.0 as int, add.1 as int),
            (ne.0 as int, ne.1 as int),
            num as int,
        );
        assert(ret@ == o);
    }
    ret
}

/// The ship of role `role` in `resp` and the enemy the scan takes.
pub open spec fn ships_of(resp: Response, role: i32, pat: Seq<i32>) -> (Ship, Ship) {
    let ships = resp.state.ships@;
    (ships[mine(ships, role, ships.len())], ships[scan(resp, role, pat).idx])
}

/// Whether the strategy goes after the enemy this turn, from the state `ed`.
pub open spec fn going_near(resp: Response, role: i32, ed: EnemyData) -> bool {
    let (m, e) = ships_of(resp, role, ed.pattern@);
    near_after(ed.go_near, m, e, scan(resp, role, ed.pattern@).cnt)
}

/// The commands of the attacker for the response `resp`, as the ship `id`
/// of role `my_role`. The ship is the last of that role (or the first
/// ship); the enemy is the scan's (see `pick`), whose accelerations are
/// counted in `e_data`. When going after it (see `near_after`) the
/// acceleration is the router's chase, else `orbit`, the acceleration that
/// keeps the ship's orbit. The shot leads the enemy (see `lead`); when the
/// ship dodges, the diagonal is drawn at random.
pub fn chokud_ai(
    resp: &Response,
    id: &i32,
    my_role: &i32,
    e_data: &mut EnemyData,
    orbit: (i32, i32),
    router: &mut Router,
) -> (r: Vec<Command>)
    requires
        resp.state.ships.len() > 0,
        resp.state.ships.len() < i32::MAX,
        old(e_data).wf(),
        scan(*resp, *my_role, old(e_data).pattern@).seen.ok,
        ({
            let (m, e) = ships_of(*resp, *my_role, old(e_data).pattern@);
            let p = scan(*resp, *my_role, old(e_data).pattern@);
            &&& lead_fits(e, p.seen.px, p.seen.py)
            &&& going_near(*resp, *my_role, *old(e_data)) ==> chase_ready(old(router).searches(), m)
                && chase_fits(m, e)
            &&& !going_near(*resp, *my_role, *old(e_data)) ==> orbit.0 != i32::MIN && orbit.1
                != i32::MIN
        }),
    ensures
        final(e_data).wf(),
        final(e_data).pattern@ == scan(*resp, *my_role, old(e_data).pattern@).seen.pattern,
        final(e_data).go_near == going_near(*resp, *my_role, *old(e_data)),
        going_near(*resp, *my_role, *old(e_data)) ==> final(router).searches() == old(
            router,
        ).searches() + 2,
        !going_near(*resp, *my_role, *old(e_data)) ==> *final(router) == *old(router),
        ({
            let (m, e) = ships_of(*resp, *my_role, old(e_data).pattern@);
            let p = scan(*resp, *my_role, old(e_data).pattern@);
            let ne = lead(e, p.seen.px, p.seen.py);
            exists|add: (i32, i32), num: int|
                #![trigger orders(*id, m, e, (add.0 as int, add.1 as int), ne, num)]
                {
                    &&& 0 <= num < 4
                    &&& going_near(*resp, *my_role, *old(e_data)) ==> chase_ok(m, e, add) && add == chase_spec(m, e)
                    &&& !going_near(*resp, *my_role, *old(e_data)) ==> add == orbit
                    &&& r@ == orders(*id, m, e, (add.0 as int, add.1 as int), ne, num)
                }
        }),
{
    let ships = &resp.state.ships;
    let ghost pat = e_data.pattern@;
    let my = find_mine(ships, *my_role);
    proof {
        lemma_pick(ships@, *my_role, my as int, pat, 0, ships@.len());
    }
    let (ei, cnt, px, py) = pick_enemy(ships, *my_role, my, e_data);
    let m = &ships[my];
    let e = &ships[ei];
    let ne = lead_of(e, px, py);
    if m.heat <= 20 && m.status.energy >= 20 {
        e_data.go_near = true;
    }
    if m.heat as i64 >= m.max_heat as i64 - 50 || m.status.energy <= 20 || (cnt >= 10 && e.status.energy < 5) {
        e_data.go_near = false;
    }
    let add = if e_data.go_near {
        let a = router.doit(m, e);
        proof {
            lemma_chase_is_move(*m, *e, a);
        }
        a
    } else {
        orbit
    };
    let (_, wanted) = aim(m, e, add, ne);
    let num = if wanted {
        random_in(0, 4)
    } else {
        0
    };
    let r = place_orders(*id, m, e, add, ne, num);
    proof {
        let ne_s = lead(*e, px as int, py as int);
        assert(ne_s == (ne.0 as int, ne.1 as int));
        assert(r@ == orders(*id, *m, *e, (add.0 as int, add.1 as int), ne_s, num as int));
    }
    r
}


/// The attacker's own ship is the last ship of its role, when it has one.
pub proof fn lemma_mine_is_last(ships: Seq<Ship>, role: i32, n: nat)
    requires
        n <= ships.len(),
    ensures
        (exists|j: int| 0 <= j < n && (#[trigger] ships[j]).role == role) ==> {
            let i = mine(ships, role, n);
            &&& 0 <= i < n
            &&& ships[i].role == role
            &&& forall|j: int| i < j < n ==> (#[trigger] ships[j]).role != role
        },
    decreases n,
{
    if n > 0 {
        lemma_mine_is_last(ships, role, (n - 1) as nat);
        if ships[n - 1].role != role {
            if exists|j: int| 0 <= j < n && (#[trigger] ships[j]).role == role {
                let j = choose|j: int| 0 <= j < n && (#[trigger] ships[j]).role == role;
                assert(j < n - 1);
                assert(exists|j: int| 0 <= j < n - 1 && (#[trigger] ships[j]).role == role);
            }
        }
    }
}

/// The enemy the attacker goes after: a ship of another role, with the
/// most energy among them, and of those with that energy none nearer to
/// the attacker's ship `my`; every ship of another role is counted. Taken
/// whenever there is a ship of another role at all.
pub proof fn lemma_pick_most_energy(ships: Seq<Ship>, role: i32, my: int, pat: Seq<i32>, n: nat)
    requires
        n <= ships.len(),
    ensures
        ({
            let p = pick(ships, role, my, pat, n);
            &&& p.chosen <==> exists|j: int| 0 <= j < n && (#[trigger] ships[j]).role != role
            &&& p.chosen ==> {
                &&& 0 <= p.idx < n
                &&& ships[p.idx].role != role
                &&& forall|j: int|
                    0 <= j < n && (#[trigger] ships[j]).role != role ==> {
                        &&& ships[j].status.energy <= ships[p.idx].status.energy
                        &&& ships[j].status.energy == ships[p.idx].status.energy ==> dist_spec(
                            ships[j],
                            ships[my],
                        ) >= dist_spec(ships[p.idx], ships[my])
                    }
            }
        }),
    decreases n,
{
    if n > 0 {
        lemma_pick_most_energy(ships, role, my, pat, (n - 1) as nat);
        let p = pick(ships, role, my, pat, (n - 1) as nat);
        let i = n - 1;
        if ships[i].role != role {
            assert(exists|j: int| 0 <= j < n && (#[trigger] ships[j]).role != role) by {
                assert(ships[i].role != role);
            }
        } else {
            if exists|j: int| 0 <= j < n && (#[trigger] ships[j]).role != role {
                let j = choose|j: int| 0 <= j < n && (#[trigger] ships[j]).role != role;
                assert(j < n - 1);
                assert(exists|j: int| 0 <= j < n - 1 && (#[trigger] ships[j]).role != role);
            }
        }
    }
}
} // verus!
