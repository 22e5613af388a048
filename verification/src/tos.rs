//! The test pilots, flown to measure the game's rules: the pull of the
//! planet as they reckon it (towards the centre along the dominant axis,
//! along both on the diagonals and at the centre), and their turns: one
//! hovers and fires at random around itself, one hovers and fires around
//! where the enemy drifts, and one rams the enemy at a chosen offset.
use vstd::prelude::*;
use crate::client::{Command, Response, Ship};
use crate::chokudai::random_in;
use crate::routing::{Router, can_move, movable, next_move_ok, route_spec, start_of};

verus! {

/// One component of the pull: towards zero when `a` dominates `b`
/// (`|a| >= |b|`), `-1` at zero itself, and nothing otherwise.
pub open spec fn pull(a: int, b: int) -> int {
    let aa = if a < 0 { -a } else { a };
    let ab = if b < 0 { -b } else { b };
    if aa >= ab {
        if a < 0 { 1 } else { -1 }
    } else {
        0
    }
}

/// The pull on a ship at `(x, y)`.
pub fn gravity(x: i32, y: i32) -> (r: (i32, i32))
    requires
        x != i32::MIN,
        y != i32::MIN,
    ensures
        r.0 == pull(x as int, y as int),
        r.1 == pull(y as int, x as int),
{
    let ax = if x < 0 { -x } else { x };
    let ay = if y < 0 { -y } else { y };
    (
        if ax >= ay {
            if x < 0 {
                1
            } else {
                -1
            }
        } else {
            0
        },
        if ax <= ay {
            if y < 0 {
                1
            } else {
                -1
            }
        } else {
            0
        },
    )
}

/// Whether `v` lies in the range of `i32`.
pub open spec fn fits_i32(v: int) -> bool {
    i32::MIN <= v <= i32::MAX
}

/// The index of the last of the first `n` ships whose role is (when
/// `same`) or is not (otherwise) `role`, if any.
pub open spec fn last_ship(ships: Seq<Ship>, role: i32, same: bool, n: nat) -> Option<int>
    decreases n,
{
    if n == 0 {
        None
    } else if (ships[n - 1].role == role) == same {
        Some(n - 1)
    } else {
        last_ship(ships, role, same, (n - 1) as nat)
    }
}

/// The index of the first of the first `n` ships whose role is (when
/// `same`) or is not (otherwise) `role`, if any.
pub open spec fn first_ship(ships: Seq<Ship>, role: i32, same: bool, n: nat) -> Option<int>
    decreases n,
{
    if n == 0 {
        None
    } else {
        match first_ship(ships, role, same, (n - 1) as nat) {
            Some(i) => Some(i),
            None => if (ships[n - 1].role == role) == same {
                Some(n - 1)
            } else {
                None
            },
        }
    }
}

proof fn lemma_last_ship(ships: Seq<Ship>, role: i32, same: bool, n: nat)
    requires
        n <= ships.len(),
    ensures
        last_ship(ships, role, same, n) matches Some(i) ==> 0 <= i < n && (ships[i].role == role)
            == same,
    decreases n,
{
    if n > 0 {
        lemma_last_ship(ships, role, same, (n - 1) as nat);
    }
}

proof fn lemma_first_ship(ships: Seq<Ship>, role: i32, same: bool, n: nat)
    requires
        n <= ships.len(),
    ensures
        first_ship(ships, role, same, n) matches Some(i) ==> 0 <= i < n && (ships[i].role == role)
            == same,
    decreases n,
{
    if n > 0 {
        lemma_first_ship(ships, role, same, (n - 1) as nat);
    }
}

fn find_last(ships: &Vec<Ship>, role: i32, same: bool) -> (r: Option<usize>)
    ensures
        match r {
            Some(i) => last_ship(ships@, role, same, ships@.len()) == Some(i as int),
            None => last_ship(ships@, role, same, ships@.len()) is None,
        },
        r matches Some(i) ==> i < ships.len(),
{
    let mut found: Option<usize> = None;
    let mut i: usize = 0;
    while i < ships.len()
        invariant
            i <= ships.len(),
            match found {
                Some(k) => last_ship(ships@, role, same, i as nat) == Some(k as int) && k < i,
                None => last_ship(ships@, role, same, i as nat) is None,
            },
        decreases ships.len() - i,
    {
        if (ships[i].role == role) == same {
            found = Some(i);
        }
        i = i + 1;
    }
    found
}

fn find_first(ships: &Vec<Ship>, role: i32, same: bool) -> (r: Option<usize>)
    ensures
        match r {
            Some(i) => first_ship(ships@, role, same, ships@.len()) == Some(i as int),
            None => first_ship(ships@, role, same, ships@.len()) is None,
        },
        r matches Some(i) ==> i < ships.len(),
{
    let mut i: usize = 0;
    while i < ships.len()
        invariant
            i <= ships.len(),
            first_ship(ships@, role, same, i as nat) is None,
        decreases ships.len() - i,
    {
        if (ships[i].role == role) == same {
            proof {
                assert(first_ship(ships@, role, same, (i + 1) as nat) == Some(i as int));
                lemma_first_settles(ships@, role, same, (i + 1) as nat, ships@.len());
            }
            return Some(i);
        }
        i = i + 1;
    }
    None
}

proof fn lemma_first_settles(ships: Seq<Ship>, role: i32, same: bool, k: nat, n: nat)
    requires
        k <= n,
        first_ship(ships, role, same, k) is Some,
    ensures
        first_ship(ships, role, same, n) == first_ship(ships, role, same, k),
    decreases n,
{
    if n > k {
        lemma_first_settles(ships, role, same, k, (n - 1) as nat);
    }
}

/// Whether the hovering pilot `m` is cool enough to fire: its heat, less
/// what it cools, plus 16, does not pass its limit.
pub open spec fn pilot_fires(m: Ship) -> bool {
    m.heat - m.status.cool + 16 <= m.max_heat
}

/// The hovering pilot's ship in `resp`: the last of the player's role.
pub open spec fn pilot_ship(resp: Response) -> Ship {
    let ships = resp.state.ships@;
    ships[last_ship(ships, resp.info.role, true, ships.len())->0]
}

/// The hovering pilot's commands: a thrust that cancels the pull, and,
/// when it fires, a shot of power `power` at its position moved by
/// `(dx, dy)` (the shot is given as ship 1's).
pub open spec fn pilot_orders(resp: Response, power: i32, dx: int, dy: int) -> Seq<Command> {
    let m = pilot_ship(resp);
    let (x, y) = (m.pos.0 as int, m.pos.1 as int);
    let thrust = Command::Accelerate(m.id, (pull(x, y) as i32, pull(y, x) as i32));
    if pilot_fires(m) {
        seq![thrust, Command::Shoot(1, ((x + dx) as i32, (y + dy) as i32), power)]
    } else {
        seq![thrust]
    }
}

/// The hovering pilot's commands for the offset `(dx, dy)` of its shot
/// (see `pilot_orders`), and whether it fires.
pub fn pilot_commands(resp: &Response, power: i32, dx: i32, dy: i32) -> (r: (Vec<Command>, bool))
    requires
        last_ship(resp.state.ships@, resp.info.role, true, resp.state.ships@.len()) is Some,
        pilot_ship(*resp).pos.0 != i32::MIN,
        pilot_ship(*resp).pos.1 != i32::MIN,
        pilot_fires(pilot_ship(*resp)) ==> fits_i32(pilot_ship(*resp).pos.0 + dx) && fits_i32(
            pilot_ship(*resp).pos.1 + dy,
        ),
    ensures
        r.0@ == pilot_orders(*resp, power, dx as int, dy as int),
        r.1 == pilot_fires(pilot_ship(*resp)),
{
    let ships = &resp.state.ships;
    let i = find_last(ships, resp.info.role, true).unwrap();
    let m = &ships[i];
    let mut commands: Vec<Command> = Vec::new();
    commands.push(Command::Accelerate(m.id, gravity(m.pos.0, m.pos.1)));
    let fires = m.heat as i64 - m.status.cool as i64 + 16 <= m.max_heat as i64;
    if fires {
        commands.push(Command::Shoot(1, (m.pos.0 + dx, m.pos.1 + dy), power));
    }
    (commands, fires)
}

/// Whether the hovering pilot can play `resp` (the demands of
/// `pilot_turn`): it has a ship, off the extremes of `i32`, and when it
/// fires every offset it may draw keeps the shot within `i32`.
pub open spec fn pilot_ready(resp: Response) -> bool {
    &&& last_ship(resp.state.ships@, resp.info.role, true, resp.state.ships@.len()) is Some
    &&& pilot_ship(resp).pos.0 != i32::MIN
    &&& pilot_ship(resp).pos.1 != i32::MIN
    &&& pilot_fires(pilot_ship(resp)) ==> {
        let (x, y) = pilot_ship(resp).pos;
        let role = resp.info.role;
        &&& role + 19 <= i32::MAX
        &&& fits_i32(x + role) && fits_i32(x + role + 19)
        &&& fits_i32(y + role) && fits_i32(y + role + 19)
    }
}

/// Whether `v` lies in the range of `i32`.
fn in_range(v: i64) -> (r: bool)
    ensures
        r == fits_i32(v as int),
{
    -0x8000_0000 <= v && v <= 0x7fff_ffff
}

/// Whether the hovering pilot can play `resp` (see `pilot_ready`).
pub fn can_pilot(resp: &Response) -> (r: bool)
    ensures
        r == pilot_ready(*resp),
{
    let ships = &resp.state.ships;
    let i = match find_last(ships, resp.info.role, true) {
        Some(i) => i,
        None => return false,
    };
    let m = &ships[i];
    if m.pos.0 == i32::MIN || m.pos.1 == i32::MIN {
        return false;
    }
    if m.heat as i64 - m.status.cool as i64 + 16 <= m.max_heat as i64 {
        let role = resp.info.role as i64;
        let (x, y) = (m.pos.0 as i64, m.pos.1 as i64);
        role + 19 <= 0x7fff_ffff && in_range(x + role) && in_range(x + role + 19) && in_range(y + role)
            && in_range(y + role + 19)
    } else {
        true
    }
}

/// The hovering pilot's turn: when it fires, the offset of the shot is
/// drawn at random, each coordinate in `[role, role + 20)`.
pub fn pilot_turn(resp: &Response, power: i32) -> (r: (Vec<Command>, bool))
    requires
        pilot_ready(*resp),
    ensures
        r.1 == pilot_fires(pilot_ship(*resp)),
        exists|dx: int, dy: int|
            {
                &&& resp.info.role <= dx < resp.info.role + 20
                &&& resp.info.role <= dy < resp.info.role + 20
                &&& r.0@ == #[trigger] pilot_orders(*resp, power, dx, dy)
            },
{
    let ships = &resp.state.ships;
    let i = find_last(ships, resp.info.role, true).unwrap();
    let m = &ships[i];
    let role = resp.info.role;
    let (dx, dy) = if m.heat as i64 - m.status.cool as i64 + 16 <= m.max_heat as i64 {
        (random_in(0, 20) + role, random_in(0, 20) + role)
    } else {
        (role, role)
    };
    pilot_commands(resp, power, dx, dy)
}

/// The gunner's ships in `resp`: its own is the last ship of all, whatever
/// its role; the target is the last ship of another role than the
/// player's.
pub open spec fn gunner_ships(resp: Response) -> (Ship, Ship) {
    let ships = resp.state.ships@;
    (ships[ships.len() - 1], ships[last_ship(ships, resp.info.role, false, ships.len())->0])
}

/// The gunner's commands: a thrust that cancels the pull on its ship, and,
/// for the player of role 0, a shot of power `power` at where the target
/// drifts, moved by `(dx, dy)`.
pub open spec fn gunner_orders(resp: Response, power: i32, dx: int, dy: int) -> Seq<Command> {
    let (m, t) = gunner_ships(resp);
    let (x, y) = (m.pos.0 as int, m.pos.1 as int);
    let thrust = Command::Accelerate(m.id, (pull(x, y) as i32, pull(y, x) as i32));
    if resp.info.role == 0 {
        seq![
            thrust,
            Command::Shoot(
                m.id,
                ((t.pos.0 + t.v.0 + dx) as i32, (t.pos.1 + t.v.1 + dy) as i32),
                power,
            ),
        ]
    } else {
        seq![thrust]
    }
}

/// The gunner's commands for the offset `(dx, dy)` of its shot (see
/// `gunner_orders`), and whether it fires.
pub fn gunner_commands(resp: &Response, power: i32, dx: i32, dy: i32) -> (r: (Vec<Command>, bool))
    requires
        last_ship(resp.state.ships@, resp.info.role, false, resp.state.ships@.len()) is Some,
        gunner_ships(*resp).0.pos.0 != i32::MIN,
        gunner_ships(*resp).0.pos.1 != i32::MIN,
        resp.info.role == 0 ==> {
            let t = gunner_ships(*resp).1;
            &&& fits_i32(t.pos.0 + t.v.0) && fits_i32(t.pos.0 + t.v.0 + dx)
            &&& fits_i32(t.pos.1 + t.v.1) && fits_i32(t.pos.1 + t.v.1 + dy)
        },
    ensures
        r.0@ == gunner_orders(*resp, power, dx as int, dy as int),
        r.1 == (resp.info.role == 0),
{
    let ships = &resp.state.ships;
    let ti = find_last(ships, resp.info.role, false).unwrap();
    proof {
        lemma_last_ship(ships@, resp.info.role, false, ships@.len());
    }
    let m = &ships[ships.len() - 1];
    let t = &ships[ti];
    let mut commands: Vec<Command> = Vec::new();
    commands.push(Command::Accelerate(m.id, gravity(m.pos.0, m.pos.1)));
    let fires = resp.info.role == 0;
    if fires {
        let x = t.pos.0 + t.v.0;
        let y = t.pos.1 + t.v.1;
        commands.push(Command::Shoot(m.id, (x + dx, y + dy), power));
    }
    (commands, fires)
}

/// Whether the gunner can play `resp` (the demands of `gunner_turn`): a
/// target, its own ship off the extremes of `i32`, and, for the player of
/// role 0, every aim it may draw within `i32`.
pub open spec fn gunner_ready(resp: Response) -> bool {
    &&& last_ship(resp.state.ships@, resp.info.role, false, resp.state.ships@.len()) is Some
    &&& gunner_ships(resp).0.pos.0 != i32::MIN
    &&& gunner_ships(resp).0.pos.1 != i32::MIN
    &&& resp.info.role == 0 ==> {
        let t = gunner_ships(resp).1;
        &&& fits_i32(t.pos.0 + t.v.0) && t.pos.0 + t.v.0 + 1 <= i32::MAX
        &&& fits_i32(t.pos.1 + t.v.1) && t.pos.1 + t.v.1 + 2 <= i32::MAX
    }
}

/// Whether the gunner can play `resp` (see `gunner_ready`).
pub fn can_gun(resp: &Response) -> (r: bool)
    ensures
        r == gunner_ready(*resp),
{
    let ships = &resp.state.ships;
    let ti = match find_last(ships, resp.info.role, false) {
        Some(i) => i,
        None => return false,
    };
    proof {
        lemma_last_ship(ships@, resp.info.role, false, ships@.len());
    }
    let m = &ships[ships.len() - 1];
    let t = &ships[ti];
    if m.pos.0 == i32::MIN || m.pos.1 == i32::MIN {
        return false;
    }
    if resp.info.role == 0 {
        let x = t.pos.0 as i64 + t.v.0 as i64;
        let y = t.pos.1 as i64 + t.v.1 as i64;
        in_range(x) && x + 1 <= 0x7fff_ffff && in_range(y) && y + 2 <= 0x7fff_ffff
    } else {
        true
    }
}

/// The gunner's turn: when it fires, `dx` is drawn in `[0, 2)` and `dy` in
/// `[dx, dx + 2)`.
pub fn gunner_turn(resp: &Response, power: i32) -> (r: (Vec<Command>, bool))
    requires
        gunner_ready(*resp),
    ensures
        r.1 == (resp.info.role == 0),
        exists|dx: int, dy: int|
            {
                &&& 0 <= dx < 2
                &&& dx <= dy < dx + 2
                &&& r.0@ == #[trigger] gunner_orders(*resp, power, dx, dy)
            },
{
    let (dx, dy) = if resp.info.role == 0 {
        let dx = random_in(0, 2);
        (dx, dx + random_in(0, 2))
    } else {
        (0, 0)
    };
    gunner_commands(resp, power, dx, dy)
}

/// The rammer's ships in `resp`: the first of the player's role and the
/// first of another role.
pub open spec fn ram_ships(resp: Response) -> (Ship, Ship) {
    let ships = resp.state.ships@;
    let role = resp.info.role;
    (
        ships[first_ship(ships, role, true, ships.len())->0],
        ships[first_ship(ships, role, false, ships.len())->0],
    )
}

/// Where the rammer aims and how far that is from where it will be: the
/// enemy's next position (with the pull) less the offset `(dx, dy)`, which
/// the player of role 0 takes as given and the other negates; then that
/// point less the rammer's own next position (with the pull).
pub open spec fn ram_aim(resp: Response, dx: int, dy: int) -> (int, int, int, int) {
    let (m, e) = ram_ships(resp);
    let (ox, oy) = if resp.info.role == 0 {
        (dx, dy)
    } else {
        (-dx, -dy)
    };
    let ex = e.pos.0 + e.v.0 + pull(e.pos.0 as int, e.pos.1 as int) - ox;
    let ey = e.pos.1 + e.v.1 + pull(e.pos.1 as int, e.pos.0 as int) - oy;
    let mx = m.pos.0 + m.v.0 + pull(m.pos.0 as int, m.pos.1 as int);
    let my = m.pos.1 + m.v.1 + pull(m.pos.1 as int, m.pos.0 as int);
    (ex, ey, ex - mx, ey - my)
}

/// Whether the rammer blows up this turn: the aim is within 2 on each
/// axis.
pub open spec fn ram_blasts(resp: Response, dx: int, dy: int) -> bool {
    let (_, _, ax, ay) = ram_aim(resp, dx, dy);
    -2 <= ax <= 2 && -2 <= ay <= 2
}

/// The rammer's commands when it blows up: for the player of role 0, the
/// thrust onto the aim when it is off, then the detonation; nothing for
/// the other.
pub open spec fn ram_blast(resp: Response, dx: int, dy: int) -> Seq<Command> {
    let (m, _) = ram_ships(resp);
    let (_, _, ax, ay) = ram_aim(resp, dx, dy);
    if resp.info.role == 0 {
        let thrust = if ax != 0 || ay != 0 {
            seq![Command::Accelerate(m.id, ((-ax) as i32, (-ay) as i32))]
        } else {
            Seq::empty()
        };
        thrust.push(Command::Detonate(m.id))
    } else {
        Seq::empty()
    }
}

/// Whether the rammer's arithmetic stays within `i32`: the offset can be
/// negated, the pulls can be taken, and each sum of the aim fits.
pub open spec fn ram_fits(resp: Response, dx: int, dy: int) -> bool {
    let (m, e) = ram_ships(resp);
    let (ex, ey, ax, ay) = ram_aim(resp, dx, dy);
    &&& resp.info.role != 0 ==> dx != i32::MIN && dy != i32::MIN
    &&& m.pos.0 != i32::MIN && m.pos.1 != i32::MIN
    &&& e.pos.0 != i32::MIN && e.pos.1 != i32::MIN
    &&& fits_i32(e.pos.0 + e.v.0) && fits_i32(e.pos.0 + e.v.0 + pull(e.pos.0 as int, e.pos.1 as int))
    &&& fits_i32(e.pos.1 + e.v.1) && fits_i32(e.pos.1 + e.v.1 + pull(e.pos.1 as int, e.pos.0 as int))
    &&& fits_i32(m.pos.0 + m.v.0) && fits_i32(m.pos.0 + m.v.0 + pull(m.pos.0 as int, m.pos.1 as int))
    &&& fits_i32(m.pos.1 + m.v.1) && fits_i32(m.pos.1 + m.v.1 + pull(m.pos.1 as int, m.pos.0 as int))
    &&& fits_i32(ex) && fits_i32(ey) && fits_i32(ax) && fits_i32(ay)
}

/// Whether the rammer can play `resp` at the offset `(dx, dy)` with a
/// router that has made `searches` searches (the demands of
/// `ram_offset_turn`): both ships, the aim within `i32` (see `ram_fits`),
/// and, when it does not blow up, a search that can start.
pub open spec fn ram_ready(searches: u16, resp: Response, dx: int, dy: int) -> bool {
    &&& first_ship(resp.state.ships@, resp.info.role, true, resp.state.ships@.len()) is Some
    &&& first_ship(resp.state.ships@, resp.info.role, false, resp.state.ships@.len()) is Some
    &&& ram_fits(resp, dx, dy)
    &&& !ram_blasts(resp, dx, dy) ==> {
        let m = ram_ships(resp).0;
        &&& m.v.0 != i32::MIN && m.v.1 != i32::MIN
        &&& searches < u16::MAX
        &&& can_move(start_of(m.pos.0 as int, m.pos.1 as int, m.v.0 as int, m.v.1 as int))
    }
}

/// Whether the rammer can play `resp` at the offset `(dx, dy)` with the
/// router `router` (see `ram_ready`).
pub fn can_ram_offset(router: &Router, resp: &Response, dx: i32, dy: i32) -> (r: bool)
    ensures
        r == ram_ready(router.searches(), *resp, dx as int, dy as int),
{
    let ships = &resp.state.ships;
    let role = resp.info.role;
    let mi = match find_first(ships, role, true) {
        Some(i) => i,
        None => return false,
    };
    let ei = match find_first(ships, role, false) {
        Some(i) => i,
        None => return false,
    };
    proof {
        lemma_first_ship(ships@, role, true, ships@.len());
        lemma_first_ship(ships@, role, false, ships@.len());
    }
    let m = &ships[mi];
    let e = &ships[ei];
    if role != 0 && (dx == i32::MIN || dy == i32::MIN) {
        return false;
    }
    if m.pos.0 == i32::MIN || m.pos.1 == i32::MIN || e.pos.0 == i32::MIN || e.pos.1 == i32::MIN {
        return false;
    }
    let (ox, oy): (i64, i64) = if role == 0 {
        (dx as i64, dy as i64)
    } else {
        (-(dx as i64), -(dy as i64))
    };
    let (egx, egy) = gravity(e.pos.0, e.pos.1);
    let (mgx, mgy) = gravity(m.pos.0, m.pos.1);
    let e1x = e.pos.0 as i64 + e.v.0 as i64;
    let e1y = e.pos.1 as i64 + e.v.1 as i64;
    let m1x = m.pos.0 as i64 + m.v.0 as i64;
    let m1y = m.pos.1 as i64 + m.v.1 as i64;
    let e2x = e1x + egx as i64;
    let e2y = e1y + egy as i64;
    let mx = m1x + mgx as i64;
    let my = m1y + mgy as i64;
    let ex = e2x - ox;
    let ey = e2y - oy;
    let ax = ex - mx;
    let ay = ey - my;
    let fits = in_range(e1x) && in_range(e2x) && in_range(e1y) && in_range(e2y) && in_range(m1x)
        && in_range(mx) && in_range(m1y) && in_range(my) && in_range(ex) && in_range(ey) && in_range(
        ax,
    ) && in_range(ay);
    assert((ex as int, ey as int, ax as int, ay as int) == ram_aim(*resp, dx as int, dy as int));
    if !fits {
        return false;
    }
    if -2 <= ax && ax <= 2 && -2 <= ay && ay <= 2 {
        return true;
    }
    m.v.0 != i32::MIN && m.v.1 != i32::MIN && router.ver() < u16::MAX && movable(
        m.pos.0,
        m.pos.1,
        m.v.0,
        m.v.1,
    )
}

/// The rammer's turn against the enemy at the offset `(dx, dy)`: it blows
/// up when close (see `ram_blast`); otherwise it thrusts along the search
/// towards the aim. Also says whether it blew up.
pub fn ram_offset_turn(router: &mut Router, resp: &Response, dx: i32, dy: i32) -> (r: (
    Vec<Command>,
    bool,
))
    requires
        ram_ready(old(router).searches(), *resp, dx as int, dy as int),
    ensures
        r.1 == ram_blasts(*resp, dx as int, dy as int),
        r.1 ==> r.0@ == ram_blast(*resp, dx as int, dy as int) && *final(router) == *old(router),
        !r.1 ==> {
            let m = ram_ships(*resp).0;
            let (ex, ey, _, _) = ram_aim(*resp, dx as int, dy as int);
            &&& final(router).searches() == old(router).searches() + 1
            &&& exists|dv: (i32, i32), n: i32|
                #[trigger] next_move_ok(
                    start_of(m.pos.0 as int, m.pos.1 as int, m.v.0 as int, m.v.1 as int),
                    ex,
                    ey,
                    (dv, n),
                ) && r.0@ == seq![Command::Accelerate(m.id, ((-dv.0) as i32, (-dv.1) as i32))]
            &&& {
                let dv = route_spec(start_of(m.pos.0 as int, m.pos.1 as int, m.v.0 as int, m.v.1 as int), ex, ey).0;
                r.0@ == seq![Command::Accelerate(m.id, ((-dv.0) as i32, (-dv.1) as i32))]
            }
        },
{
    let ships = &resp.state.ships;
    let role = resp.info.role;
    let mi = find_first(ships, role, true).unwrap();
    let ei = find_first(ships, role, false).unwrap();
    proof {
        lemma_first_ship(ships@, role, true, ships@.len());
        lemma_first_ship(ships@, role, false, ships@.len());
    }
    let m = &ships[mi];
    let e = &ships[ei];
    let (ox, oy) = if role == 0 {
        (dx, dy)
    } else {
        (-dx, -dy)
    };
    let (egx, egy) = gravity(e.pos.0, e.pos.1);
    let ex = e.pos.0 + e.v.0 + egx - ox;
    let ey = e.pos.1 + e.v.1 + egy - oy;
    let (mgx, mgy) = gravity(m.pos.0, m.pos.1);
    let mx = m.pos.0 + m.v.0 + mgx;
    let my = m.pos.1 + m.v.1 + mgy;
    let ax = ex - mx;
    let ay = ey - my;
    let blast = -2 <= ax && ax <= 2 && -2 <= ay && ay <= 2;
    let mut commands: Vec<Command> = Vec::new();
    if blast {
        if role == 0 {
            if ax != 0 || ay != 0 {
                commands.push(Command::Accelerate(m.id, (-ax, -ay)));
            }
            commands.push(Command::Detonate(m.id));
        }
        assert(commands@ == ram_blast(*resp, dx as int, dy as int));
    } else {
        let ((dvx, dvy), n) = router.get_next_move(m.pos.0, m.pos.1, m.v.0, m.v.1, ex, ey);
        commands.push(Command::Accelerate(m.id, (-dvx, -dvy)));
        assert(commands@ == seq![Command::Accelerate(m.id, ((-dvx) as i32, (-dvy) as i32))]);
    }
    (commands, blast)
}

/// The cost of the last thrust among the first `n` commands: eight times
/// its greater component in magnitude, or 0 when there is none.
pub open spec fn thrust_cost(cmds: Seq<Command>, n: nat) -> int
    decreases n,
{
    if n == 0 {
        0
    } else {
        match cmds[n - 1] {
            Command::Accelerate(_, v) => {
                let a = if v.0 < 0 { -v.0 } else { v.0 as int };
                let b = if v.1 < 0 { -v.1 } else { v.1 as int };
                (if a >= b { a } else { b }) * 8
            },
            _ => thrust_cost(cmds, (n - 1) as nat),
        }
    }
}

/// The energy the last thrust among `cmds` consumed (see `thrust_cost`).
pub fn consumed_energy(cmds: &Vec<Command>) -> (r: i32)
    requires
        forall|k: int|
            0 <= k < cmds.len() ==> (#[trigger] cmds@[k] matches Command::Accelerate(_, v) ==> {
                &&& -0x1000_0000 < v.0 < 0x1000_0000
                &&& -0x1000_0000 < v.1 < 0x1000_0000
            }),
    ensures
        r == thrust_cost(cmds@, cmds@.len()),
{
    let mut consumed: i32 = 0;
    let mut k: usize = 0;
    while k < cmds.len()
        invariant
            k <= cmds.len(),
            consumed == thrust_cost(cmds@, k as nat),
            forall|j: int|
                0 <= j < cmds.len() ==> (#[trigger] cmds@[j] matches Command::Accelerate(_, v) ==> {
                    &&& -0x1000_0000 < v.0 < 0x1000_0000
                    &&& -0x1000_0000 < v.1 < 0x1000_0000
                }),
        decreases cmds.len() - k,
    {
        match &cmds[k] {
            Command::Accelerate(_, v) => {
                let a = if v.0 < 0 { -v.0 } else { v.0 };
                let b = if v.1 < 0 { -v.1 } else { v.1 };
                consumed = (if a >= b { a } else { b }) * 8;
            },
            _ => {},
        }
        k = k + 1;
    }
    consumed
}


/// The ships the test pilots take: `last_ship` finds the last ship whose
/// role is (or, with `same` false, is not) `role`, and `first_ship` the
/// first; both find one exactly when there is one.
pub proof fn lemma_first_last_ship(ships: Seq<Ship>, role: i32, same: bool, n: nat)
    requires
        n <= ships.len(),
    ensures
        last_ship(ships, role, same, n) is Some <==> exists|j: int|
            0 <= j < n && ((#[trigger] ships[j]).role == role) == same,
        first_ship(ships, role, same, n) is Some <==> exists|j: int|
            0 <= j < n && ((#[trigger] ships[j]).role == role) == same,
        last_ship(ships, role, same, n) matches Some(i) ==> {
            &&& 0 <= i < n
            &&& (ships[i].role == role) == same
            &&& forall|j: int| i < j < n ==> ((#[trigger] ships[j]).role == role) != same
        },
        first_ship(ships, role, same, n) matches Some(i) ==> {
            &&& 0 <= i < n
            &&& (ships[i].role == role) == same
            &&& forall|j: int| 0 <= j < i ==> ((#[trigger] ships[j]).role == role) != same
        },
    decreases n,
{
    if n > 0 {
        lemma_first_last_ship(ships, role, same, (n - 1) as nat);
        if exists|j: int| 0 <= j < n && ((#[trigger] ships[j]).role == role) == same {
            let j = choose|j: int| 0 <= j < n && ((#[trigger] ships[j]).role == role) == same;
            if j < n - 1 {
                assert(exists|j: int| 0 <= j < n - 1 && ((#[trigger] ships[j]).role == role) == same);
            }
        }
        if exists|j: int| 0 <= j < n - 1 && ((#[trigger] ships[j]).role == role) == same {
            let j = choose|j: int| 0 <= j < n - 1 && ((#[trigger] ships[j]).role == role) == same;
            assert(0 <= j < n && ((ships[j]).role == role) == same);
        }
        if ((ships[n - 1]).role == role) == same {
            assert(0 <= n - 1 < n && ((ships[n - 1]).role == role) == same);
        }
    }
}
} // verus!
