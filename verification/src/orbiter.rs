//! A simpler attacker: it keeps circling the planet at a safe distance and
//! fires at where the enemy will be whenever it is cool enough.
use vstd::prelude::*;
use crate::client::{Command, Response, Ship};
use crate::chokudai::{lead, mine, random_in};
use crate::wata::{rescue, rescue_move};

verus! {

/// The index of the last of the first `n` ships whose role is not `role`,
/// or 0.
pub open spec fn theirs(ships: Seq<Ship>, role: i32, n: nat) -> int
    decreases n,
{
    if n == 0 {
        0
    } else if ships[n - 1].role != role {
        n - 1
    } else {
        theirs(ships, role, (n - 1) as nat)
    }
}

/// The ship of role `role` and the enemy it shoots at.
pub open spec fn duel(resp: Response, role: i32) -> (Ship, Ship) {
    let ships = resp.state.ships@;
    (ships[mine(ships, role, ships.len())], ships[theirs(ships, role, ships.len())])
}

/// Whether the arithmetic of the turn stays within `i32` for the ship `m`
/// and the enemy `e`: the enemy's drift, its lead when `follow`, the
/// magnitudes of the coordinates taken, and the heat margin.
pub open spec fn circle_fits(m: Ship, e: Ship, follow: bool) -> bool {
    &&& i32::MIN <= e.pos.0 + e.v.0 <= i32::MAX
    &&& i32::MIN <= e.pos.1 + e.v.1 <= i32::MAX
    &&& follow ==> {
        &&& e.pos.0 != i32::MIN
        &&& e.pos.1 != i32::MIN
        &&& i32::MIN <= lead(e, 0, 0).0 <= i32::MAX
        &&& i32::MIN <= lead(e, 0, 0).1 <= i32::MAX
    }
    &&& m.pos.0 != i32::MIN
    &&& m.pos.1 != i32::MIN
    &&& m.max_heat - 60 >= i32::MIN
}

/// The commands of ship `id` of role `role`: the thrust that keeps it
/// circling (see `rescue`), and a shot of power 64 when its heat is at
/// least 60 under its limit. The shot aims at the enemy's next position,
/// led by the pull of the planet (see `lead`) when `follow`.
pub open spec fn circle_orders(resp: Response, id: i32, role: i32, follow: bool) -> Seq<Command> {
    let ships = resp.state.ships@;
    let m = ships[mine(ships, role, ships.len())];
    let e = ships[theirs(ships, role, ships.len())];
    let ne = if follow {
        lead(e, 0, 0)
    } else {
        (e.pos.0 + e.v.0, e.pos.1 + e.v.1)
    };
    let add = rescue(m.pos.0 as int, m.pos.1 as int, m.v.0 as int, m.v.1 as int);
    let shots = if m.heat <= m.max_heat - 60 {
        seq![Command::Shoot(id, (ne.0 as i32, ne.1 as i32), 64)]
    } else {
        Seq::empty()
    };
    let thrusts = if add != (0int, 0int) {
        seq![Command::Accelerate(id, ((-add.0) as i32, (-add.1) as i32))]
    } else {
        Seq::empty()
    };
    shots + thrusts
}

fn find_theirs(ships: &Vec<Ship>, role: i32) -> (r: (usize, usize))
    requires
        ships.len() > 0,
    ensures
        r.0 == mine(ships@, role, ships@.len()),
        r.1 == theirs(ships@, role, ships@.len()),
        r.0 < ships.len(),
        r.1 < ships.len(),
{
    let mut my: usize = 0;
    let mut en: usize = 0;
    let mut i: usize = 0;
    while i < ships.len()
        invariant
            i <= ships.len(),
            ships.len() > 0,
            my == mine(ships@, role, i as nat),
            en == theirs(ships@, role, i as nat),
            my < ships.len(),
            en < ships.len(),
        decreases ships.len() - i,
    {
        if ships[i].role == role {
            my = i;
        } else {
            en = i;
        }
        i = i + 1;
    }
    (my, en)
}

/// Whether the circling attacker can play `resp` as a ship of role
/// `my_role` (the demands of `chokud_ai`; see `circle_fits`).
pub fn can_circle(resp: &Response, my_role: i32) -> (r: bool)
    ensures
        r == (resp.state.ships.len() > 0 && circle_fits(
            duel(*resp, my_role).0,
            duel(*resp, my_role).1,
            true,
        )),
{
    let ships = &resp.state.ships;
    if ships.len() == 0 {
        return false;
    }
    let (my, en) = find_theirs(ships, my_role);
    let m = &ships[my];
    let e = &ships[en];
    if e.pos.0 == i32::MIN || e.pos.1 == i32::MIN || m.pos.0 == i32::MIN || m.pos.1 == i32::MIN {
        return false;
    }
    let lo: i64 = -0x8000_0000;
    let hi: i64 = 0x7fff_ffff;
    let nx = e.pos.0 as i64 + e.v.0 as i64;
    let ny = e.pos.1 as i64 + e.v.1 as i64;
    if nx < lo || nx > hi || ny < lo || ny > hi {
        return false;
    }
    let ax: i64 = if e.pos.0 < 0 { -(e.pos.0 as i64) } else { e.pos.0 as i64 };
    let ay: i64 = if e.pos.1 < 0 { -(e.pos.1 as i64) } else { e.pos.1 as i64 };
    let mut lx = nx;
    let mut ly = ny;
    if ax <= ay {
        if e.pos.1 >= 0 {
            ly = ly - 1;
        } else {
            ly = ly + 1;
        }
    }
    if ay <= ax {
        if e.pos.0 >= 0 {
            lx = lx - 1;
        } else {
            lx = lx + 1;
        }
    }
    assert((lx as int, ly as int) == lead(*e, 0, 0));
    lo <= lx && lx <= hi && lo <= ly && ly <= hi && m.max_heat as i64 - 60 >= lo
}

/// The commands of `circle_orders`, the lead followed when the turn is
/// before 30 or the draw `coin` is 0.
pub fn circle_with(resp: &Response, id: i32, my_role: i32, coin: i32) -> (r: Vec<Command>)
    requires
        resp.state.ships.len() > 0,
        circle_fits(duel(*resp, my_role).0, duel(*resp, my_role).1, resp.state.tick < 30 || coin == 0),
    ensures
        r@ == circle_orders(*resp, id, my_role, resp.state.tick < 30 || coin == 0),
{
    let ships = &resp.state.ships;
    let (my, en) = find_theirs(ships, my_role);
    let m = &ships[my];
    let e = &ships[en];
    let mut nx = e.pos.0 + e.v.0;
    let mut ny = e.pos.1 + e.v.1;
    if resp.state.tick < 30 || coin == 0 {
        let ax = if e.pos.0 < 0 { -e.pos.0 } else { e.pos.0 };
        let ay = if e.pos.1 < 0 { -e.pos.1 } else { e.pos.1 };
        if ax <= ay {
            if e.pos.1 >= 0 {
                ny = ny - 1;
            } else {
                ny = ny + 1;
            }
        }
        if ay <= ax {
            if e.pos.0 >= 0 {
                nx = nx - 1;
            } else {
                nx = nx + 1;
            }
        }
    }
    let (addx, addy) = rescue_move(m.pos.0, m.pos.1, m.v.0, m.v.1);
    let mut ret: Vec<Command> = Vec::new();
    if m.heat <= m.max_heat - 60 {
        ret.push(Command::Shoot(id, (nx, ny), 64));
    }
    if addx != 0 || addy != 0 {
        ret.push(Command::Accelerate(id, (-addx, -addy)));
    }
    assert(ret@ == circle_orders(*resp, id, my_role, resp.state.tick < 30 || coin == 0));
    ret
}

/// The commands of the circling attacker for `resp`, as ship `id` of role
/// `my_role` (see `circle_orders`): from turn 30 on, a fair draw decides
/// whether the shot is led.
pub fn chokud_ai(resp: &Response, id: &i32, my_role: &i32) -> (r: Vec<Command>)
    requires
        resp.state.ships.len() > 0,
        circle_fits(duel(*resp, *my_role).0, duel(*resp, *my_role).1, true),
    ensures
        resp.state.tick < 30 ==> r@ == circle_orders(*resp, *id, *my_role, true),
        exists|follow: bool| r@ == #[trigger] circle_orders(*resp, *id, *my_role, follow),
{
    let coin = if resp.state.tick < 30 {
        0
    } else {
        random_in(0, 2)
    };
    circle_with(resp, *id, *my_role, coin)
}


/// The circling attacker's target is the last ship of another role, when
/// there is one.
pub proof fn lemma_theirs_is_last(ships: Seq<Ship>, role: i32, n: nat)
    requires
        n <= ships.len(),
    ensures
        (exists|j: int| 0 <= j < n && (#[trigger] ships[j]).role != role) ==> {
            let i = theirs(ships, role, n);
            &&& 0 <= i < n
            &&& ships[i].role != role
            &&& forall|j: int| i < j < n ==> (#[trigger] ships[j]).role == role
        },
    decreases n,
{
    if n > 0 {
        lemma_theirs_is_last(ships, role, (n - 1) as nat);
        if ships[n - 1].role == role {
            if exists|j: int| 0 <= j < n && (#[trigger] ships[j]).role != role {
                let j = choose|j: int| 0 <= j < n && (#[trigger] ships[j]).role != role;
                assert(j < n - 1);
                assert(exists|j: int| 0 <= j < n - 1 && (#[trigger] ships[j]).role != role);
            }
        }
    }
}
} // verus!
