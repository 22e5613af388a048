//! The rammer: it chases the enemy with the router and detonates when both
//! ships will stand on the same spot next turn.
use vstd::prelude::*;
use crate::client::{Command, Response, Ship};
use crate::routing::{PosVel, Router, chase_fits, chase_ok, chase_ready, chase_spec, drifts_within, fits_move, lemma_chase_is_move, lemma_drift_chase, movable, move_fits};

verus! {

/// The index of the first of the first `n` ships with id `id`, if any.
pub open spec fn first_with_id(ships: Seq<Ship>, id: i32, n: nat) -> Option<int>
    decreases n,
{
    if n == 0 {
        None
    } else {
        match first_with_id(ships, id, (n - 1) as nat) {
            Some(i) => Some(i),
            None => if ships[n - 1].id == id {
                Some(n - 1)
            } else {
                None
            },
        }
    }
}

proof fn lemma_first_with_id(ships: Seq<Ship>, id: i32, n: nat)
    requires
        n <= ships.len(),
    ensures
        first_with_id(ships, id, n) matches Some(i) ==> 0 <= i < n && ships[i].id == id,
        first_with_id(ships, id, n) is None ==> forall|k: int| 0 <= k < n ==> ships[k].id != id,
    decreases n,
{
    if n > 0 {
        lemma_first_with_id(ships, id, (n - 1) as nat);
    }
}

/// The ship with id `id` in `resp`: the first one, when several have it.
pub fn get_ship(resp: &Response, id: i32) -> (r: &Ship)
    requires
        first_with_id(resp.state.ships@, id, resp.state.ships@.len()) is Some,
    ensures
        *r == resp.state.ships@[first_with_id(resp.state.ships@, id, resp.state.ships@.len())->0],
{
    let ships = &resp.state.ships;
    let mut i: usize = 0;
    while i < ships.len()
        invariant
            i <= ships.len(),
            ships@ == resp.state.ships@,
            first_with_id(ships@, id, i as nat) is None,
            first_with_id(ships@, id, ships@.len()) is Some,
        decreases ships.len() - i,
    {
        if ships[i].id == id {
            assert(first_with_id(ships@, id, (i + 1) as nat) == Some(i as int));
            proof {
                lemma_first_with_id_from(ships@, id, (i + 1) as nat, ships@.len());
            }
            let r = &ships[i];
            return r;
        }
        i = i + 1;
    }
    proof {
        assert(first_with_id(ships@, id, i as nat) is None);
    }
    &ships[0]
}

proof fn lemma_first_with_id_from(ships: Seq<Ship>, id: i32, k: nat, n: nat)
    requires
        k <= n <= ships.len(),
        first_with_id(ships, id, k) is Some,
    ensures
        first_with_id(ships, id, n) == first_with_id(ships, id, k),
    decreases n,
{
    if n > k {
        lemma_first_with_id_from(ships, id, k, (n - 1) as nat);
    }
}

/// Where the ship will be next turn if nothing pulls or pushes it.
pub fn get_next_pos(ship: &Ship) -> (r: (i32, i32))
    requires
        i32::MIN <= ship.pos.0 + ship.v.0 <= i32::MAX,
        i32::MIN <= ship.pos.1 + ship.v.1 <= i32::MAX,
    ensures
        r == ((ship.pos.0 + ship.v.0) as i32, (ship.pos.1 + ship.v.1) as i32),
{
    (ship.pos.0 + ship.v.0, ship.pos.1 + ship.v.1)
}

/// The position and velocity of a ship.
pub open spec fn posvel(s: Ship) -> PosVel {
    PosVel { x: s.pos.0, y: s.pos.1, vx: s.v.0, vy: s.v.1 }
}

/// The rammer's commands as ship `my_id` after the chase acceleration `dv`:
/// the thrust, and the detonation when it will stand where the enemy,
/// drifting, will stand.
pub open spec fn ram_orders(my_id: i32, my: Ship, en: Ship, dv: (i32, i32)) -> Seq<Command> {
    let me = posvel(my).next(dv.0 as int, dv.1 as int);
    let them = posvel(en).next(0, 0);
    let thrust = seq![Command::Accelerate(my_id, ((-dv.0) as i32, (-dv.1) as i32))];
    if me.x == them.x && me.y == them.y {
        thrust.push(Command::Detonate(my_id))
    } else {
        thrust
    }
}

/// Whether the rammer can play `resp` as ship `my_id` against ship `en_id`
/// with a router that has made `searches` searches (the demands of
/// `ram_turn`): both ships, a chase that can start and be computed, and
/// next turn's positions within `i32`.
pub open spec fn ram_turn_ready(searches: u16, resp: Response, my_id: i32, en_id: i32) -> bool {
    let ships = resp.state.ships@;
    &&& first_with_id(ships, my_id, ships.len()) is Some
    &&& first_with_id(ships, en_id, ships.len()) is Some
    &&& {
        let my = ships[first_with_id(ships, my_id, ships.len())->0];
        let en = ships[first_with_id(ships, en_id, ships.len())->0];
        &&& chase_ready(searches, my)
        &&& chase_fits(my, en)
        &&& move_fits(posvel(en), 0, 0)
        &&& forall|dv: (i32, i32)| #[trigger] chase_ok(my, en, dv) ==> move_fits(posvel(my), dv.0 as int, dv.1 as int)
    }
}

/// The index of the first ship with id `id`, if any.
fn find_id(resp: &Response, id: i32) -> (r: Option<usize>)
    ensures
        match r {
            Some(i) => first_with_id(resp.state.ships@, id, resp.state.ships@.len()) == Some(i as int) && i < resp.state.ships@.len(),
            None => first_with_id(resp.state.ships@, id, resp.state.ships@.len()) is None,
        },
{
    let ships = &resp.state.ships;
    let mut i: usize = 0;
    while i < ships.len()
        invariant
            i <= ships.len(),
            ships@ == resp.state.ships@,
            first_with_id(ships@, id, i as nat) is None,
        decreases ships.len() - i,
    {
        if ships[i].id == id {
            assert(first_with_id(ships@, id, (i + 1) as nat) == Some(i as int));
            proof {
                lemma_first_with_id_from(ships@, id, (i + 1) as nat, ships@.len());
            }
            return Some(i);
        }
        i = i + 1;
    }
    None
}

/// A check that the rammer can play (see `ram_turn_ready`): when it holds,
/// `ram_turn` may be called. It asks a little more than needed: that the
/// enemy can drift for as many turns as any search may take, and that its
/// own ship can take every acceleration the search tries.
pub fn can_ram(router: &Router, resp: &Response, my_id: i32, en_id: i32) -> (r: bool)
    ensures
        r ==> ram_turn_ready(router.searches(), *resp, my_id, en_id),
{
    let mi = match find_id(resp, my_id) {
        Some(i) => i,
        None => return false,
    };
    let ei = match find_id(resp, en_id) {
        Some(i) => i,
        None => return false,
    };
    let my = &resp.state.ships[mi];
    let en = &resp.state.ships[ei];
    if my.pos.0 == i32::MIN || my.pos.1 == i32::MIN || my.v.0 == i32::MIN || my.v.1 == i32::MIN {
        return false;
    }
    if router.ver() >= u16::MAX - 1 || !movable(my.pos.0, my.pos.1, my.v.0, my.v.1) {
        return false;
    }
    if !drifts_within(en) {
        return false;
    }
    proof {
        lemma_drift_chase(*my, *en);
    }
    let ep = PosVel::from(en);
    if !fits_move(&ep, 0, 0) {
        return false;
    }
    let mp = PosVel::from(my);
    let mut dvx: i32 = -2;
    while dvx < 2
        invariant
            -2 <= dvx <= 2,
            mp == posvel(*my),
            forall|a: int, b: int| -2 <= a < dvx && -2 <= b < 2 ==> #[trigger] move_fits(mp, a, b),
        decreases 2 - dvx,
    {
        let mut dvy: i32 = -2;
        while dvy < 2
            invariant
                -2 <= dvx < 2,
                -2 <= dvy <= 2,
                mp == posvel(*my),
                forall|a: int, b: int|
                    (-2 <= a < dvx && -2 <= b < 2) || (a == dvx && -2 <= b < dvy) ==> #[trigger] move_fits(mp, a, b),
            decreases 2 - dvy,
        {
            if !fits_move(&mp, dvx, dvy) {
                return false;
            }
            dvy = dvy + 1;
        }
        dvx = dvx + 1;
    }
    proof {
        assert forall|dv: (i32, i32)| #[trigger] chase_ok(*my, *en, dv) implies move_fits(posvel(*my), dv.0 as int, dv.1 as int) by {
            lemma_chase_is_move(*my, *en, dv);
        }
    }
    true
}

/// The rammer's commands for `resp`, as ship `my_id` against ship `en_id`
/// (see `ram_orders`), the acceleration being the router's chase.
#[verifier::spinoff_prover]
#[verifier::rlimit(40)]
pub fn ram_turn(router: &mut Router, resp: &Response, my_id: i32, en_id: i32) -> (r: Vec<Command>)
    requires
        ram_turn_ready(old(router).searches(), *resp, my_id, en_id),
    ensures
        final(router).searches() == old(router).searches() + 2,
        ({
            let ships = resp.state.ships@;
            let my = ships[first_with_id(ships, my_id, ships.len())->0];
            let en = ships[first_with_id(ships, en_id, ships.len())->0];
            &&& exists|dv: (i32, i32)| #[trigger] chase_ok(my, en, dv) && r@ == ram_orders(my_id, my, en, dv)
            &&& r@ == ram_orders(my_id, my, en, chase_spec(my, en))
        }),
{
    let ghost ships = resp.state.ships@;
    let ghost my = ships[first_with_id(ships, my_id, ships.len())->0];
    let ghost en = ships[first_with_id(ships, en_id, ships.len())->0];
    let my_ship = get_ship(resp, my_id);
    let en_ship = get_ship(resp, en_id);
    assert(*my_ship == my && *en_ship == en);
    let (dvx, dvy) = router.doit(my_ship, en_ship);
    proof {
        lemma_chase_is_move(*my_ship, *en_ship, (dvx, dvy));
    }
    let mut commands: Vec<Command> = Vec::new();
    commands.push(Command::Accelerate(my_id, (-dvx, -dvy)));
    let myp = PosVel::from(my_ship).apply_gravity().accelerate_and_move(dvx, dvy);
    let enp = PosVel::from(en_ship).apply_gravity().accelerate_and_move(0, 0);
    if myp.x == enp.x && myp.y == enp.y {
        commands.push(Command::Detonate(my_id));
    }
    assert(commands@ == ram_orders(my_id, *my_ship, *en_ship, (dvx, dvy)));
    commands
}

} // verus!
