//! The defender's turn: keep the ship in a lasting orbit, and split off a
//! spare life when the orbit outlasts the game.
use vstd::prelude::*;
use crate::client::{Command, Params, Response, Ship};
use crate::wata::{
    Preprocess, lemma_next_move_small, SetMinMax, St, W, check_range, check_v, key, lemma_key_range, lost_at,
    next_move, next_move_spec, survival, too_fast,
};

verus! {

/// The scan for the ship to steer among the first `n` ships: the index of
/// the first ship of role `role` with the most lives (when some has any),
/// else 0, and that number of lives (0 when none has any).
pub open spec fn steered(ships: Seq<Ship>, role: i32, n: nat) -> (int, i32)
    decreases n,
{
    if n == 0 {
        (0, 0)
    } else {
        let (i, size) = steered(ships, role, (n - 1) as nat);
        let s = ships[n - 1];
        if s.role == role && size < s.status.life {
            (n - 1, s.status.life)
        } else {
            (i, size)
        }
    }
}

/// The number of living ships of role `role` among the first `n` that
/// stand at `pos`.
pub open spec fn twins(ships: Seq<Ship>, role: i32, pos: (i32, i32), n: nat) -> int
    decreases n,
{
    if n == 0 {
        0
    } else {
        let s = ships[n - 1];
        twins(ships, role, pos, (n - 1) as nat) + if s.role == role && s.status.life > 0 && s.pos
            == pos {
            1int
        } else {
            0int
        }
    }
}

/// The state of a ship.
pub open spec fn state_of(s: Ship) -> St {
    (s.pos.0 as int, s.pos.1 as int, s.v.0 as int, s.v.1 as int)
}

/// Whether the ship splits off a life: it has lives and energy to spare,
/// no other ship shares its place, it flies within the planning square, and
/// falling freely it outlasts the deadline.
pub open spec fn split_due(s: Ship, count: int, tick: int, deadline: int) -> bool {
    &&& s.status.life > 1
    &&& s.status.energy > 1
    &&& count == 1
    &&& !lost_at(s.pos.0 as int, s.pos.1 as int)
    &&& !too_fast(s.v.0 as int, s.v.1 as int)
    &&& survival(state_of(s)) + tick > deadline
}

/// The ship the defender steers in `resp`.
pub open spec fn steered_ship(resp: Response) -> Ship {
    let ships = resp.state.ships@;
    ships[steered(ships, resp.info.role, ships.len()).0]
}

/// The defender's commands for `resp`: the split when it is due, else the
/// thrust of `next_move_spec` (forced when ships share the place), if any.
pub open spec fn defend(resp: Response, dp: Seq<i32>) -> Seq<Command> {
    let ships = resp.state.ships@;
    let s = steered_ship(resp);
    let count = twins(ships, resp.info.role, s.pos, ships.len());
    if split_due(s, count, resp.state.tick as int, resp.info.deadline as int) {
        seq![Command::Split(s.id, Params { energy: 0, power: 0, cool: 0, life: 1 })]
    } else {
        let mv = next_move_spec(
            s.pos.0 as int,
            s.pos.1 as int,
            s.v.0 as int,
            s.v.1 as int,
            count > 1,
            resp.state.tick as int,
            dp,
        );
        if mv != (0int, 0int) {
            seq![Command::Accelerate(s.id, ((-mv.0) as i32, (-mv.1) as i32))]
        } else {
            Seq::empty()
        }
    }
}

proof fn lemma_twins(ships: Seq<Ship>, role: i32, pos: (i32, i32), n: nat)
    ensures
        0 <= twins(ships, role, pos, n) <= n,
    decreases n,
{
    if n > 0 {
        lemma_twins(ships, role, pos, (n - 1) as nat);
    }
}

proof fn lemma_steered(ships: Seq<Ship>, role: i32, n: nat)
    requires
        0 < n <= ships.len(),
    ensures
        0 <= steered(ships, role, n).0 < n,
    decreases n,
{
    if n == 1 {
        assert(steered(ships, role, 0) == (0int, 0i32));
    } else {
        lemma_steered(ships, role, (n - 1) as nat);
    }
}

proof fn lemma_steered_most(ships: Seq<Ship>, role: i32, n: nat)
    requires
        n <= ships.len(),
    ensures
        ({
            let (i, size) = steered(ships, role, n);
            &&& size >= 0
            &&& forall|j: int| 0 <= j < n && (#[trigger] ships[j]).role == role ==> ships[j].status.life <= size
            &&& size > 0 ==> {
                &&& 0 <= i < n
                &&& ships[i].role == role
                &&& ships[i].status.life == size
                &&& forall|j: int| 0 <= j < i && (#[trigger] ships[j]).role == role ==> ships[j].status.life < size
            }
        }),
    decreases n,
{
    if n > 0 {
        lemma_steered_most(ships, role, (n - 1) as nat);
    }
}

/// The defender steers a ship of its own role with the most lives (the
/// first such in the list), and every command it gives addresses that
/// ship: a split or a thrust of it.
pub proof fn lemma_defender_steers_most_lives(resp: Response, dp: Seq<i32>)
    requires
        exists|j: int|
            0 <= j < resp.state.ships.len() && (#[trigger] resp.state.ships@[j]).role == resp.info.role
                && resp.state.ships@[j].status.life > 0,
    ensures
        ({
            let ships = resp.state.ships@;
            let s = steered_ship(resp);
            &&& s.role == resp.info.role
            &&& forall|j: int|
                0 <= j < ships.len() && (#[trigger] ships[j]).role == resp.info.role ==> ships[j].status.life
                    <= s.status.life
            &&& exists|i: int|
                0 <= i < ships.len() && #[trigger] ships[i] == s && forall|j: int|
                    0 <= j < i && (#[trigger] ships[j]).role == resp.info.role ==> ships[j].status.life
                        < s.status.life
            &&& forall|k: int|
                0 <= k < defend(resp, dp).len() ==> match #[trigger] defend(resp, dp)[k] {
                    Command::Split(id, _) => id == s.id,
                    Command::Accelerate(id, _) => id == s.id,
                    _ => false,
                }
        }),
{
    let ships = resp.state.ships@;
    let role = resp.info.role;
    lemma_steered_most(ships, role, ships.len());
    let j = choose|j: int| 0 <= j < ships.len() && (#[trigger] ships[j]).role == role && ships[j].status.life > 0;
    assert(ships[j].role == role);
    let i = steered(ships, role, ships.len()).0;
    assert(ships[i] == steered_ship(resp));
}

/// Whether the defender's turn can be played on `resp` (the demands of
/// `turn_commands` on the response): some ships, fewer than `i32::MAX`, and
/// the steered ship's coordinates, and its velocity when it plans, within
/// what its arithmetic handles.
pub open spec fn defend_ready(resp: Response) -> bool {
    let s = steered_ship(resp);
    &&& resp.state.ships.len() > 0
    &&& resp.state.ships.len() < i32::MAX
    &&& s.pos.0 != i32::MIN
    &&& s.pos.1 != i32::MIN
    &&& !lost_at(s.pos.0 as int, s.pos.1 as int) && resp.state.tick > 20 ==> i32::MIN < s.v.0
        < i32::MAX && i32::MIN < s.v.1 < i32::MAX
}

/// Whether the defender's turn can be played on `resp` (see
/// `defend_ready`).
pub fn can_defend(resp: &Response) -> (r: bool)
    ensures
        r == defend_ready(*resp),
{
    let ships = &resp.state.ships;
    if ships.len() == 0 || ships.len() >= 0x7fff_ffff {
        return false;
    }
    let role = resp.info.role;
    let mut si: usize = 0;
    let mut size: i32 = 0;
    let mut i: usize = 0;
    while i < ships.len()
        invariant
            i <= ships.len(),
            ships.len() > 0,
            (si as int, size) == steered(ships@, role, i as nat),
            si < ships.len(),
        decreases ships.len() - i,
    {
        proof {
            if i > 0 {
                lemma_steered(ships@, role, i as nat);
            }
        }
        if ships[i].role == role && size.setmax(ships[i].status.life) {
            si = i;
        }
        i = i + 1;
    }
    let s = &ships[si];
    if s.pos.0 == i32::MIN || s.pos.1 == i32::MIN {
        return false;
    }
    if !check_range(s.pos.0, s.pos.1) && resp.state.tick > 20 {
        s.v.0 != i32::MIN && s.v.0 != i32::MAX && s.v.1 != i32::MIN && s.v.1 != i32::MAX
    } else {
        true
    }
}

/// The defender's commands for this turn (see `defend`).
pub fn turn_commands(resp: &Response, prep: &Preprocess) -> (r: Vec<Command>)
    requires
        resp.state.ships.len() > 0,
        resp.state.ships.len() < i32::MAX,
        prep.wf(),
        steered_ship(*resp).pos.0 != i32::MIN,
        steered_ship(*resp).pos.1 != i32::MIN,
        ({
            let s = steered_ship(*resp);
            !lost_at(s.pos.0 as int, s.pos.1 as int) && resp.state.tick > 20 ==> i32::MIN < s.v.0
                < i32::MAX && i32::MIN < s.v.1 < i32::MAX
        }),
    ensures
        r@ == defend(*resp, prep.dp@),
{
    let ships = &resp.state.ships;
    let role = resp.info.role;
    let mut si: usize = 0;
    let mut size: i32 = 0;
    let mut i: usize = 0;
    while i < ships.len()
        invariant
            i <= ships.len(),
            ships.len() > 0,
            (si as int, size) == steered(ships@, role, i as nat),
            si < ships.len(),
        decreases ships.len() - i,
    {
        proof {
            if i > 0 {
                lemma_steered(ships@, role, i as nat);
            }
        }
        if ships[i].role == role && size.setmax(ships[i].status.life) {
            si = i;
        }
        i = i + 1;
    }
    let ship = &ships[si];
    let mut count: i32 = 0;
    let mut j: usize = 0;
    while j < ships.len()
        invariant
            j <= ships.len(),
            ships.len() < i32::MAX,
            si < ships.len(),
            ship == ships@[si as int],
            count == twins(ships@, role, ship.pos, j as nat),
        decreases ships.len() - j,
    {
        proof {
            lemma_twins(ships@, role, ship.pos, j as nat);
        }
        let s = &ships[j];
        if s.role == role && s.status.life > 0 && s.pos.0 == ship.pos.0 && s.pos.1 == ship.pos.1 {
            count = count + 1;
        }
        j = j + 1;
    }
    let mut commands: Vec<Command> = Vec::new();
    if ship.status.life > 1 && ship.status.energy > 1 && count == 1 && !check_range(
        ship.pos.0,
        ship.pos.1,
    ) && !check_v(ship.v.0, ship.v.1) {
        let ghost st = state_of(*ship);
        proof {
            lemma_key_range(st);
            assert(prep.dp@[key(st)] == survival(st));
        }
        let k = ((((ship.pos.0 + W) * 201 + (ship.pos.1 + W)) * 21 + (ship.v.0 + 10)) * 21 + (
        ship.v.1 + 10)) as usize;
        assert(k == key(st));
        if prep.dp[k] as i64 + resp.state.tick as i64 > resp.info.deadline as i64 {
            commands.push(
                Command::Split(ship.id, Params { energy: 0, power: 0, cool: 0, life: 1 }),
            );
        }
    }
    if commands.len() == 0 {
        let (dx, dy) = next_move(
            ship.pos.0,
            ship.pos.1,
            ship.v.0,
            ship.v.1,
            count > 1,
            resp.state.tick,
            prep,
        );
        proof {
            lemma_next_move_small(
                ship.pos.0 as int,
                ship.pos.1 as int,
                ship.v.0 as int,
                ship.v.1 as int,
                count > 1,
                resp.state.tick as int,
                prep.dp@,
            );
        }
        if dx != 0 || dy != 0 {
            commands.push(Command::Accelerate(ship.id, (-dx, -dy)));
        }
    }
    commands
}

} // verus!
