//! The game protocol: the messages a player sends (join, start, commands)
//! and the reading of the server's responses into game states.
use std::ops::Range;
use std::rc::Rc;
use vstd::prelude::*;
use crate::parser::{E, Etc, Term, get_list, list_of, unrc_seq, is_ws, lisp_spec, parse_lisp, regular_term, regularize_etc, lemma_no_shared_closed};
use crate::eval::{EvalError, Evaluator, big_step};
use crate::modulation::{mod_bits, modulate, demod_spec, demodulate};
use crate::text::{push_int, push_str, int_text, str_eq, string_push};

verus! {

/// A response of the server.
#[derive(Debug)]
pub struct Response {
    pub stage: i32,
    pub info: Info,
    pub state: State,
}

/// What the server tells of the game and the player.
#[derive(Debug)]
pub struct Info {
    pub deadline: i32,
    pub role: i32,
    pub ability: Ability,
    pub range: Range<i32>,
    pub opponent_params: Params,
}

/// The player's budget and limits.
#[derive(Clone, Copy, PartialEq, Eq, Structural, Debug)]
pub struct Ability {
    pub potential: i32,
    pub max_accelarate: i32,
    pub max_heat: i32,
}

/// The state of the game at a tick.
#[derive(Debug)]
pub struct State {
    pub tick: i32,
    /// The range of the absolute values of the coordinates a ship may be at.
    pub range: Range<i32>,
    pub ships: Vec<Ship>,
}

/// A ship, with the commands it carried out last.
#[derive(Debug)]
pub struct Ship {
    pub role: i32,
    pub id: i32,
    pub pos: (i32, i32),
    pub v: (i32, i32),
    pub status: Params,
    pub heat: i32,
    pub max_heat: i32,
    pub max_accelarate: i32,
    pub commands: Vec<Command>,
}

/// Whether two ships are alike in every field, commands included.
pub open spec fn same_ship(a: Ship, b: Ship) -> bool {
    &&& a.role == b.role
    &&& a.id == b.id
    &&& a.pos == b.pos
    &&& a.v == b.v
    &&& a.status == b.status
    &&& a.heat == b.heat
    &&& a.max_heat == b.max_heat
    &&& a.max_accelarate == b.max_accelarate
    &&& a.commands@ == b.commands@
}

/// Whether two infos are alike in every field.
pub open spec fn same_info(a: Info, b: Info) -> bool {
    &&& a.deadline == b.deadline
    &&& a.role == b.role
    &&& a.ability == b.ability
    &&& a.range.start == b.range.start
    &&& a.range.end == b.range.end
    &&& a.opponent_params == b.opponent_params
}

/// Whether two states are alike: tick, range, and ship by ship.
pub open spec fn same_state(a: State, b: State) -> bool {
    &&& a.tick == b.tick
    &&& a.range.start == b.range.start
    &&& a.range.end == b.range.end
    &&& a.ships@.len() == b.ships@.len()
    &&& forall|i: int| 0 <= i < a.ships@.len() ==> same_ship(#[trigger] a.ships@[i], b.ships@[i])
}

impl Clone for Info {
    fn clone(&self) -> (r: Self)
        ensures
            same_info(r, *self),
    {
        Info {
            deadline: self.deadline,
            role: self.role,
            ability: self.ability,
            range: Range { start: self.range.start, end: self.range.end },
            opponent_params: self.opponent_params,
        }
    }
}

impl Clone for State {
    fn clone(&self) -> (r: Self)
        ensures
            same_state(r, *self),
    {
        let mut ships: Vec<Ship> = Vec::new();
        let mut i: usize = 0;
        while i < self.ships.len()
            invariant
                i <= self.ships.len(),
                ships@.len() == i,
                forall|k: int| 0 <= k < i ==> same_ship(#[trigger] ships@[k], self.ships@[k]),
            decreases self.ships.len() - i,
        {
            ships.push(self.ships[i].clone());
            i = i + 1;
        }
        State { tick: self.tick, range: Range { start: self.range.start, end: self.range.end }, ships }
    }
}

impl Clone for Response {
    fn clone(&self) -> (r: Self)
        ensures
            r.stage == self.stage,
            same_info(r.info, self.info),
            same_state(r.state, self.state),
    {
        Response { stage: self.stage, info: self.info.clone(), state: self.state.clone() }
    }
}

impl Clone for Ship {
    fn clone(&self) -> (r: Self)
        ensures
            same_ship(r, *self),
    {
        let mut commands: Vec<Command> = Vec::new();
        let mut i: usize = 0;
        while i < self.commands.len()
            invariant
                i <= self.commands.len(),
                commands@ == self.commands@.take(i as int),
            decreases self.commands.len() - i,
        {
            commands.push(self.commands[i]);
            assert(self.commands@.take(i + 1) == self.commands@.take(i as int).push(self.commands@[i as int]));
            i = i + 1;
        }
        assert(self.commands@.take(self.commands.len() as int) == self.commands@);
        Ship {
            role: self.role,
            id: self.id,
            pos: self.pos,
            v: self.v,
            status: self.status,
            heat: self.heat,
            max_heat: self.max_heat,
            max_accelarate: self.max_accelarate,
            commands,
        }
    }
}

/// A command to a ship.
#[derive(Clone, Copy, PartialEq, Eq, Debug)]
pub enum Command {
    Accelerate(i32, (i32, i32)),
    Detonate(i32),
    Shoot(i32, (i32, i32), i32),
    Split(i32, Params),
    Unknown,
}

/// A ship's energy, power, cooling and lives.
#[derive(Clone, Copy, PartialEq, Eq, Structural, Debug)]
pub struct Params {
    pub energy: i32,
    pub power: i32,
    pub cool: i32,
    pub life: i32,
}

/// The number `e` holds, cut to `i32` as `as` cuts it.
pub open spec fn num_of(e: E) -> Option<i32> {
    match e {
        E::Num(n) => Some(n as i32),
        _ => None,
    }
}

/// The point `<x, y>` that `e` holds.
pub open spec fn pair_of(e: E) -> Option<(i32, i32)> {
    match e {
        E::Pair(a, b) => match (num_of(*a), num_of(*b)) {
            (Some(x), Some(y)) => Some((x, y)),
            _ => None,
        },
        _ => None,
    }
}

/// The numbers of a list, when every item is one.
pub open spec fn nums_of(items: Seq<E>) -> Option<Seq<i32>> {
    if forall|i: int| 0 <= i < items.len() ==> (#[trigger] num_of(items[i])) is Some {
        Some(items.map_values(|x: E| num_of(x).unwrap()))
    } else {
        None
    }
}

/// The numbers of the list `e`.
pub open spec fn num_list(e: E) -> Option<Seq<i32>> {
    match list_of(e) {
        Some(items) => nums_of(items),
        None => None,
    }
}

pub open spec fn params_of(v: Seq<i32>) -> Params {
    Params { energy: v[0], power: v[1], cool: v[2], life: v[3] }
}

/// The command that `e` describes: `[0, <x, y>]` accelerate, `[1]`
/// detonate, `[2, <x, y>, power]` shoot, `[3, [energy, power, cool, life]]`
/// split, any other code unknown. The ship is left as `-1`.
pub open spec fn command_of(e: E) -> Option<Command> {
    match list_of(e) {
        None => None,
        Some(items) => if items.len() == 0 {
            None
        } else {
            match num_of(items[0]) {
                None => None,
                Some(code) => if code == 0 {
                    if items.len() < 2 {
                        None
                    } else {
                        match pair_of(items[1]) {
                            Some(p) => Some(Command::Accelerate(-1i32, p)),
                            None => None,
                        }
                    }
                } else if code == 1 {
                    Some(Command::Detonate(-1i32))
                } else if code == 2 {
                    if items.len() < 3 {
                        None
                    } else {
                        match (pair_of(items[1]), num_of(items[2])) {
                            (Some(p), Some(x)) => Some(Command::Shoot(-1i32, p, x)),
                            _ => None,
                        }
                    }
                } else if code == 3 {
                    if items.len() < 2 {
                        None
                    } else {
                        match num_list(items[1]) {
                            Some(v) => if v.len() >= 4 {
                                Some(Command::Split(-1i32, params_of(v)))
                            } else {
                                None
                            },
                            None => None,
                        }
                    }
                } else {
                    Some(Command::Unknown)
                },
            }
        },
    }
}

/// The number `a` holds, cut to `i32`; `None` for anything but a number.
pub fn get_num(a: &E) -> (r: Option<i32>)
    ensures
        r == num_of(*a),
{
    match a {
        E::Num(n) => Some(*n as i32),
        _ => None,
    }
}

/// The point `a` holds; `None` for anything but a pair of numbers.
pub fn get_pair(a: &E) -> (r: Option<(i32, i32)>)
    ensures
        r == pair_of(*a),
{
    match a {
        E::Pair(x, y) => match (get_num(x), get_num(y)) {
            (Some(x), Some(y)) => Some((x, y)),
            _ => None,
        },
        _ => None,
    }
}

fn get_nums(items: &Vec<Rc<E>>) -> (r: Option<Vec<i32>>)
    ensures
        match r {
            Some(v) => nums_of(unrc_seq(items@)) == Some(v@),
            None => nums_of(unrc_seq(items@)) is None,
        },
{
    let ghost es = unrc_seq(items@);
    let mut v: Vec<i32> = Vec::new();
    let mut i: usize = 0;
    while i < items.len()
        invariant
            i <= items.len(),
            es == unrc_seq(items@),
            v@.len() == i,
            forall|k: int| 0 <= k < i ==> (#[trigger] num_of(es[k])) is Some && v@[k] == num_of(
                es[k],
            ).unwrap(),
        decreases items.len() - i,
    {
        match get_num(&items[i]) {
            Some(n) => v.push(n),
            None => {
                assert(num_of(es[i as int]) is None);
                return None;
            },
        }
        i = i + 1;
    }
    assert(v@ == es.map_values(|x: E| num_of(x).unwrap()));
    Some(v)
}

/// The numbers of the list `e`, `None` unless `e` is a list of numbers.
pub fn get_num_list(e: &E) -> (r: Option<Vec<i32>>)
    ensures
        match r {
            Some(v) => num_list(*e) == Some(v@),
            None => num_list(*e) is None,
        },
{
    match get_list(e) {
        Some(items) => get_nums(&items),
        None => None,
    }
}

/// The list with first item `a` and the rest `rest`.
pub open spec fn cell(a: E, rest: E) -> E {
    E::Pair(Rc::new(a), Rc::new(rest))
}

/// The number `n` as a term.
pub open spec fn num(n: i32) -> E {
    E::Num(n as i128)
}

/// How the commands of a response read, whatever items follow: `[0, <x, y>]`
/// is the thrust `(x, y)`, `[1]` a detonation, `[2, <x, y>, p]` a shot at
/// `(x, y)` (the target as written) with power `p`,
/// `[3, [energy, power, cool, life]]` a split with those parameters, and any
/// other code an unknown command; the ship is left as `-1`.
pub proof fn lemma_commands_read(code: i32, x: i32, y: i32, p: i32, q: i32, rest: E)
    requires
        list_of(rest) is Some,
    ensures
        command_of(cell(num(0), cell(cell(num(x), num(y)), rest))) == Some(Command::Accelerate(-1i32, (x, y))),
        command_of(cell(num(1), rest)) == Some(Command::Detonate(-1i32)),
        command_of(cell(num(2), cell(cell(num(x), num(y)), cell(num(p), rest)))) == Some(
            Command::Shoot(-1i32, (x, y), p),
        ),
        command_of(
            cell(num(3), cell(cell(num(x), cell(num(y), cell(num(p), cell(num(q), E::Etc(Etc::Nil))))), rest)),
        ) == Some(Command::Split(-1i32, Params { energy: x, power: y, cool: p, life: q })),
        !(0 <= code <= 3) ==> command_of(cell(num(code), rest)) == Some(Command::Unknown),
{
    let t = list_of(rest).unwrap();
    let pt = cell(num(x), num(y));
    assert(pair_of(pt) == Some((x, y)));
    assert(num_of(num(p)) == Some(p));
    let l3 = cell(num(p), rest);
    assert(list_of(l3) == Some(seq![num(p)] + t));
    let l2 = cell(pt, l3);
    assert(list_of(l2) == Some(seq![pt] + (seq![num(p)] + t)));
    let l1 = cell(num(2), l2);
    assert(list_of(l1) == Some(seq![num(2)] + (seq![pt] + (seq![num(p)] + t))));
    let items = seq![num(2)] + (seq![pt] + (seq![num(p)] + t));
    assert(items[0] == num(2) && items[1] == pt && items[2] == num(p));
    let a2 = cell(pt, rest);
    assert(list_of(a2) == Some(seq![pt] + t));
    let a1 = cell(num(0), a2);
    let aitems = seq![num(0)] + (seq![pt] + t);
    assert(list_of(a1) == Some(aitems));
    assert(aitems[0] == num(0) && aitems[1] == pt);
    let d1 = cell(num(1), rest);
    assert(list_of(d1) == Some(seq![num(1)] + t));
    assert((seq![num(1)] + t)[0] == num(1));
    let u1 = cell(num(code), rest);
    assert(list_of(u1) == Some(seq![num(code)] + t));
    assert((seq![num(code)] + t)[0] == num(code));
    let nil = E::Etc(Etc::Nil);
    let v4 = cell(num(q), nil);
    let v3 = cell(num(p), v4);
    let v2 = cell(num(y), v3);
    let v1 = cell(num(x), v2);
    let vs = seq![num(x)] + (seq![num(y)] + (seq![num(p)] + (seq![num(q)] + Seq::<E>::empty())));
    assert(list_of(nil) == Some(Seq::<E>::empty()));
    assert(list_of(v4) == Some(seq![num(q)] + Seq::<E>::empty()));
    assert(list_of(v3) == Some(seq![num(p)] + (seq![num(q)] + Seq::<E>::empty())));
    assert(list_of(v2) == Some(seq![num(y)] + (seq![num(p)] + (seq![num(q)] + Seq::<E>::empty()))));
    assert(list_of(v1) == Some(vs));
    assert(vs =~= seq![num(x), num(y), num(p), num(q)]);
    assert forall|i: int| 0 <= i < vs.len() implies (#[trigger] num_of(vs[i])) is Some by {}
    assert(nums_of(vs) == Some(seq![x, y, p, q])) by {
        assert(vs.map_values(|e: E| num_of(e).unwrap()) =~= seq![x, y, p, q]);
    }
    assert(num_list(v1) == Some(seq![x, y, p, q]));
    let s2 = cell(v1, rest);
    assert(list_of(s2) == Some(seq![v1] + t));
    let s1 = cell(num(3), s2);
    let sitems = seq![num(3)] + (seq![v1] + t);
    assert(list_of(s1) == Some(sitems));
    assert(sitems[0] == num(3) && sitems[1] == v1);
}

impl Command {
    /// The command that `e` describes (see `command_of`); `None` where `e`
    /// is not a nil-terminated list, rather than stopping the program.
    pub fn from(e: &E) -> (r: Option<Command>)
        ensures
            r == command_of(*e),
    {
        let items = match get_list(e) {
            Some(items) => items,
            None => return None,
        };
        let ghost es = unrc_seq(items@);
        if items.len() == 0 {
            return None;
        }
        let code = match get_num(&items[0]) {
            Some(c) => c,
            None => return None,
        };
        if code == 0 {
            if items.len() < 2 {
                return None;
            }
            match get_pair(&items[1]) {
                Some(p) => Some(Command::Accelerate(-1i32, p)),
                None => None,
            }
        } else if code == 1 {
            Some(Command::Detonate(-1i32))
        } else if code == 2 {
            if items.len() < 3 {
                return None;
            }
            match (get_pair(&items[1]), get_num(&items[2])) {
                (Some(p), Some(x)) => Some(Command::Shoot(-1i32, p, x)),
                _ => None,
            }
        } else if code == 3 {
            if items.len() < 2 {
                return None;
            }
            match get_num_list(&items[1]) {
                Some(v) => if v.len() >= 4 {
                    Some(
                        Command::Split(
                            -1,
                            Params { energy: v[0], power: v[1], cool: v[2], life: v[3] },
                        ),
                    )
                } else {
                    None
                },
                None => None,
            }
        } else {
            Some(Command::Unknown)
        }
    }
}

/// Whether `s` is the ship that `e` describes:
/// `[[role, id, <x, y>, <vx, vy>, [energy, power, cool, life], heat, max heat,
/// max acceleration, ...], [command, ...], ...]`.
pub open spec fn ship_ok(s: Ship, e: E) -> bool {
    match list_of(e) {
        None => false,
        Some(tmp) => tmp.len() >= 2 && match (list_of(tmp[0]), list_of(tmp[1])) {
            (Some(sv), Some(cmds)) => {
                &&& sv.len() >= 8
                &&& num_of(sv[0]) == Some(s.role)
                &&& num_of(sv[1]) == Some(s.id)
                &&& pair_of(sv[2]) == Some(s.pos)
                &&& pair_of(sv[3]) == Some(s.v)
                &&& num_list(sv[4]) matches Some(st)
                &&& st.len() >= 4
                &&& s.status == params_of(st)
                &&& num_of(sv[5]) == Some(s.heat)
                &&& num_of(sv[6]) == Some(s.max_heat)
                &&& num_of(sv[7]) == Some(s.max_accelarate)
                &&& s.commands@.len() == cmds.len()
                &&& forall|i: int|
                    0 <= i < cmds.len() ==> command_of(#[trigger] cmds[i]) == Some(s.commands@[i])
            },
            _ => false,
        },
    }
}

/// Whether `info` is what `e` describes:
/// `[deadline, role, [potential, max heat, max acceleration, ...],
/// [low, high, ...], opponent's params (or a list of another length), ...]`.
pub open spec fn info_ok(info: Info, e: E) -> bool {
    match list_of(e) {
        None => false,
        Some(it) => {
            &&& it.len() >= 5
            &&& num_of(it[0]) == Some(info.deadline)
            &&& num_of(it[1]) == Some(info.role)
            &&& num_list(it[2]) matches Some(ab)
            &&& ab.len() >= 3
            &&& info.ability == (Ability { potential: ab[0], max_heat: ab[1], max_accelarate: ab[2] })
            &&& num_list(it[3]) matches Some(rg)
            &&& rg.len() >= 2
            &&& info.range.start == rg[0]
            &&& info.range.end == rg[1]
            &&& num_list(it[4]) matches Some(ps)
            &&& info.opponent_params == (if ps.len() != 4 {
                Params { energy: -1i32, power: -1i32, cool: -1i32, life: -1i32 }
            } else {
                params_of(ps)
            })
        },
    }
}

/// Whether `st` is what `e` describes: `[]` before the game, else
/// `[tick, [low, high, ...], [ship, ...], ...]`.
pub open spec fn state_ok(st: State, e: E) -> bool {
    match list_of(e) {
        None => false,
        Some(sl) => if sl.len() == 0 {
            st.tick == 0 && st.range.start == 0 && st.range.end == 0 && st.ships@.len() == 0
        } else {
            &&& sl.len() >= 3
            &&& num_of(sl[0]) == Some(st.tick)
            &&& num_list(sl[1]) matches Some(rg)
            &&& rg.len() >= 2
            &&& st.range.start == rg[0]
            &&& st.range.end == rg[1]
            &&& list_of(sl[2]) matches Some(ships)
            &&& st.ships@.len() == ships.len()
            &&& forall|i: int| 0 <= i < ships.len() ==> ship_ok(#[trigger] st.ships@[i], ships[i])
        },
    }
}

/// Whether `r` is the response that `e` describes:
/// `[1, stage, info, state]`.
pub open spec fn response_ok(r: Response, e: E) -> bool {
    match list_of(e) {
        None => false,
        Some(a) => {
            &&& a.len() == 4
            &&& num_of(a[0]) == Some(1i32)
            &&& num_of(a[1]) == Some(r.stage)
            &&& info_ok(r.info, a[2])
            &&& state_ok(r.state, a[3])
        },
    }
}

fn parse_ship(e: &E) -> (r: Option<Ship>)
    ensures
        match r {
            Some(s) => ship_ok(s, *e),
            None => forall|s: Ship| !ship_ok(s, *e),
        },
{
    let tmp = match get_list(e) {
        Some(t) => t,
        None => return None,
    };
    if tmp.len() < 2 {
        return None;
    }
    let s = match get_list(&tmp[0]) {
        Some(s) => s,
        None => return None,
    };
    let cmds = match get_list(&tmp[1]) {
        Some(c) => c,
        None => return None,
    };
    let ghost sv = unrc_seq(s@);
    let ghost cs = unrc_seq(cmds@);
    if s.len() < 8 {
        return None;
    }
    let role = match get_num(&s[0]) {
        Some(x) => x,
        None => return None,
    };
    let id = match get_num(&s[1]) {
        Some(x) => x,
        None => return None,
    };
    let pos = match get_pair(&s[2]) {
        Some(x) => x,
        None => return None,
    };
    let v = match get_pair(&s[3]) {
        Some(x) => x,
        None => return None,
    };
    let st = match get_num_list(&s[4]) {
        Some(x) => x,
        None => return None,
    };
    if st.len() < 4 {
        return None;
    }
    let status = Params { energy: st[0], power: st[1], cool: st[2], life: st[3] };
    let heat = match get_num(&s[5]) {
        Some(x) => x,
        None => return None,
    };
    let max_heat = match get_num(&s[6]) {
        Some(x) => x,
        None => return None,
    };
    let max_accelarate = match get_num(&s[7]) {
        Some(x) => x,
        None => return None,
    };
    let mut commands: Vec<Command> = Vec::new();
    let mut i: usize = 0;
    while i < cmds.len()
        invariant
            i <= cmds.len(),
            cs == unrc_seq(cmds@),
            tmp.len() >= 2,
            list_of(*e) == Some(unrc_seq(tmp@)),
            list_of(unrc_seq(tmp@)[1]) == Some(cs),
            commands@.len() == i,
            forall|k: int| 0 <= k < i ==> command_of(#[trigger] cs[k]) == Some(commands@[k]),
        decreases cmds.len() - i,
    {
        match Command::from(&cmds[i]) {
            Some(c) => commands.push(c),
            None => {
                proof {
                    let tv = unrc_seq(tmp@);
                    assert(list_of(*e) == Some(tv));
                    assert(list_of(tv[1]) == Some(cs));
                    assert(command_of(cs[i as int]) is None);
                    assert forall|sh: Ship| !ship_ok(sh, *e) by {
                        if ship_ok(sh, *e) {
                            assert(command_of(cs[i as int]) == Some(sh.commands@[i as int]));
                        }
                    }
                }
                return None;
            },
        }
        i = i + 1;
    }
    Some(Ship { role, id, pos, v, status, heat, max_heat, max_accelarate, commands })
}

fn parse_info(e: &E) -> (r: Option<Info>)
    ensures
        match r {
            Some(info) => info_ok(info, *e),
            None => forall|info: Info| !info_ok(info, *e),
        },
{
    let it = match get_list(e) {
        Some(t) => t,
        None => return None,
    };
    if it.len() < 5 {
        return None;
    }
    let deadline = match get_num(&it[0]) {
        Some(x) => x,
        None => return None,
    };
    let role = match get_num(&it[1]) {
        Some(x) => x,
        None => return None,
    };
    let ab = match get_num_list(&it[2]) {
        Some(x) => x,
        None => return None,
    };
    if ab.len() < 3 {
        return None;
    }
    let ability = Ability { potential: ab[0], max_heat: ab[1], max_accelarate: ab[2] };
    let rg = match get_num_list(&it[3]) {
        Some(x) => x,
        None => return None,
    };
    if rg.len() < 2 {
        return None;
    }
    let range = Range { start: rg[0], end: rg[1] };
    let ps = match get_num_list(&it[4]) {
        Some(x) => x,
        None => return None,
    };
    let opponent_params = if ps.len() != 4 {
        Params { energy: -1, power: -1, cool: -1, life: -1 }
    } else {
        Params { energy: ps[0], power: ps[1], cool: ps[2], life: ps[3] }
    };
    Some(Info { deadline, role, ability, range, opponent_params })
}

fn parse_state(e: &E) -> (r: Option<State>)
    ensures
        match r {
            Some(st) => state_ok(st, *e),
            None => forall|st: State| !state_ok(st, *e),
        },
{
    let sl = match get_list(e) {
        Some(t) => t,
        None => return None,
    };
    if sl.len() == 0 {
        return Some(State { tick: 0, range: Range { start: 0, end: 0 }, ships: Vec::new() });
    }
    if sl.len() < 3 {
        return None;
    }
    let tick = match get_num(&sl[0]) {
        Some(x) => x,
        None => return None,
    };
    let rg = match get_num_list(&sl[1]) {
        Some(x) => x,
        None => return None,
    };
    if rg.len() < 2 {
        return None;
    }
    let range = Range { start: rg[0], end: rg[1] };
    let items = match get_list(&sl[2]) {
        Some(x) => x,
        None => return None,
    };
    let ghost es = unrc_seq(items@);
    let mut ships: Vec<Ship> = Vec::new();
    let mut i: usize = 0;
    while i < items.len()
        invariant
            i <= items.len(),
            es == unrc_seq(items@),
            sl.len() >= 3,
            list_of(*e) == Some(unrc_seq(sl@)),
            list_of(unrc_seq(sl@)[2]) == Some(es),
            ships@.len() == i,
            forall|k: int| 0 <= k < i ==> ship_ok(#[trigger] ships@[k], es[k]),
        decreases items.len() - i,
    {
        match parse_ship(&items[i]) {
            Some(s) => ships.push(s),
            None => {
                proof {
                    let slv = unrc_seq(sl@);
                    assert(list_of(*e) == Some(slv));
                    assert(list_of(slv[2]) == Some(es));
                    assert forall|st: State| !state_ok(st, *e) by {
                        if state_ok(st, *e) {
                            assert(st.ships@.len() == es.len());
                            assert(ship_ok(st.ships@[i as int], es[i as int]));
                        }
                    }
                }
                return None;
            },
        }
        i = i + 1;
    }
    Some(State { tick, range, ships })
}

/// The response that `e` describes (see `response_ok`); `None` where `e`
/// is no response (such as the error reply `[0]`, or a list that is not of
/// four items starting with 1), rather than stopping the program.
pub fn parse(e: E) -> (r: Option<Response>)
    ensures
        match r {
            Some(resp) => response_ok(resp, e),
            None => forall|resp: Response| !response_ok(resp, e),
        },
{
    let a = match get_list(&e) {
        Some(t) => t,
        None => return None,
    };
    if a.len() != 4 {
        return None;
    }
    match get_num(&a[0]) {
        Some(x) => if x != 1 {
            return None;
        },
        None => return None,
    }
    let stage = match get_num(&a[1]) {
        Some(x) => x,
        None => return None,
    };
    let info = match parse_info(&a[2]) {
        Some(x) => x,
        None => return None,
    };
    let state = match parse_state(&a[3]) {
        Some(x) => x,
        None => return None,
    };
    Some(Response { stage, info, state })
}


/// How a command is written in a message; `Unknown` is never written.
pub open spec fn command_text(c: Command) -> Seq<char> {
    match c {
        Command::Accelerate(id, v) => "[0, "@ + int_text(id as int) + ", <"@ + int_text(v.0 as int)
            + ", "@ + int_text(v.1 as int) + ">]"@,
        Command::Detonate(id) => "[1, "@ + int_text(id as int) + "]"@,
        Command::Shoot(id, t, x3) => "[2, "@ + int_text(id as int) + ", <"@ + int_text(t.0 as int)
            + ", "@ + int_text(t.1 as int) + ">, "@ + int_text(x3 as int) + "]"@,
        Command::Split(id, p) => "[3, "@ + int_text(id as int) + ", ["@ + int_text(p.energy as int)
            + ", "@ + int_text(p.power as int) + ", "@ + int_text(p.cool as int) + ", "@ + int_text(
            p.life as int,
        ) + "]]"@,
        Command::Unknown => Seq::empty(),
    }
}

fn push_i32(n: i32, out: &mut String)
    ensures
        final(out)@ == old(out)@ + int_text(n as int),
{
    push_int(n as i128, out);
}

impl Command {
    /// The command as written in a message.
    pub fn to_string(&self) -> (r: String)
        requires
            !(*self is Unknown),
        ensures
            r@ == command_text(*self),
    {
        let mut s = String::new();
        match self {
            Command::Accelerate(id, v) => {
                push_str(&mut s, "[0, ");
                push_i32(*id, &mut s);
                push_str(&mut s, ", <");
                push_i32(v.0, &mut s);
                push_str(&mut s, ", ");
                push_i32(v.1, &mut s);
                push_str(&mut s, ">]");
            },
            Command::Detonate(id) => {
                push_str(&mut s, "[1, ");
                push_i32(*id, &mut s);
                push_str(&mut s, "]");
            },
            Command::Shoot(id, t, x3) => {
                push_str(&mut s, "[2, ");
                push_i32(*id, &mut s);
                push_str(&mut s, ", <");
                push_i32(t.0, &mut s);
                push_str(&mut s, ", ");
                push_i32(t.1, &mut s);
                push_str(&mut s, ">, ");
                push_i32(*x3, &mut s);
                push_str(&mut s, "]");
            },
            Command::Split(id, p) => {
                push_str(&mut s, "[3, ");
                push_i32(*id, &mut s);
                push_str(&mut s, ", [");
                push_i32(p.energy, &mut s);
                push_str(&mut s, ", ");
                push_i32(p.power, &mut s);
                push_str(&mut s, ", ");
                push_i32(p.cool, &mut s);
                push_str(&mut s, ", ");
                push_i32(p.life, &mut s);
                push_str(&mut s, "]]");
            },
            Command::Unknown => {},
        }
        assert(s@ == Seq::<char>::empty() + command_text(*self));
        s
    }
}

/// The commands written one after another, separated by `", "`.
pub open spec fn commands_text(cs: Seq<Command>) -> Seq<char>
    decreases cs.len(),
{
    if cs.len() == 0 {
        Seq::empty()
    } else if cs.len() == 1 {
        command_text(cs[0])
    } else {
        commands_text(cs.drop_last()) + ", "@ + command_text(cs.last())
    }
}

/// The message that joins the game as `player_key`.
pub open spec fn join_text(player_key: Seq<char>) -> Seq<char> {
    "[2, "@ + player_key + ", [192496425430, 103652820]]"@
}

/// The message that starts the game with the given parameters.
pub open spec fn start_text(
    player_key: Seq<char>,
    energy: i32,
    power: i32,
    cool: i32,
    life: i32,
) -> Seq<char> {
    "[3, "@ + player_key + ", ["@ + int_text(energy as int) + ", "@ + int_text(power as int) + ", "@
        + int_text(cool as int) + ", "@ + int_text(life as int) + "]]"@
}

/// The message that gives the commands `cs`.
pub open spec fn command_msg_text(player_key: Seq<char>, cs: Seq<Command>) -> Seq<char> {
    "[4, "@ + player_key + ", ["@ + commands_text(cs) + "]]"@
}

/// Whether `pat` occurs in `s`.
pub open spec fn occurs_in(pat: Seq<char>, s: Seq<char>) -> bool {
    exists|i: int| 0 <= i && i + pat.len() <= s.len() && #[trigger] s.subrange(i, i + pat.len()) == pat
}

fn contains_str(s: &str, pat: &str) -> (r: bool)
    ensures
        r == occurs_in(pat@, s@),
{
    let cs = crate::text::chars_of(s);
    let ps = crate::text::chars_of(pat);
    if ps.len() > cs.len() {
        proof {
            assert forall|i: int| !(0 <= i && i + pat@.len() <= s@.len() && #[trigger] s@.subrange(i, i + pat@.len()) == pat@) by {}
        }
        return false;
    }
    let mut i: usize = 0;
    while i <= cs.len() - ps.len()
        invariant
            cs@ == s@,
            ps@ == pat@,
            ps.len() <= cs.len(),
            i <= cs.len() - ps.len() + 1,
            forall|k: int| 0 <= k < i ==> #[trigger] s@.subrange(k, k + pat@.len()) != pat@,
        decreases cs.len() - i,
    {
        let mut j: usize = 0;
        let mut same = true;
        while j < ps.len()
            invariant
                cs@ == s@,
                ps@ == pat@,
                i + ps.len() <= cs.len(),
                j <= ps.len(),
                same == (forall|t: int| 0 <= t < j ==> cs@[i + t] == ps@[t]),
            decreases ps.len() - j,
        {
            if cs[i + j] != ps[j] {
                same = false;
            }
            j = j + 1;
        }
        if same {
            assert(s@.subrange(i as int, i + pat@.len()) =~= pat@);
            return true;
        }
        proof {
            let t = choose|t: int| 0 <= t < ps.len() && cs@[i + t] != ps@[t];
            assert(s@.subrange(i as int, i + pat@.len())[t] != pat@[t]);
        }
        i = i + 1;
    }
    proof {
        assert forall|k: int| !(0 <= k && k + pat@.len() <= s@.len() && #[trigger] s@.subrange(k, k + pat@.len()) == pat@) by {
            if 0 <= k && k + pat@.len() <= s@.len() {
                assert(k < i);
            }
        }
    }
    false
}

/// A player's side of the protocol: where messages go, and as whom.
pub struct Client {
    pub server_url: String,
    pub player_key: String,
}

impl Client {
    /// A client of the server at `server_url`: the address is taken as it is
    /// when it carries an API key, else the path of the send endpoint is
    /// added to it.
    pub fn new(server_url: String) -> (r: Self)
        ensures
            r.server_url@ == (if occurs_in("?apiKey"@, server_url@) {
                server_url@
            } else {
                server_url@ + "/aliens/send"@
            }),
            r.player_key@ == Seq::<char>::empty(),
    {
        let server_url = if contains_str(server_url.as_str(), "?apiKey") {
            server_url
        } else {
            let mut u = server_url;
            push_str(&mut u, "/aliens/send");
            u
        };
        Client { server_url, player_key: String::new() }
    }

    /// Takes `player_key` as the player's key and gives the message that
    /// joins the game.
    pub fn join_message(&mut self, player_key: &str) -> (r: String)
        ensures
            final(self).player_key@ == player_key@,
            final(self).server_url@ == old(self).server_url@,
            r@ == join_text(player_key@),
    {
        let mut k = String::new();
        push_str(&mut k, player_key);
        assert(k@ == player_key@);
        self.player_key = k;
        let mut s = String::new();
        push_str(&mut s, "[2, ");
        push_str(&mut s, player_key);
        push_str(&mut s, ", [192496425430, 103652820]]");
        assert(s@ == Seq::<char>::empty() + join_text(player_key@));
        s
    }

    /// The message that starts the game with the given parameters.
    pub fn start_message(&self, energy: i32, power: i32, cool: i32, life: i32) -> (r: String)
        ensures
            r@ == start_text(self.player_key@, energy, power, cool, life),
    {
        let mut s = String::new();
        push_str(&mut s, "[3, ");
        push_str(&mut s, self.player_key.as_str());
        push_str(&mut s, ", [");
        push_i32(energy, &mut s);
        push_str(&mut s, ", ");
        push_i32(power, &mut s);
        push_str(&mut s, ", ");
        push_i32(cool, &mut s);
        push_str(&mut s, ", ");
        push_i32(life, &mut s);
        push_str(&mut s, "]]");
        assert(s@ == Seq::<char>::empty() + start_text(self.player_key@, energy, power, cool, life));
        s
    }

    /// The message that gives the commands `cs`.
    pub fn command_message(&self, cs: &[Command]) -> (r: String)
        requires
            forall|i: int| 0 <= i < cs@.len() ==> !(#[trigger] cs@[i] is Unknown),
        ensures
            r@ == command_msg_text(self.player_key@, cs@),
    {
        let mut s = String::new();
        push_str(&mut s, "[4, ");
        push_str(&mut s, self.player_key.as_str());
        push_str(&mut s, ", [");
        let ghost head = s@;
        let mut i: usize = 0;
        while i < cs.len()
            invariant
                i <= cs@.len(),
                forall|k: int| 0 <= k < cs@.len() ==> !(#[trigger] cs@[k] is Unknown),
                s@ == head + commands_text(cs@.take(i as int)),
            decreases cs.len() - i,
        {
            let ghost before = s@;
            if i > 0 {
                push_str(&mut s, ", ");
            }
            let t = cs[i].to_string();
            push_str(&mut s, t.as_str());
            proof {
                let tk = cs@.take(i + 1);
                assert(tk.drop_last() == cs@.take(i as int));
                assert(tk.last() == cs@[i as int]);
                if i == 0 {
                    assert(cs@.take(0) == Seq::<Command>::empty());
                    assert(before == head);
                }
            }
            i = i + 1;
        }
        assert(cs@.take(cs@.len() as int) == cs@);
        push_str(&mut s, "]]");
        s
    }
}

/// The first position from `i` on that holds white space, or the length.
pub open spec fn word_end(cs: Seq<char>, i: int) -> int
    decreases cs.len() - i,
{
    if 0 <= i < cs.len() && !is_ws(cs[i]) {
        word_end(cs, i + 1)
    } else {
        i
    }
}

pub proof fn lemma_word_end(cs: Seq<char>, i: int)
    requires
        0 <= i <= cs.len(),
    ensures
        i <= word_end(cs, i) <= cs.len(),
        i < cs.len() && !is_ws(cs[i]) ==> i < word_end(cs, i),
    decreases cs.len() - i,
{
    if i < cs.len() && !is_ws(cs[i]) {
        lemma_word_end(cs, i + 1);
    }
}

/// The words of `cs` from position `i` on: the maximal runs of characters
/// other than white space, as `str::split_whitespace` gives them.
pub open spec fn words_from(cs: Seq<char>, i: int) -> Seq<Seq<char>>
    decreases cs.len() - i,
{
    if i < 0 || i >= cs.len() {
        Seq::empty()
    } else if is_ws(cs[i]) {
        words_from(cs, i + 1)
    } else {
        proof {
            lemma_word_end(cs, i);
        }
        let j = word_end(cs, i);
        seq![cs.subrange(i, j)] + words_from(cs, j)
    }
}

fn word_end_at(cs: &Vec<char>, i: usize) -> (r: usize)
    requires
        i <= cs.len(),
    ensures
        r == word_end(cs@, i as int),
    decreases cs.len() - i,
{
    if i < cs.len() && !crate::parser::is_ws_char(cs[i]) {
        word_end_at(cs, i + 1)
    } else {
        i
    }
}

pub(crate) fn split_words(s: &str) -> (r: Vec<String>)
    ensures
        r@.map_values(|w: String| w@) == words_from(s@, 0),
{
    let cs = crate::text::chars_of(s);
    let mut out: Vec<String> = Vec::new();
    let mut i: usize = 0;
    while i < cs.len()
        invariant
            i <= cs.len(),
            cs@ == s@,
            words_from(s@, 0) == out@.map_values(|w: String| w@) + words_from(s@, i as int),
        decreases cs.len() - i,
    {
        if crate::parser::is_ws_char(cs[i]) {
            i = i + 1;
        } else {
            proof {
                lemma_word_end(cs@, i as int);
            }
            let j = word_end_at(&cs, i);
            let mut w = String::new();
            let mut k = i;
            while k < j
                invariant
                    i <= k <= j <= cs.len(),
                    w@ == cs@.subrange(i as int, k as int),
                decreases j - k,
            {
                string_push(&mut w, cs[k]);
                assert(cs@.subrange(i as int, k + 1) == cs@.subrange(i as int, k as int).push(cs@[k as int]));
                k = k + 1;
            }
            let ghost before = out@;
            out.push(w);
            assert(out@.map_values(|w: String| w@) == before.map_values(|w: String| w@).push(
                cs@.subrange(i as int, j as int),
            ));
            i = j;
        }
    }
    assert(out@.map_values(|w: String| w@) + Seq::<Seq<char>>::empty() == out@.map_values(|w: String| w@));
    out
}

/// Why a message cannot be sent.
#[derive(Clone, Copy, PartialEq, Eq, Debug)]
pub enum SendError {
    /// The message is no term, in brackets or as text.
    Syntax,
    /// Its evaluation failed.
    Eval(EvalError),
    /// Its value holds something other than pairs, numbers and nil.
    NotData,
}

/// The fuel a message's evaluation gets.
pub const SEND_FUEL: u64 = 1_000_000;

/// The term a message stands for: the first term of `msg` read in the
/// bracketed notation (what follows it is not read), with the names `nil`,
/// `t`, `f` and `cons` read as those atoms (see `regular_term`), as the
/// galaxy text form of the term reads them (see `lemma_tokens_read_back`).
pub open spec fn request_term(msg: Seq<char>) -> Option<Term> {
    match lisp_spec(msg, 0) {
        None => None,
        Some((t, _)) => Some(regular_term(t)),
    }
}

/// The bit string sent for the message `msg`: its term (see
/// `request_term`) evaluated with pairs and no definitions, and modulated.
pub fn encode(msg: &str) -> (r: Result<String, SendError>)
    ensures
        match r {
            Ok(bits) => request_term(msg@) matches Some(t) && big_step(
                Map::empty(),
                t,
                true,
                SEND_FUEL as nat,
            ) matches Ok(tv) && exists|v: E| v.term() == tv && #[trigger] mod_bits(v) == Some(bits@),
            Err(SendError::Syntax) => request_term(msg@) is None,
            Err(SendError::Eval(err)) => request_term(msg@) matches Some(t) && big_step(
                Map::empty(),
                t,
                true,
                SEND_FUEL as nat,
            ) == Err::<Term, EvalError>(err),
            Err(SendError::NotData) => request_term(msg@) matches Some(t) && big_step(
                Map::empty(),
                t,
                true,
                SEND_FUEL as nat,
            ) matches Ok(tv) && exists|v: E| v.term() == tv && #[trigger] mod_bits(v) is None,
        },
{
    let e = match parse_lisp(msg) {
        Some((e, _)) => e,
        None => return Err(SendError::Syntax),
    };
    let exp = regularize_etc(&e);
    proof {
        crate::parser::lemma_regularize(e);
    }
    let mut ev = Evaluator::default();
    proof {
        lemma_no_shared_closed(exp, ev.data.srcs@);
        assert(ev.defs() =~= Map::<Seq<char>, Term>::empty());
    }
    match ev.eval(&exp, true, SEND_FUEL) {
        Ok(v) => match modulate(&v) {
            Some(bits) => Ok(bits),
            None => Err(SendError::NotData),
        },
        Err(err) => Err(SendError::Eval(err)),
    }
}

/// The value that the bit string `bits` of a response begins with.
pub fn decode(bits: &str) -> (r: Option<E>)
    ensures
        match r {
            Some(e) => demod_spec(bits@, 0) matches Some((d, _)) && d == e,
            None => demod_spec(bits@, 0) is None,
        },
{
    demodulate(bits)
}
} // verus!
