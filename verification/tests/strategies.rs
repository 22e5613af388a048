use icfpc2020::chokudai::{can_attack, chokud_ai, dist, place_orders, EnemyData};
use icfpc2020::client::{parse, Command, Params, Response};
use icfpc2020::defender::{can_defend, turn_commands};
use icfpc2020::orbiter::{can_circle, chokud_ai as circling_ai, circle_with};
use icfpc2020::parser::parse_lisp;
use icfpc2020::routing::{clip_int, clip_pos, clip_vel, drifts_within, fits_move, is_valid_1d, movable, PosVel, Router};
use icfpc2020::tos::{can_gun, can_pilot, can_ram_offset, consumed_energy, gravity, gunner_commands, gunner_turn, pilot_commands, pilot_turn, ram_offset_turn};
use icfpc2020::totsugeki::{can_ram, get_next_pos, get_ship, ram_turn};
use icfpc2020::wata::{check_range, check_v, next_move, preprocess, rec, test_naive, Preprocess, SetMinMax};

fn ship(role: i32, id: i32, pos: (i32, i32), v: (i32, i32), energy: i32, heat: i32, cmds: &str) -> String {
    format!(
        "[[{}, {}, <{}, {}>, <{}, {}>, [{}, 40, 0, 2], {}, 64, 1], [{}]]",
        role, id, pos.0, pos.1, v.0, v.1, energy, heat, cmds
    )
}

fn response(role: i32, tick: i32, ships: &[String]) -> Response {
    let text = format!(
        "[1, 1, [256, {}, [512, 64, 1], [16, 128], []], [{}, [16, 128], [{}]]]",
        role,
        tick,
        ships.join(", ")
    );
    parse(parse_lisp(&text).unwrap().0).unwrap()
}

fn gravity_tables() -> (Vec<Vec<i32>>, Vec<Vec<i32>>) {
    let n = 201;
    let mut gx = vec![vec![0; n]; n];
    let mut gy = vec![vec![0; n]; n];
    for i in 0..n {
        for j in 0..n {
            let (x, y) = (i as i32 - 100, j as i32 - 100);
            if x.abs() >= y.abs() {
                gx[i][j] = -x.signum();
            }
            if x.abs() <= y.abs() {
                gy[i][j] = -y.signum();
            }
        }
    }
    (gx, gy)
}

#[test]
fn pull_of_the_test_pilots() {
    assert_eq!(gravity(0, 0), (-1, -1));
    assert_eq!(gravity(5, 2), (-1, 0));
    assert_eq!(gravity(-3, 7), (0, -1));
    assert_eq!(gravity(-4, -4), (1, 1));
}

#[test]
fn posvel_moves() {
    let p = PosVel::new(50, 20, 1, 0);
    assert_eq!(p.get_gravity(), (-1, 0));
    assert_eq!(p.apply_gravity(), PosVel::new(50, 20, 0, 0));
    assert_eq!(PosVel::new(50, 20, 0, 0).accelerate_and_move(1, -1), PosVel::new(51, 19, 1, -1));
    assert_eq!(PosVel::new(0, 0, 0, 0).get_gravity(), (0, 0));
    assert!(PosVel::new(50, 20, 0, 0).is_in_valid_area());
    assert!(!PosVel::new(10, 10, 0, 0).is_in_valid_area());
    assert!(!PosVel::new(200, 0, 0, 0).is_in_valid_area());
    assert_eq!(PosVel::new(0, 0, 0, 0).hypot_to(3, 4), 25);
    assert!(PosVel::new_empty().is_empty());
    assert!(!p.is_empty());
}

#[test]
fn clipping_and_braking() {
    assert_eq!(clip_int(-20, 5), -5);
    assert_eq!(clip_int(3, 5), 3);
    assert_eq!(clip_pos(200), 127);
    assert_eq!(clip_vel(-30), -15);
    assert!(is_valid_1d(100, 10));
    assert!(!is_valid_1d(110, 10));
    assert!(is_valid_1d(-100, -10));
}

#[test]
fn router_table() {
    let mut r = Router::new();
    let s = PosVel::new(1, 2, 3, 4);
    assert_eq!(r.get(&s), (i32::MAX, PosVel::new_empty()));
    r.set(&s, (2, PosVel::new(0, 0, 0, 0)));
    assert_eq!(r.get(&s), (2, PosVel::new(0, 0, 0, 0)));
}

#[test]
fn router_moves_are_small() {
    let mut r = Router::new();
    let ((ax, ay), n) = r.get_next_move(50, 20, 0, 0, 60, 20);
    assert!(-2 <= ax && ax < 2 && -2 <= ay && ay < 2);
    assert!(1 <= n && n <= 5);
    assert_eq!(r.ver(), 1);
    // a start outside the table is cut into it and served
    let ((ax, ay), n) = r.get_next_move(50, 0, 16, 0, 50, 0);
    assert!(-2 <= ax && ax < 2 && -2 <= ay && ay < 2);
    assert!(1 <= n && n <= 5);
    let ((ax, ay), _) = r.get_next_move(60, 40, -16, 0, 0, 40);
    assert!(-2 <= ax && ax < 2 && -2 <= ay && ay < 2);
    assert_eq!(r.ver(), 3);
}

#[test]
fn wata_checks() {
    assert!(check_range(101, 0));
    assert!(check_range(10, -16));
    assert!(!check_range(17, 0));
    assert!(check_v(11, 0));
    assert!(!check_v(-10, 10));
    let mut a = 5;
    assert!(a.setmin(3));
    assert_eq!(a, 3);
    assert!(!a.setmin(4));
    assert!(a.setmax(9));
    assert_eq!(a, 9);
}

#[test]
fn naive_fall() {
    let (gx, gy) = gravity_tables();
    assert_eq!(test_naive(50, 50, 0, 0, &gx, &gy), 8);
    assert_eq!(test_naive(100, 0, 5, 0, &gx, &gy), 1);
    assert_eq!(test_naive(0, 50, 0, 20, &gx, &gy), 1);
}

#[test]
fn rescue_from_the_planet() {
    let (gx, gy) = gravity_tables();
    let prep = Preprocess { gx, gy, dp: vec![0; 17816841] };
    assert_eq!(next_move(10, 10, 0, 0, false, 0, &prep), (1, 1));
    assert_eq!(next_move(-10, 10, 0, 0, false, 0, &prep), (-1, 1));
    assert_eq!(next_move(150, 0, 0, 0, false, 0, &prep), (-1, 1));
}

#[test]
fn preprocess_matches_naive_fall() {
    let (prep, _count) = preprocess();
    let (gx, gy) = gravity_tables();
    assert_eq!(prep.gx, gx);
    assert_eq!(prep.gy, gy);
    let key = |x: i32, y: i32, dx: i32, dy: i32| ((((x + 100) * 201 + (y + 100)) * 21 + (dx + 10)) * 21 + (dy + 10)) as usize;
    assert_eq!(prep.dp[key(50, 50, 0, 0)], 8);
    assert_eq!(prep.dp[key(100, 0, 5, 0)], 1);
    assert_eq!(prep.dp[key(0, 0, 0, 0)], 0);
    // the search does at least as well as staying, and better with depth
    for &(x, y, dx, dy) in &[(50, 50, 0, 0), (-60, 30, 3, -4), (40, 0, 0, 5)] {
        let here = (prep.dp[key(x, y, dx, dy)], 2usize);
        let shallow = rec(x, y, dx, dy, 0, 0, 2, &prep);
        let deep = rec(x, y, dx, dy, 0, 0, 3, &prep);
        assert!(shallow >= here);
        assert!(deep >= shallow);
    }
    // the gentle choice keeps the longest survival among the gentle thrusts
    for &(x, y, dx, dy) in &[(50, 50, 0, 0), (-60, 30, 3, -4)] {
        let mut best = 0;
        for ax in -1..=1 {
            for ay in -1..=1 {
                best = best.max(prep.dp[key(x, y, dx + ax, dy + ay)]);
            }
        }
        if best > 0 {
            let (ax, ay) = next_move(x, y, dx, dy, false, 30, &prep);
            assert_eq!(prep.dp[key(x, y, dx + ax, dy + ay)], best);
        }
    }
    for &(x, y, dx, dy) in &[(40, 0, 0, 5), (-60, 30, 3, -4), (70, -70, -2, -2), (20, 90, -6, 0)] {
        let naive = test_naive(x, y, dx, dy, &gx, &gy);
        assert_eq!(prep.dp[key(x, y, dx, dy)].min(256), naive);
    }
    // the defender splits off a life when its orbit outlasts the deadline
    let resp = response(1, 250, &[ship(1, 3, (50, 50), (0, 0), 10, 0, "")]);
    let split = Params { energy: 0, power: 0, cool: 0, life: 1 };
    assert_eq!(turn_commands(&resp, &prep), vec![Command::Split(3, split)]);
    // on the planet, the defender is rescued
    let resp = response(1, 0, &[ship(1, 3, (10, 10), (0, 0), 10, 0, "")]);
    assert_eq!(turn_commands(&resp, &prep), vec![Command::Accelerate(3, (-1, -1))]);
}

#[test]
fn attacker_shoots_along_a_clear_line() {
    let resp = response(
        0,
        40,
        &[
            ship(0, 0, (50, 30), (0, 0), 10, 0, ""),
            ship(1, 1, (-40, 30), (1, 0), 100, 10, "[0, <1, 0>]"),
        ],
    );
    assert_eq!(dist(&resp.state.ships[0], &resp.state.ships[1]), 90);
    let mut ed = EnemyData::new();
    let mut router = Router::new();
    let r = chokud_ai(&resp, &0, &0, &mut ed, (0, 0), &mut router);
    assert_eq!(r, vec![Command::Shoot(0, (-39, 30), 64)]);
    assert!(!ed.go_near);
    assert_eq!(ed.pattern[7], 1);
    assert_eq!(ed.pattern.iter().sum::<i32>(), 1);
    let mut ed = EnemyData::new();
    let r = chokud_ai(&resp, &0, &0, &mut ed, (1, -1), &mut router);
    assert_eq!(r, vec![Command::Shoot(0, (-39, 30), 64), Command::Accelerate(0, (-1, 1))]);
    assert_eq!(router.ver(), 0);
}

#[test]
fn attacker_dodges_at_random() {
    let resp = response(
        0,
        40,
        &[
            ship(0, 0, (50, 30), (0, 0), 10, 0, ""),
            ship(1, 1, (20, 30), (0, 0), 100, 0, ""),
        ],
    );
    let m = &resp.state.ships[0];
    let e = &resp.state.ships[1];
    assert_eq!(place_orders(0, m, e, (0, 0), (19, 30), 0), vec![Command::Shoot(0, (19, 30), 64), Command::Accelerate(0, (1, 1))]);
    assert_eq!(place_orders(0, m, e, (0, 0), (19, 30), 3), vec![Command::Shoot(0, (19, 30), 64), Command::Accelerate(0, (-1, -1))]);
    let mut ed = EnemyData::new();
    let mut router = Router::new();
    let r = chokud_ai(&resp, &0, &0, &mut ed, (0, 0), &mut router);
    assert_eq!(r.len(), 2);
    assert_eq!(r[0], Command::Shoot(0, (20, 29), 64));
    assert!(matches!(r[1], Command::Accelerate(0, (x, y)) if x.abs() == 1 && y.abs() == 1));
}

#[test]
fn circling_attacker() {
    let ships = [ship(0, 0, (50, 30), (0, 0), 10, 0, ""), ship(1, 1, (-40, 30), (1, 0), 100, 0, "")];
    let resp = response(0, 0, &ships);
    let expected = vec![Command::Shoot(0, (-38, 30), 64), Command::Accelerate(0, (0, -1))];
    assert_eq!(circling_ai(&resp, &0, &0), expected);
    let late = response(0, 40, &ships);
    assert_eq!(circle_with(&late, 0, 0, 1), vec![Command::Shoot(0, (-39, 30), 64), Command::Accelerate(0, (0, -1))]);
    assert_eq!(circle_with(&late, 0, 0, 0), expected);
}

#[test]
fn rammer() {
    let resp = response(
        0,
        0,
        &[ship(0, 7, (50, 30), (0, 0), 10, 0, ""), ship(1, 8, (-40, 30), (1, 2), 100, 0, "")],
    );
    assert_eq!(get_ship(&resp, 8).pos, (-40, 30));
    assert_eq!(get_next_pos(get_ship(&resp, 8)), (-39, 32));
    let mut router = Router::new();
    let r = ram_turn(&mut router, &resp, 7, 8);
    assert!(matches!(r[0], Command::Accelerate(7, (x, y)) if -1 <= x && x <= 2 && -1 <= y && y <= 2));
    assert_eq!(r.len(), 1);
    assert_eq!(router.ver(), 2);
}

#[test]
fn split_params_are_written() {
    let p = Params { energy: 0, power: 0, cool: 0, life: 1 };
    assert_eq!(Command::Split(3, p).to_string(), "[3, 3, [0, 0, 0, 1]]");
}

#[test]
fn hovering_pilot_fires_around_itself() {
    let ships = [ship(0, 0, (50, 20), (0, 0), 100, 0, ""), ship(1, 1, (-30, 40), (1, 0), 100, 0, "")];
    let resp = response(1, 5, &ships);
    let (cmds, fired) = pilot_commands(&resp, 32, 5, 7);
    assert!(fired);
    assert_eq!(cmds, vec![Command::Accelerate(1, (0, -1)), Command::Shoot(1, (-25, 47), 32)]);
    let (cmds, fired) = pilot_turn(&resp, 32);
    assert!(fired);
    assert_eq!(cmds[0], Command::Accelerate(1, (0, -1)));
    assert!(matches!(cmds[1], Command::Shoot(1, (x, y), 32) if (-29..-9).contains(&x) && (41..61).contains(&y)));
    // too hot to fire
    let hot = [ship(1, 1, (-30, 40), (1, 0), 100, 60, "")];
    let resp = response(1, 5, &hot);
    assert_eq!(pilot_commands(&resp, 32, 5, 7), (vec![Command::Accelerate(1, (0, -1))], false));
    assert_eq!(pilot_turn(&resp, 32), (vec![Command::Accelerate(1, (0, -1))], false));
}

#[test]
fn gunner_fires_where_the_target_drifts() {
    let ships = [
        ship(0, 0, (50, 20), (0, 0), 100, 0, ""),
        ship(1, 1, (-30, 40), (2, -1), 100, 0, ""),
        ship(0, 2, (10, 60), (0, 0), 100, 0, ""),
    ];
    let resp = response(0, 5, &ships);
    let (cmds, fired) = gunner_commands(&resp, 100, 1, 2);
    assert!(fired);
    assert_eq!(cmds, vec![Command::Accelerate(2, (0, -1)), Command::Shoot(2, (-27, 41), 100)]);
    let (cmds, fired) = gunner_turn(&resp, 100);
    assert!(fired);
    assert!(matches!(cmds[1], Command::Shoot(2, (x, y), 100) if (-28..-26).contains(&x) && y - 39 >= x + 28 && y - 39 <= x + 29));
    // the player of role 1 only hovers
    let resp = response(1, 5, &ships);
    assert_eq!(gunner_commands(&resp, 100, 1, 2), (vec![Command::Accelerate(2, (0, -1))], false));
    assert_eq!(gunner_turn(&resp, 100), (vec![Command::Accelerate(2, (0, -1))], false));
}

#[test]
fn rammer_at_an_offset() {
    // close enough: it steers onto the aim and blows up
    let ships = [ship(0, 0, (40, 0), (0, 0), 100, 0, ""), ship(1, 1, (41, 1), (0, 0), 100, 0, "")];
    let resp = response(0, 5, &ships);
    let mut router = Router::new();
    let (cmds, blast) = ram_offset_turn(&mut router, &resp, 0, 0);
    assert!(blast);
    assert_eq!(cmds, vec![Command::Accelerate(0, (-1, -1)), Command::Detonate(0)]);
    assert_eq!(router.ver(), 0);
    // the offset moves the aim: two off is still close
    let (cmds, blast) = ram_offset_turn(&mut router, &resp, -1, 0);
    assert!(blast);
    assert_eq!(cmds, vec![Command::Accelerate(0, (-2, -1)), Command::Detonate(0)]);
    // right on the aim: only the detonation
    let (cmds, blast) = ram_offset_turn(&mut router, &resp, 1, 1);
    assert!(blast);
    assert_eq!(cmds, vec![Command::Detonate(0)]);
    // the player of role 1 negates the offset and does not blow up itself
    let ships1 = [ship(1, 0, (40, 0), (0, 0), 100, 0, ""), ship(0, 1, (41, 1), (0, 0), 100, 0, "")];
    let resp1 = response(1, 5, &ships1);
    assert_eq!(ram_offset_turn(&mut router, &resp1, -1, -1), (vec![], true));
    // far away: it follows the search
    let far = [ship(0, 0, (40, 0), (0, 0), 100, 0, ""), ship(1, 1, (60, 10), (0, 0), 100, 0, "")];
    let resp = response(0, 5, &far);
    let (cmds, blast) = ram_offset_turn(&mut router, &resp, 0, 0);
    assert!(!blast);
    assert_eq!(router.ver(), 1);
    assert_eq!(cmds.len(), 1);
    assert!(matches!(cmds[0], Command::Accelerate(0, (x, y)) if (-1..3).contains(&x) && (-1..3).contains(&y)));
}

#[test]
fn energy_of_the_last_thrust() {
    let cmds = vec![Command::Accelerate(0, (1, -2)), Command::Shoot(0, (3, 4), 5), Command::Accelerate(0, (3, 0))];
    assert_eq!(consumed_energy(&cmds), 24);
    assert_eq!(consumed_energy(&vec![Command::Accelerate(0, (-2, 1)), Command::Detonate(0)]), 16);
    assert_eq!(consumed_energy(&vec![Command::Detonate(0)]), 0);
    assert_eq!(consumed_energy(&vec![]), 0);
}

#[test]
fn whether_a_ship_can_move() {
    assert!(movable(40, 0, 0, 0));
    assert!(movable(-100, 50, 3, -2));
    assert!(!movable(0, 0, 0, 0));
}

#[test]
fn turns_are_checked_before_they_are_played() {
    let fine = response(
        0,
        0,
        &[ship(0, 0, (50, 30), (0, 0), 10, 0, ""), ship(1, 1, (-40, 30), (1, 2), 100, 0, "")],
    );
    let far = response(
        0,
        0,
        &[ship(0, 0, (50, 30), (0, 0), 10, 0, ""), ship(1, 1, (2147483640, 30), (100, 0), 100, 0, "")],
    );
    let router = Router::new();
    let ed = EnemyData::new();
    assert!(can_attack(&fine, 0, &ed, (0, 0), &router));
    assert!(!can_attack(&far, 0, &ed, (0, 0), &router));
    assert!(can_circle(&fine, 0));
    assert!(!can_circle(&far, 0));
    assert!(can_defend(&fine));
    assert!(can_pilot(&fine));
    assert!(can_gun(&fine));
    assert!(!can_gun(&far));
    assert!(can_ram_offset(&router, &fine, 0, 0));
    assert!(!can_ram_offset(&router, &far, 0, 0));
    assert!(can_ram(&router, &fine, 0, 1));
    assert!(!can_ram(&router, &far, 0, 1));
    assert!(!can_ram(&router, &fine, 0, 5));
    assert!(fits_move(&PosVel::new(10, 20, 3, 4), 1, -1));
    assert!(!fits_move(&PosVel::new(2147483647, 0, 3, 0), 0, 0));
    assert!(fits_move(&PosVel::new(2147483647, 0, 1, 0), 0, 0));
    assert!(drifts_within(&fine.state.ships[1]));
    assert!(!drifts_within(&far.state.ships[1]));
}

#[test]
fn one_turn_of_fall_is_one_turn_less() {
    let (gx, gy) = gravity_tables();
    // at (50, 50) both pulls are -1: the next state is (49, 49) with velocity (-1, -1)
    let here = test_naive(50, 50, 0, 0, &gx, &gy);
    let next = test_naive(49, 49, -1, -1, &gx, &gy);
    assert_eq!(next, 7);
    assert_eq!(here, (next + 1).min(256));
}

#[test]
fn search_depth_and_lost_states() {
    let (gx, gy) = gravity_tables();
    let prep = Preprocess { gx, gy, dp: vec![0; 17816841] };
    assert_eq!(rec(10, -16, 0, 0, 0, 0, 3, &prep), (0, 0));
    assert_eq!(rec(50, 50, 0, 11, 0, 0, 3, &prep), (0, 0));
    assert_eq!(rec(50, 50, 0, 0, 0, 0, 0, &prep), (0, 0));
    let r = rec(50, 50, 0, 0, 0, 0, 2, &prep);
    assert!(r.1 <= 2);
    assert_ne!(r, (0, 0));
}

#[test]
fn router_answers_do_not_depend_on_earlier_searches() {
    let mut fresh = Router::new();
    let mut used = Router::new();
    used.get_next_move(-40, 70, 3, -2, 10, 10);
    used.get_next_move(60, 40, -5, 0, 0, 40);
    let a = fresh.get_next_move(50, 20, 0, 0, 60, 20);
    let b = used.get_next_move(50, 20, 0, 0, 60, 20);
    assert_eq!(a, b);
    assert_eq!(fresh.ver(), 1);
    assert_eq!(used.ver(), 3);
}
