use std::rc::Rc;

use icfpc2020::client::{decode, encode, parse, Client, Command, Params, SendError};
use icfpc2020::eval::{EvalError, Evaluator};
use icfpc2020::galaxy::{advances, equal_e, read_click, Click, interact, load_galaxy, point, same_term, should_accept, StepError};
use icfpc2020::parser::{get_list, parse_lisp, parse_tokens, simplify, to_text, Etc, E};
use icfpc2020::room::room_keys;

fn lisp(s: &str) -> E {
    parse_lisp(s).unwrap().0
}

const RESPONSE: &str = "[1, 1, [256, 0, [512, 1, 64], [16, 128], []], [0, [16, 128], [[[1, 0, <-48, 16>, <0, 0>, [0, 0, 0, 0], 0, 64, 1], [[0, <1, -1>]]]]]]";

#[test]
fn commands_are_written() {
    assert_eq!(Command::Accelerate(0, (1, -1)).to_string(), "[0, 0, <1, -1>]");
    assert_eq!(Command::Detonate(3).to_string(), "[1, 3]");
    assert_eq!(Command::Shoot(1, (2, 3), 64).to_string(), "[2, 1, <2, 3>, 64]");
    let p = Params { energy: 1, power: 2, cool: 3, life: 4 };
    assert_eq!(Command::Split(1, p).to_string(), "[3, 1, [1, 2, 3, 4]]");
}

#[test]
fn client_messages() {
    let c = Client::new("http://server".to_string());
    assert_eq!(c.server_url, "http://server/aliens/send");
    let c = Client::new("http://server/aliens/send?apiKey=abc".to_string());
    assert_eq!(c.server_url, "http://server/aliens/send?apiKey=abc");
    let mut c = Client::new("http://server".to_string());
    assert_eq!(c.join_message("123"), "[2, 123, [192496425430, 103652820]]");
    assert_eq!(c.player_key, "123");
    assert_eq!(c.start_message(1, 2, 3, 4), "[3, 123, [1, 2, 3, 4]]");
    let cs = [Command::Accelerate(0, (1, 1)), Command::Detonate(0)];
    assert_eq!(c.command_message(&cs), "[4, 123, [[0, 0, <1, 1>], [1, 0]]]");
}

#[test]
fn messages_are_encoded() {
    assert_eq!(encode("[1, 0]"), Ok("11011000011101000".to_string()));
    assert_eq!(encode("0"), Ok("010".to_string()));
    assert_eq!(encode("[1, "), Err(SendError::Syntax));
}

#[test]
fn replies_are_decoded() {
    let r = decode("1101000").unwrap();
    assert_eq!(r, E::Pair(Rc::new(E::Num(0)), Rc::new(E::Etc(Etc::Nil))));
    assert_eq!(decode("2"), None);
}

#[test]
fn responses_are_parsed() {
    let r = parse(lisp(RESPONSE)).unwrap();
    assert_eq!(r.stage, 1);
    assert_eq!(r.info.deadline, 256);
    assert_eq!(r.info.role, 0);
    assert_eq!(r.info.ability.potential, 512);
    assert_eq!((r.info.range.start, r.info.range.end), (16, 128));
    assert_eq!(r.info.opponent_params.energy, -1);
    assert_eq!(r.state.tick, 0);
    assert_eq!(r.state.ships.len(), 1);
    let s = &r.state.ships[0];
    assert_eq!((s.role, s.id, s.pos, s.v), (1, 0, (-48, 16), (0, 0)));
    assert_eq!((s.heat, s.max_heat, s.max_accelarate), (0, 64, 1));
    assert_eq!(s.commands, vec![Command::Accelerate(-1, (1, -1))]);
}

#[test]
fn malformed_responses_are_refused() {
    assert!(parse(lisp("[0]")).is_none());
    assert!(parse(lisp("[1, 1, [256, 0], []]")).is_none());
}

#[test]
fn room_keys_are_read() {
    let e = lisp("[1, [[0, 1234], [1, 5678]]]");
    assert_eq!(room_keys(&e), Some(("1234".to_string(), "5678".to_string())));
    assert_eq!(room_keys(&lisp("[1]")), None);
}

#[test]
fn tokens_parse_and_print() {
    let e = parse_tokens(&["ap", "ap", "cons", "1", "nil"]).unwrap();
    assert_eq!(to_text(&e), "ap ap cons 1 []");
    assert!(parse_tokens(&["ap", "1"]).is_none());
    assert!(parse_tokens(&["1", "2"]).is_none());
    let list = lisp("[1, 2, 3]");
    assert_eq!(get_list(&list).unwrap().len(), 3);
    assert_eq!(list.to_string(), "[1, 2, 3]");
}

#[test]
fn combinators_simplify() {
    let e = parse_tokens(&["ap", "i", "x"]).unwrap();
    assert_eq!(simplify(&e).to_string(), "x");
}

#[test]
fn evaluation_of_arithmetic() {
    let mut ev = Evaluator::default();
    let e = parse_tokens(&["ap", "ap", "add", "1", "2"]).unwrap();
    assert_eq!(ev.eval(&e, false, 100), Ok(E::Num(3)));
    let e = parse_tokens(&["ap", "ap", "div", "1", "0"]).unwrap();
    assert_eq!(ev.eval(&e, false, 100), Err(EvalError::DivisionByZero));
    let e = parse_tokens(&[":404"]).unwrap();
    assert_eq!(ev.eval(&e, false, 100), Err(EvalError::UnknownFunction));
}

#[test]
fn galaxy_is_loaded_and_played() {
    let text = ":1338 = ap t ap t ap ap cons 0 ap ap cons 7 ap ap cons 9 nil\nunused = 1\n";
    let mut ev = load_galaxy(text).unwrap();
    let state = E::Etc(Etc::Nil);
    let r = interact(&mut ev, &state, &point(0, 0), 1000).unwrap();
    assert_eq!(r.0, false);
    assert_eq!(r.1, E::Num(7));
    assert_eq!(r.2, E::Num(9));
    assert!(should_accept(r.0, &state, &r.1, false));
    assert!(!should_accept(false, &r.1, &E::Num(7), false));
    assert!(same_term(&point(1, 2), &point(1, 2)));
    assert!(!same_term(&point(1, 2), &point(2, 1)));
    // shared terms in different slots are different states
    let a = E::Cloned(Rc::new(E::Num(1)), 0);
    let b = E::Cloned(Rc::new(E::Num(1)), 1);
    assert!(same_term(&a, &b));
    assert!(!equal_e(&a, &b));
    assert!(equal_e(&a, &a.clone()));
    assert!(should_accept(false, &a, &b, false));
    assert!(!should_accept(false, &a, &a.clone(), false));
}

#[test]
fn galaxy_errors() {
    assert!(load_galaxy("f\n").is_none());
    assert!(load_galaxy("f = ap 1\n").is_none());
    let mut ev = load_galaxy(":1338 = :999\n").unwrap();
    let state = E::Etc(Etc::Nil);
    assert_eq!(
        interact(&mut ev, &state, &point(0, 0), 1000).unwrap_err(),
        StepError::Eval(EvalError::UnknownFunction)
    );
    let mut ev = load_galaxy(":1338 = ap t ap t 5\n").unwrap();
    assert_eq!(interact(&mut ev, &state, &point(0, 0), 1000).unwrap_err(), StepError::Shape);
}

#[test]
fn game_in_progress_is_parsed() {
    let text = "[1, 1, [256, 1, [448, 2, 128], [16, 128], []], [1, [16, 128], [[[1, 0, <34, -46>, <0, 2>, [445, 0, 0, 1], 8, 128, 2], [[0, <0, -1>]]], [[0, 1, <-34, 48>, <0, 0>, [445, 0, 0, 1], 8, 128, 2], [[0, <0, -1>]]]]]]";
    let r = parse(lisp(text)).unwrap();
    assert_eq!((r.info.ability.potential, r.info.ability.max_heat, r.info.ability.max_accelarate), (448, 2, 128));
    assert_eq!(r.state.tick, 1);
    assert_eq!(r.state.ships.len(), 2);
    let s = &r.state.ships[1];
    assert_eq!((s.role, s.id, s.pos, s.v), (0, 1, (-34, 48), (0, 0)));
    assert_eq!(s.status, Params { energy: 445, power: 0, cool: 0, life: 1 });
    assert_eq!(s.commands, vec![Command::Accelerate(-1, (0, -1))]);
}

#[test]
fn search_advances_to_longer_states() {
    let nil = E::Etc(Etc::Nil);
    assert!(advances(false, &nil, &E::Num(1)));
    assert!(advances(true, &E::Num(5), &E::Num(1)));
    assert!(advances(false, &E::Num(5), &E::Num(12)));
    assert!(advances(false, &E::Num(5), &E::Num(7)));
    assert!(!advances(false, &E::Num(7), &E::Num(5)));
    assert!(!advances(false, &E::Num(12), &E::Num(5)));
    assert!(!advances(false, &E::Num(5), &E::Num(5)));
}

#[test]
fn displayed_values_read_back() {
    let nil = || E::Etc(Etc::Nil);
    let pair = |a: E, b: E| E::Pair(Rc::new(a), Rc::new(b));
    let values = vec![
        E::Num(-42),
        nil(),
        pair(E::Num(1), E::Num(2)),
        pair(E::Num(1), pair(nil(), pair(pair(E::Num(3), E::Num(-4)), nil()))),
        pair(pair(E::Num(5), nil()), E::Num(6)),
    ];
    for v in values {
        let text = v.to_string();
        let (back, rest) = parse_lisp(&text).unwrap();
        assert_eq!(back, v, "{}", text);
        assert_eq!(rest, "");
    }
    assert_eq!(pair(E::Num(1), pair(nil(), nil())).to_string(), "[1, []]");
    assert_eq!(pair(E::Num(1), E::Num(2)).to_string(), "<1, 2>");
}

#[test]
fn lines_typed_at_the_pad() {
    assert_eq!(read_click("3 -4\n"), Click::At(3, -4));
    assert_eq!(read_click("  undo  \n"), Click::Undo);
    assert_eq!(read_click("undo 1\n"), Click::Illegal);
    assert_eq!(read_click("1\n"), Click::Illegal);
    assert_eq!(read_click("1 x\n"), Click::Illegal);
    assert_eq!(read_click("1 2 3\n"), Click::Illegal);
    assert_eq!(read_click("\n"), Click::Illegal);
}

#[test]
fn galaxy_text_form_reads_back() {
    let toks = ["ap", "ap", "cons", "1", "ap", "ap", "cons", "-2", "nil"];
    let cons = |a: E, b: E| E::Ap(Rc::new(E::Ap(Rc::new(E::Etc(Etc::Cons)), Rc::new(a))), Rc::new(b));
    let expected = cons(E::Num(1), cons(E::Num(-2), E::Etc(Etc::Nil)));
    assert_eq!(parse_tokens(&toks), Some(expected));
}

#[test]
fn selections_and_combinators() {
    let run = |toks: &[&str]| {
        let e = parse_tokens(toks).unwrap();
        Evaluator::default().eval(&e, false, 100)
    };
    assert_eq!(run(&["ap", "ap", "t", "1", "2"]), Ok(E::Num(1)));
    assert_eq!(run(&["ap", "ap", "f", "1", "2"]), Ok(E::Num(2)));
    assert_eq!(run(&["ap", "ap", "ap", "s", "add", "inc", "1"]), Ok(E::Num(3)));
    assert_eq!(run(&["ap", "ap", "ap", "b", "inc", "dec", "5"]), Ok(E::Num(5)));
    assert_eq!(run(&["ap", "ap", "ap", "c", "div", "1", "6"]), Ok(E::Num(6)));
}

#[test]
fn applications_and_names_read_back() {
    let name = |n: &str| E::Etc(Etc::Other(n.to_string()));
    let ap = |a: E, b: E| E::Ap(Rc::new(a), Rc::new(b));
    let cases = vec![
        ap(name("inc"), E::Num(1)),
        ap(ap(name(":1029"), E::Pair(Rc::new(E::Num(1)), Rc::new(E::Etc(Etc::Nil)))), name("x0")),
        E::Pair(Rc::new(ap(name("neg"), E::Num(-3))), Rc::new(name("galaxy"))),
    ];
    for e in cases {
        let text = e.to_string();
        let (back, rest) = parse_lisp(&text).unwrap();
        assert_eq!(back, e, "{}", text);
        assert_eq!(rest, "");
    }
    // the atoms t, f and cons come back as the names they are written as
    let e = ap(ap(E::Etc(Etc::T), E::Num(1)), E::Etc(Etc::Cons));
    assert_eq!(e.to_string(), "((t 1) cons)");
    let (back, _) = parse_lisp(&e.to_string()).unwrap();
    assert_eq!(back, ap(ap(name("t"), E::Num(1)), name("cons")));
}

#[test]
fn plain_names_evaluate_to_themselves() {
    let mut ev = Evaluator::default();
    let e = E::Etc(Etc::Other("galaxy".to_string()));
    assert_eq!(ev.eval(&e, false, 10), Ok(e.clone()));
    assert!(ev.data.count.is_empty());
    assert!(ev.data.cache.is_empty());
}

#[test]
fn s_shares_its_third_argument() {
    let mut ev = Evaluator::default();
    let e = parse_tokens(&["ap", "ap", "ap", "s", "add", "inc", "1"]).unwrap();
    let before = ev.data.cache.len();
    assert_eq!(ev.eval(&e, false, 100), Ok(E::Num(3)));
    assert!(ev.data.cache.len() > before);
    assert!(ev.data.cache2.len() > before);
}
