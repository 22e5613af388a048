use std::rc::Rc;

use icfpc2020::modulate::{demodulate as demodulate_elems, ModElem};
use icfpc2020::modulation::{demodulate, modulate};
use icfpc2020::parser::{Etc, E};

fn nil() -> E {
    E::Etc(Etc::Nil)
}

fn pair(a: E, b: E) -> E {
    E::Pair(Rc::new(a), Rc::new(b))
}

fn shown(r: Option<Vec<ModElem>>) -> String {
    match r {
        Some(v) => {
            let items: Vec<String> = v.iter().map(|e| e.to_string()).collect();
            format!("Some([{}])", items.join(", "))
        }
        None => "None".to_string(),
    }
}

#[test]
fn demodule() {
    assert_eq!(
        shown(demodulate_elems("110110000111011111100001001111110101000000")),
        "Some([cons, 1, cons, 81744, nil])"
    );
    assert_eq!(
        shown(demodulate_elems("110110000111011111100001001111110100110000")),
        "Some([cons, 1, cons, 81740, nil])"
    );
}

#[test]
fn test_modulate_mod() {
    assert_eq!(modulate(&nil()).unwrap(), "00");
    assert_eq!(modulate(&pair(nil(), nil())).unwrap(), "110000");
    assert_eq!(modulate(&E::Num(0)).unwrap(), "010");
    assert_eq!(modulate(&E::Num(1)).unwrap(), "01100001");
    assert_eq!(modulate(&E::Num(-16)).unwrap(), "1011000010000");
    for i in -1000..1000 {
        assert_eq!(demodulate(&modulate(&E::Num(i)).unwrap()), Some(E::Num(i)));
    }
}

#[test]
fn test_demodulate_num() {
    assert_eq!(demodulate("00"), Some(nil()));
    assert_eq!(demodulate("110000"), Some(pair(nil(), nil())));
    assert_eq!(demodulate("010"), Some(E::Num(0)));
    assert_eq!(demodulate("01100001"), Some(E::Num(1)));
    assert_eq!(demodulate("1011000010000"), Some(E::Num(-16)));
}

#[test]
fn modulate_list_round_trip() {
    let v = pair(E::Num(1), pair(pair(E::Num(-5), E::Num(300)), nil()));
    let bits = modulate(&v).unwrap();
    assert_eq!(demodulate(&bits), Some(v));
}

#[test]
fn modulate_refuses_functions() {
    assert_eq!(modulate(&E::Etc(Etc::Cons)), None);
    let ap = E::Ap(Rc::new(E::Etc(Etc::Cons)), Rc::new(E::Num(1)));
    assert_eq!(modulate(&ap), None);
}

#[test]
fn demodulate_refuses_bad_bits() {
    assert_eq!(demodulate(""), None);
    assert_eq!(demodulate("0"), None);
    assert_eq!(demodulate("1"), None);
    assert_eq!(demodulate("0110"), None);
}

#[test]
fn demodulate_elems_of_a_number() {
    assert_eq!(shown(demodulate_elems("010")), "Some([0])");
    assert_eq!(shown(demodulate_elems("1011000010000")), "Some([-16])");
    assert_eq!(shown(demodulate_elems("1")), "None");
}

#[test]
fn both_readings_agree() {
    let bits = "110110000111011111100001001111110101000000";
    let v = demodulate(bits).unwrap();
    assert_eq!(v, pair(E::Num(1), pair(E::Num(81744), nil())));
    assert_eq!(shown(demodulate_elems(bits)), "Some([cons, 1, cons, 81744, nil])");
}

#[test]
fn demodulate_elems_of_a_wide_number() {
    let ones = "1".repeat(33);
    let digits = "1".repeat(4 * 33);
    let positive = format!("01{}0{}", ones, digits);
    assert_eq!(shown(demodulate_elems(&positive)), "Some([5444517870735015415413993718908291383295])");
    let negative = format!("10{}0{}00", ones, digits);
    assert_eq!(shown(demodulate_elems(&negative)), "Some([-5444517870735015415413993718908291383295, nil])");
    assert_eq!(shown(demodulate_elems(&format!("01{}0{}", ones, "1".repeat(4 * 33 - 1)))), "None");
    assert_eq!(shown(demodulate_elems("100")), "Some([0])");
    assert_eq!(demodulate_elems("0111000010000"), Some(vec![ModElem::Number("16".to_string())]));
}

#[test]
fn demodulated_elements_keep_their_kind() {
    assert_eq!(demodulate_elems("00"), Some(vec![ModElem::Nil]));
    assert_eq!(demodulate_elems("11"), Some(vec![ModElem::Cons]));
    assert_eq!(
        demodulate_elems("1101000"),
        Some(vec![ModElem::Cons, ModElem::Number("0".to_string()), ModElem::Nil])
    );
    assert_eq!(
        demodulate_elems("110110000111011111100001001111110101000000"),
        Some(vec![
            ModElem::Cons,
            ModElem::Number("1".to_string()),
            ModElem::Cons,
            ModElem::Number("81744".to_string()),
            ModElem::Nil,
        ])
    );
    assert_eq!(demodulate_elems(""), Some(vec![]));
    assert_eq!(demodulate_elems("0"), None);
    assert_eq!(demodulate_elems("01110"), None);
}
