//! Reading the answer to a request for a new game room: the keys of the
//! attacker and the defender.
use vstd::prelude::*;
use crate::parser::{E, get_list, list_of, show, unrc_seq};

verus! {

/// The keys in the answer `e` to a room request `[1, 0]`: the answer is a
/// list whose second item lists the attacker's and the defender's entries,
/// each a list whose second item is the key, shown as text.
pub open spec fn room_spec(e: E) -> Option<(Seq<char>, Seq<char>)> {
    match list_of(e) {
        Some(items) => if items.len() >= 2 {
            match list_of(items[1]) {
                Some(ps) => if ps.len() >= 2 {
                    match (list_of(ps[0]), list_of(ps[1])) {
                        (Some(a), Some(d)) => if a.len() >= 2 && d.len() >= 2 {
                            Some((show(a[1]), show(d[1])))
                        } else {
                            None
                        },
                        _ => None,
                    }
                } else {
                    None
                },
                None => None,
            }
        } else {
            None
        },
        None => None,
    }
}

/// The attacker's and the defender's keys in the answer `e` to a room
/// request (see `room_spec`); `None` when the answer has another shape.
pub fn room_keys(e: &E) -> (r: Option<(String, String)>)
    ensures
        match r {
            Some((a, d)) => room_spec(*e) == Some((a@, d@)),
            None => room_spec(*e) is None,
        },
{
    let items = match get_list(e) {
        Some(v) => v,
        None => return None,
    };
    if items.len() < 2 {
        return None;
    }
    assert(unrc_seq(items@)[1] == *items@[1]);
    let ps = match get_list(&items[1]) {
        Some(v) => v,
        None => return None,
    };
    if ps.len() < 2 {
        return None;
    }
    assert(unrc_seq(ps@)[0] == *ps@[0]);
    assert(unrc_seq(ps@)[1] == *ps@[1]);
    let a = match get_list(&ps[0]) {
        Some(v) => v,
        None => return None,
    };
    let d = match get_list(&ps[1]) {
        Some(v) => v,
        None => return None,
    };
    if a.len() < 2 || d.len() < 2 {
        return None;
    }
    assert(unrc_seq(a@)[1] == *a@[1]);
    assert(unrc_seq(d@)[1] == *d@[1]);
    Some((a[1].to_string(), d[1].to_string()))
}

} // verus!
