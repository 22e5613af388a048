//! Talking to the galaxy: the definitions read from its text, and one step
//! of the interaction, which applies the galaxy to a state and an input and
//! reads back the flag, the new state and the data to send or draw.
use std::rc::Rc;
use vstd::prelude::*;
use crate::parser::{
    E, Etc, Int, Term, lemma_no_shared_closed, parse_spec, parse_tokens, show, token_views, unrc,
};
use crate::eval::{EvalError, Evaluator, big_step};
use crate::client::{split_words, words_from};
use crate::recognize::{lemma_line_end, line_end, strip_cr};
use crate::text::{chars_of, decimal_value, parse_decimal, str_eq, string_of};

verus! {

/// The lines of `cs` from position `i` on, as `str::lines` gives them.
pub open spec fn lines_from(cs: Seq<char>, i: int) -> Seq<Seq<char>>
    decreases cs.len() - i,
{
    if i < 0 || i >= cs.len() {
        Seq::empty()
    } else {
        proof {
            lemma_line_end(cs, i);
        }
        let j = line_end(cs, i);
        let line = strip_cr(cs.subrange(i, j), j < cs.len());
        seq![line] + if j < cs.len() {
            lines_from(cs, j + 1)
        } else {
            Seq::empty()
        }
    }
}

/// The definition on a line: its first word names the function, and the
/// words from the third on spell its body exactly.
pub open spec fn definition(line: Seq<char>) -> Option<(Seq<char>, Term)> {
    let ws = words_from(line, 0);
    if ws.len() < 2 {
        None
    } else {
        let toks = ws.subrange(2, ws.len() as int);
        match parse_spec(toks, 0) {
            Some((t, k)) => if k == toks.len() {
                Some((ws[0], t))
            } else {
                None
            },
            None => None,
        }
    }
}

/// The functions the lines define, a later definition of a name replacing
/// an earlier one; `None` when some line is no definition.
pub open spec fn defs_of(lines: Seq<Seq<char>>) -> Option<Map<Seq<char>, Term>>
    decreases lines.len(),
{
    if lines.len() == 0 {
        Some(Map::empty())
    } else {
        match (defs_of(lines.drop_last()), definition(lines.last())) {
            (Some(m), Some((n, t))) => Some(m.insert(n, t)),
            _ => None,
        }
    }
}

proof fn lemma_defs_prefix(s: Seq<Seq<char>>, t: Seq<Seq<char>>)
    requires
        defs_of(s) is None,
    ensures
        defs_of(s + t) is None,
    decreases t.len(),
{
    if t.len() > 0 {
        lemma_defs_prefix(s, t.drop_last());
        assert((s + t).drop_last() == s + t.drop_last());
    }
}

fn line_end_at(cs: &Vec<char>, i: usize) -> (r: usize)
    requires
        i <= cs.len(),
    ensures
        r == line_end(cs@, i as int),
    decreases cs.len() - i,
{
    if i < cs.len() && cs[i] != '\n' {
        line_end_at(cs, i + 1)
    } else {
        i
    }
}

/// The definition on the line `line` (see `definition`).
fn read_definition(line: &str) -> (r: Option<(String, E)>)
    ensures
        match r {
            Some((n, e)) => definition(line@) == Some((n@, e.term())) && e.no_shared(),
            None => definition(line@) is None,
        },
{
    let ws = split_words(line);
    let ghost wsv = ws@.map_values(|w: String| w@);
    if ws.len() < 2 {
        return None;
    }
    let mut toks: Vec<&str> = Vec::new();
    let mut i: usize = 2;
    while i < ws.len()
        invariant
            2 <= i <= ws.len(),
            wsv == ws@.map_values(|w: String| w@),
            token_views(toks@) == wsv.subrange(2, i as int),
        decreases ws.len() - i,
    {
        let w = ws[i].as_str();
        assert(w@ == wsv[i as int]);
        let ghost before = toks@;
        toks.push(w);
        assert(token_views(toks@) =~= token_views(before).push(w@));
        assert(wsv.subrange(2, i + 1) =~= wsv.subrange(2, i as int).push(wsv[i as int]));
        i = i + 1;
    }
    match parse_tokens(toks.as_slice()) {
        Some(e) => {
            let name = ws[0].clone();
            assert(name@ == wsv[0]);
            Some((name, e))
        },
        None => None,
    }
}

/// An evaluator holding the functions the galaxy's text defines, one
/// definition `name = body` per line; `None` when a line is no definition.
pub fn load_galaxy(text: &str) -> (r: Option<Evaluator>)
    ensures
        match r {
            Some(ev) => ev.wf() && defs_of(lines_from(text@, 0)) == Some(ev.defs()),
            None => defs_of(lines_from(text@, 0)) is None,
        },
{
    let cs = chars_of(text);
    let ghost all = lines_from(cs@, 0);
    let mut ev = Evaluator::default();
    let ghost mut done: Seq<Seq<char>> = Seq::empty();
    proof {
        assert(ev.defs() =~= Map::<Seq<char>, Term>::empty());
        assert(done + lines_from(cs@, 0) == all);
    }
    let mut i: usize = 0;
    while i < cs.len()
        invariant
            i <= cs.len(),
            cs@ == text@,
            all == lines_from(cs@, 0),
            done + lines_from(cs@, i as int) == all,
            ev.wf(),
            defs_of(done) == Some(ev.defs()),
        decreases cs.len() - i,
    {
        proof {
            lemma_line_end(cs@, i as int);
        }
        let j = line_end_at(&cs, i);
        let k = if j < cs.len() && j > i && cs[j - 1] == '\r' {
            j - 1
        } else {
            j
        };
        let mut line: Vec<char> = Vec::new();
        let mut p: usize = i;
        while p < k
            invariant
                i <= p <= k <= cs.len(),
                line@ == cs@.subrange(i as int, p as int),
            decreases k - p,
        {
            line.push(cs[p]);
            p = p + 1;
        }
        let ghost lv = strip_cr(cs@.subrange(i as int, j as int), j < cs.len());
        assert(line@ == lv);
        let ls = string_of(line.as_slice());
        let ghost rest = if j < cs.len() {
            lines_from(cs@, j + 1)
        } else {
            Seq::<Seq<char>>::empty()
        };
        assert(lines_from(cs@, i as int) == seq![lv] + rest);
        match read_definition(ls.as_str()) {
            Some((name, e)) => {
                proof {
                    lemma_no_shared_closed(e, ev.data.srcs@);
                }
                let ghost old_defs = ev.defs();
                ev.insert_function(name, e);
                proof {
                    assert(ev.defs() =~= old_defs.insert(name@, e.term()));
                    assert(done.push(lv).drop_last() == done);
                    done = done.push(lv);
                    assert(done + rest == all);
                }
            },
            None => {
                proof {
                    assert(done.push(lv).drop_last() == done);
                    lemma_defs_prefix(done.push(lv), rest);
                    assert(done.push(lv) + rest == all);
                }
                return None;
            },
        }
        if j < cs.len() {
            i = j + 1;
        } else {
            i = j;
            assert(lines_from(cs@, i as int) == Seq::<Seq<char>>::empty());
        }
    }
    assert(lines_from(cs@, i as int) == Seq::<Seq<char>>::empty());
    assert(done == all);
    Some(ev)
}

/// Why a step of the interaction fails.
#[derive(Clone, Copy, PartialEq, Eq, Debug)]
pub enum StepError {
    /// An evaluation failed.
    Eval(EvalError),
    /// The galaxy's answer is not a list `[flag, state, data, ...]`.
    Shape,
}

/// The input of a click at `(x, y)`: `ap ap cons x y`.
pub open spec fn point_term(x: int, y: int) -> Term {
    Term::Ap(
        Box::new(Term::Ap(Box::new(Term::Cons), Box::new(Term::Num(x as Int)))),
        Box::new(Term::Num(y as Int)),
    )
}

/// The input of a click at `(x, y)`.
pub fn point(x: Int, y: Int) -> (r: E)
    ensures
        r.term() == point_term(x as int, y as int),
        r.no_shared(),
{
    let c = E::Etc(Etc::Cons);
    let nx = E::Num(x);
    let ny = E::Num(y);
    assert(c.term() == Term::Cons);
    assert(nx.term() == Term::Num(x));
    assert(ny.term() == Term::Num(y));
    assert(c.no_shared() && nx.no_shared() && ny.no_shared());
    let inner = E::Ap(Rc::new(c), Rc::new(nx));
    assert(inner.term() == Term::Ap(Box::new(Term::Cons), Box::new(Term::Num(x))));
    assert(inner.no_shared());
    let r = E::Ap(Rc::new(inner), Rc::new(ny));
    assert(r.no_shared());
    r
}

/// The application of the galaxy's entry function `:1338` to the state and
/// the input.
pub open spec fn request(state: Term, input: Term) -> Term {
    Term::Ap(
        Box::new(Term::Ap(Box::new(Term::Other(":1338"@)), Box::new(state))),
        Box::new(input),
    )
}

/// The parts of the galaxy's answer `[flag, state, data, ...]`: whether the
/// flag is other than 0, the new state, and the data.
pub open spec fn reply_parts(t: Term) -> Option<(bool, Term, Term)> {
    match t {
        Term::Pair(f, rest) => match *rest {
            Term::Pair(st, rest2) => match *rest2 {
                Term::Pair(d, _) => Some((*f != Term::Num(0), *st, *d)),
                _ => None,
            },
            _ => None,
        },
        _ => None,
    }
}

/// One step of the interaction: the request is evaluated, and its value
/// evaluated again with pairs, each with `fuel`; the answer is read by
/// `reply_parts`.
pub open spec fn interact_spec(defs: Map<Seq<char>, Term>, state: Term, input: Term, fuel: nat) -> Result<
    (bool, Term, Term),
    StepError,
> {
    match big_step(defs, request(state, input), false, fuel) {
        Err(e) => Err(StepError::Eval(e)),
        Ok(t1) => match big_step(defs, t1, true, fuel) {
            Err(e) => Err(StepError::Eval(e)),
            Ok(t2) => match reply_parts(t2) {
                Some(p) => Ok(p),
                None => Err(StepError::Shape),
            },
        },
    }
}

/// The two parts of `e` when it stands for a pair.
fn as_pair(e: &E, Ghost(srcs): Ghost<Seq<Term>>) -> (r: Option<(Rc<E>, Rc<E>)>)
    requires
        e.closed(srcs),
    ensures
        match e.term() {
            Term::Pair(a, b) => r matches Some((x, y)) && unrc(x).term() == *a && unrc(y).term() == *b
                && unrc(x).closed(srcs) && unrc(y).closed(srcs),
            _ => r is None,
        },
    decreases e,
{
    match e {
        E::Pair(a, b) => Some((a.clone(), b.clone())),
        E::Cloned(a, _) => as_pair(a, Ghost(srcs)),
        _ => None,
    }
}

/// Whether `e` stands for the number 0.
fn is_zero(e: &E) -> (r: bool)
    ensures
        r == (e.term() == Term::Num(0)),
    decreases e,
{
    match e {
        E::Num(n) => *n == 0,
        E::Cloned(a, _) => is_zero(a),
        _ => false,
    }
}

/// One step of the interaction (see `interact_spec`) with the functions of
/// `ev`, from `state` with `input`: the flag, the new state and the data.
pub fn interact(ev: &mut Evaluator, state: &E, input: &E, fuel: u64) -> (r: Result<
    (bool, E, E),
    StepError,
>)
    requires
        old(ev).wf(),
        state.closed(old(ev).data.srcs@),
        input.closed(old(ev).data.srcs@),
    ensures
        final(ev).wf(),
        final(ev).map@ == old(ev).map@,
        old(ev).data.srcs@.is_prefix_of(final(ev).data.srcs@),
        match (r, interact_spec(old(ev).defs(), state.term(), input.term(), fuel as nat)) {
            (Ok((f, s, d)), Ok((f2, s2, d2))) => f == f2 && s.term() == s2 && d.term() == d2
                && s.closed(final(ev).data.srcs@) && d.closed(final(ev).data.srcs@),
            (Err(e), Err(e2)) => e == e2,
            _ => false,
        },
{
    let ghost defs = ev.defs();
    let ghost srcs0 = ev.data.srcs@;
    let entry = E::Etc(Etc::Other(String::from_str(":1338")));
    assert(entry.term() == Term::Other(":1338"@));
    assert(entry.closed(srcs0));
    let head = E::Ap(Rc::new(entry), Rc::new(state.copy()));
    assert(head.term() == Term::Ap(Box::new(Term::Other(":1338"@)), Box::new(state.term())));
    assert(head.closed(srcs0));
    let exp = E::Ap(Rc::new(head), Rc::new(input.copy()));
    assert(exp.term() == request(state.term(), input.term()));
    assert(exp.closed(srcs0));
    let f1 = match ev.eval(&exp, false, fuel) {
        Ok(v) => v,
        Err(e) => return Err(StepError::Eval(e)),
    };
    assert(ev.defs() =~= defs);
    let ghost srcs1 = ev.data.srcs@;
    let f2 = match ev.eval(&f1, true, fuel) {
        Ok(v) => v,
        Err(e) => return Err(StepError::Eval(e)),
    };
    let ghost srcs2 = ev.data.srcs@;
    let (flag, rest) = match as_pair(&f2, Ghost(srcs2)) {
        Some(p) => p,
        None => return Err(StepError::Shape),
    };
    let (st, rest2) = match as_pair(&rest, Ghost(srcs2)) {
        Some(p) => p,
        None => return Err(StepError::Shape),
    };
    let (data, _) = match as_pair(&rest2, Ghost(srcs2)) {
        Some(p) => p,
        None => return Err(StepError::Shape),
    };
    Ok((!is_zero(&flag), (*st).copy(), (*data).copy()))
}

/// Whether `a` and `b` stand for the same term.
pub fn same_term(a: &E, b: &E) -> (r: bool)
    ensures
        r == (a.term() == b.term()),
    decreases a, b,
{
    match (a, b) {
        (E::Cloned(x, _), _) => same_term(x, b),
        (_, E::Cloned(y, _)) => same_term(a, y),
        (E::Ap(a1, a2), E::Ap(b1, b2)) => same_term(a1, b1) && same_term(a2, b2),
        (E::Pair(a1, a2), E::Pair(b1, b2)) => same_term(a1, b1) && same_term(a2, b2),
        (E::Num(x), E::Num(y)) => *x == *y,
        (E::Etc(x), E::Etc(y)) => match (x, y) {
            (Etc::Other(s), Etc::Other(t)) => crate::text::str_eq(s.as_str(), t.as_str()),
            (Etc::Nil, Etc::Nil) => true,
            (Etc::T, Etc::T) => true,
            (Etc::F, Etc::F) => true,
            (Etc::Cons, Etc::Cons) => true,
            _ => false,
        },
        _ => false,
    }
}

/// What a line typed at the pad asks for: a click at a point, to undo the
/// last step, or nothing it can read.
#[derive(Clone, Copy, PartialEq, Eq, Structural, Debug)]
pub enum Click {
    At(Int, Int),
    Undo,
    Illegal,
}

/// The request of the line `line`: `undo` alone undoes; two words that
/// read as integers click there; anything else is illegal.
pub open spec fn click_spec(line: Seq<char>) -> Click {
    let ws = words_from(line, 0);
    if ws.len() == 1 && ws[0] == "undo"@ {
        Click::Undo
    } else if ws.len() == 2 && decimal_value(ws[0]) is Some && decimal_value(ws[1]) is Some {
        Click::At(decimal_value(ws[0])->0, decimal_value(ws[1])->0)
    } else {
        Click::Illegal
    }
}

/// Reads a line typed at the pad (see `click_spec`).
pub fn read_click(line: &str) -> (r: Click)
    ensures
        r == click_spec(line@),
{
    let ws = split_words(line);
    let ghost wv = ws@.map_values(|w: String| w@);
    if ws.len() == 1 && str_eq(ws[0].as_str(), "undo") {
        assert(wv[0] == ws@[0]@);
        return Click::Undo;
    }
    if ws.len() != 2 {
        proof {
            if ws.len() == 1 {
                assert(wv[0] == ws@[0]@);
            }
        }
        return Click::Illegal;
    }
    assert(wv[0] == ws@[0]@ && wv[1] == ws@[1]@);
    let a = chars_of(ws[0].as_str());
    let b = chars_of(ws[1].as_str());
    match (parse_decimal(a.as_slice()), parse_decimal(b.as_slice())) {
        (Some(x), Some(y)) => Click::At(x, y),
        _ => Click::Illegal,
    }
}

/// Whether `a` and `b` are alike in every part: the same kinds of nodes,
/// numbers, names and shared-term slots.
pub open spec fn same_e(a: E, b: E) -> bool
    decreases a,
{
    match (a, b) {
        (E::Ap(a1, a2), E::Ap(b1, b2)) => same_e(*a1, *b1) && same_e(*a2, *b2),
        (E::Pair(a1, a2), E::Pair(b1, b2)) => same_e(*a1, *b1) && same_e(*a2, *b2),
        (E::Cloned(x, i), E::Cloned(y, j)) => i == j && same_e(*x, *y),
        (E::Num(x), E::Num(y)) => x == y,
        (E::Etc(x), E::Etc(y)) => match (x, y) {
            (Etc::Other(s), Etc::Other(t)) => s@ == t@,
            (Etc::Nil, Etc::Nil) => true,
            (Etc::T, Etc::T) => true,
            (Etc::F, Etc::F) => true,
            (Etc::Cons, Etc::Cons) => true,
            _ => false,
        },
        _ => false,
    }
}

/// Whether `a` and `b` are alike in every part (see `same_e`).
pub fn equal_e(a: &E, b: &E) -> (r: bool)
    ensures
        r == same_e(*a, *b),
    decreases a,
{
    match (a, b) {
        (E::Ap(a1, a2), E::Ap(b1, b2)) => equal_e(a1, b1) && equal_e(a2, b2),
        (E::Pair(a1, a2), E::Pair(b1, b2)) => equal_e(a1, b1) && equal_e(a2, b2),
        (E::Cloned(x, i), E::Cloned(y, j)) => *i == *j && equal_e(x, y),
        (E::Num(x), E::Num(y)) => *x == *y,
        (E::Etc(x), E::Etc(y)) => match (x, y) {
            (Etc::Other(s), Etc::Other(t)) => crate::text::str_eq(s.as_str(), t.as_str()),
            (Etc::Nil, Etc::Nil) => true,
            (Etc::T, Etc::T) => true,
            (Etc::F, Etc::F) => true,
            (Etc::Cons, Etc::Cons) => true,
            _ => false,
        },
        _ => false,
    }
}

/// Whether a step's answer is taken: the galaxy wants data sent, the state
/// changed in any part (see `same_e`), or it is the first step.
pub fn should_accept(flag: bool, state: &E, new_state: &E, first: bool) -> (r: bool)
    ensures
        r == (flag || !same_e(*state, *new_state) || first),
{
    flag || !equal_e(state, new_state) || first
}

/// Whether `a` comes before `b` among texts of one length: at the first
/// place they differ, `a` has the lesser character.
pub open spec fn lex_lt(a: Seq<char>, b: Seq<char>) -> bool {
    exists|i: int|
        0 <= i < a.len() && i < b.len() && a.subrange(0, i) == b.subrange(0, i) && (a[i] as u32) < (
        #[trigger] b[i] as u32)
}

/// Whether a shorter text, or one of the same length that comes first,
/// is `a`.
pub open spec fn text_lt(a: Seq<char>, b: Seq<char>) -> bool {
    a.len() < b.len() || (a.len() == b.len() && lex_lt(a, b))
}

fn text_less(a: &str, b: &str) -> (r: bool)
    ensures
        r == text_lt(a@, b@),
{
    let ca = chars_of(a);
    let cb = chars_of(b);
    if ca.len() != cb.len() {
        return ca.len() < cb.len();
    }
    let mut i: usize = 0;
    while i < ca.len()
        invariant
            i <= ca.len(),
            ca.len() == cb.len(),
            ca@ == a@,
            cb@ == b@,
            ca@.subrange(0, i as int) == cb@.subrange(0, i as int),
        decreases ca.len() - i,
    {
        if ca[i] != cb[i] {
            let lt = (ca[i] as u32) < (cb[i] as u32);
            proof {
                if !lt {
                    assert forall|j: int|
                        0 <= j < a@.len() && j < b@.len() && a@.subrange(0, j) == b@.subrange(0, j)
                            implies !((a@[j] as u32) < (#[trigger] b@[j] as u32)) by {
                        if j < i {
                            assert(a@[j] == a@.subrange(0, i as int)[j]);
                            assert(b@[j] == b@.subrange(0, i as int)[j]);
                        } else if j > i {
                            assert(a@[i as int] == a@.subrange(0, j)[i as int]);
                            assert(b@[i as int] == b@.subrange(0, j)[i as int]);
                        }
                    }
                }
            }
            return lt;
        }
        assert(ca@.subrange(0, i + 1) == ca@.subrange(0, i as int).push(ca@[i as int]));
        assert(cb@.subrange(0, i + 1) == cb@.subrange(0, i as int).push(cb@[i as int]));
        i = i + 1;
    }
    proof {
        assert forall|j: int|
            0 <= j < a@.len() && j < b@.len() && a@.subrange(0, j) == b@.subrange(0, j) implies !((a@[j]
                as u32) < (#[trigger] b@[j] as u32)) by {
            assert(a@[j] == a@.subrange(0, i as int)[j]);
            assert(b@[j] == b@.subrange(0, i as int)[j]);
        }
    }
    false
}

/// Whether a step's answer moves the search on: the galaxy wants data
/// sent, the state is still empty, or the new state's text comes after the
/// old one's (longer, or as long and later).
pub fn advances(flag: bool, state: &E, new_state: &E) -> (r: bool)
    ensures
        r == (flag || show(*state) == "[]"@ || text_lt(show(*state), show(*new_state))),
{
    if flag {
        return true;
    }
    let a = state.to_string();
    let b = new_state.to_string();
    crate::text::str_eq(a.as_str(), "[]") || text_less(a.as_str(), b.as_str())
}

} // verus!
