//! Terms of the galaxy language: applications, numbers, pairs, names and
//! shared subterms, with their mathematical model `Term`.
use std::rc::Rc;
use vstd::prelude::*;
use crate::text::{
    str_eq, chars_of, parse_decimal, decimal_value, push_int, push_str, int_text, string_push, string_of,
    lemma_decimal_int_text, lemma_nat_text, nat_text, is_digit,
};

verus! {

/// The integers of the language.
pub type Int = i128;

/// A term. `Cloned(a, id)` is the term `a`, shared: its value is kept in slot
/// `id` of the evaluator's caches once computed.
#[derive(Clone, PartialEq, Eq, Debug)]
pub enum E {
    Ap(Rc<E>, Rc<E>),
    Num(Int),
    Pair(Rc<E>, Rc<E>),
    Etc(Etc),
    Cloned(Rc<E>, usize),
}

/// The atoms of the language.
#[derive(Clone, PartialEq, Eq, Debug)]
pub enum Etc {
    Other(String),
    Nil,
    T,
    F,
    Cons,
}

/// The model of a term: what it means, with sharing forgotten.
pub ghost enum Term {
    Ap(Box<Term>, Box<Term>),
    Num(Int),
    Pair(Box<Term>, Box<Term>),
    Other(Seq<char>),
    Nil,
    T,
    F,
    Cons,
}

impl Etc {
    pub open spec fn term(self) -> Term {
        match self {
            Etc::Other(s) => Term::Other(s@),
            Etc::Nil => Term::Nil,
            Etc::T => Term::T,
            Etc::F => Term::F,
            Etc::Cons => Term::Cons,
        }
    }

    /// A copy of this atom.
    pub fn copy(&self) -> (r: Etc)
        ensures
            r == *self,
    {
        match self {
            Etc::Other(s) => Etc::Other(s.clone()),
            Etc::Nil => Etc::Nil,
            Etc::T => Etc::T,
            Etc::F => Etc::F,
            Etc::Cons => Etc::Cons,
        }
    }
}

impl E {
    /// The model of the term: `Cloned` nodes stand for the term they share.
    pub open spec fn term(self) -> Term
        decreases self,
    {
        match self {
            E::Ap(a, b) => Term::Ap(Box::new((*a).term()), Box::new((*b).term())),
            E::Num(n) => Term::Num(n),
            E::Pair(a, b) => Term::Pair(Box::new((*a).term()), Box::new((*b).term())),
            E::Etc(etc) => etc.term(),
            E::Cloned(a, _) => (*a).term(),
        }
    }

    /// Every shared node `Cloned(a, id)` in the term has a slot `id` in
    /// `srcs`, and that slot records the meaning of `a`.
    pub open spec fn closed(self, srcs: Seq<Term>) -> bool
        decreases self,
    {
        match self {
            E::Ap(a, b) => (*a).closed(srcs) && (*b).closed(srcs),
            E::Pair(a, b) => (*a).closed(srcs) && (*b).closed(srcs),
            E::Cloned(a, id) => id < srcs.len() && srcs[id as int] == (*a).term() && (*a).closed(
                srcs,
            ),
            _ => true,
        }
    }

    /// The term holds no shared node.
    pub open spec fn no_shared(self) -> bool
        decreases self,
    {
        match self {
            E::Ap(a, b) => (*a).no_shared() && (*b).no_shared(),
            E::Pair(a, b) => (*a).no_shared() && (*b).no_shared(),
            E::Cloned(_, _) => false,
            _ => true,
        }
    }

    /// The shape of every value the evaluator returns: not a shared node, and
    /// the function part of an application is again of this shape.
    pub open spec fn is_value_shape(self) -> bool
        decreases self,
    {
        match self {
            E::Cloned(_, _) => false,
            E::Ap(a, _) => (*a).is_value_shape(),
            _ => true,
        }
    }

    /// A copy of this term (shared parts stay shared).
    pub fn copy(&self) -> (r: E)
        ensures
            r == *self,
    {
        match self {
            E::Ap(a, b) => E::Ap(a.clone(), b.clone()),
            E::Num(n) => E::Num(*n),
            E::Pair(a, b) => E::Pair(a.clone(), b.clone()),
            E::Etc(etc) => E::Etc(etc.copy()),
            E::Cloned(a, id) => E::Cloned(a.clone(), *id),
        }
    }
}

/// The term behind a reference-counted pointer.
pub open spec fn unrc(r: Rc<E>) -> E {
    *r
}

/// A term without shared nodes is closed with respect to any slot table.
pub proof fn lemma_no_shared_closed(e: E, srcs: Seq<Term>)
    requires
        e.no_shared(),
    ensures
        e.closed(srcs),
    decreases e,
{
    match e {
        E::Ap(a, b) => {
            lemma_no_shared_closed(unrc(a), srcs);
            lemma_no_shared_closed(unrc(b), srcs);
        },
        E::Pair(a, b) => {
            lemma_no_shared_closed(unrc(a), srcs);
            lemma_no_shared_closed(unrc(b), srcs);
        },
        _ => {},
    }
}

/// Closedness survives adding slots.
pub proof fn lemma_closed_extend(e: E, srcs: Seq<Term>, srcs2: Seq<Term>)
    requires
        e.closed(srcs),
        srcs.is_prefix_of(srcs2),
    ensures
        e.closed(srcs2),
    decreases e,
{
    match e {
        E::Ap(a, b) => {
            lemma_closed_extend(unrc(a), srcs, srcs2);
            lemma_closed_extend(unrc(b), srcs, srcs2);
        },
        E::Pair(a, b) => {
            lemma_closed_extend(unrc(a), srcs, srcs2);
            lemma_closed_extend(unrc(b), srcs, srcs2);
        },
        E::Cloned(a, id) => {
            lemma_closed_extend(unrc(a), srcs, srcs2);
        },
        _ => {},
    }
}

} // verus!

verus! {

// ---------------------------------------------------------------------------
// Atoms named by their text

/// The atom that a name stands for: `nil`, `t`, `f` and `cons` are the
/// builtin atoms, any other name is kept as it is.
pub open spec fn etc_of_name(name: Seq<char>) -> Term {
    if name == "nil"@ {
        Term::Nil
    } else if name == "t"@ {
        Term::T
    } else if name == "f"@ {
        Term::F
    } else if name == "cons"@ {
        Term::Cons
    } else {
        Term::Other(name)
    }
}

/// The atom that a name stands for (see `etc_of_name`).
pub fn etc_from_name(name: &str) -> (r: Etc)
    ensures
        r.term() == etc_of_name(name@),
{
    if str_eq(name, "nil") {
        Etc::Nil
    } else if str_eq(name, "t") {
        Etc::T
    } else if str_eq(name, "f") {
        Etc::F
    } else if str_eq(name, "cons") {
        Etc::Cons
    } else {
        Etc::Other(name.to_owned())
    }
}

/// `e` with every atom spelled out as a name (`Other("nil")`, ...) replaced
/// by the builtin atom; shared nodes keep their slots.
pub open spec fn regularize(e: E) -> E
    decreases e,
{
    match e {
        E::Ap(a, b) => E::Ap(Rc::new(regularize(*a)), Rc::new(regularize(*b))),
        E::Pair(a, b) => E::Pair(Rc::new(regularize(*a)), Rc::new(regularize(*b))),
        E::Cloned(a, s) => E::Cloned(Rc::new(regularize(*a)), s),
        E::Etc(Etc::Other(name)) => if name@ == "nil"@ {
            E::Etc(Etc::Nil)
        } else if name@ == "t"@ {
            E::Etc(Etc::T)
        } else if name@ == "f"@ {
            E::Etc(Etc::F)
        } else if name@ == "cons"@ {
            E::Etc(Etc::Cons)
        } else {
            e
        },
        _ => e,
    }
}

/// The meaning of `regularize`: every atom spelled out as a name replaced
/// by the atom the name stands for (see `etc_of_name`).
pub open spec fn regular_term(t: Term) -> Term
    decreases t,
{
    match t {
        Term::Ap(a, b) => Term::Ap(Box::new(regular_term(*a)), Box::new(regular_term(*b))),
        Term::Pair(a, b) => Term::Pair(Box::new(regular_term(*a)), Box::new(regular_term(*b))),
        Term::Other(n) => etc_of_name(n),
        _ => t,
    }
}

/// `regularize` means `regular_term` of the meaning, and keeps a term free
/// of shared nodes.
pub proof fn lemma_regularize(e: E)
    ensures
        regularize(e).term() == regular_term(e.term()),
        e.no_shared() ==> regularize(e).no_shared(),
    decreases e,
{
    match e {
        E::Ap(a, b) => {
            lemma_regularize(unrc(a));
            lemma_regularize(unrc(b));
        },
        E::Pair(a, b) => {
            lemma_regularize(unrc(a));
            lemma_regularize(unrc(b));
        },
        E::Cloned(a, _) => {
            lemma_regularize(unrc(a));
        },
        _ => {},
    }
}

/// Replaces the atoms spelled out as names by the builtin atoms.
pub fn regularize_etc(e: &E) -> (r: E)
    ensures
        r == regularize(*e),
    decreases e,
{
    match e {
        E::Ap(a, b) => E::Ap(Rc::new(regularize_etc(a)), Rc::new(regularize_etc(b))),
        E::Num(num) => E::Num(*num),
        E::Pair(a, b) => E::Pair(Rc::new(regularize_etc(a)), Rc::new(regularize_etc(b))),
        E::Etc(etc) => E::Etc(
            match etc {
                Etc::Other(name) => {
                    if str_eq(name.as_str(), "nil") {
                        Etc::Nil
                    } else if str_eq(name.as_str(), "t") {
                        Etc::T
                    } else if str_eq(name.as_str(), "f") {
                        Etc::F
                    } else if str_eq(name.as_str(), "cons") {
                        Etc::Cons
                    } else {
                        etc.copy()
                    }
                },
                _ => etc.copy(),
            },
        ),
        E::Cloned(a, s) => E::Cloned(Rc::new(regularize_etc(a)), *s),
    }
}

// ---------------------------------------------------------------------------
// The prefix notation of the galaxy text: `ap ap cons 1 nil`

/// Reading the expression that starts at token `i`: its meaning and the
/// index of the first token after it.
pub open spec fn parse_spec(toks: Seq<Seq<char>>, i: int) -> Option<(Term, int)>
    decreases toks.len() - i,
{
    if i < 0 || i >= toks.len() {
        None
    } else if toks[i] == "ap"@ {
        match parse_spec(toks, i + 1) {
            Some((a, j)) => if i < j <= toks.len() {
                match parse_spec(toks, j) {
                    Some((b, k)) => Some((Term::Ap(Box::new(a), Box::new(b)), k)),
                    None => None,
                }
            } else {
                None
            },
            None => None,
        }
    } else {
        match decimal_value(toks[i]) {
            Some(n) => Some((Term::Num(n), i + 1)),
            None => Some((etc_of_name(toks[i]), i + 1)),
        }
    }
}

/// The tokens as character sequences.
pub open spec fn token_views(ss: Seq<&str>) -> Seq<Seq<char>> {
    ss.map_values(|s: &str| s@)
}

proof fn lemma_parse_spec_advances(toks: Seq<Seq<char>>, i: int)
    ensures
        parse_spec(toks, i) matches Some((_, j)) ==> i < j <= toks.len(),
    decreases toks.len() - i,
{
    if 0 <= i < toks.len() && toks[i] == "ap"@ {
        lemma_parse_spec_advances(toks, i + 1);
        if let Some((a, j)) = parse_spec(toks, i + 1) {
            lemma_parse_spec_advances(toks, j);
        }
    }
}

/// Reads the expression that starts at token `i` of `ss`: `ap` applies the
/// next expression to the one after it, a decimal token is a number, and any
/// other token is an atom. `None` when the tokens end too early.
pub fn parse(ss: &[&str], i: usize) -> (r: Option<(E, usize)>)
    ensures
        match (r, parse_spec(token_views(ss@), i as int)) {
            (Some((e, j)), Some((t, k))) => e.term() == t && e.no_shared() && j == k,
            (None, None) => true,
            _ => false,
        },
    decreases ss.len() - i,
{
    let ghost toks = token_views(ss@);
    if i >= ss.len() {
        return None;
    }
    proof {
        lemma_parse_spec_advances(toks, i as int);
        lemma_parse_spec_advances(toks, i + 1);
    }
    assert(toks[i as int] == ss[i as int]@);
    if str_eq(ss[i], "ap") {
        match parse(ss, i + 1) {
            Some((first, j)) => {
                match parse(ss, j) {
                    Some((second, k)) => Some((E::Ap(Rc::new(first), Rc::new(second)), k)),
                    None => None,
                }
            },
            None => None,
        }
    } else {
        let cs = chars_of(ss[i]);
        match parse_decimal(cs.as_slice()) {
            Some(n) => Some((E::Num(n), i + 1)),
            None => Some((E::Etc(etc_from_name(ss[i])), i + 1)),
        }
    }
}

/// Reads a whole token sequence as one expression; `None` unless the tokens
/// spell exactly one expression.
pub fn parse_tokens(ss: &[&str]) -> (r: Option<E>)
    ensures
        match (r, parse_spec(token_views(ss@), 0)) {
            (Some(e), Some((t, k))) => e.term() == t && e.no_shared() && k == ss.len(),
            (None, Some((t, k))) => k != ss.len(),
            (None, None) => true,
            _ => false,
        },
{
    match parse(ss, 0) {
        Some((e, n)) => if n == ss.len() {
            Some(e)
        } else {
            None
        },
        None => None,
    }
}

/// The tokens of the galaxy text form of a term: `ap` before an
/// application's two parts, a pair as `ap ap cons` of its parts, numbers in
/// decimal, and atoms by their names (`nil`, `t`, `f`, `cons`).
pub open spec fn term_tokens(t: Term) -> Seq<Seq<char>>
    decreases t,
{
    match t {
        Term::Ap(a, b) => seq!["ap"@] + term_tokens(*a) + term_tokens(*b),
        Term::Pair(a, b) => seq!["ap"@, "ap"@, "cons"@] + term_tokens(*a) + term_tokens(*b),
        Term::Num(n) => seq![int_text(n as int)],
        Term::Other(name) => seq![name],
        Term::Nil => seq!["nil"@],
        Term::T => seq!["t"@],
        Term::F => seq!["f"@],
        Term::Cons => seq!["cons"@],
    }
}

/// The term read back from the text form: a pair becomes the application
/// of `cons` to its parts.
pub open spec fn galaxy_form(t: Term) -> Term
    decreases t,
{
    match t {
        Term::Ap(a, b) => Term::Ap(Box::new(galaxy_form(*a)), Box::new(galaxy_form(*b))),
        Term::Pair(a, b) => Term::Ap(
            Box::new(Term::Ap(Box::new(Term::Cons), Box::new(galaxy_form(*a)))),
            Box::new(galaxy_form(*b)),
        ),
        _ => t,
    }
}

/// Whether every name in the term reads back as that name: not `ap`, not
/// a number, and none of `nil`, `t`, `f`, `cons`.
pub open spec fn plain_names(t: Term) -> bool
    decreases t,
{
    match t {
        Term::Ap(a, b) => plain_names(*a) && plain_names(*b),
        Term::Pair(a, b) => plain_names(*a) && plain_names(*b),
        Term::Other(name) => name != "ap"@ && decimal_value(name) is None && etc_of_name(name)
            == Term::Other(name),
        _ => true,
    }
}

proof fn lemma_atom_names()
    ensures
        "nil"@ != "ap"@ && decimal_value("nil"@) is None && etc_of_name("nil"@) == Term::Nil,
        "t"@ != "ap"@ && decimal_value("t"@) is None && etc_of_name("t"@) == Term::T,
        "f"@ != "ap"@ && decimal_value("f"@) is None && etc_of_name("f"@) == Term::F,
        "cons"@ != "ap"@ && decimal_value("cons"@) is None && etc_of_name("cons"@) == Term::Cons,
{
    reveal_strlit("nil");
    reveal_strlit("t");
    reveal_strlit("f");
    reveal_strlit("cons");
    reveal_strlit("ap");
    assert(!is_digit('n'));
    assert(!is_digit('t'));
    assert(!is_digit('f'));
    assert(!is_digit('c'));
    assert("nil"@[0] == 'n');
    assert("t"@[0] == 't');
    assert("f"@[0] == 'f');
    assert("cons"@[0] == 'c');
}

proof fn lemma_read_tokens(t: Term, s: Seq<Seq<char>>, i: int)
    requires
        plain_names(t),
        0 <= i,
        i + term_tokens(t).len() <= s.len(),
        s.subrange(i, i + term_tokens(t).len()) == term_tokens(t),
    ensures
        parse_spec(s, i) == Some((galaxy_form(t), i + term_tokens(t).len())),
    decreases t,
{
    lemma_atom_names();
    reveal_strlit("ap");
    let tt = term_tokens(t);
    assert(s[i] == tt[0]);
    match t {
        Term::Ap(a, b) => {
            let ta = term_tokens(*a);
            let tb = term_tokens(*b);
            assert(s.subrange(i + 1, i + 1 + ta.len()) =~= ta) by {
                assert forall|k: int| 0 <= k < ta.len() implies s.subrange(i + 1, i + 1 + ta.len())[k] == ta[k] by {
                    assert(s[i + 1 + k] == tt[1 + k]);
                }
            }
            assert(s.subrange(i + 1 + ta.len(), i + 1 + ta.len() + tb.len()) =~= tb) by {
                assert forall|k: int| 0 <= k < tb.len() implies s.subrange(i + 1 + ta.len(), i + 1 + ta.len() + tb.len())[k] == tb[k] by {
                    assert(s[i + 1 + ta.len() + k] == tt[1 + ta.len() + k]);
                }
            }
            lemma_read_tokens(*a, s, i + 1);
            lemma_read_tokens(*b, s, i + 1 + ta.len());
        },
        Term::Pair(a, b) => {
            let ta = term_tokens(*a);
            let tb = term_tokens(*b);
            assert(s[i + 1] == tt[1] && s[i + 2] == tt[2]);
            assert(s.subrange(i + 3, i + 3 + ta.len()) =~= ta) by {
                assert forall|k: int| 0 <= k < ta.len() implies s.subrange(i + 3, i + 3 + ta.len())[k] == ta[k] by {
                    assert(s[i + 3 + k] == tt[3 + k]);
                }
            }
            assert(s.subrange(i + 3 + ta.len(), i + 3 + ta.len() + tb.len()) =~= tb) by {
                assert forall|k: int| 0 <= k < tb.len() implies s.subrange(i + 3 + ta.len(), i + 3 + ta.len() + tb.len())[k] == tb[k] by {
                    assert(s[i + 3 + ta.len() + k] == tt[3 + ta.len() + k]);
                }
            }
            lemma_read_tokens(*a, s, i + 3);
            lemma_read_tokens(*b, s, i + 3 + ta.len());
            assert(parse_spec(s, i + 2) == Some((Term::Cons, i + 3)));
            assert(parse_spec(s, i + 1) == Some((Term::Ap(Box::new(Term::Cons), Box::new(galaxy_form(*a))), i + 3 + ta.len())));
        },
        Term::Num(n) => {
            lemma_decimal_int_text(n);
            assert(decimal_value("ap"@) is None) by {
                assert(!is_digit('a'));
                assert("ap"@[0] == 'a');
            }
            assert(int_text(n as int) != "ap"@);
        },
        _ => {},
    }
}

/// The galaxy text form of a term reads back: its tokens (see
/// `term_tokens`) parse to the term with each pair written as `cons`
/// applied to its parts (see `galaxy_form`), using up every token, where
/// every name reads back as itself (see `plain_names`).
pub proof fn lemma_tokens_read_back(t: Term)
    requires
        plain_names(t),
    ensures
        parse_spec(term_tokens(t), 0) == Some((galaxy_form(t), term_tokens(t).len() as int)),
{
    assert(term_tokens(t).subrange(0, term_tokens(t).len() as int) =~= term_tokens(t));
    lemma_read_tokens(t, term_tokens(t), 0);
}

/// The items of `e` read as a list: `Pair(a, rest)` is `a` followed by the
/// items of `rest`, `Nil` is the empty list; `None` for anything else.
pub open spec fn list_of(e: E) -> Option<Seq<E>>
    decreases e,
{
    match e {
        E::Pair(a, b) => match list_of(*b) {
            Some(t) => Some(seq![*a] + t),
            None => None,
        },
        E::Etc(Etc::Nil) => Some(Seq::empty()),
        _ => None,
    }
}

/// The terms behind a sequence of pointers.
pub open spec fn unrc_seq(v: Seq<Rc<E>>) -> Seq<E> {
    v.map_values(|x: Rc<E>| *x)
}

fn collect_list(e: &E, out: &mut Vec<Rc<E>>) -> (ok: bool)
    ensures
        ok == list_of(*e).is_some(),
        ok ==> unrc_seq(final(out)@) == unrc_seq(old(out)@) + list_of(*e).unwrap(),
    decreases e,
{
    match e {
        E::Pair(a, b) => {
            out.push(a.clone());
            let ghost mid = out@;
            let ok = collect_list(b, out);
            proof {
                if ok {
                    assert(unrc_seq(mid) == unrc_seq(old(out)@) + seq![**a]);
                    assert(unrc_seq(final(out)@) == unrc_seq(old(out)@) + list_of(*e).unwrap());
                }
            }
            ok
        },
        E::Etc(Etc::Nil) => {
            assert(unrc_seq(out@) == unrc_seq(out@) + Seq::<E>::empty());
            true
        },
        _ => false,
    }
}

/// The items of `e` read as a list, `None` when `e` is no list.
pub fn get_list(e: &E) -> (r: Option<Vec<Rc<E>>>)
    ensures
        match r {
            Some(v) => list_of(*e) == Some(unrc_seq(v@)),
            None => list_of(*e) is None,
        },
{
    let mut v: Vec<Rc<E>> = Vec::new();
    if collect_list(e, &mut v) {
        assert(unrc_seq(Seq::<Rc<E>>::empty()) == Seq::<E>::empty());
        assert(Seq::<E>::empty() + list_of(*e).unwrap() == list_of(*e).unwrap());
        Some(v)
    } else {
        None
    }
}

/// The point `<x, y>` that `e` holds.
pub open spec fn coords_of(e: E) -> Option<(Int, Int)> {
    match e {
        E::Pair(x, y) => match (*x, *y) {
            (E::Num(a), E::Num(b)) => Some((a, b)),
            _ => None,
        },
        _ => None,
    }
}

impl E {
    /// The point `<x, y>` that the term holds, `None` for any other term.
    pub fn coords(&self) -> (r: Option<(Int, Int)>)
        ensures
            r == coords_of(*self),
    {
        match self {
            E::Pair(x, y) => match (&**x, &**y) {
                (E::Num(a), E::Num(b)) => Some((*a, *b)),
                _ => None,
            },
            _ => None,
        }
    }
}

/// Whether `e` is the name `name`.
pub open spec fn named(e: E, name: Seq<char>) -> bool {
    e matches E::Etc(Etc::Other(n)) && n@ == name
}

/// One step of `simplify` on an application whose parts are simplified:
/// `i y` is `y`, and the combinators `b`, `c`, `s` with all three arguments
/// are rewritten.
pub open spec fn simplify_ap(x1: E, y1: E) -> E {
    let plain = E::Ap(Rc::new(x1), Rc::new(y1));
    if named(x1, "i"@) {
        y1
    } else {
        match x1 {
            E::Ap(x2, y2) => match *x2 {
                E::Ap(x3, y3) => if named(*x3, "b"@) {
                    E::Ap(y3, Rc::new(E::Ap(y2, Rc::new(y1))))
                } else if named(*x3, "c"@) {
                    E::Ap(Rc::new(E::Ap(y3, Rc::new(y1))), y2)
                } else if named(*x3, "s"@) {
                    E::Ap(Rc::new(E::Ap(y3, Rc::new(y1))), Rc::new(E::Ap(y2, Rc::new(y1))))
                } else {
                    plain
                },
                _ => plain,
            },
            _ => plain,
        }
    }
}

/// `e` with its applications simplified bottom up.
pub open spec fn simplified(e: E) -> E
    decreases e,
{
    match e {
        E::Ap(x, y) => simplify_ap(simplified(*x), simplified(*y)),
        _ => e,
    }
}

/// The application of `f` to `a`.
pub open spec fn app(f: E, a: E) -> E {
    E::Ap(Rc::new(f), Rc::new(a))
}

/// What simplification does to a combinator `op` applied to enough
/// arguments, in terms of the simplified arguments: `i x` becomes `x`,
/// `b x y z` becomes `x (y z)`, `c x y z` becomes `x z y` (the last two
/// arguments swap), and `s x y z` becomes `x z (y z)`.
pub proof fn lemma_simplify_combinators(op: E, x: E, y: E, z: E)
    ensures
        named(op, "i"@) ==> simplified(app(op, x)) == simplified(x),
        named(op, "b"@) ==> simplified(app(app(app(op, x), y), z)) == app(
            simplified(x),
            app(simplified(y), simplified(z)),
        ),
        named(op, "c"@) ==> simplified(app(app(app(op, x), y), z)) == app(
            app(simplified(x), simplified(z)),
            simplified(y),
        ),
        named(op, "s"@) ==> simplified(app(app(app(op, x), y), z)) == app(
            app(simplified(x), simplified(z)),
            app(simplified(y), simplified(z)),
        ),
{
    reveal_strlit("i");
    reveal_strlit("b");
    reveal_strlit("c");
    reveal_strlit("s");
    assert("i"@[0] == 'i' && "b"@[0] == 'b' && "c"@[0] == 'c' && "s"@[0] == 's');
    let (xs, ys, zs) = (simplified(x), simplified(y), simplified(z));
    if named(op, "i"@) {
        assert(simplified(op) == op);
        assert(simplified(app(op, x)) == simplify_ap(op, xs));
    }
    if named(op, "b"@) || named(op, "c"@) || named(op, "s"@) {
        assert(!named(op, "i"@));
        assert(simplified(op) == op);
        let a1 = app(op, x);
        assert(simplified(a1) == simplify_ap(op, xs));
        assert(simplify_ap(op, xs) == app(op, xs));
        let a2 = app(a1, y);
        assert(simplified(a2) == simplify_ap(app(op, xs), ys));
        assert(simplify_ap(app(op, xs), ys) == app(app(op, xs), ys));
        let a3 = app(a2, z);
        assert(simplified(a3) == simplify_ap(app(app(op, xs), ys), zs));
    }
}

fn is_named(e: &E, name: &str) -> (r: bool)
    ensures
        r == named(*e, name@),
{
    match e {
        E::Etc(Etc::Other(n)) => str_eq(n.as_str(), name),
        _ => false,
    }
}

/// Rewrites `i`, `b`, `c` and `s` applied to enough arguments, bottom up.
pub fn simplify(e: &E) -> (r: E)
    ensures
        r == simplified(*e),
    decreases e,
{
    match e {
        E::Ap(x, y) => {
            let x1 = simplify(x);
            let y1 = simplify(y);
            if is_named(&x1, "i") {
                return y1;
            }
            match &x1 {
                E::Ap(x2, y2) => match &**x2 {
                    E::Ap(x3, y3) => {
                        if is_named(x3, "b") {
                            E::Ap(y3.clone(), Rc::new(E::Ap(y2.clone(), Rc::new(y1))))
                        } else if is_named(x3, "c") {
                            E::Ap(Rc::new(E::Ap(y3.clone(), Rc::new(y1))), y2.clone())
                        } else if is_named(x3, "s") {
                            E::Ap(
                                Rc::new(E::Ap(y3.clone(), Rc::new(y1.copy()))),
                                Rc::new(E::Ap(y2.clone(), Rc::new(y1))),
                            )
                        } else {
                            E::Ap(Rc::new(x1.copy()), Rc::new(y1))
                        }
                    },
                    _ => E::Ap(Rc::new(x1.copy()), Rc::new(y1)),
                },
                _ => E::Ap(Rc::new(x1.copy()), Rc::new(y1)),
            }
        },
        _ => e.copy(),
    }
}

/// How an atom is written.
pub open spec fn etc_text(etc: Etc) -> Seq<char> {
    match etc {
        Etc::Other(name) => name@,
        Etc::Nil => "[]"@,
        Etc::T => "t"@,
        Etc::F => "f"@,
        Etc::Cons => "cons"@,
    }
}

/// How a term is displayed: applications in brackets, lists as `[a, b]`,
/// other pairs as `<a, b>`.
pub open spec fn show(e: E) -> Seq<char>
    decreases e, 1nat,
{
    match e {
        E::Ap(a, b) => "("@ + show(*a) + " "@ + show(*b) + ")"@,
        E::Cloned(a, _) => show(*a),
        E::Num(n) => int_text(n as int),
        E::Pair(a, b) => if list_of(e) is Some {
            "["@ + show(*a) + show_tail(*b) + "]"@
        } else {
            "<"@ + show(*a) + ", "@ + show(*b) + ">"@
        },
        E::Etc(etc) => etc_text(etc),
    }
}

/// The items of a list after its first, each after `", "`.
pub open spec fn show_tail(e: E) -> Seq<char>
    decreases e, 0nat,
{
    match e {
        E::Pair(a, b) => ", "@ + show(*a) + show_tail(*b),
        _ => Seq::empty(),
    }
}

fn push_etc(etc: &Etc, out: &mut String)
    ensures
        final(out)@ == old(out)@ + etc_text(*etc),
{
    match etc {
        Etc::Other(name) => push_str(out, name.as_str()),
        Etc::Nil => push_str(out, "[]"),
        Etc::T => push_str(out, "t"),
        Etc::F => push_str(out, "f"),
        Etc::Cons => push_str(out, "cons"),
    }
}

fn is_list(e: &E) -> (r: bool)
    ensures
        r == list_of(*e) is Some,
    decreases e,
{
    match e {
        E::Pair(_, b) => is_list(b),
        E::Etc(Etc::Nil) => true,
        _ => false,
    }
}

fn push_show(e: &E, out: &mut String)
    ensures
        final(out)@ == old(out)@ + show(*e),
    decreases e, 1nat,
{
    match e {
        E::Ap(a, b) => {
            push_str(out, "(");
            push_show(a, out);
            push_str(out, " ");
            push_show(b, out);
            push_str(out, ")");
            assert(final(out)@ == old(out)@ + show(*e));
        },
        E::Cloned(a, _) => push_show(a, out),
        E::Num(n) => push_int(*n, out),
        E::Pair(a, b) => {
            if is_list(e) {
                push_str(out, "[");
                push_show(a, out);
                push_show_tail(b, out);
                push_str(out, "]");
            } else {
                push_str(out, "<");
                push_show(a, out);
                push_str(out, ", ");
                push_show(b, out);
                push_str(out, ">");
            }
            assert(final(out)@ == old(out)@ + show(*e));
        },
        E::Etc(etc) => push_etc(etc, out),
    }
}

fn push_show_tail(e: &E, out: &mut String)
    ensures
        final(out)@ == old(out)@ + show_tail(*e),
    decreases e, 0nat,
{
    match e {
        E::Pair(a, b) => {
            push_str(out, ", ");
            push_show(a, out);
            push_show_tail(b, out);
            assert(final(out)@ == old(out)@ + show_tail(*e));
        },
        _ => {
            assert(final(out)@ == old(out)@ + Seq::<char>::empty());
        },
    }
}

impl E {
    /// The term as displayed.
    pub fn to_string(&self) -> (r: String)
        ensures
            r@ == show(*self),
    {
        let mut out = String::new();
        push_show(self, &mut out);
        assert(out@ == Seq::<char>::empty() + show(*self));
        out
    }
}

/// The term in the galaxy's own text form: `ap f x`, numbers in decimal,
/// pairs as `ap ap cons a b`.
pub open spec fn text_of(e: E) -> Seq<char>
    decreases e,
{
    match e {
        E::Ap(a, b) => "ap "@ + text_of(*a) + " "@ + text_of(*b),
        E::Cloned(a, _) => text_of(*a),
        E::Num(n) => int_text(n as int),
        E::Pair(a, b) => "ap ap cons "@ + text_of(*a) + " "@ + text_of(*b),
        E::Etc(etc) => etc_text(etc),
    }
}

fn push_text(e: &E, out: &mut String)
    ensures
        final(out)@ == old(out)@ + text_of(*e),
    decreases e,
{
    match e {
        E::Ap(a, b) => {
            push_str(out, "ap ");
            push_text(a, out);
            push_str(out, " ");
            push_text(b, out);
            assert(final(out)@ == old(out)@ + text_of(*e));
        },
        E::Cloned(a, _) => push_text(a, out),
        E::Num(n) => push_int(*n, out),
        E::Pair(a, b) => {
            push_str(out, "ap ap cons ");
            push_text(a, out);
            push_str(out, " ");
            push_text(b, out);
            assert(final(out)@ == old(out)@ + text_of(*e));
        },
        E::Etc(etc) => push_etc(etc, out),
    }
}

/// The term in the galaxy's own text form.
pub fn to_text(e: &E) -> (r: String)
    ensures
        r@ == text_of(*e),
{
    let mut out = String::new();
    push_text(e, &mut out);
    assert(out@ == Seq::<char>::empty() + text_of(*e));
    out
}

/// Whether `c` is white space, as `char::is_whitespace` has it (the Unicode
/// property `White_Space`).
pub open spec fn is_ws(c: char) -> bool {
    let u = c as u32;
    ||| 9 <= u <= 13
    ||| u == 32
    ||| u == 0x85
    ||| u == 0xa0
    ||| u == 0x1680
    ||| 0x2000 <= u <= 0x200a
    ||| u == 0x2028
    ||| u == 0x2029
    ||| u == 0x202f
    ||| u == 0x205f
    ||| u == 0x3000
}

/// Whether `c` may stand in a name or a number of the bracketed notation.
pub open spec fn is_tok(c: char) -> bool {
    ('a' <= c <= 'z') || ('A' <= c <= 'Z') || ('0' <= c <= '9') || c == '-' || c == '+' || c == ':'
}

/// The first position from `i` on that does not hold white space.
pub open spec fn skip_ws(cs: Seq<char>, i: int) -> int
    decreases cs.len() - i,
{
    if 0 <= i < cs.len() && is_ws(cs[i]) {
        skip_ws(cs, i + 1)
    } else {
        i
    }
}

/// The first position from `i` on that does not hold a name character.
pub open spec fn tok_end(cs: Seq<char>, i: int) -> int
    decreases cs.len() - i,
{
    if 0 <= i < cs.len() && is_tok(cs[i]) {
        tok_end(cs, i + 1)
    } else {
        i
    }
}

pub proof fn lemma_skip_ws(cs: Seq<char>, i: int)
    requires
        0 <= i <= cs.len(),
    ensures
        i <= skip_ws(cs, i) <= cs.len(),
        forall|k: int| i <= k < skip_ws(cs, i) ==> is_ws(#[trigger] cs[k]),
    decreases cs.len() - i,
{
    if i < cs.len() && is_ws(cs[i]) {
        lemma_skip_ws(cs, i + 1);
    }
}

pub proof fn lemma_tok_end(cs: Seq<char>, i: int)
    requires
        0 <= i <= cs.len(),
    ensures
        i <= tok_end(cs, i) <= cs.len(),
    decreases cs.len() - i,
{
    if i < cs.len() && is_tok(cs[i]) {
        lemma_tok_end(cs, i + 1);
    }
}

/// Reads the bracketed notation from position `i` of `cs`: `(f, x)` is an
/// application, `<a, b>` a pair, `[a, b, ...]` a list (the comma between the
/// parts may be left out), a run of name characters a number when it reads
/// as one and a name otherwise. White space before each part is skipped.
/// The result is the term read and the position after it.
pub open spec fn lisp_spec(cs: Seq<char>, i: int) -> Option<(Term, int)>
    decreases cs.len() - i, 0nat,
{
    if i < 0 || i > cs.len() {
        None
    } else {
        proof {
            lemma_skip_ws(cs, i);
        }
        let j = skip_ws(cs, i);
        if j < cs.len() && (cs[j] == '(' || cs[j] == '<') {
            let close = if cs[j] == '(' {
                ')'
            } else {
                '>'
            };
            match lisp_spec(cs, j + 1) {
                None => None,
                Some((a, k)) => if !(j < k <= cs.len()) {
                    None
                } else {
                    proof {
                        lemma_skip_ws(cs, k);
                    }
                    let k2 = skip_ws(cs, k);
                    let k3 = if k2 < cs.len() && cs[k2] == ',' {
                        k2 + 1
                    } else {
                        k2
                    };
                    match lisp_spec(cs, k3) {
                        None => None,
                        Some((b, m)) => if !(k3 < m <= cs.len()) {
                            None
                        } else {
                            let m2 = skip_ws(cs, m);
                            if m2 < cs.len() && cs[m2] == close {
                                if close == ')' {
                                    Some((Term::Ap(Box::new(a), Box::new(b)), m2 + 1))
                                } else {
                                    Some((Term::Pair(Box::new(a), Box::new(b)), m2 + 1))
                                }
                            } else {
                                None
                            }
                        },
                    }
                },
            }
        } else if j < cs.len() && cs[j] == '[' {
            lisp_items(cs, j + 1)
        } else {
            proof {
                lemma_tok_end(cs, j);
            }
            let p = tok_end(cs, j);
            if p == j {
                None
            } else {
                let tok = cs.subrange(j, p);
                match decimal_value(tok) {
                    Some(n) => Some((Term::Num(n), p)),
                    None => Some((Term::Other(tok), p)),
                }
            }
        }
    }
}

/// The rest of a list from position `i`, just after `[` or an item.
pub open spec fn lisp_items(cs: Seq<char>, i: int) -> Option<(Term, int)>
    decreases cs.len() - i, 1nat,
{
    if i < 0 || i >= cs.len() {
        None
    } else {
        proof {
            lemma_skip_ws(cs, i);
        }
        let j = skip_ws(cs, i);
        if j < cs.len() && cs[j] == ']' {
            Some((Term::Nil, j + 1))
        } else {
            match lisp_spec(cs, j) {
                None => None,
                Some((e, k)) => if !(j < k <= cs.len()) {
                    None
                } else {
                    proof {
                        lemma_skip_ws(cs, k);
                    }
                    let k2 = skip_ws(cs, k);
                    let k3 = if k2 < cs.len() && cs[k2] == ',' {
                        k2 + 1
                    } else {
                        k2
                    };
                    match lisp_items(cs, k3) {
                        Some((rest, m)) => Some((Term::Pair(Box::new(e), Box::new(rest)), m)),
                        None => None,
                    }
                },
            }
        }
    }
}

proof fn lemma_lisp_advances(cs: Seq<char>, i: int)
    ensures
        lisp_spec(cs, i) matches Some((_, j)) ==> i < j <= cs.len(),
        lisp_items(cs, i) matches Some((_, j)) ==> i < j <= cs.len(),
    decreases cs.len() - i,
{
    if 0 <= i <= cs.len() {
        lemma_skip_ws(cs, i);
        let j = skip_ws(cs, i);
        if j < cs.len() {
            lemma_skip_ws(cs, j + 1);
        }
        lemma_tok_end(cs, j);
        if j < cs.len() && cs[j] == '[' {
            lemma_lisp_advances(cs, j + 1);
        }
        if i < cs.len() {
            if let Some((e, k)) = lisp_spec(cs, j) {
                if j < k <= cs.len() {
                    lemma_skip_ws(cs, k);
                    let k2 = skip_ws(cs, k);
                    let k3 = if k2 < cs.len() && cs[k2] == ',' {
                        k2 + 1
                    } else {
                        k2
                    };
                    lemma_lisp_advances(cs, k3);
                }
            }
        }
        if j < cs.len() && (cs[j] == '(' || cs[j] == '<') {
            if let Some((a, k)) = lisp_spec(cs, j + 1) {
                if j < k <= cs.len() {
                    lemma_skip_ws(cs, k);
                    let k2 = skip_ws(cs, k);
                    let k3 = if k2 < cs.len() && cs[k2] == ',' {
                        k2 + 1
                    } else {
                        k2
                    };
                    if let Some((b, m)) = lisp_spec(cs, k3) {
                        if k3 < m <= cs.len() {
                            lemma_skip_ws(cs, m);
                        }
                    }
                }
            }
        }
    }
}

/// A value made of numbers, `nil` and pairs: what messages carry.
pub open spec fn is_data(e: E) -> bool
    decreases e,
{
    match e {
        E::Num(_) => true,
        E::Etc(Etc::Nil) => true,
        E::Pair(a, b) => is_data(*a) && is_data(*b),
        _ => false,
    }
}

/// A name that reads back as itself: one or more name characters that do
/// not spell a number.
pub open spec fn plain_name(n: Seq<char>) -> bool {
    &&& n.len() > 0
    &&& forall|k: int| 0 <= k < n.len() ==> is_tok(#[trigger] n[k])
    &&& decimal_value(n) is None
}

/// A term whose displayed form reads back: each of its names is plain.
pub open spec fn readable(e: E) -> bool
    decreases e,
{
    match e {
        E::Ap(a, b) => readable(*a) && readable(*b),
        E::Pair(a, b) => readable(*a) && readable(*b),
        E::Cloned(a, _) => readable(*a),
        E::Etc(Etc::Other(n)) => plain_name(n@),
        _ => true,
    }
}

/// What the displayed form of `e` reads back as: the meaning of `e`, with
/// the atoms `t`, `f` and `cons` read as the names they are written as.
pub open spec fn shown_term(e: E) -> Term
    decreases e,
{
    match e {
        E::Ap(a, b) => Term::Ap(Box::new(shown_term(*a)), Box::new(shown_term(*b))),
        E::Pair(a, b) => Term::Pair(Box::new(shown_term(*a)), Box::new(shown_term(*b))),
        E::Cloned(a, _) => shown_term(*a),
        E::Etc(Etc::T) => Term::Other("t"@),
        E::Etc(Etc::F) => Term::Other("f"@),
        E::Etc(Etc::Cons) => Term::Other("cons"@),
        _ => e.term(),
    }
}

proof fn lemma_data_shown(e: E)
    requires
        is_data(e),
    ensures
        readable(e),
        shown_term(e) == e.term(),
    decreases e,
{
    if let E::Pair(a, b) = e {
        lemma_data_shown(unrc(a));
        lemma_data_shown(unrc(b));
    }
}

/// A number is written with name characters only, the first not a bracket.
proof fn lemma_int_text_tok(n: i128)
    ensures
        int_text(n as int).len() >= 1,
        forall|t: int| 0 <= t < int_text(n as int).len() ==> is_tok(#[trigger] int_text(n as int)[t]),
{
    let m: nat = if n < 0 { (-n) as nat } else { n as nat };
    lemma_nat_text(m);
    let d = nat_text(m);
    assert forall|t: int| 0 <= t < int_text(n as int).len() implies is_tok(#[trigger] int_text(n as int)[t]) by {
        if n < 0 {
            if t > 0 {
                assert(int_text(n as int)[t] == d[t - 1]);
                assert(is_digit(d[t - 1]));
            }
        } else {
            assert(is_digit(d[t]));
        }
    }
}

/// A run of `len` name characters from `i`, ended by the end or by another
/// character, ends the name at `i + len`.
proof fn lemma_tok_run(cs: Seq<char>, i: int, len: int)
    requires
        0 <= i,
        0 <= len,
        i + len <= cs.len(),
        forall|t: int| i <= t < i + len ==> is_tok(#[trigger] cs[t]),
        i + len < cs.len() ==> !is_tok(cs[i + len]),
    ensures
        tok_end(cs, i) == i + len,
    decreases len,
{
    if len > 0 {
        lemma_tok_run(cs, i + 1, len - 1);
    }
}

/// Reading from white space reads from the next place.
proof fn lemma_lisp_ws(cs: Seq<char>, i: int)
    requires
        0 <= i < cs.len(),
        is_ws(cs[i]),
    ensures
        lisp_spec(cs, i) == lisp_spec(cs, i + 1),
{
    assert(skip_ws(cs, i) == skip_ws(cs, i + 1));
}

/// The atoms `t`, `f` and `cons` are written as plain names.
proof fn lemma_atoms_plain()
    ensures
        plain_name("t"@),
        plain_name("f"@),
        plain_name("cons"@),
{
    lemma_atom_names();
    reveal_strlit("t");
    reveal_strlit("f");
    reveal_strlit("cons");
    assert(is_tok("cons"@[1]) && is_tok("cons"@[2]) && is_tok("cons"@[3]));
}

/// The displayed form of a term starts with a bracket or a name character.
proof fn lemma_show_start(e: E)
    requires
        readable(e),
    ensures
        show(e).len() >= 1,
        show(e)[0] == '[' || show(e)[0] == '<' || show(e)[0] == '(' || is_tok(show(e)[0]),
    decreases e,
{
    reveal_strlit("[");
    reveal_strlit("<");
    reveal_strlit("(");
    reveal_strlit("[]");
    lemma_atoms_plain();
    match e {
        E::Num(n) => {
            lemma_int_text_tok(n);
        },
        E::Cloned(a, _) => {
            lemma_show_start(unrc(a));
        },
        E::Etc(Etc::Other(n)) => {
            assert(is_tok(n@[0]));
        },
        E::Etc(Etc::T) => {
            assert(is_tok("t"@[0]));
        },
        E::Etc(Etc::F) => {
            assert(is_tok("f"@[0]));
        },
        E::Etc(Etc::Cons) => {
            assert(is_tok("cons"@[0]));
        },
        _ => {},
    }
}

/// A place of the displayed form of a value, read from the text around it.
proof fn lemma_at(cs: Seq<char>, i: int, s: Seq<char>, t: int)
    requires
        0 <= i,
        i + s.len() <= cs.len(),
        cs.subrange(i, i + s.len()) == s,
        0 <= t < s.len(),
    ensures
        cs[i + t] == s[t],
{
    assert(cs.subrange(i, i + s.len())[t] == cs[i + t]);
}

/// A piece of the displayed form, read from the text around it.
proof fn lemma_piece(cs: Seq<char>, i: int, s: Seq<char>, a: int, b: int)
    requires
        0 <= i,
        i + s.len() <= cs.len(),
        cs.subrange(i, i + s.len()) == s,
        0 <= a <= b <= s.len(),
    ensures
        cs.subrange(i + a, i + b) == s.subrange(a, b),
{
    assert(cs.subrange(i + a, i + b) =~= s.subrange(a, b)) by {
        assert forall|k: int| 0 <= k < b - a implies cs.subrange(i + a, i + b)[k] == s.subrange(a, b)[k] by {
            lemma_at(cs, i, s, a + k);
        }
    }
}

/// The items after the first of a displayed list, and its closing bracket,
/// read back from place `q` on.
proof fn lemma_read_tail(cs: Seq<char>, q: int, b: E)
    requires
        readable(b),
        list_of(b) is Some,
        0 <= q,
        q + show_tail(b).len() + 1 <= cs.len(),
        cs.subrange(q, q + show_tail(b).len() + 1) == show_tail(b) + "]"@,
    ensures
        lisp_items(
            cs,
            if show_tail(b).len() > 0 {
                q + 1
            } else {
                q
            },
        ) == Some((shown_term(b), q + show_tail(b).len() + 1)),
    decreases b, 0nat,
{
    reveal_strlit("]");
    reveal_strlit(", ");
    let w = show_tail(b) + "]"@;
    match b {
        E::Pair(a2r, b2r) => {
            let a2 = unrc(a2r);
            let b2 = unrc(b2r);
            let la = show(a2).len() as int;
            let lt = show_tail(b2).len() as int;
            assert(show_tail(b) == ", "@ + show(a2) + show_tail(b2));
            assert(w == ", "@ + show(a2) + (show_tail(b2) + "]"@));
            lemma_show_start(a2);
            lemma_at(cs, q, w, 0);
            lemma_at(cs, q, w, 1);
            lemma_at(cs, q, w, 2);
            assert(cs[q + 1] == ' ');
            assert(cs[q + 2] == show(a2)[0]);
            lemma_piece(cs, q, w, 2, 2 + la);
            assert(w.subrange(2, 2 + la) == show(a2));
            let k = q + 2 + la;
            lemma_at(cs, q, w, 2 + la);
            assert(w[2 + la] == (show_tail(b2) + "]"@)[0]);
            if lt > 0 {
                match b2 {
                    E::Pair(_, _) => {},
                    _ => {},
                }
                assert(show_tail(b2)[0] == ',');
            }
            assert(cs[k] == ',' || cs[k] == ']');
            lemma_read_shown(cs, q + 2, a2);
            lemma_piece(cs, q, w, 2 + la, w.len() as int);
            assert(w.subrange(2 + la, w.len() as int) == show_tail(b2) + "]"@);
            lemma_read_tail(cs, k, b2);
            assert(skip_ws(cs, q + 2) == q + 2);
            assert(skip_ws(cs, q + 1) == q + 2);
            assert(skip_ws(cs, k) == k);
            assert(lisp_spec(cs, q + 2) == Some((shown_term(a2), k)));
        },
        _ => {
            lemma_at(cs, q, w, 0);
            assert(cs[q] == ']');
            assert(skip_ws(cs, q) == q);
        },
    }
}

/// A number written in decimal reads back as itself.
proof fn lemma_read_num(cs: Seq<char>, i: int, n: i128)
    requires
        0 <= i,
        i + int_text(n as int).len() <= cs.len(),
        cs.subrange(i, i + int_text(n as int).len()) == int_text(n as int),
        i + int_text(n as int).len() < cs.len() ==> !is_tok(cs[i + int_text(n as int).len()]),
    ensures
        lisp_spec(cs, i) == Some((Term::Num(n), i + int_text(n as int).len())),
{
    let w = int_text(n as int);
    let len = w.len() as int;
    lemma_decimal_int_text(n);
    lemma_int_text_tok(n);
    assert forall|t: int| i <= t < i + len implies is_tok(#[trigger] cs[t]) by {
        lemma_at(cs, i, w, t - i);
    }
    lemma_at(cs, i, w, 0);
    lemma_tok_run(cs, i, len);
    assert(is_tok(cs[i]));
    assert(cs[i] != '(' && cs[i] != '<' && cs[i] != '[');
    assert(skip_ws(cs, i) == i);
    assert(cs.subrange(i, tok_end(cs, i)) == w);
}

/// The displayed form of a pair, read back (see `lemma_read_shown`).
#[verifier::spinoff_prover]
#[verifier::rlimit(30)]
proof fn lemma_read_pair(cs: Seq<char>, i: int, e: E)
    requires
        readable(e),
        e is Pair,
        0 <= i,
        i + show(e).len() <= cs.len(),
        cs.subrange(i, i + show(e).len()) == show(e),
    ensures
        lisp_spec(cs, i) == Some((shown_term(e), i + show(e).len())),
    decreases e, 1nat,
{
    reveal_strlit("[");
    reveal_strlit("]");
    reveal_strlit("<");
    reveal_strlit(">");
    reveal_strlit(", ");
    let w = show(e);
    let len = w.len() as int;
    if let E::Pair(ar, br) = e {
        let a = unrc(ar);
        let b = unrc(br);
        let la = show(a).len() as int;
        lemma_show_start(a);
        lemma_at(cs, i, w, 0);
        if list_of(e) is Some {
            let lt = show_tail(b).len() as int;
            assert(w == "["@ + show(a) + (show_tail(b) + "]"@));
            assert(cs[i] == '[');
            lemma_at(cs, i, w, 1);
            lemma_piece(cs, i, w, 1, 1 + la);
            assert(w.subrange(1, 1 + la) == show(a));
            let k = i + 1 + la;
            lemma_at(cs, i, w, 1 + la);
            if lt > 0 {
                match b {
                    E::Pair(_, _) => {},
                    _ => {},
                }
                assert(show_tail(b)[0] == ',');
            }
            assert(cs[k] == ',' || cs[k] == ']');
            lemma_read_shown(cs, i + 1, a);
            lemma_piece(cs, i, w, 1 + la, len);
            assert(w.subrange(1 + la, len) == show_tail(b) + "]"@);
            lemma_read_tail(cs, k, b);
            assert(skip_ws(cs, i) == i);
            assert(skip_ws(cs, i + 1) == i + 1);
            assert(skip_ws(cs, k) == k);
            assert(lisp_spec(cs, i + 1) == Some((shown_term(a), k)));
            assert(cs[i + 1] != ']');
            let k3 = if cs[k] == ',' { k + 1 } else { k };
            assert(k3 == if lt > 0 { k + 1 } else { k });
            assert(lisp_items(cs, k3) == Some((shown_term(b), i + len)));
            assert(shown_term(e) == Term::Pair(Box::new(shown_term(a)), Box::new(shown_term(b))));
            assert(lisp_items(cs, i + 1) == Some((shown_term(e), i + len)));
            assert(lisp_spec(cs, i) == lisp_items(cs, i + 1));
        } else {
            let lb = show(b).len() as int;
            lemma_show_start(b);
            assert(w == "<"@ + show(a) + (", "@ + show(b) + ">"@));
            assert(cs[i] == '<');
            lemma_at(cs, i, w, 1);
            lemma_piece(cs, i, w, 1, 1 + la);
            assert(w.subrange(1, 1 + la) == show(a));
            let k = i + 1 + la;
            lemma_at(cs, i, w, 1 + la);
            lemma_at(cs, i, w, 2 + la);
            lemma_at(cs, i, w, 3 + la);
            assert(cs[k] == ',' && cs[k + 1] == ' ');
            lemma_read_shown(cs, i + 1, a);
            lemma_piece(cs, i, w, 3 + la, 3 + la + lb);
            assert(w.subrange(3 + la, 3 + la + lb) == show(b));
            let m = k + 2 + lb;
            lemma_at(cs, i, w, 3 + la + lb);
            assert(cs[m] == '>');
            lemma_read_shown(cs, k + 2, b);
            lemma_lisp_ws(cs, k + 1);
            assert(skip_ws(cs, i) == i);
            assert(skip_ws(cs, k) == k);
            assert(skip_ws(cs, m) == m);
            assert(lisp_spec(cs, i + 1) == Some((shown_term(a), k)));
            assert(lisp_spec(cs, k + 1) == Some((shown_term(b), m)));
        }
    }
}

/// A plain name reads back as that name.
proof fn lemma_read_name(cs: Seq<char>, i: int, w: Seq<char>)
    requires
        plain_name(w),
        0 <= i,
        i + w.len() <= cs.len(),
        cs.subrange(i, i + w.len()) == w,
        i + w.len() < cs.len() ==> !is_tok(cs[i + w.len()]),
    ensures
        lisp_spec(cs, i) == Some((Term::Other(w), i + w.len())),
{
    let len = w.len() as int;
    assert forall|t: int| i <= t < i + len implies is_tok(#[trigger] cs[t]) by {
        lemma_at(cs, i, w, t - i);
    }
    lemma_tok_run(cs, i, len);
    assert(is_tok(cs[i]));
    assert(cs[i] != '(' && cs[i] != '<' && cs[i] != '[');
    assert(skip_ws(cs, i) == i);
    assert(cs.subrange(i, tok_end(cs, i)) == w);
}

/// The displayed form of an application, read back (see
/// `lemma_read_shown`).
#[verifier::spinoff_prover]
#[verifier::rlimit(30)]
proof fn lemma_read_ap(cs: Seq<char>, i: int, e: E)
    requires
        readable(e),
        e is Ap,
        0 <= i,
        i + show(e).len() <= cs.len(),
        cs.subrange(i, i + show(e).len()) == show(e),
    ensures
        lisp_spec(cs, i) == Some((shown_term(e), i + show(e).len())),
    decreases e, 1nat,
{
    reveal_strlit("(");
    reveal_strlit(")");
    reveal_strlit(" ");
    let w = show(e);
    if let E::Ap(ar, br) = e {
        let a = unrc(ar);
        let b = unrc(br);
        let la = show(a).len() as int;
        let lb = show(b).len() as int;
        lemma_show_start(a);
        lemma_show_start(b);
        assert(w == "("@ + show(a) + (" "@ + show(b) + ")"@));
        lemma_at(cs, i, w, 0);
        assert(cs[i] == '(');
        lemma_at(cs, i, w, 1);
        lemma_piece(cs, i, w, 1, 1 + la);
        assert(w.subrange(1, 1 + la) == show(a));
        let k = i + 1 + la;
        lemma_at(cs, i, w, 1 + la);
        lemma_at(cs, i, w, 2 + la);
        assert(cs[k] == ' ');
        lemma_read_shown(cs, i + 1, a);
        lemma_piece(cs, i, w, 2 + la, 2 + la + lb);
        assert(w.subrange(2 + la, 2 + la + lb) == show(b));
        let m = k + 1 + lb;
        lemma_at(cs, i, w, 2 + la + lb);
        assert(cs[m] == ')');
        lemma_read_shown(cs, k + 1, b);
        assert(skip_ws(cs, i) == i);
        assert(skip_ws(cs, k + 1) == k + 1);
        assert(skip_ws(cs, k) == k + 1);
        assert(skip_ws(cs, m) == m);
        assert(lisp_spec(cs, i + 1) == Some((shown_term(a), k)));
        assert(lisp_spec(cs, k + 1) == Some((shown_term(b), m)));
        assert(shown_term(e) == Term::Ap(Box::new(shown_term(a)), Box::new(shown_term(b))));
    }
}

/// What `show` displays of a term is read back by `lisp_spec` as that term
/// (see `shown_term`), when the text around it goes on with no name
/// character.
proof fn lemma_read_shown(cs: Seq<char>, i: int, e: E)
    requires
        readable(e),
        0 <= i,
        i + show(e).len() <= cs.len(),
        cs.subrange(i, i + show(e).len()) == show(e),
        i + show(e).len() < cs.len() ==> !is_tok(cs[i + show(e).len()]),
    ensures
        lisp_spec(cs, i) == Some((shown_term(e), i + show(e).len())),
    decreases e, 2nat,
{
    lemma_atoms_plain();
    match e {
        E::Num(n) => {
            assert(show(e) == int_text(n as int));
            assert(e.term() == Term::Num(n));
            lemma_read_num(cs, i, n);
        },
        E::Pair(_, _) => {
            lemma_read_pair(cs, i, e);
        },
        E::Ap(_, _) => {
            lemma_read_ap(cs, i, e);
        },
        E::Cloned(a, _) => {
            lemma_read_shown(cs, i, unrc(a));
        },
        E::Etc(Etc::Nil) => {
            reveal_strlit("[]");
            let w = show(e);
            assert(w == "[]"@);
            lemma_at(cs, i, w, 0);
            lemma_at(cs, i, w, 1);
            assert(skip_ws(cs, i) == i);
            assert(skip_ws(cs, i + 1) == i + 1);
            assert(e.term() == Term::Nil);
            assert(lisp_items(cs, i + 1) == Some((Term::Nil, i + 2)));
            assert(lisp_spec(cs, i) == lisp_items(cs, i + 1));
        },
        E::Etc(_) => {
            lemma_read_name(cs, i, show(e));
        },
    }
}

/// What is displayed of a term reads back as that term: `parse_lisp` of the
/// text of `E::to_string` gives the term with the same meaning, except that
/// the atoms `t`, `f` and `cons` come back as the names they are written
/// as, and nothing after it. For a value made of numbers, `nil` and pairs
/// that is its meaning itself.
pub proof fn lemma_read_back(e: E)
    requires
        readable(e),
    ensures
        lisp_spec(show(e), 0) == Some((shown_term(e), show(e).len() as int)),
        is_data(e) ==> shown_term(e) == e.term(),
{
    assert(show(e).subrange(0, show(e).len() as int) == show(e));
    lemma_read_shown(show(e), 0, e);
    if is_data(e) {
        lemma_data_shown(e);
    }
}

pub fn is_ws_char(c: char) -> (r: bool)
    ensures
        r == is_ws(c),
{
    let u = c as u32;
    (9 <= u && u <= 13) || u == 32 || u == 0x85 || u == 0xa0 || u == 0x1680 || (0x2000 <= u && u
        <= 0x200a) || u == 0x2028 || u == 0x2029 || u == 0x202f || u == 0x205f || u == 0x3000
}

fn is_tok_char(c: char) -> (r: bool)
    ensures
        r == is_tok(c),
{
    ('a' <= c && c <= 'z') || ('A' <= c && c <= 'Z') || ('0' <= c && c <= '9') || c == '-' || c
        == '+' || c == ':'
}

fn skip_ws_at(cs: &Vec<char>, i: usize) -> (r: usize)
    requires
        i <= cs.len(),
    ensures
        r == skip_ws(cs@, i as int),
        i <= r <= cs.len(),
    decreases cs.len() - i,
{
    if i < cs.len() && is_ws_char(cs[i]) {
        skip_ws_at(cs, i + 1)
    } else {
        i
    }
}

fn tok_end_at(cs: &Vec<char>, i: usize) -> (r: usize)
    requires
        i <= cs.len(),
    ensures
        r == tok_end(cs@, i as int),
        i <= r <= cs.len(),
    decreases cs.len() - i,
{
    if i < cs.len() && is_tok_char(cs[i]) {
        tok_end_at(cs, i + 1)
    } else {
        i
    }
}

fn copy_range(cs: &Vec<char>, j: usize, p: usize) -> (r: Vec<char>)
    requires
        j <= p <= cs.len(),
    ensures
        r@ == cs@.subrange(j as int, p as int),
{
    let mut r: Vec<char> = Vec::new();
    let mut k = j;
    while k < p
        invariant
            j <= k <= p <= cs.len(),
            r@ == cs@.subrange(j as int, k as int),
        decreases p - k,
    {
        r.push(cs[k]);
        assert(cs@.subrange(j as int, k + 1) == cs@.subrange(j as int, k as int).push(cs@[k as int]));
        k = k + 1;
    }
    r
}

/// Whether the exec result `r` is what the spec result `s` describes.
pub open spec fn read_ok(r: Option<(E, usize)>, s: Option<(Term, int)>) -> bool {
    match (r, s) {
        (Some((e, j)), Some((t, k))) => e.term() == t && e.no_shared() && j == k,
        (None, None) => true,
        _ => false,
    }
}

fn lisp_at(cs: &Vec<char>, i: usize) -> (r: Option<(E, usize)>)
    requires
        i <= cs.len(),
    ensures
        read_ok(r, lisp_spec(cs@, i as int)),
    decreases cs.len() - i, 0nat,
{
    proof {
        lemma_skip_ws(cs@, i as int);
    }
    let j = skip_ws_at(cs, i);
    if j < cs.len() && (cs[j] == '(' || cs[j] == '<') {
        let open = cs[j];
        proof {
            lemma_lisp_advances(cs@, j + 1);
        }
        match lisp_at(cs, j + 1) {
            None => None,
            Some((a, k)) => {
                let k2 = skip_ws_at(cs, k);
                let k3 = if k2 < cs.len() && cs[k2] == ',' {
                    k2 + 1
                } else {
                    k2
                };
                proof {
                    lemma_lisp_advances(cs@, k3 as int);
                }
                match lisp_at(cs, k3) {
                    None => None,
                    Some((b, m)) => {
                        let m2 = skip_ws_at(cs, m);
                        if open == '(' {
                            if m2 < cs.len() && cs[m2] == ')' {
                                Some((E::Ap(Rc::new(a), Rc::new(b)), m2 + 1))
                            } else {
                                None
                            }
                        } else {
                            if m2 < cs.len() && cs[m2] == '>' {
                                Some((E::Pair(Rc::new(a), Rc::new(b)), m2 + 1))
                            } else {
                                None
                            }
                        }
                    },
                }
            },
        }
    } else if j < cs.len() && cs[j] == '[' {
        lisp_items_at(cs, j + 1)
    } else {
        let p = tok_end_at(cs, j);
        if p == j {
            None
        } else {
            let tok = copy_range(cs, j, p);
            match parse_decimal(tok.as_slice()) {
                Some(n) => Some((E::Num(n), p)),
                None => Some((E::Etc(Etc::Other(string_of(tok.as_slice()))), p)),
            }
        }
    }
}

fn lisp_items_at(cs: &Vec<char>, i: usize) -> (r: Option<(E, usize)>)
    requires
        i <= cs.len(),
    ensures
        read_ok(r, lisp_items(cs@, i as int)),
    decreases cs.len() - i, 1nat,
{
    if i >= cs.len() {
        return None;
    }
    let j = skip_ws_at(cs, i);
    if j < cs.len() && cs[j] == ']' {
        return Some((E::Etc(Etc::Nil), j + 1));
    }
    proof {
        lemma_lisp_advances(cs@, j as int);
    }
    match lisp_at(cs, j) {
        None => None,
        Some((e, k)) => {
            let k2 = skip_ws_at(cs, k);
            let k3 = if k2 < cs.len() && cs[k2] == ',' {
                k2 + 1
            } else {
                k2
            };
            match lisp_items_at(cs, k3) {
                Some((rest, m)) => Some((E::Pair(Rc::new(e), Rc::new(rest)), m)),
                None => None,
            }
        },
    }
}

/// Reads one term of the bracketed notation (see `lisp_spec`) from the start
/// of `s`; the result holds the term and the text after it. `None` where the
/// text is no term: a missing closing bracket or an unexpected character.
pub fn parse_lisp(s: &str) -> (r: Option<(E, String)>)
    ensures
        match (r, lisp_spec(s@, 0)) {
            (Some((e, rest)), Some((t, k))) => e.term() == t && e.no_shared() && rest@
                == s@.subrange(k, s@.len() as int),
            (None, None) => true,
            _ => false,
        },
{
    let cs = chars_of(s);
    match lisp_at(&cs, 0) {
        Some((e, k)) => {
            proof {
                lemma_lisp_advances(cs@, 0);
            }
            let rest = copy_range(&cs, k, cs.len());
            Some((e, string_of(rest.as_slice())))
        },
        None => None,
    }
}
} // verus!
