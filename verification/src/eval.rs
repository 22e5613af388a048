//! The evaluator of the galaxy language, and the big-step semantics it
//! computes.
//!
//! `big_step(defs, t, et, fuel)` is the meaning of evaluating `t` with the
//! named functions `defs`; `et` asks for pairs to be evaluated as well. Every
//! evaluation of an application costs one unit of `fuel` at its depth; when
//! the fuel runs out the outcome is `Err(EvalError::OutOfFuel)`.
use std::rc::Rc;
use vstd::prelude::*;
use crate::parser::{E, Etc, Term, Int, lemma_closed_extend, unrc};
use crate::text::{chars_of, chars_eq, str_eq};

verus! {

/// Why an evaluation did not produce a value. An evaluation that cannot go
/// on (a name with no definition, a builtin on arguments of the wrong kind
/// such as `lt` or `eq` on something other than numbers, an arithmetic
/// result outside `Int`, a division by zero, or fuel run out) returns one of
/// these rather than stopping the program.
#[derive(Clone, Copy, PartialEq, Eq, Debug, Structural)]
pub enum EvalError {
    /// A name starting with `:` that has no definition.
    UnknownFunction,
    /// A builtin applied to arguments of the wrong kind.
    TypeError,
    /// An arithmetic result outside `Int`.
    Overflow,
    /// A division by zero.
    DivisionByZero,
    /// The evaluation went deeper than its fuel allows.
    OutOfFuel,
}

/// The builtin functions of the language, by name.
#[derive(Clone, Copy, PartialEq, Eq, Debug, Structural)]
pub enum Builtin {
    Eq,
    Add,
    Mul,
    Div,
    Lt,
    B,
    C,
    S,
    If0,
    Inc,
    Dec,
    Neg,
    Car,
    Cdr,
    IsNil,
    I,
    NotBuiltin,
}

/// Which builtin a name denotes.
pub open spec fn builtin(n: Seq<char>) -> Builtin {
    if n == "eq"@ {
        Builtin::Eq
    } else if n == "add"@ {
        Builtin::Add
    } else if n == "mul"@ {
        Builtin::Mul
    } else if n == "div"@ {
        Builtin::Div
    } else if n == "lt"@ {
        Builtin::Lt
    } else if n == "b"@ {
        Builtin::B
    } else if n == "c"@ {
        Builtin::C
    } else if n == "s"@ {
        Builtin::S
    } else if n == "if0"@ {
        Builtin::If0
    } else if n == "inc"@ {
        Builtin::Inc
    } else if n == "dec"@ {
        Builtin::Dec
    } else if n == "neg"@ {
        Builtin::Neg
    } else if n == "car"@ {
        Builtin::Car
    } else if n == "cdr"@ {
        Builtin::Cdr
    } else if n == "isnil"@ {
        Builtin::IsNil
    } else if n == "i"@ {
        Builtin::I
    } else {
        Builtin::NotBuiltin
    }
}

pub open spec fn is_binop(b: Builtin) -> bool {
    b == Builtin::Eq || b == Builtin::Add || b == Builtin::Mul || b == Builtin::Div || b
        == Builtin::Lt
}

/// A name that refers to a defined function.
pub open spec fn is_ref_name(n: Seq<char>) -> bool {
    n.len() > 0 && n[0] == ':'
}

/// Division rounding towards zero, as Rust's `/` on integers.
pub open spec fn trunc_div(x: int, d: int) -> int {
    if x == 0 {
        0
    } else if x > 0 && d > 0 {
        x / d
    } else if x < 0 && d < 0 {
        (x * -1) / (d * -1)
    } else if x < 0 {
        ((x * -1) / d) * -1
    } else {
        (x / (d * -1)) * -1
    }
}

pub open spec fn int_result(v: int) -> Result<Term, EvalError> {
    if i128::MIN <= v <= i128::MAX {
        Ok(Term::Num(v as i128))
    } else {
        Err(EvalError::Overflow)
    }
}

pub open spec fn bool_term(b: bool) -> Term {
    if b {
        Term::T
    } else {
        Term::F
    }
}

/// A binary builtin applied to `x` (its first argument) and `y`.
pub open spec fn binop(op: Builtin, x: Term, y: Term) -> Result<Term, EvalError> {
    match (x, y) {
        (Term::Num(a), Term::Num(b)) => if op == Builtin::Eq {
            Ok(bool_term(a == b))
        } else if op == Builtin::Add {
            int_result(a + b)
        } else if op == Builtin::Mul {
            int_result(a * b)
        } else if op == Builtin::Div {
            if b == 0 {
                Err(EvalError::DivisionByZero)
            } else {
                int_result(trunc_div(a as int, b as int))
            }
        } else {
            Ok(bool_term(a < b))
        },
        _ => Err(EvalError::TypeError),
    }
}

pub open spec fn ap(f: Term, x: Term) -> Term {
    Term::Ap(Box::new(f), Box::new(x))
}

/// Evaluating `t`.
pub open spec fn big_step(defs: Map<Seq<char>, Term>, t: Term, et: bool, fuel: nat) -> Result<
    Term,
    EvalError,
>
    decreases fuel, 0nat, t,
{
    match t {
        Term::Ap(x1, y1) => if fuel == 0 {
            Err(EvalError::OutOfFuel)
        } else {
            match big_step(defs, *x1, et, (fuel - 1) as nat) {
                Ok(h) => apply(defs, h, *y1, et, (fuel - 1) as nat),
                Err(err) => Err(err),
            }
        },
        Term::Other(n) => if is_ref_name(n) {
            if !defs.contains_key(n) {
                Err(EvalError::UnknownFunction)
            } else if fuel == 0 {
                Err(EvalError::OutOfFuel)
            } else {
                big_step(defs, defs[n], et, (fuel - 1) as nat)
            }
        } else {
            Ok(t)
        },
        Term::Pair(a, b) => if et {
            match big_step(defs, *a, et, fuel) {
                Ok(va) => match big_step(defs, *b, et, fuel) {
                    Ok(vb) => Ok(Term::Pair(Box::new(va), Box::new(vb))),
                    Err(err) => Err(err),
                },
                Err(err) => Err(err),
            }
        } else {
            Ok(t)
        },
        _ => Ok(t),
    }
}

/// Applying the value `h` of a function to the (unevaluated) argument `y1`.
pub open spec fn apply(defs: Map<Seq<char>, Term>, h: Term, y1: Term, et: bool, f: nat) -> Result<
    Term,
    EvalError,
>
    decreases f, 1nat, h,
{
    let stuck = Ok(ap(h, y1));
    match h {
        Term::Ap(x2, y2) => match *x2 {
            Term::Cons => if et {
                match big_step(defs, *y2, et, f) {
                    Ok(a) => match big_step(defs, y1, et, f) {
                        Ok(b) => Ok(Term::Pair(Box::new(a), Box::new(b))),
                        Err(err) => Err(err),
                    },
                    Err(err) => Err(err),
                }
            } else {
                Ok(Term::Pair(y2, Box::new(y1)))
            },
            Term::T => big_step(defs, *y2, et, f),
            Term::F => big_step(defs, y1, et, f),
            Term::Other(n) => if is_binop(builtin(n)) {
                match big_step(defs, y1, et, f) {
                    Ok(b) => match big_step(defs, *y2, et, f) {
                        Ok(a) => binop(builtin(n), a, b),
                        Err(err) => Err(err),
                    },
                    Err(err) => Err(err),
                }
            } else {
                stuck
            },
            Term::Ap(x3, y3) => match *x3 {
                Term::Other(n) => {
                    let op = builtin(n);
                    if op == Builtin::B {
                        big_step(defs, ap(*y3, ap(*y2, y1)), et, f)
                    } else if op == Builtin::C {
                        big_step(defs, ap(ap(*y3, y1), *y2), et, f)
                    } else if op == Builtin::S {
                        big_step(defs, ap(ap(*y3, y1), ap(*y2, y1)), et, f)
                    } else if op == Builtin::If0 {
                        match big_step(defs, *y3, et, f) {
                            Ok(Term::Num(a)) => if a == 0 {
                                big_step(defs, *y2, et, f)
                            } else {
                                big_step(defs, y1, et, f)
                            },
                            Ok(_) => Err(EvalError::TypeError),
                            Err(err) => Err(err),
                        }
                    } else {
                        stuck
                    }
                },
                _ => stuck,
            },
            _ => stuck,
        },
        Term::Pair(a, b) => big_step(defs, ap(ap(y1, *a), *b), et, f),
        Term::Other(n) => {
            let op = builtin(n);
            if op == Builtin::Inc || op == Builtin::Dec || op == Builtin::Neg {
                match big_step(defs, y1, et, f) {
                    Ok(Term::Num(a)) => if op == Builtin::Inc {
                        int_result(a + 1)
                    } else if op == Builtin::Dec {
                        int_result(a - 1)
                    } else {
                        int_result(-a)
                    },
                    Ok(_) => Err(EvalError::TypeError),
                    Err(err) => Err(err),
                }
            } else if op == Builtin::Car || op == Builtin::Cdr {
                match big_step(defs, y1, et, f) {
                    Ok(Term::Pair(a, b)) => if op == Builtin::Car {
                        big_step(defs, *a, et, f)
                    } else {
                        big_step(defs, *b, et, f)
                    },
                    Ok(_) => Err(EvalError::TypeError),
                    Err(err) => Err(err),
                }
            } else if op == Builtin::IsNil {
                match big_step(defs, y1, et, f) {
                    Ok(Term::Nil) => Ok(Term::T),
                    Ok(Term::Ap(_, _)) => Err(EvalError::TypeError),
                    Ok(Term::Num(_)) => Err(EvalError::TypeError),
                    Ok(_) => Ok(Term::F),
                    Err(err) => Err(err),
                }
            } else if op == Builtin::I {
                big_step(defs, y1, et, f)
            } else {
                stuck
            }
        },
        Term::Nil => Ok(Term::T),
        _ => stuck,
    }
}

/// More fuel never changes an outcome that did not run out of fuel.
pub proof fn lemma_big_step_mono(defs: Map<Seq<char>, Term>, t: Term, et: bool, fuel: nat)
    ensures
        big_step(defs, t, et, fuel) != Err::<Term, EvalError>(EvalError::OutOfFuel) ==> big_step(
            defs,
            t,
            et,
            fuel + 1,
        ) == big_step(defs, t, et, fuel),
    decreases fuel, 0nat, t,
{
    match t {
        Term::Ap(x1, y1) => {
            if fuel > 0 {
                let f = (fuel - 1) as nat;
                lemma_big_step_mono(defs, *x1, et, f);
                if let Ok(h) = big_step(defs, *x1, et, f) {
                    lemma_apply_mono(defs, h, *y1, et, f);
                }
            }
        },
        Term::Other(n) => {
            if is_ref_name(n) && defs.contains_key(n) && fuel > 0 {
                lemma_big_step_mono(defs, defs[n], et, (fuel - 1) as nat);
            }
        },
        Term::Pair(a, b) => {
            lemma_big_step_mono(defs, *a, et, fuel);
            lemma_big_step_mono(defs, *b, et, fuel);
        },
        _ => {},
    }
}

/// More fuel never changes an application's outcome that did not run out of
/// fuel.
pub proof fn lemma_apply_mono(defs: Map<Seq<char>, Term>, h: Term, y1: Term, et: bool, f: nat)
    ensures
        apply(defs, h, y1, et, f) != Err::<Term, EvalError>(EvalError::OutOfFuel) ==> apply(
            defs,
            h,
            y1,
            et,
            f + 1,
        ) == apply(defs, h, y1, et, f),
    decreases f, 1nat, h,
{
    match h {
        Term::Ap(x2, y2) => {
            lemma_big_step_mono(defs, *y2, et, f);
            lemma_big_step_mono(defs, y1, et, f);
            match *x2 {
                Term::Ap(x3, y3) => {
                    lemma_big_step_mono(defs, *y3, et, f);
                    lemma_big_step_mono(defs, ap(*y3, ap(*y2, y1)), et, f);
                    lemma_big_step_mono(defs, ap(ap(*y3, y1), *y2), et, f);
                    lemma_big_step_mono(defs, ap(ap(*y3, y1), ap(*y2, y1)), et, f);
                },
                _ => {},
            }
        },
        Term::Pair(a, b) => {
            lemma_big_step_mono(defs, ap(ap(y1, *a), *b), et, f);
        },
        Term::Other(n) => {
            lemma_big_step_mono(defs, y1, et, f);
            if let Ok(Term::Pair(a, b)) = big_step(defs, y1, et, f) {
                lemma_big_step_mono(defs, *a, et, f);
                lemma_big_step_mono(defs, *b, et, f);
            }
        },
        _ => {},
    }
}

/// An outcome reached with some fuel stays the same with any larger fuel.
pub proof fn lemma_big_step_mono_le(
    defs: Map<Seq<char>, Term>,
    t: Term,
    et: bool,
    f1: nat,
    f2: nat,
)
    requires
        f1 <= f2,
        big_step(defs, t, et, f1) != Err::<Term, EvalError>(EvalError::OutOfFuel),
    ensures
        big_step(defs, t, et, f2) == big_step(defs, t, et, f1),
    decreases f2 - f1,
{
    if f1 < f2 {
        lemma_big_step_mono(defs, t, et, f1);
        lemma_big_step_mono_le(defs, t, et, f1 + 1, f2);
    }
}

/// `t` selects its first argument and `f` its second; unfolding the two
/// applications takes one unit of fuel.
pub proof fn lemma_select(defs: Map<Seq<char>, Term>, x: Term, y: Term, et: bool, f: nat)
    ensures
        big_step(defs, ap(ap(Term::T, x), y), et, f + 2) == big_step(defs, x, et, f + 1),
        big_step(defs, ap(ap(Term::F, x), y), et, f + 2) == big_step(defs, y, et, f + 1),
{
    assert(big_step(defs, Term::T, et, f) == Ok::<Term, EvalError>(Term::T));
    assert(apply(defs, Term::T, x, et, f) == Ok::<Term, EvalError>(ap(Term::T, x)));
    assert(big_step(defs, ap(Term::T, x), et, f + 1) == Ok::<Term, EvalError>(ap(Term::T, x)));
    assert(big_step(defs, Term::F, et, f) == Ok::<Term, EvalError>(Term::F));
    assert(apply(defs, Term::F, x, et, f) == Ok::<Term, EvalError>(ap(Term::F, x)));
    assert(big_step(defs, ap(Term::F, x), et, f + 1) == Ok::<Term, EvalError>(ap(Term::F, x)));
    assert(big_step(defs, ap(ap(Term::T, x), y), et, f + 2) == apply(defs, ap(Term::T, x), y, et, f + 1));
    assert(big_step(defs, ap(ap(Term::F, x), y), et, f + 2) == apply(defs, ap(Term::F, x), y, et, f + 1));
}

/// `cons` builds a pair of its arguments: as they stand, or evaluated when
/// pairs are evaluated.
pub proof fn lemma_cons(defs: Map<Seq<char>, Term>, x: Term, y: Term, f: nat)
    ensures
        big_step(defs, ap(ap(Term::Cons, x), y), false, f + 2) == Ok::<Term, EvalError>(
            Term::Pair(Box::new(x), Box::new(y)),
        ),
        big_step(defs, ap(ap(Term::Cons, x), y), true, f + 2) == match big_step(defs, x, true, f + 1) {
            Ok(a) => match big_step(defs, y, true, f + 1) {
                Ok(b) => Ok(Term::Pair(Box::new(a), Box::new(b))),
                Err(err) => Err(err),
            },
            Err(err) => Err(err),
        },
{
    assert(big_step(defs, Term::Cons, false, f) == Ok::<Term, EvalError>(Term::Cons));
    assert(apply(defs, Term::Cons, x, false, f) == Ok::<Term, EvalError>(ap(Term::Cons, x)));
    assert(big_step(defs, ap(Term::Cons, x), false, f + 1) == Ok::<Term, EvalError>(ap(Term::Cons, x)));
    assert(big_step(defs, Term::Cons, true, f) == Ok::<Term, EvalError>(Term::Cons));
    assert(apply(defs, Term::Cons, x, true, f) == Ok::<Term, EvalError>(ap(Term::Cons, x)));
    assert(big_step(defs, ap(Term::Cons, x), true, f + 1) == Ok::<Term, EvalError>(ap(Term::Cons, x)));
    assert(big_step(defs, ap(ap(Term::Cons, x), y), false, f + 2) == apply(defs, ap(Term::Cons, x), y, false, f + 1));
    assert(big_step(defs, ap(ap(Term::Cons, x), y), true, f + 2) == apply(defs, ap(Term::Cons, x), y, true, f + 1));
}

/// What the cache for the mode `et` holds in slot `id`: the value and the
/// fuel it was computed with.
pub open spec fn cached(ev: Evaluator, id: int, et: bool) -> Option<(E, u64)> {
    if et {
        ev.data.cache2@[id]
    } else {
        ev.data.cache@[id]
    }
}

/// `s` applied to two arguments, `s x y`, spelled out as the name `s`.
pub open spec fn s_applied(e: E) -> bool {
    e matches E::Ap(p, _) && (*p matches E::Ap(q, _) && (*q matches E::Etc(Etc::Other(n)) && builtin(
        n@,
    ) == Builtin::S))
}

/// The shared terms `srcs2` hold, after those of `srcs`, a fresh slot for
/// the term `t`; both caches then have a place for it.
pub open spec fn shared_anew(srcs: Seq<Term>, srcs2: Seq<Term>, t: Term) -> bool {
    exists|k: int| srcs.len() <= k < srcs2.len() && #[trigger] srcs2[k] == t
}

/// `s x y` waits for its third argument: it evaluates to itself.
proof fn lemma_s_waits(defs: Map<Seq<char>, Term>, e: E, et: bool, f: nat)
    requires
        s_applied(e),
    ensures
        big_step(defs, e.term(), et, f + 2) == Ok::<Term, EvalError>(e.term()),
{
    reveal_strlit("s");
    if let E::Ap(p, y) = e {
        if let E::Ap(q, x) = unrc(p) {
            if let E::Etc(Etc::Other(n)) = unrc(q) {
                let o = Term::Other(n@);
                let t1 = ap(o, unrc(x).term());
                assert(builtin(n@) == Builtin::S);
                assert(n@ == "s"@);
                assert(!is_ref_name(n@));
                assert(big_step(defs, o, et, f) == Ok::<Term, EvalError>(o));
                assert(apply(defs, o, unrc(x).term(), et, f) == Ok::<Term, EvalError>(t1));
                assert(big_step(defs, t1, et, f + 1) == Ok::<Term, EvalError>(t1));
                assert(!is_binop(builtin(n@)));
                assert(unrc(q).term() == o);
                assert(unrc(p).term() == t1);
                assert(e.term() == ap(t1, unrc(y).term()));
                assert(apply(defs, t1, unrc(y).term(), et, f + 1) == Ok::<Term, EvalError>(e.term()));
            }
        }
    }
}

/// A value with the meaning of `s x y`, spelled with the name `s`, has that
/// shape itself.
proof fn lemma_s_shape(h: E, e: E)
    requires
        h.is_value_shape(),
        h.term() == e.term(),
        s_applied(e),
    ensures
        s_applied(h),
{
    if let E::Ap(p, _) = e {
        if let E::Ap(q, _) = unrc(p) {
            if let E::Etc(Etc::Other(n)) = unrc(q) {
                assert(unrc(q).term() == Term::Other(n@));
                match h {
                    E::Ap(hp, _) => {
                        assert(unrc(hp).is_value_shape());
                        assert(unrc(hp).term() == unrc(p).term());
                        match unrc(hp) {
                            E::Ap(hq, _) => {
                                assert(unrc(hq).is_value_shape());
                                assert(unrc(hq).term() == unrc(q).term());
                                assert(unrc(hq).term() == Term::Other(n@));
                                match unrc(hq) {
                                    E::Etc(etc) => {
                                        assert(etc.term() == Term::Other(n@));
                                    },
                                    _ => {},
                                }
                            },
                            _ => {},
                        }
                    },
                    _ => {},
                }
            }
        }
    }
}

/// The combinators: `s x y z` is `x z (y z)`, `b x y z` is `x (y z)` and
/// `c x y z` is `x z y`; unfolding the three applications takes one unit of
/// fuel.
pub proof fn lemma_combinators(
    defs: Map<Seq<char>, Term>,
    n: Seq<char>,
    x: Term,
    y: Term,
    z: Term,
    et: bool,
    f: nat,
)
    requires
        !is_ref_name(n),
    ensures
        builtin(n) == Builtin::S ==> big_step(defs, ap(ap(ap(Term::Other(n), x), y), z), et, f + 3)
            == big_step(defs, ap(ap(x, z), ap(y, z)), et, f + 2),
        builtin(n) == Builtin::B ==> big_step(defs, ap(ap(ap(Term::Other(n), x), y), z), et, f + 3)
            == big_step(defs, ap(x, ap(y, z)), et, f + 2),
        builtin(n) == Builtin::C ==> big_step(defs, ap(ap(ap(Term::Other(n), x), y), z), et, f + 3)
            == big_step(defs, ap(ap(x, z), y), et, f + 2),
{
    let o = Term::Other(n);
    let t1 = ap(o, x);
    let t2 = ap(t1, y);
    if builtin(n) == Builtin::S || builtin(n) == Builtin::B || builtin(n) == Builtin::C {
        assert(big_step(defs, o, et, f) == Ok::<Term, EvalError>(o));
        assert(apply(defs, o, x, et, f) == Ok::<Term, EvalError>(t1));
        assert(big_step(defs, t1, et, f + 1) == Ok::<Term, EvalError>(t1));
        assert(!is_binop(builtin(n)));
        assert(apply(defs, t1, y, et, f + 1) == Ok::<Term, EvalError>(t2));
        assert(big_step(defs, t2, et, f + 2) == Ok::<Term, EvalError>(t2));
        assert(big_step(defs, ap(t2, z), et, f + 3) == apply(defs, t2, z, et, f + 2));
    }
}


/// The names of the arithmetic builtins denote them, and none is a
/// reference.
proof fn lemma_builtin_names()
    ensures
        builtin("eq"@) == Builtin::Eq && !is_ref_name("eq"@),
        builtin("add"@) == Builtin::Add && !is_ref_name("add"@),
        builtin("mul"@) == Builtin::Mul && !is_ref_name("mul"@),
        builtin("div"@) == Builtin::Div && !is_ref_name("div"@),
        builtin("lt"@) == Builtin::Lt && !is_ref_name("lt"@),
        builtin("inc"@) == Builtin::Inc && !is_ref_name("inc"@),
        builtin("dec"@) == Builtin::Dec && !is_ref_name("dec"@),
        builtin("neg"@) == Builtin::Neg && !is_ref_name("neg"@),
{
    reveal_strlit("eq");
    reveal_strlit("add");
    reveal_strlit("mul");
    reveal_strlit("div");
    reveal_strlit("lt");
    reveal_strlit("b");
    reveal_strlit("c");
    reveal_strlit("s");
    reveal_strlit("if0");
    reveal_strlit("inc");
    reveal_strlit("dec");
    reveal_strlit("neg");
    assert("eq"@[0] == 'e' && "eq"@[1] == 'q');
    assert("add"@[0] == 'a' && "add"@[1] == 'd');
    assert("mul"@[0] == 'm');
    assert("div"@[0] == 'd' && "div"@[1] == 'i');
    assert("lt"@[0] == 'l');
    assert("b"@[0] == 'b' && "c"@[0] == 'c' && "s"@[0] == 's');
    assert("if0"@[0] == 'i');
    assert("inc"@[0] == 'i' && "inc"@[1] == 'n');
    assert("dec"@[0] == 'd' && "dec"@[1] == 'e');
    assert("neg"@[0] == 'n');
}

/// A binary builtin named `n` on two numbers, written `ap ap n a b`.
proof fn lemma_binop_step(defs: Map<Seq<char>, Term>, n: Seq<char>, a: Int, b: Int, et: bool, f: nat)
    requires
        is_binop(builtin(n)),
        !is_ref_name(n),
    ensures
        big_step(defs, ap(ap(Term::Other(n), Term::Num(a)), Term::Num(b)), et, f + 2) == binop(
            builtin(n),
            Term::Num(a),
            Term::Num(b),
        ),
{
    let o = Term::Other(n);
    let t1 = ap(o, Term::Num(a));
    assert(big_step(defs, o, et, f) == Ok::<Term, EvalError>(o));
    assert(apply(defs, o, Term::Num(a), et, f) == Ok::<Term, EvalError>(t1));
    assert(big_step(defs, t1, et, f + 1) == Ok::<Term, EvalError>(t1));
    assert(big_step(defs, Term::Num(a), et, f + 1) == Ok::<Term, EvalError>(Term::Num(a)));
    assert(big_step(defs, Term::Num(b), et, f + 1) == Ok::<Term, EvalError>(Term::Num(b)));
    assert(apply(defs, t1, Term::Num(b), et, f + 1) == binop(builtin(n), Term::Num(a), Term::Num(b)));
    assert(big_step(defs, ap(t1, Term::Num(b)), et, f + 2) == apply(defs, t1, Term::Num(b), et, f + 1));
}

/// A unary builtin named `n` on a number, written `ap n a`.
proof fn lemma_unop_step(defs: Map<Seq<char>, Term>, n: Seq<char>, a: Int, et: bool, f: nat)
    requires
        !is_ref_name(n),
    ensures
        big_step(defs, ap(Term::Other(n), Term::Num(a)), et, f + 1) == apply(
            defs,
            Term::Other(n),
            Term::Num(a),
            et,
            f,
        ),
        big_step(defs, Term::Num(a), et, f) == Ok::<Term, EvalError>(Term::Num(a)),
{
    assert(big_step(defs, Term::Other(n), et, f) == Ok::<Term, EvalError>(Term::Other(n)));
}

/// The arithmetic of the builtins on numbers `a` and `b`, each written
/// `ap ap op a b` with `a` the first argument: `lt` is true exactly when
/// `a < b`, `eq` exactly when they are equal, `add` and `mul` give the sum
/// and product when they fit, `div` by zero fails; `inc`, `dec` and `neg`
/// give `a + 1`, `a - 1` and `-a` when they fit.
pub proof fn lemma_arithmetic(defs: Map<Seq<char>, Term>, a: Int, b: Int, et: bool, f: nat)
    ensures
        big_step(defs, ap(ap(Term::Other("lt"@), Term::Num(a)), Term::Num(b)), et, f + 2) == Ok::<
            Term,
            EvalError,
        >(if a < b { Term::T } else { Term::F }),
        big_step(defs, ap(ap(Term::Other("eq"@), Term::Num(a)), Term::Num(b)), et, f + 2) == Ok::<
            Term,
            EvalError,
        >(if a == b { Term::T } else { Term::F }),
        i128::MIN <= a + b <= i128::MAX ==> big_step(
            defs,
            ap(ap(Term::Other("add"@), Term::Num(a)), Term::Num(b)),
            et,
            f + 2,
        ) == Ok::<Term, EvalError>(Term::Num((a + b) as i128)),
        i128::MIN <= a * b <= i128::MAX ==> big_step(
            defs,
            ap(ap(Term::Other("mul"@), Term::Num(a)), Term::Num(b)),
            et,
            f + 2,
        ) == Ok::<Term, EvalError>(Term::Num((a * b) as i128)),
        b == 0 ==> big_step(defs, ap(ap(Term::Other("div"@), Term::Num(a)), Term::Num(b)), et, f + 2)
            == Err::<Term, EvalError>(EvalError::DivisionByZero),
        a < i128::MAX ==> big_step(defs, ap(Term::Other("inc"@), Term::Num(a)), et, f + 1) == Ok::<
            Term,
            EvalError,
        >(Term::Num((a + 1) as i128)),
        a > i128::MIN ==> big_step(defs, ap(Term::Other("dec"@), Term::Num(a)), et, f + 1) == Ok::<
            Term,
            EvalError,
        >(Term::Num((a - 1) as i128)),
        a > i128::MIN ==> big_step(defs, ap(Term::Other("neg"@), Term::Num(a)), et, f + 1) == Ok::<
            Term,
            EvalError,
        >(Term::Num((-a) as i128)),
{
    lemma_builtin_names();
    lemma_binop_step(defs, "lt"@, a, b, et, f);
    lemma_binop_step(defs, "eq"@, a, b, et, f);
    lemma_binop_step(defs, "add"@, a, b, et, f);
    lemma_binop_step(defs, "mul"@, a, b, et, f);
    lemma_binop_step(defs, "div"@, a, b, et, f);
    lemma_unop_step(defs, "inc"@, a, et, f);
    lemma_unop_step(defs, "dec"@, a, et, f);
    lemma_unop_step(defs, "neg"@, a, et, f);
}

/// More names of builtins denote them.
proof fn lemma_more_builtin_names()
    ensures
        builtin("car"@) == Builtin::Car && !is_ref_name("car"@),
        builtin("cdr"@) == Builtin::Cdr && !is_ref_name("cdr"@),
        builtin("isnil"@) == Builtin::IsNil && !is_ref_name("isnil"@),
        builtin("i"@) == Builtin::I && !is_ref_name("i"@),
        builtin("if0"@) == Builtin::If0 && !is_ref_name("if0"@),
{
    reveal_strlit("eq");
    reveal_strlit("add");
    reveal_strlit("mul");
    reveal_strlit("div");
    reveal_strlit("lt");
    reveal_strlit("b");
    reveal_strlit("c");
    reveal_strlit("s");
    reveal_strlit("if0");
    reveal_strlit("inc");
    reveal_strlit("dec");
    reveal_strlit("neg");
    reveal_strlit("car");
    reveal_strlit("cdr");
    reveal_strlit("isnil");
    reveal_strlit("i");
    assert("eq"@.len() == 2 && "lt"@.len() == 2 && "b"@.len() == 1 && "c"@.len() == 1 && "s"@.len() == 1);
    assert("i"@.len() == 1 && "if0"@.len() == 3 && "car"@.len() == 3 && "isnil"@.len() == 5);
    assert("car"@[0] == 'c' && "car"@[1] == 'a' && "add"@[0] == 'a' && "mul"@[0] == 'm');
    assert("cdr"@[0] == 'c' && "cdr"@[1] == 'd' && "div"@[0] == 'd' && "dec"@[0] == 'd');
    assert("isnil"@[0] == 'i' && "if0"@[1] == 'f' && "inc"@[1] == 'n' && "neg"@[0] == 'n');
    assert("i"@[0] == 'i' && "if0"@[0] == 'i' && "inc"@[0] == 'i');
}

/// The list builtins and the identity on values that are already
/// evaluated: `car` of a pair `<a, b>` is `a`, `cdr` is `b`; `isnil nil` is
/// `t` and `isnil` of a pair is `f`; `i x` is `x`; `if0 0 x y` evaluates
/// `x` and `if0 n x y` with `n` not 0 evaluates `y`.
pub proof fn lemma_list_builtins(defs: Map<Seq<char>, Term>, a: Int, b: Int, n: Int, x: Term, y: Term, f: nat)
    ensures
        ({
            let p = Term::Pair(Box::new(Term::Num(a)), Box::new(Term::Num(b)));
            &&& big_step(defs, ap(Term::Other("car"@), p), false, f + 1) == Ok::<Term, EvalError>(Term::Num(a))
            &&& big_step(defs, ap(Term::Other("cdr"@), p), false, f + 1) == Ok::<Term, EvalError>(Term::Num(b))
            &&& big_step(defs, ap(Term::Other("isnil"@), Term::Nil), false, f + 1) == Ok::<Term, EvalError>(Term::T)
            &&& big_step(defs, ap(Term::Other("isnil"@), p), false, f + 1) == Ok::<Term, EvalError>(Term::F)
            &&& big_step(defs, ap(Term::Other("i"@), Term::Num(a)), false, f + 1) == Ok::<Term, EvalError>(Term::Num(a))
        }),
        big_step(defs, ap(ap(ap(Term::Other("if0"@), Term::Num(n)), x), y), false, f + 3) == if n == 0 {
            big_step(defs, x, false, f + 2)
        } else {
            big_step(defs, y, false, f + 2)
        },
{
    lemma_more_builtin_names();
    let p = Term::Pair(Box::new(Term::Num(a)), Box::new(Term::Num(b)));
    assert(big_step(defs, p, false, f) == Ok::<Term, EvalError>(p));
    assert(big_step(defs, Term::Nil, false, f) == Ok::<Term, EvalError>(Term::Nil));
    assert(big_step(defs, Term::Num(a), false, f) == Ok::<Term, EvalError>(Term::Num(a)));
    assert(big_step(defs, Term::Num(n), false, f) == Ok::<Term, EvalError>(Term::Num(n)));
    assert(big_step(defs, Term::Num(b), false, f) == Ok::<Term, EvalError>(Term::Num(b)));
    lemma_unop_step(defs, "car"@, a, false, f);
    lemma_unop_step(defs, "i"@, a, false, f);
    assert(big_step(defs, Term::Other("car"@), false, f) == Ok::<Term, EvalError>(Term::Other("car"@)));
    assert(big_step(defs, Term::Other("cdr"@), false, f) == Ok::<Term, EvalError>(Term::Other("cdr"@)));
    assert(big_step(defs, Term::Other("isnil"@), false, f) == Ok::<Term, EvalError>(Term::Other("isnil"@)));
    assert(apply(defs, Term::Other("car"@), p, false, f) == Ok::<Term, EvalError>(Term::Num(a)));
    assert(apply(defs, Term::Other("cdr"@), p, false, f) == Ok::<Term, EvalError>(Term::Num(b)));
    assert(apply(defs, Term::Other("isnil"@), Term::Nil, false, f) == Ok::<Term, EvalError>(Term::T));
    assert(apply(defs, Term::Other("isnil"@), p, false, f) == Ok::<Term, EvalError>(Term::F));
    assert(apply(defs, Term::Other("i"@), Term::Num(a), false, f) == Ok::<Term, EvalError>(Term::Num(a)));
    let o = Term::Other("if0"@);
    let t1 = ap(o, Term::Num(n));
    let t2 = ap(t1, x);
    assert(big_step(defs, o, false, f) == Ok::<Term, EvalError>(o));
    assert(apply(defs, o, Term::Num(n), false, f) == Ok::<Term, EvalError>(t1));
    assert(big_step(defs, t1, false, f + 1) == Ok::<Term, EvalError>(t1));
    assert(apply(defs, t1, x, false, f + 1) == Ok::<Term, EvalError>(t2));
    assert(big_step(defs, t2, false, f + 2) == Ok::<Term, EvalError>(t2));
    assert(big_step(defs, ap(t2, y), false, f + 3) == apply(defs, t2, y, false, f + 2));
    assert(big_step(defs, Term::Num(n), false, f + 2) == Ok::<Term, EvalError>(Term::Num(n)));
}

/// `div` rounds towards zero: for `b` other than 0 and -1, `ap ap div a b`
/// gives the `q` with `a == q * b + r`, where the rest `r` is smaller than
/// `b` in size and has the sign of `a` (or is 0).
pub proof fn lemma_division(defs: Map<Seq<char>, Term>, a: Int, b: Int, et: bool, f: nat)
    requires
        b != 0,
        b != -1,
    ensures
        big_step(defs, ap(ap(Term::Other("div"@), Term::Num(a)), Term::Num(b)), et, f + 2) matches Ok(
            Term::Num(q),
        ) && ({
            let r = a - q * b;
            &&& (if r < 0 { -r } else { r }) < (if b < 0 { -(b as int) } else { b as int })
            &&& a >= 0 ==> r >= 0
            &&& a <= 0 ==> r <= 0
        }),
{
    lemma_builtin_names();
    lemma_binop_step(defs, "div"@, a, b, et, f);
    let x = a as int;
    let d = b as int;
    let q = trunc_div(x, d);
    if x == 0 {
    } else if x > 0 && d > 0 {
        assert(x == (x / d) * d + x % d && 0 <= x % d < d) by (nonlinear_arith)
            requires d > 0;
        assert(0 <= x / d <= x) by (nonlinear_arith)
            requires x > 0, d > 0;
    } else if x < 0 && d < 0 {
        let nx = x * -1;
        let nd = d * -1;
        assert(nx == (nx / nd) * nd + nx % nd && 0 <= nx % nd < nd) by (nonlinear_arith)
            requires nd > 0;
        assert(0 <= nx / nd <= nx / 2) by (nonlinear_arith)
            requires nx > 0, nd >= 2;
        assert(q * d == -((nx / nd) * nd)) by (nonlinear_arith)
            requires q == nx / nd, nd == d * -1;
    } else if x < 0 {
        let nx = x * -1;
        assert(nx == (nx / d) * d + nx % d && 0 <= nx % d < d) by (nonlinear_arith)
            requires d > 0;
        assert(0 <= nx / d <= nx) by (nonlinear_arith)
            requires nx > 0, d > 0;
        assert(q * d == -((nx / d) * d)) by (nonlinear_arith)
            requires q == (nx / d) * -1;
    } else {
        let nd = d * -1;
        assert(x == (x / nd) * nd + x % nd && 0 <= x % nd < nd) by (nonlinear_arith)
            requires nd > 0;
        assert(0 <= x / nd <= x / 2) by (nonlinear_arith)
            requires x > 0, nd >= 2;
        assert(q * d == (x / nd) * nd) by (nonlinear_arith)
            requires q == (x / nd) * -1, nd == d * -1;
    }
}

} // verus!

verus! {

/// The named functions an evaluator knows: a later definition of a name
/// replaces an earlier one.
pub struct FunctionTable {
    entries: Vec<(String, E)>,
}

/// The functions defined by a list of definitions, later ones winning.
pub open spec fn table_map(s: Seq<(String, E)>) -> Map<Seq<char>, E>
    decreases s.len(),
{
    if s.len() == 0 {
        Map::empty()
    } else {
        table_map(s.drop_last()).insert(s.last().0@, s.last().1)
    }
}

proof fn lemma_table_last(s: Seq<(String, E)>, k: Seq<char>, i: int)
    requires
        0 <= i < s.len(),
        s[i].0@ == k,
        forall|j: int| i < j < s.len() ==> s[j].0@ != k,
    ensures
        table_map(s).contains_key(k),
        table_map(s)[k] == s[i].1,
    decreases s.len(),
{
    if i < s.len() - 1 {
        lemma_table_last(s.drop_last(), k, i);
    }
}

proof fn lemma_table_absent(s: Seq<(String, E)>, k: Seq<char>)
    requires
        forall|j: int| 0 <= j < s.len() ==> s[j].0@ != k,
    ensures
        !table_map(s).contains_key(k),
    decreases s.len(),
{
    if s.len() > 0 {
        lemma_table_absent(s.drop_last(), k);
    }
}

impl View for FunctionTable {
    type V = Map<Seq<char>, E>;

    closed spec fn view(&self) -> Map<Seq<char>, E> {
        table_map(self.entries@)
    }
}

impl FunctionTable {
    /// A table with no function.
    pub fn new() -> (t: FunctionTable)
        ensures
            t@ == Map::<Seq<char>, E>::empty(),
    {
        FunctionTable { entries: Vec::new() }
    }

    /// Defines (or redefines) `name` as `exp`.
    pub fn insert(&mut self, name: String, exp: E)
        ensures
            final(self)@ == old(self)@.insert(name@, exp),
    {
        proof {
            let s = self.entries@.push((name, exp));
            assert(s.drop_last() == self.entries@);
        }
        self.entries.push((name, exp));
    }

    /// The definition of `name`, if there is one.
    pub fn get(&self, name: &str) -> (r: Option<&E>)
        ensures
            match r {
                Some(e) => self@.contains_key(name@) && self@[name@] == *e,
                None => !self@.contains_key(name@),
            },
    {
        let mut i = self.entries.len();
        while i > 0
            invariant
                i <= self.entries.len(),
                forall|j: int| i <= j < self.entries.len() ==> self.entries@[j].0@ != name@,
            decreases i,
        {
            i = i - 1;
            if str_eq(self.entries[i].0.as_str(), name) {
                proof {
                    lemma_table_last(self.entries@, name@, i as int);
                }
                return Some(&self.entries[i].1);
            }
        }
        proof {
            lemma_table_absent(self.entries@, name@);
        }
        None
    }

    /// A copy of this table.
    pub fn copy(&self) -> (r: FunctionTable)
        ensures
            r@ == self@,
    {
        let mut entries: Vec<(String, E)> = Vec::new();
        let mut i: usize = 0;
        while i < self.entries.len()
            invariant
                i <= self.entries.len(),
                entries@ == self.entries@.take(i as int),
            decreases self.entries.len() - i,
        {
            entries.push((self.entries[i].0.clone(), self.entries[i].1.copy()));
            assert(self.entries@.take(i + 1) == self.entries@.take(i as int).push(
                self.entries@[i as int],
            ));
            i = i + 1;
        }
        assert(self.entries@.take(self.entries.len() as int) == self.entries@);
        FunctionTable { entries }
    }
}

/// The evaluator's caches. Slot `id` belongs to the shared terms
/// `Cloned(a, id)`: `srcs[id]` is the meaning of `a`, and `cache[id]` (for
/// evaluations that leave pairs alone) or `cache2[id]` (for those that
/// evaluate pairs) holds the value of `a` once known, with the fuel that was
/// enough to reach it. `count` says how many times each name was looked up.
pub struct Data {
    pub count: Vec<(String, usize)>,
    pub cache: Vec<Option<(E, u64)>>,
    pub cache2: Vec<Option<(E, u64)>>,
    pub srcs: Ghost<Seq<Term>>,
}

/// An evaluator: the defined functions and the caches.
pub struct Evaluator {
    pub map: FunctionTable,
    pub data: Data,
}

/// A cache slot is right: its value is the value of the slot's term.
pub open spec fn slot_ok(
    defs: Map<Seq<char>, Term>,
    srcs: Seq<Term>,
    slot: Option<(E, u64)>,
    id: int,
    et: bool,
) -> bool {
    match slot {
        None => true,
        Some((v, g)) => v.is_value_shape() && v.closed(srcs) && big_step(defs, srcs[id], et, g as nat)
            == Ok::<Term, EvalError>(v.term()),
    }
}

/// The look-up counts only grow: every name keeps its place and its count
/// never decreases.
pub open spec fn counts_grow(old: Seq<(String, usize)>, new: Seq<(String, usize)>) -> bool {
    &&& old.len() <= new.len()
    &&& forall|i: int| 0 <= i < old.len() ==> (#[trigger] new[i]).0 == old[i].0 && new[i].1 >= old[i].1
}

/// The counts after one more look-up of `name`, searching from entry `i`:
/// the first entry from there whose name reads as `name` gains one (staying
/// at `usize::MAX` once there); when there is none, `name` is added at the
/// end with a count of 1.
pub open spec fn bumped(counts: Seq<(String, usize)>, name: String, i: nat) -> Seq<(String, usize)>
    decreases counts.len() - i,
{
    if i >= counts.len() {
        counts.push((name, 1usize))
    } else if counts[i as int].0@ == name@ {
        let c = counts[i as int].1;
        counts.update(i as int, (counts[i as int].0, if c == usize::MAX { c } else { (c + 1) as usize }))
    } else {
        bumped(counts, name, i + 1)
    }
}

/// The count of the first entry from `i` on whose name reads as `name`, or
/// 0 when there is none.
pub open spec fn count_from(counts: Seq<(String, usize)>, name: Seq<char>, i: nat) -> nat
    decreases counts.len() - i,
{
    if i >= counts.len() {
        0
    } else if counts[i as int].0@ == name {
        counts[i as int].1 as nat
    } else {
        count_from(counts, name, i + 1)
    }
}

/// How many times `name` was looked up, by the counts.
pub open spec fn count_of(counts: Seq<(String, usize)>, name: Seq<char>) -> nat {
    count_from(counts, name, 0)
}

/// A count after one more look-up: one more, staying at `usize::MAX`.
pub open spec fn next_count(c: nat) -> nat {
    if c >= usize::MAX {
        c
    } else {
        c + 1
    }
}

proof fn lemma_bumped_count(counts: Seq<(String, usize)>, name: String, i: nat)
    requires
        i <= counts.len(),
        forall|j: int| 0 <= j < counts.len() ==> #[trigger] counts[j].1 <= usize::MAX,
    ensures
        count_from(bumped(counts, name, i), name@, i) == next_count(count_from(counts, name@, i)),
        bumped(counts, name, i).len() >= counts.len(),
        forall|j: int| 0 <= j < i ==> #[trigger] bumped(counts, name, i)[j] == counts[j],
    decreases counts.len() - i,
{
    if i < counts.len() && counts[i as int].0@ != name@ {
        lemma_bumped_count(counts, name, i + 1);
    }
}

proof fn lemma_count_grows(a: Seq<(String, usize)>, b: Seq<(String, usize)>, name: Seq<char>, i: nat)
    requires
        counts_grow(a, b),
        i <= a.len(),
    ensures
        count_from(b, name, i) >= count_from(a, name, i),
    decreases a.len() - i,
{
    if i < a.len() {
        assert(b[i as int].0 == a[i as int].0);
        lemma_count_grows(a, b, name, i + 1);
    }
}

/// The model of an evaluation's result.
pub open spec fn result_term(r: Result<E, EvalError>) -> Result<Term, EvalError> {
    match r {
        Ok(v) => Ok(v.term()),
        Err(err) => Err(err),
    }
}

impl Default for Data {
    fn default() -> (d: Data)
        ensures
            d.count@.len() == 0,
            d.cache@.len() == 0,
            d.cache2@.len() == 0,
            d.srcs@.len() == 0,
    {
        Data { count: Vec::new(), cache: Vec::new(), cache2: Vec::new(), srcs: Ghost(Seq::empty()) }
    }
}

impl Default for Evaluator {
    fn default() -> (ev: Evaluator)
        ensures
            ev.wf(),
            ev.map@ == Map::<Seq<char>, E>::empty(),
            ev.data.srcs@.len() == 0,
    {
        Evaluator { map: FunctionTable::new(), data: Data::default() }
    }
}

impl Evaluator {
    /// The meanings of the defined functions.
    pub open spec fn defs(self) -> Map<Seq<char>, Term> {
        self.map@.map_values(|e: E| e.term())
    }

    /// The evaluator is consistent: every defined function and every cached
    /// value is closed, and every cached value is right.
    pub open spec fn wf(self) -> bool {
        let srcs = self.data.srcs@;
        &&& self.data.cache@.len() == srcs.len()
        &&& self.data.cache2@.len() == srcs.len()
        &&& forall|k: Seq<char>| #[trigger]
            self.map@.contains_key(k) ==> self.map@[k].closed(srcs)
        &&& forall|id: int|
            0 <= id < srcs.len() ==> slot_ok(self.defs(), srcs, #[trigger] self.data.cache@[id], id, false)
        &&& forall|id: int|
            0 <= id < srcs.len() ==> slot_ok(self.defs(), srcs, #[trigger] self.data.cache2@[id], id, true)
    }
}

} // verus!

verus! {

/// Whether the characters `c` spell `lit`.
fn is_lit(c: &[char], lit: &str) -> (r: bool)
    ensures
        r == (c@ == lit@),
{
    let l = chars_of(lit);
    chars_eq(c, l.as_slice())
}

/// Which builtin the name `n` denotes.
pub fn builtin_of(n: &str) -> (b: Builtin)
    ensures
        b == builtin(n@),
{
    let c = chars_of(n);
    let c = c.as_slice();
    if is_lit(c, "eq") {
        Builtin::Eq
    } else if is_lit(c, "add") {
        Builtin::Add
    } else if is_lit(c, "mul") {
        Builtin::Mul
    } else if is_lit(c, "div") {
        Builtin::Div
    } else if is_lit(c, "lt") {
        Builtin::Lt
    } else if is_lit(c, "b") {
        Builtin::B
    } else if is_lit(c, "c") {
        Builtin::C
    } else if is_lit(c, "s") {
        Builtin::S
    } else if is_lit(c, "if0") {
        Builtin::If0
    } else if is_lit(c, "inc") {
        Builtin::Inc
    } else if is_lit(c, "dec") {
        Builtin::Dec
    } else if is_lit(c, "neg") {
        Builtin::Neg
    } else if is_lit(c, "car") {
        Builtin::Car
    } else if is_lit(c, "cdr") {
        Builtin::Cdr
    } else if is_lit(c, "isnil") {
        Builtin::IsNil
    } else if is_lit(c, "i") {
        Builtin::I
    } else {
        Builtin::NotBuiltin
    }
}

} // verus!

verus! {

/// `Ap(h, y1)`: an application that does not reduce.
fn stuck(h: &E, y1: &Rc<E>) -> (r: E)
    ensures
        r.term() == ap(h.term(), (**y1).term()),
        r == E::Ap(Rc::new(*h), *y1),
{
    E::Ap(Rc::new(h.copy()), y1.clone())
}

/// A binary builtin applied to the values `x` and `y`.
fn binop_exec(op: Builtin, x: &E, y: &E) -> (r: Result<E, EvalError>)
    requires
        is_binop(op),
        x.is_value_shape(),
        y.is_value_shape(),
    ensures
        result_term(r) == binop(op, x.term(), y.term()),
        r matches Ok(v) ==> v.no_shared() && v.is_value_shape(),
{
    match (x, y) {
        (E::Num(a), E::Num(b)) => {
            let (a, b) = (*a, *b);
            if op == Builtin::Eq {
                Ok(E::Etc(if a == b { Etc::T } else { Etc::F }))
            } else if op == Builtin::Add {
                match a.checked_add(b) {
                    Some(z) => Ok(E::Num(z)),
                    None => Err(EvalError::Overflow),
                }
            } else if op == Builtin::Mul {
                match a.checked_mul(b) {
                    Some(z) => Ok(E::Num(z)),
                    None => Err(EvalError::Overflow),
                }
            } else if op == Builtin::Div {
                if b == 0 {
                    Err(EvalError::DivisionByZero)
                } else {
                    match a.checked_div(b) {
                        Some(z) => Ok(E::Num(z)),
                        None => Err(EvalError::Overflow),
                    }
                }
            } else {
                Ok(E::Etc(if a < b { Etc::T } else { Etc::F }))
            }
        },
        _ => Err(EvalError::TypeError),
    }
}

/// A one-argument arithmetic builtin applied to a value.
fn unop_exec(op: Builtin, v: &E) -> (r: Result<E, EvalError>)
    requires
        op == Builtin::Inc || op == Builtin::Dec || op == Builtin::Neg,
        v.is_value_shape(),
    ensures
        result_term(r) == (match v.term() {
            Term::Num(a) => if op == Builtin::Inc {
                int_result(a + 1)
            } else if op == Builtin::Dec {
                int_result(a - 1)
            } else {
                int_result(-a)
            },
            _ => Err(EvalError::TypeError),
        }),
        r matches Ok(w) ==> w.no_shared() && w.is_value_shape(),
{
    match v {
        E::Num(a) => {
            let a = *a;
            let z = if op == Builtin::Inc {
                a.checked_add(1)
            } else if op == Builtin::Dec {
                a.checked_sub(1)
            } else {
                0i128.checked_sub(a)
            };
            match z {
                Some(z) => Ok(E::Num(z)),
                None => Err(EvalError::Overflow),
            }
        },
        _ => Err(EvalError::TypeError),
    }
}

/// Whether a name refers to a defined function.
fn is_ref(name: &String) -> (r: bool)
    ensures
        r == is_ref_name(name@),
{
    let c = chars_of(name.as_str());
    c.len() > 0 && c[0] == ':'
}

} // verus!

verus! {

impl Evaluator {
    /// Records one more look-up of `name`.
    fn bump_count(&mut self, name: &String)
        ensures
            final(self).map == old(self).map,
            final(self).data.cache == old(self).data.cache,
            final(self).data.cache2 == old(self).data.cache2,
            final(self).data.srcs == old(self).data.srcs,
            final(self).data.count@ == bumped(old(self).data.count@, *name, 0),
            counts_grow(old(self).data.count@, final(self).data.count@),
    {
        let mut i: usize = 0;
        while i < self.data.count.len()
            invariant
                self.map == old(self).map,
                self.data.cache == old(self).data.cache,
                self.data.cache2 == old(self).data.cache2,
                self.data.srcs == old(self).data.srcs,
                self.data.count == old(self).data.count,
                i <= self.data.count.len(),
                bumped(old(self).data.count@, *name, 0) == bumped(old(self).data.count@, *name, i as nat),
            decreases self.data.count.len() - i,
        {
            if str_eq(self.data.count[i].0.as_str(), name.as_str()) {
                let k = self.data.count[i].0.clone();
                let c = self.data.count[i].1;
                self.data.count.set(i, (k, c.saturating_add(1)));
                return;
            }
            i = i + 1;
        }
        self.data.count.push((name.clone(), 1));
    }

    /// Adds a cache slot for the shared term `a`; returns its number.
    fn new_slot(&mut self, a: &E) -> (id: usize)
        requires
            old(self).wf(),
            a.closed(old(self).data.srcs@),
        ensures
            final(self).wf(),
            final(self).map == old(self).map,
            final(self).data.srcs@ == old(self).data.srcs@.push(a.term()),
            final(self).data.count == old(self).data.count,
            id == old(self).data.srcs@.len(),
    {
        let id = self.data.cache.len();
        let ghost srcs = self.data.srcs@;
        let ghost srcs2 = srcs.push(a.term());
        self.data.cache.push(None);
        self.data.cache2.push(None);
        self.data.srcs = Ghost(srcs2);
        proof {
            assert(srcs.is_prefix_of(srcs2));
            assert forall|k: Seq<char>| #[trigger] self.map@.contains_key(k) implies self.map@[k].closed(
                srcs2,
            ) by {
                lemma_closed_extend(self.map@[k], srcs, srcs2);
            }
            assert forall|i: int| 0 <= i < srcs2.len() implies slot_ok(
                self.defs(),
                srcs2,
                #[trigger] self.data.cache@[i],
                i,
                false,
            ) by {
                if i < srcs.len() {
                    assert(slot_ok(old(self).defs(), srcs, old(self).data.cache@[i], i, false));
                    if let Some((v, g)) = self.data.cache@[i] {
                        lemma_closed_extend(v, srcs, srcs2);
                    }
                }
            }
            assert forall|i: int| 0 <= i < srcs2.len() implies slot_ok(
                self.defs(),
                srcs2,
                #[trigger] self.data.cache2@[i],
                i,
                true,
            ) by {
                if i < srcs.len() {
                    assert(slot_ok(old(self).defs(), srcs, old(self).data.cache2@[i], i, true));
                    if let Some((v, g)) = self.data.cache2@[i] {
                        lemma_closed_extend(v, srcs, srcs2);
                    }
                }
            }
        }
        id
    }
}

} // verus!

verus! {

impl Evaluator {
    /// Evaluates `e` with at most `fuel` levels of application; pairs are
    /// evaluated too when `eval_tuple` holds. The outcome is exactly
    /// `big_step` of the term's meaning; shared subterms are evaluated once
    /// and their values kept in the caches. A name that is not a reference
    /// evaluates to itself and leaves the evaluator as it was; using a
    /// reference counts one more use of it. Applying `s x y` to a third
    /// argument shares that argument through a fresh slot, which both
    /// caches then hold a place for (see `shared_anew`). A shared term is
    /// evaluated once per mode: a slot whose value was computed with no more
    /// fuel answers at once and leaves the evaluator as it was, and else the
    /// slot then holds the value found.
    pub fn eval(&mut self, e: &E, eval_tuple: bool, fuel: u64) -> (r: Result<E, EvalError>)
        requires
            old(self).wf(),
            e.closed(old(self).data.srcs@),
        ensures
            final(self).wf(),
            final(self).map@ == old(self).map@,
            old(self).data.srcs@.is_prefix_of(final(self).data.srcs@),
            result_term(r) == big_step(old(self).defs(), e.term(), eval_tuple, fuel as nat),
            r matches Ok(v) ==> v.is_value_shape() && v.closed(final(self).data.srcs@),
            counts_grow(old(self).data.count@, final(self).data.count@),
            e matches E::Etc(Etc::Other(name)) ==> (is_ref_name(name@) ==> count_of(
                final(self).data.count@,
                name@,
            ) >= next_count(count_of(old(self).data.count@, name@))),
            e matches E::Etc(Etc::Other(name)) ==> (!is_ref_name(name@) ==> *final(self) == *old(self)),
            e matches E::Cloned(_, id) ==> (cached(*old(self), id as int, eval_tuple) matches Some((v, g))
                ==> (g <= fuel ==> r == Ok::<E, EvalError>(v) && *final(self) == *old(self))),
            e matches E::Cloned(_, id) ==> (r matches Ok(v) ==> (cached(*final(self), id as int, eval_tuple)
                matches Some((w, g)) && w == v && g <= fuel)),
            e matches E::Ap(g, z) ==> (s_applied(**g) && fuel >= 3 ==> shared_anew(
                old(self).data.srcs@,
                final(self).data.srcs@,
                (**z).term(),
            )),
        decreases fuel, 0nat, e,
    {
        let ghost defs = self.defs();
        let ghost srcs0 = self.data.srcs@;
        match e {
            E::Cloned(a, id) => {
                let id = *id;
                let hit: Option<E> = if !eval_tuple {
                    match &self.data.cache[id] {
                        Some((v, g)) => if *g <= fuel {
                            Some(v.copy())
                        } else {
                            None
                        },
                        None => None,
                    }
                } else {
                    match &self.data.cache2[id] {
                        Some((v, g)) => if *g <= fuel {
                            Some(v.copy())
                        } else {
                            None
                        },
                        None => None,
                    }
                };
                if let Some(v) = hit {
                    proof {
                        let slot = if !eval_tuple {
                            self.data.cache@[id as int]
                        } else {
                            self.data.cache2@[id as int]
                        };
                        assert(slot_ok(defs, srcs0, slot, id as int, eval_tuple));
                        let pair = slot.unwrap();
                        let g = pair.1;
                        lemma_big_step_mono_le(defs, srcs0[id as int], eval_tuple, g as nat, fuel as nat);
                    }
                    return Ok(v);
                }
                let b = self.eval(a, eval_tuple, fuel)?;
                let ghost srcs1 = self.data.srcs@;
                if !eval_tuple {
                    self.data.cache.set(id, Some((b.copy(), fuel)));
                } else {
                    self.data.cache2.set(id, Some((b.copy(), fuel)));
                }
                proof {
                    assert(srcs1[id as int] == srcs0[id as int]);
                }
                Ok(b)
            },
            E::Ap(x1, y1) => {
                if fuel == 0 {
                    return Err(EvalError::OutOfFuel);
                }
                let rh = self.eval(x1, eval_tuple, fuel - 1);
                proof {
                    if s_applied(unrc(*x1)) && fuel >= 3 {
                        lemma_s_waits(defs, unrc(*x1), eval_tuple, (fuel - 3) as nat);
                    }
                }
                let h = rh?;
                let ghost srcs1 = self.data.srcs@;
                proof {
                    lemma_closed_extend(unrc(*y1), srcs0, self.data.srcs@);
                    if s_applied(unrc(*x1)) && fuel >= 3 {
                        lemma_s_shape(h, unrc(*x1));
                    }
                }
                let r = self.apply(&h, y1, eval_tuple, fuel - 1);
                proof {
                    if s_applied(unrc(*x1)) && fuel >= 3 {
                        let t = unrc(*y1).term();
                        let srcs2 = self.data.srcs@;
                        let k = choose|k: int| srcs1.len() <= k < srcs2.len() && #[trigger] srcs2[k] == t;
                        assert(srcs0.len() <= k < srcs2.len() && srcs2[k] == t);
                    }
                }
                r
            },
            E::Etc(Etc::Other(name)) => {
                if is_ref(name) {
                    let ghost c0 = self.data.count@;
                    self.bump_count(name);
                    proof {
                        lemma_bumped_count(c0, *name, 0);
                    }
                    let ghost c1 = self.data.count@;
                    let func = match self.map.get(name.as_str()) {
                        Some(func) => func.copy(),
                        None => {
                            return Err(EvalError::UnknownFunction);
                        },
                    };
                    if fuel == 0 {
                        return Err(EvalError::OutOfFuel);
                    }
                    let r = self.eval(&func, eval_tuple, fuel - 1);
                    proof {
                        lemma_count_grows(c1, self.data.count@, name@, 0);
                    }
                    r
                } else {
                    Ok(e.copy())
                }
            },
            E::Pair(a, b) => {
                if eval_tuple {
                    let va = self.eval(a, eval_tuple, fuel)?;
                    proof {
                        lemma_closed_extend(unrc(*b), srcs0, self.data.srcs@);
                    }
                    let ghost srcs1 = self.data.srcs@;
                    let vb = self.eval(b, eval_tuple, fuel)?;
                    proof {
                        lemma_closed_extend(va, srcs1, self.data.srcs@);
                    }
                    Ok(E::Pair(Rc::new(va), Rc::new(vb)))
                } else {
                    Ok(e.copy())
                }
            },
            _ => Ok(e.copy()),
        }
    }
}

} // verus!

verus! {

impl Evaluator {
    /// Applies the value `h` of a function to the argument `y1`, exactly as
    /// `apply` says.
    fn apply(&mut self, h: &E, y1: &Rc<E>, et: bool, f: u64) -> (r: Result<E, EvalError>)
        requires
            old(self).wf(),
            h.closed(old(self).data.srcs@),
            h.is_value_shape(),
            (**y1).closed(old(self).data.srcs@),
        ensures
            final(self).wf(),
            final(self).map@ == old(self).map@,
            old(self).data.srcs@.is_prefix_of(final(self).data.srcs@),
            result_term(r) == apply(old(self).defs(), h.term(), (**y1).term(), et, f as nat),
            r matches Ok(v) ==> v.is_value_shape() && v.closed(final(self).data.srcs@),
            counts_grow(old(self).data.count@, final(self).data.count@),
            s_applied(*h) ==> shared_anew(old(self).data.srcs@, final(self).data.srcs@, (**y1).term()),
        decreases f, 1nat, h,
    {
        let ghost defs = self.defs();
        let ghost srcs0 = self.data.srcs@;
        match h {
            E::Ap(x2, y2) => {
                assert(h.term() == ap((**x2).term(), (**y2).term()));
                assert((**x2).is_value_shape());
                assert((**x2).closed(srcs0) && (**y2).closed(srcs0));
                match &**x2 {
                    E::Etc(Etc::Cons) => {
                        if et {
                            let a = self.eval(y2, et, f)?;
                            let ghost srcs1 = self.data.srcs@;
                            proof {
                                lemma_closed_extend(unrc(*y1), srcs0, srcs1);
                            }
                            let b = self.eval(y1, et, f)?;
                            proof {
                                lemma_closed_extend(a, srcs1, self.data.srcs@);
                            }
                            Ok(E::Pair(Rc::new(a), Rc::new(b)))
                        } else {
                            Ok(E::Pair(y2.clone(), y1.clone()))
                        }
                    },
                    E::Etc(Etc::T) => self.eval(y2, et, f),
                    E::Etc(Etc::F) => self.eval(y1, et, f),
                    E::Etc(Etc::Other(n)) => {
                        let op = builtin_of(n.as_str());
                        if op == Builtin::Eq || op == Builtin::Add || op == Builtin::Mul || op
                            == Builtin::Div || op == Builtin::Lt {
                            let vb = self.eval(y1, et, f)?;
                            proof {
                                lemma_closed_extend(unrc(*y2), srcs0, self.data.srcs@);
                            }
                            let va = self.eval(y2, et, f)?;
                            binop_exec(op, &va, &vb)
                        } else {
                            Ok(stuck(h, y1))
                        }
                    },
                    E::Ap(x3, y3) => {
                        assert((**x2).term() == ap((**x3).term(), (**y3).term()));
                        assert((**x3).closed(srcs0) && (**y3).closed(srcs0));
                        assert((**x3).is_value_shape());
                        match &**x3 {
                            E::Etc(Etc::Other(n)) => {
                                let op = builtin_of(n.as_str());
                                if op == Builtin::B {
                                    let inner = E::Ap(y2.clone(), y1.clone());
                                    assert(inner.closed(srcs0));
                                    let t = E::Ap(y3.clone(), Rc::new(inner));
                                    assert(t.closed(srcs0));
                                    assert(inner.term() == ap((**y2).term(), (**y1).term()));
                                    assert(t.term() == ap((**y3).term(), ap((**y2).term(), (**y1).term())));
                                    self.eval(&t, et, f)
                                } else if op == Builtin::C {
                                    let inner = E::Ap(y3.clone(), y1.clone());
                                    assert(inner.closed(srcs0));
                                    let t = E::Ap(Rc::new(inner), y2.clone());
                                    assert(t.closed(srcs0));
                                    assert(inner.term() == ap((**y3).term(), (**y1).term()));
                                    assert(t.term() == ap(ap((**y3).term(), (**y1).term()), (**y2).term()));
                                    self.eval(&t, et, f)
                                } else if op == Builtin::S {
                                    let id = self.new_slot(y1);
                                    let ghost srcs1 = self.data.srcs@;
                                    proof {
                                        lemma_closed_extend(unrc(*y1), srcs0, srcs1);
                                        lemma_closed_extend(unrc(*y2), srcs0, srcs1);
                                        lemma_closed_extend(unrc(*y3), srcs0, srcs1);
                                    }
                                    let c = Rc::new(E::Cloned(y1.clone(), id));
                                    assert((*c).closed(srcs1));
                                    assert((*c).term() == (**y1).term());
                                    let left = E::Ap(y3.clone(), c.clone());
                                    let right = E::Ap(y2.clone(), c);
                                    assert(left.closed(srcs1));
                                    assert(left.term() == ap((**y3).term(), (**y1).term()));
                                    assert(right.term() == ap((**y2).term(), (**y1).term()));
                                    assert(right.closed(srcs1));
                                    let t = E::Ap(Rc::new(left), Rc::new(right));
                                    assert(t.closed(srcs1));
                                    assert(t.term() == ap(ap((**y3).term(), (**y1).term()), ap((**y2).term(), (**y1).term())));
                                    let r = self.eval(&t, et, f);
                                    proof {
                                        assert(self.data.srcs@[srcs0.len() as int] == srcs1[srcs0.len() as int]);
                                    }
                                    r
                                } else if op == Builtin::If0 {
                                    let v = self.eval(y3, et, f)?;
                                    proof {
                                        lemma_closed_extend(unrc(*y1), srcs0, self.data.srcs@);
                                        lemma_closed_extend(unrc(*y2), srcs0, self.data.srcs@);
                                    }
                                    match v {
                                        E::Num(a) => {
                                            if a == 0 {
                                                self.eval(y2, et, f)
                                            } else {
                                                self.eval(y1, et, f)
                                            }
                                        },
                                        _ => Err(EvalError::TypeError),
                                    }
                                } else {
                                    Ok(stuck(h, y1))
                                }
                            },
                            _ => Ok(stuck(h, y1)),
                        }
                    },
                    _ => Ok(stuck(h, y1)),
                }
            },
            E::Pair(a, b) => {
                let t = E::Ap(Rc::new(E::Ap(y1.clone(), a.clone())), b.clone());
                assert(E::Ap(y1.clone(), a.clone()).closed(srcs0));
                assert(t.closed(srcs0));
                assert(E::Ap(y1.clone(), a.clone()).term() == ap((**y1).term(), (**a).term()));
                assert(t.term() == ap(ap((**y1).term(), (**a).term()), (**b).term()));
                self.eval(&t, et, f)
            },
            E::Etc(Etc::Other(n)) => {
                let op = builtin_of(n.as_str());
                if op == Builtin::Inc || op == Builtin::Dec || op == Builtin::Neg {
                    let v = self.eval(y1, et, f)?;
                    unop_exec(op, &v)
                } else if op == Builtin::Car || op == Builtin::Cdr {
                    let v = self.eval(y1, et, f)?;
                    match v {
                        E::Pair(a, b) => {
                            if op == Builtin::Car {
                                self.eval(&a, et, f)
                            } else {
                                self.eval(&b, et, f)
                            }
                        },
                        _ => Err(EvalError::TypeError),
                    }
                } else if op == Builtin::IsNil {
                    let v = self.eval(y1, et, f)?;
                    match v {
                        E::Etc(Etc::Nil) => Ok(E::Etc(Etc::T)),
                        E::Etc(_) => Ok(E::Etc(Etc::F)),
                        E::Pair(_, _) => Ok(E::Etc(Etc::F)),
                        _ => Err(EvalError::TypeError),
                    }
                } else if op == Builtin::I {
                    self.eval(y1, et, f)
                } else {
                    Ok(stuck(h, y1))
                }
            },
            E::Etc(Etc::Nil) => Ok(E::Etc(Etc::T)),
            _ => Ok(stuck(h, y1)),
        }
    }
}

} // verus!

verus! {

impl Evaluator {
    /// Defines (or redefines) the function `name` as `exp`. Values cached
    /// under the old definitions are dropped, so that every cached value is
    /// that of the current definitions.
    pub fn insert_function(&mut self, name: String, exp: E)
        requires
            old(self).wf(),
            exp.closed(old(self).data.srcs@),
        ensures
            final(self).wf(),
            final(self).map@ == old(self).map@.insert(name@, exp),
            final(self).data.srcs == old(self).data.srcs,
            final(self).data.count == old(self).data.count,
            forall|id: int|
                0 <= id < final(self).data.srcs@.len() ==> (#[trigger] final(self).data.cache@[id])
                    is None,
            forall|id: int|
                0 <= id < final(self).data.srcs@.len() ==> (#[trigger] final(self).data.cache2@[id])
                    is None,
    {
        self.map.insert(name, exp);
        let n = self.data.cache.len();
        let mut i: usize = 0;
        while i < n
            invariant
                i <= n,
                n == self.data.srcs@.len(),
                self.data.cache@.len() == n,
                self.data.cache2@.len() == n,
                self.map@ == old(self).map@.insert(name@, exp),
                self.data.srcs == old(self).data.srcs,
                self.data.count == old(self).data.count,
                forall|id: int| 0 <= id < i ==> (#[trigger] self.data.cache@[id]) is None,
                forall|id: int| 0 <= id < i ==> (#[trigger] self.data.cache2@[id]) is None,
            decreases n - i,
        {
            self.data.cache.set(i, None);
            self.data.cache2.set(i, None);
            i = i + 1;
        }
        proof {
            let srcs = self.data.srcs@;
            assert forall|k: Seq<char>| #[trigger] self.map@.contains_key(k) implies self.map@[k].closed(
                srcs,
            ) by {
                if k != name@ {
                    assert(old(self).map@.contains_key(k));
                }
            }
            assert forall|id: int| 0 <= id < srcs.len() implies slot_ok(
                self.defs(),
                srcs,
                #[trigger] self.data.cache@[id],
                id,
                false,
            ) by {}
            assert forall|id: int| 0 <= id < srcs.len() implies slot_ok(
                self.defs(),
                srcs,
                #[trigger] self.data.cache2@[id],
                id,
                true,
            ) by {}
        }
    }
}

/// Evaluates `e` with the functions `map` and the caches `data`, as
/// `Evaluator::eval` does; `data` holds the caches afterwards.
pub fn eval(e: &E, map: &FunctionTable, eval_tuple: bool, data: &mut Data, fuel: u64) -> (r: Result<
    E,
    EvalError,
>)
    requires
        (Evaluator { map: *map, data: *old(data) }).wf(),
        e.closed(old(data).srcs@),
    ensures
        (Evaluator { map: *map, data: *final(data) }).wf(),
        old(data).srcs@.is_prefix_of(final(data).srcs@),
        result_term(r) == big_step(
            (Evaluator { map: *map, data: *old(data) }).defs(),
            e.term(),
            eval_tuple,
            fuel as nat,
        ),
        r matches Ok(v) ==> v.is_value_shape() && v.closed(final(data).srcs@),
        counts_grow(old(data).count@, final(data).count@),
{
    let mut taken = Data::default();
    std::mem::swap(&mut taken, data);
    let mut ev = Evaluator { map: map.copy(), data: taken };
    let r = ev.eval(e, eval_tuple, fuel);
    std::mem::swap(&mut ev.data, data);
    r
}

} // verus!
