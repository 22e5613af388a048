//! Reading a bit string as the flat sequence of its modulated elements:
//! `nil`, `cons` and numbers, in the order in which they stand.
use vstd::prelude::*;
use std::rc::Rc;
use crate::modulation::{all_bits, bits_value, demod_num, demod_spec, first_zero, first_zero_at, lemma_first_zero};
use crate::parser::{E, Etc, unrc};
use crate::text::{chars_of, int_text, nat_text};

verus! {

/// An element of a modulated bit string: `nil`, `cons`, or a number, held
/// as its decimal text (a sign and digits), whatever its size.
#[derive(Clone, PartialEq, Eq, Debug)]
pub enum ModElem {
    Nil,
    Cons,
    Number(String),
}

pub open spec fn nil_text() -> Seq<char> {
    seq!['n', 'i', 'l']
}

pub open spec fn cons_text() -> Seq<char> {
    seq!['c', 'o', 'n', 's']
}

/// How an element is written: `nil`, `cons`, or the number in decimal.
pub open spec fn elem_text(e: ModElem) -> Seq<char> {
    match e {
        ModElem::Nil => nil_text(),
        ModElem::Cons => cons_text(),
        ModElem::Number(t) => t@,
    }
}

/// What an element is, as a value: `nil`, `cons`, or a number given by its
/// decimal text.
pub ghost enum ElemView {
    Nil,
    Cons,
    Number(Seq<char>),
}

impl View for ModElem {
    type V = ElemView;

    open spec fn view(&self) -> ElemView {
        match self {
            ModElem::Nil => ElemView::Nil,
            ModElem::Cons => ElemView::Cons,
            ModElem::Number(t) => ElemView::Number(t@),
        }
    }
}

/// The elements, each as a value.
pub open spec fn elems_view(v: Seq<ModElem>) -> Seq<ElemView> {
    v.map_values(|e: ModElem| e@)
}

impl ModElem {
    /// The element as written: `nil`, `cons`, or the number in decimal.
    pub fn to_string(&self) -> (r: String)
        ensures
            r@ == elem_text(*self),
    {
        match self {
            ModElem::Nil => {
                let mut s = String::new();
                crate::text::string_push(&mut s, 'n');
                crate::text::string_push(&mut s, 'i');
                crate::text::string_push(&mut s, 'l');
                s
            },
            ModElem::Cons => {
                let mut s = String::new();
                crate::text::string_push(&mut s, 'c');
                crate::text::string_push(&mut s, 'o');
                crate::text::string_push(&mut s, 'n');
                crate::text::string_push(&mut s, 's');
                s
            },
            ModElem::Number(t) => t.clone(),
        }
    }
}

/// The elements of the bit string from position `i` on, each as a value
/// (see `ElemView`): `00` is nil, `11` cons, `01` and `10` begin a positive
/// and a negative number (see `demod_num`), given by its decimal text. `None` where a two-bit code is none
/// of these or a number is cut short.
pub open spec fn elems_spec(cs: Seq<char>, i: int) -> Option<Seq<ElemView>>
    decreases cs.len() - i,
{
    if i < 0 || i >= cs.len() {
        Some(Seq::empty())
    } else {
        let two = i + 2 <= cs.len();
        if two && cs[i] == '0' && cs[i + 1] == '0' {
            match elems_spec(cs, i + 2) {
                Some(t) => Some(seq![ElemView::Nil] + t),
                None => None,
            }
        } else if two && cs[i] == '1' && cs[i + 1] == '1' {
            match elems_spec(cs, i + 2) {
                Some(t) => Some(seq![ElemView::Cons] + t),
                None => None,
            }
        } else if two && ((cs[i] == '0' && cs[i + 1] == '1') || (cs[i] == '1' && cs[i + 1] == '0')) {
            match demod_num(cs, i + 2) {
                Some((m, end)) => {
                    let v: int = if cs[i] == '0' {
                        m as int
                    } else {
                        -m
                    };
                    if i < end {
                        match elems_spec(cs, end) {
                            Some(t) => Some(seq![ElemView::Number(int_text(v))] + t),
                            None => None,
                        }
                    } else {
                        None
                    }
                },
                None => None,
            }
        } else {
            None
        }
    }
}

proof fn lemma_demod_num_end(cs: Seq<char>, i: int)
    requires
        0 <= i <= cs.len(),
    ensures
        demod_num(cs, i) matches Some((_, end)) ==> i < end <= cs.len(),
{
    lemma_first_zero(cs, i);
}

/// `num::BigUint::parse_bytes` in radix 2, then the decimal text of the
/// result (`to_string`): the binary numeral `bits` written in decimal.
/// Claimed: for a nonempty string of `0` and `1`, the text is the numeral's
/// value in decimal, without leading zeros.
#[verifier::external_body]
fn binary_to_decimal(bits: &str) -> (r: String)
    requires
        bits@.len() > 0,
        all_bits(bits@),
    ensures
        r@ == nat_text(bits_value(bits@)),
{
    match num::BigUint::parse_bytes(bits.as_bytes(), 2) {
        Some(v) => v.to_string(),
        None => String::new(),
    }
}

/// A numeral of bits is worth zero exactly when each of its bits is `0`.
proof fn lemma_bits_zero(s: Seq<char>)
    requires
        all_bits(s),
    ensures
        bits_value(s) == 0 <==> forall|k: int| 0 <= k < s.len() ==> #[trigger] s[k] == '0',
    decreases s.len(),
{
    if s.len() > 0 {
        let t = s.drop_last();
        assert(all_bits(t)) by {
            assert forall|k: int| 0 <= k < t.len() implies #[trigger] t[k] == '0' || t[k] == '1' by {
                assert(t[k] == s[k]);
            }
        }
        lemma_bits_zero(t);
        if forall|k: int| 0 <= k < s.len() ==> #[trigger] s[k] == '0' {
            assert forall|k: int| 0 <= k < t.len() implies #[trigger] t[k] == '0' by {
                assert(t[k] == s[k]);
            }
            assert(s[s.len() - 1] == '0');
        } else {
            let k0 = choose|k: int| 0 <= k < s.len() && #[trigger] s[k] != '0';
            if k0 < s.len() - 1 {
                assert(t[k0] == s[k0]);
            }
        }
    }
}

/// The magnitude of a number whose nibble count starts at `i`, written in
/// decimal, where its bits end, and whether it is zero (see `demod_num`).
fn magnitude_at(cs: &Vec<char>, i: usize) -> (r: Option<(String, usize, bool)>)
    requires
        i <= cs.len(),
    ensures
        match r {
            Some((t, end, zero)) => demod_num(cs@, i as int) matches Some((m, e)) && e == end && t@
                == nat_text(m) && zero == (m == 0),
            None => demod_num(cs@, i as int) is None,
        },
{
    let z = first_zero_at(cs, i);
    if z >= cs.len() {
        return None;
    }
    let p = z - i;
    if p > (cs.len() - z - 1) / 4 {
        return None;
    }
    let end = z + 1 + 4 * p;
    let ghost digits = cs@.subrange(z + 1, end as int);
    if p == 0 {
        let mut t = String::new();
        crate::text::string_push(&mut t, '0');
        proof {
            assert(digits.len() == 0);
            assert(bits_value(digits) == 0);
        }
        return Some((t, end, true));
    }
    let mut bits = String::new();
    let mut zero = true;
    let mut j = z + 1;
    while j < end
        invariant
            z + 1 <= j <= end <= cs.len(),
            end == z + 1 + 4 * p,
            z == first_zero(cs@, i as int),
            z < cs.len(),
            p == z - i,
            p > 0,
            digits == cs@.subrange(z + 1, end as int),
            bits@ == cs@.subrange(z + 1, j as int),
            forall|k: int| z + 1 <= k < j ==> #[trigger] cs@[k] == '0' || cs@[k] == '1',
            zero == (forall|k: int| z + 1 <= k < j ==> #[trigger] cs@[k] == '0'),
        decreases end - j,
    {
        if cs[j] != '0' && cs[j] != '1' {
            proof {
                assert(digits[j - (z + 1)] == cs@[j as int]);
                assert(!all_bits(digits));
                assert(z + 1 + 4 * p <= cs.len());
            }
            return None;
        }
        crate::text::string_push(&mut bits, cs[j]);
        proof {
            assert(cs@.subrange(z + 1, j + 1) == cs@.subrange(z + 1, j as int).push(cs@[j as int]));
        }
        zero = zero && cs[j] == '0';
        j = j + 1;
    }
    assert forall|k: int| 0 <= k < digits.len() implies #[trigger] digits[k] == '0' || digits[k]
        == '1' by {
        assert(digits[k] == cs@[z + 1 + k]);
    }
    proof {
        lemma_bits_zero(digits);
        if zero {
            assert forall|k: int| 0 <= k < digits.len() implies #[trigger] digits[k] == '0' by {
                assert(digits[k] == cs@[z + 1 + k]);
            }
        } else {
            let k0 = choose|k: int| z + 1 <= k < end && #[trigger] cs@[k] != '0';
            assert(digits[k0 - (z + 1)] == cs@[k0]);
        }
    }
    let t = binary_to_decimal(bits.as_str());
    Some((t, end, zero))
}

/// The elements of the bit string `s`, in order (see `elems_spec`).
pub fn demodulate(s: &str) -> (r: Option<Vec<ModElem>>)
    ensures
        match r {
            Some(v) => elems_spec(s@, 0) == Some(elems_view(v@)),
            None => elems_spec(s@, 0) is None,
        },
{
    let cs = chars_of(s);
    let n = cs.len();
    let mut results: Vec<ModElem> = Vec::new();
    let mut i: usize = 0;
    while i < n
        invariant
            n == cs.len(),
            cs@ == s@,
            i <= n,
            elems_spec(cs@, 0) == match elems_spec(cs@, i as int) {
                Some(t) => Some(elems_view(results@) + t),
                None => None,
            },
        decreases n - i,
    {
        let two = n - i >= 2;
        let ghost old_results = results@;
        if two && cs[i] == '0' && cs[i + 1] == '0' {
            results.push(ModElem::Nil);
            proof {
                assert(elems_view(results@) == elems_view(old_results).push(ElemView::Nil));
                if let Some(t) = elems_spec(cs@, i + 2) {
                    assert(elems_view(old_results) + (seq![ElemView::Nil] + t) == elems_view(results@) + t);
                }
            }
            i = i + 2;
        } else if two && cs[i] == '1' && cs[i + 1] == '1' {
            results.push(ModElem::Cons);
            proof {
                assert(elems_view(results@) == elems_view(old_results).push(ElemView::Cons));
                if let Some(t) = elems_spec(cs@, i + 2) {
                    assert(elems_view(old_results) + (seq![ElemView::Cons] + t) == elems_view(results@) + t);
                }
            }
            i = i + 2;
        } else if two && ((cs[i] == '0' && cs[i + 1] == '1') || (cs[i] == '1' && cs[i + 1] == '0')) {
            let positive = cs[i] == '0';
            proof {
                lemma_demod_num_end(cs@, i + 2);
            }
            match magnitude_at(&cs, i + 2) {
                Some((mag, end, zero)) => {
                    let ghost m = demod_num(cs@, i + 2).unwrap().0;
                    let text = if positive || zero {
                        mag
                    } else {
                        let mut t = String::new();
                        crate::text::string_push(&mut t, '-');
                        crate::text::push_str(&mut t, mag.as_str());
                        t
                    };
                    let ghost v: int = if positive {
                        m as int
                    } else {
                        -m
                    };
                    assert(text@ == int_text(v));
                    results.push(ModElem::Number(text));
                    proof {
                        assert(elems_view(results@) == elems_view(old_results).push(ElemView::Number(int_text(v))));
                        if let Some(t) = elems_spec(cs@, end as int) {
                            assert(elems_view(old_results) + (seq![ElemView::Number(int_text(v))] + t) == elems_view(results@) + t);
                        }
                    }
                    i = end;
                },
                None => {
                    return None;
                },
            }
        } else {
            return None;
        }
    }
    assert(elems_view(results@) + Seq::<ElemView>::empty() == elems_view(results@));
    Some(results)
}

/// The elements of a value's modulation, in order: `cons` before the two
/// parts of a pair, `nil`, and numbers (by their decimal text).
pub open spec fn preorder(e: E) -> Seq<ElemView>
    decreases e,
{
    match e {
        E::Etc(Etc::Nil) => seq![ElemView::Nil],
        E::Num(n) => seq![ElemView::Number(int_text(n as int))],
        E::Pair(a, b) => seq![ElemView::Cons] + preorder(*a) + preorder(*b),
        _ => Seq::empty(),
    }
}

/// The elements after the value's own, when they read.
pub open spec fn prefixed(p: Seq<ElemView>, rest: Option<Seq<ElemView>>) -> Option<Seq<ElemView>> {
    match rest {
        Some(t) => Some(p + t),
        None => None,
    }
}

/// The two readings of a bit string agree: where a value's modulation
/// starts, the elements read from there are the value's own (see
/// `preorder`) followed by those read after it. Hence the elements of a bit
/// string that holds exactly one value are that value's.
pub proof fn lemma_elems_of_value(cs: Seq<char>, i: int)
    requires
        all_bits(cs),
        0 <= i,
    ensures
        demod_spec(cs, i) matches Some((e, j)) ==> elems_spec(cs, i) == prefixed(preorder(e), elems_spec(cs, j)),
    decreases cs.len() - i,
{
    if i + 2 <= cs.len() {
        assert(cs[i] == '0' || cs[i] == '1');
        assert(cs[i + 1] == '0' || cs[i + 1] == '1');
        if cs[i] == '1' && cs[i + 1] == '1' {
            lemma_elems_of_value(cs, i + 2);
            if let Some((a, j1)) = demod_spec(cs, i + 2) {
                if i + 2 < j1 <= cs.len() {
                    lemma_elems_of_value(cs, j1);
                    if let Some((b, k)) = demod_spec(cs, j1) {
                        let e = E::Pair(Rc::new(a), Rc::new(b));
                        assert(unrc(Rc::new(a)) == a);
                        assert(preorder(e) == seq![ElemView::Cons] + preorder(a) + preorder(b));
                        match elems_spec(cs, k) {
                            Some(t) => {
                                assert(seq![ElemView::Cons] + (preorder(a) + (preorder(b) + t))
                                    == preorder(e) + t);
                            },
                            None => {},
                        }
                    }
                }
            }
        } else if !(cs[i] == '0' && cs[i + 1] == '0') {
            lemma_demod_num_end(cs, i + 2);
        }
    }
}

/// The elements of a bit string that holds exactly one value are that
/// value's (see `preorder`).
pub proof fn lemma_demodulate_elems(cs: Seq<char>)
    requires
        all_bits(cs),
        demod_spec(cs, 0) matches Some((_, j)) && j == cs.len(),
    ensures
        elems_spec(cs, 0) == Some(preorder(demod_spec(cs, 0).unwrap().0)),
{
    lemma_elems_of_value(cs, 0);
    let e = demod_spec(cs, 0).unwrap().0;
    assert(elems_spec(cs, cs.len() as int) == Some(Seq::<ElemView>::empty()));
    assert(preorder(e) + Seq::<ElemView>::empty() == preorder(e));
}

} // verus!
