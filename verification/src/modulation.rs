//! The modulation of values into bit strings and back: `00` is nil, `11`
//! starts a pair, and a number is its sign (`01` or `10`), its length in
//! nibbles in unary, a `0`, then its magnitude in that many nibbles.
use std::rc::Rc;
use vstd::prelude::*;
use vstd::arithmetic::power2::pow2;
use crate::parser::{E, Etc, Int, unrc};
use crate::text::{chars_of, string_push};

verus! {

/// `k` ones.
pub open spec fn ones(k: nat) -> Seq<char> {
    Seq::new(k, |i: int| '1')
}

/// The number of nibbles in `m`, without leading zero nibbles.
pub open spec fn nibbles(m: nat) -> nat
    decreases m,
{
    if m == 0 {
        0
    } else {
        1 + nibbles(m / 16)
    }
}

/// The lowest `w` bits of `m`, most significant first.
pub open spec fn bin(m: nat, w: nat) -> Seq<char>
    decreases w,
{
    if w == 0 {
        Seq::empty()
    } else {
        bin(m / 2, (w - 1) as nat).push(if m % 2 == 1 { '1' } else { '0' })
    }
}

pub open spec fn abs(n: int) -> nat {
    if n < 0 {
        (-n) as nat
    } else {
        n as nat
    }
}

/// The modulation of the number `n`.
pub open spec fn num_bits(n: int) -> Seq<char> {
    if n == 0 {
        seq!['0', '1', '0']
    } else {
        let m = abs(n);
        let k = nibbles(m);
        (if n > 0 {
            seq!['0', '1']
        } else {
            seq!['1', '0']
        }) + ones(k) + seq!['0'] + bin(m, 4 * k)
    }
}

/// The modulation of `e`: `None` unless `e` is built of pairs, numbers and
/// nil alone.
pub open spec fn mod_bits(e: E) -> Option<Seq<char>>
    decreases e,
{
    match e {
        E::Etc(Etc::Nil) => Some(seq!['0', '0']),
        E::Num(n) => Some(num_bits(n as int)),
        E::Pair(a, b) => match (mod_bits(*a), mod_bits(*b)) {
            (Some(x), Some(y)) => Some(seq!['1', '1'] + x + y),
            _ => None,
        },
        _ => None,
    }
}

fn push_ones(k: u32, out: &mut String)
    ensures
        final(out)@ == old(out)@ + ones(k as nat),
{
    let mut i: u32 = 0;
    while i < k
        invariant
            i <= k,
            out@ == old(out)@ + ones(i as nat),
        decreases k - i,
    {
        string_push(out, '1');
        assert(ones((i + 1) as nat) == ones(i as nat).push('1'));
        i = i + 1;
    }
}

fn push_bin(m: u128, w: u32, out: &mut String)
    ensures
        final(out)@ == old(out)@ + bin(m as nat, w as nat),
    decreases w,
{
    if w > 0 {
        push_bin(m / 2, w - 1, out);
        string_push(out, if m % 2 == 1 { '1' } else { '0' });
    }
}

fn nibble_count(m: u128) -> (k: u32)
    ensures
        k == nibbles(m as nat),
        k <= 32,
    decreases m,
{
    if m == 0 {
        0
    } else {
        proof {
            lemma_nibbles_bound(m as nat);
        }
        1 + nibble_count(m / 16)
    }
}

proof fn lemma_nibbles_bound(m: nat)
    requires
        m < 0x1_0000_0000_0000_0000_0000_0000_0000_0000,
    ensures
        nibbles(m) <= 32,
    decreases m,
{
    vstd::arithmetic::power2::lemma2_to64();
    vstd::arithmetic::power2::lemma_pow2_adds(64, 64);
    lemma_nibbles_small(m, 32);
}

proof fn lemma_nibbles_small(m: nat, k: nat)
    requires
        m < pow2(4 * k),
    ensures
        nibbles(m) <= k,
    decreases k,
{
    if k > 0 && m > 0 {
        lemma_pow2_16(k);
        lemma_nibbles_small(m / 16, (k - 1) as nat);
    } else if m > 0 {
        vstd::arithmetic::power2::lemma2_to64();
        assert(4 * k == 0);
    }
}

proof fn lemma_pow2_16(k: nat)
    requires
        k > 0,
    ensures
        pow2(4 * k) == 16 * pow2(4 * (k - 1) as nat),
{
    let j = (4 * (k - 1)) as nat;
    vstd::arithmetic::power2::lemma_pow2_unfold(j + 4);
    vstd::arithmetic::power2::lemma_pow2_unfold(j + 3);
    vstd::arithmetic::power2::lemma_pow2_unfold(j + 2);
    vstd::arithmetic::power2::lemma_pow2_unfold(j + 1);
    assert(4 * k == j + 4);
}

fn push_num(n: Int, out: &mut String)
    ensures
        final(out)@ == old(out)@ + num_bits(n as int),
{
    if n == 0 {
        string_push(out, '0');
        string_push(out, '1');
        string_push(out, '0');
        assert(final(out)@ == old(out)@ + seq!['0', '1', '0']);
        return ;
    }
    let m: u128 = if n == i128::MIN {
        170141183460469231731687303715884105728u128
    } else if n < 0 {
        (-n) as u128
    } else {
        n as u128
    };
    if n > 0 {
        string_push(out, '0');
        string_push(out, '1');
    } else {
        string_push(out, '1');
        string_push(out, '0');
    }
    let ghost mid = out@;
    let k = nibble_count(m);
    push_ones(k, out);
    string_push(out, '0');
    push_bin(m, 4 * k, out);
    proof {
        let sign = if n > 0 {
            seq!['0', '1']
        } else {
            seq!['1', '0']
        };
        assert(mid == old(out)@ + sign);
        assert(final(out)@ == old(out)@ + (sign + ones(k as nat) + seq!['0'] + bin(
            m as nat,
            (4 * k) as nat,
        )));
    }
}

fn push_mod(e: &E, out: &mut String) -> (ok: bool)
    ensures
        ok == mod_bits(*e) is Some,
        ok ==> final(out)@ == old(out)@ + mod_bits(*e).unwrap(),
    decreases e,
{
    match e {
        E::Etc(Etc::Nil) => {
            string_push(out, '0');
            string_push(out, '0');
            assert(final(out)@ == old(out)@ + seq!['0', '0']);
            true
        },
        E::Num(n) => {
            push_num(*n, out);
            true
        },
        E::Pair(a, b) => {
            string_push(out, '1');
            string_push(out, '1');
            let ghost mid = out@;
            if !push_mod(a, out) {
                return false;
            }
            if !push_mod(b, out) {
                return false;
            }
            proof {
                let x = mod_bits(unrc(*a)).unwrap();
                let y = mod_bits(unrc(*b)).unwrap();
                assert(mid == old(out)@ + seq!['1', '1']);
                assert(final(out)@ == old(out)@ + (seq!['1', '1'] + x + y));
            }
            true
        },
        _ => false,
    }
}

/// The bit string of `e`; `None` unless `e` is built of pairs, numbers and
/// nil alone.
pub fn modulate(e: &E) -> (r: Option<String>)
    ensures
        match r {
            Some(s) => mod_bits(*e) == Some(s@),
            None => mod_bits(*e) is None,
        },
{
    let mut s = String::new();
    if push_mod(e, &mut s) {
        assert(s@ == Seq::<char>::empty() + mod_bits(*e).unwrap());
        Some(s)
    } else {
        None
    }
}

/// The first position from `i` on that holds `'0'`, or the length.
pub open spec fn first_zero(cs: Seq<char>, i: int) -> int
    decreases cs.len() - i,
{
    if 0 <= i < cs.len() && cs[i] != '0' {
        first_zero(cs, i + 1)
    } else {
        i
    }
}

/// Whether every character is a bit.
pub open spec fn all_bits(s: Seq<char>) -> bool {
    forall|i: int| 0 <= i < s.len() ==> (#[trigger] s[i] == '0' || s[i] == '1')
}

/// The value of a binary numeral, most significant bit first.
pub open spec fn bits_value(s: Seq<char>) -> nat
    decreases s.len(),
{
    if s.len() == 0 {
        0
    } else {
        2 * bits_value(s.drop_last()) + (if s.last() == '1' { 1nat } else { 0nat })
    }
}

/// The magnitude of a number whose nibble count starts at `i`, and the
/// position after it.
pub open spec fn demod_num(cs: Seq<char>, i: int) -> Option<(nat, int)> {
    let z = first_zero(cs, i);
    let p = z - i;
    if z >= cs.len() {
        None
    } else if p == 0 {
        Some((0, i + 1))
    } else {
        let end = z + 1 + 4 * p;
        if end > cs.len() {
            None
        } else {
            let digits = cs.subrange(z + 1, end);
            if all_bits(digits) {
                Some((bits_value(digits), end))
            } else {
                None
            }
        }
    }
}

pub proof fn lemma_first_zero(cs: Seq<char>, i: int)
    requires
        0 <= i <= cs.len(),
    ensures
        i <= first_zero(cs, i) <= cs.len(),
    decreases cs.len() - i,
{
    if i < cs.len() && cs[i] != '0' {
        lemma_first_zero(cs, i + 1);
    }
}

/// The value whose modulation starts at `i`, and the position after it.
pub open spec fn demod_spec(cs: Seq<char>, i: int) -> Option<(E, int)>
    decreases cs.len() - i,
{
    if i < 0 || i + 2 > cs.len() {
        None
    } else if cs[i] == '0' && cs[i + 1] == '0' {
        Some((E::Etc(Etc::Nil), i + 2))
    } else if cs[i] == '1' && cs[i + 1] == '1' {
        match demod_spec(cs, i + 2) {
            Some((a, j)) => if !(i + 2 < j <= cs.len()) {
                None
            } else {
                match demod_spec(cs, j) {
                    Some((b, k)) => Some((E::Pair(Rc::new(a), Rc::new(b)), k)),
                    None => None,
                }
            },
            None => None,
        }
    } else {
        match demod_num(cs, i + 2) {
            Some((m, end)) => {
                let v: int = if cs[i] == '0' {
                    m as int
                } else {
                    -m
                };
                if i128::MIN <= v <= i128::MAX {
                    Some((E::Num(v as i128), end))
                } else {
                    None
                }
            },
            None => None,
        }
    }
}

proof fn lemma_demod_advances(cs: Seq<char>, i: int)
    ensures
        demod_spec(cs, i) matches Some((_, j)) ==> i < j <= cs.len(),
    decreases cs.len() - i,
{
    if 0 <= i && i + 2 <= cs.len() {
        lemma_first_zero(cs, i + 2);
        lemma_demod_advances(cs, i + 2);
        if let Some((a, j)) = demod_spec(cs, i + 2) {
            lemma_demod_advances(cs, j);
        }
    }
}

pub fn first_zero_at(cs: &Vec<char>, i: usize) -> (r: usize)
    requires
        i <= cs.len(),
    ensures
        r == first_zero(cs@, i as int),
        i <= r <= cs.len(),
    decreases cs.len() - i,
{
    if i < cs.len() && cs[i] != '0' {
        first_zero_at(cs, i + 1)
    } else {
        i
    }
}

/// The magnitude, `None` also when it exceeds `2^127`.
pub fn demod_num_at(cs: &Vec<char>, i: usize) -> (r: Option<(u128, usize)>)
    requires
        i <= cs.len(),
    ensures
        match r {
            Some((m, end)) => demod_num(cs@, i as int) == Some((m as nat, end as int)),
            None => match demod_num(cs@, i as int) {
                Some((m, _)) => m > 0x8000_0000_0000_0000_0000_0000_0000_0000,
                None => true,
            },
        },
{
    let z = first_zero_at(cs, i);
    if z >= cs.len() {
        return None;
    }
    let p = z - i;
    if p == 0 {
        return Some((0, i + 1));
    }
    if p > (cs.len() - z - 1) / 4 {
        return None;
    }
    let end = z + 1 + 4 * p;
    let ghost digits = cs@.subrange(z + 1, end as int);
    let mut acc: u128 = 0;
    let mut big = false;
    let mut j = z + 1;
    while j < end
        invariant
            z + 1 <= j <= end <= cs.len(),
            z == first_zero(cs@, i as int),
            z < cs.len(),
            p == z - i,
            p != 0,
            end == z + 1 + 4 * p,
            digits == cs@.subrange(z + 1, end as int),
            all_bits(cs@.subrange(z + 1, j as int)),
            !big ==> acc == bits_value(cs@.subrange(z + 1, j as int)),
            big ==> bits_value(cs@.subrange(z + 1, j as int)) > 0x8000_0000_0000_0000_0000_0000_0000_0000,
        decreases end - j,
    {
        let c = cs[j];
        if c != '0' && c != '1' {
            proof {
                assert(digits[j - (z + 1)] == c);
            }
            return None;
        }
        let ghost before = cs@.subrange(z + 1, j as int);
        let ghost after = cs@.subrange(z + 1, j + 1);
        assert(after.drop_last() == before);
        if !big {
            if acc >= 0x8000_0000_0000_0000_0000_0000_0000_0000 {
                big = true;
            } else {
                acc = 2 * acc + if c == '1' { 1 } else { 0 };
            }
        }
        j = j + 1;
    }
    if big {
        None
    } else {
        Some((acc, end))
    }
}

fn demod_at(cs: &Vec<char>, i: usize) -> (r: Option<(E, usize)>)
    requires
        i <= cs.len(),
    ensures
        match r {
            Some((e, j)) => demod_spec(cs@, i as int) == Some((e, j as int)),
            None => demod_spec(cs@, i as int) is None,
        },
    decreases cs.len() - i,
{
    if cs.len() - i < 2 {
        return None;
    }
    let c0 = cs[i];
    let c1 = cs[i + 1];
    if c0 == '0' && c1 == '0' {
        Some((E::Etc(Etc::Nil), i + 2))
    } else if c0 == '1' && c1 == '1' {
        proof {
            lemma_demod_advances(cs@, i + 2);
        }
        match demod_at(cs, i + 2) {
            Some((a, j)) => match demod_at(cs, j) {
                Some((b, k)) => Some((E::Pair(Rc::new(a), Rc::new(b)), k)),
                None => None,
            },
            None => None,
        }
    } else {
        match demod_num_at(cs, i + 2) {
            Some((m, end)) => {
                if c0 == '0' {
                    if m <= 0x7fff_ffff_ffff_ffff_ffff_ffff_ffff_ffff {
                        Some((E::Num(m as i128), end))
                    } else {
                        None
                    }
                } else {
                    if m == 0x8000_0000_0000_0000_0000_0000_0000_0000 {
                        Some((E::Num(i128::MIN), end))
                    } else if m < 0x8000_0000_0000_0000_0000_0000_0000_0000 {
                        Some((E::Num(-(m as i128)), end))
                    } else {
                        None
                    }
                }
            },
            None => None,
        }
    }
}

/// The value whose modulation `s` begins with; what follows it is ignored.
/// `None` where `s` begins with no modulation, or with a number beyond the
/// range of `Int`.
pub fn demodulate(s: &str) -> (r: Option<E>)
    ensures
        match r {
            Some(e) => demod_spec(s@, 0) matches Some((d, _)) && d == e,
            None => demod_spec(s@, 0) is None,
        },
{
    let cs = chars_of(s);
    match demod_at(&cs, 0) {
        Some((e, _)) => Some(e),
        None => None,
    }
}


proof fn lemma_first_zero_ones(cs: Seq<char>, i: int, k: nat)
    requires
        0 <= i,
        i + k < cs.len(),
        forall|t: int| 0 <= t < k ==> #[trigger] cs[i + t] == '1',
        cs[i + k] == '0',
    ensures
        first_zero(cs, i) == i + k,
    decreases k,
{
    if k > 0 {
        assert(cs[i + 0] == '1');
        assert forall|t: int| 0 <= t < k - 1 implies #[trigger] cs[(i + 1) + t] == '1' by {
            assert(cs[i + (t + 1)] == '1');
        }
        lemma_first_zero_ones(cs, i + 1, (k - 1) as nat);
    }
}

proof fn lemma_bin(m: nat, w: nat)
    ensures
        bin(m, w).len() == w,
        all_bits(bin(m, w)),
        m < pow2(w) ==> bits_value(bin(m, w)) == m,
    decreases w,
{
    if w > 0 {
        lemma_bin(m / 2, (w - 1) as nat);
        let b = bin(m, w);
        assert(b.drop_last() == bin(m / 2, (w - 1) as nat));
        vstd::arithmetic::power2::lemma_pow2_unfold(w);
        assert forall|i: int| 0 <= i < b.len() implies (#[trigger] b[i] == '0' || b[i] == '1') by {
            if i < w - 1 {
                assert(b[i] == bin(m / 2, (w - 1) as nat)[i]);
            }
        }
    } else {
        vstd::arithmetic::power2::lemma2_to64();
    }
}

proof fn lemma_nibbles_pow(m: nat)
    ensures
        m < pow2(4 * nibbles(m)),
    decreases m,
{
    if m == 0 {
        vstd::arithmetic::power2::lemma2_to64();
    } else {
        lemma_nibbles_pow(m / 16);
        lemma_pow2_16(nibbles(m));
    }
}

proof fn lemma_demod_at(e: E, cs: Seq<char>, i: int)
    requires
        mod_bits(e) is Some,
        0 <= i,
        i + mod_bits(e).unwrap().len() <= cs.len(),
        cs.subrange(i, i + mod_bits(e).unwrap().len()) == mod_bits(e).unwrap(),
    ensures
        demod_spec(cs, i) == Some((e, i + mod_bits(e).unwrap().len())),
    decreases e,
{
    let bs = mod_bits(e).unwrap();
    assert forall|t: int| 0 <= t < bs.len() implies #[trigger] cs[i + t] == bs[t] by {
        assert(cs.subrange(i, i + bs.len())[t] == cs[i + t]);
    }
    assert(cs[i + 0] == bs[0] && cs[i + 1] == bs[1]);
    match e {
        E::Etc(Etc::Nil) => {},
        E::Pair(a, b) => {
            let x = mod_bits(unrc(a)).unwrap();
            let y = mod_bits(unrc(b)).unwrap();
            assert(bs == seq!['1', '1'] + x + y);
            assert(cs.subrange(i + 2, i + 2 + x.len()) =~= x) by {
                assert forall|t: int| 0 <= t < x.len() implies cs[i + 2 + t] == x[t] by {
                    assert(cs[i + (2 + t)] == bs[2 + t]);
                }
            }
            lemma_demod_at(unrc(a), cs, i + 2);
            let j = i + 2 + x.len();
            assert(cs.subrange(j, j + y.len()) =~= y) by {
                assert forall|t: int| 0 <= t < y.len() implies cs[j + t] == y[t] by {
                    assert(cs[i + (2 + x.len() + t)] == bs[2 + x.len() + t]);
                }
            }
            lemma_demod_at(unrc(b), cs, j);
        },
        E::Num(n) => {
            if n == 0 {
                assert(cs[i + 2] == bs[2]);
                lemma_first_zero(cs, i + 2);
            } else {
                let m = abs(n as int);
                let k = nibbles(m);
                let sign = if n > 0 {
                    seq!['0', '1']
                } else {
                    seq!['1', '0']
                };
                lemma_bin(m, 4 * k);
                lemma_nibbles_pow(m);
                assert(k > 0);
                assert(bs == sign + ones(k) + seq!['0'] + bin(m, 4 * k));
                assert forall|t: int| 0 <= t < k implies #[trigger] cs[(i + 2) + t] == '1' by {
                    assert(cs[i + (2 + t)] == bs[2 + t]);
                }
                assert(cs[(i + 2) + k] == '0') by {
                    assert(cs[i + (2 + k as int)] == bs[2 + k as int]);
                }
                lemma_first_zero_ones(cs, i + 2, k);
                let z = i + 2 + k;
                let end = z + 1 + 4 * k;
                assert(cs.subrange(z + 1, end) =~= bin(m, 4 * k)) by {
                    assert forall|t: int| 0 <= t < 4 * k implies cs[z + 1 + t] == #[trigger] bin(m, 4 * k)[t] by {
                        assert(cs[i + (3 + k as int + t)] == bs[3 + k as int + t]);
                    }
                }
            }
        },
        _ => {},
    }
}

/// Demodulating the modulation of a value gives the value back, whatever
/// bits follow it.
pub proof fn lemma_demodulate_modulate(e: E, rest: Seq<char>)
    requires
        mod_bits(e) is Some,
    ensures
        demod_spec(mod_bits(e).unwrap() + rest, 0) == Some((e, mod_bits(e).unwrap().len() as int)),
{
    let bs = mod_bits(e).unwrap();
    let cs = bs + rest;
    assert(cs.subrange(0, bs.len() as int) =~= bs);
    lemma_demod_at(e, cs, 0);
}
} // verus!
