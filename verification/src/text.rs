//! Small verified helpers on text: characters of a string, comparison with a
//! name, building strings, and decimal integers.
use vstd::prelude::*;

verus! {

/// The characters of `s`, in order.
pub fn chars_of(s: &str) -> (v: Vec<char>)
    ensures
        v@ == s@,
{
    let mut v: Vec<char> = Vec::new();
    for c in it: s.chars()
        invariant
            v@ == it.seq().take(it.index() as int),
    {
        v.push(c);
    }
    v
}

/// Calls `String::push`, which the standard library documents to append
/// `c` to the end of the string; the contract claims that and nothing more.
#[verifier::external_body]
pub(crate) fn string_push(s: &mut String, c: char)
    ensures
        final(s)@ == old(s)@.push(c),
{
    s.push(c);
}

/// A string holding exactly the characters of `v`.
pub fn string_of(v: &[char]) -> (s: String)
    ensures
        s@ == v@,
{
    let mut s = String::new();
    let mut i: usize = 0;
    while i < v.len()
        invariant
            i <= v.len(),
            s@ == v@.take(i as int),
        decreases v.len() - i,
    {
        string_push(&mut s, v[i]);
        assert(v@.take(i + 1) == v@.take(i as int).push(v@[i as int]));
        i = i + 1;
    }
    assert(v@.take(v.len() as int) == v@);
    s
}

/// Whether the characters `s` are exactly those of `name`.
pub fn chars_eq(s: &[char], name: &[char]) -> (r: bool)
    ensures
        r == (s@ == name@),
{
    if s.len() != name.len() {
        return false;
    }
    let mut i: usize = 0;
    while i < s.len()
        invariant
            i <= s.len(),
            s.len() == name.len(),
            s@.take(i as int) == name@.take(i as int),
        decreases s.len() - i,
    {
        if s[i] != name[i] {
            assert(s@[i as int] != name@[i as int]);
            return false;
        }
        assert(s@.take(i + 1) == s@.take(i as int).push(s@[i as int]));
        assert(name@.take(i + 1) == name@.take(i as int).push(name@[i as int]));
        i = i + 1;
    }
    assert(s@.take(s.len() as int) == s@);
    assert(name@.take(name.len() as int) == name@);
    true
}

/// Whether the string `s` holds exactly the characters of `name`.
pub fn str_eq(s: &str, name: &str) -> (r: bool)
    ensures
        r == (s@ == name@),
{
    let a = chars_of(s);
    let b = chars_of(name);
    chars_eq(a.as_slice(), b.as_slice())
}

/// The value of a decimal digit.
pub open spec fn digit_value(c: char) -> int {
    (c as int) - ('0' as int)
}

pub open spec fn is_digit(c: char) -> bool {
    '0' <= c && c <= '9'
}

/// The value of a sequence of decimal digits, most significant first.
pub open spec fn digits_value(s: Seq<char>) -> int
    decreases s.len(),
{
    if s.len() == 0 {
        0
    } else {
        digits_value(s.drop_last()) * 10 + digit_value(s.last())
    }
}

pub open spec fn all_digits(s: Seq<char>) -> bool {
    forall|i: int| 0 <= i < s.len() ==> is_digit(#[trigger] s[i])
}

/// The integer that `s` spells in decimal, as `str::parse::<i128>` reads it:
/// an optional `+` or `-`, then one or more digits, with a value in range.
pub open spec fn decimal_value(s: Seq<char>) -> Option<i128> {
    let neg = s.len() > 0 && s[0] == '-';
    let signed = s.len() > 0 && (s[0] == '-' || s[0] == '+');
    let ds = if signed { s.drop_first() } else { s };
    if ds.len() == 0 || !all_digits(ds) {
        None
    } else {
        let v = if neg { -digits_value(ds) } else { digits_value(ds) };
        if i128::MIN <= v <= i128::MAX {
            Some(v as i128)
        } else {
            None
        }
    }
}

proof fn lemma_digits_value_nonneg(s: Seq<char>)
    requires
        all_digits(s),
    ensures
        digits_value(s) >= 0,
    decreases s.len(),
{
    if s.len() > 0 {
        assert(all_digits(s.drop_last()));
        lemma_digits_value_nonneg(s.drop_last());
        assert(is_digit(s[s.len() - 1]));
    }
}

/// Reads `s` as a decimal integer, exactly as `decimal_value` says.
pub fn parse_decimal(s: &[char]) -> (r: Option<i128>)
    ensures
        r == decimal_value(s@),
{
    let n = s.len();
    if n == 0 {
        return None;
    }
    let neg = s[0] == '-';
    let start: usize = if s[0] == '-' || s[0] == '+' { 1 } else { 0 };
    let ghost ds = if start == 1 { s@.drop_first() } else { s@ };
    assert(ds == s@.subrange(start as int, n as int));
    if start == n {
        return None;
    }
    // accumulate the magnitude as a negative number so that i128::MIN fits
    let mut acc: i128 = 0;
    let mut i: usize = start;
    while i < n
        invariant
            start <= i <= n,
            start < n,
            n == s.len(),
            start == (if s@[0] == '-' || s@[0] == '+' { 1usize } else { 0usize }),
            neg == (s@[0] == '-'),
            ds == (if start == 1 { s@.drop_first() } else { s@ }),
            ds == s@.subrange(start as int, n as int),
            all_digits(s@.subrange(start as int, i as int)),
            acc == -digits_value(s@.subrange(start as int, i as int)),
        decreases n - i,
    {
        let c = s[i];
        let ghost prev = s@.subrange(start as int, i as int);
        let ghost next = s@.subrange(start as int, i + 1);
        assert(next.drop_last() == prev);
        assert(next.last() == c);
        if !('0' <= c && c <= '9') {
            assert(ds[i - start] == c);
            assert(!is_digit(ds[i - start]));
            assert(!all_digits(ds));
            return None;
        }
        let d = (c as u32 - '0' as u32) as i128;
        assert(digit_value(c) == d);
        assert(all_digits(next)) by {
            assert forall|k: int| 0 <= k < next.len() implies is_digit(#[trigger] next[k]) by {
                if k < prev.len() {
                    assert(next[k] == prev[k]);
                }
            }
        }
        proof {
            lemma_digits_value_nonneg(prev);
        }
        let next_acc = match acc.checked_mul(10) {
            Some(m) => m.checked_sub(d),
            None => None,
        };
        match next_acc {
            Some(a) => {
                acc = a;
            },
            None => {
                // the magnitude exceeds what any i128 can hold
                proof {
                    lemma_digits_value_nonneg(next);
                    assert(digits_value(next) == digits_value(prev) * 10 + d);
                    assert(digits_value(next) > i128::MAX);
                    let whole = s@.subrange(start as int, n as int);
                    if all_digits(whole) {
                        lemma_prefix_bound(whole, (i + 1 - start) as int);
                        assert(whole.take((i + 1 - start) as int) == next);
                        assert(digits_value(ds) > i128::MAX);
                    }
                }
                return None;
            },
        }
        i = i + 1;
    }
    assert(s@.subrange(start as int, n as int) == ds);
    if neg {
        Some(acc)
    } else {
        if acc == i128::MIN {
            return None;
        }
        Some(-acc)
    }
}

/// A digit string is at least as large as any of its prefixes.
proof fn lemma_prefix_bound(s: Seq<char>, k: int)
    requires
        0 <= k <= s.len(),
        all_digits(s),
    ensures
        digits_value(s) >= digits_value(s.take(k)),
    decreases s.len(),
{
    if k < s.len() {
        assert(all_digits(s.drop_last()));
        lemma_prefix_bound(s.drop_last(), k);
        assert(s.drop_last().take(k) == s.take(k));
        lemma_digits_value_nonneg(s.drop_last());
        assert(is_digit(s[s.len() - 1]));
    } else {
        assert(s.take(k) == s);
    }
}


/// The decimal digit for `d`, in `0..10`.
pub open spec fn digit_char(d: int) -> char {
    if d == 0 {
        '0'
    } else if d == 1 {
        '1'
    } else if d == 2 {
        '2'
    } else if d == 3 {
        '3'
    } else if d == 4 {
        '4'
    } else if d == 5 {
        '5'
    } else if d == 6 {
        '6'
    } else if d == 7 {
        '7'
    } else if d == 8 {
        '8'
    } else {
        '9'
    }
}

/// The decimal digits of `m`, most significant first, without leading zeros.
pub open spec fn nat_text(m: nat) -> Seq<char>
    decreases m,
{
    if m < 10 {
        seq![digit_char(m as int)]
    } else {
        nat_text(m / 10).push(digit_char((m % 10) as int))
    }
}

/// `n` in decimal, as `format!("{}", n)` writes it.
pub open spec fn int_text(n: int) -> Seq<char> {
    if n < 0 {
        seq!['-'] + nat_text((-n) as nat)
    } else {
        nat_text(n as nat)
    }
}

/// The decimal digits of `m` are digits, at least one, and spell `m`.
pub proof fn lemma_nat_text(m: nat)
    ensures
        nat_text(m).len() >= 1,
        all_digits(nat_text(m)),
        digits_value(nat_text(m)) == m,
    decreases m,
{
    if m >= 10 {
        lemma_nat_text(m / 10);
        let s = nat_text(m / 10);
        let d = (m % 10) as int;
        assert(nat_text(m) == s.push(digit_char(d)));
        assert(nat_text(m).drop_last() == s);
        assert(nat_text(m).last() == digit_char(d));
        assert(is_digit(digit_char(d)) && digit_value(digit_char(d)) == d);
        assert(digits_value(nat_text(m)) == digits_value(s) * 10 + d);
        assert(m == (m / 10) * 10 + m % 10) by (nonlinear_arith);
        assert forall|i: int| 0 <= i < nat_text(m).len() implies is_digit(#[trigger] nat_text(m)[i]) by {
            if i < s.len() {
                assert(nat_text(m)[i] == s[i]);
            }
        }
    } else {
        assert(is_digit(digit_char(m as int)) && digit_value(digit_char(m as int)) == m);
        assert(nat_text(m).drop_last() == Seq::<char>::empty());
        assert(digits_value(Seq::<char>::empty()) == 0);
        assert(digits_value(nat_text(m)) == digits_value(nat_text(m).drop_last()) * 10 + digit_value(
            nat_text(m).last(),
        ));
    }
}

/// Reading a number written in decimal gives it back.
pub proof fn lemma_decimal_int_text(n: i128)
    ensures
        decimal_value(int_text(n as int)) == Some(n),
{
    if n < 0 {
        let t = nat_text((-n) as nat);
        lemma_nat_text((-n) as nat);
        assert((seq!['-'] + t).drop_first() == t);
        assert((seq!['-'] + t)[0] == '-');
    } else {
        let t = nat_text(n as nat);
        lemma_nat_text(n as nat);
        assert(is_digit(t[0]));
    }
}

pub(crate) fn digit_to_char(d: u128) -> (c: char)
    requires
        d < 10,
    ensures
        c == digit_char(d as int),
{
    if d == 0 {
        '0'
    } else if d == 1 {
        '1'
    } else if d == 2 {
        '2'
    } else if d == 3 {
        '3'
    } else if d == 4 {
        '4'
    } else if d == 5 {
        '5'
    } else if d == 6 {
        '6'
    } else if d == 7 {
        '7'
    } else if d == 8 {
        '8'
    } else {
        '9'
    }
}

fn push_nat(m: u128, out: &mut String)
    ensures
        final(out)@ == old(out)@ + nat_text(m as nat),
    decreases m,
{
    if m >= 10 {
        push_nat(m / 10, out);
    }
    string_push(out, digit_to_char(m % 10));
    proof {
        if m >= 10 {
            assert(nat_text(m as nat) == nat_text((m / 10) as nat).push(digit_char((m % 10) as int)));
        }
    }
}

/// Appends `n` in decimal to `out`.
pub fn push_int(n: i128, out: &mut String)
    ensures
        final(out)@ == old(out)@ + int_text(n as int),
{
    if n < 0 {
        string_push(out, '-');
        let m: u128 = if n == i128::MIN {
            170141183460469231731687303715884105728u128
        } else {
            (-n) as u128
        };
        push_nat(m, out);
        assert(old(out)@ + int_text(n as int) == old(out)@.push('-') + nat_text(m as nat));
    } else {
        push_nat(n as u128, out);
    }
}

/// `n` in decimal.
pub fn int_to_string(n: i128) -> (s: String)
    ensures
        s@ == int_text(n as int),
{
    let mut s = String::new();
    push_int(n, &mut s);
    assert(s@ == Seq::<char>::empty() + int_text(n as int));
    s
}

/// Appends the characters of `t` to `out`.
pub fn push_str(out: &mut String, t: &str)
    ensures
        final(out)@ == old(out)@ + t@,
{
    let cs = chars_of(t);
    let mut i: usize = 0;
    while i < cs.len()
        invariant
            i <= cs.len(),
            cs@ == t@,
            out@ == old(out)@ + t@.take(i as int),
        decreases cs.len() - i,
    {
        string_push(out, cs[i]);
        assert(t@.take(i as int + 1) == t@.take(i as int).push(cs@[i as int]));
        i = i + 1;
    }
    assert(t@.take(cs.len() as int) == t@);
}
} // verus!
