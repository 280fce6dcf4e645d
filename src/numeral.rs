//! Reading JSON number texts exactly, without floating point: the sign, the
//! decimal digits and the position of the decimal point after the exponent
//! is applied.
use vstd::prelude::*;

verus! {

pub open spec fn is_digit(b: u8) -> bool {
    48 <= b <= 57
}

/// Number of leading ASCII digits of `s`.
pub open spec fn digit_run(s: Seq<u8>) -> nat
    decreases s.len(),
{
    if s.len() > 0 && is_digit(s[0]) {
        1 + digit_run(s.drop_first())
    } else {
        0
    }
}

/// Value of a string of ASCII digits, most significant first.
pub open spec fn digits_value(s: Seq<u8>) -> nat
    decreases s.len(),
{
    if s.len() == 0 {
        0
    } else {
        digits_value(s.drop_last()) * 10 + (s.last() - 48) as nat
    }
}

pub open spec fn pow10(n: nat) -> nat
    decreases n,
{
    if n == 0 {
        1
    } else {
        10 * pow10((n - 1) as nat)
    }
}

pub open spec fn min_int(a: int, b: int) -> int {
    if a <= b {
        a
    } else {
        b
    }
}

/// A decimal numeral: `neg` for a leading minus, its significant digits
/// (integer then fractional), and `point`, the number of digits that stand
/// before the decimal point once the exponent is applied (it may be negative
/// or exceed the number of digits).
pub struct Numeral {
    pub neg: bool,
    pub digits: Seq<u8>,
    pub point: int,
}

/// Position just past the fractional part of a numeral whose integer digits end at `p`.
pub open spec fn frac_end(t: Seq<u8>, p: int) -> int {
    if p < t.len() && t[p] == 46 {
        p + 1 + digit_run(t.skip(p + 1))
    } else {
        p
    }
}

/// Position of the exponent digits, past `e`/`E` and an optional sign at `q`.
pub open spec fn exp_digits_start(t: Seq<u8>, q: int) -> int {
    if q + 1 < t.len() && (t[q + 1] == 45 || t[q + 1] == 43) {
        q + 2
    } else {
        q + 1
    }
}

pub open spec fn has_exponent(t: Seq<u8>, q: int) -> bool {
    q < t.len() && (t[q] == 101 || t[q] == 69)
}

/// The numeral written by `t` in JSON number syntax
/// (`-?digits(.digits)?([eE][+-]?digits)?`), if `t` is one.
pub open spec fn numeral_of(t: Seq<u8>) -> Option<Numeral> {
    let a: int = if t.len() > 0 && t[0] == 45 { 1 } else { 0 };
    let p = a + digit_run(t.skip(a));
    let q = frac_end(t, p);
    let r = exp_digits_start(t, q);
    let end = if has_exponent(t, q) { r + digit_run(t.skip(r)) } else { q };
    let exp_neg = has_exponent(t, q) && r == q + 2 && t[q + 1] == 45;
    let ev = if has_exponent(t, q) { digits_value(t.subrange(r, end)) as int } else { 0 };
    if p == a || (q != p && q == p + 1) || (has_exponent(t, q) && end == r) || end != t.len() {
        None
    } else {
        Some(
            Numeral {
                neg: a == 1,
                digits: t.subrange(a, p) + (if q > p { t.subrange(p + 1, q) } else { Seq::empty() }),
                point: (p - a) + if exp_neg { -ev } else { ev },
            },
        )
    }
}

/// The numeral has a non-zero digit: its value is not zero.
pub open spec fn nonzero(d: Seq<u8>) -> bool {
    exists|j: int| 0 <= j < d.len() && d[j] != 48
}

/// The whole part of the magnitude of the numeral `d` with point `s`.
pub open spec fn whole_part(d: Seq<u8>, s: int) -> nat {
    if s <= 0 {
        0
    } else if s <= d.len() {
        digits_value(d.take(s))
    } else {
        digits_value(d) * pow10((s - d.len()) as nat)
    }
}

/// A non-zero digit stands after the decimal point.
pub open spec fn has_fraction(d: Seq<u8>, s: int) -> bool {
    exists|j: int| 0 <= j < d.len() && j >= s && d[j] != 48
}

/// The outcome of reading a numeral as a neighbourhood radius: `None` where
/// the value is not in `(0, 1000]`, else the whole part of the value.
pub open spec fn radius_decision(neg: bool, d: Seq<u8>, s: int) -> Option<u32> {
    if neg || !nonzero(d) {
        None
    } else if whole_part(d, s) > 1000 || (whole_part(d, s) == 1000 && has_fraction(d, s)) {
        None
    } else {
        Some(whole_part(d, s) as u32)
    }
}

/// Two decimal point positions that no radius decision can tell apart.
pub open spec fn same_scale(a: int, b: int, len: int) -> bool {
    a == b || (a >= len + 4 && b >= len + 4) || (a <= 0 && b <= 0)
}

/// The text of a non-negative integer that fits `u32`.
pub open spec fn uint_of(t: Seq<u8>) -> Option<u32> {
    if t.len() > 0 && digit_run(t) == t.len() && digits_value(t) <= u32::MAX {
        Some(digits_value(t) as u32)
    } else {
        None
    }
}

proof fn lemma_digit_run_digits(s: Seq<u8>, k: int)
    requires
        0 <= k < digit_run(s),
    ensures
        is_digit(s[k]),
        k < s.len(),
    decreases k,
{
    if k > 0 {
        lemma_digit_run_digits(s.drop_first(), k - 1);
    }
}

proof fn lemma_digit_run_le(s: Seq<u8>)
    ensures
        digit_run(s) <= s.len(),
    decreases s.len(),
{
    if s.len() > 0 && is_digit(s[0]) {
        lemma_digit_run_le(s.drop_first());
    }
}

proof fn lemma_pow10_pos(n: nat)
    ensures
        pow10(n) >= 1,
    decreases n,
{
    if n > 0 {
        lemma_pow10_pos((n - 1) as nat);
    }
}

proof fn lemma_pow10_mono(a: nat, b: nat)
    requires
        a <= b,
    ensures
        pow10(a) <= pow10(b),
    decreases b,
{
    if a < b {
        lemma_pow10_mono(a, (b - 1) as nat);
        lemma_pow10_pos((b - 1) as nat);
    }
}

proof fn lemma_nonzero_value(d: Seq<u8>)
    requires
        nonzero(d),
        forall|j: int| 0 <= j < d.len() ==> is_digit(#[trigger] d[j]),
    ensures
        digits_value(d) >= 1,
    decreases d.len(),
{
    if d.last() == 48 {
        let j = choose|j: int| 0 <= j < d.len() && d[j] != 48;
        assert(d.drop_last()[j] == d[j]);
        lemma_nonzero_value(d.drop_last());
    }
}

/// Positions of the decimal point that `same_scale` relates give one decision.
pub(crate) proof fn lemma_same_scale_decision(neg: bool, d: Seq<u8>, a: int, b: int)
    requires
        same_scale(a, b, d.len() as int),
        forall|j: int| 0 <= j < d.len() ==> is_digit(#[trigger] d[j]),
    ensures
        radius_decision(neg, d, a) == radius_decision(neg, d, b),
{
    if a >= d.len() + 4 && b >= d.len() + 4 && nonzero(d) {
        lemma_nonzero_value(d);
        reveal_with_fuel(pow10, 5);
        lemma_pow10_mono(4, (a - d.len()) as nat);
        lemma_pow10_mono(4, (b - d.len()) as nat);
        let x = digits_value(d) as int;
        let pa = pow10((a - d.len()) as nat) as int;
        let pb = pow10((b - d.len()) as nat) as int;
        assert(x * pa > 1000 && x * pb > 1000) by (nonlinear_arith)
            requires
                x >= 1,
                pa >= 10000,
                pb >= 10000,
        ;
    }
    if a <= 0 && b <= 0 {
        assert(has_fraction(d, a) == nonzero(d));
        assert(has_fraction(d, b) == nonzero(d));
    }
}

/// Number of ASCII digits in `t` from position `from` on.
fn digit_run_at(t: &Vec<u8>, from: usize) -> (n: usize)
    requires
        from <= t@.len(),
    ensures
        n == digit_run(t@.skip(from as int)),
        from + n <= t@.len(),
{
    let mut i = from;
    while i < t.len() && t[i] >= 48 && t[i] <= 57
        invariant
            from <= i <= t@.len(),
            digit_run(t@.skip(from as int)) == (i - from) + digit_run(t@.skip(i as int)),
        decreases t@.len() - i,
    {
        assert(t@.skip(i as int).drop_first() =~= t@.skip(i + 1));
        i = i + 1;
    }
    i - from
}

/// Value of the digits `t[from..to]`, saturated at `cap`.
fn digits_value_capped(t: &Vec<u8>, from: usize, to: usize, cap: u128) -> (v: u128)
    requires
        from <= to <= t@.len(),
        forall|j: int| from <= j < to ==> is_digit(#[trigger] t@[j]),
        cap <= 0x1_0000_0000_0000_0000_0000_0000,
    ensures
        v == min_int(digits_value(t@.subrange(from as int, to as int)) as int, cap as int),
{
    let mut v: u128 = 0;
    let mut i = from;
    assert(t@.subrange(from as int, from as int) =~= Seq::<u8>::empty());
    while i < to
        invariant
            from <= i <= to <= t@.len(),
            forall|j: int| from <= j < to ==> is_digit(#[trigger] t@[j]),
            cap <= 0x1_0000_0000_0000_0000_0000_0000,
            v == min_int(digits_value(t@.subrange(from as int, i as int)) as int, cap as int),
        decreases to - i,
    {
        assert(t@.subrange(from as int, i + 1).drop_last() =~= t@.subrange(from as int, i as int));
        assert(is_digit(t@[i as int]));
        let d = (t[i] - 48) as u128;
        let next = v * 10 + d;
        v = if next < cap { next } else { cap };
        i = i + 1;
    }
    v
}

/// Reads `t` as the JSON text of a non-negative integer that fits `u32`.
pub fn parse_uint(t: &Vec<u8>) -> (r: Option<u32>)
    ensures
        r == uint_of(t@),
{
    let n = digit_run_at(t, 0);
    assert(t@.skip(0) =~= t@);
    if n == 0 || n != t.len() {
        return None;
    }
    proof {
        assert forall|j: int| 0 <= j < t@.len() implies is_digit(#[trigger] t@[j]) by {
            lemma_digit_run_digits(t@, j);
        }
        assert(t@.subrange(0, t@.len() as int) =~= t@);
    }
    let v = digits_value_capped(t, 0, n, 0x1_0000_0000);
    if v > 0xffff_ffff {
        None
    } else {
        Some(v as u32)
    }
}

/// Saturation bound of an exponent: beyond it every radius decision is settled.
const EXPONENT_CAP: u128 = 0x1_0000_0000_0000_0000_0000;

/// The digits `t[a..p]` followed by `t[p + 1..q]` where `q > p`.
fn join_digits(t: &Vec<u8>, a: usize, p: usize, q: usize) -> (d: Vec<u8>)
    requires
        a <= p <= q <= t@.len(),
        p < q ==> p + 1 <= q,
        forall|j: int| a <= j < p ==> is_digit(#[trigger] t@[j]),
        forall|j: int| p + 1 <= j < q ==> is_digit(#[trigger] t@[j]),
    ensures
        d@ == t@.subrange(a as int, p as int) + (if q > p {
            t@.subrange(p + 1, q as int)
        } else {
            Seq::empty()
        }),
        forall|j: int| 0 <= j < d@.len() ==> is_digit(#[trigger] d@[j]),
{
    let mut d: Vec<u8> = Vec::new();
    let mut i = a;
    while i < p
        invariant
            a <= i <= p <= t@.len(),
            d@ == t@.subrange(a as int, i as int),
        decreases p - i,
    {
        d.push(t[i]);
        assert(d@ =~= t@.subrange(a as int, i + 1));
        i = i + 1;
    }
    if q > p {
        let mut k = p + 1;
        while k < q
            invariant
                p + 1 <= k <= q <= t@.len(),
                d@ == t@.subrange(a as int, p as int) + t@.subrange(p + 1, k as int),
            decreases q - k,
        {
            d.push(t[k]);
            assert(d@ =~= t@.subrange(a as int, p as int) + t@.subrange(p + 1, k + 1));
            k = k + 1;
        }
    } else {
        assert(d@ =~= t@.subrange(a as int, p as int) + Seq::<u8>::empty());
    }
    proof {
        assert forall|j: int| 0 <= j < d@.len() implies is_digit(#[trigger] d@[j]) by {
            if j < p - a {
                assert(d@[j] == t@[a + j]);
            } else {
                assert(d@[j] == t@[p + 1 + (j - (p - a))]);
            }
        }
    }
    d
}

proof fn lemma_run_digits(t: Seq<u8>, from: int, n: int)
    requires
        0 <= from <= t.len(),
        n == digit_run(t.skip(from)),
    ensures
        forall|j: int| from <= j < from + n ==> is_digit(#[trigger] t[j]),
{
    assert forall|j: int| from <= j < from + n implies is_digit(#[trigger] t[j]) by {
        lemma_digit_run_digits(t.skip(from), j - from);
    }
}

/// Splits the JSON number text `t` into its sign, its digits and the
/// position of its decimal point. Exponents too large to matter are
/// saturated: the position returned then makes the same radius decision.
#[verifier::rlimit(50)]
pub fn scan_numeral(t: &Vec<u8>) -> (r: Option<(bool, Vec<u8>, i128)>)
    ensures
        r is None <==> numeral_of(t@) is None,
        r matches Some((neg, d, s)) ==> {
            &&& numeral_of(t@) matches Some(n)
            &&& neg == n.neg
            &&& d@ == n.digits
            &&& same_scale(s as int, n.point, d@.len() as int)
            &&& forall|j: int| 0 <= j < d@.len() ==> is_digit(#[trigger] d@[j])
        },
{
    let len = t.len();
    let a: usize = if len > 0 && t[0] == 45 { 1 } else { 0 };
    let n1 = digit_run_at(t, a);
    let p = a + n1;
    if n1 == 0 {
        return None;
    }
    let mut q = p;
    if p < len && t[p] == 46 {
        let n2 = digit_run_at(t, p + 1);
        if n2 == 0 {
            return None;
        }
        q = p + 1 + n2;
        proof {
            lemma_run_digits(t@, p + 1, n2 as int);
        }
    }
    assert(q == frac_end(t@, p as int));
    proof {
        lemma_run_digits(t@, a as int, n1 as int);
    }
    let mut exp_neg = false;
    let mut ev: u128 = 0;
    let mut end = q;
    let ghost mut rr: int = 0;
    if q < len && (t[q] == 101 || t[q] == 69) {
        let signed = q + 1 < len && (t[q + 1] == 45 || t[q + 1] == 43);
        let r = if signed { q + 2 } else { q + 1 };
        assert(r == exp_digits_start(t@, q as int));
        exp_neg = signed && t[q + 1] == 45;
        let n3 = digit_run_at(t, r);
        if n3 == 0 {
            return None;
        }
        end = r + n3;
        proof {
            lemma_run_digits(t@, r as int, n3 as int);
            rr = r as int;
        }
        ev = digits_value_capped(t, r, end, EXPONENT_CAP);
    }
    if end != len {
        return None;
    }
    let d = join_digits(t, a, p, q);
    let whole = (p - a) as i128;
    let s = if exp_neg { whole - ev as i128 } else { whole + ev as i128 };
    proof {
        let n = numeral_of(t@)->Some_0;
        assert(numeral_of(t@) is Some);
        assert(d@ == n.digits);
        assert(d@.len() <= len);
    }
    Some((a == 1, d, s))
}

/// Whether a digit other than `0` stands at or after position `start`.
fn nonzero_from(d: &Vec<u8>, start: usize) -> (r: bool)
    requires
        start <= d@.len(),
    ensures
        r == exists|j: int| start <= j < d@.len() && d@[j] != 48,
{
    let mut j = start;
    while j < d.len()
        invariant
            start <= j <= d@.len(),
            forall|k: int| start <= k < j ==> d@[k] == 48,
        decreases d@.len() - j,
    {
        if d[j] != 48 {
            return true;
        }
        j = j + 1;
    }
    false
}

/// Decides a radius from its numeral: `None` where its value is not in
/// `(0, 1000]`, else its whole part.
pub fn check_radius(neg: bool, d: &Vec<u8>, s: i128) -> (r: Option<u32>)
    requires
        forall|j: int| 0 <= j < d@.len() ==> is_digit(#[trigger] d@[j]),
    ensures
        r == radius_decision(neg, d@, s as int),
{
    let len = d.len();
    let nz = nonzero_from(d, 0);
    if neg || !nz {
        return None;
    }
    let start: usize = if s <= 0 { 0 } else if s >= len as i128 { len } else { s as usize };
    let frac = nonzero_from(d, start);
    let cap: u128 = 1001;
    let whole: u128 = if s <= 0 {
        0
    } else if s <= len as i128 {
        assert(d@.take(s as int) =~= d@.subrange(0, s as int));
        digits_value_capped(d, 0, s as usize, cap)
    } else {
        assert(d@ =~= d@.subrange(0, len as int));
        let ghost x = digits_value(d@) as int;
        let m = (s - len as i128) as u128;
        let mut v = digits_value_capped(d, 0, len, cap);
        let mut done: u128 = 0;
        while done < m && v != 0 && v < cap
            invariant
                done <= m,
                cap == 1001,
                x >= 0,
                v == min_int(x * pow10(done as nat), cap as int),
            decreases m - done,
        {
            let ghost xp = x * pow10(done as nat);
            assert(x * pow10((done + 1) as nat) == xp * 10) by (nonlinear_arith)
                requires
                    xp == x * pow10(done as nat),
                    pow10((done + 1) as nat) == 10 * pow10(done as nat),
            ;
            v = if v * 10 < cap { v * 10 } else { cap };
            done = done + 1;
        }
        proof {
            let xp = x * pow10(done as nat);
            let xm = x * pow10(m as nat);
            lemma_pow10_pos(done as nat);
            lemma_pow10_mono(done as nat, m as nat);
            assert(v == 0 ==> xm == 0) by (nonlinear_arith)
                requires
                    v == 0 ==> xp == 0,
                    xp == x * pow10(done as nat),
                    xm == x * pow10(m as nat),
                    pow10(done as nat) >= 1,
                    x >= 0,
            ;
            assert(xp >= cap ==> xm >= cap) by (nonlinear_arith)
                requires
                    xp == x * pow10(done as nat),
                    xm == x * pow10(m as nat),
                    pow10(done as nat) <= pow10(m as nat),
                    x >= 0,
            ;
        }
        v
    };
    assert(frac == has_fraction(d@, s as int));
    if whole > 1000 || (whole == 1000 && frac) {
        None
    } else {
        Some(whole as u32)
    }
}

} // verus!
