//! Byte counts from decimal numbers.
//!
//! A size is written as a decimal number with a unit that is a power of two. The
//! number is taken to 53 significant bits, rounded to nearest with ties to even,
//! before it is multiplied, and the product is cut off to an integer and capped.

#[allow(unused_imports)]
use vstd::arithmetic::div_mod::*;
#[allow(unused_imports)]
use vstd::arithmetic::power2::*;
use vstd::prelude::*;

verus! {

/// The least number with 53 bits.
pub const LEAST: u128 = 0x10_0000_0000_0000;

/// Twice that.
pub const ABOVE: u128 = 0x20_0000_0000_0000;

/// A decimal digit.
pub open spec fn is_digit(c: char) -> bool {
    '0' <= c <= '9'
}

/// Nothing but decimal digits.
pub open spec fn all_digits(s: Seq<char>) -> bool {
    forall|i: int| 0 <= i < s.len() ==> is_digit(#[trigger] s[i])
}

/// The number that decimal digits stand for.
pub open spec fn number(s: Seq<char>) -> nat
    decreases s.len(),
{
    if s.len() == 0 {
        0
    } else {
        10 * number(s.drop_last()) + (s.last() as nat - '0' as nat) as nat
    }
}

pub open spec fn pow10(n: nat) -> nat
    decreases n,
{
    if n == 0 {
        1
    } else {
        10 * pow10((n - 1) as nat)
    }
}

/// `n / d` rounded to the nearest integer, ties to even.
pub open spec fn nearest(n: nat, d: nat) -> nat {
    let q = n / d;
    let r = n % d;
    if 2 * r < d || (2 * r == d && q % 2 == 0) {
        q
    } else {
        q + 1
    }
}

/// `n / d` has 53 bits before the point once it is divided by `2^e`.
pub open spec fn is_exponent(n: nat, d: nat, e: int) -> bool {
    if e >= 0 {
        LEAST * (d * pow2(e as nat)) <= n < ABOVE * (d * pow2(e as nat))
    } else {
        LEAST * d <= n * pow2((-e) as nat) < ABOVE * d
    }
}

/// The exponent of `n / d`.
pub open spec fn exponent(n: nat, d: nat) -> int {
    choose|e: int| is_exponent(n, d, e)
}

/// `n / d`, rounded to 53 significant bits, times `unit`, without its fraction.
pub open spec fn product(n: nat, d: nat, unit: nat) -> nat {
    let e = exponent(n, d);
    if n == 0 {
        0
    } else if e >= 0 {
        nearest(n, d * pow2(e as nat)) * pow2(e as nat) * unit
    } else {
        (nearest(n * pow2((-e) as nat), d) * unit) / pow2((-e) as nat)
    }
}

/// The bytes that a number with `f` decimal places stands for.
pub open spec fn byte_count(n: nat, f: nat, unit: nat) -> u64 {
    let p = product(n, pow10(f), unit);
    if p > u64::MAX {
        u64::MAX
    } else {
        p as u64
    }
}

// ---- exponents ---------------------------------------------------------------------

proof fn lemma_exponent_unique(n: nat, d: nat, a: int, b: int)
    requires
        d > 0,
        is_exponent(n, d, a),
        is_exponent(n, d, b),
        a <= b,
    ensures
        a == b,
{
    if a < b {
        if a >= 0 {
            let (x, y) = (pow2(a as nat), pow2(b as nat));
            if a + 1 < b {
                lemma_pow2_strictly_increases((a + 1) as nat, b as nat);
            }
            lemma_pow2_unfold((a + 1) as nat);
            assert(2 * x <= y);
            assert(ABOVE * (d * x) <= LEAST * (d * y)) by (nonlinear_arith)
                requires
                    2 * x <= y,
                    ABOVE == 2 * LEAST,
            ;
        } else if b < 0 {
            let (x, y) = (pow2((-a) as nat), pow2((-b) as nat));
            if 1 - b < -a {
                lemma_pow2_strictly_increases((1 - b) as nat, (-a) as nat);
            }
            lemma_pow2_unfold((1 - b) as nat);
            assert(2 * y <= x);
            assert(2 * (n * y) <= n * x) by (nonlinear_arith)
                requires
                    2 * y <= x,
            ;
        } else {
            let (x, y) = (pow2((-a) as nat), pow2(b as nat));
            lemma_pow2_pos(b as nat);
            lemma_pow2_pos((-a - 1) as nat);
            lemma_pow2_unfold((-a) as nat);
            assert(LEAST * d <= LEAST * (d * y)) by (nonlinear_arith)
                requires
                    y >= 1,
            ;
            assert(2 * n <= n * x) by (nonlinear_arith)
                requires
                    x >= 2,
            ;
        }
    }
}

proof fn lemma_exponent_is(n: nat, d: nat, e: int)
    requires
        d > 0,
        is_exponent(n, d, e),
    ensures
        exponent(n, d) == e,
{
    let c = exponent(n, d);
    assert(is_exponent(n, d, c));
    if c <= e {
        lemma_exponent_unique(n, d, c, e);
    } else {
        lemma_exponent_unique(n, d, e, c);
    }
}

/// A large number has an exponent.
proof fn lemma_exponent_above(n: nat, d: nat, j: nat) -> (e: nat)
    requires
        d > 0,
        n >= LEAST * (d * pow2(j)),
    ensures
        e >= j,
        is_exponent(n, d, e as int),
    decreases n - LEAST * (d * pow2(j)),
{
    if n < ABOVE * (d * pow2(j)) {
        j
    } else {
        let x = pow2(j);
        lemma_pow2_pos(j);
        lemma_pow2_unfold(j + 1);
        assert(LEAST * (d * (2 * x)) == ABOVE * (d * x)) by (nonlinear_arith)
            requires
                ABOVE == 2 * LEAST,
        ;
        assert(LEAST * (d * x) < ABOVE * (d * x)) by (nonlinear_arith)
            requires
                d > 0,
                x > 0,
                ABOVE == 2 * LEAST,
                LEAST > 0,
        ;
        lemma_exponent_above(n, d, j + 1)
    }
}

/// A small number has an exponent.
proof fn lemma_exponent_below(n: nat, d: nat, k: nat) -> (e: nat)
    requires
        n > 0,
        d > 0,
        n * pow2(k) < LEAST * d,
    ensures
        e > k,
        is_exponent(n, d, -(e as int)),
    decreases LEAST * d - n * pow2(k),
{
    let x = pow2(k);
    lemma_pow2_pos(k);
    lemma_pow2_unfold(k + 1);
    assert(n * (2 * x) == 2 * (n * x)) by (nonlinear_arith);
    assert(n * x > 0) by (nonlinear_arith)
        requires
            n > 0,
            x > 0,
    ;
    assert(ABOVE * d == 2 * (LEAST * d)) by (nonlinear_arith)
        requires
            ABOVE == 2 * LEAST,
    ;
    if n * pow2(k + 1) >= LEAST * d {
        k + 1
    } else {
        lemma_exponent_below(n, d, k + 1)
    }
}

/// From 2^64 on the product is out of range.
proof fn lemma_huge(n: nat, d: nat, unit: nat)
    requires
        d > 0,
        unit > 0,
        n >= 0x1_0000_0000_0000_0000 * d,
    ensures
        product(n, d, unit) > u64::MAX,
{
    lemma2_to64();
    assert(LEAST * (d * pow2(12)) == 0x1_0000_0000_0000_0000 * d) by (nonlinear_arith)
        requires
            LEAST == 0x10_0000_0000_0000,
            pow2(12) == 4096,
    ;
    let e = lemma_exponent_above(n, d, 12);
    lemma_exponent_is(n, d, e as int);
    let x = pow2(e);
    lemma_pow2_pos(e);
    if e > 12 {
        lemma_pow2_strictly_increases(12, e);
    }
    let c = d * x;
    assert(c > 0) by (nonlinear_arith)
        requires
            d > 0,
            x > 0,
            c == d * x,
    ;
    let q = n / c;
    lemma_fundamental_div_mod(n as int, c as int);
    let r = n % c;
    assert(q >= LEAST) by (nonlinear_arith)
        requires
            n == c * q + r,
            0 <= r < c,
            n >= LEAST * c,
    ;
    let m = nearest(n, c);
    assert(m * x * unit >= 0x1_0000_0000_0000_0000) by (nonlinear_arith)
        requires
            m >= LEAST,
            x >= 4096,
            unit >= 1,
            LEAST == 0x10_0000_0000_0000,
    ;
}

/// A number that is small even against the largest unit comes to nothing.
proof fn lemma_tiny(n: nat, d: nat, unit: nat, k: nat)
    requires
        d > 0,
        unit <= 0x4_0000_0000_0000,
        k >= 104,
        n * pow2(k) < LEAST * d,
    ensures
        product(n, d, unit) == 0,
{
    if n > 0 {
        let e = lemma_exponent_below(n, d, k);
        lemma_exponent_is(n, d, -(e as int));
        let x = pow2(e);
        lemma2_to64_rest();
        lemma_pow2_adds(53, 52);
        if e > 105 {
            lemma_pow2_strictly_increases(105, e);
        }
        let a = n * x;
        let q = a / d;
        let r = a % d;
        lemma_fundamental_div_mod(a as int, d as int);
        assert(q < ABOVE) by (nonlinear_arith)
            requires
                a == d * q + r,
                0 <= r,
                a < ABOVE * d,
                d > 0,
        ;
        let m = nearest(a, d);
        assert(pow2(105) == 0x20_0000_0000_0000 * 0x10_0000_0000_0000) by {
            assert(pow2(53) * pow2(52) == pow2(105));
        }
        assert(m * unit < x) by (nonlinear_arith)
            requires
                m <= ABOVE,
                unit <= 0x4_0000_0000_0000,
                x >= 0x20_0000_0000_0000 * 0x10_0000_0000_0000,
                ABOVE == 0x20_0000_0000_0000,
        ;
        lemma_fundamental_div_mod_converse((m * unit) as int, x as int, 0, (m * unit) as int);
    }
}

// ---- digits ------------------------------------------------------------------------

proof fn lemma_number_concat(a: Seq<char>, b: Seq<char>)
    requires
        all_digits(a),
        all_digits(b),
    ensures
        number(a + b) == number(a) * pow10(b.len()) + number(b),
    decreases b.len(),
{
    if b.len() == 0 {
        assert(a + b =~= a);
        assert(pow10(0) == 1);
        assert(number(a) * 1 == number(a));
    } else {
        assert((a + b).last() == b.last());
        assert((a + b).drop_last() =~= a + b.drop_last());
        lemma_number_concat(a, b.drop_last());
        let (x, y, p) = (number(a), number(b.drop_last()), pow10((b.len() - 1) as nat));
        assert(10 * (x * p + y) == x * (10 * p) + 10 * y) by (nonlinear_arith);
    }
}

/// The number that digits stand for, the least significant first.
spec fn value(s: Seq<u8>) -> nat
    decreases s.len(),
{
    if s.len() == 0 {
        0
    } else {
        value(s.drop_last()) + s.last() as nat * pow10((s.len() - 1) as nat)
    }
}

spec fn digits(s: Seq<u8>) -> bool {
    forall|i: int| 0 <= i < s.len() ==> (#[trigger] s[i]) < 10
}

proof fn lemma_value_bound(s: Seq<u8>)
    requires
        digits(s),
    ensures
        value(s) < pow10(s.len()),
        (forall|i: int| 0 <= i < s.len() ==> s[i] == 0) <==> value(s) == 0,
    decreases s.len(),
{
    if s.len() > 0 {
        let f = s.drop_last();
        assert(digits(f)) by {
            assert forall|i: int| 0 <= i < f.len() implies (#[trigger] f[i]) < 10 by {
                assert(f[i] == s[i]);
            }
        }
        lemma_value_bound(f);
        let p = pow10((s.len() - 1) as nat);
        let x = s.last();
        assert(x == s[s.len() - 1]);
        assert(x * p <= 9 * p) by (nonlinear_arith)
            requires
                x < 10,
        ;
        assert(x * p == 0 <==> x == 0) by (nonlinear_arith)
            requires
                p > 0,
        ;
        if value(s) == 0 {
            assert forall|i: int| 0 <= i < s.len() implies s[i] == 0 by {
                if i < f.len() {
                    assert(f[i] == 0);
                }
            }
        } else if forall|i: int| 0 <= i < s.len() ==> s[i] == 0 {
            assert forall|i: int| 0 <= i < f.len() implies f[i] == 0 by {
                assert(f[i] == s[i]);
            }
        }
    }
}

/// The digits of a fraction, the least significant first.
fn load(frac: &[char]) -> (v: Vec<u8>)
    requires
        all_digits(frac@),
    ensures
        digits(v@),
        v@.len() == frac@.len(),
        value(v@) == number(frac@),
{
    let mut v: Vec<u8> = Vec::new();
    let mut i = frac.len();
    assert(frac@.skip(i as int) =~= Seq::<char>::empty());
    while i > 0
        invariant
            i <= frac.len(),
            all_digits(frac@),
            digits(v@),
            v@.len() == frac@.len() - i,
            value(v@) == number(frac@.skip(i as int)),
        decreases i,
    {
        let c = frac[i - 1];
        assert(is_digit(frac@[i - 1]));
        let d = (c as u32 - 48) as u8;
        let ghost before = v@;
        let ghost tail = frac@.skip(i as int);
        v.push(d);
        proof {
            assert(v@.drop_last() =~= before);
            let head = seq![c];
            assert(frac@.skip(i - 1) =~= head + tail);
            lemma_number_concat(head, tail);
            assert(head.drop_last() =~= Seq::<char>::empty());
            assert(number(head) == d) by {
                assert(number(head.drop_last()) == 0);
            }
        }
        i = i - 1;
    }
    assert(frac@.skip(0) =~= frac@);
    v
}

/// Doubles a fraction and tells whether one was carried out of it.
fn double(v: &mut Vec<u8>) -> (carried: bool)
    requires
        digits(old(v)@),
    ensures
        digits(final(v)@),
        final(v)@.len() == old(v)@.len(),
        2 * value(old(v)@) == value(final(v)@) + if carried {
            pow10(old(v)@.len())
        } else {
            0
        },
{
    let ghost start = v@;
    let n = v.len();
    let mut carry: u8 = 0;
    let mut i: usize = 0;
    assert(start.take(0) =~= Seq::<u8>::empty());
    while i < n
        invariant
            i <= n == start.len() == v@.len(),
            carry <= 1,
            digits(start),
            digits(v@),
            v@.skip(i as int) == start.skip(i as int),
            2 * value(start.take(i as int)) == value(v@.take(i as int)) + carry * pow10(i as nat),
        decreases n - i,
    {
        let x = v[i];
        assert(v@[i as int] == v@.skip(i as int)[0]);
        assert(x == start[i as int]);
        let s = 2 * x + carry;
        let (d, c): (u8, u8) = if s >= 10 {
            (s - 10, 1)
        } else {
            (s, 0)
        };
        let ghost before = v@;
        v.set(i, d);
        proof {
            assert(v@.take(i + 1).drop_last() =~= before.take(i as int));
            assert(start.take(i + 1).drop_last() =~= start.take(i as int));
            assert(v@.skip(i + 1) =~= before.skip(i as int).skip(1));
            assert(start.skip(i + 1) =~= start.skip(i as int).skip(1));
            let p = pow10(i as nat);
            assert(pow10((i + 1) as nat) == 10 * p);
            assert(2 * (x * p) + carry * p == d * p + c * (10 * p)) by (nonlinear_arith)
                requires
                    2 * x + carry == d + 10 * c,
            ;
            assert forall|k: int| 0 <= k < v@.len() implies (#[trigger] v@[k]) < 10 by {
                assert(k != i ==> v@[k] == before[k]);
            }
        }
        carry = c;
        i = i + 1;
    }
    assert(start.take(n as int) =~= start);
    assert(v@.take(n as int) =~= v@);
    assert(1 * pow10(n as nat) == pow10(n as nat));
    carry == 1
}

/// Whether all digits are zero.
fn is_zero(v: &Vec<u8>) -> (r: bool)
    requires
        digits(v@),
    ensures
        r == (value(v@) == 0),
{
    proof {
        lemma_value_bound(v@);
    }
    let mut i: usize = 0;
    while i < v.len()
        invariant
            i <= v.len(),
            forall|k: int| 0 <= k < i ==> v@[k] == 0,
            (forall|i: int| 0 <= i < v@.len() ==> v@[i] == 0) <==> value(v@) == 0,
        decreases v.len() - i,
    {
        if v[i] != 0 {
            return false;
        }
        i = i + 1;
    }
    true
}

/// The number before the point, if it is below 2^64.
fn integer_part(whole: &[char]) -> (r: Option<u128>)
    requires
        all_digits(whole@),
    ensures
        match r {
            Some(n) => n == number(whole@) && n < 0x1_0000_0000_0000_0000,
            None => number(whole@) >= 0x1_0000_0000_0000_0000,
        },
{
    let mut n: u128 = 0;
    let mut huge = false;
    let mut i: usize = 0;
    assert(whole@.take(0) =~= Seq::<char>::empty());
    while i < whole.len()
        invariant
            i <= whole.len(),
            all_digits(whole@),
            !huge ==> n == number(whole@.take(i as int)) && n < 0x1_0000_0000_0000_0000,
            huge ==> number(whole@.take(i as int)) >= 0x1_0000_0000_0000_0000,
        decreases whole.len() - i,
    {
        let c = whole[i];
        assert(is_digit(whole@[i as int]));
        assert(whole@.take(i + 1).drop_last() =~= whole@.take(i as int));
        if !huge {
            n = n * 10 + (c as u32 - 48) as u128;
            if n >= 0x1_0000_0000_0000_0000 {
                huge = true;
            }
        }
        i = i + 1;
    }
    assert(whole@.take(i as int) =~= whole@);
    if huge {
        None
    } else {
        Some(n)
    }
}

// ---- rounding ----------------------------------------------------------------------

proof fn lemma_nearest(n: nat, d: nat, q: nat, r: nat)
    requires
        d > 0,
        n == q * d + r,
        r < d,
    ensures
        nearest(n, d) == if 2 * r < d || (2 * r == d && q % 2 == 0) {
            q
        } else {
            q + 1
        },
{
    lemma_fundamental_div_mod_converse(n as int, d as int, q as int, r as int);
}

/// The integer nearest to `q` and a fraction, ties to even.
fn round(q: u128, frac: Vec<u8>) -> (m: u128)
    requires
        q < ABOVE,
        digits(frac@),
    ensures
        m == nearest(
            (q * pow10(frac@.len()) + value(frac@)) as nat,
            pow10(frac@.len()),
        ),
        m <= ABOVE,
{
    let ghost d = pow10(frac@.len());
    let ghost r = value(frac@);
    proof {
        lemma_value_bound(frac@);
        lemma_nearest((q * d + r) as nat, d, q as nat, r);
    }
    let mut twice = frac;
    let carried = double(&mut twice);
    proof {
        lemma_value_bound(twice@);
    }
    let exact = is_zero(&twice);
    if !carried || (exact && q % 2 == 0) {
        q
    } else {
        q + 1
    }
}

/// Caps a count.
fn cap(n: u128) -> (r: u64)
    ensures
        r == if n > u64::MAX {
            u64::MAX
        } else {
            n as u64
        },
{
    if n > u64::MAX as u128 {
        u64::MAX
    } else {
        n as u64
    }
}

/// A number of at least 53 bits before the point, times a unit.
fn large(whole: u128, frac: Vec<u8>, unit: u64, Ghost(n): Ghost<nat>) -> (r: u64)
    requires
        ABOVE <= whole < 0x1_0000_0000_0000_0000,
        0 < unit <= 0x4_0000_0000_0000,
        digits(frac@),
        n == whole * pow10(frac@.len()) + value(frac@),
    ensures
        r == byte_count(n, frac@.len(), unit as nat),
{
    let ghost d = pow10(frac@.len());
    let ghost f = value(frac@);
    proof {
        lemma_value_bound(frac@);
        lemma2_to64();
    }
    let mut q = whole;
    let mut half: u128 = 0;
    let mut w: u128 = 1;
    let ghost mut j: nat = 0;
    while q >= ABOVE
        invariant
            LEAST <= q < 0x1_0000_0000_0000_0000,
            w == pow2(j),
            j > 0 ==> w == 2 * half,
            j == 0 ==> w == 1 && q == whole,
            q * w <= whole < q * w + w,
            whole < 0x1_0000_0000_0000_0000,
            q >= ABOVE || j > 0,
        decreases q,
    {
        proof {
            lemma_pow2_unfold(j + 1);
            let h = q / 2;
            assert(h * (2 * w) <= whole < h * (2 * w) + 2 * w) by (nonlinear_arith)
                requires
                    q * w <= whole < q * w + w,
                    2 * h <= q <= 2 * h + 1,
                    w >= 1,
            ;
            assert(w <= 0x1000) by (nonlinear_arith)
                requires
                    q * w < 0x1_0000_0000_0000_0000,
                    q >= ABOVE,
                    ABOVE == 0x20_0000_0000_0000,
            ;
            j = j + 1;
        }
        q = q / 2;
        half = w;
        w = 2 * w;
    }
    proof {
        assert(w <= 0x1000) by (nonlinear_arith)
            requires
                q * w < 0x1_0000_0000_0000_0000,
                q >= LEAST,
                LEAST == 0x10_0000_0000_0000,
        ;
        assert(q * w <= 0x1_0000_0000_0000_0000);
    }
    let rest = whole - q * w;
    let exact = is_zero(&frac);
    let up = rest > half || (rest == half && (!exact || q % 2 == 1));
    let m = if up {
        q + 1
    } else {
        q
    };
    proof {
        let c = d * w as nat;
        let r = (rest * d + f) as nat;
        assert(n == q * c + r) by (nonlinear_arith)
            requires
                n == whole * d + f,
                whole == q * w + rest,
                c == d * w,
                r == rest * d + f,
        ;
        assert(r < c) by (nonlinear_arith)
            requires
                rest + 1 <= w,
                f < d,
                c == d * w,
                r == rest * d + f,
        ;
        assert(c > 0) by (nonlinear_arith)
            requires
                d > 0,
                w > 0,
                c == d * w,
        ;
        lemma_nearest(n, c, q as nat, r);
        if rest < half {
            assert(2 * r < c) by (nonlinear_arith)
                requires
                    rest + 1 <= half,
                    w == 2 * half,
                    f < d,
                    c == d * w,
                    r == rest * d + f,
            ;
        } else if rest > half {
            assert(2 * r > c) by (nonlinear_arith)
                requires
                    rest >= half + 1,
                    w == 2 * half,
                    d > 0,
                    c == d * w,
                    r == rest * d + f,
            ;
        } else {
            assert(2 * r == c + 2 * f) by (nonlinear_arith)
                requires
                    rest == half,
                    w == 2 * half,
                    c == d * w,
                    r == rest * d + f,
            ;
        }
        assert(LEAST * c <= n < ABOVE * c) by (nonlinear_arith)
            requires
                n == q * c + r,
                0 <= r < c,
                LEAST <= q,
                q + 1 <= ABOVE,
        ;
        assert(is_exponent(n, d, j as int));
        lemma_exponent_is(n, d, j as int);
        assert(n > 0) by (nonlinear_arith)
            requires
                n >= LEAST * c,
                c > 0,
                LEAST > 0,
        ;
        assert(m * w <= 0x20_0000_0000_0000 * 0x1000) by (nonlinear_arith)
            requires
                m <= 0x20_0000_0000_0000,
                w <= 0x1000,
        ;
        assert((m * w) * unit <= (0x20_0000_0000_0000 * 0x1000) * 0x4_0000_0000_0000)
            by (nonlinear_arith)
            requires
                m * w <= 0x20_0000_0000_0000 * 0x1000,
                unit <= 0x4_0000_0000_0000,
        ;
    }
    cap(m * w * unit as u128)
}

/// The bytes that `whole.frac` of a unit come to.
pub fn to_bytes(whole: &[char], frac: &[char], unit: u64) -> (r: u64)
    requires
        all_digits(whole@),
        all_digits(frac@),
        0 < unit <= 0x4_0000_0000_0000,
    ensures
        r == byte_count(number(whole@ + frac@), frac@.len(), unit as nat),
{
    let ghost n = number(whole@ + frac@);
    let ghost d = pow10(frac@.len());
    let mut fr = load(frac);
    proof {
        lemma_number_concat(whole@, frac@);
        lemma_value_bound(fr@);
    }
    let start = match integer_part(whole) {
        Some(x) => x,
        None => {
            proof {
                let i = number(whole@);
                assert(n >= 0x1_0000_0000_0000_0000 * d) by (nonlinear_arith)
                    requires
                        n >= i * d,
                        i >= 0x1_0000_0000_0000_0000,
                ;
                lemma_huge(n, d, unit as nat);
            }
            return u64::MAX;
        },
    };
    if start >= ABOVE {
        return large(start, fr, unit, Ghost(n));
    }
    let mut acc = start;
    let mut k: u32 = 0;
    let mut w: u128 = 1;
    proof {
        lemma2_to64();
        lemma2_to64_rest();
        lemma_pow2_adds(52, 52);
        assert(n * 1 == n);
    }
    while acc < LEAST && k < 104
        invariant
            acc < ABOVE,
            k <= 104,
            digits(fr@),
            fr@.len() == frac@.len(),
            d == pow10(frac@.len()),
            w == pow2(k as nat),
            w <= pow2(104),
            pow2(104) == 0x10_0000_0000_0000 * 0x10_0000_0000_0000,
            n * w == acc * d + value(fr@),
        decreases 104 - k,
    {
        let ghost f = value(fr@);
        let carried = double(&mut fr);
        let add: u128 = if carried {
            1
        } else {
            0
        };
        proof {
            lemma_pow2_unfold((k + 1) as nat);
            if k + 1 < 104 {
                lemma_pow2_strictly_increases((k + 1) as nat, 104);
            }
            let g = value(fr@);
            assert(n * (2 * w) == (2 * acc + add) * d + g) by (nonlinear_arith)
                requires
                    n * w == acc * d + f,
                    2 * f == g + add * d,
            ;
        }
        acc = 2 * acc + add;
        w = 2 * w;
        k = k + 1;
    }
    proof {
        lemma_value_bound(fr@);
    }
    if acc < LEAST {
        proof {
            let f = value(fr@);
            assert(n * w < LEAST * d) by (nonlinear_arith)
                requires
                    n * w == acc * d + f,
                    f < d,
                    acc + 1 <= LEAST,
            ;
            lemma_tiny(n, d, unit as nat, k as nat);
        }
        return 0;
    }
    let ghost f = value(fr@);
    let m = round(acc, fr);
    proof {
        assert(LEAST * d <= n * w < ABOVE * d) by (nonlinear_arith)
            requires
                n * w == acc * d + f,
                f < d,
                LEAST <= acc,
                acc + 1 <= ABOVE,
        ;
        if k == 0 {
            assert(d * pow2(0) == d);
            assert(n * w == n);
            assert(is_exponent(n, d, 0));
            lemma_exponent_is(n, d, 0);
            assert(m * 1 == m);
        } else {
            assert(is_exponent(n, d, -(k as int)));
            lemma_exponent_is(n, d, -(k as int));
        }
        assert(n > 0) by {
            if n == 0 {
                assert(n * w == 0) by (nonlinear_arith)
                    requires
                        n == 0,
                ;
                assert(LEAST * d > 0) by (nonlinear_arith)
                    requires
                        d > 0,
                        LEAST > 0,
                ;
            }
        }
        assert(m * unit <= 0x20_0000_0000_0000 * 0x4_0000_0000_0000) by (nonlinear_arith)
            requires
                m <= 0x20_0000_0000_0000,
                unit <= 0x4_0000_0000_0000,
        ;
        lemma_pow2_pos(k as nat);
    }
    cap(m * unit as u128 / w)
}

/// A whole number of units below 2^53 is not rounded.
pub proof fn whole_numbers_are_exact(n: nat, unit: nat)
    requires
        n < ABOVE,
        unit <= 0x4_0000_0000_0000,
    ensures
        product(n, pow10(0), unit) == n * unit,
        n * unit <= u64::MAX ==> byte_count(n, 0, unit) == n * unit,
{
    lemma2_to64();
    assert(pow10(0) == 1);
    if n == 0 {
        assert(n * unit == 0) by (nonlinear_arith)
            requires
                n == 0,
        ;
    } else if n >= LEAST {
        assert(is_exponent(n, 1, 0));
        lemma_exponent_is(n, 1, 0);
        lemma_nearest(n, 1, n, 0);
        assert(1 * pow2(0) == 1);
        assert(n * pow2(0) * unit == n * unit) by (nonlinear_arith)
            requires
                pow2(0) == 1,
        ;
    } else {
        assert(n * pow2(0) == n);
        let k = lemma_exponent_below(n, 1, 0);
        lemma_exponent_is(n, 1, -(k as int));
        let w = pow2(k);
        lemma_pow2_pos(k);
        lemma_nearest(n * w, 1, n * w, 0);
        assert(n * w * unit == (n * unit) * w) by (nonlinear_arith);
        lemma_fundamental_div_mod_converse(
            (n * w * unit) as int,
            w as int,
            (n * unit) as int,
            0,
        );
    }
}

/// A rounded quotient is as near to the true one as an integer can be, and of two that
/// are equally near it is the even one.
pub proof fn rounding_is_to_the_nearest(n: nat, d: nat)
    requires
        d > 0,
    ensures
        ({
            let m = nearest(n, d);
            &&& 2 * (n - m * d) <= d
            &&& 2 * (m * d - n) <= d
            &&& 2 * (n - m * d) == d || 2 * (m * d - n) == d ==> m % 2 == 0
        }),
{
    let q = n / d;
    let r = n % d;
    lemma_fundamental_div_mod(n as int, d as int);
    assert(q * d == d * q) by (nonlinear_arith);
    assert((q + 1) * d == q * d + d) by (nonlinear_arith);
}

proof fn lemma_nearest_scaled(n: nat, d: nat, c: nat)
    requires
        d > 0,
        c > 0,
    ensures
        nearest(c * n, c * d) == nearest(n, d),
{
    let q = n / d;
    let r = n % d;
    lemma_fundamental_div_mod(n as int, d as int);
    assert(c * n == q * (c * d) + c * r) by (nonlinear_arith)
        requires
            n == d * q + r,
    ;
    assert(c * r < c * d) by (nonlinear_arith)
        requires
            r < d,
            c > 0,
    ;
    assert(c * d > 0) by (nonlinear_arith)
        requires
            d > 0,
            c > 0,
    ;
    lemma_nearest(c * n, c * d, q, c * r);
    assert((2 * (c * r) < c * d) == (2 * r < d)) by (nonlinear_arith)
        requires
            c > 0,
    ;
    assert((2 * (c * r) == c * d) == (2 * r == d)) by (nonlinear_arith)
        requires
            c > 0,
    ;
}

proof fn lemma_has_exponent(n: nat, d: nat) -> (e: int)
    requires
        n > 0,
        d > 0,
    ensures
        is_exponent(n, d, e),
{
    lemma2_to64();
    assert(d * pow2(0) == d && n * pow2(0) == n);
    if n >= LEAST * d {
        let e = lemma_exponent_above(n, d, 0);
        e as int
    } else {
        let k = lemma_exponent_below(n, d, 0);
        -(k as int)
    }
}

/// A number stands for the same however it is written: a fraction that is extended
/// comes to the same size.
pub proof fn extending_the_fraction_changes_nothing(n: nat, d: nat, c: nat, unit: nat)
    requires
        d > 0,
        c > 0,
    ensures
        product(c * n, c * d, unit) == product(n, d, unit),
{
    assert(c * d > 0) by (nonlinear_arith)
        requires
            d > 0,
            c > 0,
    ;
    if n > 0 {
        assert(c * n > 0) by (nonlinear_arith)
            requires
                n > 0,
                c > 0,
        ;
        let e = lemma_has_exponent(n, d);
        lemma_exponent_is(n, d, e);
        if e >= 0 {
            let w = pow2(e as nat);
            lemma_pow2_pos(e as nat);
            assert(d * w > 0) by (nonlinear_arith)
                requires
                    d > 0,
                    w > 0,
            ;
            assert((c * d) * w == c * (d * w)) by (nonlinear_arith);
            assert(LEAST * (c * (d * w)) <= c * n) by (nonlinear_arith)
                requires
                    LEAST * (d * w) <= n,
            ;
            assert(c * n < ABOVE * (c * (d * w))) by (nonlinear_arith)
                requires
                    n < ABOVE * (d * w),
                    c > 0,
            ;
            lemma_exponent_is(c * n, c * d, e);
            lemma_nearest_scaled(n, d * w, c);
        } else {
            let w = pow2((-e) as nat);
            assert((c * n) * w == c * (n * w)) by (nonlinear_arith);
            assert(LEAST * (c * d) <= c * (n * w)) by (nonlinear_arith)
                requires
                    LEAST * d <= n * w,
            ;
            assert(c * (n * w) < ABOVE * (c * d)) by (nonlinear_arith)
                requires
                    n * w < ABOVE * d,
                    c > 0,
            ;
            lemma_exponent_is(c * n, c * d, e);
            lemma_nearest_scaled(n * w, d, c);
        }
    } else {
        assert(c * n == 0) by (nonlinear_arith)
            requires
                n == 0,
        ;
    }
}

/// A zero behind the fraction changes nothing.
pub proof fn trailing_zero_changes_nothing(n: nat, f: nat, unit: nat)
    ensures
        byte_count(10 * n, f + 1, unit) == byte_count(n, f, unit),
{
    lemma_pow10_pos(f);
    assert(pow10(f + 1) == 10 * pow10(f));
    extending_the_fraction_changes_nothing(n, pow10(f), 10, unit);
}

proof fn lemma_pow10_pos(n: nat)
    ensures
        pow10(n) > 0,
    decreases n,
{
    if n > 0 {
        lemma_pow10_pos((n - 1) as nat);
    }
}

} // verus!
