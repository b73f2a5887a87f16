//! Doubles as the 64 bits they travel in. A price comes in as a double and
//! is kept as a price key; price keys and cash go out as doubles. Both ways
//! are worked out on the bits, in whole numbers, with the rounding that
//! IEEE 754 prescribes: to the nearest double, and to the even one of two
//! that are equally near.
use vstd::prelude::*;
use vstd::arithmetic::div_mod::{lemma_div_denominator, lemma_fundamental_div_mod_converse};

verus! {

/// 2^52: the hidden bit of a double's significand.
pub const TWO_52: u64 = 0x10_0000_0000_0000;

/// 2^53: one more than the largest significand.
pub const TWO_53: u64 = 0x20_0000_0000_0000;

/// 2^63: where the sign bit stands.
pub const TWO_63: u64 = 0x8000_0000_0000_0000;

/// 2 to the power `k`.
pub open spec fn two_to(k: nat) -> int
    decreases k,
{
    if k == 0 {
        1
    } else {
        2 * two_to((k - 1) as nat)
    }
}

/// `n` halved `k` times, each time rounding down.
pub open spec fn halved(n: int, k: nat) -> int
    decreases k,
{
    if k == 0 {
        n
    } else {
        halved(n, (k - 1) as nat) / 2
    }
}

/// How many bits `n` has beyond 53: how often it must be halved to come
/// below 2^53.
pub open spec fn excess(n: int) -> nat
    decreases n,
{
    if n < TWO_53 {
        0
    } else {
        1 + excess(n / 2)
    }
}

/// `n / d` rounded to the nearest whole number, and to the even one of two
/// that are equally near.
pub open spec fn round_even(n: int, d: int) -> int {
    let q = n / d;
    let r = n % d;
    if 2 * r > d || (2 * r == d && q % 2 == 1) {
        q + 1
    } else {
        q
    }
}

/// The significand of the double nearest to `n`; the double is this times
/// 2 to the power `excess(n)`.
pub open spec fn nearest(n: int) -> int {
    round_even(n, two_to(excess(n)))
}

/// Powers of two are positive.
pub proof fn lemma_two_to_positive(k: nat)
    ensures
        two_to(k) >= 1,
    decreases k,
{
    if k > 0 {
        lemma_two_to_positive((k - 1) as nat);
    }
}

/// Exponents add where powers of two multiply.
pub proof fn lemma_two_to_adds(k: nat, l: nat)
    ensures
        two_to(k + l) == two_to(k) * two_to(l),
    decreases l,
{
    if l > 0 {
        lemma_two_to_adds(k, (l - 1) as nat);
        assert(two_to(k + l) == 2 * two_to((k + l - 1) as nat));
        assert(2 * (two_to(k) * two_to((l - 1) as nat)) == two_to(k) * (2 * two_to((l - 1) as nat)))
            by (nonlinear_arith);
    } else {
        assert(two_to(k) * 1 == two_to(k));
    }
}

/// Powers of two grow with the exponent.
pub proof fn lemma_two_to_grows(k: nat, l: nat)
    requires
        k <= l,
    ensures
        two_to(k) <= two_to(l),
{
    lemma_two_to_adds(k, (l - k) as nat);
    lemma_two_to_positive(k);
    lemma_two_to_positive((l - k) as nat);
    assert(two_to(k) <= two_to(k) * two_to((l - k) as nat)) by (nonlinear_arith)
        requires
            two_to(k) >= 1,
            two_to((l - k) as nat) >= 1,
    ;
}

/// Some powers of two by their numbers.
pub proof fn lemma_two_to_values()
    ensures
        two_to(8) == 0x100,
        two_to(16) == 0x1_0000,
        two_to(32) == 0x1_0000_0000,
        two_to(64) == 0x1_0000_0000_0000_0000,
        two_to(75) == 0x800_0000_0000_0000_0000,
{
    reveal_with_fuel(two_to, 12);
    assert(two_to(8) == 0x100);
    assert(two_to(11) == 0x800);
    lemma_two_to_adds(8, 8);
    assert(two_to(16) == two_to(8) * two_to(8));
    lemma_two_to_adds(16, 16);
    assert(two_to(32) == two_to(16) * two_to(16));
    lemma_two_to_adds(32, 32);
    assert(two_to(64) == two_to(32) * two_to(32));
    lemma_two_to_adds(64, 11);
    assert(two_to(75) == two_to(64) * two_to(11));
}

/// `n / d` to the nearest, ties to the even.
pub fn divide_round_even(n: u128, d: u128) -> (r: u128)
    requires
        d > 0,
        d <= 0x4000_0000_0000_0000_0000_0000_0000_0000,
        n < u128::MAX,
    ensures
        r == round_even(n as int, d as int),
{
    let q = n / d;
    let rest = n % d;
    if rest > d - rest || (rest == d - rest && q % 2 == 1) {
        q + 1
    } else {
        q
    }
}

/// Rounds `n` to the nearest double: its significand, and the power of two
/// that the significand is to be multiplied by.
pub fn round_to_double(n: u128) -> (r: (u64, u32))
    ensures
        r.0 == nearest(n as int),
        r.1 == excess(n as int),
        r.0 <= TWO_53,
        r.1 <= 75,
        n < TWO_53 ==> r.0 == n && r.1 == 0,
        n >= TWO_52 ==> r.0 >= TWO_52,
        (n as int) / two_to(r.1 as nat) < TWO_53,
        n >= TWO_52 ==> (n as int) / two_to(r.1 as nat) >= TWO_52,
{
    let mut cur: u128 = n;
    let mut d: u128 = 1;
    let mut s: u32 = 0;
    while cur >= 0x20_0000_0000_0000
        invariant
            d == two_to(s as nat),
            cur * d <= n < (cur + 1) * d,
            excess(n as int) == s + excess(cur as int),
            n >= TWO_52 ==> cur >= TWO_52,
            d >= 1,
            s <= 75,
        decreases cur,
    {
        proof {
            lemma_two_to_values();
            if s >= 75 {
                lemma_two_to_grows(75, s as nat);
            }
            let half = (cur / 2) as int;
            let c = cur as int;
            let dd = d as int;
            assert(half * (2 * dd) <= c * dd && (c + 1) * dd <= (half + 1) * (2 * dd)) by (nonlinear_arith)
                requires
                    2 * half <= c <= 2 * half + 1,
                    dd >= 1,
            ;
            assert(c * dd >= 0x20_0000_0000_0000 * dd) by (nonlinear_arith)
                requires
                    c >= 0x20_0000_0000_0000,
                    dd >= 1,
            ;
        }
        cur = cur / 2;
        d = d * 2;
        s = s + 1;
    }
    proof {
        assert(cur * d >= 0 && (cur + 1) * d == cur * d + d) by (nonlinear_arith)
            requires
                cur >= 0,
                d >= 1,
        ;
        lemma_fundamental_div_mod_converse(n as int, d as int, cur as int, n - cur * d);
    }
    let q = cur;
    let rest = n - cur * d;
    let up = rest > d - rest || (rest == d - rest && q % 2 == 1);
    let sig = if up {
        q + 1
    } else {
        q
    };
    (sig as u64, s)
}

/// The exponent field of a double.
pub open spec fn exponent_field(bits: u64) -> int {
    (bits / TWO_52 % 0x800) as int
}

/// The fraction field of a double.
pub open spec fn fraction_field(bits: u64) -> int {
    (bits % TWO_52) as int
}

/// A finite double is its significand times 2 to the power of its scale,
/// with its sign. This is the significand.
pub open spec fn significand(bits: u64) -> int {
    if exponent_field(bits) == 0 {
        fraction_field(bits)
    } else {
        fraction_field(bits) + TWO_52
    }
}

/// The scale of a finite double.
pub open spec fn scale(bits: u64) -> int {
    (if exponent_field(bits) == 0 { 1 } else { exponent_field(bits) }) - 1075
}

/// Whether the double is not a number: the exponent field is all ones and
/// the fraction field is not zero.
pub open spec fn bits_nan(bits: u64) -> bool {
    exponent_field(bits) == 0x7ff && fraction_field(bits) != 0
}

/// Whether the double has its sign bit set.
pub open spec fn bits_negative(bits: u64) -> bool {
    bits >= TWO_63
}

pub fn is_nan(bits: u64) -> (r: bool)
    ensures
        r == bits_nan(bits),
{
    bits / TWO_52 % 0x800 == 0x7ff && bits % TWO_52 != 0
}

pub fn is_sign_negative(bits: u64) -> (r: bool)
    ensures
        r == bits_negative(bits),
{
    bits >= TWO_63
}

/// `n` times 2 to the power `shift`, rounded down to a whole number.
pub open spec fn scaled(n: int, shift: int) -> int {
    if shift >= 0 {
        n * two_to(shift as nat)
    } else {
        halved(n, (-shift) as nat)
    }
}

/// A size brought down to 2^63 if it is beyond.
pub open spec fn capped(whole: int) -> int {
    if whole >= TWO_63 {
        TWO_63 as int
    } else {
        whole
    }
}

/// The size of a double times 1000, as a double and then rounded down to a
/// whole number; 2^63 stands for that and everything beyond.
pub open spec fn key_size(bits: u64) -> int {
    if exponent_field(bits) == 0x7ff {
        TWO_63 as int
    } else {
        let n = 1000 * significand(bits);
        capped(scaled(nearest(n), scale(bits) + excess(n)))
    }
}

/// The price key of a price: the double times 1000, rounded as a double
/// and then toward zero to a whole number that fits. What is not a number
/// has the key 0.
pub open spec fn key_of(bits: u64) -> i64 {
    if bits_nan(bits) {
        0
    } else if bits_negative(bits) {
        (-key_size(bits)) as i64
    } else if key_size(bits) >= TWO_63 {
        i64::MAX
    } else {
        key_size(bits) as i64
    }
}

/// Nothing halved stays nothing.
pub proof fn lemma_halved_nothing(n: int, i: nat, k: nat)
    requires
        i <= k,
        halved(n, i) == 0,
    ensures
        halved(n, k) == 0,
    decreases k,
{
    if k > i {
        lemma_halved_nothing(n, i, (k - 1) as nat);
    }
}

/// `sig` times 2 to the power `shift`, rounded down and capped at 2^63.
pub fn scale_whole(sig: u64, shift: i64) -> (whole: u64)
    requires
        sig <= TWO_53,
    ensures
        whole == capped(scaled(sig as int, shift as int)),
{
    let mut v: u64 = sig;
    if shift >= 0 {
        let mut i: i64 = 0;
        while i < shift && v < TWO_63
            invariant
                0 <= i <= shift,
                v == sig * two_to(i as nat),
            decreases shift - i,
        {
            v = v * 2;
            i = i + 1;
            assert(sig * (2 * two_to((i - 1) as nat)) == 2 * (sig * two_to((i - 1) as nat))) by (nonlinear_arith);
        }
        proof {
            lemma_two_to_grows(i as nat, shift as nat);
            assert(sig * two_to(i as nat) <= sig * two_to(shift as nat)) by (nonlinear_arith)
                requires
                    two_to(i as nat) <= two_to(shift as nat),
                    sig >= 0,
            ;
        }
        if v >= TWO_63 {
            TWO_63
        } else {
            v
        }
    } else {
        let mut i: i64 = 0;
        while i > shift && v > 0
            invariant
                shift <= i <= 0,
                v <= sig,
                v == halved(sig as int, (-i) as nat),
            decreases i - shift,
        {
            v = v / 2;
            i = i - 1;
        }
        proof {
            if v == 0 {
                lemma_halved_nothing(sig as int, (-i) as nat, (-shift) as nat);
            }
        }
        v
    }
}

/// The price key of the price that these 64 bits are as a double.
pub fn price_key(bits: u64) -> (key: i64)
    ensures
        key == key_of(bits),
{
    let field = bits / TWO_52 % 0x800;
    let fraction = bits % TWO_52;
    let negative = is_sign_negative(bits);
    if is_nan(bits) {
        return 0;
    }
    let size: u64 = if field == 0x7ff {
        TWO_63
    } else {
        let m: u64 = if field == 0 {
            fraction
        } else {
            fraction + TWO_52
        };
        let low: i64 = if field == 0 {
            1
        } else {
            field as i64
        };
        let n: u128 = 1000 * (m as u128);
        let r = round_to_double(n);
        scale_whole(r.0, low - 1075 + (r.1 as i64))
    };
    if negative {
        if size >= TWO_63 {
            i64::MIN
        } else {
            -(size as i64)
        }
    } else {
        if size >= TWO_63 {
            i64::MAX
        } else {
            size as i64
        }
    }
}

/// 2 to the power `k`.
pub fn power_of_two(k: u32) -> (p: u128)
    requires
        k <= 75,
    ensures
        p == two_to(k as nat),
        1 <= p <= 0x800_0000_0000_0000_0000,
{
    let mut p: u128 = 1;
    let mut i: u32 = 0;
    while i < k
        invariant
            i <= k <= 75,
            p == two_to(i as nat),
            1 <= p <= 0x800_0000_0000_0000_0000,
        decreases k - i,
    {
        proof {
            lemma_two_to_values();
            lemma_two_to_grows((i + 1) as nat, 75);
        }
        p = p * 2;
        i = i + 1;
    }
    p
}

/// The double for an amount in thousandths: the amount as the nearest
/// double, divided by 1000, as the nearest double again. These are its bits.
pub open spec fn bits_of(thousandths: int) -> u64 {
    if thousandths == 0 {
        0
    } else {
        let size = if thousandths < 0 { -thousandths } else { thousandths };
        let big = nearest(size) * TWO_63;
        let s = excess(big / 1000);
        let r = round_even(big, 1000 * two_to(s));
        let carry: int = if r == TWO_53 { 1 } else { 0 };
        let sig = if r == TWO_53 { TWO_52 as int } else { r };
        let field = excess(size) + s + carry + 1012;
        let sign = if thousandths < 0 { TWO_63 as int } else { 0 };
        (sign + field * TWO_52 + (sig - TWO_52)) as u64
    }
}

/// The bits of the double for an amount in thousandths.
pub fn thousandths_bits(thousandths: i128) -> (bits: u64)
    ensures
        bits == bits_of(thousandths as int),
{
    if thousandths == 0 {
        return 0;
    }
    let size: u128 = if thousandths >= 0 {
        thousandths as u128
    } else if thousandths == i128::MIN {
        0x8000_0000_0000_0000_0000_0000_0000_0000u128
    } else {
        (-thousandths) as u128
    };
    let first = round_to_double(size);
    let big: u128 = (first.0 as u128) * 0x8000_0000_0000_0000u128;
    let q = big / 1000;
    let second = round_to_double(q);
    let s = second.1;
    let d = 1000 * power_of_two(s);
    proof {
        lemma_two_to_positive(s as nat);
        lemma_div_denominator(big as int, 1000, two_to(s as nat));
    }
    let r = divide_round_even(big, d);
    let carry = r == 0x20_0000_0000_0000;
    let sig: u64 = if carry {
        TWO_52
    } else {
        r as u64
    };
    let field: u64 = (first.1 as u64) + (s as u64) + (if carry { 1 } else { 0 }) + 1012;
    let sign: u64 = if thousandths < 0 {
        TWO_63
    } else {
        0
    };
    sign + field * TWO_52 + (sig - TWO_52)
}

/// The bits of the double for a price key: the price in whole units.
pub fn price_bits(key: i64) -> (bits: u64)
    ensures
        bits == bits_of(key as int),
{
    thousandths_bits(key as i128)
}

/// Whether `n` times 2 to the power `scale` is more than `b`, or, if not
/// `strictly`, at least `b`.
pub open spec fn outweighs(n: int, scale: int, b: int, strictly: bool) -> bool {
    if scale >= 0 {
        if strictly {
            n * two_to(scale as nat) > b
        } else {
            n * two_to(scale as nat) >= b
        }
    } else {
        if strictly {
            n > b * two_to((-scale) as nat)
        } else {
            n >= b * two_to((-scale) as nat)
        }
    }
}

/// Whether `amount` units at this price cost more than `money`
/// thousandths. The cost is the product of the price and the quantity as
/// doubles multiply: the quantity as the nearest double, and the product of
/// the two as the nearest double. An infinite price costs more than anything
/// unless nothing is bought; what is not a number costs more than nothing.
pub open spec fn costs_more(bits: u64, amount: i64, money: int) -> bool {
    let n = significand(bits) * nearest(amount as int);
    let by = scale(bits) + excess(amount as int) + excess(n);
    if exponent_field(bits) == 0x7ff {
        !bits_nan(bits) && !bits_negative(bits) && amount > 0
    } else if !bits_negative(bits) {
        outweighs(1000 * nearest(n), by, money, true)
    } else {
        !outweighs(1000 * nearest(n), by, -money, false)
    }
}

/// Powers of two grow strictly with the exponent.
pub proof fn lemma_two_to_doubles(k: nat, l: nat)
    requires
        k < l,
    ensures
        2 * two_to(k) <= two_to(l),
{
    lemma_two_to_grows(k + 1, l);
}

/// Whether `n` times 2 to the power `scale` outweighs `b`.
pub fn weigh(n: u128, scale: i64, b: u128, strictly: bool) -> (more: bool)
    requires
        n < 0x4000_0000_0000_0000_0000_0000_0000_0000,
        b <= 0x8000_0000_0000_0000_0000_0000_0000_0000,
    ensures
        more == outweighs(n as int, scale as int, b as int, strictly),
{
    if scale >= 0 {
        let mut v: u128 = n;
        let mut i: i64 = 0;
        while i < scale && v < b
            invariant
                0 <= i <= scale,
                v == n * two_to(i as nat),
                b <= 0x8000_0000_0000_0000_0000_0000_0000_0000,
            decreases scale - i,
        {
            v = v * 2;
            i = i + 1;
            assert(n * (2 * two_to((i - 1) as nat)) == 2 * (n * two_to((i - 1) as nat))) by (nonlinear_arith);
        }
        if i == scale {
            if strictly {
                v > b
            } else {
                v >= b
            }
        } else {
            proof {
                lemma_two_to_doubles(i as nat, scale as nat);
                lemma_two_to_positive(i as nat);
                assert(n * two_to(scale as nat) >= 2 * (n * two_to(i as nat))) by (nonlinear_arith)
                    requires
                        two_to(scale as nat) >= 2 * two_to(i as nat),
                        n >= 0,
                ;
                assert(n == 0 ==> n * two_to(scale as nat) == 0) by (nonlinear_arith);
                assert(n > 0 ==> n * two_to(i as nat) > 0) by (nonlinear_arith)
                    requires
                        two_to(i as nat) >= 1,
                ;
            }
            !strictly || v > 0
        }
    } else {
        let mut w: u128 = b;
        let mut i: i64 = 0;
        while i > scale && w < n
            invariant
                scale <= i <= 0,
                w == b * two_to((-i) as nat),
                n < 0x4000_0000_0000_0000_0000_0000_0000_0000,
            decreases i - scale,
        {
            w = w * 2;
            i = i - 1;
            assert(b * (2 * two_to((-i - 1) as nat)) == 2 * (b * two_to((-i - 1) as nat))) by (nonlinear_arith);
        }
        if i == scale {
            if strictly {
                n > w
            } else {
                n >= w
            }
        } else {
            proof {
                lemma_two_to_doubles((-i) as nat, (-scale) as nat);
                lemma_two_to_positive((-i) as nat);
                assert(b * two_to((-scale) as nat) >= 2 * (b * two_to((-i) as nat))) by (nonlinear_arith)
                    requires
                        two_to((-scale) as nat) >= 2 * two_to((-i) as nat),
                        b >= 0,
                ;
                assert(b == 0 ==> b * two_to((-scale) as nat) == 0) by (nonlinear_arith);
                assert(b > 0 ==> b * two_to((-i) as nat) > 0) by (nonlinear_arith)
                    requires
                        two_to((-i) as nat) >= 1,
                ;
            }
            !strictly && w == 0
        }
    }
}

/// Whether `amount` units at the price that these bits are as a double cost
/// more than `money` thousandths.
pub fn cost_exceeds(bits: u64, amount: i64, money: i128) -> (more: bool)
    requires
        amount >= 0,
    ensures
        more == costs_more(bits, amount, money as int),
{
    let field = bits / TWO_52 % 0x800;
    let fraction = bits % TWO_52;
    let negative = bits >= TWO_63;
    if field == 0x7ff {
        return fraction == 0 && !negative && amount > 0;
    }
    let m: u64 = if field == 0 {
        fraction
    } else {
        fraction + TWO_52
    };
    let low: i64 = if field == 0 {
        1
    } else {
        field as i64
    };
    let units = round_to_double(amount as u128);
    proof {
        assert(0 <= m * units.0 < 0x4000_0000_0000_0000_0000_0000_0000) by (nonlinear_arith)
            requires
                0 <= m < 0x20_0000_0000_0000,
                0 <= units.0 <= 0x20_0000_0000_0000,
        ;
    }
    let product = round_to_double((m as u128) * (units.0 as u128));
    let n: u128 = 1000 * (product.0 as u128);
    let scale = low - 1075 + (units.1 as i64) + (product.1 as i64);
    proof {
        if scale >= 0 {
            lemma_two_to_positive(scale as nat);
            assert(n * two_to(scale as nat) >= 0) by (nonlinear_arith)
                requires
                    n >= 0,
                    two_to(scale as nat) >= 1,
            ;
        } else {
            lemma_two_to_positive((-scale) as nat);
            assert(forall|c: int| c < 0 ==> #[trigger] (c * two_to((-scale) as nat)) < 0) by (nonlinear_arith)
                requires
                    two_to((-scale) as nat) >= 1,
            ;
        }
    }
    if !negative {
        if money < 0 {
            true
        } else {
            weigh(n, scale, money as u128, true)
        }
    } else {
        if money > 0 {
            false
        } else if money == i128::MIN {
            !weigh(n, scale, 0x8000_0000_0000_0000_0000_0000_0000_0000u128, false)
        } else {
            !weigh(n, scale, (-money) as u128, false)
        }
    }
}

/// Halving leaves what is not negative not negative.
pub proof fn lemma_halved_positive(n: int, k: nat)
    requires
        n >= 0,
    ensures
        halved(n, k) >= 0,
    decreases k,
{
    if k > 0 {
        lemma_halved_positive(n, (k - 1) as nat);
    }
}

/// A price without the sign bit has a price key that is not negative, and a
/// price with it has one that is not positive.
pub proof fn lemma_key_sign(bits: u64)
    ensures
        !bits_negative(bits) ==> key_of(bits) >= 0,
        bits_negative(bits) ==> key_of(bits) <= 0,
{
    if exponent_field(bits) != 0x7ff {
        let n = 1000 * significand(bits);
        let shift = scale(bits) + excess(n);
        let d = two_to(excess(n));
        lemma_two_to_positive(excess(n));
        assert(n / d >= 0) by (nonlinear_arith)
            requires
                n >= 0,
                d >= 1,
        ;
        if shift >= 0 {
            lemma_two_to_positive(shift as nat);
            assert(nearest(n) * two_to(shift as nat) >= 0) by (nonlinear_arith)
                requires
                    nearest(n) >= 0,
                    two_to(shift as nat) >= 1,
            ;
        } else {
            lemma_halved_positive(nearest(n), (-shift) as nat);
        }
    }
}

} // verus!
