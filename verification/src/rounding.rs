//! Sizes and shares rounded as double-precision arithmetic rounds them, in integers.
//!
//! A double holds 53 significant bits. Turning an integer into a double, dividing and multiplying
//! each round to the nearest number with that many bits; of two that are equally near, the one
//! with an even last bit is taken. Printing with a fixed number of decimals rounds in the same
//! way.
use vstd::prelude::*;

verus! {

/// `n / d` rounded to the nearest integer, and to the even one of two that are equally near.
pub open spec fn half_even(n: nat, d: nat) -> nat {
    let q = n / d;
    let r = n % d;
    if 2 * r < d || (2 * r == d && q % 2 == 0) {
        q
    } else {
        q + 1
    }
}

/// What the last of the 53 significant bits of `n` stands for.
pub open spec fn last_bit(n: nat) -> nat
    decreases n,
{
    if n < 0x20_0000_0000_0000 {
        1
    } else {
        2 * last_bit(n / 2)
    }
}

/// `n` rounded to 53 significant bits.
pub open spec fn to_double(n: nat) -> nat {
    half_even(n, last_bit(n)) * last_bit(n)
}

/// The power of two that `n / d` is multiplied with to have 53 bits before the point.
pub open spec fn scaling(n: nat, d: nat) -> nat
    decreases
        (if n >= d * 0x10_0000_0000_0000 {
            0
        } else {
            d * 0x10_0000_0000_0000 - n
        }),
{
    if n == 0 || n >= d * 0x10_0000_0000_0000 {
        1
    } else {
        2 * scaling(2 * n, d)
    }
}

/// `bytes / 2^30`, in hundredths, of `bytes` as a double.
pub open spec fn hundredths_of_gib(bytes: nat) -> nat {
    half_even(100 * to_double(bytes), 0x4000_0000)
}

/// How many percent of `total` are `used`, both taken as doubles: their quotient is a double, its
/// hundredfold is another, and that is rounded to an integer of at most 999.
pub open spec fn percent(used: nat, total: nat) -> nat {
    let u = to_double(used);
    let t = to_double(total);
    if u >= 10 * t {
        999
    } else {
        let scale = scaling(u, t);
        let quotient = half_even(u * scale, t);
        let hundredfold = to_double(100 * quotient);
        let rounded = half_even(hundredfold, scale);
        if rounded > 999 {
            999
        } else {
            rounded
        }
    }
}

fn round_half_even(n: u128, d: u128) -> (rounded: u128)
    requires
        d > 0,
    ensures
        rounded == half_even(n as nat, d as nat),
        rounded <= n / d + 1,
{
    let q: u128 = n / d;
    let r: u128 = n % d;
    if r < d - r || (r == d - r && q % 2 == 0) {
        q
    } else {
        assert(d >= 2);
        assert(q < u128::MAX) by (nonlinear_arith)
            requires
                d >= 2,
                q == n / d,
                n <= u128::MAX,
        ;
        q + 1
    }
}

fn last_bit_of(n: u128) -> (bit: u128)
    ensures
        bit == last_bit(n as nat),
        1 <= bit,
        bit <= n || bit == 1,
    decreases n,
{
    if n < 0x20_0000_0000_0000 {
        1
    } else {
        2 * last_bit_of(n / 2)
    }
}

fn as_double(n: u128) -> (rounded: u128)
    requires
        n < 0x1_0000_0000_0000_0000_0000_0000,
    ensures
        rounded == to_double(n as nat),
        rounded <= 2 * n,
{
    let bit: u128 = last_bit_of(n);
    let count: u128 = round_half_even(n, bit);
    proof {
        if bit == 1 {
            assert((n as nat) % 1 == 0);
            assert((n as nat) / 1 == n);
        }
        assert(count * bit <= n + bit) by (nonlinear_arith)
            requires
                count <= n / bit + 1,
                bit >= 1,
        ;
        assert(bit == 1 ==> count * bit == n) by (nonlinear_arith)
            requires
                bit == 1 ==> count == n,
        ;
    }
    count * bit
}

/// `bytes / 2^30`, in hundredths.
pub fn gib_hundredths(bytes: u64) -> (hundredths: u64)
    ensures
        hundredths == hundredths_of_gib(bytes as nat),
{
    let double: u128 = as_double(bytes as u128);
    let hundredths: u128 = round_half_even(100 * double, 0x4000_0000);
    hundredths as u64
}

/// How many percent of `total` are `used`.
pub fn percent_of(used: u64, total: u64) -> (share: u64)
    requires
        total > 0,
    ensures
        share == percent(used as nat, total as nat),
        share <= 999,
{
    let u: u128 = as_double(used as u128);
    let t: u128 = as_double(total as u128);
    if u >= 10 * t {
        return 999;
    }
    let target: u128 = t * 0x10_0000_0000_0000;
    let mut scaled: u128 = u;
    let mut scale: u128 = 1;
    assert(u * 1 == u);
    assert(scale * scaling(scaled as nat, t as nat) == scaling(u as nat, t as nat))
        by (nonlinear_arith)
        requires
            scale == 1,
            scaled == u,
    ;
    while scaled != 0 && scaled < target
        invariant
            t <= 0x2_0000_0000_0000_0000,
            target == t * 0x10_0000_0000_0000,
            u < 10 * t,
            scaled == u * scale,
            1 <= scale,
            scale <= scaled || scaled == 0,
            scaled == 0 <==> u == 0,
            scaled < 2 * target || scaled < 10 * t,
            scale * scaling(scaled as nat, t as nat) == scaling(u as nat, t as nat),
        decreases
            (if scaled >= target {
                0
            } else {
                target - scaled
            }),
    {
        proof {
            let rest = scaling((2 * scaled) as nat, t as nat) as int;
            assert((2 * scale) * rest == scale * (2 * rest)) by (nonlinear_arith);
            assert(2 * (u * scale) == u * (2 * scale)) by (nonlinear_arith);
        }
        scaled = 2 * scaled;
        scale = 2 * scale;
    }
    proof {
        assert(scaling(scaled as nat, t as nat) == 1);
        assert(scale * 1 == scale);
        assert(scaled / t <= 0x20_0000_0000_0000) by (nonlinear_arith)
            requires
                t > 0,
                scaled < 2 * target || scaled < 10 * t,
                target == t * 0x10_0000_0000_0000,
        ;
    }
    let quotient: u128 = round_half_even(scaled, t);
    let hundredfold: u128 = as_double(100 * quotient);
    let rounded: u128 = round_half_even(hundredfold, scale);
    if rounded > 999 {
        999
    } else {
        rounded as u64
    }
}

// ---------------------------------------------------------------------------
// Laws
// ---------------------------------------------------------------------------

/// A rounded quotient is no further from the exact one than a half; exactly a half away, it is
/// even.
pub proof fn law_nearest(n: nat, d: nat)
    requires
        d > 0,
    ensures
        2 * (half_even(n, d) * d) <= 2 * n + d,
        2 * n <= 2 * (half_even(n, d) * d) + d,
        2 * (half_even(n, d) * d) == 2 * n + d || 2 * n == 2 * (half_even(n, d) * d) + d
            ==> half_even(n, d) % 2 == 0,
{
    let q = n / d;
    let r = n % d;
    vstd::arithmetic::div_mod::lemma_fundamental_div_mod(n as int, d as int);
    vstd::arithmetic::div_mod::lemma_mod_bound(n as int, d as int);
    assert(d * q == q * d) by (nonlinear_arith);
    assert((q + 1) * d == q * d + d) by (nonlinear_arith);
}

/// A number of up to 53 bits is exact as a double. Of a longer one, the first 53 bits stay: it is
/// rounded to a multiple of what the last of them stands for, by no more than a half of that.
pub proof fn law_doubles_are_nearest(n: nat)
    ensures
        n < 0x20_0000_0000_0000 ==> to_double(n) == n,
        1 <= last_bit(n),
        n < 0x20_0000_0000_0000 * last_bit(n),
        n >= 0x20_0000_0000_0000 ==> 0x10_0000_0000_0000 * last_bit(n) <= n,
        to_double(n) == half_even(n, last_bit(n)) * last_bit(n),
        2 * to_double(n) <= 2 * n + last_bit(n),
        2 * n <= 2 * to_double(n) + last_bit(n),
{
    lemma_last_bit(n);
    law_nearest(n, last_bit(n));
    if n < 0x20_0000_0000_0000 {
        assert(n % 1 == 0 && n / 1 == n);
        assert(half_even(n, 1) == n);
        assert(half_even(n, 1) * 1 == n);
    }
}

proof fn lemma_last_bit(n: nat)
    ensures
        1 <= last_bit(n),
        n < 0x20_0000_0000_0000 * last_bit(n),
        n >= 0x20_0000_0000_0000 ==> 0x10_0000_0000_0000 * last_bit(n) <= n,
    decreases n,
{
    if n >= 0x20_0000_0000_0000 {
        lemma_last_bit(n / 2);
        if n / 2 < 0x20_0000_0000_0000 {
            assert(last_bit(n / 2) == 1);
        }
    }
}

/// The size in hundredths of 2^30 bytes is the nearest, the even one of two that are equally
/// near; of sizes of more than 53 bits, nearest up to the bytes that a double cannot hold.
pub proof fn law_size_in_hundredths(bytes: u64)
    ensures
        ({
            let shown = hundredths_of_gib(bytes as nat) * 0x4000_0000;
            let exact = 100 * bytes;
            &&& bytes < 0x20_0000_0000_0000 ==> 2 * shown <= 2 * exact + 0x4000_0000 && 2 * exact
                <= 2 * shown + 0x4000_0000
            &&& bytes < 0x20_0000_0000_0000 && (2 * shown == 2 * exact + 0x4000_0000 || 2 * exact
                == 2 * shown + 0x4000_0000) ==> hundredths_of_gib(bytes as nat) % 2 == 0
            &&& 2 * shown <= 2 * exact + 0x4000_0000 + 204800
            &&& 2 * exact <= 2 * shown + 0x4000_0000 + 204800
        }),
{
    let double = to_double(bytes as nat);
    law_doubles_are_nearest(bytes as nat);
    law_nearest(100 * double, 0x4000_0000);
    lemma_last_bit_of_u64(bytes);
}

proof fn lemma_last_bit_of_u64(n: u64)
    ensures
        last_bit(n as nat) <= 2048,
{
    reveal_with_fuel(last_bit, 13);
}

/// Scaled up, a quotient has 53 bits before the point.
pub proof fn law_scaling(n: nat, d: nat)
    requires
        0 < n < d * 0x20_0000_0000_0000,
    ensures
        1 <= scaling(n, d),
        d * 0x10_0000_0000_0000 <= n * scaling(n, d),
        n * scaling(n, d) < d * 0x20_0000_0000_0000,
    decreases
            (if n >= d * 0x10_0000_0000_0000 {
                0
            } else {
                d * 0x10_0000_0000_0000 - n
            }),
{
    if n < d * 0x10_0000_0000_0000 {
        law_scaling(2 * n, d);
        let rest = scaling(2 * n, d);
        assert((2 * n) * rest == n * (2 * rest)) by (nonlinear_arith);
    } else {
        assert(n * 1 == n);
    }
}

/// The share in percent is the nearest, up to a part in 2^40 of the total; from the tenfold total
/// on it is 999, and it never is more. Amounts are taken as doubles hold them, which is as they
/// are up to 53 bits.
pub proof fn law_share_in_percent(used: u64, total: u64)
    requires
        total > 0,
    ensures
        ({
            let share = percent(used as nat, total as nat);
            let u = to_double(used as nat);
            let t = to_double(total as nat);
            &&& share <= 999
            &&& u >= 10 * t ==> share == 999
            &&& 0x200_0000_0000 * (share * t) <= 0x200_0000_0000 * (100 * u) + 0x100_0000_0001 * t
            &&& share < 999 ==> 0x200_0000_0000 * (100 * u) <= 0x200_0000_0000 * (share * t)
                + 0x100_0000_0001 * t
        }),
{
    law_doubles_are_nearest(used as nat);
    law_doubles_are_nearest(total as nat);
    let u = to_double(used as nat) as int;
    let t = to_double(total as nat) as int;
    let share = percent(used as nat, total as nat) as int;
    if u >= 10 * t {
        assert(0x200_0000_0000 * (999 * t) <= 0x200_0000_0000 * (100 * u));
    } else if u == 0 {
        lemma_nothing_used(t as nat);
        assert(share * t == 0) by (nonlinear_arith)
            requires
                share == 0,
        ;
    } else {
        let scale = scaling(u as nat, t as nat) as int;
        law_scaling(u as nat, t as nat);
        let scaled = (u * scale) as nat;
        assert(u * scale >= 0) by (nonlinear_arith)
            requires
                u >= 0,
                scale >= 0,
        ;
        let quotient = half_even(scaled, t as nat);
        law_nearest(scaled, t as nat);
        let double = to_double(100 * quotient);
        law_doubles_are_nearest(100 * quotient);
        let rounded = half_even(double, scale as nat);
        law_nearest(double, scale as nat);
        assert(quotient <= 0x20_0000_0000_0000) by (nonlinear_arith)
            requires
                2 * (quotient * t) <= 2 * (u * scale) + t,
                u * scale < t * 0x20_0000_0000_0000,
                t > 0,
        ;
        let bit = last_bit(100 * quotient) as int;
        assert(bit <= 200);
        assert(10 * scale >= 0x10_0000_0000_0000) by (nonlinear_arith)
            requires
                t * 0x10_0000_0000_0000 <= u * scale,
                u < 10 * t,
                t > 0,
                scale >= 1,
        ;
        lemma_share_is_near(
            u,
            t,
            scale,
            quotient as int,
            double as int,
            rounded as int,
            bit,
        );
        if rounded > 999 {
            assert(999 * t <= rounded * t) by (nonlinear_arith)
                requires
                    rounded > 999,
                    t > 0,
            ;
        }
    }
}

proof fn lemma_nothing_used(total: nat)
    requires
        0 < total,
    ensures
        half_even(0 * scaling(0, total), total) == 0,
        scaling(0, total) == 1,
        to_double(0) == 0,
        half_even(0, 1) == 0,
{
    law_doubles_are_nearest(0);
    assert(0nat * 1 == 0);
    assert(half_even(0, total) == 0) by {
        assert(0nat / total == 0 && 0nat % total == 0) by (nonlinear_arith)
            requires
                total > 0,
        ;
    }
    assert(half_even(0, 1) == 0);
}

/// Three roundings, one after the other, do not lead further away than the last of them and a
/// little more.
proof fn lemma_share_is_near(
    u: int,
    t: int,
    scale: int,
    quotient: int,
    double: int,
    rounded: int,
    bit: int,
)
    requires
        t > 0,
        scale >= 1,
        10 * scale >= 0x10_0000_0000_0000,
        bit <= 200,
        2 * (quotient * t) <= 2 * (u * scale) + t,
        2 * (u * scale) <= 2 * (quotient * t) + t,
        2 * double <= 2 * (100 * quotient) + bit,
        2 * (100 * quotient) <= 2 * double + bit,
        2 * (rounded * scale) <= 2 * double + scale,
        2 * double <= 2 * (rounded * scale) + scale,
    ensures
        0x200_0000_0000 * (rounded * t) <= 0x200_0000_0000 * (100 * u) + 0x100_0000_0001 * t,
        0x200_0000_0000 * (100 * u) <= 0x200_0000_0000 * (rounded * t) + 0x100_0000_0001 * t,
{
    let a = rounded * t;
    let b = 100 * u;
    // All in units of 1 / (2 * scale).
    assert(2 * (rounded * scale) * t <= (2 * double + scale) * t) by (nonlinear_arith)
        requires
            2 * (rounded * scale) <= 2 * double + scale,
            t > 0,
    ;
    assert((2 * double) * t <= (2 * (rounded * scale) + scale) * t) by (nonlinear_arith)
        requires
            2 * double <= 2 * (rounded * scale) + scale,
            t > 0,
    ;
    assert((2 * double) * t <= (200 * quotient + bit) * t) by (nonlinear_arith)
        requires
            2 * double <= 2 * (100 * quotient) + bit,
            t > 0,
    ;
    assert((200 * quotient) * t <= (2 * double + bit) * t) by (nonlinear_arith)
        requires
            2 * (100 * quotient) <= 2 * double + bit,
            t > 0,
    ;
    assert(2 * (rounded * scale) * t == 2 * (a * scale)) by (nonlinear_arith)
        requires
            a == rounded * t,
    ;
    assert((2 * double + scale) * t == (2 * double) * t + scale * t) by (nonlinear_arith);
    assert((2 * (rounded * scale) + scale) * t == 2 * (rounded * scale) * t + scale * t)
        by (nonlinear_arith);
    assert((200 * quotient + bit) * t == 200 * (quotient * t) + bit * t) by (nonlinear_arith);
    assert((2 * double + bit) * t == (2 * double) * t + bit * t) by (nonlinear_arith);
    assert((200 * quotient) * t == 200 * (quotient * t)) by (nonlinear_arith);
    assert(2 * (b * scale) == 200 * (u * scale)) by (nonlinear_arith)
        requires
            b == 100 * u,
    ;
    assert(bit * t <= 200 * t) by (nonlinear_arith)
        requires
            bit <= 200,
            t > 0,
    ;
    assert(2 * (a * scale) <= 2 * (b * scale) + scale * t + 300 * t);
    assert(2 * (b * scale) <= 2 * (a * scale) + scale * t + 300 * t);
    assert(0x200_0000_0000 * a <= 0x200_0000_0000 * b + 0x100_0000_0001 * t) by (nonlinear_arith)
        requires
            2 * (a * scale) <= 2 * (b * scale) + scale * t + 300 * t,
            10 * scale >= 0x10_0000_0000_0000,
            t > 0,
    {
        lemma_cancel(a - b, t, scale);
    }
    assert(0x200_0000_0000 * b <= 0x200_0000_0000 * a + 0x100_0000_0001 * t) by (nonlinear_arith)
        requires
            2 * (b * scale) <= 2 * (a * scale) + scale * t + 300 * t,
            10 * scale >= 0x10_0000_0000_0000,
            t > 0,
    {
        lemma_cancel(b - a, t, scale);
    }
}

proof fn lemma_cancel(x: int, t: int, scale: int)
    requires
        2 * (x * scale) <= scale * t + 300 * t,
        10 * scale >= 0x10_0000_0000_0000,
        t > 0,
    ensures
        0x200_0000_0000 * x <= 0x100_0000_0001 * t,
{
    assert(0x100_0000_0000 * (300 * t) <= scale * t) by (nonlinear_arith)
        requires
            10 * scale >= 0x10_0000_0000_0000,
            t > 0,
            0x100_0000_0000 * 300 * 10 <= 0x10_0000_0000_0000int,
    ;
    let left = 0x200_0000_0000 * x;
    let right = 0x100_0000_0001 * t;
    assert(left * scale <= right * scale) by (nonlinear_arith)
        requires
            2 * (x * scale) <= scale * t + 300 * t,
            0x100_0000_0000 * (300 * t) <= scale * t,
            left == 0x200_0000_0000 * x,
            right == 0x100_0000_0001 * t,
    ;
    assert(left <= right) by (nonlinear_arith)
        requires
            left * scale <= right * scale,
            scale > 0,
    ;
}

} // verus!
