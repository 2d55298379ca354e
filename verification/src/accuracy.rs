//! How close the computed share is to the power of one half that it stands
//! for.
//!
//! A share `s`, counted in `UNIT`s, is compared with `2^-(x/n)` without
//! leaving the integers: `s / UNIT <= 2^-(x/n)` says the same as
//! `s^n * 2^x <= UNIT^n`.

use vstd::prelude::*;
use vstd::arithmetic::power::{
    lemma0_pow, lemma_pow1, lemma_pow_adds, lemma_pow_distributes, lemma_pow_multiplies,
    lemma_pow_positive, pow,
};
use vstd::arithmetic::power2::{
    lemma2_to64, lemma2_to64_rest, lemma_pow2, lemma_pow2_adds, lemma_pow2_pos,
    lemma_pow2_strictly_increases, pow2,
};
use crate::decay::{
    elapsed_steps, lemma_elapsed_steps_bracket, lemma_power_of_half_bounds, lemma_table_entry,
    power_of_half, remaining, root_of_half, share_after_steps, STEPS_PER_HALVING, STEP_BITS,
    UNIT,
};

verus! {

/// Whether `share / UNIT <= 2^-(steps / per)`.
pub open spec fn at_most_power_of_half(share: int, steps: nat, per: nat) -> bool {
    pow(share, per) * pow2(steps) <= pow(UNIT as int, per)
}

/// Whether `share / UNIT >= 2^-(steps / per)`.
pub open spec fn at_least_power_of_half(share: int, steps: nat, per: nat) -> bool {
    pow(share, per) * pow2(steps) >= pow(UNIT as int, per)
}

/// A power grows with its base.
proof fn lemma_pow_grows_with_base(a: int, b: int, e: nat)
    requires
        0 <= a <= b,
    ensures
        0 <= pow(a, e) <= pow(b, e),
    decreases e,
{
    reveal(pow);
    if e > 0 {
        lemma_pow_grows_with_base(a, b, (e - 1) as nat);
        let pa = pow(a, (e - 1) as nat);
        let pb = pow(b, (e - 1) as nat);
        assert(0 <= a * pa <= b * pb) by (nonlinear_arith)
            requires
                0 <= a <= b,
                0 <= pa <= pb,
        ;
    }
}

/// A power with a positive exponent grows strictly with its base.
proof fn lemma_pow_grows_strictly_with_base(a: int, b: int, e: nat)
    requires
        0 <= a < b,
        e > 0,
    ensures
        pow(a, e) < pow(b, e),
    decreases e,
{
    reveal(pow);
    lemma_pow_grows_with_base(a, b, (e - 1) as nat);
    lemma_pow_positive(b, (e - 1) as nat);
    let pa = pow(a, (e - 1) as nat);
    let pb = pow(b, (e - 1) as nat);
    assert(a * pa < b * pb) by (nonlinear_arith)
        requires
            0 <= a < b,
            0 <= pa <= pb,
            0 < pb,
    ;
}

/// A larger share is at least what a smaller one is at least.
proof fn lemma_at_least_larger(share: int, larger: int, steps: nat, per: nat)
    requires
        0 <= share <= larger,
        at_least_power_of_half(share, steps, per),
    ensures
        at_least_power_of_half(larger, steps, per),
{
    lemma_pow_grows_with_base(share, larger, per);
    let a = pow(share, per);
    let b = pow(larger, per);
    let t = pow2(steps) as int;
    assert(a * t <= b * t) by (nonlinear_arith)
        requires
            0 <= a <= b,
            0 <= t,
    ;
}

/// What is at most a power of one half is at most the power of fewer steps.
proof fn lemma_at_most_fewer_steps(share: int, steps: nat, fewer: nat, per: nat)
    requires
        0 <= share,
        fewer <= steps,
        at_most_power_of_half(share, steps, per),
    ensures
        at_most_power_of_half(share, fewer, per),
{
    lemma_pow_grows_with_base(0, share, per);
    if fewer < steps {
        lemma_pow2_strictly_increases(fewer, steps);
    }
    let a = pow(share, per);
    let s = pow2(fewer) as int;
    let t = pow2(steps) as int;
    assert(a * s <= a * t) by (nonlinear_arith)
        requires
            0 <= a,
            0 <= s <= t,
    ;
}

/// What is at least a power of one half is at least the power of more steps.
proof fn lemma_at_least_more_steps(share: int, steps: nat, more: nat, per: nat)
    requires
        0 <= share,
        steps <= more,
        at_least_power_of_half(share, steps, per),
    ensures
        at_least_power_of_half(share, more, per),
{
    lemma_pow_grows_with_base(0, share, per);
    if steps < more {
        lemma_pow2_strictly_increases(steps, more);
    }
    let a = pow(share, per);
    let s = pow2(steps) as int;
    let t = pow2(more) as int;
    assert(a * s <= a * t) by (nonlinear_arith)
        requires
            0 <= a,
            0 <= s <= t,
    ;
}

/// The exponent of a power of one half can be written with `times` as many
/// steps of which `times` as many make one halving.
proof fn lemma_at_most_scales(share: int, steps: nat, per: nat, times: nat)
    requires
        0 <= share,
        at_most_power_of_half(share, steps, per),
    ensures
        at_most_power_of_half(share, steps * times, per * times),
{
    let unit = UNIT as int;
    lemma_pow_multiplies(share, per, times);
    lemma_pow_multiplies(unit, per, times);
    lemma_pow_multiplies(2, steps, times);
    lemma_pow2(steps);
    lemma_pow2(steps * times);
    lemma_pow_grows_with_base(0, share, per);
    let a = pow(share, per);
    let t = pow2(steps) as int;
    let u = pow(unit, per);
    assert(0 <= a * t) by (nonlinear_arith)
        requires
            0 <= a,
            0 <= t,
    ;
    lemma_pow_grows_with_base(a * t, u, times);
    lemma_pow_distributes(a, t, times);
}

/// The exponent of a power of one half can be written with `times` as many
/// steps of which `times` as many make one halving.
proof fn lemma_at_least_scales(share: int, steps: nat, per: nat, times: nat)
    requires
        0 <= share,
        at_least_power_of_half(share, steps, per),
    ensures
        at_least_power_of_half(share, steps * times, per * times),
{
    let unit = UNIT as int;
    lemma_pow_multiplies(share, per, times);
    lemma_pow_multiplies(unit, per, times);
    lemma_pow_multiplies(2, steps, times);
    lemma_pow2(steps);
    lemma_pow2(steps * times);
    lemma_pow_positive(unit, per);
    let a = pow(share, per);
    let t = pow2(steps) as int;
    let u = pow(unit, per);
    lemma_pow_grows_with_base(u, a * t, times);
    lemma_pow_distributes(a, t, times);
}

/// The rounded-down product of two shares is at most the product of the
/// powers that the two are at most.
proof fn lemma_at_most_product(
    product: int,
    first: int,
    first_steps: nat,
    second: int,
    second_steps: nat,
    per: nat,
)
    requires
        0 <= product,
        0 <= first,
        0 <= second,
        product * UNIT <= first * second,
        at_most_power_of_half(first, first_steps, per),
        at_most_power_of_half(second, second_steps, per),
    ensures
        at_most_power_of_half(product, first_steps + second_steps, per),
{
    let unit = UNIT as int;
    assert(0 <= product * unit) by (nonlinear_arith)
        requires
            0 <= product,
            0 <= unit,
    ;
    lemma_pow_grows_with_base(product * unit, first * second, per);
    lemma_pow_distributes(product, unit, per);
    lemma_pow_distributes(first, second, per);
    lemma_pow2_adds(first_steps, second_steps);
    lemma_pow_positive(unit, per);
    lemma_pow_grows_with_base(0, first, per);
    lemma_pow_grows_with_base(0, second, per);
    let p = pow(product, per);
    let u = pow(unit, per);
    let a = pow(first, per);
    let b = pow(second, per);
    let s = pow2(first_steps) as int;
    let t = pow2(second_steps) as int;
    assert(0 <= s * t) by (nonlinear_arith)
        requires
            0 <= s,
            0 <= t,
    ;
    assert((p * u) * (s * t) <= (a * b) * (s * t)) by (nonlinear_arith)
        requires
            p * u <= a * b,
            0 <= s * t,
    ;
    assert((a * b) * (s * t) == (a * s) * (b * t)) by (nonlinear_arith);
    assert((a * s) * (b * t) <= u * u) by (nonlinear_arith)
        requires
            0 <= a,
            0 <= s,
            0 <= b,
            0 <= t,
            a * s <= u,
            b * t <= u,
    ;
    assert((p * u) * (s * t) == (p * (s * t)) * u) by (nonlinear_arith);
    assert(p * (s * t) <= u) by (nonlinear_arith)
        requires
            (p * (s * t)) * u <= u * u,
            0 < u,
    ;
}

/// A share that, times `UNIT`, is no less than the product of two shares is
/// at least the product of the powers that the two are at least.
proof fn lemma_at_least_product(
    product: int,
    first: int,
    first_steps: nat,
    second: int,
    second_steps: nat,
    per: nat,
)
    requires
        0 <= first,
        0 <= second,
        product * UNIT >= first * second,
        at_least_power_of_half(first, first_steps, per),
        at_least_power_of_half(second, second_steps, per),
    ensures
        at_least_power_of_half(product, first_steps + second_steps, per),
{
    let unit = UNIT as int;
    assert(0 <= first * second) by (nonlinear_arith)
        requires
            0 <= first,
            0 <= second,
    ;
    lemma_pow_grows_with_base(first * second, product * unit, per);
    lemma_pow_distributes(product, unit, per);
    lemma_pow_distributes(first, second, per);
    lemma_pow2_adds(first_steps, second_steps);
    lemma_pow_positive(unit, per);
    let p = pow(product, per);
    let u = pow(unit, per);
    let a = pow(first, per);
    let b = pow(second, per);
    let s = pow2(first_steps) as int;
    let t = pow2(second_steps) as int;
    assert(0 <= s * t) by (nonlinear_arith)
        requires
            0 <= s,
            0 <= t,
    ;
    assert((p * u) * (s * t) >= (a * b) * (s * t)) by (nonlinear_arith)
        requires
            p * u >= a * b,
            0 <= s * t,
    ;
    assert((a * b) * (s * t) == (a * s) * (b * t)) by (nonlinear_arith);
    assert((a * s) * (b * t) >= u * u) by (nonlinear_arith)
        requires
            0 < u,
            a * s >= u,
            b * t >= u,
    ;
    assert((p * u) * (s * t) == (p * (s * t)) * u) by (nonlinear_arith);
    assert(p * (s * t) >= u) by (nonlinear_arith)
        requires
            (p * (s * t)) * u >= u * u,
            0 < u,
    ;
}

/// The square root, rounded down, of a share times `UNIT` is at most the
/// square root of the power that the share is at most.
proof fn lemma_at_most_root(root: int, share: int, steps: nat, per: nat)
    requires
        0 <= root,
        0 <= share,
        root * root <= UNIT * share,
        at_most_power_of_half(share, steps, per),
    ensures
        at_most_power_of_half(root, steps, per * 2),
{
    let unit = UNIT as int;
    lemma_pow_grows_with_base(root * root, unit * share, per);
    lemma_pow_distributes(root, root, per);
    lemma_pow_distributes(unit, share, per);
    lemma_pow_adds(root, per, per);
    lemma_pow_adds(unit, per, per);
    lemma_pow_positive(unit, per);
    let r = pow(root, per);
    let u = pow(unit, per);
    let a = pow(share, per);
    let t = pow2(steps) as int;
    assert((r * r) * t <= (u * a) * t) by (nonlinear_arith)
        requires
            r * r <= u * a,
            0 <= t,
    ;
    assert((u * a) * t == u * (a * t)) by (nonlinear_arith);
    assert(u * (a * t) <= u * u) by (nonlinear_arith)
        requires
            0 < u,
            a * t <= u,
    ;
}

/// A share whose square is no less than another share times `UNIT` is at
/// least the square root of the power that the other is at least.
proof fn lemma_at_least_root(root: int, share: int, steps: nat, per: nat)
    requires
        0 <= root,
        0 <= share,
        root * root >= UNIT * share,
        at_least_power_of_half(share, steps, per),
    ensures
        at_least_power_of_half(root, steps, per * 2),
{
    let unit = UNIT as int;
    assert(0 <= unit * share) by (nonlinear_arith)
        requires
            0 <= unit,
            0 <= share,
    ;
    lemma_pow_grows_with_base(unit * share, root * root, per);
    lemma_pow_distributes(root, root, per);
    lemma_pow_distributes(unit, share, per);
    lemma_pow_adds(root, per, per);
    lemma_pow_adds(unit, per, per);
    lemma_pow_positive(unit, per);
    let r = pow(root, per);
    let u = pow(unit, per);
    let a = pow(share, per);
    let t = pow2(steps) as int;
    assert((r * r) * t >= (u * a) * t) by (nonlinear_arith)
        requires
            r * r >= u * a,
            0 <= t,
    ;
    assert((u * a) * t == u * (a * t)) by (nonlinear_arith);
    assert(u * (a * t) >= u * u) by (nonlinear_arith)
        requires
            0 < u,
            a * t >= u,
    ;
}

/// Each root of one half is at most the power `2^-(1/2^k)` that it stands
/// for, and no more than three counts below it.
pub proof fn lemma_root_is_accurate(k: nat)
    requires
        k <= 32,
    ensures
        at_most_power_of_half(root_of_half(k), 1, pow2(k)),
        at_least_power_of_half(root_of_half(k) + 3, 1, pow2(k)),
        UNIT / 2 <= root_of_half(k) < UNIT,
    decreases k,
{
    let unit = UNIT as int;
    lemma2_to64();
    if k == 0 {
        lemma_pow1(unit);
        lemma_pow1(unit / 2);
        lemma_pow1(unit / 2 + 3);
    } else {
        let before = root_of_half((k - 1) as nat);
        let root = root_of_half(k);
        lemma_root_is_accurate((k - 1) as nat);
        lemma_table_entry(k);
        lemma_at_most_root(root, before, 1, pow2((k - 1) as nat));
        if k == 1 {
            lemma_pow1(unit);
            lemma_pow1(unit / 2);
            assert((root + 3) * (root + 3) >= (root + 1) * (root + 1)) by (nonlinear_arith)
                requires
                    root >= 0,
            ;
            lemma_at_least_root(root + 3, before, 1, pow2(0));
        } else {
            assert((root + 3) * (root + 3) >= unit * (before + 3)) by (nonlinear_arith)
                requires
                    (root + 1) * (root + 1) > unit * before,
                    root >= 0x3000_0000_0000_0000,
                    unit == 0x4000_0000_0000_0000,
            ;
            lemma_at_least_root(root + 3, before + 3, 1, pow2((k - 1) as nat));
        }
    }
}

/// Largest number of counts by which a computed share can be below the
/// power of one half that it stands for.
pub const SHARE_SLACK: u64 = 161;

/// The product of roots for the `k` bits of `x` is at most `2^-(x/2^k)`,
/// and no more than `5 * k` counts below it.
pub proof fn lemma_power_of_half_is_accurate(x: nat, k: nat)
    requires
        k <= 32,
        x < pow2(k),
    ensures
        at_most_power_of_half(power_of_half(x, k), x, pow2(k)),
        at_least_power_of_half(power_of_half(x, k) + 5 * k, x, pow2(k)),
    decreases k,
{
    let unit = UNIT as int;
    lemma2_to64();
    if k == 0 {
        lemma_pow1(unit);
        assert(power_of_half(x, k) == unit);
    } else {
        let fewer = (k - 1) as nat;
        let half = x / 2;
        let rest = power_of_half(half, fewer);
        let share = power_of_half(x, k);
        lemma_power_of_half_is_accurate(half, fewer);
        lemma_power_of_half_bounds(half, fewer);
        lemma_at_most_scales(rest, half, pow2(fewer), 2);
        lemma_at_least_scales(rest + 5 * fewer, half, pow2(fewer), 2);
        if x % 2 == 0 {
            lemma_at_least_larger(rest + 5 * fewer, share + 5 * k, x, pow2(k));
        } else {
            let root = root_of_half(k);
            lemma_root_is_accurate(k);
            assert(0 <= rest * root) by (nonlinear_arith)
                requires
                    0 <= rest,
                    0 <= root,
            ;
            assert(share * unit <= rest * root < (share + 1) * unit) by (nonlinear_arith)
                requires
                    rest * root == unit * share + (rest * root) % unit,
                    0 <= (rest * root) % unit < unit,
            ;
            lemma_at_most_product(share, rest, half * 2, root, 1, pow2(k));
            assert((share + 5 * k) * unit >= (rest + 5 * fewer) * (root + 3)) by (nonlinear_arith)
                requires
                    rest * root < (share + 1) * unit,
                    0 <= rest <= unit,
                    0 <= root < unit,
                    unit == 0x4000_0000_0000_0000,
                    fewer == k - 1,
                    1 <= k <= 32,
            ;
            lemma_at_least_product(
                share + 5 * k,
                rest + 5 * fewer,
                half * 2,
                root + 3,
                1,
                pow2(k),
            );
        }
    }
}

/// The share of whole halvings, `UNIT / 2^halvings`, is exact.
proof fn lemma_whole_halvings_are_exact(halvings: nat, per: nat)
    requires
        halvings <= 62,
    ensures
        at_most_power_of_half(pow2((62 - halvings) as nat) as int, halvings * per, per),
        at_least_power_of_half(pow2((62 - halvings) as nat) as int, halvings * per, per),
        pow2((62 - halvings) as nat) * pow2(halvings) == UNIT,
{
    let unit = UNIT as int;
    let share = pow2((62 - halvings) as nat) as int;
    lemma2_to64_rest();
    lemma_pow2_adds((62 - halvings) as nat, halvings);
    lemma_pow2(halvings);
    lemma_pow2(halvings * per);
    lemma_pow_multiplies(2, halvings, per);
    lemma_pow_distributes(share, pow2(halvings) as int, per);
}

/// The computed share is at most the power of one half that it stands for,
/// `2^-(steps / 2^32)`, and no more than `SHARE_SLACK` counts below it.
pub proof fn lemma_share_is_accurate(steps: nat)
    ensures
        at_most_power_of_half(share_after_steps(steps), steps, STEPS_PER_HALVING as nat),
        at_least_power_of_half(
            share_after_steps(steps) + SHARE_SLACK,
            steps,
            STEPS_PER_HALVING as nat,
        ),
        0 <= share_after_steps(steps) <= UNIT,
{
    let unit = UNIT as int;
    let per = STEPS_PER_HALVING as nat;
    let within_steps = steps % per;
    let halvings = steps / per;
    let within = power_of_half(within_steps, STEP_BITS as nat);
    let share = share_after_steps(steps);
    lemma2_to64();
    lemma2_to64_rest();
    assert(steps == halvings * per + within_steps) by (nonlinear_arith)
        requires
            steps == per * (steps / per) + steps % per,
            halvings == steps / per,
            within_steps == steps % per,
    ;
    lemma_power_of_half_is_accurate(within_steps, STEP_BITS as nat);
    lemma_power_of_half_bounds(within_steps, STEP_BITS as nat);
    lemma_pow2_pos(halvings);
    let divisor = pow2(halvings) as int;
    vstd::arithmetic::div_mod::lemma_fundamental_div_mod(within, divisor);
    assert(share * divisor <= within < (share + 1) * divisor) by (nonlinear_arith)
        requires
            within == divisor * share + within % divisor,
            0 <= within % divisor < divisor,
    ;
    assert(share <= within) by (nonlinear_arith)
        requires
            share * divisor <= within,
            0 <= share,
            1 <= divisor,
    ;
    if halvings <= 62 {
        let whole = pow2((62 - halvings) as nat) as int;
        lemma_whole_halvings_are_exact(halvings, per);
        assert(share * unit <= within * whole) by (nonlinear_arith)
            requires
                share * divisor <= within,
                whole * divisor == unit,
                0 < whole,
        ;
        lemma_at_most_product(share, within, within_steps, whole, halvings * per, per);
        assert(whole <= unit) by (nonlinear_arith)
            requires
                whole * divisor == unit,
                1 <= divisor,
                0 < whole,
        ;
        assert((share + 161) * unit >= (within + 160) * whole) by (nonlinear_arith)
            requires
                within < (share + 1) * divisor,
                whole * divisor == unit,
                0 < whole <= unit,
        ;
        lemma_at_least_product(
            share + 161,
            within + 160,
            within_steps,
            whole,
            halvings * per,
            per,
        );
    } else {
        if halvings > 63 {
            lemma_pow2_strictly_increases(63, halvings);
        }
        vstd::arithmetic::div_mod::lemma_basic_div(within, divisor);
        lemma0_pow(per);
        lemma_pow_positive(unit, per);
        assert(pow(0, per) * pow2(steps) == 0) by (nonlinear_arith)
            requires
                pow(0, per) == 0,
        ;
        // 161 counts, after 63 halvings or more, are more than what is left.
        lemma_pow_positive(161, per);
        lemma_pow2(63);
        lemma_pow_multiplies(2, 63, per);
        lemma_pow_grows_with_base(unit, pow2(63) as int, per);
        assert(63 * per <= steps) by (nonlinear_arith)
            requires
                steps == halvings * per + within_steps,
                halvings >= 63,
                per > 0,
        ;
        if 63 * per < steps {
            lemma_pow2_strictly_increases(63 * per, steps);
        }
        let many = pow(161, per);
        let left = pow2(steps) as int;
        let all = pow(unit, per);
        assert(many * left >= all) by (nonlinear_arith)
            requires
                many >= 1,
                left >= all,
                all > 0,
        ;
    }
}

/// A common factor of the steps and of the steps per halving can be left
/// out of the exponent of a power of one half.
proof fn lemma_at_least_reduces(share: int, steps: nat, per: nat, times: nat)
    requires
        0 <= share,
        times > 0,
        at_least_power_of_half(share, steps * times, per * times),
    ensures
        at_least_power_of_half(share, steps, per),
{
    let unit = UNIT as int;
    lemma_pow_multiplies(share, per, times);
    lemma_pow_multiplies(unit, per, times);
    lemma_pow_multiplies(2, steps, times);
    lemma_pow2(steps);
    lemma_pow2(steps * times);
    lemma_pow_grows_with_base(0, share, per);
    let a = pow(share, per);
    let t = pow2(steps) as int;
    let u = pow(unit, per);
    assert(0 <= a * t) by (nonlinear_arith)
        requires
            0 <= a,
            0 <= t,
    ;
    lemma_pow_distributes(a, t, times);
    if a * t < u {
        lemma_pow_grows_strictly_with_base(a * t, u, times);
    }
}

/// What remains after the time `elapsed` is the power of one half
/// `2^-(elapsed / half_time)` to within the rounding of the time and of the
/// share: counted in `UNIT`s, it is no more than `SHARE_SLACK` counts below that
/// power, and it is no more than the power for a time that is shorter by
/// 2^-32 half-times.
pub proof fn lemma_remaining_is_accurate(elapsed: nat, half_time: nat)
    requires
        half_time > 0,
    ensures
        at_least_power_of_half(remaining(elapsed, half_time) + SHARE_SLACK, elapsed, half_time),
        at_most_power_of_half(
            remaining(elapsed, half_time),
            elapsed_steps(elapsed, half_time),
            STEPS_PER_HALVING as nat,
        ),
        elapsed * STEPS_PER_HALVING >= half_time ==> at_most_power_of_half(
            remaining(elapsed, half_time),
            (elapsed * STEPS_PER_HALVING - half_time) as nat,
            half_time * (STEPS_PER_HALVING as nat),
        ),
{
    let per = STEPS_PER_HALVING as nat;
    let steps = elapsed_steps(elapsed, half_time);
    let share = remaining(elapsed, half_time);
    lemma_share_is_accurate(steps);
    lemma_elapsed_steps_bracket(elapsed, half_time);
    // From below.
    lemma_at_least_scales(share + SHARE_SLACK, steps, per, half_time);
    lemma_at_least_more_steps(share + SHARE_SLACK, steps * half_time, elapsed * per, per * half_time);
    lemma_at_least_reduces(share + SHARE_SLACK, elapsed, half_time, per);
    // From above.
    lemma_at_most_scales(share, steps, per, half_time);
    if elapsed * per >= half_time {
        assert(steps * half_time >= elapsed * per - half_time) by (nonlinear_arith)
            requires
                elapsed * per < (steps + 1) * half_time,
        ;
        lemma_at_most_fewer_steps(
            share,
            steps * half_time,
            (elapsed * per - half_time) as nat,
            per * half_time,
        );
    }
}

} // verus!
