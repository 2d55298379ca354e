//! The share of a pressure difference that is still open after a time.
//!
//! A compartment with half-time `h` closes half of the difference between its
//! loading and the inspired pressure in every `h` minutes, so after `t`
//! minutes the share `2^-(t/h)` of the difference is left. This module
//! computes that share as a binary fraction: the whole half-times halve it,
//! and the fraction of a half-time that is left over is read bit by bit,
//! each set bit multiplying the share by the matching iterated square root
//! of one half.

use vstd::prelude::*;
use vstd::arithmetic::div_mod::{
    lemma_basic_div, lemma_div_denominator, lemma_fundamental_div_mod,
    lemma_hoist_over_denominator,
};
use vstd::arithmetic::power2::{
    lemma2_to64, lemma2_to64_rest, lemma_pow2_pos, lemma_pow2_strictly_increases,
    lemma_pow2_unfold, pow2,
};
use vstd::bits::lemma_u64_shr_is_div;
use crate::measures::Minutes;

verus! {

/// The share 1, as a count of 2^-62.
pub const UNIT: u64 = 0x4000_0000_0000_0000;

/// Number of steps into which one half-time is divided, 2^32.
pub const STEPS_PER_HALVING: u64 = 0x1_0000_0000;

/// Number of bits of `STEPS_PER_HALVING`.
pub const STEP_BITS: u32 = 32;

/// Whether `r` is the square root of `n`, rounded down.
pub open spec fn is_integer_sqrt(r: int, n: int) -> bool {
    0 <= r && r * r <= n < (r + 1) * (r + 1)
}

/// The square root of `n`, rounded down.
pub open spec fn integer_sqrt(n: int) -> int
    recommends
        n >= 0,
{
    choose|r: int| is_integer_sqrt(r, n)
}

/// A number has at most one rounded-down square root.
pub proof fn lemma_integer_sqrt_is_unique(r: int, n: int)
    requires
        is_integer_sqrt(r, n),
    ensures
        integer_sqrt(n) == r,
{
    let s = integer_sqrt(n);
    assert(s == r) by (nonlinear_arith)
        requires
            0 <= r,
            0 <= s,
            r * r <= n < (r + 1) * (r + 1),
            s * s <= n < (s + 1) * (s + 1),
    ;
}

/// The share `2^-(1/2^k)`: one half for `k == 0`, and for every further `k`
/// the square root of the one before, each rounded down to a count of 2^-62.
pub open spec fn root_of_half(k: nat) -> int
    decreases k,
{
    if k == 0 {
        (UNIT / 2) as int
    } else {
        integer_sqrt(UNIT * root_of_half((k - 1) as nat))
    }
}

proof fn lemma_next_root(k: nat, before: int, root: int)
    requires
        k > 0,
        root_of_half((k - 1) as nat) == before,
        is_integer_sqrt(root, UNIT * before),
    ensures
        root_of_half(k) == root,
{
    lemma_integer_sqrt_is_unique(root, UNIT * before);
}

/// The value of `root_of_half(k)` for `k` from 1 to 32.
pub open spec fn root_table(k: nat) -> int {
    if k == 1 {
        0x2d41_3ccc_fe77_9921
    } else if k == 2 {
        0x35d1_3f32_b5a7_5abd
    } else if k == 3 {
        0x3ab0_31b9_f749_0e4b
    } else if k == 4 {
        0x3d49_5f45_4921_b30a
    } else if k == 5 {
        0x3ea0_ecb6_dc8a_80ce
    } else if k == 6 {
        0x3f4f_8303_3d21_b05c
    } else if k == 7 {
        0x3fa7_8457_1ee3_e212
    } else if k == 8 {
        0x3fd3_b2d6_5447_b228
    } else if k == 9 {
        0x3fe9_d594_8723_6bb3
    } else if k == 10 {
        0x3ff4_e9d4_703d_f842
    } else if k == 11 {
        0x3ffa_74ac_bdf6_c9d4
    } else if k == 12 {
        0x3ffd_3a46_ffc6_e30e
    } else if k == 13 {
        0x3ffe_9d1f_a801_0198
    } else if k == 14 {
        0x3fff_4e8e_de05_3ad4
    } else if k == 15 {
        0x3fff_a747_3183_76ab
    } else if k == 16 {
        0x3fff_d3a3_8961_e6fd
    } else if k == 17 {
        0x3fff_e9d1_c0d8_fd13
    } else if k == 18 {
        0x3fff_f4e8_df76_80c4
    } else if k == 19 {
        0x3fff_fa74_6f7d_c0eb
    } else if k == 20 {
        0x3fff_fd3a_37af_8097
    } else if k == 21 {
        0x3fff_fe9d_1bd3_e853
    } else if k == 22 {
        0x3fff_ff4e_8de8_fe2b
    } else if k == 23 {
        0x3fff_ffa7_46f4_4196
    } else if k == 24 {
        0x3fff_ffd3_a37a_116b
    } else if k == 25 {
        0x3fff_ffe9_d1bd_04dd
    } else if k == 26 {
        0x3fff_fff4_e8de_8178
    } else if k == 27 {
        0x3fff_fffa_746f_407e
    } else if k == 28 {
        0x3fff_fffd_3a37_a02f
    } else if k == 29 {
        0x3fff_fffe_9d1b_d013
    } else if k == 30 {
        0x3fff_ffff_4e8d_e808
    } else if k == 31 {
        0x3fff_ffff_a746_f403
    } else {
        0x3fff_ffff_d3a3_7a01
    }
}

/// Every entry of the table is the square root, rounded down, of the one
/// before it times `UNIT`.
pub proof fn lemma_table_entry(k: nat)
    requires
        1 <= k <= 32,
    ensures
        root_of_half(k) == root_table(k),
        UNIT / 2 < root_table(k) < UNIT,
        is_integer_sqrt(root_of_half(k), UNIT * root_of_half((k - 1) as nat)),
    decreases k,
{
    let before: int = if k == 1 { (UNIT / 2) as int } else { root_table((k - 1) as nat) };
    if k > 1 {
        lemma_table_entry((k - 1) as nat);
    }
    let root = root_table(k);
    assert(is_integer_sqrt(root, UNIT * before)) by {
        if k == 1 {
            assert(0x2d41_3ccc_fe77_9921int * 0x2d41_3ccc_fe77_9921int <= 0x4000_0000_0000_0000int
                * 0x2000_0000_0000_0000int < 0x2d41_3ccc_fe77_9922int * 0x2d41_3ccc_fe77_9922int);
        }
        if k == 2 {
            assert(0x35d1_3f32_b5a7_5abdint * 0x35d1_3f32_b5a7_5abdint <= 0x4000_0000_0000_0000int
                * 0x2d41_3ccc_fe77_9921int < 0x35d1_3f32_b5a7_5abeint * 0x35d1_3f32_b5a7_5abeint);
        }
        if k == 3 {
            assert(0x3ab0_31b9_f749_0e4bint * 0x3ab0_31b9_f749_0e4bint <= 0x4000_0000_0000_0000int
                * 0x35d1_3f32_b5a7_5abdint < 0x3ab0_31b9_f749_0e4cint * 0x3ab0_31b9_f749_0e4cint);
        }
        if k == 4 {
            assert(0x3d49_5f45_4921_b30aint * 0x3d49_5f45_4921_b30aint <= 0x4000_0000_0000_0000int
                * 0x3ab0_31b9_f749_0e4bint < 0x3d49_5f45_4921_b30bint * 0x3d49_5f45_4921_b30bint);
        }
        if k == 5 {
            assert(0x3ea0_ecb6_dc8a_80ceint * 0x3ea0_ecb6_dc8a_80ceint <= 0x4000_0000_0000_0000int
                * 0x3d49_5f45_4921_b30aint < 0x3ea0_ecb6_dc8a_80cfint * 0x3ea0_ecb6_dc8a_80cfint);
        }
        if k == 6 {
            assert(0x3f4f_8303_3d21_b05cint * 0x3f4f_8303_3d21_b05cint <= 0x4000_0000_0000_0000int
                * 0x3ea0_ecb6_dc8a_80ceint < 0x3f4f_8303_3d21_b05dint * 0x3f4f_8303_3d21_b05dint);
        }
        if k == 7 {
            assert(0x3fa7_8457_1ee3_e212int * 0x3fa7_8457_1ee3_e212int <= 0x4000_0000_0000_0000int
                * 0x3f4f_8303_3d21_b05cint < 0x3fa7_8457_1ee3_e213int * 0x3fa7_8457_1ee3_e213int);
        }
        if k == 8 {
            assert(0x3fd3_b2d6_5447_b228int * 0x3fd3_b2d6_5447_b228int <= 0x4000_0000_0000_0000int
                * 0x3fa7_8457_1ee3_e212int < 0x3fd3_b2d6_5447_b229int * 0x3fd3_b2d6_5447_b229int);
        }
        if k == 9 {
            assert(0x3fe9_d594_8723_6bb3int * 0x3fe9_d594_8723_6bb3int <= 0x4000_0000_0000_0000int
                * 0x3fd3_b2d6_5447_b228int < 0x3fe9_d594_8723_6bb4int * 0x3fe9_d594_8723_6bb4int);
        }
        if k == 10 {
            assert(0x3ff4_e9d4_703d_f842int * 0x3ff4_e9d4_703d_f842int <= 0x4000_0000_0000_0000int
                * 0x3fe9_d594_8723_6bb3int < 0x3ff4_e9d4_703d_f843int * 0x3ff4_e9d4_703d_f843int);
        }
        if k == 11 {
            assert(0x3ffa_74ac_bdf6_c9d4int * 0x3ffa_74ac_bdf6_c9d4int <= 0x4000_0000_0000_0000int
                * 0x3ff4_e9d4_703d_f842int < 0x3ffa_74ac_bdf6_c9d5int * 0x3ffa_74ac_bdf6_c9d5int);
        }
        if k == 12 {
            assert(0x3ffd_3a46_ffc6_e30eint * 0x3ffd_3a46_ffc6_e30eint <= 0x4000_0000_0000_0000int
                * 0x3ffa_74ac_bdf6_c9d4int < 0x3ffd_3a46_ffc6_e30fint * 0x3ffd_3a46_ffc6_e30fint);
        }
        if k == 13 {
            assert(0x3ffe_9d1f_a801_0198int * 0x3ffe_9d1f_a801_0198int <= 0x4000_0000_0000_0000int
                * 0x3ffd_3a46_ffc6_e30eint < 0x3ffe_9d1f_a801_0199int * 0x3ffe_9d1f_a801_0199int);
        }
        if k == 14 {
            assert(0x3fff_4e8e_de05_3ad4int * 0x3fff_4e8e_de05_3ad4int <= 0x4000_0000_0000_0000int
                * 0x3ffe_9d1f_a801_0198int < 0x3fff_4e8e_de05_3ad5int * 0x3fff_4e8e_de05_3ad5int);
        }
        if k == 15 {
            assert(0x3fff_a747_3183_76abint * 0x3fff_a747_3183_76abint <= 0x4000_0000_0000_0000int
                * 0x3fff_4e8e_de05_3ad4int < 0x3fff_a747_3183_76acint * 0x3fff_a747_3183_76acint);
        }
        if k == 16 {
            assert(0x3fff_d3a3_8961_e6fdint * 0x3fff_d3a3_8961_e6fdint <= 0x4000_0000_0000_0000int
                * 0x3fff_a747_3183_76abint < 0x3fff_d3a3_8961_e6feint * 0x3fff_d3a3_8961_e6feint);
        }
        if k == 17 {
            assert(0x3fff_e9d1_c0d8_fd13int * 0x3fff_e9d1_c0d8_fd13int <= 0x4000_0000_0000_0000int
                * 0x3fff_d3a3_8961_e6fdint < 0x3fff_e9d1_c0d8_fd14int * 0x3fff_e9d1_c0d8_fd14int);
        }
        if k == 18 {
            assert(0x3fff_f4e8_df76_80c4int * 0x3fff_f4e8_df76_80c4int <= 0x4000_0000_0000_0000int
                * 0x3fff_e9d1_c0d8_fd13int < 0x3fff_f4e8_df76_80c5int * 0x3fff_f4e8_df76_80c5int);
        }
        if k == 19 {
            assert(0x3fff_fa74_6f7d_c0ebint * 0x3fff_fa74_6f7d_c0ebint <= 0x4000_0000_0000_0000int
                * 0x3fff_f4e8_df76_80c4int < 0x3fff_fa74_6f7d_c0ecint * 0x3fff_fa74_6f7d_c0ecint);
        }
        if k == 20 {
            assert(0x3fff_fd3a_37af_8097int * 0x3fff_fd3a_37af_8097int <= 0x4000_0000_0000_0000int
                * 0x3fff_fa74_6f7d_c0ebint < 0x3fff_fd3a_37af_8098int * 0x3fff_fd3a_37af_8098int);
        }
        if k == 21 {
            assert(0x3fff_fe9d_1bd3_e853int * 0x3fff_fe9d_1bd3_e853int <= 0x4000_0000_0000_0000int
                * 0x3fff_fd3a_37af_8097int < 0x3fff_fe9d_1bd3_e854int * 0x3fff_fe9d_1bd3_e854int);
        }
        if k == 22 {
            assert(0x3fff_ff4e_8de8_fe2bint * 0x3fff_ff4e_8de8_fe2bint <= 0x4000_0000_0000_0000int
                * 0x3fff_fe9d_1bd3_e853int < 0x3fff_ff4e_8de8_fe2cint * 0x3fff_ff4e_8de8_fe2cint);
        }
        if k == 23 {
            assert(0x3fff_ffa7_46f4_4196int * 0x3fff_ffa7_46f4_4196int <= 0x4000_0000_0000_0000int
                * 0x3fff_ff4e_8de8_fe2bint < 0x3fff_ffa7_46f4_4197int * 0x3fff_ffa7_46f4_4197int);
        }
        if k == 24 {
            assert(0x3fff_ffd3_a37a_116bint * 0x3fff_ffd3_a37a_116bint <= 0x4000_0000_0000_0000int
                * 0x3fff_ffa7_46f4_4196int < 0x3fff_ffd3_a37a_116cint * 0x3fff_ffd3_a37a_116cint);
        }
        if k == 25 {
            assert(0x3fff_ffe9_d1bd_04ddint * 0x3fff_ffe9_d1bd_04ddint <= 0x4000_0000_0000_0000int
                * 0x3fff_ffd3_a37a_116bint < 0x3fff_ffe9_d1bd_04deint * 0x3fff_ffe9_d1bd_04deint);
        }
        if k == 26 {
            assert(0x3fff_fff4_e8de_8178int * 0x3fff_fff4_e8de_8178int <= 0x4000_0000_0000_0000int
                * 0x3fff_ffe9_d1bd_04ddint < 0x3fff_fff4_e8de_8179int * 0x3fff_fff4_e8de_8179int);
        }
        if k == 27 {
            assert(0x3fff_fffa_746f_407eint * 0x3fff_fffa_746f_407eint <= 0x4000_0000_0000_0000int
                * 0x3fff_fff4_e8de_8178int < 0x3fff_fffa_746f_407fint * 0x3fff_fffa_746f_407fint);
        }
        if k == 28 {
            assert(0x3fff_fffd_3a37_a02fint * 0x3fff_fffd_3a37_a02fint <= 0x4000_0000_0000_0000int
                * 0x3fff_fffa_746f_407eint < 0x3fff_fffd_3a37_a030int * 0x3fff_fffd_3a37_a030int);
        }
        if k == 29 {
            assert(0x3fff_fffe_9d1b_d013int * 0x3fff_fffe_9d1b_d013int <= 0x4000_0000_0000_0000int
                * 0x3fff_fffd_3a37_a02fint < 0x3fff_fffe_9d1b_d014int * 0x3fff_fffe_9d1b_d014int);
        }
        if k == 30 {
            assert(0x3fff_ffff_4e8d_e808int * 0x3fff_ffff_4e8d_e808int <= 0x4000_0000_0000_0000int
                * 0x3fff_fffe_9d1b_d013int < 0x3fff_ffff_4e8d_e809int * 0x3fff_ffff_4e8d_e809int);
        }
        if k == 31 {
            assert(0x3fff_ffff_a746_f403int * 0x3fff_ffff_a746_f403int <= 0x4000_0000_0000_0000int
                * 0x3fff_ffff_4e8d_e808int < 0x3fff_ffff_a746_f404int * 0x3fff_ffff_a746_f404int);
        }
        if k == 32 {
            assert(0x3fff_ffff_d3a3_7a01int * 0x3fff_ffff_d3a3_7a01int <= 0x4000_0000_0000_0000int
                * 0x3fff_ffff_a746_f403int < 0x3fff_ffff_d3a3_7a02int * 0x3fff_ffff_d3a3_7a02int);
        }
    }
    lemma_next_root(k, before, root);
}

/// The share `2^-(x / 2^k)` for `x < 2^k`, as a count of 2^-62: the product
/// of the roots of one half that the set bits of `x` select, where the lowest
/// bit of `x` selects `root_of_half(k)`. Every product is rounded down.
pub open spec fn power_of_half(x: nat, k: nat) -> int
    decreases k,
{
    if k == 0 {
        UNIT as int
    } else {
        let rest = power_of_half(x / 2, (k - 1) as nat);
        if x % 2 == 1 {
            rest * root_of_half(k) / (UNIT as int)
        } else {
            rest
        }
    }
}

/// The time `elapsed`, measured in steps of which `STEPS_PER_HALVING` make
/// one half-time, rounded down.
pub open spec fn elapsed_steps(elapsed: nat, half_time: nat) -> nat
    recommends
        half_time > 0,
{
    elapsed * (STEPS_PER_HALVING as nat) / half_time
}

/// The share `2^-(steps / 2^32)`, as a count of 2^-62.
pub open spec fn share_after_steps(steps: nat) -> int {
    power_of_half(steps % (STEPS_PER_HALVING as nat), STEP_BITS as nat) / (pow2(
        steps / (STEPS_PER_HALVING as nat),
    ) as int)
}

/// The share of a pressure difference that is left after the time `elapsed`
/// in a compartment with the given half-time, as a count of 2^-62.
pub open spec fn remaining(elapsed: nat, half_time: nat) -> int
    recommends
        half_time > 0,
{
    share_after_steps(elapsed_steps(elapsed, half_time))
}

/// A product of roots of one half is a share between zero and one.
pub proof fn lemma_power_of_half_bounds(x: nat, k: nat)
    requires
        k <= 32,
    ensures
        0 <= power_of_half(x, k) <= UNIT,
    decreases k,
{
    if k > 0 {
        lemma_power_of_half_bounds(x / 2, (k - 1) as nat);
        lemma_table_entry(k);
        let rest = power_of_half(x / 2, (k - 1) as nat);
        let root = root_of_half(k);
        lemma_product_of_shares(rest, root);
    }
}

/// The rounded product of two shares is a share, and no more than the first.
pub proof fn lemma_product_of_shares(a: int, b: int)
    requires
        0 <= a <= UNIT,
        0 <= b <= UNIT,
    ensures
        0 <= a * b / (UNIT as int) <= a,
{
    let unit = UNIT as int;
    assert(0 <= a * b <= a * unit) by (nonlinear_arith)
        requires
            0 <= a,
            0 <= b <= unit,
    ;
}

/// With no bit set the share is one.
pub proof fn lemma_power_of_half_of_zero(k: nat)
    ensures
        power_of_half(0, k) == UNIT,
    decreases k,
{
    if k > 0 {
        lemma_power_of_half_of_zero((k - 1) as nat);
    }
}

/// What remains is a share between zero and one.
pub proof fn lemma_remaining_is_a_share(elapsed: nat, half_time: nat)
    requires
        half_time > 0,
    ensures
        0 <= remaining(elapsed, half_time) <= UNIT,
{
    let steps = elapsed_steps(elapsed, half_time);
    lemma_power_of_half_bounds(steps % (STEPS_PER_HALVING as nat), STEP_BITS as nat);
    lemma_pow2_pos(steps / (STEPS_PER_HALVING as nat));
}

/// The steps of no time are none.
pub proof fn lemma_elapsed_steps_of_zero(half_time: nat)
    requires
        half_time > 0,
    ensures
        elapsed_steps(0, half_time) == 0,
{
}

/// One more half-time is `STEPS_PER_HALVING` more steps.
pub proof fn lemma_elapsed_steps_of_one_more_half_time(elapsed: nat, half_time: nat)
    requires
        half_time > 0,
    ensures
        elapsed_steps(elapsed + half_time, half_time) == elapsed_steps(elapsed, half_time)
            + STEPS_PER_HALVING,
{
    let steps = STEPS_PER_HALVING as int;
    assert((elapsed + half_time) * steps == elapsed * steps + steps * half_time)
        by (nonlinear_arith);
    lemma_hoist_over_denominator(elapsed * steps, steps, half_time);
}

/// The steps are the time in units of 2^-32 half-times, rounded down.
pub proof fn lemma_elapsed_steps_bracket(elapsed: nat, half_time: nat)
    requires
        half_time > 0,
    ensures
        elapsed_steps(elapsed, half_time) * half_time <= elapsed * STEPS_PER_HALVING,
        elapsed * STEPS_PER_HALVING < (elapsed_steps(elapsed, half_time) + 1) * half_time,
{
    let product = (elapsed * (STEPS_PER_HALVING as nat)) as int;
    let h = half_time as int;
    lemma_fundamental_div_mod(product, h);
    let q = product / h;
    assert(q * h == h * q) by (nonlinear_arith);
    assert((q + 1) * h == h * q + h) by (nonlinear_arith);
}

/// After no time the whole difference remains.
pub proof fn lemma_all_remains_at_first(half_time: nat)
    requires
        half_time > 0,
    ensures
        remaining(0, half_time) == UNIT,
{
    lemma_elapsed_steps_of_zero(half_time);
    lemma_power_of_half_of_zero(STEP_BITS as nat);
    lemma2_to64();
    let per = STEPS_PER_HALVING as nat;
    assert(0nat % per == 0 && 0nat / per == 0);
}

/// Every further half-time halves what remains.
pub proof fn lemma_half_time_halves(elapsed: nat, half_time: nat)
    requires
        half_time > 0,
    ensures
        remaining(elapsed + half_time, half_time) == remaining(elapsed, half_time) / 2,
{
    let per = STEPS_PER_HALVING as nat;
    let before = elapsed_steps(elapsed, half_time);
    let after = elapsed_steps(elapsed + half_time, half_time);
    lemma_elapsed_steps_of_one_more_half_time(elapsed, half_time);
    assert(after % per == before % per && after / per == before / per + 1);
    let within = power_of_half(before % per, STEP_BITS as nat);
    lemma_power_of_half_bounds(before % per, STEP_BITS as nat);
    let halvings = before / per;
    lemma_pow2_pos(halvings);
    lemma_pow2_unfold(halvings + 1);
    lemma_div_denominator(within, pow2(halvings) as int, 2);
}

/// After one half-time half of the difference remains.
pub proof fn lemma_half_remains_after_half_time(half_time: nat)
    requires
        half_time > 0,
    ensures
        remaining(half_time, half_time) == UNIT / 2,
{
    lemma_all_remains_at_first(half_time);
    lemma_half_time_halves(0, half_time);
}

/// The root for the bit of index `k`, counted from 1 at the highest.
fn root_for_bit(k: u32) -> (root: u64)
    requires
        1 <= k <= 32,
    ensures
        root == root_of_half(k as nat),
        UNIT / 2 < root < UNIT,
{
    proof {
        lemma_table_entry(k as nat);
    }
    if k == 1 {
        0x2d41_3ccc_fe77_9921
    } else if k == 2 {
        0x35d1_3f32_b5a7_5abd
    } else if k == 3 {
        0x3ab0_31b9_f749_0e4b
    } else if k == 4 {
        0x3d49_5f45_4921_b30a
    } else if k == 5 {
        0x3ea0_ecb6_dc8a_80ce
    } else if k == 6 {
        0x3f4f_8303_3d21_b05c
    } else if k == 7 {
        0x3fa7_8457_1ee3_e212
    } else if k == 8 {
        0x3fd3_b2d6_5447_b228
    } else if k == 9 {
        0x3fe9_d594_8723_6bb3
    } else if k == 10 {
        0x3ff4_e9d4_703d_f842
    } else if k == 11 {
        0x3ffa_74ac_bdf6_c9d4
    } else if k == 12 {
        0x3ffd_3a46_ffc6_e30e
    } else if k == 13 {
        0x3ffe_9d1f_a801_0198
    } else if k == 14 {
        0x3fff_4e8e_de05_3ad4
    } else if k == 15 {
        0x3fff_a747_3183_76ab
    } else if k == 16 {
        0x3fff_d3a3_8961_e6fd
    } else if k == 17 {
        0x3fff_e9d1_c0d8_fd13
    } else if k == 18 {
        0x3fff_f4e8_df76_80c4
    } else if k == 19 {
        0x3fff_fa74_6f7d_c0eb
    } else if k == 20 {
        0x3fff_fd3a_37af_8097
    } else if k == 21 {
        0x3fff_fe9d_1bd3_e853
    } else if k == 22 {
        0x3fff_ff4e_8de8_fe2b
    } else if k == 23 {
        0x3fff_ffa7_46f4_4196
    } else if k == 24 {
        0x3fff_ffd3_a37a_116b
    } else if k == 25 {
        0x3fff_ffe9_d1bd_04dd
    } else if k == 26 {
        0x3fff_fff4_e8de_8178
    } else if k == 27 {
        0x3fff_fffa_746f_407e
    } else if k == 28 {
        0x3fff_fffd_3a37_a02f
    } else if k == 29 {
        0x3fff_fffe_9d1b_d013
    } else if k == 30 {
        0x3fff_ffff_4e8d_e808
    } else if k == 31 {
        0x3fff_ffff_a746_f403
    } else {
        0x3fff_ffff_d3a3_7a01
    }
}

/// Computes `share_after_steps` for fewer steps than one half-time.
fn share_within_halving(steps: u64) -> (share: u64)
    requires
        steps < STEPS_PER_HALVING,
    ensures
        share == power_of_half(steps as nat, STEP_BITS as nat),
        share <= UNIT,
{
    let mut share: u64 = UNIT;
    let mut bits: u32 = 0;
    let mut weight: u64 = STEPS_PER_HALVING;
    proof {
        lemma2_to64();
    }
    while bits < STEP_BITS
        invariant
            bits <= STEP_BITS,
            steps < STEPS_PER_HALVING,
            weight == pow2((STEP_BITS - bits) as nat),
            0 < weight <= STEPS_PER_HALVING,
            share == power_of_half((steps / weight) as nat, bits as nat),
            share <= UNIT,
        decreases STEP_BITS - bits,
    {
        proof {
            lemma_pow2_unfold((STEP_BITS - bits) as nat);
        }
        weight = weight / 2;
        bits = bits + 1;
        let prefix: u64 = steps / weight;
        proof {
            lemma_div_denominator(steps as int, weight as int, 2);
        }
        if prefix % 2 == 1 {
            let root: u64 = root_for_bit(bits);
            proof {
                assert(share * root <= 0x4000_0000_0000_0000 * 0x4000_0000_0000_0000)
                    by (nonlinear_arith)
                    requires
                        share <= 0x4000_0000_0000_0000,
                        root <= 0x4000_0000_0000_0000,
                ;
            }
            let product: u128 = (share as u128) * (root as u128);
            share = (product / (UNIT as u128)) as u64;
        }
    }
    proof {
        assert(steps / 1 == steps);
    }
    share
}

/// The share of a pressure difference that is left after the time `elapsed`
/// in a compartment with the given half-time, as a count of 2^-62.
pub fn fraction_remaining(elapsed: Minutes, half_time: Minutes) -> (share: u64)
    requires
        half_time.0 > 0,
    ensures
        share == remaining(elapsed.0 as nat, half_time.0 as nat),
        share <= UNIT,
{
    proof {
        assert(elapsed.0 * STEPS_PER_HALVING <= 0xffff_ffff_ffff_ffff * 0x1_0000_0000)
            by (nonlinear_arith)
            requires
                elapsed.0 <= 0xffff_ffff_ffff_ffff,
                STEPS_PER_HALVING == 0x1_0000_0000,
        ;
    }
    let steps: u128 = (elapsed.0 as u128) * (STEPS_PER_HALVING as u128) / (half_time.0 as u128);
    let halvings: u128 = steps / (STEPS_PER_HALVING as u128);
    let rest: u64 = (steps % (STEPS_PER_HALVING as u128)) as u64;
    let within: u64 = share_within_halving(rest);
    proof {
        lemma_pow2_pos(halvings as nat);
    }
    if halvings >= 63 {
        proof {
            lemma2_to64_rest();
            if halvings > 63 {
                lemma_pow2_strictly_increases(63, halvings as nat);
            }
            lemma_basic_div(within as int, pow2(halvings as nat) as int);
        }
        0
    } else {
        let shift: u32 = halvings as u32;
        proof {
            lemma_u64_shr_is_div(within, shift as u64);
        }
        within >> shift
    }
}

} // verus!
