//! One tissue compartment: its constants, its nitrogen loading, and the
//! pressures and depths that follow from them.

use vstd::prelude::*;
use crate::decay::{
    fraction_remaining, lemma_all_remains_at_first, lemma_half_remains_after_half_time,
    lemma_remaining_is_a_share, remaining, UNIT,
};
use crate::measures::{
    ambient_pressure, quotient, scaled_product, scaled_ratio, Ata, Feet, Minutes,
    AIR_NITROGEN_RATIO, FEET_PER_ATMOSPHERE, MAX_DEPTH, MAX_PRESSURE, SCALE,
    WATER_VAPOUR_PRESSURE,
};

verus! {

/// Largest slope, 100,000, of a compartment's tolerated pressure.
pub const MAX_SLOPE: i64 = 100_000_000_000;

/// Partial pressure of the inert gas in the lungs at a depth, for a breathing
/// gas of which the inert gas is the share `ratio`: the ambient pressure less
/// the water vapour, times the share.
pub open spec fn inspired_pressure(depth: int, ratio: int) -> int {
    scaled_product(ambient_pressure(depth) - WATER_VAPOUR_PRESSURE, ratio)
}

/// The part of the difference `gap` that a compartment with the given
/// half-time closes in the time `elapsed`: the gap times one less the share
/// that remains.
pub open spec fn uptake(gap: int, elapsed: nat, half_time: nat) -> int {
    quotient(gap * (UNIT - remaining(elapsed, half_time)), UNIT as int)
}

/// A compartment as mathematical values, each a count of millionths.
pub struct CompartmentState {
    /// Minutes in which half of a pressure difference is closed.
    pub half_time: nat,
    /// Pressure tolerated at the surface.
    pub surface_m_value: int,
    /// Growth of the tolerated pressure per atmosphere of ambient pressure.
    pub m_slope: int,
    /// Partial pressure of the nitrogen dissolved in the tissue.
    pub nitrogen_concentration: int,
}

impl CompartmentState {
    /// The constants are positive and, like the loading, within the limits
    /// of the model.
    pub open spec fn wf(self) -> bool {
        &&& 0 < self.half_time <= u64::MAX
        &&& 0 < self.surface_m_value <= MAX_PRESSURE
        &&& 0 < self.m_slope <= MAX_SLOPE
        &&& -MAX_PRESSURE <= self.nitrogen_concentration <= MAX_PRESSURE
    }

    /// A compartment with the given constants, loaded as at the surface in
    /// air.
    pub open spec fn fresh(half_time: nat, surface_m_value: int, m_slope: int) -> Self {
        CompartmentState {
            half_time,
            surface_m_value,
            m_slope,
            nitrogen_concentration: AIR_NITROGEN_RATIO as int,
        }
    }

    /// The loading after the time `duration` at one depth.
    pub open spec fn loading_after(self, duration: nat, depth: int, ratio: int) -> int {
        self.nitrogen_concentration + uptake(
            inspired_pressure(depth, ratio) - self.nitrogen_concentration,
            duration,
            self.half_time,
        )
    }

    /// The compartment after the time `duration` at one depth: the loading
    /// has moved toward the inspired pressure, the constants are the same.
    pub open spec fn after(self, duration: nat, depth: int, ratio: int) -> Self {
        CompartmentState {
            nitrogen_concentration: self.loading_after(duration, depth, ratio),
            ..self
        }
    }

    /// The compartment after `steps` times the time `duration`, all at one
    /// depth.
    pub open spec fn after_steps(self, steps: nat, duration: nat, depth: int, ratio: int) -> Self
        decreases steps,
    {
        if steps == 0 {
            self
        } else {
            self.after_steps((steps - 1) as nat, duration, depth, ratio).after(
                duration,
                depth,
                ratio,
            )
        }
    }

    /// The compartment after a dive: a sequence of stays, each a time and the
    /// depth at which it was spent.
    pub open spec fn after_dive(self, stays: Seq<(nat, int)>, ratio: int) -> Self
        decreases stays.len(),
    {
        if stays.len() == 0 {
            self
        } else {
            self.after_dive(stays.drop_last(), ratio).after(
                stays.last().0,
                stays.last().1,
                ratio,
            )
        }
    }

    /// The greatest loading tolerated at a depth: the surface value, plus the
    /// slope for each atmosphere that the ambient pressure is above one.
    pub open spec fn m_value_at(self, depth: int) -> int {
        self.surface_m_value + scaled_product(self.m_slope, ambient_pressure(depth) - SCALE)
    }

    /// The depth at which the loading would be the tolerated one, before it
    /// is held at the surface: 33 feet for each atmosphere that the ambient
    /// pressure would have to be above one.
    pub open spec fn unclamped_ceiling(self) -> int {
        FEET_PER_ATMOSPHERE * scaled_ratio(
            self.nitrogen_concentration - self.surface_m_value,
            self.m_slope,
        )
    }

    /// The shallowest depth to which the compartment allows an ascent, zero
    /// where it allows the surface.
    pub open spec fn ceiling(self) -> int {
        if self.unclamped_ceiling() < 0 {
            0
        } else {
            self.unclamped_ceiling()
        }
    }
}

/// Within the depth limits, and for a share of inert gas between zero and
/// one, the inspired pressure is within the pressure limits.
pub proof fn lemma_inspired_pressure_bounds(depth: int, ratio: int)
    requires
        -MAX_DEPTH <= depth <= MAX_DEPTH,
        0 <= ratio <= SCALE,
    ensures
        -MAX_PRESSURE <= inspired_pressure(depth, ratio) <= MAX_PRESSURE,
{
    let dry = ambient_pressure(depth) - WATER_VAPOUR_PRESSURE;
    lemma_scaled_product_bounds(dry, ratio);
}

/// The product of a quantity with a share between zero and one lies between
/// zero and the quantity.
pub proof fn lemma_scaled_product_bounds(a: int, share: int)
    requires
        0 <= share <= SCALE,
    ensures
        a >= 0 ==> 0 <= scaled_product(a, share) <= a,
        a <= 0 ==> a <= scaled_product(a, share) <= 0,
{
    let scale = SCALE as int;
    if a >= 0 {
        assert(0 <= a * share <= a * scale) by (nonlinear_arith)
            requires
                0 <= a,
                0 <= share <= scale,
        ;
    } else {
        assert(0 <= -(a * share) <= (-a) * scale) by (nonlinear_arith)
            requires
                a <= 0,
                0 <= share <= scale,
        ;
    }
}

/// The uptake has the sign of the gap and is no larger than the gap.
pub proof fn lemma_uptake_bounds(gap: int, elapsed: nat, half_time: nat)
    requires
        half_time > 0,
    ensures
        gap >= 0 ==> 0 <= uptake(gap, elapsed, half_time) <= gap,
        gap <= 0 ==> gap <= uptake(gap, elapsed, half_time) <= 0,
{
    lemma_remaining_is_a_share(elapsed, half_time);
    let unit = UNIT as int;
    let closed = unit - remaining(elapsed, half_time);
    if gap >= 0 {
        assert(0 <= gap * closed <= gap * unit) by (nonlinear_arith)
            requires
                0 <= gap,
                0 <= closed <= unit,
        ;
    } else {
        assert(0 <= -(gap * closed) <= (-gap) * unit) by (nonlinear_arith)
            requires
                gap <= 0,
                0 <= closed <= unit,
        ;
    }
}

/// In one step the loading moves toward the inspired pressure and does not
/// pass it.
pub proof fn lemma_step_approaches_inspired_pressure(
    state: CompartmentState,
    duration: nat,
    depth: int,
    ratio: int,
)
    requires
        state.half_time > 0,
    ensures
        ({
            let before = state.nitrogen_concentration;
            let after = state.after(duration, depth, ratio).nitrogen_concentration;
            let inspired = inspired_pressure(depth, ratio);
            &&& before <= inspired ==> before <= after <= inspired
            &&& before >= inspired ==> inspired <= after <= before
        }),
{
    lemma_uptake_bounds(
        inspired_pressure(depth, ratio) - state.nitrogen_concentration,
        duration,
        state.half_time,
    );
}

/// A step within the depth limits, with a share of inert gas between zero
/// and one, keeps a compartment within the limits of the model.
pub proof fn lemma_step_keeps_limits(state: CompartmentState, duration: nat, depth: int, ratio: int)
    requires
        state.wf(),
        -MAX_DEPTH <= depth <= MAX_DEPTH,
        0 <= ratio <= SCALE,
    ensures
        state.after(duration, depth, ratio).wf(),
{
    lemma_inspired_pressure_bounds(depth, ratio);
    lemma_step_approaches_inspired_pressure(state, duration, depth, ratio);
}

/// Steps of one duration at one depth, however many, move the loading toward
/// the inspired pressure one after the other: each leaves it between the
/// loading before that step and the inspired pressure, and on the side of the
/// inspired pressure on which it began.
pub proof fn lemma_repeated_steps_approach_inspired_pressure(
    state: CompartmentState,
    steps: nat,
    duration: nat,
    depth: int,
    ratio: int,
)
    requires
        state.half_time > 0,
    ensures
        ({
            let start = state.nitrogen_concentration;
            let before = state.after_steps(steps, duration, depth, ratio).nitrogen_concentration;
            let after = state.after_steps(
                steps + 1,
                duration,
                depth,
                ratio,
            ).nitrogen_concentration;
            let inspired = inspired_pressure(depth, ratio);
            &&& start <= inspired ==> start <= before <= after <= inspired
            &&& start >= inspired ==> inspired <= after <= before <= start
        }),
        state.after_steps(steps, duration, depth, ratio).half_time == state.half_time,
    decreases steps,
{
    if steps > 0 {
        lemma_repeated_steps_approach_inspired_pressure(
            state,
            (steps - 1) as nat,
            duration,
            depth,
            ratio,
        );
    }
    lemma_step_approaches_inspired_pressure(
        state.after_steps(steps, duration, depth, ratio),
        duration,
        depth,
        ratio,
    );
}

/// A step as long as the half-time halves the difference between the
/// inspired pressure and the loading, to within one count.
pub proof fn lemma_half_time_halves_the_gap(state: CompartmentState, depth: int, ratio: int)
    requires
        state.half_time > 0,
    ensures
        ({
            let inspired = inspired_pressure(depth, ratio);
            let before = inspired - state.nitrogen_concentration;
            let after = inspired - state.after(
                state.half_time,
                depth,
                ratio,
            ).nitrogen_concentration;
            &&& after == before - quotient(before, 2)
            &&& -1 <= 2 * after - before <= 1
        }),
{
    lemma_half_remains_after_half_time(state.half_time);
}

/// A step of no duration leaves the compartment as it was, at any depth.
pub proof fn lemma_no_time_changes_nothing(state: CompartmentState, depth: int, ratio: int)
    requires
        state.half_time > 0,
    ensures
        state.after(0, depth, ratio) == state,
{
    lemma_all_remains_at_first(state.half_time);
    let gap = inspired_pressure(depth, ratio) - state.nitrogen_concentration;
    assert(gap * (UNIT - remaining(0, state.half_time)) == 0) by (nonlinear_arith)
        requires
            UNIT - remaining(0, state.half_time) == 0,
    ;
}

/// The ceiling is never above the surface, whatever the loading.
pub proof fn lemma_ceiling_is_not_negative(state: CompartmentState)
    ensures
        state.ceiling() >= 0,
{
}

/// A compartment that tolerates at the surface at least what it holds has
/// its ceiling at the surface.
pub proof fn lemma_no_ceiling_below_tolerance(state: CompartmentState)
    requires
        state.m_slope > 0,
        state.nitrogen_concentration <= state.surface_m_value,
    ensures
        state.ceiling() == 0,
{
}

/// At the surface a compartment tolerates its surface value, and every
/// whole atmosphere of sea water above or below adds or takes the slope.
pub proof fn lemma_m_value_is_linear(state: CompartmentState, atmospheres: int)
    ensures
        state.m_value_at(0) == state.surface_m_value,
        state.m_value_at(atmospheres * FEET_PER_ATMOSPHERE * SCALE) == state.surface_m_value
            + atmospheres * state.m_slope,
{
    let scale = SCALE as int;
    let depth = atmospheres * FEET_PER_ATMOSPHERE * SCALE;
    assert(depth == 33 * (atmospheres * scale)) by (nonlinear_arith)
        requires
            depth == atmospheres * FEET_PER_ATMOSPHERE * SCALE,
            FEET_PER_ATMOSPHERE == 33,
            scale == SCALE,
    ;
    let product = state.m_slope * (atmospheres * scale);
    assert(product == scale * (atmospheres * state.m_slope)) by (nonlinear_arith)
        requires
            product == state.m_slope * (atmospheres * scale),
    ;
    assert(-product == scale * (-(atmospheres * state.m_slope))) by (nonlinear_arith)
        requires
            product == scale * (atmospheres * state.m_slope),
    ;
    assert(state.m_slope * 0 == 0);
}

/// At its ceiling a compartment tolerates what it holds, to within the
/// rounding: where the loading is at least the surface value, the loading
/// tolerated at the ceiling is no more than the loading, and less than one
/// count and the slope's share of a count below it.
pub proof fn lemma_ceiling_inverts_m_value(state: CompartmentState)
    requires
        state.m_slope > 0,
        state.nitrogen_concentration >= state.surface_m_value,
    ensures
        state.ceiling() == state.unclamped_ceiling(),
        state.m_value_at(state.ceiling()) <= state.nitrogen_concentration,
        (state.nitrogen_concentration - state.m_value_at(state.ceiling())) * SCALE < SCALE
            + state.m_slope,
{
    let scale = SCALE as int;
    let slope = state.m_slope;
    let excess = state.nitrogen_concentration - state.surface_m_value;
    let atmospheres = scaled_ratio(excess, slope);
    assert(0 <= excess * scale) by (nonlinear_arith)
        requires
            0 <= excess,
            0 <= scale,
    ;
    vstd::arithmetic::div_mod::lemma_fundamental_div_mod(excess * scale, slope);
    let depth = FEET_PER_ATMOSPHERE * atmospheres;
    assert(depth == 33 * atmospheres) by (nonlinear_arith)
        requires
            depth == FEET_PER_ATMOSPHERE * atmospheres,
            FEET_PER_ATMOSPHERE == 33,
    ;
    assert(0 <= slope * atmospheres) by (nonlinear_arith)
        requires
            0 <= slope,
            0 <= atmospheres,
    ;
    let extra = (slope * atmospheres) / scale;
    assert(extra <= excess && (excess - extra) * scale < scale + slope) by (nonlinear_arith)
        requires
            excess * scale == slope * atmospheres + (excess * scale) % slope,
            0 <= (excess * scale) % slope < slope,
            slope * atmospheres == scale * extra + (slope * atmospheres) % scale,
            0 <= (slope * atmospheres) % scale < scale,
            scale > 0,
    ;
}

/// Two compartments that begin alike and make the same dive end alike: what
/// a compartment holds after a dive depends on nothing but its constants, its
/// loading before, and the stays of the dive.
pub proof fn lemma_same_dive_same_state(
    first: CompartmentState,
    second: CompartmentState,
    stays: Seq<(nat, int)>,
    ratio: int,
)
    requires
        first == second,
    ensures
        first.after_dive(stays, ratio) == second.after_dive(stays, ratio),
{
}

/// A dive changes the loading only: the constants stay as they were made.
pub proof fn lemma_dive_keeps_constants(state: CompartmentState, stays: Seq<(nat, int)>, ratio: int)
    ensures
        state.after_dive(stays, ratio).half_time == state.half_time,
        state.after_dive(stays, ratio).surface_m_value == state.surface_m_value,
        state.after_dive(stays, ratio).m_slope == state.m_slope,
    decreases stays.len(),
{
    if stays.len() > 0 {
        lemma_dive_keeps_constants(state, stays.drop_last(), ratio);
    }
}

/// One tissue compartment of the diver's body.
#[derive(Clone, Copy, Debug, PartialEq, Eq)]
pub struct TissueCompartment {
    surface_m_value: Ata,
    m_slope: i64,
    half_time: Minutes,
    nitrogen_concentration: Ata,
}

impl View for TissueCompartment {
    type V = CompartmentState;

    closed spec fn view(&self) -> CompartmentState {
        CompartmentState {
            half_time: self.half_time.0 as nat,
            surface_m_value: self.surface_m_value.0 as int,
            m_slope: self.m_slope as int,
            nitrogen_concentration: self.nitrogen_concentration.0 as int,
        }
    }
}

impl TissueCompartment {
    /// Two compartments with the same constants and the same loading are the
    /// same value.
    pub proof fn lemma_view_is_the_whole(self, other: TissueCompartment)
        requires
            self@ == other@,
        ensures
            self == other,
    {
    }

    /// Whether the compartment's constants and loading are within the limits
    /// of the model.
    pub open spec fn wf(&self) -> bool {
        self@.wf()
    }

    /// Whether the three constants can make a compartment: each is positive,
    /// the tolerated pressure is at most `MAX_PRESSURE` and the slope at most
    /// `MAX_SLOPE`.
    pub open spec fn valid_constants(half_time: u64, surface_m_value: i64, m_slope: i64) -> bool {
        &&& 0 < half_time
        &&& 0 < surface_m_value <= MAX_PRESSURE
        &&& 0 < m_slope <= MAX_SLOPE
    }

    /// Tests `valid_constants`.
    pub fn are_valid_constants(half_time: u64, surface_m_value: i64, m_slope: i64) -> (b: bool)
        ensures
            b == Self::valid_constants(half_time, surface_m_value, m_slope),
    {
        0 < half_time && 0 < surface_m_value && surface_m_value <= MAX_PRESSURE && 0 < m_slope
            && m_slope <= MAX_SLOPE
    }

    /// A compartment with the given constants, each a count of millionths,
    /// loaded with nitrogen as at the surface in air.
    pub fn new(half_time: u64, surface_m_value: i64, m_slope: i64) -> (compartment:
        TissueCompartment)
        requires
            Self::valid_constants(half_time, surface_m_value, m_slope),
        ensures
            compartment@ == CompartmentState::fresh(
                half_time as nat,
                surface_m_value as int,
                m_slope as int,
            ),
            compartment.wf(),
    {
        TissueCompartment {
            surface_m_value: Ata(surface_m_value),
            m_slope,
            half_time: Minutes(half_time),
            nitrogen_concentration: Ata(AIR_NITROGEN_RATIO),
        }
    }

    /// Moves the loading toward the inspired pressure at `depth`, by as much
    /// as the compartment takes up or gives off in `time_at_depth`.
    /// `nitrogen_ratio` is the share of nitrogen in the breathing gas.
    pub fn simulate(&mut self, time_at_depth: Minutes, depth: Feet, nitrogen_ratio: i64)
        requires
            old(self).wf(),
            depth.within_limits(),
            0 <= nitrogen_ratio <= SCALE,
        ensures
            final(self)@ == old(self)@.after(
                time_at_depth.0 as nat,
                depth.0 as int,
                nitrogen_ratio as int,
            ),
            final(self).wf(),
            time_at_depth.0 == 0 ==> *final(self) == *old(self),
            ({
                let before = old(self)@.nitrogen_concentration;
                let after = final(self)@.nitrogen_concentration;
                let inspired = inspired_pressure(depth.0 as int, nitrogen_ratio as int);
                &&& before <= inspired ==> before <= after <= inspired
                &&& before >= inspired ==> inspired <= after <= before
            }),
    {
        let ambient: Ata = depth.depth_atmospheric_pressure();
        proof {
            lemma_no_time_changes_nothing(self@, depth.0 as int, nitrogen_ratio as int);
            lemma_inspired_pressure_bounds(depth.0 as int, nitrogen_ratio as int);
            assert(-0x1_0000_0000_0000 * 0x10_0000 <= (ambient.0 - WATER_VAPOUR_PRESSURE)
                * nitrogen_ratio <= 0x1_0000_0000_0000 * 0x10_0000) by (nonlinear_arith)
                requires
                    -0x1_0000_0000_0000 <= ambient.0 - WATER_VAPOUR_PRESSURE <= 0x1_0000_0000_0000,
                    0 <= nitrogen_ratio <= 0x10_0000,
            ;
        }
        let dry: i128 = (ambient.0 - WATER_VAPOUR_PRESSURE) as i128;
        let inspired: i128 = dry * (nitrogen_ratio as i128) / (SCALE as i128);
        let left: u64 = fraction_remaining(time_at_depth, self.half_time);
        let gap: i128 = inspired - (self.nitrogen_concentration.0 as i128);
        let closed: i128 = (UNIT - left) as i128;
        proof {
            lemma_uptake_bounds(gap as int, time_at_depth.0 as nat, self.half_time.0 as nat);
            assert(-0x100_0000_0000 * 0x4000_0000_0000_0000 <= gap * closed <= 0x100_0000_0000
                * 0x4000_0000_0000_0000) by (nonlinear_arith)
                requires
                    -0x100_0000_0000 <= gap <= 0x100_0000_0000,
                    0 <= closed <= 0x4000_0000_0000_0000,
            ;
        }
        let moved: i128 = gap * closed / (UNIT as i128);
        self.nitrogen_concentration = Ata((self.nitrogen_concentration.0 as i128 + moved) as i64);
    }

    /// The partial pressure of the nitrogen dissolved in the tissue.
    pub fn nitrogen_concentration(&self) -> (loading: Ata)
        ensures
            loading.0 == self@.nitrogen_concentration,
    {
        self.nitrogen_concentration
    }

    /// The compartment's half-time.
    pub fn half_time(&self) -> (half_time: Minutes)
        ensures
            half_time.0 == self@.half_time,
    {
        self.half_time
    }

    /// The greatest loading that the compartment tolerates at a depth.
    pub fn m_value_at(&self, depth: Feet) -> (tolerated: Ata)
        requires
            self.wf(),
            depth.within_limits(),
        ensures
            tolerated.0 == self@.m_value_at(depth.0 as int),
    {
        let ambient: Ata = depth.depth_atmospheric_pressure();
        proof {
            assert(-0x100_0000_0000 * 0x100_0000_0000 <= self.m_slope * (ambient.0 - SCALE)
                <= 0x100_0000_0000 * 0x100_0000_0000) by (nonlinear_arith)
                requires
                    0 <= self.m_slope <= 0x100_0000_0000,
                    -0x100_0000_0000 <= ambient.0 - SCALE <= 0x100_0000_0000,
            ;
        }
        let above_one: i128 = (ambient.0 - SCALE) as i128;
        let extra: i128 = (self.m_slope as i128) * above_one / (SCALE as i128);
        Ata((self.surface_m_value.0 as i128 + extra) as i64)
    }

    /// The shallowest depth to which the compartment allows an ascent: the
    /// depth at which its loading would be the tolerated one, or the surface
    /// where it tolerates more than it holds.
    pub fn ceiling(&self) -> (depth: Feet)
        requires
            self.wf(),
        ensures
            depth.0 == self@.ceiling(),
            depth.0 >= 0,
    {
        let excess: i128 = (self.nitrogen_concentration.0 as i128) - (
        self.surface_m_value.0 as i128);
        let atmospheres: i128 = excess * (SCALE as i128) / (self.m_slope as i128);
        proof {
            assert(FEET_PER_ATMOSPHERE * atmospheres == 33 * atmospheres) by (nonlinear_arith)
                requires
                    FEET_PER_ATMOSPHERE == 33,
            ;
        }
        let depth: i128 = (FEET_PER_ATMOSPHERE as i128) * atmospheres;
        if depth < 0 {
            Feet(0)
        } else {
            Feet(depth as i64)
        }
    }
}

} // verus!
