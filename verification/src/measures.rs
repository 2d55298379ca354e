//! Units of measure.
//!
//! Every quantity is an exact count of millionths of its unit, so that the
//! constants of the model (0.79, 0.063 and the like) are represented without
//! error and every result is the same on every machine.

use vstd::prelude::*;

verus! {

/// Number of raw counts in one whole unit (one atmosphere, one foot, one
/// minute, or the ratio 1).
pub const SCALE: i64 = 1_000_000;

/// Share of nitrogen in air, 0.79.
pub const AIR_NITROGEN_RATIO: i64 = 790_000;

/// Partial pressure of water vapour in the lungs, 0.063 ata.
pub const WATER_VAPOUR_PRESSURE: i64 = 63_000;

/// Depth of sea water, in whole feet, that adds one atmosphere of pressure.
pub const FEET_PER_ATMOSPHERE: i64 = 33;

/// Largest distance from the surface, 3,000,000 ft, at which a stay can be
/// computed. Within it every loading stays within `MAX_PRESSURE`.
pub const MAX_DEPTH: i64 = 3_000_000_000_000;

/// Largest pressure, 100,000 ata, that a compartment can hold or tolerate.
/// Within it every ceiling fits the 64 bits of a depth.
pub const MAX_PRESSURE: i64 = 100_000_000_000;

/// Division that rounds toward zero, which is how every quotient in the
/// model is rounded.
pub open spec fn quotient(a: int, b: int) -> int
    recommends
        b > 0,
{
    if a >= 0 {
        a / b
    } else {
        -((-a) / b)
    }
}

/// The product of two scaled quantities, as a scaled quantity.
pub open spec fn scaled_product(a: int, b: int) -> int {
    quotient(a * b, SCALE as int)
}

/// The ratio of two scaled quantities, as a scaled quantity.
pub open spec fn scaled_ratio(a: int, b: int) -> int
    recommends
        b > 0,
{
    quotient(a * SCALE, b)
}

/// A pressure in atmospheres absolute, counted in millionths.
#[derive(Copy, Clone, PartialEq, Eq, PartialOrd, Ord, Debug, Structural)]
pub struct Ata(pub i64);

impl core::ops::Add for Ata {
    type Output = Ata;

    /// The sum of two pressures.
    fn add(self, rhs: Ata) -> (sum: Ata) {
        Ata(self.0 + rhs.0)
    }
}

impl vstd::std_specs::ops::AddSpecImpl for Ata {
    open spec fn obeys_add_spec() -> bool {
        true
    }

    open spec fn add_req(self, rhs: Ata) -> bool {
        i64::MIN <= self.0 + rhs.0 <= i64::MAX
    }

    open spec fn add_spec(self, rhs: Ata) -> Ata {
        Ata((self.0 + rhs.0) as i64)
    }
}

/// A length of time in minutes, counted in millionths.
#[derive(Copy, Clone, PartialEq, Eq, PartialOrd, Ord, Debug, Structural)]
pub struct Minutes(pub u64);

/// A depth below the surface in feet, counted in millionths. Negative values
/// stand for heights above the surface.
#[derive(Copy, Clone, PartialEq, Eq, PartialOrd, Ord, Debug, Structural)]
pub struct Feet(pub i64);

/// Ambient pressure at a depth: one atmosphere at the surface and one more
/// for every 33 feet of sea water.
pub open spec fn ambient_pressure(depth: int) -> int {
    SCALE + quotient(depth, FEET_PER_ATMOSPHERE as int)
}

impl Feet {
    /// Whether the depth is within `MAX_DEPTH` of the surface.
    pub open spec fn within_limits(self) -> bool {
        -MAX_DEPTH <= self.0 <= MAX_DEPTH
    }

    /// Tests `within_limits`.
    pub fn is_within_limits(&self) -> (b: bool)
        ensures
            b == self.within_limits(),
    {
        -MAX_DEPTH <= self.0 && self.0 <= MAX_DEPTH
    }

    /// The ambient pressure at this depth.
    pub fn depth_atmospheric_pressure(&self) -> (pressure: Ata)
        ensures
            pressure.0 == ambient_pressure(self.0 as int),
    {
        Ata(SCALE + self.0 / FEET_PER_ATMOSPHERE)
    }
}

} // verus!
