use decompression::measures::{Ata, Feet, Minutes, AIR_NITROGEN_RATIO, MAX_DEPTH, MAX_PRESSURE, SCALE};
use decompression::tissue_compartment::{TissueCompartment, MAX_SLOPE};

const AIR: i64 = AIR_NITROGEN_RATIO;

fn loaded(compartment: &mut TissueCompartment, target: i64) {
    // Brings the loading to `target` by a stay of 63 half-times in a gas
    // that is all inert, at the depth whose inspired pressure is `target`.
    let depth = (target + 63_000 - SCALE) * 33;
    let long = compartment.half_time().0 * 63;
    compartment.simulate(Minutes(long), Feet(depth), SCALE);
    assert_eq!(compartment.nitrogen_concentration(), Ata(target));
}

#[test]
fn new_compartment_is_loaded_as_at_the_surface() {
    let compartment = TissueCompartment::new(5_000_000, 4_150_000, 47_900);
    assert_eq!(compartment.nitrogen_concentration(), Ata(790_000));
    assert_eq!(compartment.half_time(), Minutes(5_000_000));
    assert_eq!(compartment.m_value_at(Feet(0)), Ata(4_150_000));
}

#[test]
fn constants_must_be_positive_and_within_limits() {
    assert!(TissueCompartment::are_valid_constants(5_000_000, 4_150_000, 47_900));
    assert!(TissueCompartment::are_valid_constants(1, 1, 1));
    assert!(TissueCompartment::are_valid_constants(u64::MAX, MAX_PRESSURE, MAX_SLOPE));
    assert!(!TissueCompartment::are_valid_constants(0, 4_150_000, 47_900));
    assert!(!TissueCompartment::are_valid_constants(5_000_000, 0, 47_900));
    assert!(!TissueCompartment::are_valid_constants(5_000_000, -1, 47_900));
    assert!(!TissueCompartment::are_valid_constants(5_000_000, 4_150_000, 0));
    assert!(!TissueCompartment::are_valid_constants(5_000_000, 4_150_000, -47_900));
    assert!(!TissueCompartment::are_valid_constants(5_000_000, MAX_PRESSURE + 1, 47_900));
    assert!(!TissueCompartment::are_valid_constants(5_000_000, 4_150_000, MAX_SLOPE + 1));
}

#[test]
fn five_minute_compartment_after_thirty_minutes_at_one_hundred_feet() {
    let mut compartment = TissueCompartment::new(5_000_000, 4_150_000, 47_900);
    compartment.simulate(Minutes(30_000_000), Feet(100_000_000), AIR);
    assert_eq!(compartment.nitrogen_concentration(), Ata(3_097_541));
    let ambient = 1.0 + 100.0 / 33.0;
    let inspired = (ambient - 0.063) * 0.79;
    let expected = 0.79 + (inspired - 0.79) * (1.0 - (-(2f64.ln() / 5.0) * 30.0).exp());
    let loading = compartment.nitrogen_concentration().0 as f64 / 1e6;
    assert!((loading - expected).abs() < 3e-6);
    assert!((loading - 3.09).abs() < 0.01);
}

#[test]
fn slow_compartment_stays_near_its_start() {
    let mut compartment = TissueCompartment::new(120_000_000, 2_520_000, 47_900);
    compartment.simulate(Minutes(30_000_000), Feet(100_000_000), AIR);
    assert_eq!(compartment.nitrogen_concentration(), Ata(1_162_965));
    let ambient = 1.0 + 100.0 / 33.0;
    let inspired = (ambient - 0.063) * 0.79;
    let expected = 0.79 + (inspired - 0.79) * (1.0 - (-(2f64.ln() / 120.0) * 30.0).exp());
    let loading = compartment.nitrogen_concentration().0 as f64 / 1e6;
    assert!((loading - expected).abs() < 3e-6);
    assert!(loading - 0.79 < 0.4);
}

#[test]
fn simulate_follows_the_formula_over_many_inputs() {
    let half_times: [u64; 3] = [5_000_000, 40_000_000, 120_000_000];
    let depths: [i64; 5] = [-20_000_000, 0, 33_000_000, 100_000_000, 250_500_000];
    let durations: [u64; 5] = [1, 1_000_000, 7_500_000, 60_000_000, 1_000_000_000];
    for half_time in half_times {
        for depth in depths {
            for duration in durations {
                let mut compartment = TissueCompartment::new(half_time, 3_000_000, 50_000);
                compartment.simulate(Minutes(duration), Feet(depth), AIR);
                let ambient = 1.0 + depth as f64 / 1e6 / 33.0;
                let inspired = (ambient - 0.063) * 0.79;
                let k = 2f64.ln() / (half_time as f64 / 1e6);
                let expected = 0.79 + (inspired - 0.79) * (1.0 - (-k * duration as f64 / 1e6).exp());
                let loading = compartment.nitrogen_concentration().0 as f64 / 1e6;
                assert!((loading - expected).abs() < 3e-6, "{} {}", loading, expected);
            }
        }
    }
}

#[test]
fn zero_duration_changes_nothing() {
    let depths: [i64; 4] = [0, 100_000_000, -50_000_000, MAX_DEPTH];
    for depth in depths {
        let mut compartment = TissueCompartment::new(20_000_000, 3_270_000, 58_500);
        compartment.simulate(Minutes(12_000_000), Feet(80_000_000), AIR);
        let before = compartment;
        compartment.simulate(Minutes(0), Feet(depth), AIR);
        assert_eq!(compartment, before);
    }
}

#[test]
fn one_half_time_halves_the_gap() {
    let mut compartment = TissueCompartment::new(40_000_000, 2_870_000, 47_900);
    let inspired = 3_110_230;
    assert_eq!(inspired - compartment.nitrogen_concentration().0, 2_320_230);
    compartment.simulate(Minutes(40_000_000), Feet(99_000_000), AIR);
    assert_eq!(inspired - compartment.nitrogen_concentration().0, 1_160_115);
    compartment.simulate(Minutes(40_000_000), Feet(99_000_000), AIR);
    assert_eq!(inspired - compartment.nitrogen_concentration().0, 580_058);
}

#[test]
fn one_half_time_halves_the_gap_when_giving_off() {
    let mut compartment = TissueCompartment::new(40_000_000, 2_870_000, 47_900);
    loaded(&mut compartment, 5_000_000);
    compartment.simulate(Minutes(40_000_000), Feet(99_000_000), AIR);
    assert_eq!(compartment.nitrogen_concentration(), Ata(4_055_115));
    assert_eq!(3_110_230 - compartment.nitrogen_concentration().0, -944_885);
}

#[test]
fn repeated_steps_rise_toward_the_inspired_pressure() {
    let mut compartment = TissueCompartment::new(20_000_000, 3_270_000, 58_500);
    let inspired = 2_320_230;
    let expected: [i64; 8] =
        [1_238_193, 1_555_114, 1_779_211, 1_937_671, 2_049_719, 2_128_949, 2_184_973, 2_224_588];
    let mut before = compartment.nitrogen_concentration().0;
    for value in expected {
        compartment.simulate(Minutes(10_000_000), Feet(66_000_000), AIR);
        let after = compartment.nitrogen_concentration().0;
        assert_eq!(after, value);
        assert!(before <= after && after <= inspired);
        before = after;
    }
}

#[test]
fn repeated_steps_fall_toward_the_inspired_pressure() {
    let mut compartment = TissueCompartment::new(20_000_000, 3_270_000, 58_500);
    for _ in 0..8 {
        compartment.simulate(Minutes(10_000_000), Feet(66_000_000), AIR);
    }
    let inspired = 740_230;
    let expected: [i64; 8] =
        [1_789_830, 1_482_410, 1_265_031, 1_111_321, 1_002_631, 925_776, 871_431, 833_004];
    let mut before = compartment.nitrogen_concentration().0;
    for value in expected {
        compartment.simulate(Minutes(10_000_000), Feet(0), AIR);
        let after = compartment.nitrogen_concentration().0;
        assert_eq!(after, value);
        assert!(inspired <= after && after <= before);
        before = after;
    }
}

#[test]
fn a_long_stay_reaches_the_inspired_pressure_and_stays_there() {
    let mut compartment = TissueCompartment::new(5_000_000, 4_150_000, 47_900);
    compartment.simulate(Minutes(315_000_000), Feet(100_000_000), AIR);
    assert_eq!(compartment.nitrogen_concentration(), Ata(3_134_169));
    compartment.simulate(Minutes(30_000_000), Feet(100_000_000), AIR);
    assert_eq!(compartment.nitrogen_concentration(), Ata(3_134_169));
}

#[test]
fn breathing_no_inert_gas_empties_the_compartment() {
    let mut compartment = TissueCompartment::new(5_000_000, 4_150_000, 47_900);
    compartment.simulate(Minutes(5_000_000), Feet(100_000_000), 0);
    assert_eq!(compartment.nitrogen_concentration(), Ata(395_000));
    compartment.simulate(Minutes(315_000_000), Feet(100_000_000), 0);
    assert_eq!(compartment.nitrogen_concentration(), Ata(0));
}

#[test]
fn breathing_only_inert_gas_uses_the_whole_dry_pressure() {
    let mut compartment = TissueCompartment::new(5_000_000, 4_150_000, 47_900);
    compartment.simulate(Minutes(315_000_000), Feet(100_000_000), SCALE);
    assert_eq!(compartment.nitrogen_concentration(), Ata(3_967_303));
}

#[test]
fn stays_above_the_surface_are_computed_as_they_are() {
    let mut compartment = TissueCompartment::new(5_000_000, 4_150_000, 47_900);
    compartment.simulate(Minutes(315_000_000), Feet(-100_000_000), AIR);
    assert_eq!(compartment.nitrogen_concentration(), Ata(-1_653_709));
}

#[test]
fn stays_at_the_depth_limits_keep_the_loading_within_limits() {
    let mut compartment = TissueCompartment::new(1, 1, 1);
    compartment.simulate(Minutes(u64::MAX), Feet(MAX_DEPTH), SCALE);
    assert_eq!(compartment.nitrogen_concentration(), Ata(90_910_027_909));
    assert!(compartment.nitrogen_concentration().0 <= MAX_PRESSURE);
    assert_eq!(compartment.ceiling(), Feet(33 * (90_910_027_909 - 1) * SCALE));
    compartment.simulate(Minutes(u64::MAX), Feet(-MAX_DEPTH), SCALE);
    assert_eq!(compartment.nitrogen_concentration(), Ata(-90_908_153_909));
    assert_eq!(compartment.ceiling(), Feet(0));
}

#[test]
fn m_value_at_the_surface_is_the_surface_value() {
    let compartment = TissueCompartment::new(5_000_000, 4_150_000, 47_900);
    assert_eq!(compartment.m_value_at(Feet(0)), Ata(4_150_000));
}

#[test]
fn m_value_grows_by_the_slope_for_each_atmosphere() {
    let compartment = TissueCompartment::new(5_000_000, 4_150_000, 47_900);
    assert_eq!(compartment.m_value_at(Feet(33_000_000)), Ata(4_197_900));
    assert_eq!(compartment.m_value_at(Feet(66_000_000)), Ata(4_245_800));
    assert_eq!(compartment.m_value_at(Feet(100_000_000)), Ata(4_295_151));
    assert_eq!(compartment.m_value_at(Feet(-33_000_000)), Ata(4_102_100));
}

#[test]
fn m_value_of_each_standard_compartment_at_one_hundred_feet() {
    let constants: [(u64, i64, i64, i64); 6] = [
        (5_000_000, 4_150_000, 47_900, 4_295_151),
        (10_000_000, 3_670_000, 47_900, 3_815_151),
        (20_000_000, 3_270_000, 58_500, 3_447_272),
        (40_000_000, 2_870_000, 47_900, 3_015_151),
        (80_000_000, 2_670_000, 47_900, 2_815_151),
        (120_000_000, 2_520_000, 47_900, 2_665_151),
    ];
    for (half_time, surface, slope, expected) in constants {
        let compartment = TissueCompartment::new(half_time, surface, slope);
        assert_eq!(compartment.m_value_at(Feet(100_000_000)), Ata(expected));
        let exact = surface as f64 / 1e6 + slope as f64 / 1e6 * (100.0 / 33.0);
        assert!((expected as f64 / 1e6 - exact).abs() < 2e-6);
    }
}

#[test]
fn m_value_at_the_limits() {
    let compartment = TissueCompartment::new(1, MAX_PRESSURE, MAX_SLOPE);
    assert_eq!(
        compartment.m_value_at(Feet(MAX_DEPTH)),
        Ata(MAX_PRESSURE + 100_000 * 90_909_090_909)
    );
    assert_eq!(
        compartment.m_value_at(Feet(-MAX_DEPTH)),
        Ata(MAX_PRESSURE - 100_000 * 90_909_090_909)
    );
}

#[test]
fn ceiling_is_the_surface_below_the_tolerated_loading() {
    let compartment = TissueCompartment::new(5_000_000, 4_150_000, 47_900);
    assert_eq!(compartment.ceiling(), Feet(0));
    let mut emptied = TissueCompartment::new(5_000_000, 4_150_000, 47_900);
    emptied.simulate(Minutes(315_000_000), Feet(-MAX_DEPTH), SCALE);
    assert!(emptied.nitrogen_concentration().0 < 0);
    assert_eq!(emptied.ceiling(), Feet(0));
}

#[test]
fn ceiling_is_the_surface_at_exactly_the_tolerated_loading() {
    let mut compartment = TissueCompartment::new(5_000_000, 4_150_000, 47_900);
    loaded(&mut compartment, 4_150_000);
    assert_eq!(compartment.ceiling(), Feet(0));
}

#[test]
fn ceiling_above_the_tolerated_loading() {
    let mut compartment = TissueCompartment::new(5_000_000, 4_150_000, 47_900);
    loaded(&mut compartment, 4_150_001);
    assert_eq!(compartment.ceiling(), Feet(660));
    loaded(&mut compartment, 4_200_000);
    assert_eq!(compartment.ceiling(), Feet(34_446_753));
    loaded(&mut compartment, 5_000_000);
    assert_eq!(compartment.ceiling(), Feet(585_594_966));
    let exact = 33.0 * ((5.0 - 4.15) / 0.0479);
    assert!((compartment.ceiling().0 as f64 / 1e6 - exact).abs() < 1e-4);
}

#[test]
fn tolerated_loading_at_the_ceiling_is_the_loading() {
    let mut compartment = TissueCompartment::new(5_000_000, 4_150_000, 47_900);
    loaded(&mut compartment, 5_000_000);
    let ceiling = compartment.ceiling();
    let tolerated = compartment.m_value_at(ceiling);
    assert!((tolerated.0 - 5_000_000).abs() <= 1);
}

#[test]
fn ceiling_at_the_limits_fits() {
    let mut compartment = TissueCompartment::new(1, 1, 1);
    compartment.simulate(Minutes(u64::MAX), Feet(MAX_DEPTH), SCALE);
    assert!(compartment.ceiling().0 > 0);
    assert!(compartment.ceiling().0 < 3_300_000_000_000_000_000);
}

#[test]
fn compartments_made_alike_and_stepped_alike_end_alike() {
    let stays: [(u64, i64); 6] = [
        (3_000_000, 30_000_000),
        (25_000_000, 110_000_000),
        (0, 60_000_000),
        (4_500_000, 60_000_000),
        (3_000_000, 15_000_000),
        (120_000_000, 0),
    ];
    let mut first = TissueCompartment::new(20_000_000, 3_270_000, 58_500);
    let mut second = TissueCompartment::new(20_000_000, 3_270_000, 58_500);
    assert_eq!(first, second);
    for (duration, depth) in stays {
        first.simulate(Minutes(duration), Feet(depth), AIR);
        second.simulate(Minutes(duration), Feet(depth), AIR);
        assert_eq!(first, second);
    }
    assert_eq!(first.nitrogen_concentration(), second.nitrogen_concentration());
    assert_ne!(first, TissueCompartment::new(20_000_000, 3_270_000, 58_500));
}

#[test]
fn simulate_changes_only_the_loading() {
    let mut compartment = TissueCompartment::new(20_000_000, 3_270_000, 58_500);
    compartment.simulate(Minutes(25_000_000), Feet(110_000_000), AIR);
    assert_eq!(compartment.half_time(), Minutes(20_000_000));
    assert_eq!(compartment.m_value_at(Feet(0)), Ata(3_270_000));
    assert_eq!(compartment.m_value_at(Feet(33_000_000)), Ata(3_328_500));
}
