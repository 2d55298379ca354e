//! A dive computer for teaching: a bank of tissue compartments that take up
//! nitrogen at depth and give it off on the way up, the pressure that each
//! tolerates, and the depth above which the diver must not yet rise.
//!
//! All quantities are exact counts of millionths, and every rounding is
//! stated, so that a dive gives the same numbers wherever it is computed.

pub mod accuracy;
pub mod decay;
pub mod dive_computer;
pub mod measures;
pub mod tissue_compartment;
