//! Bit patterns of the constants the model is written with.
use vstd::prelude::*;

verus! {

/// 1
pub const ONE: u64 = 0x3ff0_0000_0000_0000;

/// 2
pub const TWO: u64 = 0x4000_0000_0000_0000;

/// -2
pub const MINUS_TWO: u64 = 0xc000_0000_0000_0000;

/// 1/2
pub const HALF: u64 = 0x3fe0_0000_0000_0000;

/// -3
pub const MINUS_THREE: u64 = 0xc008_0000_0000_0000;

/// 5
pub const FIVE: u64 = 0x4014_0000_0000_0000;

/// -5
pub const MINUS_FIVE: u64 = 0xc014_0000_0000_0000;

/// 10
pub const TEN: u64 = 0x4024_0000_0000_0000;

/// -10
pub const MINUS_TEN: u64 = 0xc024_0000_0000_0000;

/// 10 000
pub const TEN_THOUSAND: u64 = 0x40c3_8800_0000_0000;

/// 1e10
pub const TEN_BILLION: u64 = 0x4202_a05f_2000_0000;

/// 1e15
pub const PETA: u64 = 0x430c_6bf5_2634_0000;

/// 0.01
pub const HUNDREDTH: u64 = 0x3f84_7ae1_47ae_147b;

/// 0.1
pub const TENTH: u64 = 0x3fb9_9999_9999_999a;

/// -0.1
pub const MINUS_TENTH: u64 = 0xbfb9_9999_9999_999a;

/// 1e-30
pub const TINY: u64 = 0x39b4_484b_feeb_c2a0;

/// Natural logarithm of 10.
pub const LN_10: u64 = 0x4002_6bb1_bbb5_5516;

/// 0.7298, the inertia of a particle (Clerc and Kennedy's constriction).
pub const INERTIA: u64 = 0x3fe7_5a85_8793_dd98;

/// 1.4962, the pull towards a best position (Clerc and Kennedy's constriction).
pub const ATTRACTION: u64 = 0x3ff7_f06f_6944_6738;

/// Speed of light in angstrom per second, 2.99792458e18.
pub const LIGHT_SPEED: u64 = 0x43c4_cd62_42cb_27f4;

/// 23.9, the magnitude of unit flux.
pub const ZERO_POINT: u64 = 0x4037_e666_6666_6666;

/// 2.5, magnitudes per decade of flux.
pub const MAGNITUDE_SCALE: u64 = 0x4004_0000_0000_0000;

/// 1.01
pub const ONE_PERCENT_MORE: u64 = 0x3ff0_28f5_c28f_5c29;

/// Positive infinity.
pub const INFINITY: u64 = 0x7ff0_0000_0000_0000;

/// Negative infinity.
pub const MINUS_INFINITY: u64 = 0xfff0_0000_0000_0000;

/// Number of fitted parameters: alpha1, alpha2, beta, logd, loga, tb, t0.
pub const N_PARAMS: usize = 7;

} // verus!
