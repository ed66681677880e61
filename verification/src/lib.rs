//! Color conversions between the sRGB, CIEXYZ, CIELAB and CIELCh color
//! spaces, carried out in fixed-point arithmetic.
//!
//! Every color component is stored as a signed 64-bit count of `1e-7`
//! units (see [`fixed::SCALE`]), so a lightness of `100.0` is stored as
//! `1_000_000_000`. All transforms are integer computations with
//! round-half-away-from-zero rounding, specified exactly: the conversion
//! matrices are applied as exact rationals with a single rounding per
//! component, and the nonlinear curves are evaluated through integer
//! root functions whose results are floors of the exact real values.

pub mod cielab;
pub mod cielch;
pub mod ciexyz;
pub mod error;
pub mod fixed;
pub mod laws;
pub mod srgb;
pub mod trig;

pub use cielab::Cielab;
pub use cielch::Cielch;
pub use ciexyz::Ciexyz;
pub use error::OutOfGamut;
pub use srgb::Srgb;
pub use error::OutOfSpecification;
