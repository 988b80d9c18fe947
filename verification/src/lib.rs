//! Timing and chart interpretation for a rhythm game: tempo timelines, the
//! chart notation, and scroll-speed scaling, in exact rational arithmetic.

pub mod chart;
pub mod gcd;
pub mod object;
pub mod ratio;
pub mod sequence;
pub mod text;
pub mod traits;
pub mod velocity;

pub use velocity::AutoVelocity;
