//! Water on a terrain profile: the classical trapped total at unlimited
//! supply, and the resting depths of a finite amount of rain.
use vstd::prelude::*;

pub mod depth;
pub mod laws;
pub mod model;
pub mod profile;
pub mod rain;
pub mod trapped;

pub use depth::Depth;
pub use rain::rain;
pub use trapped::rained;
