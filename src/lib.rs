//! Sampling of random partitions from the Ewens-Pitman attraction distribution,
//! over integer similarities and exact rational hyperparameters.

pub mod epa;
pub mod matrix;
pub mod perm;
pub mod sample;
pub mod random;
pub mod select;
