//! A reversible toy world: binary cells in named slots, rearranged by rules
//! that each come with an exact inverse.

pub mod permutation;
pub mod world;
pub mod rule;
pub mod cadence;
