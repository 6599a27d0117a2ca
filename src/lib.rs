//! A two-army combat simulator: groups of units pick targets, attack in
//! initiative order, and fight round after round until one army is gone.
pub mod combat;
pub mod group;
pub mod parse;
