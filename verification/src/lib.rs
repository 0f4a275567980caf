//! A turn-based card-game stack: pending card effects resolve last-in,
//! first-out, with counter-effects that cancel another pending card before
//! it resolves.

pub mod cards;
pub mod laws;
pub mod resolution;
pub mod stack;
