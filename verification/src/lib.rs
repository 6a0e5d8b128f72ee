//! Core logic of a typing flyer game: a shuffle-bag sampler that places the
//! vertical gap of each upcoming obstacle, and a typing state machine that
//! turns keystrokes on displayed target words into gameplay actions.

pub mod luck;
mod rng;
pub mod typing;
