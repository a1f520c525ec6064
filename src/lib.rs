//! Grammar-driven random command generation for game-playing bots.
//!
//! A command grammar ([`grammar::Spec`]), possibly naming entries of a table
//! of grammars, is sampled into a sequence of tokens, driven by a source of
//! random draws ([`source::Source`]). Every sample is proved equal to the
//! interpretation of the grammar over the draws that were actually consumed.
//! A fuzzing loop reports its status through [`throttle::StatusThrottle`].

pub mod bounded;
pub mod source;
pub mod grammar;
pub mod sample;
pub mod throttle;
pub mod laws;

