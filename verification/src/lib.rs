use vstd::prelude::*;

pub mod text;
pub mod model;
pub mod pattern;
pub mod tokens;
pub mod timers;
pub mod casts;
pub mod engine;
pub mod rules;
pub mod eql_compat;
pub mod starter;
pub mod gina_import;
pub mod migrate;
pub mod log_find;
pub mod kokoro;
pub mod tts;

verus! {

} // verus!
