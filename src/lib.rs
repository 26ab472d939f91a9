//! Middle and back end of a small expression-oriented compiler: the semantic
//! intermediate representation, the passes that resolve it, and a code
//! generator that lowers it to a register-and-memory target module.

pub mod sir;
pub mod compile;
pub mod generator;
pub mod machine;
pub mod passes;
pub mod target;
