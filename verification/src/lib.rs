use vstd::prelude::*;

pub mod text;
pub mod paths;
pub mod env;
pub mod config;
pub mod engine;
pub mod plan;
pub mod backend;
pub mod plugin;
pub mod cli;
pub mod validate;

verus! {

} // verus!
