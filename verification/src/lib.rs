//! A small embeddable query engine: logical query plans are lowered into
//! physical, lazily evaluated execution plans, which run as pull-based
//! streams of records.
#![verifier::loop_isolation(false)]

pub mod common;
pub mod execution;
pub mod group;
pub mod logical;
pub mod model;
pub mod names;
pub mod order;
pub mod stream;
