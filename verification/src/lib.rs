//! Verified core of the numass data tools: the DataForge envelope format,
//! waveform decoding and the integer side of event processing.
use vstd::prelude::*;

pub mod dataforge;
pub mod point;
pub mod events;
pub mod processing;
pub mod numass;
pub mod files;
pub mod cache;
pub mod analysis;
pub mod acquisition;
pub mod board;
pub mod viewer;
pub mod converter;
pub mod coincidence;
pub mod server;

verus! {

} // verus!
