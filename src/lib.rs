//! Allocate a block of memory, keep it resident, and touch every page of it
//! on a fixed cadence so that the operating system keeps it in RAM.
use vstd::prelude::*;

pub mod cli;
pub mod poll;
mod rng;

