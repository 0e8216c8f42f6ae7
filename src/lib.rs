//! A numbers station with a covert channel: deterministic digit sequences,
//! their rendering as beeps, and a framed message hidden in the
//! least-significant bits of the 16-bit samples.
pub mod audio;
pub mod generator;
pub mod stego;
