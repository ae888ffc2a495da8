//! What the commands decide and print; reading arguments and printing is
//! left to the caller.

pub mod adding;
pub mod committing;
pub mod destinations;
pub mod display;
pub mod naming;
pub mod printed;
pub mod recording;
pub mod staged;
pub mod switching;
