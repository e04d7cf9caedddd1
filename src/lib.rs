//! A randomized transfer-load script: its operations, the generator that
//! draws them, a lossless byte encoding of a script, and the state machine
//! that tracks submitted transfers until they are confirmed or cleared.

pub mod codec;
pub mod generate;
pub mod model;
pub mod tracker;
