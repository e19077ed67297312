//! A fixed-capacity ring buffer: a sequential container that holds up to a
//! caller-chosen number of elements and, once full, silently evicts the
//! oldest element to admit a new one.

pub mod ring;

pub use ring::CircularBuffer;
pub use ring::RingError;
