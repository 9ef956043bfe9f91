//! Reassembly of fixed-length telemetry records from an arbitrarily chunked
//! byte stream: a fixed-capacity circular byte buffer accumulates incoming
//! bytes and yields candidate frames, and a byte-stuffing codec validates a
//! candidate frame and restores the zero bytes that the stuffing replaced.

pub mod buffer;
pub mod frame;
pub mod index_counter;

pub use buffer::CircleBuffer;
pub use index_counter::IndexCounter;
