//! A compact, self-describing binary encoding for structured blockchain log
//! records, together with a bloom filter accumulator that indexes batches of
//! such records.
//!
//! The codec writes a record as its raw 20-byte address, a variable-width
//! topic count, the raw bytes of each 32-byte topic, and finally the raw
//! payload bytes; the total length is returned to the caller so that records
//! can be packed back to back. Decoding consumes exactly the declared number
//! of bytes and rejects truncated input. The bloom accumulator derives three
//! bit positions from the Keccak-256 digest of each input string and sets
//! them in a fixed 256-byte bit array.

pub mod bloom;
pub mod codec;
pub mod record;

pub use bloom::logs_bloom;
pub use bloom::Bloom;
pub use codec::DecodeError;
pub use record::Log;
pub use record::LogView;
