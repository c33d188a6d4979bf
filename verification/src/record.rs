use vstd::prelude::*;

verus! {

/// Number of bytes in a record's emitter address.
pub const ADDRESS_BYTES: usize = 20;

/// Number of bytes in each topic hash.
pub const TOPIC_BYTES: usize = 32;

/// A structured event record emitted during a state transition: the address
/// of the emitter, an ordered sequence of topic hashes, and an opaque
/// payload.
#[derive(Clone, Debug, PartialEq, Eq, Default)]
pub struct Log {
    /// Contract that emitted this log; `ADDRESS_BYTES` bytes when well formed.
    pub address: Vec<u8>,
    /// Ordered topic hashes; each `TOPIC_BYTES` bytes when well formed.
    /// Their order is significant and survives encoding and decoding.
    pub topics: Vec<Vec<u8>>,
    /// Arbitrary-length payload.
    pub data: Vec<u8>,
}

/// The mathematical value of a `Log`: each field as a plain byte sequence.
pub ghost struct LogView {
    /// The emitter address bytes.
    pub address: Seq<u8>,
    /// The topic hashes, in order.
    pub topics: Seq<Seq<u8>>,
    /// The payload bytes.
    pub data: Seq<u8>,
}

impl LogView {
    /// A well-formed record: the address is exactly `ADDRESS_BYTES` bytes and
    /// every topic is exactly `TOPIC_BYTES` bytes.
    pub open spec fn wf(self) -> bool {
        &&& self.address.len() == ADDRESS_BYTES
        &&& forall|i: int|
            0 <= i < self.topics.len() ==> (#[trigger] self.topics[i]).len() == TOPIC_BYTES
    }
}

impl View for Log {
    type V = LogView;

    open spec fn view(&self) -> LogView {
        LogView {
            address: self.address@,
            topics: self.topics@.map_values(|t: Vec<u8>| t@),
            data: self.data@,
        }
    }
}

impl Log {
    /// A well-formed record at the executable level.
    pub open spec fn wf(&self) -> bool {
        self@.wf()
    }
}

} // verus!
