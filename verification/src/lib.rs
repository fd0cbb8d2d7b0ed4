pub mod channel;
pub mod code_generator;
pub mod codec;
pub mod protocol;
pub mod server;
pub mod storage;
pub mod text;

use vstd::prelude::*;

verus! {

/// Version number of the relay wire protocol, reported to every client in its
/// connection information message.
pub const PROTOCOL_VERSION: u64 = 1;

} // verus!
