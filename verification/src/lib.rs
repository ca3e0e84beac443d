//! The request handling of a speech-to-text UDP server: the wire protocol, the reassembly of
//! chunked audio, the unpacking of Opus streams, the answers and the cancellation rules.

pub mod assembly;
pub mod chunks;
pub mod jobs;
pub mod laws;
pub mod opus;
pub mod protocol;
pub mod server;
pub mod wav;
pub mod wire;
