//! The values exchanged with script and with registered methods.
use vstd::prelude::*;

verus! {

/// The capacity of each buffer of a channel when script asks for none.
pub const DEFAULT_CHANNEL_CAPACITY: u64 = 1024 * 1024;

/// Declares `serde_json::Value` to Verus so that a request can carry the
/// script's extra data through; nothing here looks inside it.
#[verifier::external_type_specification]
#[verifier::external_body]
pub struct ExJsonValue(serde_json::Value);

/// One request taken from a channel, as a registered method sees it.
pub struct SharedIpcRequest<'a> {
    pub channel_id: u64,
    pub request_id: u32,
    pub method: &'a str,
    pub payload: &'a [u8],
}

/// Script asks for a shared buffer of `size` bytes, starting with
/// `initial_contents`, with `additional_data` handed back to it alongside.
#[derive(Debug)]
pub struct CreateSharedBufferRequest {
    pub size: u64,
    pub read_only: bool,
    pub additional_data: serde_json::Value,
    pub initial_contents: Vec<u8>,
}

/// The shared buffer that was reserved for a request.
#[derive(Debug)]
pub struct SharedBufferInfo {
    pub id: u64,
    pub size: u64,
}

/// Script writes `bytes` at `offset` into buffer `id`.
#[derive(Debug)]
pub struct WriteSharedBufferRequest {
    pub id: u64,
    pub offset: u64,
    pub bytes: Vec<u8>,
}

/// Script reads `length` bytes at `offset` from buffer `id`.
#[derive(Debug)]
pub struct ReadSharedBufferRequest {
    pub id: u64,
    pub offset: u64,
    pub length: u64,
}

/// Script asks for a channel with buffers of the given capacities.
#[derive(Debug)]
pub struct CreateSharedChannelRequest {
    pub request_capacity: u64,
    pub response_capacity: u64,
}

/// The channel that was reserved for a request.
#[derive(Debug)]
pub struct SharedChannelInfo {
    pub id: u64,
    pub request_capacity: u64,
    pub response_capacity: u64,
}

/// The answer to a doorbell: the channel and the end of its responses.
#[derive(Debug)]
pub struct SharedChannelDispatch {
    pub channel_id: u64,
    pub response_write_offset: u32,
}

/// The channel capacity used when script gives none.
pub fn default_channel_capacity() -> (capacity: u64)
    ensures
        capacity == DEFAULT_CHANNEL_CAPACITY,
{
    DEFAULT_CHANNEL_CAPACITY
}

} // verus!
