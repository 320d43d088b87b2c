//! The checks a request for a buffer or a channel must pass.
use vstd::prelude::*;
use crate::error::Error;
use crate::shared_ipc::{BUFFER_HEADER_SIZE, FRAME_HEADER_SIZE};
use crate::types::{CreateSharedBufferRequest, CreateSharedChannelRequest};

verus! {

/// The error for a buffer of `size` bytes, if it cannot be made.
pub open spec fn size_check(size: u64) -> Result<(), Error> {
    if size == 0 {
        Err(Error::EmptyBuffer)
    } else if size > usize::MAX {
        Err(Error::BufferTooLarge)
    } else {
        Ok(())
    }
}

/// The error for a channel buffer of `size` bytes, if it cannot be made.
pub open spec fn channel_capacity_check(size: u64) -> Result<(), Error> {
    match size_check(size) {
        Err(e) => Err(e),
        Ok(_) => if size < 48 {
            Err(Error::ChannelBufferTooSmall)
        } else if size > u32::MAX {
            Err(Error::BufferTooLarge)
        } else {
            Ok(())
        },
    }
}

/// A buffer holds at least one byte and fits in this process.
pub fn validate_size(size: u64) -> (r: Result<(), Error>)
    ensures
        r == size_check(size),
        1 <= size <= usize::MAX ==> r is Ok,
{
    if size == 0 {
        return Err(Error::EmptyBuffer);
    }
    if size > usize::MAX as u64 {
        return Err(Error::BufferTooLarge);
    }
    Ok(())
}

/// A channel buffer also holds a buffer header and a frame header, and its
/// offsets fit in a `u32`.
pub fn validate_channel_capacity(size: u64) -> (r: Result<(), Error>)
    ensures
        r == channel_capacity_check(size),
        48 <= size <= u32::MAX ==> r is Ok,
{
    validate_size(size)?;
    if size < (BUFFER_HEADER_SIZE + FRAME_HEADER_SIZE) as u64 {
        return Err(Error::ChannelBufferTooSmall);
    }
    if size > u32::MAX as u64 {
        return Err(Error::BufferTooLarge);
    }
    Ok(())
}

/// The error for a request for a buffer of `size` bytes that starts with
/// `contents_len` bytes of initial contents, if it cannot be made.
pub open spec fn create_request_check(size: u64, contents_len: nat) -> Result<(), Error> {
    if size == 0 {
        Err(Error::EmptyBuffer)
    } else if size > usize::MAX {
        Err(Error::BufferTooLarge)
    } else if contents_len > size {
        Err(Error::InitialContentsTooLarge)
    } else {
        Ok(())
    }
}

/// The error for a request for a channel with buffers of these capacities,
/// if it cannot be made.
pub open spec fn channel_request_check(request_capacity: u64, response_capacity: u64) -> Result<
    (),
    Error,
> {
    if request_capacity < 48 || response_capacity < 48 {
        Err(Error::ChannelBufferTooSmall)
    } else if request_capacity > u32::MAX || response_capacity > u32::MAX {
        Err(Error::BufferTooLarge)
    } else {
        Ok(())
    }
}

/// Checks a request for a shared buffer before anything is reserved for it.
pub fn validate_create_request(request: &CreateSharedBufferRequest) -> (r: Result<(), Error>)
    ensures
        r == create_request_check(request.size, request.initial_contents@.len()),
        1 <= request.size <= usize::MAX && request.initial_contents@.len() <= request.size
            ==> r is Ok,
{
    if request.size == 0 {
        return Err(Error::EmptyBuffer);
    }
    if request.size > usize::MAX as u64 {
        return Err(Error::BufferTooLarge);
    }
    if request.initial_contents.len() > request.size as usize {
        return Err(Error::InitialContentsTooLarge);
    }
    Ok(())
}

/// Checks a request for a channel before anything is reserved for it.
pub fn validate_channel_request(request: &CreateSharedChannelRequest) -> (r: Result<(), Error>)
    ensures
        r == channel_request_check(request.request_capacity, request.response_capacity),
        48 <= request.request_capacity <= u32::MAX && 48 <= request.response_capacity
            <= u32::MAX ==> r is Ok,
{
    let min_size: u64 = 16 + 32;
    if request.request_capacity < min_size || request.response_capacity < min_size {
        return Err(Error::ChannelBufferTooSmall);
    }
    if request.request_capacity > u32::MAX as u64 || request.response_capacity > u32::MAX as u64 {
        return Err(Error::BufferTooLarge);
    }
    Ok(())
}

/// Law: every size from one byte up to the largest this process can
/// address is a valid buffer size, and no other size is.
pub proof fn law_buffer_sizes_accepted(size: u64)
    ensures
        size_check(size) is Ok <==> 1 <= size <= usize::MAX,
{
}

/// Law: a request for a buffer is accepted exactly when its size is a valid
/// buffer size and its initial contents fit in it.
pub proof fn law_buffer_requests_accepted(size: u64, contents_len: nat)
    ensures
        create_request_check(size, contents_len) is Ok <==> 1 <= size <= usize::MAX
            && contents_len <= size,
{
}

/// Law: every capacity from 48 bytes, room for the buffer header and one
/// frame header, up to `u32::MAX` is a valid channel capacity, and no other
/// capacity is.
pub proof fn law_channel_capacities_accepted(size: u64)
    ensures
        channel_capacity_check(size) is Ok <==> 48 <= size <= u32::MAX,
{
}

/// Law: a request for a channel is accepted exactly when both capacities
/// are valid channel capacities.
pub proof fn law_channel_requests_accepted(request_capacity: u64, response_capacity: u64)
    ensures
        channel_request_check(request_capacity, response_capacity) is Ok <==> 48
            <= request_capacity <= u32::MAX && 48 <= response_capacity <= u32::MAX,
{
}

} // verus!

