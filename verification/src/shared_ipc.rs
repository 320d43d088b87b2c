//! Writing, reading and dispatching frames in channel buffers.
use vstd::prelude::*;
use vstd::slice::{slice_subrange, slice_to_vec};
use vstd::utf8::{valid_utf8, decode_utf8, encode_utf8, encode_utf8_valid_utf8, encode_utf8_decode_utf8};
use crate::error::Error;
use crate::types::SharedIpcRequest;
pub use crate::wire::{align8, write_i32};
use crate::wire::{
    le_bytes, le_u32_at, splice, zeros, align8_spec, lemma_splice_splice,
    lemma_splice_parts, lemma_read_within, lemma_align8, lemma_read_after_write,
};
pub use crate::wire::{read_u32, write_u32, read_i32};
use crate::frame::{
    words_bytes, lemma_words_bytes, lemma_words_bytes_push, buffer_header_words, header_ok,
    next_frame_offset, pending_requests, RequestView, ResponseView, response_frame_len,
    response_frame_bytes, response_header_words, request_frame_at, request_frame_len,
    request_frame_bytes, request_header_words, find_response, law_written_request_is_pending,
    scan_requests, responses_bytes, lemma_header_rewrite, lemma_find_in_responses,
    lemma_request_frame_assembled,
    first_response_for,
};

verus! {

pub const BUFFER_MAGIC: u32 = 0x4950_4254;
pub const BUFFER_VERSION: u32 = 1;
pub const BUFFER_HEADER_SIZE: usize = 16;
pub const FRAME_HEADER_SIZE: usize = 32;
pub const MIN_CHANNEL_CAPACITY: usize = BUFFER_HEADER_SIZE + FRAME_HEADER_SIZE;
pub const FRAME_KIND_REQUEST: u32 = 1;
pub const FRAME_KIND_RESPONSE: u32 = 2;
pub const STATUS_OK: i32 = 0;
pub const STATUS_ERROR: i32 = 1;


/// Writes the little-endian bytes of `words` one after another from `offset`.
pub(crate) fn write_words(buffer: &mut [u8], offset: usize, words: &[u32])
    requires
        offset + 4 * words@.len() <= old(buffer)@.len(),
    ensures
        final(buffer)@ == splice(old(buffer)@, offset as int, words_bytes(words@)),
{
    let len = buffer.len();
    let mut j: usize = 0;
    assert(splice(buffer@, offset as int, words_bytes(words@.take(0))) =~= buffer@);
    while j < words.len()
        invariant
            j <= words@.len(),
            offset + 4 * words@.len() <= old(buffer)@.len(),
            buffer@.len() == old(buffer)@.len(),
            len == buffer@.len(),
            buffer@ == splice(old(buffer)@, offset as int, words_bytes(words@.take(j as int))),
        decreases words@.len() - j,
    {
        proof {
            lemma_words_bytes_push(words@.take(j as int), words@[j as int]);
            assert(words@.take(j as int + 1) =~= words@.take(j as int).push(words@[j as int]));
            assert(words_bytes(words@.take(j as int)).len() == 4 * j);
        }
        let _ = write_u32(buffer, offset + 4 * j, words[j]);
        proof {
            lemma_splice_splice(
                old(buffer)@,
                offset as int,
                words_bytes(words@.take(j as int)),
                le_bytes(words@[j as int]),
            );
        }
        j += 1;
    }
    assert(words@.take(words@.len() as int) =~= words@);
}


/// Copies `src` into `buffer` from `start`.
pub(crate) fn copy_into(buffer: &mut [u8], start: usize, src: &[u8])
    requires
        start + src@.len() <= old(buffer)@.len(),
    ensures
        final(buffer)@ == splice(old(buffer)@, start as int, src@),
{
    let len = buffer.len();
    let mut i: usize = 0;
    assert(splice(buffer@, start as int, src@.take(0)) =~= buffer@);
    while i < src.len()
        invariant
            i <= src@.len(),
            start + src@.len() <= old(buffer)@.len(),
            len == buffer@.len(),
            buffer@ == splice(old(buffer)@, start as int, src@.take(i as int)),
        decreases src@.len() - i,
    {
        buffer[start + i] = src[i];
        assert(buffer@ =~= splice(old(buffer)@, start as int, src@.take(i as int + 1)));
        i += 1;
    }
    assert(src@.take(src@.len() as int) =~= src@);
}

/// Sets `n` bytes of `buffer` to zero from `start`.
fn fill_zeros(buffer: &mut [u8], start: usize, n: usize)
    requires
        start + n <= old(buffer)@.len(),
    ensures
        final(buffer)@ == splice(old(buffer)@, start as int, zeros(n as nat)),
{
    let len = buffer.len();
    let mut i: usize = 0;
    assert(splice(buffer@, start as int, zeros(0)) =~= buffer@);
    while i < n
        invariant
            i <= n,
            start + n <= old(buffer)@.len(),
            len == buffer@.len(),
            buffer@ == splice(old(buffer)@, start as int, zeros(i as nat)),
        decreases n - i,
    {
        buffer[start + i] = 0;
        assert(buffer@ =~= splice(old(buffer)@, start as int, zeros(i as nat + 1)));
        i += 1;
    }
}

/// The error for a channel buffer of `len` bytes, if it cannot be one.
pub open spec fn capacity_check(len: int) -> Result<(), Error> {
    if len < MIN_CHANNEL_CAPACITY {
        Err(Error::ChannelBufferTooSmall)
    } else if len > u32::MAX {
        Err(Error::BufferTooLarge)
    } else {
        Ok(())
    }
}

/// The error for a buffer that does not hold an initialized channel header.
pub open spec fn initialized_check(b: Seq<u8>) -> Result<(), Error> {
    match capacity_check(b.len() as int) {
        Err(e) => Err(e),
        Ok(_) => if header_ok(b) {
            Ok(())
        } else {
            Err(Error::InvalidFrame)
        },
    }
}

/// A channel buffer holds at least a buffer header and a frame header, and
/// its offsets fit in a `u32`.
pub fn validate_capacity(len: usize) -> (r: Result<(), Error>)
    ensures
        r == capacity_check(len as int),
{
    if len < MIN_CHANNEL_CAPACITY {
        return Err(Error::ChannelBufferTooSmall);
    }
    if len > u32::MAX as usize {
        return Err(Error::BufferTooLarge);
    }
    Ok(())
}

/// Checks that `buffer` is a channel buffer with an initialized header.
pub fn validate_initialized(buffer: &[u8]) -> (r: Result<(), Error>)
    ensures
        r == initialized_check(buffer@),
{
    validate_capacity(buffer.len())?;
    if read_u32(buffer, 0)? != BUFFER_MAGIC || read_u32(buffer, 4)? != BUFFER_VERSION {
        return Err(Error::InvalidFrame);
    }
    Ok(())
}

/// Writes a fresh channel header: magic, version, an empty frame area.
pub fn init_buffer(buffer: &mut [u8]) -> (r: Result<(), Error>)
    ensures
        capacity_check(old(buffer)@.len() as int) matches Err(e) ==> r == Err::<(), Error>(e)
            && final(buffer)@ == old(buffer)@,
        capacity_check(old(buffer)@.len() as int) is Ok ==> {
            &&& r is Ok
            &&& final(buffer)@ == splice(
                old(buffer)@,
                0,
                words_bytes(buffer_header_words(BUFFER_HEADER_SIZE as u32)),
            )
            &&& initialized_check(final(buffer)@) is Ok
            &&& next_frame_offset(final(buffer)@) == BUFFER_HEADER_SIZE
            &&& pending_requests(final(buffer)@) == (Seq::<RequestView>::empty(), true)
        },
{
    validate_capacity(buffer.len())?;
    let words = [BUFFER_MAGIC, BUFFER_VERSION, BUFFER_HEADER_SIZE as u32, 0u32];
    proof {
        assert(words@ =~= buffer_header_words(16));
    }
    write_words(buffer, 0, &words);
    proof {
        let h = words_bytes(buffer_header_words(16));
        lemma_words_bytes(buffer_header_words(16), 0);
        lemma_words_bytes(buffer_header_words(16), 1);
        lemma_words_bytes(buffer_header_words(16), 2);
        lemma_splice_parts(old(buffer)@, 0, h);
        lemma_read_within(buffer@, 0, 16, 0);
        lemma_read_within(buffer@, 0, 16, 4);
        lemma_read_within(buffer@, 0, 16, 8);
    }
    Ok(())
}


/// Writes a response frame for `request_id` at `offset` and returns the
/// offset just past it; the frame is padded to a multiple of eight bytes.
pub fn write_response_frame(
    buffer: &mut [u8],
    offset: usize,
    request_id: u32,
    status: i32,
    payload: &[u8],
) -> (r: Result<usize, Error>)
    ensures
        ({
            let frame = ResponseView { request_id, status, payload: payload@ };
            let end = offset + response_frame_len(payload@.len() as int);
            &&& end > old(buffer)@.len() ==> r == Err::<usize, Error>(Error::ResponseBufferFull)
                && final(buffer)@ == old(buffer)@
            &&& end <= old(buffer)@.len() ==> r == Ok::<usize, Error>(end as usize)
                && final(buffer)@ == splice(old(buffer)@, offset as int, response_frame_bytes(frame))
        }),
{
    let ghost frame = ResponseView { request_id, status, payload: payload@ };
    let payload_len = payload.len();
    let needed: u128 = FRAME_HEADER_SIZE as u128 + payload_len as u128;
    let frame_len_wide: u128 = ((needed + 7) / 8) * 8;
    if offset as u128 + frame_len_wide > buffer.len() as u128 {
        return Err(Error::ResponseBufferFull);
    }
    let frame_len = frame_len_wide as usize;
    proof {
        lemma_align8(32 + payload_len as int);
    }
    let words = [
        frame_len as u32,
        FRAME_KIND_RESPONSE,
        request_id,
        0u32,
        payload_len as u32,
        status as u32,
        0u32,
        0u32,
    ];
    let ghost hw = response_header_words(frame_len as u32, request_id, payload_len as u32, status);
    assert(words@ =~= hw);
    let ghost b0 = buffer@;
    write_words(buffer, offset, &words);
    assert(words_bytes(hw).len() == 32);
    let payload_start = offset + FRAME_HEADER_SIZE;
    copy_into(buffer, payload_start, payload);
    fill_zeros(buffer, payload_start + payload_len, frame_len - FRAME_HEADER_SIZE - payload_len);
    proof {
        lemma_splice_splice(b0, offset as int, words_bytes(hw), payload@);
        lemma_splice_splice(
            b0,
            offset as int,
            words_bytes(hw) + payload@,
            zeros((frame_len - 32 - payload_len) as nat),
        );
        assert(response_frame_bytes(frame) =~= words_bytes(hw) + payload@ + zeros(
            (frame_len - 32 - payload_len) as nat,
        ));
    }
    Ok(offset + frame_len)
}


/// Calls `std::str::from_utf8`. Its documentation says that it accepts a
/// byte slice exactly when the bytes are valid UTF-8, and that the string
/// slice it then returns is made of those same bytes, so it holds the
/// characters they encode. The contract claims both, in vstd's terms.
#[verifier::external_body]
fn str_from_utf8(bytes: &[u8]) -> (r: Option<&str>)
    ensures
        match r {
            Some(s) => valid_utf8(bytes@) && s@ == decode_utf8(bytes@),
            None => !valid_utf8(bytes@),
        },
{
    match std::str::from_utf8(bytes) {
        Ok(s) => Some(s),
        Err(_) => None,
    }
}

/// A request frame read out of a request buffer; its method and payload
/// borrow from the buffer.
pub struct RequestFrame<'a> {
    pub frame_len: usize,
    pub request_id: u32,
    pub method: &'a str,
    pub payload: &'a [u8],
}

/// A response frame read out of a response buffer.
#[derive(Debug, Clone, PartialEq, Eq)]
pub struct ResponseFrame {
    pub status: i32,
    pub payload: Vec<u8>,
}

/// Reads the request frame at `offset`, which must end by `request_write`.
pub fn read_request_frame(buffer: &[u8], offset: usize, request_write: usize) -> (r: Result<
    RequestFrame<'_>,
    Error,
>)
    requires
        request_write <= buffer@.len(),
    ensures
        match request_frame_at(buffer@, offset as int, request_write as int) {
            Some(f) => (r matches Ok(frame) && frame.frame_len == le_u32_at(buffer@, offset as int)
                && frame.request_id == f.request_id && frame.method@ == f.method
                && frame.payload@ == f.payload),
            None => r matches Err(Error::InvalidFrame),
        },
{
    if offset > request_write || request_write - offset < FRAME_HEADER_SIZE {
        return Err(Error::InvalidFrame);
    }
    let frame_len = read_u32(buffer, offset)? as usize;
    let kind = read_u32(buffer, offset + 4)?;
    let request_id = read_u32(buffer, offset + 8)?;
    let method_len = read_u32(buffer, offset + 12)? as usize;
    let payload_len = read_u32(buffer, offset + 16)? as usize;

    if kind != FRAME_KIND_REQUEST || frame_len < FRAME_HEADER_SIZE || frame_len > request_write
        - offset || FRAME_HEADER_SIZE as u64 + method_len as u64 + payload_len as u64
        > frame_len as u64 {
        return Err(Error::InvalidFrame);
    }

    let method_start = offset + FRAME_HEADER_SIZE;
    let payload_start = method_start + method_len;
    let method = match str_from_utf8(slice_subrange(buffer, method_start, payload_start)) {
        Some(method) => method,
        None => {
            return Err(Error::InvalidFrame);
        },
    };
    let payload = slice_subrange(buffer, payload_start, payload_start + payload_len);

    Ok(RequestFrame { frame_len, request_id, method, payload })
}

/// Where the next request frame of `frame_len` bytes goes: at the recorded
/// write offset when that is a valid place with room for the frame, and
/// otherwise back at the start of the frame area.
pub open spec fn request_slot(b: Seq<u8>, frame_len: int) -> int {
    let recorded = next_frame_offset(b);
    let start = if recorded < BUFFER_HEADER_SIZE || recorded > b.len() {
        BUFFER_HEADER_SIZE as int
    } else {
        recorded
    };
    if start + frame_len > b.len() {
        BUFFER_HEADER_SIZE as int
    } else {
        start
    }
}

/// Law: a request frame goes at the recorded write offset whenever that
/// offset lies in the frame area and the frame fits between it and the end
/// of the buffer. Only when it does not is the frame placed back at the
/// start of the frame area.
pub proof fn law_request_slot_keeps_recorded_offset(b: Seq<u8>, frame_len: int)
    requires
        0 <= frame_len,
    ensures
        BUFFER_HEADER_SIZE <= next_frame_offset(b) && next_frame_offset(b) + frame_len <= b.len()
            ==> request_slot(b, frame_len) == next_frame_offset(b),
        request_slot(b, frame_len) != next_frame_offset(b) ==> request_slot(b, frame_len)
            == BUFFER_HEADER_SIZE,
        request_slot(b, frame_len) == BUFFER_HEADER_SIZE || request_slot(b, frame_len) + frame_len
            <= b.len(),
{
}

/// Writes a request frame for `method` and `payload` and records the offset
/// after it as the next write offset. Returns the offset of the frame: the
/// recorded write offset when the frame fits there, else the start of the
/// frame area.
pub fn write_request_frame(
    buffer: &mut [u8],
    request_id: u32,
    method: &str,
    payload: &[u8],
) -> (r: Result<usize, Error>)
    ensures
        ({
            let b = old(buffer)@;
            let method_bytes = encode_utf8(method@);
            let frame_len = request_frame_len(method_bytes.len() as int, payload@.len() as int);
            let slot = request_slot(b, frame_len);
            let request = RequestView { request_id, method: method@, payload: payload@ };
            &&& capacity_check(b.len() as int) matches Err(e) ==> r == Err::<usize, Error>(e)
                && final(buffer)@ == b
            &&& capacity_check(b.len() as int) is Ok && slot + frame_len > b.len() ==> r
                == Err::<usize, Error>(Error::ChannelBufferTooSmall) && final(buffer)@ == b
            &&& capacity_check(b.len() as int) is Ok && slot + frame_len <= b.len() ==> {
                &&& r == Ok::<usize, Error>(slot as usize)
                &&& final(buffer)@ == splice(
                    splice(b, slot, request_frame_bytes(request_id, method_bytes, payload@)),
                    8,
                    le_bytes((slot + frame_len) as u32),
                )
                &&& slot == next_frame_offset(b) && pending_requests(b).1 ==> pending_requests(
                    final(buffer)@,
                ) == (pending_requests(b).0.push(request), true)
                &&& slot == BUFFER_HEADER_SIZE ==> pending_requests(final(buffer)@) == (
                    seq![request],
                    true,
                )
            }
            &&& capacity_check(b.len() as int) is Ok && BUFFER_HEADER_SIZE <= next_frame_offset(b)
                && next_frame_offset(b) + frame_len <= b.len() ==> {
                &&& r == Ok::<usize, Error>(next_frame_offset(b) as usize)
                &&& pending_requests(b).1 ==> pending_requests(final(buffer)@) == (
                    pending_requests(b).0.push(request),
                    true,
                )
            }
        }),
{
    proof {
        law_request_slot_keeps_recorded_offset(
            buffer@,
            request_frame_len(encode_utf8(method@).len() as int, payload@.len() as int),
        );
    }
    validate_capacity(buffer.len())?;
    let ghost b = buffer@;

    let method_bytes = method.as_bytes();
    let method_len = method_bytes.len();
    let payload_len = payload.len();
    let frame_len_wide: u128 = ((FRAME_HEADER_SIZE as u128 + method_len as u128
        + payload_len as u128 + 7) / 8) * 8;
    let mut write_offset = read_u32(buffer, 8)? as usize;

    if write_offset < BUFFER_HEADER_SIZE || write_offset > buffer.len() {
        write_offset = BUFFER_HEADER_SIZE;
    }
    if write_offset as u128 + frame_len_wide > buffer.len() as u128 {
        write_offset = BUFFER_HEADER_SIZE;
    }
    if write_offset as u128 + frame_len_wide > buffer.len() as u128 {
        return Err(Error::ChannelBufferTooSmall);
    }
    let frame_len = frame_len_wide as usize;
    proof {
        lemma_align8(32 + method_len as int + payload_len as int);
    }

    let words = [
        frame_len as u32,
        FRAME_KIND_REQUEST,
        request_id,
        method_len as u32,
        payload_len as u32,
        0u32,
        0u32,
        0u32,
    ];
    let ghost hw = request_header_words(
        frame_len as u32,
        request_id,
        method_len as u32,
        payload_len as u32,
    );
    assert(words@ =~= hw);
    write_words(buffer, write_offset, &words);
    assert(words_bytes(hw).len() == 32);

    let method_start = write_offset + FRAME_HEADER_SIZE;
    let payload_start = method_start + method_len;
    copy_into(buffer, method_start, method_bytes);
    copy_into(buffer, payload_start, payload);
    fill_zeros(buffer, payload_start + payload_len, frame_len - FRAME_HEADER_SIZE - method_len - payload_len);
    write_u32(buffer, 8, (write_offset + frame_len) as u32)?;

    proof {
        lemma_request_frame_assembled(
            b,
            write_offset as int,
            request_id,
            method_bytes@,
            payload@,
            frame_len as int,
        );
        law_written_request_is_pending(b, write_offset as int, request_id, method@, payload@);
    }
    Ok(write_offset)
}

/// Finds the response frame for `request_id` among the frames before
/// `response_write_offset`.
pub fn read_response_frame(buffer: &[u8], response_write_offset: usize, request_id: u32) -> (r:
    Result<ResponseFrame, Error>)
    ensures
        initialized_check(buffer@) matches Err(e) ==> r == Err::<ResponseFrame, Error>(e),
        initialized_check(buffer@) is Ok && (response_write_offset < BUFFER_HEADER_SIZE
            || response_write_offset > buffer@.len()) ==> r matches Err(Error::InvalidFrame),
        initialized_check(buffer@) is Ok && BUFFER_HEADER_SIZE <= response_write_offset
            <= buffer@.len() ==> match find_response(
            buffer@,
            BUFFER_HEADER_SIZE as int,
            response_write_offset as int,
            request_id,
        ) {
            Some(found) => (r matches Ok(frame) && frame.status == found.status && frame.payload@
                == found.payload),
            None => r matches Err(Error::InvalidFrame),
        },
{
    validate_initialized(buffer)?;

    if response_write_offset < BUFFER_HEADER_SIZE || response_write_offset > buffer.len() {
        return Err(Error::InvalidFrame);
    }

    let mut offset = BUFFER_HEADER_SIZE;
    while response_write_offset - offset >= FRAME_HEADER_SIZE
        invariant
            initialized_check(buffer@) is Ok,
            BUFFER_HEADER_SIZE <= offset <= response_write_offset <= buffer@.len() <= u32::MAX,
            find_response(buffer@, 16, response_write_offset as int, request_id) == find_response(
                buffer@,
                offset as int,
                response_write_offset as int,
                request_id,
            ),
        decreases response_write_offset - offset,
    {
        let frame_len = read_u32(buffer, offset)? as usize;
        let kind = read_u32(buffer, offset + 4)?;
        let id = read_u32(buffer, offset + 8)?;
        let payload_len = read_u32(buffer, offset + 16)? as usize;
        let status = read_i32(buffer, offset + 20)?;

        if kind != FRAME_KIND_RESPONSE || frame_len < FRAME_HEADER_SIZE || frame_len
            > response_write_offset - offset || FRAME_HEADER_SIZE as u64 + payload_len as u64
            > frame_len as u64 {
            return Err(Error::InvalidFrame);
        }

        if id == request_id {
            let payload_start = offset + FRAME_HEADER_SIZE;
            return Ok(
                ResponseFrame {
                    status,
                    payload: slice_to_vec(
                        slice_subrange(buffer, payload_start, payload_start + payload_len),
                    ),
                },
            );
        }

        offset += frame_len;
    }

    Err(Error::InvalidFrame)
}


/// `handle`, called on channel `channel_id` with request `f`, may answer
/// with the status and payload of `r`.
pub open spec fn handled<F>(handle: F, channel_id: u64, f: RequestView, r: ResponseView) -> bool where
    F: for<'a> Fn(SharedIpcRequest<'a>) -> (i32, Vec<u8>),
 {
    &&& r.request_id == f.request_id
    &&& exists|req: SharedIpcRequest, out: (i32, Vec<u8>)|
        {
            &&& req.channel_id == channel_id
            &&& req.request_id == f.request_id
            &&& req.method@ == f.method
            &&& req.payload@ == f.payload
            &&& #[trigger] call_ensures(handle, (req,), out)
            &&& out.0 == r.status
            &&& out.1@ == r.payload
        }
}

/// Each response in `rs` is an answer, by `answers`, to the request at the
/// same place in `fs`.
pub open spec fn answers_all(
    answers: spec_fn(RequestView, ResponseView) -> bool,
    fs: Seq<RequestView>,
    rs: Seq<ResponseView>,
) -> bool {
    &&& rs.len() == fs.len()
    &&& forall|i: int| 0 <= i < fs.len() ==> #[trigger] answers(fs[i], rs[i])
}

/// What answering the pending requests of `request` did, with
/// `answers` relating each request to the responses it may get: the outcome
/// `r`, with `request_after` and `response_after` the buffers afterwards.
///
/// On success every pending request was answered in order, one response
/// frame each, written one after another from the start of the frame area
/// of `response`; the response header then records the end of those
/// frames, which is also returned, and the request buffer records an empty
/// frame area. A malformed request frame stops the work after the requests
/// before it were answered. A response that does not fit stops it before
/// that response is written. On either error the request buffer is left
/// alone and the response buffer holds the frames written so far, with its
/// header untouched.
pub open spec fn frames_outcome(
    answers: spec_fn(RequestView, ResponseView) -> bool,
    request: Seq<u8>,
    response: Seq<u8>,
    r: Result<usize, Error>,
    request_after: Seq<u8>,
    response_after: Seq<u8>,
) -> bool {
    let pending = pending_requests(request);
    &&& response_after.len() == response.len()
    &&& match r {
        Ok(n) => {
            &&& pending.1
            &&& request_after == splice(request, 8, le_bytes(BUFFER_HEADER_SIZE as u32))
            &&& pending_requests(request_after) == (Seq::<RequestView>::empty(), true)
            &&& exists|rs: Seq<ResponseView>|
                {
                    &&& #[trigger] answers_all(answers, pending.0, rs)
                    &&& n == BUFFER_HEADER_SIZE + responses_bytes(rs).len()
                    &&& response_after == splice(
                        splice(response, BUFFER_HEADER_SIZE as int, responses_bytes(rs)),
                        8,
                        le_bytes(n as u32),
                    )
                }
        },
        Err(Error::InvalidFrame) => {
            &&& !pending.1
            &&& request_after == request
            &&& exists|rs: Seq<ResponseView>|
                {
                    &&& #[trigger] answers_all(answers, pending.0, rs)
                    &&& BUFFER_HEADER_SIZE + responses_bytes(rs).len() <= response.len()
                    &&& response_after == splice(
                        response,
                        BUFFER_HEADER_SIZE as int,
                        responses_bytes(rs),
                    )
                }
        },
        Err(Error::ResponseBufferFull) => {
            &&& request_after == request
            &&& exists|rs: Seq<ResponseView>|
                {
                    &&& 0 < rs.len() <= pending.0.len()
                    &&& #[trigger] answers_all(answers, pending.0.take(rs.len() as int), rs)
                    &&& BUFFER_HEADER_SIZE + responses_bytes(rs.drop_last()).len() <= response.len()
                    &&& response.len() < BUFFER_HEADER_SIZE + responses_bytes(rs).len()
                    &&& response_after == splice(
                        response,
                        BUFFER_HEADER_SIZE as int,
                        responses_bytes(rs.drop_last()),
                    )
                }
        },
        Err(_) => false,
    }
}

/// Answers by one relation are answers by any relation that contains it.
proof fn lemma_answers_all_weaken(
    answers1: spec_fn(RequestView, ResponseView) -> bool,
    answers2: spec_fn(RequestView, ResponseView) -> bool,
    fs: Seq<RequestView>,
    rs: Seq<ResponseView>,
)
    requires
        forall|f: RequestView, x: ResponseView| #[trigger] answers1(f, x) ==> answers2(f, x),
        answers_all(answers1, fs, rs),
    ensures
        answers_all(answers2, fs, rs),
{
    assert forall|i: int| 0 <= i < fs.len() implies #[trigger] answers2(fs[i], rs[i]) by {
        assert(answers1(fs[i], rs[i]));
    }
}

/// An outcome stated for one way of answering holds for any way of
/// answering that allows at least the same answers.
pub proof fn lemma_frames_outcome_weaken(
    answers1: spec_fn(RequestView, ResponseView) -> bool,
    answers2: spec_fn(RequestView, ResponseView) -> bool,
    request: Seq<u8>,
    response: Seq<u8>,
    r: Result<usize, Error>,
    request_after: Seq<u8>,
    response_after: Seq<u8>,
)
    requires
        forall|f: RequestView, x: ResponseView| #[trigger] answers1(f, x) ==> answers2(f, x),
        frames_outcome(answers1, request, response, r, request_after, response_after),
    ensures
        frames_outcome(answers2, request, response, r, request_after, response_after),
{
    let pending = pending_requests(request);
    match r {
        Ok(n) => {
            let rs = choose|rs: Seq<ResponseView>|
                {
                    &&& #[trigger] answers_all(answers1, pending.0, rs)
                    &&& n == BUFFER_HEADER_SIZE + responses_bytes(rs).len()
                    &&& response_after == splice(
                        splice(response, BUFFER_HEADER_SIZE as int, responses_bytes(rs)),
                        8,
                        le_bytes(n as u32),
                    )
                };
            lemma_answers_all_weaken(answers1, answers2, pending.0, rs);
        },
        Err(Error::InvalidFrame) => {
            let rs = choose|rs: Seq<ResponseView>|
                {
                    &&& #[trigger] answers_all(answers1, pending.0, rs)
                    &&& BUFFER_HEADER_SIZE + responses_bytes(rs).len() <= response.len()
                    &&& response_after == splice(
                        response,
                        BUFFER_HEADER_SIZE as int,
                        responses_bytes(rs),
                    )
                };
            lemma_answers_all_weaken(answers1, answers2, pending.0, rs);
        },
        Err(Error::ResponseBufferFull) => {
            let rs = choose|rs: Seq<ResponseView>|
                {
                    &&& 0 < rs.len() <= pending.0.len()
                    &&& #[trigger] answers_all(answers1, pending.0.take(rs.len() as int), rs)
                    &&& BUFFER_HEADER_SIZE + responses_bytes(rs.drop_last()).len() <= response.len()
                    &&& response.len() < BUFFER_HEADER_SIZE + responses_bytes(rs).len()
                    &&& response_after == splice(
                        response,
                        BUFFER_HEADER_SIZE as int,
                        responses_bytes(rs.drop_last()),
                    )
                };
            lemma_answers_all_weaken(answers1, answers2, pending.0.take(rs.len() as int), rs);
        },
        Err(_) => {},
    }
}

/// Answers every request between the header of `request` and its recorded
/// write offset, in order: hands it to `handle` and writes the answer as a
/// response frame into `response`, from the start of its frame area. Then
/// records an empty frame area in `request` and the end of the responses in
/// `response`, and returns that end. Neither header is otherwise checked.
pub fn answer_pending_requests<F>(
    channel_id: u64,
    request: &mut [u8],
    response: &mut [u8],
    handle: F,
) -> (r: Result<usize, Error>) where F: for<'a> Fn(SharedIpcRequest<'a>) -> (i32, Vec<u8>)
    requires
        capacity_check(old(request)@.len() as int) is Ok,
        capacity_check(old(response)@.len() as int) is Ok,
        forall|req: SharedIpcRequest| call_requires(handle, (req,)),
    ensures
        ({
            let rq = old(request)@;
            let rs = old(response)@;
            let recorded = next_frame_offset(rq);
            &&& (recorded < BUFFER_HEADER_SIZE || recorded > rq.len()) ==> r
                == Err::<usize, Error>(Error::InvalidFrame) && final(request)@ == rq
                && final(response)@ == rs
            &&& BUFFER_HEADER_SIZE <= recorded <= rq.len() ==> frames_outcome(
                |f: RequestView, x: ResponseView| handled(handle, channel_id, f, x),
                rq,
                rs,
                r,
                final(request)@,
                final(response)@,
            )
        }),
{
    let ghost rq = request@;
    let ghost rs0 = response@;
    let ghost answers = |f: RequestView, x: ResponseView| handled(handle, channel_id, f, x);

    let request_write = read_u32(request, 8)? as usize;
    if request_write < BUFFER_HEADER_SIZE || request_write > request.len() {
        return Err(Error::InvalidFrame);
    }

    let mut request_offset = BUFFER_HEADER_SIZE;
    let mut response_offset = BUFFER_HEADER_SIZE;
    let ghost mut done: Seq<RequestView> = seq![];
    let ghost mut answered: Seq<ResponseView> = seq![];
    proof {
        assert(splice(rs0, 16, responses_bytes(answered)) =~= rs0);
        assert(done + pending_requests(rq).0 =~= pending_requests(rq).0);
    }

    while request_offset < request_write
        invariant
            request@ == rq,
            rq == old(request)@,
            rs0 == old(response)@,
            capacity_check(rq.len() as int) is Ok,
            capacity_check(rs0.len() as int) is Ok,
            answers == (|f: RequestView, x: ResponseView| handled(handle, channel_id, f, x)),
            request_write == next_frame_offset(rq),
            BUFFER_HEADER_SIZE <= request_offset <= request_write <= rq.len(),
            pending_requests(rq).0 == done + scan_requests(
                rq,
                request_offset as int,
                request_write as int,
            ).0,
            pending_requests(rq).1 == scan_requests(
                rq,
                request_offset as int,
                request_write as int,
            ).1,
            answers_all(answers, done, answered),
            response@ == splice(rs0, 16, responses_bytes(answered)),
            response_offset == BUFFER_HEADER_SIZE + responses_bytes(answered).len(),
            response_offset <= response@.len(),
            response@.len() == rs0.len(),
            forall|req: SharedIpcRequest| call_requires(handle, (req,)),
        decreases request_write - request_offset,
    {
        let frame = match read_request_frame(request, request_offset, request_write) {
            Ok(frame) => frame,
            Err(e) => {
                proof {
                    assert(scan_requests(rq, request_offset as int, request_write as int) == (
                        Seq::<RequestView>::empty(),
                        false,
                    ));
                    assert(done + Seq::<RequestView>::empty() =~= done);
                    assert(answers_all(answers, pending_requests(rq).0, answered));
                }
                return Err(e);
            },
        };
        let ghost f = request_frame_at(rq, request_offset as int, request_write as int).unwrap();
        let req = SharedIpcRequest {
            channel_id,
            request_id: frame.request_id,
            method: frame.method,
            payload: frame.payload,
        };
        let ghost sent = req;
        let out = handle(req);
        let ghost got = out;
        let (status, response_payload) = out;
        let ghost rv = ResponseView {
            request_id: frame.request_id,
            status,
            payload: response_payload@,
        };
        proof {
            assert(handled(handle, channel_id, f, rv)) by {
                assert(call_ensures(handle, (sent,), got));
            }
            let rest = scan_requests(rq, request_offset + frame.frame_len, request_write as int);
            assert(scan_requests(rq, request_offset as int, request_write as int) == (
                seq![f] + rest.0,
                rest.1,
            ));
            assert(done + (seq![f] + rest.0) =~= done.push(f) + rest.0);
            assert(pending_requests(rq).0.take(done.len() as int + 1) =~= done.push(f));
            assert(answered.push(rv).drop_last() =~= answered);
            assert forall|i: int| 0 <= i < done.len() as int + 1 implies #[trigger] answers(
                done.push(f)[i],
                answered.push(rv)[i],
            ) by {
                if i < done.len() {
                    assert(answers(done[i], answered[i]));
                }
            }
            assert(responses_bytes(answered) + response_frame_bytes(rv) =~= responses_bytes(
                answered.push(rv),
            ));
        }
        match write_response_frame(
            response,
            response_offset,
            frame.request_id,
            status,
            response_payload.as_slice(),
        ) {
            Ok(next) => {
                proof {
                    lemma_splice_splice(
                        rs0,
                        16,
                        responses_bytes(answered),
                        response_frame_bytes(rv),
                    );
                }
                response_offset = next;
            },
            Err(e) => {
                proof {
                    assert(answers_all(
                        answers,
                        pending_requests(rq).0.take(answered.push(rv).len() as int),
                        answered.push(rv),
                    ));
                }
                return Err(e);
            },
        }
        request_offset += frame.frame_len;
        proof {
            done = done.push(f);
            answered = answered.push(rv);
        }
    }

    write_u32(request, 8, BUFFER_HEADER_SIZE as u32)?;
    write_u32(response, 8, response_offset as u32)?;
    proof {
        assert(done + Seq::<RequestView>::empty() =~= done);
        lemma_read_after_write(rq, 8, 16);
        assert(answers_all(answers, pending_requests(rq).0, answered));
        assert(scan_requests(rq, request_offset as int, request_write as int) == (
            Seq::<RequestView>::empty(),
            true,
        ));
    }
    Ok(response_offset)
}

/// Hands every pending request of the `request` buffer to `handle`, in
/// order, writes each answer as a response frame into a freshly
/// initialized `response` buffer, then marks the request buffer drained
/// and records the end of the responses. Returns that end.
pub fn dispatch_requests<F>(
    channel_id: u64,
    request: &mut [u8],
    response: &mut [u8],
    handle: F,
) -> (r: Result<usize, Error>) where F: for<'a> Fn(SharedIpcRequest<'a>) -> (i32, Vec<u8>)
    requires
        forall|req: SharedIpcRequest| call_requires(handle, (req,)),
    ensures
        ({
            let rq = old(request)@;
            let rs = old(response)@;
            let fresh = splice(rs, 0, words_bytes(buffer_header_words(BUFFER_HEADER_SIZE as u32)));
            let recorded = next_frame_offset(rq);
            &&& initialized_check(rq) matches Err(e) ==> r == Err::<usize, Error>(e)
                && final(request)@ == rq && final(response)@ == rs
            &&& initialized_check(rq) is Ok ==> (capacity_check(rs.len() as int) matches Err(e)
                ==> r == Err::<usize, Error>(e) && final(request)@ == rq && final(response)@ == rs)
            &&& initialized_check(rq) is Ok && capacity_check(rs.len() as int) is Ok && (recorded
                < BUFFER_HEADER_SIZE || recorded > rq.len()) ==> r == Err::<usize, Error>(
                Error::InvalidFrame,
            ) && final(request)@ == rq && final(response)@ == fresh
            &&& initialized_check(rq) is Ok && capacity_check(rs.len() as int) is Ok
                && BUFFER_HEADER_SIZE <= recorded <= rq.len() ==> frames_outcome(
                |f: RequestView, x: ResponseView| handled(handle, channel_id, f, x),
                rq,
                fresh,
                r,
                final(request)@,
                final(response)@,
            )
        }),
{
    validate_initialized(request)?;
    init_buffer(response)?;
    answer_pending_requests(channel_id, request, response, handle)
}


/// Law: the response buffer a successful dispatch leaves behind is an
/// initialized channel buffer whose header records the returned offset, and
/// reading it for a request id, up to that offset, gives the first response
/// written for that id (none when no response answers it).
pub proof fn law_dispatched_responses_are_readable(
    response: Seq<u8>,
    rs: Seq<ResponseView>,
    request_id: u32,
)
    requires
        capacity_check(response.len() as int) is Ok,
        BUFFER_HEADER_SIZE + responses_bytes(rs).len() <= response.len(),
    ensures
        ({
            let n = BUFFER_HEADER_SIZE + responses_bytes(rs).len();
            let after = splice(
                splice(
                    splice(response, 0, words_bytes(buffer_header_words(BUFFER_HEADER_SIZE as u32))),
                    BUFFER_HEADER_SIZE as int,
                    responses_bytes(rs),
                ),
                8,
                le_bytes(n as u32),
            );
            &&& after == splice(response, 0, words_bytes(buffer_header_words(n as u32)) + responses_bytes(rs))
            &&& initialized_check(after) is Ok
            &&& next_frame_offset(after) == n
            &&& find_response(after, BUFFER_HEADER_SIZE as int, n as int, request_id)
                == first_response_for(rs, request_id)
        }),
{
    let n = 16 + responses_bytes(rs).len();
    let fresh = words_bytes(buffer_header_words(16));
    let head = words_bytes(buffer_header_words(n as u32));
    let body = responses_bytes(rs);
    lemma_words_bytes(buffer_header_words(16), 0);
    lemma_words_bytes(buffer_header_words(n as u32), 0);
    lemma_splice_splice(response, 0, fresh, body);
    lemma_header_rewrite(response, body, 16, n as u32);
    let after = splice(response, 0, head + body);
    lemma_front_parts(response, head, body);
    lemma_header_reads(after, n as u32);
    lemma_find_in_responses(after, 16, rs, request_id);
}

/// Law: in the response buffer a successful dispatch leaves behind, an id
/// that none of the written responses answers is found nowhere up to the
/// recorded offset, so reading its response fails as an invalid frame.
pub proof fn law_dispatch_misses_unanswered_id(
    response: Seq<u8>,
    rs: Seq<ResponseView>,
    request_id: u32,
)
    requires
        capacity_check(response.len() as int) is Ok,
        BUFFER_HEADER_SIZE + responses_bytes(rs).len() <= response.len(),
        forall|j: int| 0 <= j < rs.len() ==> #[trigger] rs[j].request_id != request_id,
    ensures
        ({
            let n = BUFFER_HEADER_SIZE + responses_bytes(rs).len();
            let after = splice(
                splice(
                    splice(response, 0, words_bytes(buffer_header_words(BUFFER_HEADER_SIZE as u32))),
                    BUFFER_HEADER_SIZE as int,
                    responses_bytes(rs),
                ),
                8,
                le_bytes(n as u32),
            );
            find_response(after, BUFFER_HEADER_SIZE as int, n as int, request_id) is None
        }),
{
    law_dispatched_responses_are_readable(response, rs, request_id);
    crate::frame::law_lookup_misses_unanswered_id(rs, request_id);
}

/// The front of a buffer overwritten by a sixteen-byte `head` and a `body`
/// holds those two parts in turn.
proof fn lemma_front_parts(b: Seq<u8>, head: Seq<u8>, body: Seq<u8>)
    requires
        head.len() == 16,
        16 + body.len() <= b.len(),
    ensures
        splice(b, 0, head + body).len() == b.len(),
        splice(b, 0, head + body).subrange(0, 16) == head,
        splice(b, 0, head + body).subrange(16, 16 + body.len() as int) == body,
{
    let after = splice(b, 0, head + body);
    let end = 16 + body.len() as int;
    lemma_splice_parts(b, 0, head + body);
    assert(after.subrange(0, 16) =~= after.subrange(0, end).subrange(0, 16));
    assert(after.subrange(16, end) =~= after.subrange(0, end).subrange(16, end));
}

/// A buffer that starts with the header words for `n` is initialized and
/// records `n` as its write offset.
proof fn lemma_header_reads(b: Seq<u8>, n: u32)
    requires
        16 <= b.len(),
        b.subrange(0, 16) == words_bytes(buffer_header_words(n)),
    ensures
        header_ok(b),
        next_frame_offset(b) == n,
{
    lemma_words_bytes(buffer_header_words(n), 0);
    lemma_words_bytes(buffer_header_words(n), 1);
    lemma_words_bytes(buffer_header_words(n), 2);
    lemma_read_within(b, 0, 16, 0);
    lemma_read_within(b, 0, 16, 4);
    lemma_read_within(b, 0, 16, 8);
}

} // verus!
