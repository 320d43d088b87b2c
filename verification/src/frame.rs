//! The shared-buffer wire format, stated over byte sequences.
//!
//! A channel buffer starts with a header of four little-endian words: a
//! magic number, a version, the offset where the next frame is written, and
//! a reserved word. Frames follow at offset 16. Each frame starts with eight
//! words (frame length, kind, request id, method length, payload length,
//! status, and two reserved words), then the method name, the payload, and
//! zero padding up to a multiple of eight bytes.
use vstd::prelude::*;
use vstd::utf8::{valid_utf8, decode_utf8, encode_utf8, encode_utf8_valid_utf8, encode_utf8_decode_utf8};
use crate::wire::{
    le_bytes, le_u32_at, zeros, align8_spec, splice, lemma_le_bytes_roundtrip, lemma_read_within,
    lemma_read_prefix, lemma_align8, lemma_splice_parts, lemma_read_after_write,
    lemma_splice_splice,
};
use crate::shared_ipc::{
    BUFFER_MAGIC, BUFFER_VERSION, FRAME_KIND_REQUEST, FRAME_KIND_RESPONSE,
};

verus! {

/// The little-endian bytes of each word of `ws`, one word after the other.
pub open spec fn words_bytes(ws: Seq<u32>) -> Seq<u8> {
    Seq::new(4 * ws.len(), |i: int| le_bytes(ws[i / 4])[i % 4])
}

/// The header words of a channel buffer whose next frame goes at `write_offset`.
pub open spec fn buffer_header_words(write_offset: u32) -> Seq<u32> {
    seq![BUFFER_MAGIC, BUFFER_VERSION, write_offset, 0u32]
}

/// The header words of a request frame.
pub open spec fn request_header_words(
    frame_len: u32,
    request_id: u32,
    method_len: u32,
    payload_len: u32,
) -> Seq<u32> {
    seq![frame_len, FRAME_KIND_REQUEST, request_id, method_len, payload_len, 0u32, 0u32, 0u32]
}

/// The header words of a response frame.
pub open spec fn response_header_words(
    frame_len: u32,
    request_id: u32,
    payload_len: u32,
    status: i32,
) -> Seq<u32> {
    seq![frame_len, FRAME_KIND_RESPONSE, request_id, 0u32, payload_len, status as u32, 0u32, 0u32]
}

/// The length of a request frame for a method name and a payload of the given lengths.
pub open spec fn request_frame_len(method_len: int, payload_len: int) -> int {
    align8_spec(32 + method_len + payload_len)
}

/// The length of a response frame for a payload of the given length.
pub open spec fn response_frame_len(payload_len: int) -> int {
    align8_spec(32 + payload_len)
}

/// The bytes of a request frame.
pub open spec fn request_frame_bytes(request_id: u32, method: Seq<u8>, payload: Seq<u8>) -> Seq<u8> {
    let frame_len = request_frame_len(method.len() as int, payload.len() as int);
    words_bytes(
        request_header_words(
            frame_len as u32,
            request_id,
            method.len() as u32,
            payload.len() as u32,
        ),
    ) + method + payload + zeros((frame_len - 32 - method.len() - payload.len()) as nat)
}

/// What a response frame carries.
pub struct ResponseView {
    pub request_id: u32,
    pub status: i32,
    pub payload: Seq<u8>,
}

/// What a request frame carries: the method name as characters.
pub struct RequestView {
    pub request_id: u32,
    pub method: Seq<char>,
    pub payload: Seq<u8>,
}

/// The bytes of a response frame.
pub open spec fn response_frame_bytes(r: ResponseView) -> Seq<u8> {
    let frame_len = response_frame_len(r.payload.len() as int);
    words_bytes(
        response_header_words(frame_len as u32, r.request_id, r.payload.len() as u32, r.status),
    ) + r.payload + zeros((frame_len - 32 - r.payload.len()) as nat)
}

/// The bytes of consecutive response frames, in order.
pub open spec fn responses_bytes(rs: Seq<ResponseView>) -> Seq<u8>
    decreases rs.len(),
{
    if rs.len() == 0 {
        seq![]
    } else {
        responses_bytes(rs.drop_last()) + response_frame_bytes(rs.last())
    }
}

/// The buffer is large enough for a header and one frame header, and small
/// enough that every offset in it fits in a `u32`.
pub open spec fn capacity_ok(len: int) -> bool {
    48 <= len <= u32::MAX
}

/// The header of `b` carries the magic number and version.
pub open spec fn header_ok(b: Seq<u8>) -> bool {
    le_u32_at(b, 0) == BUFFER_MAGIC && le_u32_at(b, 4) == BUFFER_VERSION
}

/// The offset recorded in the header of `b` for the next frame.
pub open spec fn next_frame_offset(b: Seq<u8>) -> int {
    le_u32_at(b, 8) as int
}

/// The request frame at `off`, when the frame there is well formed and ends
/// by `end`: its kind is a request, its length covers its header, method and
/// payload, and its method name is UTF-8.
pub open spec fn request_frame_at(b: Seq<u8>, off: int, end: int) -> Option<RequestView> {
    if off < 0 || off + 32 > end || end > b.len() {
        None
    } else {
        let frame_len = le_u32_at(b, off) as int;
        let kind = le_u32_at(b, off + 4);
        let request_id = le_u32_at(b, off + 8);
        let method_len = le_u32_at(b, off + 12) as int;
        let payload_len = le_u32_at(b, off + 16) as int;
        if kind != FRAME_KIND_REQUEST || frame_len < 32 || off + frame_len > end || 32
            + method_len + payload_len > frame_len {
            None
        } else {
            let method = b.subrange(off + 32, off + 32 + method_len);
            if valid_utf8(method) {
                Some(
                    RequestView {
                        request_id,
                        method: decode_utf8(method),
                        payload: b.subrange(
                            off + 32 + method_len,
                            off + 32 + method_len + payload_len,
                        ),
                    },
                )
            } else {
                None
            }
        }
    }
}

/// The request frames from `off` up to `end`, read one after the other, and
/// whether every one of them was well formed. Reading stops at the first
/// malformed frame.
pub open spec fn scan_requests(b: Seq<u8>, off: int, end: int) -> (Seq<RequestView>, bool)
    decreases end - off,
{
    if off >= end {
        (seq![], true)
    } else {
        match request_frame_at(b, off, end) {
            None => (seq![], false),
            Some(f) => {
                let rest = scan_requests(b, off + le_u32_at(b, off), end);
                (seq![f] + rest.0, rest.1)
            },
        }
    }
}

/// The requests waiting in a request buffer: the frames between the header
/// and the recorded write offset.
pub open spec fn pending_requests(b: Seq<u8>) -> (Seq<RequestView>, bool) {
    scan_requests(b, 16, next_frame_offset(b))
}

/// The first response frame for `request_id` from `off` up to `end`; `None`
/// when a malformed frame comes first or no frame answers that request.
pub open spec fn find_response(b: Seq<u8>, off: int, end: int, request_id: u32) -> Option<
    ResponseView,
>
    decreases end - off,
{
    if off < 0 || off + 32 > end || end > b.len() {
        None
    } else {
        let frame_len = le_u32_at(b, off) as int;
        let kind = le_u32_at(b, off + 4);
        let id = le_u32_at(b, off + 8);
        let payload_len = le_u32_at(b, off + 16) as int;
        let status = le_u32_at(b, off + 20) as i32;
        if kind != FRAME_KIND_RESPONSE || frame_len < 32 || off + frame_len > end || 32
            + payload_len > frame_len {
            None
        } else if id == request_id {
            Some(
                ResponseView {
                    request_id,
                    status,
                    payload: b.subrange(off + 32, off + 32 + payload_len),
                },
            )
        } else {
            find_response(b, off + frame_len, end, request_id)
        }
    }
}

/// The first response in `rs` for `request_id`.
pub open spec fn first_response_for(rs: Seq<ResponseView>, request_id: u32) -> Option<
    ResponseView,
>
    decreases rs.len(),
{
    if rs.len() == 0 {
        None
    } else if rs[0].request_id == request_id {
        Some(rs[0])
    } else {
        first_response_for(rs.drop_first(), request_id)
    }
}

} // verus!

verus! {

/// The word at place `j` of `ws` reads back from its bytes.
pub proof fn lemma_words_bytes(ws: Seq<u32>, j: int)
    requires
        0 <= j < ws.len(),
    ensures
        words_bytes(ws).len() == 4 * ws.len(),
        le_u32_at(words_bytes(ws), 4 * j) == ws[j],
{
    let wb = words_bytes(ws);
    let lb = le_bytes(ws[j]);
    assert((4 * j) / 4 == j && (4 * j) % 4 == 0);
    assert((4 * j + 1) / 4 == j && (4 * j + 1) % 4 == 1);
    assert((4 * j + 2) / 4 == j && (4 * j + 2) % 4 == 2);
    assert((4 * j + 3) / 4 == j && (4 * j + 3) % 4 == 3);
    assert(wb[4 * j] == lb[0]);
    assert(wb[4 * j + 1] == lb[1]);
    assert(wb[4 * j + 2] == lb[2]);
    assert(wb[4 * j + 3] == lb[3]);
    lemma_le_bytes_roundtrip(ws[j]);
}

/// Appending a word appends its bytes.
pub proof fn lemma_words_bytes_push(ws: Seq<u32>, w: u32)
    ensures
        words_bytes(ws.push(w)) =~= words_bytes(ws) + le_bytes(w),
{
    let a = words_bytes(ws.push(w));
    let b = words_bytes(ws) + le_bytes(w);
    assert forall|i: int| 0 <= i < a.len() implies a[i] == b[i] by {
        if i < 4 * ws.len() {
            assert(i / 4 < ws.len());
            assert(ws.push(w)[i / 4] == ws[i / 4]);
        } else {
            assert(i / 4 == ws.len());
            assert(i % 4 == i - 4 * ws.len());
        }
    }
}

/// Reading the eight header words of a frame whose bytes sit at `off`.
pub proof fn lemma_frame_words(b: Seq<u8>, off: int, hw: Seq<u32>, rest: Seq<u8>, j: int)
    requires
        0 <= off,
        hw.len() == 8,
        0 <= j < 8,
        off + 32 + rest.len() <= b.len(),
        b.subrange(off, off + 32 + rest.len()) == words_bytes(hw) + rest,
    ensures
        le_u32_at(b, off + 4 * j) == hw[j],
{
    lemma_words_bytes(hw, j);
    lemma_read_prefix(words_bytes(hw), rest, 4 * j);
    lemma_read_within(b, off, off + 32 + rest.len(), off + 4 * j);
}

/// A request frame written at `off` is read back there as the same request.
pub proof fn lemma_request_frame_at_written(
    b: Seq<u8>,
    off: int,
    end: int,
    request_id: u32,
    method: Seq<u8>,
    payload: Seq<u8>,
)
    requires
        0 <= off,
        off + request_frame_len(method.len() as int, payload.len() as int) <= end <= b.len(),
        end <= u32::MAX,
        b.subrange(off, off + request_frame_len(method.len() as int, payload.len() as int))
            == request_frame_bytes(request_id, method, payload),
        valid_utf8(method),
    ensures
        le_u32_at(b, off) as int == request_frame_len(method.len() as int, payload.len() as int),
        request_frame_at(b, off, end) == Some(
            RequestView { request_id, method: decode_utf8(method), payload },
        ),
{
    let m = method.len() as int;
    let p = payload.len() as int;
    let flen = request_frame_len(m, p);
    lemma_align8(32 + m + p);
    let hw = request_header_words(flen as u32, request_id, m as u32, p as u32);
    let rest = method + payload + zeros((flen - 32 - m - p) as nat);
    assert(words_bytes(hw).len() == 32) by {
        lemma_words_bytes(hw, 0);
    }
    assert(request_frame_bytes(request_id, method, payload) =~= words_bytes(hw) + rest);
    lemma_frame_words(b, off, hw, rest, 0);
    lemma_frame_words(b, off, hw, rest, 1);
    lemma_frame_words(b, off, hw, rest, 2);
    lemma_frame_words(b, off, hw, rest, 3);
    lemma_frame_words(b, off, hw, rest, 4);
    let fb = b.subrange(off, off + flen);
    assert(b.subrange(off + 32, off + 32 + m) =~= fb.subrange(32, 32 + m));
    assert(fb.subrange(32, 32 + m) =~= method);
    assert(b.subrange(off + 32 + m, off + 32 + m + p) =~= fb.subrange(32 + m, 32 + m + p));
    assert(fb.subrange(32 + m, 32 + m + p) =~= payload);
}

/// A response frame written at `off` answers its own request there, and
/// lets the search go on past it for any other request.
pub proof fn lemma_find_response_written(
    b: Seq<u8>,
    off: int,
    end: int,
    r: ResponseView,
    request_id: u32,
)
    requires
        0 <= off,
        off + response_frame_len(r.payload.len() as int) <= end <= b.len(),
        end <= u32::MAX,
        b.subrange(off, off + response_frame_len(r.payload.len() as int))
            == response_frame_bytes(r),
    ensures
        le_u32_at(b, off) as int == response_frame_len(r.payload.len() as int),
        find_response(b, off, end, request_id) == if r.request_id == request_id {
            Some(r)
        } else {
            find_response(b, off + response_frame_len(r.payload.len() as int), end, request_id)
        },
{
    let p = r.payload.len() as int;
    let flen = response_frame_len(p);
    lemma_align8(32 + p);
    let hw = response_header_words(flen as u32, r.request_id, p as u32, r.status);
    let rest = r.payload + zeros((flen - 32 - p) as nat);
    assert(words_bytes(hw).len() == 32) by {
        lemma_words_bytes(hw, 0);
    }
    assert(response_frame_bytes(r) =~= words_bytes(hw) + rest);
    lemma_frame_words(b, off, hw, rest, 0);
    lemma_frame_words(b, off, hw, rest, 1);
    lemma_frame_words(b, off, hw, rest, 2);
    lemma_frame_words(b, off, hw, rest, 4);
    lemma_frame_words(b, off, hw, rest, 5);
    let s = r.status;
    assert(((s as u32) as i32) == s) by (bit_vector);
    let fb = b.subrange(off, off + flen);
    assert(b.subrange(off + 32, off + 32 + p) =~= fb.subrange(32, 32 + p));
    assert(fb.subrange(32, 32 + p) =~= r.payload);
}

} // verus!

verus! {

/// The bytes of a response sequence, taken from the front.
pub proof fn lemma_responses_bytes_front(rs: Seq<ResponseView>)
    requires
        rs.len() > 0,
    ensures
        responses_bytes(rs) =~= response_frame_bytes(rs[0]) + responses_bytes(rs.drop_first()),
    decreases rs.len(),
{
    if rs.len() == 1 {
        assert(rs.drop_last() =~= seq![]);
        assert(rs.drop_first() =~= seq![]);
    } else {
        lemma_responses_bytes_front(rs.drop_last());
        assert(rs.drop_last()[0] == rs[0]);
        assert(rs.drop_last().drop_first() =~= rs.drop_first().drop_last());
        assert(rs.drop_first().last() == rs.last());
    }
}

/// Searching the response frames laid out one after another from `off`
/// finds the first response for the request.
pub proof fn lemma_find_in_responses(b: Seq<u8>, off: int, rs: Seq<ResponseView>, request_id: u32)
    requires
        0 <= off,
        off + responses_bytes(rs).len() <= b.len() <= u32::MAX,
        b.subrange(off, off + responses_bytes(rs).len()) == responses_bytes(rs),
    ensures
        find_response(b, off, off + responses_bytes(rs).len(), request_id)
            == first_response_for(rs, request_id),
    decreases rs.len(),
{
    let end = off + responses_bytes(rs).len();
    if rs.len() > 0 {
        lemma_responses_bytes_front(rs);
        let r = rs[0];
        let fb = response_frame_bytes(r);
        let rest = responses_bytes(rs.drop_first());
        let flen = response_frame_len(r.payload.len() as int);
        lemma_align8(32 + r.payload.len() as int);
        assert(fb.len() == flen) by {
            let hw = response_header_words(flen as u32, r.request_id, r.payload.len() as u32, r.status);
            lemma_words_bytes(hw, 0);
        }
        assert(b.subrange(off, off + flen) =~= fb) by {
            assert(b.subrange(off, off + flen) =~= b.subrange(off, end).subrange(0, flen));
        }
        lemma_find_response_written(b, off, end, r, request_id);
        assert(b.subrange(off + flen, off + flen + rest.len()) =~= rest) by {
            assert(b.subrange(off + flen, off + flen + rest.len()) =~= b.subrange(off, end).subrange(flen, flen + rest.len()));
        }
        lemma_find_in_responses(b, off + flen, rs.drop_first(), request_id);
    }
}

/// The requests read up to `end` are read again, followed by one more,
/// when a request frame is written at `end` and nothing before it changes.
pub proof fn lemma_scan_append(
    b1: Seq<u8>,
    b2: Seq<u8>,
    off: int,
    end: int,
    request_id: u32,
    method: Seq<u8>,
    payload: Seq<u8>,
)
    requires
        0 <= off <= end <= b1.len(),
        scan_requests(b1, off, end).1,
        b2.subrange(off, end) == b1.subrange(off, end),
        end + request_frame_len(method.len() as int, payload.len() as int) <= b2.len(),
        b2.len() <= u32::MAX,
        b2.subrange(end, end + request_frame_len(method.len() as int, payload.len() as int))
            == request_frame_bytes(request_id, method, payload),
        valid_utf8(method),
    ensures
        scan_requests(b2, off, end + request_frame_len(method.len() as int, payload.len() as int))
            == (
            scan_requests(b1, off, end).0.push(
                RequestView { request_id, method: decode_utf8(method), payload },
            ),
            true,
        ),
    decreases end - off,
{
    let flen = request_frame_len(method.len() as int, payload.len() as int);
    let f_end = end + flen;
    let f = RequestView { request_id, method: decode_utf8(method), payload };
    lemma_align8(32 + method.len() as int + payload.len() as int);
    lemma_request_frame_at_written(b2, end, f_end, request_id, method, payload);
    if off >= end {
        assert(scan_requests(b2, f_end, f_end) == (Seq::<RequestView>::empty(), true));
        assert(seq![f] + Seq::<RequestView>::empty() =~= Seq::<RequestView>::empty().push(f));
    } else {
        let g = request_frame_at(b1, off, end).unwrap();
        let l1 = le_u32_at(b1, off) as int;
        lemma_read_within(b1, off, end, off);
        lemma_read_within(b2, off, end, off);
        lemma_read_within(b1, off, end, off + 4);
        lemma_read_within(b2, off, end, off + 4);
        lemma_read_within(b1, off, end, off + 8);
        lemma_read_within(b2, off, end, off + 8);
        lemma_read_within(b1, off, end, off + 12);
        lemma_read_within(b2, off, end, off + 12);
        lemma_read_within(b1, off, end, off + 16);
        lemma_read_within(b2, off, end, off + 16);
        let m = le_u32_at(b1, off + 12) as int;
        let p = le_u32_at(b1, off + 16) as int;
        assert(b2.subrange(off + 32, off + 32 + m) =~= b1.subrange(off + 32, off + 32 + m)) by {
            assert(b2.subrange(off + 32, off + 32 + m) =~= b2.subrange(off, end).subrange(32, 32 + m));
            assert(b1.subrange(off + 32, off + 32 + m) =~= b1.subrange(off, end).subrange(32, 32 + m));
        }
        assert(b2.subrange(off + 32 + m, off + 32 + m + p) =~= b1.subrange(off + 32 + m, off + 32 + m + p)) by {
            assert(b2.subrange(off + 32 + m, off + 32 + m + p) =~= b2.subrange(off, end).subrange(32 + m, 32 + m + p));
            assert(b1.subrange(off + 32 + m, off + 32 + m + p) =~= b1.subrange(off, end).subrange(32 + m, 32 + m + p));
        }
        assert(request_frame_at(b2, off, f_end) == Some(g));
        assert(b2.subrange(off + l1, end) =~= b1.subrange(off + l1, end)) by {
            assert(b2.subrange(off + l1, end) =~= b2.subrange(off, end).subrange(l1, end - off));
            assert(b1.subrange(off + l1, end) =~= b1.subrange(off, end).subrange(l1, end - off));
        }
        lemma_scan_append(b1, b2, off + l1, end, request_id, method, payload);
        let rest1 = scan_requests(b1, off + l1, end);
        assert(seq![g] + rest1.0.push(f) =~= (seq![g] + rest1.0).push(f));
    }
}

/// Rewriting the write offset in a freshly written header.
pub proof fn lemma_header_rewrite(b: Seq<u8>, body: Seq<u8>, w0: u32, w1: u32)
    requires
        16 + body.len() <= b.len(),
    ensures
        splice(splice(b, 0, words_bytes(buffer_header_words(w0)) + body), 8, le_bytes(w1))
            =~= splice(b, 0, words_bytes(buffer_header_words(w1)) + body),
{
    let h0 = words_bytes(buffer_header_words(w0));
    let h1 = words_bytes(buffer_header_words(w1));
    let x = splice(splice(b, 0, h0 + body), 8, le_bytes(w1));
    let y = splice(b, 0, h1 + body);
    assert forall|i: int| 0 <= i < x.len() implies x[i] == y[i] by {
        if i < 16 {
            if 8 <= i < 12 {
                assert(i / 4 == 2);
                assert(i % 4 == i - 8);
            } else if i < 8 {
                assert(i / 4 < 2);
            } else {
                assert(i / 4 == 3);
            }
        }
    }
}

} // verus!

verus! {

/// After a request frame is written at `slot` and the write offset is moved
/// past it, the pending requests are those that were pending followed by
/// the new one, or the new one alone when it was written at the start.
pub proof fn law_written_request_is_pending(
    b: Seq<u8>,
    slot: int,
    request_id: u32,
    method: Seq<char>,
    payload: Seq<u8>,
)
    requires
        16 <= slot,
        b.len() <= u32::MAX,
        slot + request_frame_len(encode_utf8(method).len() as int, payload.len() as int)
            <= b.len(),
    ensures
        ({
            let mb = encode_utf8(method);
            let frame_len = request_frame_len(mb.len() as int, payload.len() as int);
            let b2 = splice(
                splice(b, slot, request_frame_bytes(request_id, mb, payload)),
                8,
                le_bytes((slot + frame_len) as u32),
            );
            let request = RequestView { request_id, method, payload };
            &&& next_frame_offset(b2) == slot + frame_len
            &&& slot == next_frame_offset(b) && pending_requests(b).1 ==> pending_requests(b2) == (
                pending_requests(b).0.push(request),
                true,
            )
            &&& slot == 16 ==> pending_requests(b2) == (seq![request], true)
        }),
{
    let mb = encode_utf8(method);
    let frame_len = request_frame_len(mb.len() as int, payload.len() as int);
    let fb = request_frame_bytes(request_id, mb, payload);
    let framed = splice(b, slot, fb);
    let b2 = splice(framed, 8, le_bytes((slot + frame_len) as u32));
    let request = RequestView { request_id, method, payload };
    lemma_align8(32 + mb.len() as int + payload.len() as int);
    assert(fb.len() == frame_len) by {
        lemma_words_bytes(
            request_header_words(frame_len as u32, request_id, mb.len() as u32, payload.len() as u32),
            0,
        );
    }
    lemma_splice_parts(b, slot, fb);
    lemma_splice_parts(framed, 8, le_bytes((slot + frame_len) as u32));
    lemma_read_after_write(framed, 8, (slot + frame_len) as u32);
    assert(b2.subrange(16, slot) =~= b.subrange(16, slot)) by {
        assert(b2.subrange(16, slot) =~= b2.subrange(12, b2.len() as int).subrange(4, slot - 12));
        assert(framed.subrange(16, slot) =~= framed.subrange(0, slot).subrange(16, slot));
    }
    assert(b2.subrange(slot, slot + frame_len) =~= fb) by {
        assert(b2.subrange(slot, slot + frame_len) =~= b2.subrange(12, b2.len() as int).subrange(
            slot - 12,
            slot - 12 + frame_len,
        ));
    }
    encode_utf8_valid_utf8(method);
    encode_utf8_decode_utf8(method);
    if slot == next_frame_offset(b) && pending_requests(b).1 {
        lemma_scan_append(b, b2, 16, slot, request_id, mb, payload);
    }
    if slot == 16 {
        lemma_scan_append(b, b2, 16, 16, request_id, mb, payload);
        assert(Seq::<RequestView>::empty().push(request) =~= seq![request]);
    }
}

} // verus!

verus! {

/// When every response in `rs` answers a different request, looking up the
/// request of any of them finds that very response.
pub proof fn law_lookup_finds_each_response(rs: Seq<ResponseView>, i: int)
    requires
        0 <= i < rs.len(),
        forall|j: int, k: int|
            0 <= j < k < rs.len() ==> #[trigger] rs[j].request_id != #[trigger] rs[k].request_id,
    ensures
        first_response_for(rs, rs[i].request_id) == Some(rs[i]),
    decreases i,
{
    if i > 0 {
        assert(rs[0].request_id != rs[i].request_id);
        let tail = rs.drop_first();
        assert(tail[i - 1] == rs[i]);
        assert forall|j: int, k: int| 0 <= j < k < tail.len() implies #[trigger] tail[j].request_id
            != #[trigger] tail[k].request_id by {
            assert(tail[j] == rs[j + 1]);
            assert(tail[k] == rs[k + 1]);
        }
        law_lookup_finds_each_response(tail, i - 1);
    }
}

/// No response in `rs` answers `request_id`, so looking it up finds nothing.
pub proof fn law_lookup_misses_unanswered_id(rs: Seq<ResponseView>, request_id: u32)
    requires
        forall|j: int| 0 <= j < rs.len() ==> #[trigger] rs[j].request_id != request_id,
    ensures
        first_response_for(rs, request_id) is None,
    decreases rs.len(),
{
    if rs.len() > 0 {
        let tail = rs.drop_first();
        assert forall|j: int| 0 <= j < tail.len() implies #[trigger] tail[j].request_id
            != request_id by {
            assert(tail[j] == rs[j + 1]);
        }
        law_lookup_misses_unanswered_id(tail, request_id);
    }
}

} // verus!

verus! {

/// Writing the header words, the method, the payload and the padding of a
/// request frame one after another writes the frame.
pub proof fn lemma_request_frame_assembled(
    b: Seq<u8>,
    slot: int,
    request_id: u32,
    method: Seq<u8>,
    payload: Seq<u8>,
    frame_len: int,
)
    requires
        0 <= slot,
        frame_len == request_frame_len(method.len() as int, payload.len() as int),
        slot + frame_len <= b.len(),
    ensures
        ({
            let hw = request_header_words(
                frame_len as u32,
                request_id,
                method.len() as u32,
                payload.len() as u32,
            );
            let pad = zeros((frame_len - 32 - method.len() - payload.len()) as nat);
            splice(
                splice(
                    splice(splice(b, slot, words_bytes(hw)), slot + 32, method),
                    slot + 32 + method.len(),
                    payload,
                ),
                slot + 32 + method.len() + payload.len(),
                pad,
            ) == splice(b, slot, request_frame_bytes(request_id, method, payload))
        }),
{
    let hw = request_header_words(
        frame_len as u32,
        request_id,
        method.len() as u32,
        payload.len() as u32,
    );
    let pad = zeros((frame_len - 32 - method.len() - payload.len()) as nat);
    lemma_align8(32 + method.len() as int + payload.len() as int);
    assert(words_bytes(hw).len() == 32);
    lemma_splice_splice(b, slot, words_bytes(hw), method);
    lemma_splice_splice(b, slot, words_bytes(hw) + method, payload);
    lemma_splice_splice(b, slot, words_bytes(hw) + method + payload, pad);
    assert(request_frame_bytes(request_id, method, payload) =~= words_bytes(hw) + method + payload
        + pad);
}

} // verus!
