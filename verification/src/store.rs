//! The host side of shared buffers and channels: which buffers and channels
//! exist under which ids, what they hold, and which methods answer requests.
//!
//! The contents of each shared region are held here as plain bytes; the
//! platform layer maps them to the memory it hands to script.
use vstd::prelude::*;
use std::collections::HashMap;
use crate::error::{Error, error_text, method_not_found_text};
use crate::types::{
    SharedIpcRequest, CreateSharedBufferRequest, CreateSharedChannelRequest,
    ReadSharedBufferRequest, SharedBufferInfo, SharedChannelDispatch, SharedChannelInfo,
    WriteSharedBufferRequest,
};
use crate::validate::{
    size_check, channel_capacity_check, create_request_check, channel_request_check,
    validate_size, validate_channel_capacity, validate_create_request, validate_channel_request,
};
use vstd::slice::{slice_subrange, slice_to_vec};
use crate::wire::{le_bytes, splice, zeros, write_u32, lemma_splice_splice, lemma_splice_parts};
use crate::frame::{
    buffer_header_words, words_bytes, lemma_words_bytes_push, next_frame_offset, RequestView,
    ResponseView,
};
use crate::shared_ipc::{
    answer_pending_requests, copy_into, frames_outcome, handled, lemma_frames_outcome_weaken,
    BUFFER_HEADER_SIZE, BUFFER_MAGIC, BUFFER_VERSION,
};

verus! {

broadcast use vstd::std_specs::hash::group_hash_axioms;

/// A registered method: runs on one request and gives back a payload or an
/// error.
pub open spec fn callable<H>(handler: H) -> bool where
    H: for<'a> Fn(SharedIpcRequest<'a>) -> Result<Vec<u8>, Error>,
 {
    forall|req: SharedIpcRequest| #[trigger] call_requires(handler, (req,))
}

/// The place of the first method registered under `name`.
pub open spec fn method_index<H>(methods: Seq<(Seq<char>, H)>, name: Seq<char>) -> Option<int>
    decreases methods.len(),
{
    if methods.len() == 0 {
        None
    } else if methods[0].0 == name {
        Some(0)
    } else {
        match method_index(methods.drop_first(), name) {
            Some(i) => Some(i + 1),
            None => None,
        }
    }
}

/// The handler registered under `name`, if any.
pub open spec fn method_handler<H>(methods: Seq<(Seq<char>, H)>, name: Seq<char>) -> Option<H> {
    match method_index(methods, name) {
        Some(i) => Some(methods[i].1),
        None => None,
    }
}

/// The registrations after registering `handler` under `name`: it replaces
/// the handler already under that name, or is added after the others.
pub open spec fn with_method<H>(methods: Seq<(Seq<char>, H)>, name: Seq<char>, handler: H) -> Seq<
    (Seq<char>, H),
> {
    match method_index(methods, name) {
        Some(i) => methods.update(i, (name, handler)),
        None => methods.push((name, handler)),
    }
}

/// A found index is in range and holds the name.
pub proof fn lemma_method_index<H>(methods: Seq<(Seq<char>, H)>, name: Seq<char>)
    ensures
        method_index(methods, name) matches Some(i) ==> 0 <= i < methods.len() && methods[i].0
            == name,
        method_index(methods, name) is None ==> forall|j: int|
            0 <= j < methods.len() ==> #[trigger] methods[j].0 != name,
    decreases methods.len(),
{
    if methods.len() > 0 {
        lemma_method_index(methods.drop_first(), name);
        if method_index(methods, name) is None {
            assert forall|j: int| 0 <= j < methods.len() implies #[trigger] methods[j].0 != name by {
                if j > 0 {
                    assert(methods.drop_first()[j - 1] == methods[j]);
                }
            }
        }
    }
}

/// The answer a registered method gives to `req`, as the status and the
/// payload of a response: its payload with status `STATUS_OK` when it
/// succeeds, the text of its error with status `STATUS_ERROR` when it fails,
/// and the text of a missing-method error when nothing is registered under
/// the request's method.
pub open spec fn method_reply<H>(
    methods: Seq<(Seq<char>, H)>,
    req: SharedIpcRequest,
    out: (i32, Vec<u8>),
) -> bool where H: for<'a> Fn(SharedIpcRequest<'a>) -> Result<Vec<u8>, Error> {
    match method_handler(methods, req.method@) {
        None => out.0 == crate::shared_ipc::STATUS_ERROR && out.1@ == vstd::utf8::encode_utf8(
            method_not_found_text(req.method@),
        ),
        Some(h) => exists|res: Result<Vec<u8>, Error>|
            {
                &&& #[trigger] call_ensures(h, (req,), res)
                &&& match res {
                    Ok(v) => out.0 == crate::shared_ipc::STATUS_OK && out.1@ == v@,
                    Err(e) => out.0 == crate::shared_ipc::STATUS_ERROR && out.1@
                        == vstd::utf8::encode_utf8(error_text(e)),
                }
            },
    }
}

/// The registrations as names and handlers.
pub open spec fn methods_view<H>(methods: Seq<(String, H)>) -> Seq<(Seq<char>, H)> {
    methods.map_values(|p: (String, H)| (p.0@, p.1))
}

/// The UTF-8 bytes of a string.
fn string_bytes(s: &String) -> (bytes: Vec<u8>)
    ensures
        bytes@ == vstd::utf8::encode_utf8(s@),
{
    vstd::slice::slice_to_vec(s.as_str().as_bytes())
}

/// Finds the method registered under `name`.
fn find_method<H>(methods: &Vec<(String, H)>, name: &String) -> (found: Option<usize>)
    ensures
        found matches Some(i) ==> method_index(methods_view(methods@), name@) == Some(i as int),
        found is None ==> method_index(methods_view(methods@), name@) is None,
{
    let ghost ms = methods_view(methods@);
    let mut i: usize = 0;
    while i < methods.len()
        invariant
            i <= methods@.len(),
            ms == methods_view(methods@),
            forall|j: int| 0 <= j < i ==> #[trigger] ms[j].0 != name@,
        decreases methods@.len() - i,
    {
        if methods[i].0 == *name {
            proof {
                lemma_method_index(ms, name@);
                if method_index(ms, name@) != Some(i as int) {
                    if method_index(ms, name@) is None {
                        assert(ms[i as int].0 == name@);
                    } else {
                        let k = method_index(ms, name@).unwrap();
                        lemma_first_index(ms, name@, i as int);
                    }
                }
            }
            return Some(i);
        }
        i += 1;
    }
    proof {
        lemma_no_index(ms, name@);
    }
    None
}

/// The first index is the first place that holds the name.
proof fn lemma_first_index<H>(methods: Seq<(Seq<char>, H)>, name: Seq<char>, i: int)
    requires
        0 <= i < methods.len(),
        methods[i].0 == name,
        forall|j: int| 0 <= j < i ==> #[trigger] methods[j].0 != name,
    ensures
        method_index(methods, name) == Some(i),
    decreases i,
{
    if i > 0 {
        let tail = methods.drop_first();
        assert(methods[0].0 != name);
        assert forall|j: int| 0 <= j < i - 1 implies #[trigger] tail[j].0 != name by {
            assert(tail[j] == methods[j + 1]);
        }
        lemma_first_index(tail, name, i - 1);
    }
}

/// No place holds the name, so nothing is found.
proof fn lemma_no_index<H>(methods: Seq<(Seq<char>, H)>, name: Seq<char>)
    requires
        forall|j: int| 0 <= j < methods.len() ==> #[trigger] methods[j].0 != name,
    ensures
        method_index(methods, name) is None,
    decreases methods.len(),
{
    if methods.len() > 0 {
        let tail = methods.drop_first();
        assert forall|j: int| 0 <= j < tail.len() implies #[trigger] tail[j].0 != name by {
            assert(tail[j] == methods[j + 1]);
        }
        lemma_no_index(tail, name);
    }
}

} // verus!

verus! {

/// Answers one request with the method registered under its name.
pub fn call_method<H>(methods: &Vec<(String, H)>, request: SharedIpcRequest) -> (out: (i32, Vec<u8>)) where
    H: for<'a> Fn(SharedIpcRequest<'a>) -> Result<Vec<u8>, Error>,

    requires
        forall|i: int| 0 <= i < methods@.len() ==> callable(#[trigger] methods@[i].1),
    ensures
        method_reply(methods_view(methods@), request, out),
        method_handler(methods_view(methods@), request.method@) matches Some(h) ==> {
            &&& out.0 == 0 || out.0 == 1
            &&& out.0 == 0 ==> exists|v: Vec<u8>|
                #[trigger] call_ensures(h, (request,), Ok::<Vec<u8>, Error>(v)) && out.1@ == v@
            &&& (forall|res: Result<Vec<u8>, Error>| #[trigger]
                call_ensures(h, (request,), res) ==> res is Ok) ==> out.0 == 0
        },
{
    let name = request.method.to_owned();
    match find_method(methods, &name) {
        Some(i) => {
            proof {
                lemma_method_index(methods_view(methods@), name@);
                assert(callable(methods@[i as int].1));
                assert(methods_view(methods@)[i as int].1 == methods@[i as int].1);
                assert(method_handler(methods_view(methods@), request.method@) == Some(
                    methods@[i as int].1,
                ));
            }
            let handler = &methods[i].1;
            let ghost sent = request;
            let res = handler(request);
            proof {
                assert(call_ensures(methods@[i as int].1, (sent,), res));
            }
            let ghost got = res;
            match res {
                Ok(payload) => {
                    let out = (crate::shared_ipc::STATUS_OK, payload);
                    assert(call_ensures(methods@[i as int].1, (request,), got));
                    let ghost h = method_handler(methods_view(methods@), request.method@).unwrap();
                    assert(h == methods@[i as int].1);
                    assert(call_ensures(h, (request,), got));
                    assert(got == Ok::<Vec<u8>, Error>(out.1));
                    assert(method_reply(methods_view(methods@), request, out));
                    proof {
                        law_status_follows_method(methods_view(methods@), h, request, out);
                    }
                    out
                },
                Err(error) => {
                    let text = error.message();
                    let out = (crate::shared_ipc::STATUS_ERROR, string_bytes(&text));
                    let ghost h = method_handler(methods_view(methods@), request.method@).unwrap();
                    assert(h == methods@[i as int].1);
                    assert(call_ensures(h, (request,), got));
                    assert(method_reply(methods_view(methods@), request, out));
                    proof {
                        law_status_follows_method(methods_view(methods@), h, request, out);
                    }
                    out
                },
            }
        },
        None => {
            assert(method_handler(methods_view(methods@), request.method@) is None);
            let text = Error::MethodNotFound(name).message();
            let out = (crate::shared_ipc::STATUS_ERROR, string_bytes(&text));
            assert(method_reply(methods_view(methods@), request, out));
            out
        },
    }
}

/// The two buffers of a channel: script writes requests into the first and
/// reads responses from the second.
pub struct SharedChannel {
    pub request: Vec<u8>,
    pub response: Vec<u8>,
}

/// Every shared buffer and channel handed to script, by id, and the
/// methods that answer channel requests, by name.
pub struct SharedBufferStore<H> {
    next_buffer_id: u64,
    next_channel_id: u64,
    buffers: HashMap<u64, Vec<u8>>,
    channels: HashMap<u64, SharedChannel>,
    methods: Vec<(String, H)>,
}

impl<H> SharedBufferStore<H> where H: for<'a> Fn(SharedIpcRequest<'a>) -> Result<Vec<u8>, Error> {
    /// The id the next shared buffer gets.
    pub closed spec fn buffer_id_counter(&self) -> u64 {
        self.next_buffer_id
    }

    /// The id the next channel gets.
    pub closed spec fn channel_id_counter(&self) -> u64 {
        self.next_channel_id
    }

    /// The contents of each shared buffer, by id.
    pub closed spec fn buffer_map(&self) -> Map<u64, Seq<u8>> {
        self.buffers@.map_values(|b: Vec<u8>| b@)
    }

    /// The request and response buffers of each channel, by id.
    pub closed spec fn channel_map(&self) -> Map<u64, (Seq<u8>, Seq<u8>)> {
        self.channels@.map_values(|c: SharedChannel| (c.request@, c.response@))
    }

    /// The registered methods, as names and handlers, oldest first.
    pub closed spec fn method_list(&self) -> Seq<(Seq<char>, H)> {
        methods_view(self.methods@)
    }

    /// Every channel buffer can hold frames, and every registered method
    /// can be called on any request.
    pub closed spec fn wf(&self) -> bool {
        &&& forall|id: u64| #[trigger]
            self.channels@.contains_key(id) ==> crate::frame::capacity_ok(
                self.channels@[id].request@.len() as int,
            ) && crate::frame::capacity_ok(self.channels@[id].response@.len() as int)
        &&& forall|i: int| 0 <= i < self.methods@.len() ==> callable(#[trigger] self.methods@[i].1)
    }

    /// Takes the next buffer id; ids count up from 1 and wrap around.
    pub fn reserve_buffer_id(&mut self) -> (id: u64)
        requires
            old(self).wf(),
        ensures
            final(self).wf(),
            id == old(self).buffer_id_counter(),
            final(self).buffer_id_counter() == id.wrapping_add(1),
            final(self).channel_id_counter() == old(self).channel_id_counter(),
            final(self).buffer_map() == old(self).buffer_map(),
            final(self).channel_map() == old(self).channel_map(),
            final(self).method_list() == old(self).method_list(),
    {
        let id = self.next_buffer_id;
        self.next_buffer_id = id.wrapping_add(1);
        id
    }

    /// Takes the next channel id; ids count up from 1 and wrap around.
    pub fn reserve_channel_id(&mut self) -> (id: u64)
        requires
            old(self).wf(),
        ensures
            final(self).wf(),
            id == old(self).channel_id_counter(),
            final(self).channel_id_counter() == id.wrapping_add(1),
            final(self).buffer_id_counter() == old(self).buffer_id_counter(),
            final(self).buffer_map() == old(self).buffer_map(),
            final(self).channel_map() == old(self).channel_map(),
            final(self).method_list() == old(self).method_list(),
    {
        let id = self.next_channel_id;
        self.next_channel_id = id.wrapping_add(1);
        id
    }

    /// Checks a request for a shared buffer and, when it passes, takes the
    /// id the buffer will get; a request that fails takes no id. Returns the
    /// id and the size the buffer will have.
    pub fn begin_buffer(&mut self, request: &CreateSharedBufferRequest) -> (r: Result<
        SharedBufferInfo,
        Error,
    >)
        requires
            old(self).wf(),
        ensures
            final(self).wf(),
            final(self).channel_id_counter() == old(self).channel_id_counter(),
            final(self).buffer_map() == old(self).buffer_map(),
            final(self).channel_map() == old(self).channel_map(),
            final(self).method_list() == old(self).method_list(),
            create_request_check(request.size, request.initial_contents@.len()) matches Err(e)
                ==> r == Err::<SharedBufferInfo, Error>(e) && final(self).buffer_id_counter()
                == old(self).buffer_id_counter(),
            create_request_check(request.size, request.initial_contents@.len()) is Ok ==> (r matches Ok(
                info,
            ) && info.id == old(self).buffer_id_counter() && info.size == request.size
                && final(self).buffer_id_counter() == old(self).buffer_id_counter().wrapping_add(1)),
            1 <= request.size <= usize::MAX && request.initial_contents@.len() <= request.size
                ==> (r matches Ok(info) && info.id == old(self).buffer_id_counter() && info.size
                == request.size),
    {
        validate_create_request(request)?;
        let id = self.reserve_buffer_id();
        Ok(SharedBufferInfo { id, size: request.size })
    }

    /// Checks a request for a channel and, when it passes, takes the id the
    /// channel will get; a request that fails takes no id. Returns the id and
    /// the two capacities.
    pub fn begin_channel(&mut self, request: &CreateSharedChannelRequest) -> (r: Result<
        SharedChannelInfo,
        Error,
    >)
        requires
            old(self).wf(),
        ensures
            final(self).wf(),
            final(self).buffer_id_counter() == old(self).buffer_id_counter(),
            final(self).buffer_map() == old(self).buffer_map(),
            final(self).channel_map() == old(self).channel_map(),
            final(self).method_list() == old(self).method_list(),
            channel_request_check(request.request_capacity, request.response_capacity) matches Err(e)
                ==> r == Err::<SharedChannelInfo, Error>(e) && final(self).channel_id_counter()
                == old(self).channel_id_counter(),
            channel_request_check(request.request_capacity, request.response_capacity) is Ok ==> (r matches Ok(
                info,
            ) && info.id == old(self).channel_id_counter()
                && info.request_capacity == request.request_capacity
                && info.response_capacity == request.response_capacity
                && final(self).channel_id_counter() == old(self).channel_id_counter().wrapping_add(1)),
            48 <= request.request_capacity <= u32::MAX && 48 <= request.response_capacity
                <= u32::MAX ==> (r matches Ok(info) && info.id == old(self).channel_id_counter()
                && info.request_capacity == request.request_capacity && info.response_capacity
                == request.response_capacity),
    {
        validate_channel_request(request)?;
        let id = self.reserve_channel_id();
        Ok(
            SharedChannelInfo {
                id,
                request_capacity: request.request_capacity,
                response_capacity: request.response_capacity,
            },
        )
    }

    /// Registers `handler` under `method`, replacing any handler already
    /// registered under that name.
    pub fn register_method(&mut self, method: String, handler: H)
        requires
            old(self).wf(),
            callable(handler),
        ensures
            final(self).wf(),
            final(self).method_list() == with_method(old(self).method_list(), method@, handler),
            final(self).buffer_id_counter() == old(self).buffer_id_counter(),
            final(self).channel_id_counter() == old(self).channel_id_counter(),
            final(self).buffer_map() == old(self).buffer_map(),
            final(self).channel_map() == old(self).channel_map(),
    {
        let ghost name = method@;
        match find_method(&self.methods, &method) {
            Some(i) => {
                proof {
                    lemma_method_index(self.method_list(), name);
                }
                self.methods.set(i, (method, handler));
                proof {
                    assert(self.method_list() =~= old(self).method_list().update(
                        i as int,
                        (name, handler),
                    ));
                }
            },
            None => {
                self.methods.push((method, handler));
                proof {
                    assert(self.method_list() =~= old(self).method_list().push((name, handler)));
                }
            },
        }
    }
}

impl<H> Default for SharedBufferStore<H> where
    H: for<'a> Fn(SharedIpcRequest<'a>) -> Result<Vec<u8>, Error>,
 {
    /// An empty store whose first buffer and first channel get id 1.
    fn default() -> (store: Self)
        ensures
            store.wf(),
            store.buffer_id_counter() == 1,
            store.channel_id_counter() == 1,
            store.buffer_map() == Map::<u64, Seq<u8>>::empty(),
            store.channel_map() == Map::<u64, (Seq<u8>, Seq<u8>)>::empty(),
            store.method_list() == Seq::<(Seq<char>, H)>::empty(),
    {
        let store = SharedBufferStore {
            next_buffer_id: 1,
            next_channel_id: 1,
            buffers: HashMap::new(),
            channels: HashMap::new(),
            methods: Vec::new(),
        };
        proof {
            assert(store.buffer_map() =~= Map::<u64, Seq<u8>>::empty());
            assert(store.channel_map() =~= Map::<u64, (Seq<u8>, Seq<u8>)>::empty());
            assert(store.method_list() =~= Seq::<(Seq<char>, H)>::empty());
        }
        store
    }
}

} // verus!

verus! {

/// `methods`, asked on channel `channel_id` for request `f`, may answer
/// with the status and payload of `r`.
pub open spec fn method_answered<H>(
    methods: Seq<(Seq<char>, H)>,
    channel_id: u64,
    f: RequestView,
    r: ResponseView,
) -> bool where H: for<'a> Fn(SharedIpcRequest<'a>) -> Result<Vec<u8>, Error> {
    &&& r.request_id == f.request_id
    &&& exists|req: SharedIpcRequest, out: (i32, Vec<u8>)|
        {
            &&& req.channel_id == channel_id
            &&& req.request_id == f.request_id
            &&& req.method@ == f.method
            &&& req.payload@ == f.payload
            &&& #[trigger] method_reply(methods, req, out)
            &&& out.0 == r.status
            &&& out.1@ == r.payload
        }
}

/// An offset given back as a `u32`, taken as a `usize`.
pub open spec fn widen(r: Result<u32, Error>) -> Result<usize, Error> {
    match r {
        Ok(n) => Ok(n as usize),
        Err(e) => Err(e),
    }
}

/// Writes a fresh header into a channel buffer: magic, version, an empty
/// frame area. A buffer too short for all four words gets the words that
/// fit and an invalid-frame error.
pub fn init_channel_buffer(buffer: &mut [u8]) -> (r: Result<(), Error>)
    ensures
        ({
            let words = buffer_header_words(BUFFER_HEADER_SIZE as u32);
            let fit = if old(buffer)@.len() >= 16 {
                4
            } else {
                old(buffer)@.len() / 4
            };
            &&& final(buffer)@ == splice(old(buffer)@, 0, words_bytes(words.take(fit as int)))
            &&& old(buffer)@.len() >= 16 ==> r is Ok
            &&& old(buffer)@.len() < 16 ==> r matches Err(Error::InvalidFrame)
        }),
{
    let ghost words = buffer_header_words(16);
    let ghost b = buffer@;
    proof {
        assert(words_bytes(words.take(0)) =~= Seq::<u8>::empty());
        assert(splice(b, 0, Seq::<u8>::empty()) =~= b);
        lemma_header_step(b, 0);
    }
    write_u32(buffer, 0, BUFFER_MAGIC)?;
    proof {
        lemma_header_step(b, 1);
    }
    write_u32(buffer, 4, BUFFER_VERSION)?;
    proof {
        lemma_header_step(b, 2);
    }
    write_u32(buffer, 8, BUFFER_HEADER_SIZE as u32)?;
    proof {
        lemma_header_step(b, 3);
    }
    write_u32(buffer, 12, 0)?;
    Ok(())
}

/// Writing header word `k` after the words before it.
proof fn lemma_header_step(b: Seq<u8>, k: int)
    requires
        0 <= k < 4,
    ensures
        ({
            let words = buffer_header_words(16);
            &&& words_bytes(words.take(k)).len() == 4 * k
            &&& 4 * k + 4 <= b.len() ==> splice(
                splice(b, 0, words_bytes(words.take(k))),
                4 * k,
                le_bytes(words[k]),
            ) == splice(b, 0, words_bytes(words.take(k + 1)))
        }),
{
    let words = buffer_header_words(16);
    lemma_words_bytes_push(words.take(k), words[k]);
    assert(words.take(k + 1) =~= words.take(k).push(words[k]));
    if 4 * k + 4 <= b.len() {
        lemma_splice_splice(b, 0, words_bytes(words.take(k)), le_bytes(words[k]));
    }
}

/// Answers the pending requests of a channel with the registered methods,
/// writing the responses from the start of the response frame area, and
/// returns the end of the responses. The headers are not checked.
pub fn drain_requests<H>(
    channel_id: u64,
    channel: &mut SharedChannel,
    methods: &Vec<(String, H)>,
) -> (r: Result<u32, Error>) where H: for<'a> Fn(SharedIpcRequest<'a>) -> Result<Vec<u8>, Error>
    requires
        crate::frame::capacity_ok(old(channel).request@.len() as int),
        crate::frame::capacity_ok(old(channel).response@.len() as int),
        forall|i: int| 0 <= i < methods@.len() ==> callable(#[trigger] methods@[i].1),
    ensures
        ({
            let rq = old(channel).request@;
            let rs = old(channel).response@;
            let recorded = next_frame_offset(rq);
            &&& (recorded < BUFFER_HEADER_SIZE || recorded > rq.len()) ==> r == Err::<u32, Error>(
                Error::InvalidFrame,
            ) && final(channel).request@ == rq && final(channel).response@ == rs
            &&& BUFFER_HEADER_SIZE <= recorded <= rq.len() ==> frames_outcome(
                |f: RequestView, x: ResponseView|
                    method_answered(methods_view(methods@), channel_id, f, x),
                rq,
                rs,
                widen(r),
                final(channel).request@,
                final(channel).response@,
            )
        }),
{
    let ghost ms = methods_view(methods@);
    let answer = |req: SharedIpcRequest| -> (out: (i32, Vec<u8>))
        requires
            forall|i: int| 0 <= i < methods@.len() ==> callable(#[trigger] methods@[i].1),
        ensures
            method_reply(methods_view(methods@), req, out),
        { call_method(methods, req) };
    let ghost rq = channel.request@;
    let ghost rs = channel.response@;
    let r = answer_pending_requests(
        channel_id,
        channel.request.as_mut_slice(),
        channel.response.as_mut_slice(),
        answer,
    );
    proof {
        let recorded = next_frame_offset(rq);
        if BUFFER_HEADER_SIZE <= recorded <= rq.len() {
            assert forall|f: RequestView, x: ResponseView| #[trigger]
                handled(answer, channel_id, f, x) implies method_answered(ms, channel_id, f, x) by {
                let (req, out) = choose|req: SharedIpcRequest, out: (i32, Vec<u8>)|
                    {
                        &&& req.channel_id == channel_id
                        &&& req.request_id == f.request_id
                        &&& req.method@ == f.method
                        &&& req.payload@ == f.payload
                        &&& #[trigger] call_ensures(answer, (req,), out)
                        &&& out.0 == x.status
                        &&& out.1@ == x.payload
                    };
                assert(method_reply(ms, req, out));
            }
            lemma_frames_outcome_weaken(
                |f: RequestView, x: ResponseView| handled(answer, channel_id, f, x),
                |f: RequestView, x: ResponseView| method_answered(ms, channel_id, f, x),
                rq,
                rs,
                r,
                channel.request@,
                channel.response@,
            );
        }
    }
    match r {
        Ok(n) => Ok(n as u32),
        Err(e) => Err(e),
    }
}

} // verus!

verus! {

impl<H> SharedBufferStore<H> where H: for<'a> Fn(SharedIpcRequest<'a>) -> Result<Vec<u8>, Error> {
    /// Makes the shared buffer `id` for `request`: `request.size` bytes,
    /// starting with its initial contents and zero after them. A buffer
    /// already under `id` is replaced.
    pub fn create_buffer(&mut self, id: u64, request: CreateSharedBufferRequest) -> (r: Result<
        (),
        Error,
    >)
        requires
            old(self).wf(),
        ensures
            final(self).wf(),
            final(self).buffer_id_counter() == old(self).buffer_id_counter(),
            final(self).channel_id_counter() == old(self).channel_id_counter(),
            final(self).channel_map() == old(self).channel_map(),
            final(self).method_list() == old(self).method_list(),
            size_check(request.size) matches Err(e) ==> r == Err::<(), Error>(e)
                && final(self).buffer_map() == old(self).buffer_map(),
            size_check(request.size) is Ok && request.initial_contents@.len() > request.size ==> r
                == Err::<(), Error>(Error::InitialContentsTooLarge) && final(self).buffer_map()
                == old(self).buffer_map(),
            size_check(request.size) is Ok && request.initial_contents@.len() <= request.size ==> r
                is Ok && final(self).buffer_map() == old(self).buffer_map().insert(
                id,
                splice(zeros(request.size as nat), 0, request.initial_contents@),
            ),
            1 <= request.size <= usize::MAX && request.initial_contents@.len() <= request.size ==> r
                is Ok && final(self).buffer_map() == old(self).buffer_map().insert(
                id,
                splice(zeros(request.size as nat), 0, request.initial_contents@),
            ),
    {
        validate_size(request.size)?;
        if request.initial_contents.len() > request.size as usize {
            return Err(Error::InitialContentsTooLarge);
        }
        let mut bytes: Vec<u8> = vec![0u8; request.size as usize];
        proof {
            assert(bytes@ =~= zeros(request.size as nat));
        }
        copy_into(bytes.as_mut_slice(), 0, request.initial_contents.as_slice());
        let ghost contents = bytes@;
        self.buffers.insert(id, bytes);
        proof {
            assert(self.buffer_map() =~= old(self).buffer_map().insert(id, contents));
            assert(self.channels@ == old(self).channels@);
        }
        Ok(())
    }

    /// Writes `request.bytes` into buffer `request.id` at `request.offset`.
    pub fn write(&mut self, request: WriteSharedBufferRequest) -> (r: Result<(), Error>)
        requires
            old(self).wf(),
        ensures
            final(self).wf(),
            final(self).buffer_id_counter() == old(self).buffer_id_counter(),
            final(self).channel_id_counter() == old(self).channel_id_counter(),
            final(self).channel_map() == old(self).channel_map(),
            final(self).method_list() == old(self).method_list(),
            !old(self).buffer_map().contains_key(request.id) ==> r == Err::<(), Error>(
                Error::BufferNotFound(request.id),
            ) && final(self).buffer_map() == old(self).buffer_map(),
            old(self).buffer_map().contains_key(request.id) && request.offset
                + request.bytes@.len() > old(self).buffer_map()[request.id].len() ==> r == Err::<
                (),
                Error,
            >(Error::WriteOutOfBounds) && final(self).buffer_map() == old(self).buffer_map(),
            old(self).buffer_map().contains_key(request.id) && request.offset
                + request.bytes@.len() <= old(self).buffer_map()[request.id].len() ==> r is Ok
                && final(self).buffer_map() == old(self).buffer_map().insert(
                request.id,
                splice(
                    old(self).buffer_map()[request.id],
                    request.offset as int,
                    request.bytes@,
                ),
            ),
    {
        let mut entry = match self.buffers.remove(&request.id) {
            Some(entry) => entry,
            None => {
                proof {
                    assert(self.buffers@ == old(self).buffers@);
                }
                return Err(Error::BufferNotFound(request.id));
            },
        };
        assert(entry@ == old(self).buffer_map()[request.id]);
        let result = write_range(&mut entry, request.offset, request.bytes.as_slice());
        let ghost after = entry@;
        self.buffers.insert(request.id, entry);
        proof {
            assert(self.buffer_map() =~= old(self).buffer_map().insert(request.id, after));
            if result is Err {
                assert(old(self).buffer_map().insert(request.id, after) =~= old(self).buffer_map());
            }
        }
        result
    }

    /// Reads `request.length` bytes of buffer `request.id` at `request.offset`.
    pub fn read(&self, request: ReadSharedBufferRequest) -> (r: Result<Vec<u8>, Error>)
        requires
            self.wf(),
        ensures
            !self.buffer_map().contains_key(request.id) ==> r == Err::<Vec<u8>, Error>(
                Error::BufferNotFound(request.id),
            ),
            self.buffer_map().contains_key(request.id) && request.offset + request.length
                > self.buffer_map()[request.id].len() ==> r == Err::<Vec<u8>, Error>(
                Error::ReadOutOfBounds,
            ),
            self.buffer_map().contains_key(request.id) && request.offset + request.length
                <= self.buffer_map()[request.id].len() ==> (r matches Ok(bytes) && bytes@
                == self.buffer_map()[request.id].subrange(
                request.offset as int,
                request.offset + request.length,
            )),
    {
        let entry = match self.buffers.get(&request.id) {
            Some(entry) => entry,
            None => {
                return Err(Error::BufferNotFound(request.id));
            },
        };
        read_range(entry.as_slice(), request.offset, request.length)
    }

    /// Forgets buffer `id`.
    pub fn close_buffer(&mut self, id: u64) -> (r: Result<(), Error>)
        requires
            old(self).wf(),
        ensures
            final(self).wf(),
            final(self).buffer_id_counter() == old(self).buffer_id_counter(),
            final(self).channel_id_counter() == old(self).channel_id_counter(),
            final(self).channel_map() == old(self).channel_map(),
            final(self).method_list() == old(self).method_list(),
            !old(self).buffer_map().contains_key(id) ==> r == Err::<(), Error>(
                Error::BufferNotFound(id),
            ),
            old(self).buffer_map().contains_key(id) ==> r is Ok,
            final(self).buffer_map() == old(self).buffer_map().remove(id),
    {
        match self.buffers.remove(&id) {
            Some(_) => {
                proof {
                    assert(self.buffer_map() =~= old(self).buffer_map().remove(id));
                }
                Ok(())
            },
            None => {
                proof {
                    assert(self.buffer_map() =~= old(self).buffer_map().remove(id));
                }
                Err(Error::BufferNotFound(id))
            },
        }
    }

    /// Makes channel `id` for `request`: two buffers of the requested
    /// capacities, each with a fresh header and zeros after it. A channel
    /// already under `id` is replaced.
    pub fn create_channel(&mut self, id: u64, request: CreateSharedChannelRequest) -> (r: Result<
        (),
        Error,
    >)
        requires
            old(self).wf(),
        ensures
            final(self).wf(),
            final(self).buffer_id_counter() == old(self).buffer_id_counter(),
            final(self).channel_id_counter() == old(self).channel_id_counter(),
            final(self).buffer_map() == old(self).buffer_map(),
            final(self).method_list() == old(self).method_list(),
            channel_capacity_check(request.request_capacity) matches Err(e) ==> r == Err::<
                (),
                Error,
            >(e) && final(self).channel_map() == old(self).channel_map(),
            channel_capacity_check(request.request_capacity) is Ok ==> (channel_capacity_check(
                request.response_capacity,
            ) matches Err(e) ==> r == Err::<(), Error>(e) && final(self).channel_map() == old(self).channel_map()),
            channel_capacity_check(request.request_capacity) is Ok && channel_capacity_check(
                request.response_capacity,
            ) is Ok ==> r is Ok && final(self).channel_map() == old(self).channel_map().insert(
                id,
                (
                    fresh_channel_buffer(request.request_capacity as nat),
                    fresh_channel_buffer(request.response_capacity as nat),
                ),
            ),
            48 <= request.request_capacity <= u32::MAX && 48 <= request.response_capacity
                <= u32::MAX ==> r is Ok && final(self).channel_map() == old(self).channel_map().insert(
                id,
                (
                    fresh_channel_buffer(request.request_capacity as nat),
                    fresh_channel_buffer(request.response_capacity as nat),
                ),
            ),
    {
        validate_channel_capacity(request.request_capacity)?;
        validate_channel_capacity(request.response_capacity)?;
        let mut request_buffer: Vec<u8> = vec![0u8; request.request_capacity as usize];
        let mut response_buffer: Vec<u8> = vec![0u8; request.response_capacity as usize];
        proof {
            assert(request_buffer@ =~= zeros(request.request_capacity as nat));
            assert(response_buffer@ =~= zeros(request.response_capacity as nat));
            assert(buffer_header_words(16).take(4) =~= buffer_header_words(16));
        }
        let _ = init_channel_buffer(request_buffer.as_mut_slice());
        let _ = init_channel_buffer(response_buffer.as_mut_slice());
        let ghost pair = (request_buffer@, response_buffer@);
        self.channels.insert(
            id,
            SharedChannel { request: request_buffer, response: response_buffer },
        );
        proof {
            assert(self.channel_map() =~= old(self).channel_map().insert(id, pair));
            assert(self.buffers@ == old(self).buffers@);
        }
        Ok(())
    }

    /// Forgets channel `id`.
    pub fn close_channel(&mut self, id: u64) -> (r: Result<(), Error>)
        requires
            old(self).wf(),
        ensures
            final(self).wf(),
            final(self).buffer_id_counter() == old(self).buffer_id_counter(),
            final(self).channel_id_counter() == old(self).channel_id_counter(),
            final(self).buffer_map() == old(self).buffer_map(),
            final(self).method_list() == old(self).method_list(),
            !old(self).channel_map().contains_key(id) ==> r == Err::<(), Error>(
                Error::ChannelNotFound(id),
            ),
            old(self).channel_map().contains_key(id) ==> r is Ok,
            final(self).channel_map() == old(self).channel_map().remove(id),
    {
        match self.channels.remove(&id) {
            Some(_) => {
                proof {
                    assert(self.channel_map() =~= old(self).channel_map().remove(id));
                }
                Ok(())
            },
            None => {
                proof {
                    assert(self.channel_map() =~= old(self).channel_map().remove(id));
                }
                Err(Error::ChannelNotFound(id))
            },
        }
    }

    /// Script's side of a channel: writes `request.bytes` into the request
    /// buffer of channel `request.id` at `request.offset`.
    pub fn write_channel_request(&mut self, request: WriteSharedBufferRequest) -> (r: Result<
        (),
        Error,
    >)
        requires
            old(self).wf(),
        ensures
            final(self).wf(),
            final(self).buffer_id_counter() == old(self).buffer_id_counter(),
            final(self).channel_id_counter() == old(self).channel_id_counter(),
            final(self).buffer_map() == old(self).buffer_map(),
            final(self).method_list() == old(self).method_list(),
            !old(self).channel_map().contains_key(request.id) ==> r == Err::<(), Error>(
                Error::ChannelNotFound(request.id),
            ) && final(self).channel_map() == old(self).channel_map(),
            old(self).channel_map().contains_key(request.id) ==> ({
                let (rq, rs) = old(self).channel_map()[request.id];
                &&& request.offset + request.bytes@.len() > rq.len() ==> r == Err::<(), Error>(
                    Error::WriteOutOfBounds,
                ) && final(self).channel_map() == old(self).channel_map()
                &&& request.offset + request.bytes@.len() <= rq.len() ==> r is Ok
                    && final(self).channel_map() == old(self).channel_map().insert(
                    request.id,
                    (splice(rq, request.offset as int, request.bytes@), rs),
                )
            }),
    {
        let mut channel = match self.channels.remove(&request.id) {
            Some(channel) => channel,
            None => {
                proof {
                    assert(self.channels@ == old(self).channels@);
                }
                return Err(Error::ChannelNotFound(request.id));
            },
        };
        proof {
            assert(old(self).channels@.contains_key(request.id));
        }
        let result = write_range(&mut channel.request, request.offset, request.bytes.as_slice());
        let ghost pair = (channel.request@, channel.response@);
        self.channels.insert(request.id, channel);
        proof {
            assert(self.channel_map() =~= old(self).channel_map().insert(request.id, pair));
            if result is Err {
                assert(old(self).channel_map().insert(request.id, pair) =~= old(self).channel_map());
            }
        }
        result
    }

    /// Script's side of a channel: reads `request.length` bytes of the
    /// response buffer of channel `request.id` at `request.offset`.
    pub fn read_channel_response(&self, request: ReadSharedBufferRequest) -> (r: Result<
        Vec<u8>,
        Error,
    >)
        requires
            self.wf(),
        ensures
            !self.channel_map().contains_key(request.id) ==> r == Err::<Vec<u8>, Error>(
                Error::ChannelNotFound(request.id),
            ),
            self.channel_map().contains_key(request.id) && request.offset + request.length
                > self.channel_map()[request.id].1.len() ==> r == Err::<Vec<u8>, Error>(
                Error::ReadOutOfBounds,
            ),
            self.channel_map().contains_key(request.id) && request.offset + request.length
                <= self.channel_map()[request.id].1.len() ==> (r matches Ok(bytes) && bytes@
                == self.channel_map()[request.id].1.subrange(
                request.offset as int,
                request.offset + request.length,
            )),
    {
        let channel = match self.channels.get(&request.id) {
            Some(channel) => channel,
            None => {
                return Err(Error::ChannelNotFound(request.id));
            },
        };
        read_range(channel.response.as_slice(), request.offset, request.length)
    }

    /// Reads `request.length` bytes of the request buffer of channel
    /// `request.id` at `request.offset`, as it stands after the host's work.
    pub fn read_channel_request(&self, request: ReadSharedBufferRequest) -> (r: Result<
        Vec<u8>,
        Error,
    >)
        requires
            self.wf(),
        ensures
            !self.channel_map().contains_key(request.id) ==> r == Err::<Vec<u8>, Error>(
                Error::ChannelNotFound(request.id),
            ),
            self.channel_map().contains_key(request.id) && request.offset + request.length
                > self.channel_map()[request.id].0.len() ==> r == Err::<Vec<u8>, Error>(
                Error::ReadOutOfBounds,
            ),
            self.channel_map().contains_key(request.id) && request.offset + request.length
                <= self.channel_map()[request.id].0.len() ==> (r matches Ok(bytes) && bytes@
                == self.channel_map()[request.id].0.subrange(
                request.offset as int,
                request.offset + request.length,
            )),
    {
        let channel = match self.channels.get(&request.id) {
            Some(channel) => channel,
            None => {
                return Err(Error::ChannelNotFound(request.id));
            },
        };
        read_range(channel.request.as_slice(), request.offset, request.length)
    }

    /// Rings channel `channel_id`: gives its response buffer a fresh header,
    /// then answers its pending requests with the registered methods.
    /// Returns the end of the responses.
    pub fn dispatch_channel(&mut self, channel_id: u64) -> (r: Result<SharedChannelDispatch, Error>)
        requires
            old(self).wf(),
        ensures
            final(self).wf(),
            final(self).buffer_id_counter() == old(self).buffer_id_counter(),
            final(self).channel_id_counter() == old(self).channel_id_counter(),
            final(self).buffer_map() == old(self).buffer_map(),
            final(self).method_list() == old(self).method_list(),
            !old(self).channel_map().contains_key(channel_id) ==> r == Err::<
                SharedChannelDispatch,
                Error,
            >(Error::ChannelNotFound(channel_id)) && final(self).channel_map() == old(self).channel_map(),
            old(self).channel_map().contains_key(channel_id) ==> ({
                let (rq, rs) = old(self).channel_map()[channel_id];
                let fresh = splice(rs, 0, words_bytes(buffer_header_words(BUFFER_HEADER_SIZE as u32)));
                let after = final(self).channel_map()[channel_id];
                let recorded = next_frame_offset(rq);
                &&& final(self).channel_map() == old(self).channel_map().insert(channel_id, after)
                &&& r matches Ok(d) ==> d.channel_id == channel_id
                &&& (recorded < BUFFER_HEADER_SIZE || recorded > rq.len()) ==> r == Err::<
                    SharedChannelDispatch,
                    Error,
                >(Error::InvalidFrame) && after == (rq, fresh)
                &&& BUFFER_HEADER_SIZE <= recorded <= rq.len() ==> frames_outcome(
                    |f: RequestView, x: ResponseView|
                        method_answered(old(self).method_list(), channel_id, f, x),
                    rq,
                    fresh,
                    dispatch_offset(r),
                    after.0,
                    after.1,
                )
            }),
    {
        let mut channel = match self.channels.remove(&channel_id) {
            Some(channel) => channel,
            None => {
                proof {
                    assert(self.channels@ == old(self).channels@);
                }
                return Err(Error::ChannelNotFound(channel_id));
            },
        };
        proof {
            assert(old(self).channels@.contains_key(channel_id));
            assert(buffer_header_words(16).take(4) =~= buffer_header_words(16));
        }
        let _ = init_channel_buffer(channel.response.as_mut_slice());
        let drained = drain_requests(channel_id, &mut channel, &self.methods);
        let ghost pair = (channel.request@, channel.response@);
        self.channels.insert(channel_id, channel);
        proof {
            assert(self.channel_map() =~= old(self).channel_map().insert(channel_id, pair));
        }
        match drained {
            Ok(response_write_offset) => Ok(SharedChannelDispatch { channel_id, response_write_offset }),
            Err(e) => Err(e),
        }
    }
}

/// Writes `bytes` into `entry` at `offset`; a range that leaves the entry
/// is out of bounds and leaves it as it was.
fn write_range(entry: &mut Vec<u8>, offset: u64, bytes: &[u8]) -> (r: Result<(), Error>)
    ensures
        offset + bytes@.len() > old(entry)@.len() ==> r == Err::<(), Error>(Error::WriteOutOfBounds)
            && final(entry)@ == old(entry)@,
        offset + bytes@.len() <= old(entry)@.len() ==> r is Ok && final(entry)@ == splice(
            old(entry)@,
            offset as int,
            bytes@,
        ),
{
    let size = entry.len();
    let end = match offset.checked_add(bytes.len() as u64) {
        Some(end) => end,
        None => {
            return Err(Error::WriteOutOfBounds);
        },
    };
    if end > size as u64 {
        return Err(Error::WriteOutOfBounds);
    }
    copy_into(entry.as_mut_slice(), offset as usize, bytes);
    Ok(())
}

/// Reads `length` bytes of `entry` at `offset`; a range that leaves the
/// entry is out of bounds.
fn read_range(entry: &[u8], offset: u64, length: u64) -> (r: Result<Vec<u8>, Error>)
    ensures
        offset + length > entry@.len() ==> r == Err::<Vec<u8>, Error>(Error::ReadOutOfBounds),
        offset + length <= entry@.len() ==> (r matches Ok(bytes) && bytes@ == entry@.subrange(
            offset as int,
            offset + length,
        )),
{
    let size = entry.len();
    let end = match offset.checked_add(length) {
        Some(end) => end,
        None => {
            return Err(Error::ReadOutOfBounds);
        },
    };
    if end > size as u64 {
        return Err(Error::ReadOutOfBounds);
    }
    Ok(slice_to_vec(slice_subrange(entry, offset as usize, end as usize)))
}

/// A channel buffer of `capacity` bytes as it is made: a fresh header, then
/// zeros.
pub open spec fn fresh_channel_buffer(capacity: nat) -> Seq<u8> {
    splice(zeros(capacity), 0, words_bytes(buffer_header_words(BUFFER_HEADER_SIZE as u32)))
}

/// The end of the responses that a dispatch reports, as a `usize`.
pub open spec fn dispatch_offset(r: Result<SharedChannelDispatch, Error>) -> Result<usize, Error> {
    match r {
        Ok(d) => Ok(d.response_write_offset as usize),
        Err(e) => Err(e),
    }
}

} // verus!

verus! {

/// Law: after a write, reading the range just written gives back the
/// written bytes, and reading a range beside it gives what was there
/// before; the buffer keeps its size.
pub proof fn law_read_after_write(contents: Seq<u8>, offset: int, bytes: Seq<u8>, lo: int, hi: int)
    requires
        0 <= offset,
        offset + bytes.len() <= contents.len(),
    ensures
        splice(contents, offset, bytes).len() == contents.len(),
        splice(contents, offset, bytes).subrange(offset, offset + bytes.len()) == bytes,
        0 <= lo <= hi <= contents.len() && (hi <= offset || offset + bytes.len() <= lo) ==> splice(
            contents,
            offset,
            bytes,
        ).subrange(lo, hi) == contents.subrange(lo, hi),
{
    lemma_splice_parts(contents, offset, bytes);
    if 0 <= lo <= hi <= contents.len() && (hi <= offset || offset + bytes.len() <= lo) {
        let after = splice(contents, offset, bytes);
        if hi <= offset {
            assert(after.subrange(lo, hi) =~= after.subrange(0, offset).subrange(lo, hi));
            assert(contents.subrange(lo, hi) =~= contents.subrange(0, offset).subrange(lo, hi));
        } else {
            let e = offset + bytes.len();
            assert(after.subrange(lo, hi) =~= after.subrange(e, contents.len() as int).subrange(
                lo - e,
                hi - e,
            ));
            assert(contents.subrange(lo, hi) =~= contents.subrange(e, contents.len() as int).subrange(
                lo - e,
                hi - e,
            ));
        }
    }
}

/// Law: once a method is registered under a name, requests for that name
/// go to it, and requests for any other name go where they went before.
pub proof fn law_registered_method_answers<H>(
    methods: Seq<(Seq<char>, H)>,
    name: Seq<char>,
    handler: H,
    other: Seq<char>,
)
    ensures
        method_handler(with_method(methods, name, handler), name) == Some(handler),
        other != name ==> method_handler(with_method(methods, name, handler), other)
            == method_handler(methods, other),
{
    lemma_method_index(methods, name);
    lemma_method_index(methods, other);
    let after = with_method(methods, name, handler);
    match method_index(methods, name) {
        Some(i) => {
            assert forall|j: int| 0 <= j < i implies #[trigger] after[j].0 != name by {
                lemma_index_is_first(methods, name, j);
            }
            lemma_first_index(after, name, i);
            if other != name {
                match method_index(methods, other) {
                    Some(k) => {
                        assert forall|j: int| 0 <= j < k implies #[trigger] after[j].0 != other by {
                            lemma_index_is_first(methods, other, j);
                        }
                        lemma_first_index(after, other, k);
                    },
                    None => {
                        assert forall|j: int| 0 <= j < after.len() implies #[trigger] after[j].0
                            != other by {}
                        lemma_no_index(after, other);
                    },
                }
            }
        },
        None => {
            lemma_first_index(after, name, methods.len() as int);
            if other != name {
                match method_index(methods, other) {
                    Some(k) => {
                        assert forall|j: int| 0 <= j < k implies #[trigger] after[j].0 != other by {
                            lemma_index_is_first(methods, other, j);
                        }
                        lemma_first_index(after, other, k);
                    },
                    None => {
                        assert forall|j: int| 0 <= j < after.len() implies #[trigger] after[j].0
                            != other by {}
                        lemma_no_index(after, other);
                    },
                }
            }
        },
    }
}

/// No place before the first index holds the name.
proof fn lemma_index_is_first<H>(methods: Seq<(Seq<char>, H)>, name: Seq<char>, j: int)
    requires
        method_index(methods, name) matches Some(i) && 0 <= j < i,
    ensures
        methods[j].0 != name,
    decreases j,
{
    lemma_method_index(methods, name);
    let i = method_index(methods, name).unwrap();
    assert(methods[0].0 != name);
    if j > 0 {
        assert(method_index(methods.drop_first(), name) == Some(i - 1));
        lemma_index_is_first(methods.drop_first(), name, j - 1);
        assert(methods.drop_first()[j - 1] == methods[j]);
    }
}

/// Law: a channel buffer as it is made is an initialized channel buffer
/// with no pending requests.
pub proof fn law_fresh_channel_buffer_is_empty(capacity: nat)
    requires
        crate::frame::capacity_ok(capacity as int),
    ensures
        crate::shared_ipc::initialized_check(fresh_channel_buffer(capacity)) is Ok,
        next_frame_offset(fresh_channel_buffer(capacity)) == BUFFER_HEADER_SIZE,
        crate::frame::pending_requests(fresh_channel_buffer(capacity)) == (
            Seq::<RequestView>::empty(),
            true,
        ),
{
    let h = words_bytes(buffer_header_words(16));
    let b = fresh_channel_buffer(capacity);
    crate::frame::lemma_words_bytes(buffer_header_words(16), 0);
    crate::frame::lemma_words_bytes(buffer_header_words(16), 1);
    crate::frame::lemma_words_bytes(buffer_header_words(16), 2);
    lemma_splice_parts(zeros(capacity), 0, h);
    crate::wire::lemma_read_within(b, 0, 16, 0);
    crate::wire::lemma_read_within(b, 0, 16, 4);
    crate::wire::lemma_read_within(b, 0, 16, 8);
}

/// Law: two ids reserved one after the other differ.
pub proof fn law_reserved_ids_differ(id: u64)
    ensures
        id.wrapping_add(1) != id,
{
}

/// Law: draining a channel with the registered `methods` has exactly the
/// outcomes that `dispatch_requests` has with a handler `handle` that answers
/// every request as those methods do. Both answer the same pending requests
/// in the same order and leave the same bytes in both buffers; in particular,
/// `dispatch_requests` on an initialized request buffer and any response
/// buffer ends as a drain does once the response buffer has a fresh header.
pub proof fn law_drain_answers_as_dispatch<H, F>(
    methods: Seq<(Seq<char>, H)>,
    handle: F,
    channel_id: u64,
    request: Seq<u8>,
    response: Seq<u8>,
    r: Result<usize, Error>,
    request_after: Seq<u8>,
    response_after: Seq<u8>,
) where
    H: for<'a> Fn(SharedIpcRequest<'a>) -> Result<Vec<u8>, Error>,
    F: for<'a> Fn(SharedIpcRequest<'a>) -> (i32, Vec<u8>),

    requires
        forall|req: SharedIpcRequest, out: (i32, Vec<u8>)|
            #![trigger call_ensures(handle, (req,), out)]
            #![trigger method_reply(methods, req, out)]
            call_ensures(handle, (req,), out) <==> method_reply(methods, req, out),
    ensures
        frames_outcome(
            |f: RequestView, x: ResponseView| method_answered(methods, channel_id, f, x),
            request,
            response,
            r,
            request_after,
            response_after,
        ) <==> frames_outcome(
            |f: RequestView, x: ResponseView| handled(handle, channel_id, f, x),
            request,
            response,
            r,
            request_after,
            response_after,
        ),
{
    let by_methods = |f: RequestView, x: ResponseView| method_answered(methods, channel_id, f, x);
    let by_handle = |f: RequestView, x: ResponseView| handled(handle, channel_id, f, x);
    assert forall|f: RequestView, x: ResponseView| #[trigger] by_methods(f, x) implies by_handle(
        f,
        x,
    ) by {
        let (req, out) = choose|req: SharedIpcRequest, out: (i32, Vec<u8>)|
            {
                &&& req.channel_id == channel_id
                &&& req.request_id == f.request_id
                &&& req.method@ == f.method
                &&& req.payload@ == f.payload
                &&& #[trigger] method_reply(methods, req, out)
                &&& out.0 == x.status
                &&& out.1@ == x.payload
            };
        assert(call_ensures(handle, (req,), out));
    }
    assert forall|f: RequestView, x: ResponseView| #[trigger] by_handle(f, x) implies by_methods(
        f,
        x,
    ) by {
        let (req, out) = choose|req: SharedIpcRequest, out: (i32, Vec<u8>)|
            {
                &&& req.channel_id == channel_id
                &&& req.request_id == f.request_id
                &&& req.method@ == f.method
                &&& req.payload@ == f.payload
                &&& #[trigger] call_ensures(handle, (req,), out)
                &&& out.0 == x.status
                &&& out.1@ == x.payload
            };
        assert(method_reply(methods, req, out));
    }
    if frames_outcome(by_methods, request, response, r, request_after, response_after) {
        lemma_frames_outcome_weaken(
            by_methods,
            by_handle,
            request,
            response,
            r,
            request_after,
            response_after,
        );
    }
    if frames_outcome(by_handle, request, response, r, request_after, response_after) {
        lemma_frames_outcome_weaken(
            by_handle,
            by_methods,
            request,
            response,
            r,
            request_after,
            response_after,
        );
    }
}

/// Law: registering `first` and then `second` under `name` leaves requests
/// for `name` answered exactly as a registry holding `second` alone would
/// answer them, so a dispatch no longer calls `first`; and a request for a
/// name nothing is registered under is answered with status `STATUS_ERROR`
/// and the text of the method-not-found error for that name.
pub proof fn law_latest_registration_answers<H>(
    methods: Seq<(Seq<char>, H)>,
    name: Seq<char>,
    first: H,
    second: H,
    channel_id: u64,
    f: RequestView,
    x: ResponseView,
) where H: for<'a> Fn(SharedIpcRequest<'a>) -> Result<Vec<u8>, Error>
    ensures
        f.method == name ==> (method_answered(
            with_method(with_method(methods, name, first), name, second),
            channel_id,
            f,
            x,
        ) <==> method_answered(seq![(name, second)], channel_id, f, x)),
        method_handler(methods, f.method) is None && method_answered(methods, channel_id, f, x)
            ==> x.request_id == f.request_id && x.status == crate::shared_ipc::STATUS_ERROR
            && x.payload == vstd::utf8::encode_utf8(method_not_found_text(f.method)),
{
    let once = with_method(methods, name, first);
    let twice = with_method(once, name, second);
    let alone = seq![(name, second)];
    law_registered_method_answers(once, name, second, name);
    lemma_first_index(alone, name, 0);
    if f.method == name {
        assert(method_handler(twice, name) == method_handler(alone, name));
        if method_answered(twice, channel_id, f, x) {
            let (req, out) = choose|req: SharedIpcRequest, out: (i32, Vec<u8>)|
                {
                    &&& req.channel_id == channel_id
                    &&& req.request_id == f.request_id
                    &&& req.method@ == f.method
                    &&& req.payload@ == f.payload
                    &&& #[trigger] method_reply(twice, req, out)
                    &&& out.0 == x.status
                    &&& out.1@ == x.payload
                };
            assert(method_reply(alone, req, out));
        }
        if method_answered(alone, channel_id, f, x) {
            let (req, out) = choose|req: SharedIpcRequest, out: (i32, Vec<u8>)|
                {
                    &&& req.channel_id == channel_id
                    &&& req.request_id == f.request_id
                    &&& req.method@ == f.method
                    &&& req.payload@ == f.payload
                    &&& #[trigger] method_reply(alone, req, out)
                    &&& out.0 == x.status
                    &&& out.1@ == x.payload
                };
            assert(method_reply(twice, req, out));
        }
    }
}

/// One reservation, from the store `before` to the store `after`: of a
/// buffer id when `buffer` holds, else of a channel id, handing out `id`, as
/// `reserve_buffer_id` and `reserve_channel_id` state it.
pub open spec fn reservation_step<H>(
    before: SharedBufferStore<H>,
    buffer: bool,
    id: u64,
    after: SharedBufferStore<H>,
) -> bool where H: for<'a> Fn(SharedIpcRequest<'a>) -> Result<Vec<u8>, Error> {
    if buffer {
        &&& id == before.buffer_id_counter()
        &&& after.buffer_id_counter() == id.wrapping_add(1)
        &&& after.channel_id_counter() == before.channel_id_counter()
    } else {
        &&& id == before.channel_id_counter()
        &&& after.channel_id_counter() == id.wrapping_add(1)
        &&& after.buffer_id_counter() == before.buffer_id_counter()
    }
}

/// How many of `calls` reserve a buffer id (`true`) rather than a channel
/// id (`false`).
pub open spec fn buffer_calls(calls: Seq<bool>) -> nat
    decreases calls.len(),
{
    if calls.len() == 0 {
        0
    } else {
        buffer_calls(calls.drop_last()) + if calls.last() {
            1nat
        } else {
            0nat
        }
    }
}

/// `start` moved on by `k` ids, wrapping around past `u64::MAX`.
pub open spec fn id_after(start: u64, k: nat) -> u64 {
    ((start + k) % 0x1_0000_0000_0000_0000) as u64
}

/// One more reservation moves an id on by one.
proof fn lemma_id_after_step(start: u64, k: nat)
    ensures
        id_after(start, k).wrapping_add(1) == id_after(start, k + 1),
{
    let m: int = 0x1_0000_0000_0000_0000;
    vstd::arithmetic::div_mod::lemma_add_mod_noop(start + k, 1, m);
}

/// The counters after the first `i` reservations of a run.
proof fn lemma_counters_after<H>(
    stores: Seq<SharedBufferStore<H>>,
    calls: Seq<bool>,
    ids: Seq<u64>,
    i: int,
) where H: for<'a> Fn(SharedIpcRequest<'a>) -> Result<Vec<u8>, Error>
    requires
        stores.len() == calls.len() + 1,
        ids.len() == calls.len(),
        forall|j: int|
            0 <= j < calls.len() ==> #[trigger] reservation_step(
                stores[j],
                calls[j],
                ids[j],
                stores[j + 1],
            ),
        0 <= i <= calls.len(),
    ensures
        buffer_calls(calls.take(i)) <= i,
        stores[i].buffer_id_counter() == id_after(
            stores[0].buffer_id_counter(),
            buffer_calls(calls.take(i)),
        ),
        stores[i].channel_id_counter() == id_after(
            stores[0].channel_id_counter(),
            (i - buffer_calls(calls.take(i))) as nat,
        ),
    decreases i,
{
    let m: int = 0x1_0000_0000_0000_0000;
    if i == 0 {
        assert(calls.take(0) =~= Seq::<bool>::empty());
        vstd::arithmetic::div_mod::lemma_small_mod(stores[0].buffer_id_counter() as nat, m as nat);
        vstd::arithmetic::div_mod::lemma_small_mod(stores[0].channel_id_counter() as nat, m as nat);
    } else {
        lemma_counters_after(stores, calls, ids, i - 1);
        assert(calls.take(i).drop_last() =~= calls.take(i - 1));
        let j = i - 1;
        assert(reservation_step(stores[j], calls[j], ids[j], stores[j + 1]));
        assert(j + 1 == i);
        let k = buffer_calls(calls.take(i - 1));
        lemma_id_after_step(stores[0].buffer_id_counter(), k);
        lemma_id_after_step(stores[0].channel_id_counter(), (i - 1 - k) as nat);
    }
}

/// Law: ids are handed out in turn. In a run of reservations from store
/// `stores[0]`, buffer and channel ids interleaved in the order of `calls`
/// (`true` for a buffer id), the call at place `i` hands out the starting
/// buffer id moved on by the buffer ids taken before it, whatever channel
/// ids were taken between, and likewise for channel ids. From a new store,
/// whose counters start at 1, the k-th buffer id is k until ids wrap.
pub proof fn law_ids_count_up<H>(
    stores: Seq<SharedBufferStore<H>>,
    calls: Seq<bool>,
    ids: Seq<u64>,
) where H: for<'a> Fn(SharedIpcRequest<'a>) -> Result<Vec<u8>, Error>
    requires
        stores.len() == calls.len() + 1,
        ids.len() == calls.len(),
        forall|j: int|
            0 <= j < calls.len() ==> #[trigger] reservation_step(
                stores[j],
                calls[j],
                ids[j],
                stores[j + 1],
            ),
    ensures
        forall|i: int|
            0 <= i < calls.len() && #[trigger] calls[i] ==> ids[i] == id_after(
                stores[0].buffer_id_counter(),
                buffer_calls(calls.take(i)),
            ),
        forall|i: int|
            0 <= i < calls.len() && !(#[trigger] calls[i]) ==> ids[i] == id_after(
                stores[0].channel_id_counter(),
                (i - buffer_calls(calls.take(i))) as nat,
            ),
{
    assert forall|i: int| 0 <= i < calls.len() implies (#[trigger] calls[i] ==> ids[i] == id_after(
        stores[0].buffer_id_counter(),
        buffer_calls(calls.take(i)),
    )) && (!calls[i] ==> ids[i] == id_after(
        stores[0].channel_id_counter(),
        (i - buffer_calls(calls.take(i))) as nat,
    )) by {
        lemma_counters_after(stores, calls, ids, i);
        assert(reservation_step(stores[i], calls[i], ids[i], stores[i + 1]));
    }
}

/// Law: the status of an answer from a registered method follows what the
/// method returned. Status 0 comes only with a payload the method returned
/// as `Ok`, and status 1 only with the text of an error it returned; a
/// method that always succeeds is always answered with status 0, whatever
/// its payload, an empty one too, and one that always fails with status 1.
pub proof fn law_status_follows_method<H>(
    methods: Seq<(Seq<char>, H)>,
    handler: H,
    req: SharedIpcRequest,
    out: (i32, Vec<u8>),
) where H: for<'a> Fn(SharedIpcRequest<'a>) -> Result<Vec<u8>, Error>
    requires
        method_handler(methods, req.method@) == Some(handler),
        method_reply(methods, req, out),
    ensures
        out.0 == 0 || out.0 == 1,
        out.0 == 0 ==> exists|v: Vec<u8>|
            #[trigger] call_ensures(handler, (req,), Ok::<Vec<u8>, Error>(v)) && out.1@ == v@,
        out.0 == 1 ==> exists|e: Error|
            #[trigger] call_ensures(handler, (req,), Err::<Vec<u8>, Error>(e)) && out.1@
                == vstd::utf8::encode_utf8(error_text(e)),
        (forall|res: Result<Vec<u8>, Error>| #[trigger]
            call_ensures(handler, (req,), res) ==> res is Ok) ==> out.0 == 0,
        (forall|res: Result<Vec<u8>, Error>| #[trigger]
            call_ensures(handler, (req,), res) ==> res is Err) ==> out.0 == 1,
{
    let res = choose|res: Result<Vec<u8>, Error>|
        {
            &&& #[trigger] call_ensures(handler, (req,), res)
            &&& match res {
                Ok(v) => out.0 == crate::shared_ipc::STATUS_OK && out.1@ == v@,
                Err(e) => out.0 == crate::shared_ipc::STATUS_ERROR && out.1@
                    == vstd::utf8::encode_utf8(error_text(e)),
            }
        };
    match res {
        Ok(v) => {
            assert(call_ensures(handler, (req,), Ok::<Vec<u8>, Error>(v)));
        },
        Err(e) => {
            assert(call_ensures(handler, (req,), Err::<Vec<u8>, Error>(e)));
        },
    }
}

/// Law: a closed buffer or channel is gone: later writes, reads and
/// dispatches under its id fail as not found.
pub proof fn law_closed_is_gone<V>(entries: Map<u64, V>, id: u64)
    ensures
        !entries.remove(id).contains_key(id),
{
}

} // verus!
