use tauri_plugin_shared_buffer::shared_ipc::{
    init_buffer, read_response_frame, write_request_frame, STATUS_ERROR, STATUS_OK,
};
use tauri_plugin_shared_buffer::{
    CreateSharedBufferRequest, CreateSharedChannelRequest, Error, ReadSharedBufferRequest,
    SharedBufferStore, SharedIpcRequest, WriteSharedBufferRequest,
};

type Handler = Box<dyn for<'a> Fn(SharedIpcRequest<'a>) -> Result<Vec<u8>, Error>>;

fn store() -> SharedBufferStore<Handler> {
    SharedBufferStore::default()
}

fn buffer_request(size: u64, initial_contents: Vec<u8>) -> CreateSharedBufferRequest {
    CreateSharedBufferRequest {
        size,
        read_only: false,
        additional_data: serde_json::Value::Null,
        initial_contents,
    }
}

fn read_all(store: &SharedBufferStore<Handler>, id: u64, length: u64) -> Result<Vec<u8>, Error> {
    store.read(ReadSharedBufferRequest { id, offset: 0, length })
}

#[test]
fn buffer_starts_with_initial_contents_then_zeros() {
    let mut s = store();
    s.create_buffer(3, buffer_request(8, vec![1, 2, 3])).unwrap();
    assert_eq!(read_all(&s, 3, 8).unwrap(), vec![1, 2, 3, 0, 0, 0, 0, 0]);
}

#[test]
fn read_after_write_returns_written_bytes() {
    let mut s = store();
    s.create_buffer(1, buffer_request(8, vec![1, 2, 3])).unwrap();
    s.write(WriteSharedBufferRequest { id: 1, offset: 2, bytes: vec![9, 9] }).unwrap();
    assert_eq!(
        s.read(ReadSharedBufferRequest { id: 1, offset: 2, length: 2 }).unwrap(),
        vec![9, 9]
    );
    assert_eq!(read_all(&s, 1, 8).unwrap(), vec![1, 2, 9, 9, 0, 0, 0, 0]);
}

#[test]
fn create_buffer_rejects_bad_sizes() {
    let mut s = store();
    assert!(matches!(
        s.create_buffer(1, buffer_request(0, vec![])),
        Err(Error::EmptyBuffer)
    ));
    assert!(matches!(
        s.create_buffer(1, buffer_request(2, vec![1, 2, 3])),
        Err(Error::InitialContentsTooLarge)
    ));
    assert!(matches!(read_all(&s, 1, 0), Err(Error::BufferNotFound(1))));
}

#[test]
fn write_and_read_out_of_bounds_are_rejected() {
    let mut s = store();
    s.create_buffer(1, buffer_request(8, vec![])).unwrap();
    assert!(matches!(
        s.write(WriteSharedBufferRequest { id: 1, offset: 7, bytes: vec![1, 2] }),
        Err(Error::WriteOutOfBounds)
    ));
    assert!(matches!(
        s.write(WriteSharedBufferRequest { id: 1, offset: u64::MAX, bytes: vec![1] }),
        Err(Error::WriteOutOfBounds)
    ));
    assert!(matches!(
        s.read(ReadSharedBufferRequest { id: 1, offset: 4, length: 5 }),
        Err(Error::ReadOutOfBounds)
    ));
    assert!(matches!(
        s.read(ReadSharedBufferRequest { id: 1, offset: u64::MAX, length: 2 }),
        Err(Error::ReadOutOfBounds)
    ));
    assert_eq!(read_all(&s, 1, 8).unwrap(), vec![0; 8]);
}

#[test]
fn unknown_buffer_is_not_found() {
    let mut s = store();
    assert!(matches!(
        s.write(WriteSharedBufferRequest { id: 4, offset: 0, bytes: vec![1] }),
        Err(Error::BufferNotFound(4))
    ));
    assert!(matches!(read_all(&s, 4, 1), Err(Error::BufferNotFound(4))));
    assert!(matches!(s.close_buffer(4), Err(Error::BufferNotFound(4))));
}

#[test]
fn closed_buffer_is_gone() {
    let mut s = store();
    s.create_buffer(2, buffer_request(4, vec![])).unwrap();
    s.close_buffer(2).unwrap();
    assert!(matches!(read_all(&s, 2, 4), Err(Error::BufferNotFound(2))));
    assert!(matches!(s.close_buffer(2), Err(Error::BufferNotFound(2))));
}

#[test]
fn reserved_ids_count_up_from_one() {
    let mut s = store();
    assert_eq!(s.reserve_buffer_id(), 1);
    assert_eq!(s.reserve_buffer_id(), 2);
    assert_eq!(s.reserve_channel_id(), 1);
    assert_eq!(s.reserve_channel_id(), 2);
    assert_eq!(s.reserve_buffer_id(), 3);
}

fn channel_request(capacity: u64) -> CreateSharedChannelRequest {
    CreateSharedChannelRequest { request_capacity: capacity, response_capacity: capacity }
}

fn post(s: &mut SharedBufferStore<Handler>, channel: u64, frames: &[(u32, &str, &[u8])]) {
    let mut request = vec![0; 256];
    init_buffer(&mut request).unwrap();
    for (id, method, payload) in frames {
        write_request_frame(&mut request, *id, method, payload).unwrap();
    }
    s.write_channel_request(WriteSharedBufferRequest { id: channel, offset: 0, bytes: request })
        .unwrap();
}

fn responses(s: &SharedBufferStore<Handler>, channel: u64) -> Vec<u8> {
    s.read_channel_response(ReadSharedBufferRequest { id: channel, offset: 0, length: 256 })
        .unwrap()
}

#[test]
fn dispatch_channel_runs_registered_methods() {
    let mut s = store();
    s.create_channel(1, channel_request(256)).unwrap();
    s.register_method(
        "uppercase".to_string(),
        Box::new(|request: SharedIpcRequest| {
            assert_eq!(request.channel_id, 1);
            Ok(request.payload.to_ascii_uppercase())
        }),
    );
    post(&mut s, 1, &[(7, "uppercase", b"hello"), (8, "uppercase", b"abc")]);

    let dispatch = s.dispatch_channel(1).unwrap();
    assert_eq!(dispatch.channel_id, 1);
    let bytes = responses(&s, 1);
    let first = read_response_frame(&bytes, dispatch.response_write_offset as usize, 7).unwrap();
    assert_eq!(first.status, STATUS_OK);
    assert_eq!(first.payload, b"HELLO");
    let second = read_response_frame(&bytes, dispatch.response_write_offset as usize, 8).unwrap();
    assert_eq!(second.payload, b"ABC");
}

#[test]
fn missing_method_is_answered_with_an_error_frame() {
    let mut s = store();
    s.create_channel(1, channel_request(256)).unwrap();
    post(&mut s, 1, &[(3, "nope", b"")]);
    let dispatch = s.dispatch_channel(1).unwrap();
    let bytes = responses(&s, 1);
    let frame = read_response_frame(&bytes, dispatch.response_write_offset as usize, 3).unwrap();
    assert_eq!(frame.status, STATUS_ERROR);
    assert_eq!(frame.payload, b"shared IPC method `nope` was not found");
}

#[test]
fn handler_error_is_answered_with_its_text() {
    let mut s = store();
    s.create_channel(1, channel_request(256)).unwrap();
    s.register_method("fail".to_string(), Box::new(|_| Err(Error::BufferNotFound(12))));
    post(&mut s, 1, &[(1, "fail", b"x")]);
    let dispatch = s.dispatch_channel(1).unwrap();
    let bytes = responses(&s, 1);
    let frame = read_response_frame(&bytes, dispatch.response_write_offset as usize, 1).unwrap();
    assert_eq!(frame.status, STATUS_ERROR);
    assert_eq!(frame.payload, b"buffer 12 was not found");
}

#[test]
fn registering_again_replaces_the_method() {
    let mut s = store();
    s.create_channel(1, channel_request(256)).unwrap();
    s.register_method("m".to_string(), Box::new(|_| Ok(b"old".to_vec())));
    s.register_method("m".to_string(), Box::new(|_| Ok(b"new".to_vec())));
    post(&mut s, 1, &[(1, "m", b"")]);
    let dispatch = s.dispatch_channel(1).unwrap();
    let bytes = responses(&s, 1);
    let frame = read_response_frame(&bytes, dispatch.response_write_offset as usize, 1).unwrap();
    assert_eq!(frame.payload, b"new");
}

#[test]
fn dispatch_drains_the_request_buffer() {
    let mut s = store();
    s.create_channel(1, channel_request(256)).unwrap();
    s.register_method("echo".to_string(), Box::new(|r: SharedIpcRequest| Ok(r.payload.to_vec())));
    post(&mut s, 1, &[(1, "echo", b"a")]);
    s.dispatch_channel(1).unwrap();
    let second = s.dispatch_channel(1).unwrap();
    assert_eq!(second.response_write_offset, 16);
}

#[test]
fn unknown_channel_is_not_found() {
    let mut s = store();
    assert!(matches!(s.dispatch_channel(5), Err(Error::ChannelNotFound(5))));
    assert!(matches!(s.close_channel(5), Err(Error::ChannelNotFound(5))));
    assert!(matches!(
        s.write_channel_request(WriteSharedBufferRequest { id: 5, offset: 0, bytes: vec![] }),
        Err(Error::ChannelNotFound(5))
    ));
}

#[test]
fn closed_channel_is_gone() {
    let mut s = store();
    s.create_channel(2, channel_request(64)).unwrap();
    s.close_channel(2).unwrap();
    assert!(matches!(s.dispatch_channel(2), Err(Error::ChannelNotFound(2))));
}

#[test]
fn create_channel_rejects_bad_capacities() {
    let mut s = store();
    assert!(matches!(
        s.create_channel(1, CreateSharedChannelRequest { request_capacity: 47, response_capacity: 64 }),
        Err(Error::ChannelBufferTooSmall)
    ));
    assert!(matches!(
        s.create_channel(1, CreateSharedChannelRequest { request_capacity: 64, response_capacity: 0 }),
        Err(Error::EmptyBuffer)
    ));
    assert!(matches!(
        s.create_channel(
            1,
            CreateSharedChannelRequest { request_capacity: 64, response_capacity: 1 << 33 }
        ),
        Err(Error::BufferTooLarge)
    ));
    assert!(matches!(s.dispatch_channel(1), Err(Error::ChannelNotFound(1))));
}

#[test]
fn fresh_channel_has_no_pending_requests() {
    let mut s = store();
    s.create_channel(1, channel_request(64)).unwrap();
    let dispatch = s.dispatch_channel(1).unwrap();
    assert_eq!(dispatch.response_write_offset, 16);
}

#[test]
fn corrupt_channel_write_offset_is_an_invalid_frame() {
    let mut s = store();
    s.create_channel(1, channel_request(64)).unwrap();
    s.write_channel_request(WriteSharedBufferRequest { id: 1, offset: 8, bytes: vec![200, 0, 0, 0] })
        .unwrap();
    assert!(matches!(s.dispatch_channel(1), Err(Error::InvalidFrame)));
}

#[test]
fn begin_buffer_takes_an_id_only_for_a_valid_request() {
    let mut s = store();
    assert!(matches!(s.begin_buffer(&buffer_request(0, vec![])), Err(Error::EmptyBuffer)));
    assert!(matches!(
        s.begin_buffer(&buffer_request(2, vec![1, 2, 3])),
        Err(Error::InitialContentsTooLarge)
    ));
    let info = s.begin_buffer(&buffer_request(64, vec![1])).unwrap();
    assert_eq!((info.id, info.size), (1, 64));
    let info = s.begin_buffer(&buffer_request(8, vec![])).unwrap();
    assert_eq!((info.id, info.size), (2, 8));
    assert_eq!(s.reserve_channel_id(), 1);
}

#[test]
fn begin_channel_takes_an_id_only_for_a_valid_request() {
    let mut s = store();
    assert!(matches!(s.begin_channel(&channel_request(47)), Err(Error::ChannelBufferTooSmall)));
    assert!(matches!(
        s.begin_channel(&channel_request(u32::MAX as u64 + 1)),
        Err(Error::BufferTooLarge)
    ));
    let info = s
        .begin_channel(&CreateSharedChannelRequest { request_capacity: 64, response_capacity: 128 })
        .unwrap();
    assert_eq!((info.id, info.request_capacity, info.response_capacity), (1, 64, 128));
    assert_eq!(s.begin_channel(&channel_request(48)).unwrap().id, 2);
    assert_eq!(s.reserve_buffer_id(), 1);
}

#[test]
fn dispatch_channel_leaves_the_bytes_dispatch_requests_leaves() {
    let mut s = store();
    s.create_channel(5, channel_request(256)).unwrap();
    s.register_method(
        "uppercase".to_string(),
        Box::new(|request| Ok(request.payload.to_ascii_uppercase())),
    );
    post(&mut s, 5, &[(1, "uppercase", b"abc"), (2, "missing", b"x")]);
    let mut request = s
        .read_channel_request(ReadSharedBufferRequest { id: 5, offset: 0, length: 256 })
        .unwrap();
    let dispatch = s.dispatch_channel(5).unwrap();

    let mut response = vec![0u8; 256];
    let end = tauri_plugin_shared_buffer::shared_ipc::dispatch_requests(
        5,
        &mut request,
        &mut response,
        |r: SharedIpcRequest| {
            if r.method == "uppercase" {
                (STATUS_OK, r.payload.to_ascii_uppercase())
            } else {
                (STATUS_ERROR, format!("shared IPC method `{}` was not found", r.method).into_bytes())
            }
        },
    )
    .unwrap();

    assert_eq!(dispatch.response_write_offset as usize, end);
    assert_eq!(responses(&s, 5), response);
    assert_eq!(
        s.read_channel_request(ReadSharedBufferRequest { id: 5, offset: 0, length: 256 }).unwrap(),
        request
    );
}

#[test]
fn ids_count_up_independently() {
    let mut s = store();
    let mut buffer_ids = Vec::new();
    let mut channel_ids = Vec::new();
    for k in 0..6 {
        if k % 3 == 0 {
            channel_ids.push(s.reserve_channel_id());
        } else {
            buffer_ids.push(s.reserve_buffer_id());
        }
    }
    assert_eq!(buffer_ids, vec![1, 2, 3, 4]);
    assert_eq!(channel_ids, vec![1, 2]);
}
