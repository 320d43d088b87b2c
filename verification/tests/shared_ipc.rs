use tauri_plugin_shared_buffer::shared_ipc::{
    dispatch_requests, init_buffer, read_response_frame, read_u32, write_request_frame, write_u32,
    BUFFER_HEADER_SIZE, FRAME_HEADER_SIZE, STATUS_ERROR, STATUS_OK,
};
use tauri_plugin_shared_buffer::Error;

#[test]
fn request_response_roundtrip_uses_shared_frames() {
    let mut request = vec![0; 512];
    let mut response = vec![0; 512];
    init_buffer(&mut request).unwrap();

    write_request_frame(&mut request, 7, "uppercase", b"hello").unwrap();

    let response_write = dispatch_requests(42, &mut request, &mut response, |request| {
        assert_eq!(request.channel_id, 42);
        assert_eq!(request.request_id, 7);
        assert_eq!(request.method, "uppercase");
        (STATUS_OK, request.payload.to_ascii_uppercase())
    })
    .unwrap();

    let frame = read_response_frame(&response, response_write, 7).unwrap();
    assert_eq!(frame.status, STATUS_OK);
    assert_eq!(frame.payload, b"HELLO");
    assert_eq!(read_u32(&request, 8).unwrap(), BUFFER_HEADER_SIZE as u32);
}

#[test]
fn dispatches_multiple_requests_in_one_doorbell() {
    let mut request = vec![0; 1024];
    let mut response = vec![0; 1024];
    init_buffer(&mut request).unwrap();

    write_request_frame(&mut request, 1, "echo", b"one").unwrap();
    write_request_frame(&mut request, 2, "echo", b"two").unwrap();

    let response_write = dispatch_requests(9, &mut request, &mut response, |request| {
        (STATUS_OK, request.payload.to_vec())
    })
    .unwrap();

    assert_eq!(
        read_response_frame(&response, response_write, 1)
            .unwrap()
            .payload,
        b"one"
    );
    assert_eq!(
        read_response_frame(&response, response_write, 2)
            .unwrap()
            .payload,
        b"two"
    );
}

#[test]
fn handler_errors_are_encoded_as_error_frames() {
    let mut request = vec![0; 512];
    let mut response = vec![0; 512];
    init_buffer(&mut request).unwrap();
    write_request_frame(&mut request, 1, "fail", b"").unwrap();

    let response_write = dispatch_requests(1, &mut request, &mut response, |_| {
        (STATUS_ERROR, b"expected failure".to_vec())
    })
    .unwrap();

    let frame = read_response_frame(&response, response_write, 1).unwrap();
    assert_eq!(frame.status, STATUS_ERROR);
    assert_eq!(frame.payload, b"expected failure");
}

#[test]
fn rejects_uninitialized_request_buffer() {
    let mut request = vec![0; 128];
    let mut response = vec![0; 128];

    assert!(matches!(
        dispatch_requests(1, &mut request, &mut response, |_| unreachable!()),
        Err(Error::InvalidFrame)
    ));
}

#[test]
fn rejects_corrupt_write_offset() {
    let mut request = vec![0; 128];
    let mut response = vec![0; 128];
    init_buffer(&mut request).unwrap();
    write_u32(&mut request, 8, 129).unwrap();

    assert!(matches!(
        dispatch_requests(1, &mut request, &mut response, |_| unreachable!()),
        Err(Error::InvalidFrame)
    ));
}

#[test]
fn rejects_invalid_frame_kind() {
    let mut request = vec![0; 128];
    let mut response = vec![0; 128];
    init_buffer(&mut request).unwrap();
    write_request_frame(&mut request, 1, "echo", b"data").unwrap();
    write_u32(&mut request, BUFFER_HEADER_SIZE + 4, 99).unwrap();

    assert!(matches!(
        dispatch_requests(1, &mut request, &mut response, |_| unreachable!()),
        Err(Error::InvalidFrame)
    ));
}

#[test]
fn rejects_invalid_utf8_method_name() {
    let mut request = vec![0; 128];
    let mut response = vec![0; 128];
    init_buffer(&mut request).unwrap();
    write_request_frame(&mut request, 1, "echo", b"data").unwrap();
    request[BUFFER_HEADER_SIZE + FRAME_HEADER_SIZE] = 0xff;

    assert!(matches!(
        dispatch_requests(1, &mut request, &mut response, |_| unreachable!()),
        Err(Error::InvalidFrame)
    ));
}

#[test]
fn rejects_oversized_request_payload() {
    let mut request = vec![0; 64];
    init_buffer(&mut request).unwrap();

    assert!(matches!(
        write_request_frame(&mut request, 1, "echo", &[1; 64]),
        Err(Error::ChannelBufferTooSmall)
    ));
}

#[test]
fn rejects_response_buffer_overflow() {
    let mut request = vec![0; 128];
    let mut response = vec![0; 64];
    init_buffer(&mut request).unwrap();
    write_request_frame(&mut request, 1, "large", b"").unwrap();

    assert!(matches!(
        dispatch_requests(1, &mut request, &mut response, |_| { (STATUS_OK, vec![1; 64]) }),
        Err(Error::ResponseBufferFull)
    ));
}

#[test]
fn read_response_rejects_missing_request_id() {
    let mut request = vec![0; 128];
    let mut response = vec![0; 128];
    init_buffer(&mut request).unwrap();
    write_request_frame(&mut request, 1, "echo", b"data").unwrap();
    let response_write = dispatch_requests(1, &mut request, &mut response, |request| {
        (STATUS_OK, request.payload.to_vec())
    })
    .unwrap();

    assert!(matches!(
        read_response_frame(&response, response_write, 99),
        Err(Error::InvalidFrame)
    ));
}

#[test]
fn wraps_request_writer_after_capacity_is_reached() {
    let mut request = vec![0; 112];
    init_buffer(&mut request).unwrap();
    write_request_frame(&mut request, 1, "echo", &[1; 24]).unwrap();
    let second_offset = write_request_frame(&mut request, 2, "echo", &[2; 24]).unwrap();

    assert_eq!(second_offset, BUFFER_HEADER_SIZE);
}
