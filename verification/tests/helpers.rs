use tauri_plugin_shared_buffer::shared_ipc::{
    align8, init_buffer, read_i32, read_u32, validate_capacity, validate_initialized, write_i32,
    write_response_frame, read_response_frame, BUFFER_MAGIC, BUFFER_VERSION,
};
use tauri_plugin_shared_buffer::{
    default_channel_capacity, to_wide_null, validate_channel_capacity, validate_channel_request,
    validate_create_request, validate_size, CreateSharedBufferRequest, CreateSharedChannelRequest,
    Error,
};

#[test]
fn align8_rounds_up_to_a_multiple_of_eight() {
    assert_eq!(align8(0), 0);
    assert_eq!(align8(1), 8);
    assert_eq!(align8(8), 8);
    assert_eq!(align8(37), 40);
}

#[test]
fn words_are_little_endian() {
    let mut buffer = vec![0; 8];
    write_i32(&mut buffer, 4, -2).unwrap();
    assert_eq!(buffer[4..8], [0xfe, 0xff, 0xff, 0xff]);
    assert_eq!(read_i32(&buffer, 4).unwrap(), -2);
    assert_eq!(read_u32(&buffer, 4).unwrap(), 0xffff_fffe);
    assert!(matches!(read_u32(&buffer, 5), Err(Error::InvalidFrame)));
}

#[test]
fn init_buffer_writes_the_header() {
    let mut buffer = vec![0xaa; 48];
    init_buffer(&mut buffer).unwrap();
    assert_eq!(read_u32(&buffer, 0).unwrap(), BUFFER_MAGIC);
    assert_eq!(read_u32(&buffer, 4).unwrap(), BUFFER_VERSION);
    assert_eq!(read_u32(&buffer, 8).unwrap(), 16);
    assert_eq!(read_u32(&buffer, 12).unwrap(), 0);
    assert_eq!(buffer[16..], [0xaa; 32]);
    validate_initialized(&buffer).unwrap();
}

#[test]
fn channel_capacity_limits() {
    assert!(matches!(validate_capacity(47), Err(Error::ChannelBufferTooSmall)));
    assert!(validate_capacity(48).is_ok());
    assert!(matches!(validate_capacity(1 << 32), Err(Error::BufferTooLarge)));
    assert!(matches!(init_buffer(&mut [0; 20]), Err(Error::ChannelBufferTooSmall)));
}

#[test]
fn response_frame_is_padded_and_read_back() {
    let mut buffer = vec![0; 64];
    init_buffer(&mut buffer).unwrap();
    let end = write_response_frame(&mut buffer, 16, 5, -1, b"abc").unwrap();
    assert_eq!(end, 56);
    assert_eq!(read_u32(&buffer, 16).unwrap(), 40);
    let frame = read_response_frame(&buffer, end, 5).unwrap();
    assert_eq!(frame.status, -1);
    assert_eq!(frame.payload, b"abc");
    assert!(matches!(
        write_response_frame(&mut buffer, 56, 6, 0, b""),
        Err(Error::ResponseBufferFull)
    ));
}

#[test]
fn size_checks() {
    assert!(matches!(validate_size(0), Err(Error::EmptyBuffer)));
    assert!(validate_size(1).is_ok());
    assert!(matches!(validate_channel_capacity(47), Err(Error::ChannelBufferTooSmall)));
    assert!(matches!(validate_channel_capacity(1 << 32), Err(Error::BufferTooLarge)));
    assert!(validate_channel_capacity(48).is_ok());
    assert_eq!(default_channel_capacity(), 1024 * 1024);
}

#[test]
fn create_request_checks() {
    let request = |size: u64, initial_contents: Vec<u8>| CreateSharedBufferRequest {
        size,
        read_only: true,
        additional_data: serde_json::Value::Null,
        initial_contents,
    };
    assert!(matches!(validate_create_request(&request(0, vec![])), Err(Error::EmptyBuffer)));
    assert!(matches!(
        validate_create_request(&request(1, vec![1, 2])),
        Err(Error::InitialContentsTooLarge)
    ));
    assert!(validate_create_request(&request(2, vec![1, 2])).is_ok());
}

#[test]
fn channel_request_checks() {
    let request = |request_capacity: u64, response_capacity: u64| CreateSharedChannelRequest {
        request_capacity,
        response_capacity,
    };
    assert!(matches!(validate_channel_request(&request(47, 48)), Err(Error::ChannelBufferTooSmall)));
    assert!(matches!(validate_channel_request(&request(48, 0)), Err(Error::ChannelBufferTooSmall)));
    assert!(matches!(
        validate_channel_request(&request(48, 1 << 32)),
        Err(Error::BufferTooLarge)
    ));
    assert!(validate_channel_request(&request(48, 48)).is_ok());
}

#[test]
fn wide_strings_end_with_nul() {
    assert_eq!(to_wide_null(""), vec![0]);
    assert_eq!(to_wide_null("a\u{e9}"), vec![0x61, 0xe9, 0]);
    assert_eq!(to_wide_null("\u{1f600}"), vec![0xd83d, 0xde00, 0]);
}

#[test]
fn error_messages() {
    assert_eq!(Error::BufferNotFound(42).message(), "buffer 42 was not found");
    assert_eq!(Error::ChannelNotFound(0).message(), "channel 0 was not found");
    assert_eq!(
        Error::MethodNotFound("x".to_string()).message(),
        "shared IPC method `x` was not found"
    );
    assert_eq!(Error::WebView2("boom".to_string()).message(), "failed to access WebView2: boom");
    assert_eq!(Error::InvalidFrame.message(), "shared IPC frame is invalid");
    assert_eq!(Error::UnsupportedPlatform.message(), "WebView2 shared buffers are only supported on Windows");
}

#[test]
fn error_ids_are_written_in_decimal() {
    assert_eq!(Error::BufferNotFound(9).message(), "buffer 9 was not found");
    assert_eq!(Error::BufferNotFound(10).message(), "buffer 10 was not found");
    assert_eq!(Error::ChannelNotFound(1234567890).message(), "channel 1234567890 was not found");
    assert_eq!(
        Error::ChannelNotFound(u64::MAX).message(),
        "channel 18446744073709551615 was not found"
    );
}
