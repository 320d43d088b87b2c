//! Shared-memory IPC for a webview host: the frame format that carries
//! requests and responses through shared byte buffers, the dispatcher that
//! runs registered methods on them, and the store that keeps track of the
//! buffers and channels handed to script.
pub mod error;
pub mod wire;
pub mod frame;
pub mod shared_ipc;
pub mod types;
pub mod validate;
pub mod wide;
pub mod store;

pub use error::{Error, Result};
pub use types::{
    default_channel_capacity, CreateSharedBufferRequest, CreateSharedChannelRequest,
    ReadSharedBufferRequest, SharedBufferInfo, SharedChannelDispatch, SharedChannelInfo,
    SharedIpcRequest, WriteSharedBufferRequest, DEFAULT_CHANNEL_CAPACITY,
};
pub use validate::{
    validate_channel_capacity, validate_channel_request, validate_create_request, validate_size,
};
pub use store::{SharedBufferStore, SharedChannel};
pub use wide::to_wide_null;
