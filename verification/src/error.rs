//! The library's error type and the text each error is reported with.
use vstd::prelude::*;
use vstd::string::StringExecFns;

verus! {

/// Everything that can go wrong while creating, reading, writing or
/// dispatching shared buffers.
#[derive(Debug)]
pub enum Error {
    UnsupportedPlatform,
    EmptyBuffer,
    BufferTooLarge,
    BufferNotFound(u64),
    ChannelNotFound(u64),
    InitialContentsTooLarge,
    WriteOutOfBounds,
    ReadOutOfBounds,
    InvalidFrame,
    ChannelBufferTooSmall,
    ResponseBufferFull,
    MethodNotFound(String),
    WebView2(String),
}

/// Results of this library.
pub type Result<T> = core::result::Result<T, Error>;

/// The character of a decimal digit.
pub open spec fn digit_char(d: nat) -> char {
    (48 + d) as char
}

/// The decimal digits of `n`, most significant first, without leading zeros.
pub open spec fn decimal_digits(n: nat) -> Seq<char>
    decreases n,
{
    if n < 10 {
        seq![digit_char(n)]
    } else {
        decimal_digits(n / 10).push(digit_char(n % 10))
    }
}

/// The text an error is reported with.
pub open spec fn error_text(e: Error) -> Seq<char> {
    match e {
        Error::UnsupportedPlatform => "WebView2 shared buffers are only supported on Windows"@,
        Error::EmptyBuffer => "buffer size must be greater than zero"@,
        Error::BufferTooLarge => "buffer size does not fit in this process"@,
        Error::BufferNotFound(id) => "buffer "@ + decimal_digits(id as nat) + " was not found"@,
        Error::ChannelNotFound(id) => "channel "@ + decimal_digits(id as nat) + " was not found"@,
        Error::InitialContentsTooLarge => "initial contents are larger than the requested buffer"@,
        Error::WriteOutOfBounds => "write range is outside the shared buffer"@,
        Error::ReadOutOfBounds => "read range is outside the shared buffer"@,
        Error::InvalidFrame => "shared IPC frame is invalid"@,
        Error::ChannelBufferTooSmall => "shared IPC buffer is too small"@,
        Error::ResponseBufferFull => "shared IPC response buffer is full"@,
        Error::MethodNotFound(method) => method_not_found_text(method@),
        Error::WebView2(message) => "failed to access WebView2: "@ + message@,
    }
}

/// The text of the error for a method that nothing is registered under.
pub open spec fn method_not_found_text(method: Seq<char>) -> Seq<char> {
    "shared IPC method `"@ + method + "` was not found"@
}

/// The one-character text of the decimal digit `d`.
fn digit_text(d: u64) -> (text: &'static str)
    requires
        d < 10,
    ensures
        text@ == seq![digit_char(d as nat)],
{
    proof {
        reveal_strlit("0");
        reveal_strlit("1");
        reveal_strlit("2");
        reveal_strlit("3");
        reveal_strlit("4");
        reveal_strlit("5");
        reveal_strlit("6");
        reveal_strlit("7");
        reveal_strlit("8");
        reveal_strlit("9");
    }
    if d == 0 {
        "0"
    } else if d == 1 {
        "1"
    } else if d == 2 {
        "2"
    } else if d == 3 {
        "3"
    } else if d == 4 {
        "4"
    } else if d == 5 {
        "5"
    } else if d == 6 {
        "6"
    } else if d == 7 {
        "7"
    } else if d == 8 {
        "8"
    } else {
        "9"
    }
}

/// The decimal text of `n`: its digits, most significant first, with no
/// sign, padding or leading zeros.
fn decimal_string(n: u64) -> (s: String)
    ensures
        s@ == decimal_digits(n as nat),
    decreases n,
{
    if n < 10 {
        String::from_str(digit_text(n))
    } else {
        let mut s = decimal_string(n / 10);
        s.append(digit_text(n % 10));
        s
    }
}

impl Error {
    /// The text this error is reported with.
    pub fn message(&self) -> (text: String)
        ensures
            text@ == error_text(*self),
    {
        match self {
            Error::UnsupportedPlatform => String::from_str(
                "WebView2 shared buffers are only supported on Windows",
            ),
            Error::EmptyBuffer => String::from_str("buffer size must be greater than zero"),
            Error::BufferTooLarge => String::from_str("buffer size does not fit in this process"),
            Error::BufferNotFound(id) => {
                let digits = decimal_string(*id);
                String::from_str("buffer ").concat(digits.as_str()).concat(" was not found")
            },
            Error::ChannelNotFound(id) => {
                let digits = decimal_string(*id);
                String::from_str("channel ").concat(digits.as_str()).concat(" was not found")
            },
            Error::InitialContentsTooLarge => String::from_str(
                "initial contents are larger than the requested buffer",
            ),
            Error::WriteOutOfBounds => String::from_str("write range is outside the shared buffer"),
            Error::ReadOutOfBounds => String::from_str("read range is outside the shared buffer"),
            Error::InvalidFrame => String::from_str("shared IPC frame is invalid"),
            Error::ChannelBufferTooSmall => String::from_str("shared IPC buffer is too small"),
            Error::ResponseBufferFull => String::from_str("shared IPC response buffer is full"),
            Error::MethodNotFound(method) => String::from_str("shared IPC method `").concat(
                method.as_str(),
            ).concat("` was not found"),
            Error::WebView2(message) => String::from_str("failed to access WebView2: ").concat(
                message.as_str(),
            ),
        }
    }
}

} // verus!
