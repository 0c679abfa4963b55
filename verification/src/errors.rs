//! The library's error type.
use vstd::prelude::*;
use crate::text::{push_chars, push_str, chars_of};

verus! {

/// Errors of the memory engine. Failures reported by outside codecs carry
/// their message text.
#[derive(Debug)]
pub enum MgeError {
    Io(String),
    Json(String),
    MessagePackEncode(String),
    MessagePackDecode(String),
    StorageFormat(String),
    InvalidMarker(String),
    NotInitialized(String),
    StoreLocked(String),
    StoreBusy(String),
    AuthenticationFailed(String),
    Crypto(String),
    InvalidInput(String),
}

/// The prefix that the error's message starts with.
pub open spec fn error_prefix(e: MgeError) -> Seq<char> {
    match e {
        MgeError::Io(_) => "io error: "@,
        MgeError::Json(_) => "json error: "@,
        MgeError::MessagePackEncode(_) => "messagepack encode error: "@,
        MgeError::MessagePackDecode(_) => "messagepack decode error: "@,
        MgeError::StorageFormat(_) => "storage format error: "@,
        MgeError::InvalidMarker(_) => "invalid marker: "@,
        MgeError::NotInitialized(_) => "store is not initialized: "@,
        MgeError::StoreLocked(_) => "store is locked: "@,
        MgeError::StoreBusy(_) => "store is busy: "@,
        MgeError::AuthenticationFailed(_) => "authentication failed: "@,
        MgeError::Crypto(_) => "crypto error: "@,
        MgeError::InvalidInput(_) => "invalid input: "@,
    }
}

/// The detail text that the error carries.
pub open spec fn error_detail(e: MgeError) -> Seq<char> {
    match e {
        MgeError::Io(m) => m@,
        MgeError::Json(m) => m@,
        MgeError::MessagePackEncode(m) => m@,
        MgeError::MessagePackDecode(m) => m@,
        MgeError::StorageFormat(m) => m@,
        MgeError::InvalidMarker(m) => m@,
        MgeError::NotInitialized(m) => m@,
        MgeError::StoreLocked(m) => m@,
        MgeError::StoreBusy(m) => m@,
        MgeError::AuthenticationFailed(m) => m@,
        MgeError::Crypto(m) => m@,
        MgeError::InvalidInput(m) => m@,
    }
}

impl MgeError {
    /// The human-readable message of the error: its kind's prefix followed by
    /// the detail text.
    pub fn message(&self) -> (s: String)
        ensures
            s@ == error_prefix(*self) + error_detail(*self),
    {
        let mut s = String::new();
        let detail = match self {
            MgeError::Io(m) => {
                push_str(&mut s, "io error: ");
                m
            },
            MgeError::Json(m) => {
                push_str(&mut s, "json error: ");
                m
            },
            MgeError::MessagePackEncode(m) => {
                push_str(&mut s, "messagepack encode error: ");
                m
            },
            MgeError::MessagePackDecode(m) => {
                push_str(&mut s, "messagepack decode error: ");
                m
            },
            MgeError::StorageFormat(m) => {
                push_str(&mut s, "storage format error: ");
                m
            },
            MgeError::InvalidMarker(m) => {
                push_str(&mut s, "invalid marker: ");
                m
            },
            MgeError::NotInitialized(m) => {
                push_str(&mut s, "store is not initialized: ");
                m
            },
            MgeError::StoreLocked(m) => {
                push_str(&mut s, "store is locked: ");
                m
            },
            MgeError::StoreBusy(m) => {
                push_str(&mut s, "store is busy: ");
                m
            },
            MgeError::AuthenticationFailed(m) => {
                push_str(&mut s, "authentication failed: ");
                m
            },
            MgeError::Crypto(m) => {
                push_str(&mut s, "crypto error: ");
                m
            },
            MgeError::InvalidInput(m) => {
                push_str(&mut s, "invalid input: ");
                m
            },
        };
        let d = chars_of(detail.as_str());
        push_chars(&mut s, &d);
        s
    }
}

} // verus!
