//! Errors of the platform layer.
use vstd::prelude::*;

verus! {

#[derive(Debug, Clone, Copy, PartialEq, Eq, Structural)]
pub enum PlatformErrorCode {
    OperationFailed,
    Unsupported,
    AccessDenied,
    InvalidData,
    InvalidPath,
    ItemChanged,
}

/// A failed platform operation: a stable code and a message.
pub struct PlatformError {
    pub code: PlatformErrorCode,
    pub message: String,
}

impl PlatformError {
    pub fn new(code: PlatformErrorCode, message: &str) -> (e: PlatformError)
        ensures
            e.code == code,
            e.message@ == message@,
    {
        PlatformError { code, message: message.to_string() }
    }

    pub fn operation_failed(message: &str) -> (e: PlatformError)
        ensures
            e.code == PlatformErrorCode::OperationFailed,
            e.message@ == message@,
    {
        PlatformError::new(PlatformErrorCode::OperationFailed, message)
    }

    pub fn item_changed(message: &str) -> (e: PlatformError)
        ensures
            e.code == PlatformErrorCode::ItemChanged,
            e.message@ == message@,
    {
        PlatformError::new(PlatformErrorCode::ItemChanged, message)
    }

    pub fn invalid_path(message: &str) -> (e: PlatformError)
        ensures
            e.code == PlatformErrorCode::InvalidPath,
            e.message@ == message@,
    {
        PlatformError::new(PlatformErrorCode::InvalidPath, message)
    }

    pub fn copy(&self) -> (c: PlatformError)
        ensures
            c == *self,
    {
        PlatformError { code: self.code, message: self.message.clone() }
    }
}

} // verus!
