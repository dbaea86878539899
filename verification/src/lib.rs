//! Helpers that serialize a record to JSON text for storage in a file, and
//! read such text back into a typed value.  The codec and the decision logic
//! of the save/load pipeline live here; the file system itself is driven by
//! the surrounding application.

pub mod json;
pub mod record;
pub mod store;

use vstd::prelude::*;

verus! {

/// The error taxonomy that every operation reports.
#[derive(Clone, Copy, PartialEq, Eq, Structural, Debug)]
pub enum StoreError {
    /// The referenced path does not exist.
    NotFound,
    /// The filesystem denied open, create, read or write.
    PermissionOrAccess,
    /// The value cannot be turned into text.
    EncodeFailure,
    /// The file's text is not valid for the requested type.
    DecodeFailure,
    /// A generic read/write failure not classified above.
    IoFailure,
}

/// A filesystem failure, reduced to the kinds the library distinguishes.
/// The application maps the platform's error values onto these.
#[derive(Clone, Copy, PartialEq, Eq, Structural, Debug)]
pub enum IoErrorKind {
    NotFound,
    PermissionDenied,
    InvalidData,
    Other,
}

/// How a failed read is reported: a missing file is `NotFound`, denied
/// access is `PermissionOrAccess`, bytes that are not text decode no
/// further and are a `DecodeFailure`, anything else is a generic failure.
pub open spec fn classified_read(k: IoErrorKind) -> StoreError {
    match k {
        IoErrorKind::NotFound => StoreError::NotFound,
        IoErrorKind::PermissionDenied => StoreError::PermissionOrAccess,
        IoErrorKind::InvalidData => StoreError::DecodeFailure,
        IoErrorKind::Other => StoreError::IoFailure,
    }
}

/// How a failed create or write is reported: a missing parent directory is
/// `NotFound`, denied access is `PermissionOrAccess`, anything else is a
/// generic failure.
pub open spec fn classified_write(k: IoErrorKind) -> StoreError {
    match k {
        IoErrorKind::NotFound => StoreError::NotFound,
        IoErrorKind::PermissionDenied => StoreError::PermissionOrAccess,
        IoErrorKind::InvalidData => StoreError::IoFailure,
        IoErrorKind::Other => StoreError::IoFailure,
    }
}

/// Classifies a failure of the read side.
pub fn classify_read(k: IoErrorKind) -> (e: StoreError)
    ensures
        e == classified_read(k),
{
    match k {
        IoErrorKind::NotFound => StoreError::NotFound,
        IoErrorKind::PermissionDenied => StoreError::PermissionOrAccess,
        IoErrorKind::InvalidData => StoreError::DecodeFailure,
        IoErrorKind::Other => StoreError::IoFailure,
    }
}

/// Classifies a failure of the write side.
pub fn classify_write(k: IoErrorKind) -> (e: StoreError)
    ensures
        e == classified_write(k),
{
    match k {
        IoErrorKind::NotFound => StoreError::NotFound,
        IoErrorKind::PermissionDenied => StoreError::PermissionOrAccess,
        IoErrorKind::InvalidData => StoreError::IoFailure,
        IoErrorKind::Other => StoreError::IoFailure,
    }
}

} // verus!
