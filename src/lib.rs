//! A content-addressable object store in the layout of a version-control
//! system's storage: blobs, trees and commits identified by the SHA-1 digest
//! of their canonical encoding, and stored zlib-compressed.

pub mod codec;
pub mod commit;
pub mod error;
pub mod listing;
pub mod store;
pub mod tree;
mod trusted;

