//! Interpretation of HTTP partial-content exchanges: building `Range`
//! request headers, classifying `206 Partial Content` responses, scanning
//! `multipart/byteranges` bodies, and reconstructing a sparse, seekable
//! view of the underlying resource in which un-fetched regions read as
//! zero bytes.

pub mod ascii;
pub mod request;
pub mod response;
pub mod shim;
pub mod sparse;
