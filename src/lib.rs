//! File transfer over a reliable byte stream: a header record, a delimiter
//! byte and the payload, checked against an md5 digest on arrival.

pub mod framing;
pub mod header;
pub mod digest;
pub mod session;
pub mod echo;
