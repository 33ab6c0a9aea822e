//! Sealing a file and a metadata blob into one authenticated, chunked
//! container, and opening such a container again.

pub mod cipher;
pub mod codec;
pub mod error;
pub mod laws;
pub mod layout;
pub mod seal;
pub mod unseal;
