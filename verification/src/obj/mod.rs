//! Plain value types shared by every component: byte strings, byte buffers,
//! operation status and option bundles.

pub mod byte_buffer;
pub mod options;
pub mod slice;
pub mod status_rs;
