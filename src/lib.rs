//! Frames of a line-oriented, type-prefixed protocol, and a connection buffer
//! that turns a byte stream into frames and frames into bytes.
pub mod frame;
pub mod connection;
