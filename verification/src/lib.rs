//! Word-segmented binary messages and their packed stream encoding.
//!
//! The crate has three layers. [`io`] holds byte sources and sinks together
//! with the buffered streams that expose a read or write window. [`packed`]
//! states the packed byte format as mathematical functions on byte sequences
//! and proves its laws; [`serialize_packed`] holds the streaming encoder and
//! decoder that are verified against it. [`arena`] and [`message`] hold the
//! segmented message containers, and [`serialize`] frames a message's
//! segments for output.

pub mod common;
pub mod packed;
pub mod io;
pub mod serialize_packed;
pub mod arena;
pub mod layout;
pub mod message;
pub mod serialize;

