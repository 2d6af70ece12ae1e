//! Resumable reading and writing of netstrings, `<decimal length>:<payload>,`,
//! over byte sources and sinks that may deliver or accept any number of bytes
//! per attempt, or none for now.
//!
//! Reading checks, in this order: the length digits (at most twenty; none at
//! all means length zero) and their value against `usize`, the `:`, the
//! capacity of a bounded destination, the payload, the `,`.  Any error leaves
//! the stream inside a frame, so it cannot be read further.  A frame skipped
//! with success leaves the stream at the start of the next frame.
//!
//! - `frame`: the format as a model, length parsing and encoding, and the
//!   laws that relate them.
//! - `decoder`: the read state machine, fed pieces of input.
//! - `encoder`: the write state machine.
//! - `stream`: the source and sink traits and the operations over them.
//! - `memory`: a source and a sink held in memory.
pub mod frame;
pub mod decoder;
pub mod encoder;
pub mod stream;
pub mod memory;
