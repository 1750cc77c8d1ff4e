//! A byte-stream escape scanner.
//!
//! The library copies an input byte span into an output buffer while
//! substituting a small fixed set of bytes with replacement strings,
//! as a templating engine does when escaping rendered text. The scanner
//! walks the input in 16-byte blocks, classifies each block with a
//! bitmask of candidate positions, and pays per-byte cost only at the
//! candidates; unescaped runs are flushed to the buffer in bulk.

pub mod model;
pub mod scanner;
pub mod sink;
pub mod table;
