//! A single-writer batching queue: tokenized requests wait in FIFO order until
//! a consumer asks for the next batch, which is assembled under a token budget
//! and an optional request-count budget into flat, backend-ready buffers.
pub mod batch;
pub mod entry;
pub mod external;
pub mod laws;
pub mod queue;
