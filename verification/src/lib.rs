//! Single-threaded echo-server core built on a completion-based I/O model.
//!
//! The crate has two verified parts: a handle table (`slab`) that stores one
//! entry per outstanding asynchronous operation, and the connection state
//! machine (`server`) that decides, for each completion the kernel reports,
//! how the connection advances and what must be submitted next.  The kernel
//! ring itself is driven by an unverified shell around this library.

pub mod server;
pub mod slab;
