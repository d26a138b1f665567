//! Reconstruction of a span tree from a stream of span lifecycle records.
//!
//! A producer appends framed records to a trace file while it runs. This
//! library decodes those frames, replays them onto a store of spans, and keeps
//! per-thread stacks so that every span is charged only for the time in which
//! it was the innermost span of some thread. Reading the file, sleeping and
//! locking are left to the caller.
//!
//! - [`span`], [`store`]: the spans and the store that owns them;
//!   [`store_laws`]: what holds of its aggregates.
//! - [`row`], [`text`]: the records and how their attribute values are
//!   rendered.
//! - [`wire`], [`decode`]: the decoder.
//! - [`replay`]: what a record does, as a function on mathematical values;
//!   [`replay_laws`]: what holds of it; [`reconstruct`]: the code that does
//!   it.
//! - [`reader`]: the reader session, which buffers bytes and applies
//!   records in batches.
//! - [`pattern`], [`request`], [`syntax`]: resolver requests and their
//!   forms.

pub mod decode;
pub mod pattern;
pub mod reader;
pub mod reconstruct;
pub mod replay;
pub mod replay_laws;
pub mod request;
pub mod row;
pub mod span;
pub mod store;
pub mod store_laws;
pub mod syntax;
pub mod text;
pub mod wire;
