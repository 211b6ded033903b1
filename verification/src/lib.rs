//! Batch subtitle translation library.
//!
//! The library turns an ordered list of `(index, text)` subtitle entries
//! into translated pairs through a line-oriented wire protocol: an
//! endpoint adapter binds a base URL to one request dialect, a codec
//! encodes batches and decodes free-form model responses, a tag validator
//! guards the styling directives embedded in subtitle text, a resumable
//! orchestrator schedules batches with bounded concurrency and capped
//! retries, and a streaming decoder emits entries as their protocol lines
//! complete.  The subtitle file formats themselves are parsed and written
//! by the `subtitle`, `ass` and `srt` modules.

pub mod ass;
pub mod codec;
pub mod endpoint;
pub mod orchestrator;
pub mod srt;
pub mod stream;
pub mod subtitle;
pub mod tags;
pub mod text;
