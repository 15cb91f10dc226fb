//! Core of a desktop assistant that streams chat-completion responses.
//!
//! The heart of the crate is an incremental decoder for Server-Sent-Events
//! (SSE) framed chat-completion streams: bytes arrive in arbitrarily split
//! chunks, are buffered and cut into newline-delimited lines, each line is
//! classified as a content delta, an end-of-generation sentinel, or ignorable
//! noise, and the resulting text fragments are handed out one per pull, in
//! server order.

pub mod classify;
pub mod config;
pub mod decoder;
pub mod frame;
pub mod json;
pub mod screenshot;
pub mod unicode;
