//! Streaming response pipeline for a terminal chat client: decoding a
//! newline-delimited record stream delivered in arbitrary byte chunks,
//! classifying record content into reasoning and answer segments, and
//! assembling the segments into one growing conversation message with
//! token-count tracking.

pub mod api;
pub mod assemble;
pub mod classify;
pub mod config;
pub mod decode;
pub mod events;
pub mod markdown;
pub mod models;
pub mod storage;
pub mod text;
pub mod tokens;

pub use tokens::count_conversation_tokens;
pub use tokens::count_message_tokens;
pub use tokens::estimate_tokens;
pub use tokens::remaining_tokens;
