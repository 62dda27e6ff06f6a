//! Streaming chat core: decoding a server-sent event stream of completion
//! patches into text fragments, and the state machine of an interactive
//! chat session that consumes them.

pub mod api;
pub mod decoder;
pub mod reassembly;
pub mod session;
pub mod text;
