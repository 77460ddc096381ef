//! Reconstructs a structured conversation from an exported chat transcript.

pub mod chat;
pub mod datetime;
pub mod laws;
pub mod line;
pub mod text;

pub use chat::{parse_whatsapp_chat, ParsedChat, ParsedMessage, ParsedParticipant};
