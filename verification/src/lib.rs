//! Context preparation and Chat Completions payloads for a chat client.
//!
//! A request is prepared in steps: its new messages are selected and normalized, their inline
//! images put on disk, the history and the system prompts joined to them, and the whole is
//! measured against the context budget of the API profile before it is sent. From the prepared
//! messages the payload is built.

pub mod chat_source;
pub mod context;
pub mod error;
pub mod guard;
pub mod images;
pub mod json;
pub mod message;
pub mod normalize;
pub mod payload;
pub mod payload_laws;
pub mod sub_agents;
pub mod system_prompt;
pub mod text;
