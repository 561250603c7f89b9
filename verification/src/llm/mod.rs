//! Decisions of the chat-completion client and the tool-calling session.
pub mod error;
pub mod reply;
pub mod config;
pub mod session;
