//! The requests that the server takes and the replies that it gives.
pub mod chat;
pub mod config;
pub mod laws;
pub mod rag;
pub mod reply;
pub mod upload;
