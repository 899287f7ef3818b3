//! Local-first document retrieval for a grounded chat assistant.
pub mod agent;
pub mod agent_laws;
pub mod api;
pub mod calc;
pub mod calc_laws;
pub mod calc_order_laws;
pub mod config;
pub mod json;
pub mod models;
pub mod numbers;
pub mod numbers_laws;
pub mod order;
pub mod rag;
pub mod search;
pub mod search_laws;
pub mod sessions;
pub mod text;
pub mod text_laws;
pub mod tools;
pub mod tools_laws;
pub mod words;
