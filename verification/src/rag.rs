//! Retrieval: chunking, keyword search, embeddings, fusion, the store, and the
//! state that ties them together.
pub mod bm25;
pub mod bm25_laws;
pub mod chunk;
pub mod chunk_laws;
pub mod context;
pub mod context_laws;
pub mod embed;
pub mod history_laws;
pub mod hybrid;
pub mod hybrid_laws;
pub mod laws;
pub mod pack;
pub mod rebuild;
pub mod rebuild_laws;
pub mod score;
pub mod score_laws;
pub mod split_laws;
pub mod store;
pub mod store_laws;
pub mod system;
pub mod term_laws;
pub mod types;

pub use crate::rag::context::build_context;
pub use crate::rag::system::{retrieve, RagSystem, RetrievalResult};
pub use crate::rag::types::{Hit, RagConfig, RetrievalMode};
