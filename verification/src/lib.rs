//! Document chunking, prompt assembly and bookkeeping logic of a local
//! retrieval-augmented knowledge base.
pub mod chunking;
pub mod config;
pub mod documents;
pub mod error;
pub mod models;
pub mod text;
pub mod numfmt;
pub mod ollama;
pub mod parsing;
pub mod rag;
pub mod stats;
