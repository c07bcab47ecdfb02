//! Text chunking strategies.
pub mod chunk;
pub mod semantic;
pub mod sentences;
pub mod points;
pub mod agentic;
pub mod prompt;
pub mod fixed;
pub mod recursive;
pub mod structural;
pub mod strategies;
pub mod bounds;
pub mod numbering;
pub mod sentence_ends;
pub mod sizes;
pub mod grouping;
pub mod blank;
pub mod topics;
