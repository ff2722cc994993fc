//! Core of a personal knowledge-base answering pipeline: markdown parsing and
//! chunking, content fingerprinting, an in-memory record store for documents,
//! chunk vectors and conversation turns, exact similarity-ranked retrieval,
//! multi-query fusion, and prompt/context assembly for a generation backend.

pub mod chunker;
pub mod ingest;
pub mod outline;
pub mod parser;
pub mod rag;
pub mod store;
pub mod stream;
pub mod vector;
pub mod text;
pub mod watch;
