//! Text-to-speech pipeline logic: session identity, the hook event parser,
//! sentence splitting, the request/queue protocol, and the worker's text transforms.

pub mod text;
pub mod json;
pub mod sentences;
pub mod session;
pub mod transform;
pub mod queue;
pub mod http;
pub mod config;
pub mod player;
pub mod ingest;
pub mod store;
