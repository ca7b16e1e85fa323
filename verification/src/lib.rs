//! Building blocks for Internet Computer canisters: chunked upload buffers,
//! HTTP request routing helpers, a named-model registry, and a keyed byte
//! store, each specified and verified with Verus.

pub mod assoc;
pub mod candle;
pub mod large_objects;
pub mod http;
pub mod model_server;
pub mod storage;
pub mod text;
pub mod text_generation;
