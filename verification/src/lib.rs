pub mod bytes;
pub mod codec;
pub mod distance;
pub mod engine;
pub mod index;
pub mod query;
pub mod schema;
pub mod tokenize;
pub mod types;
