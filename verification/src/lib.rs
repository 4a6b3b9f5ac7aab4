//! Wire-message codec for a chat gateway: a JSON-style value model,
//! a request decoder with method and request-id validation, an
//! active-hint extractor, and the outbound auth/call frame encoders.

pub mod message;
pub mod parse;
pub mod ser;
pub mod value;
