//! The message model and its codecs, one module per section of a message.

pub mod additional;
pub mod answer;
pub mod authority;
pub mod bits;
pub mod buffer;
pub mod common;
pub mod header;
pub mod labels;
pub mod message;
pub mod question;
pub mod responder;
pub mod text;
