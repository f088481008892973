//! A DNS forwarder's wire-format library: headers, questions and answers,
//! their parsers and serializers, and the decisions of the forwarding loop.

pub mod wire;
pub mod header;
pub mod text;
pub mod name;
pub mod question;
pub mod compress;
pub mod answer;
pub mod message;
pub mod forward;
