//! Wire-format packing of DNS header and question fields.
pub mod byte_order;
pub mod error;
pub mod field;
pub mod header;
pub mod layout;
pub mod message;
pub mod question;
pub mod wire;

pub use message::DNSMessage;
