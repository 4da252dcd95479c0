//! A verified codec for a "Library of Babel" cataloguing scheme: arbitrary
//! bytes are transcribed into lowercase text, cut into fixed-length pages over
//! a 29-symbol alphabet, and each page is mapped by closed-form arithmetic to
//! a textual address from which the page can be regenerated exactly.

pub mod address;
pub mod alphabet;
pub mod base36;
pub mod batch;
pub mod bignum;
pub mod byte_text;
pub mod chunker;
pub mod container;
pub mod decimal;
pub mod digits;
pub mod error;
pub mod fields;
pub mod location;
pub mod page;

pub use error::BabelError;
