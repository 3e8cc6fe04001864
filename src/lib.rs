//! Barcode whitelists: lookup, single-base correction and translation tables,
//! and the barcode compatibility check between sequencing libraries.

pub mod sequence;
pub mod whitelist;
pub mod segment;
pub mod source;
pub mod entry;
pub mod translation;
pub mod reading;
pub mod histogram;
pub mod similarity;
pub mod compatibility;
pub mod text;
pub mod multiplexing;
pub mod vdj_proto;
pub mod beam;
