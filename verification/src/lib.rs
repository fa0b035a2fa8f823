//! Firmware memory images: a sparse, sector-based byte store over a 32-bit
//! address space, the bookkeeping of written address ranges, and codecs for
//! Intel HEX and Motorola S-record text lines.
//!
//! - `memory_map`: the byte store, with the laws of reading and writing.
//! - `address_range`, `range`, `tracker`: spans of addresses and their merging.
//! - `hex_text`, `framing`: hexadecimal text, checksums and addresses of records.
//! - `intel_hex`, `srecord`: reading, writing and loading of record lines.
//! - `data_manager`, `hex_manager`: the image stores.
//! - `options`: the options of the command line.
//! - `error`: the errors of the codecs and the store.

pub mod error;
pub mod address_range;
pub mod range;
pub mod tracker;
pub mod memory_map;
pub mod hex_text;
pub mod framing;
pub mod intel_hex;
pub mod srecord;
pub mod data_manager;
pub mod hex_manager;
pub mod options;
