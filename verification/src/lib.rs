//! The core of a 7z archive engine: the container with its start header and end
//! header, the chain of coders of a block, the skippable frames of Brotli and LZ4, and
//! AES-256 with a key derived by SHA-256.
//!
//! The engine works on bytes in memory and on plain values. Reading and writing files
//! and streams is left to the caller, who drives the state machines of this crate or
//! hands it whole pack streams.

pub mod aes;
pub mod archive;
pub mod archive_laws;
pub mod bits;
pub mod brotli;
pub mod buf;
pub mod codec;
pub mod coder;
pub mod collect;
pub mod compress;
pub mod container;
pub mod counting_writer;
pub mod crc;
pub mod decoder;
pub mod encoder;
pub mod entries;
pub mod entry_laws;
pub mod error;
pub mod finish;
pub mod frame;
pub mod frame_laws;
pub mod frames;
pub mod header_laws;
pub mod header_parse;
pub mod header_read;
pub mod header_spec;
pub mod header_write;
pub mod le;
pub mod lemmas;
pub mod lz4;
pub mod method;
pub mod open;
pub mod open_laws;
pub mod options;
pub mod password;
pub mod pipeline;
pub mod pipeline_laws;
pub mod reader;
pub mod seek;
pub mod start_header;
pub mod step;
pub mod uint64;
pub mod writer;
