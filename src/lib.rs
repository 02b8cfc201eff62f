//! Packs auxiliary binary blobs with an embedded firmware image.
//!
//! Each blob is either embedded in the executable or loaded into a region
//! carved from the end of the linker script's FLASH declaration. The library
//! reads and evaluates memory declarations, rewrites the one declaration it
//! carves from, lays the loaded blobs out in that space, and writes the
//! accessor source and the manifest that the device loader reads.

pub mod blob_info;
pub mod build_blob;
pub mod checksum;
pub mod link_script_parser;
