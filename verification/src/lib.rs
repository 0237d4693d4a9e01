//! Compressed column data, located, planned and checked.

pub mod array;
pub mod backend;
pub mod byte_parts;
pub mod codec;
pub mod collect;
pub mod compact;
pub mod compressor;
pub mod decimal_scheme;
pub mod fixture;
pub mod launch;
pub mod limbs;
pub mod locality;
pub mod metadata;
pub mod nvcomp;
pub mod page_header;
pub mod plan;
pub mod run;
pub mod scan;
pub mod snappy;
pub mod wide;
pub mod written;
pub mod writer;
