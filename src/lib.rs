//! Shadow-memory address sanitizer runtime: the shadow encoding, the
//! allocator's bookkeeping, the access-check code blobs and the pieces of the
//! fault report, each with a proved contract.

pub mod shadow;
pub mod tables;
pub mod allocator;
pub mod blobs;
pub mod maps;
pub mod runtime;
pub mod report;
