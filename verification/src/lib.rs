//! Boot-time physical-memory bootstrap for a freestanding kernel.
//!
//! The crate models and verifies the subsystem that consumes a
//! firmware-supplied physical memory map, hands out 4096-byte physical
//! frames, installs virtual-to-physical mappings in a four-level page
//! table, and brings up the global heap arena that serves all dynamic
//! allocation afterwards. Hardware access (control registers, raw table
//! memory, port I/O) lives outside this crate behind a thin platform
//! layer; the decisions it executes are made and proved here.

pub mod arena;
pub mod display;
pub mod frames;
pub mod heap;
pub mod paging;
pub mod workload;
