//! Bootstrap layer of a network-booting x86 bootloader: a physical-memory
//! range tracker, a ticket-based mutual-exclusion cell, firmware memory-map
//! sanitization, network-boot structure validation, and an executable-image
//! parser.

pub mod lockcell;
pub mod mm;
pub mod pe;
pub mod pxe;
pub mod rangeset;
