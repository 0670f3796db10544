//! Virtual-memory subsystem of a small x86_64 kernel: an area-based physical
//! frame allocator, the bit-exact page-table-entry model, the four-level
//! recursive mapper, the inactive-table editing protocol, the kernel remap
//! bootstrap, and a guard-paged stack allocator.
//!
//! The machine is modelled explicitly: physical memory holds the page-table
//! frames as arrays of 512 entry words, and the control register that selects
//! the active top-level table is a plain field.  The mapper reaches tables the
//! way the hardware trick does, through the self-referencing slot 511 of the
//! active top-level table.

use vstd::prelude::*;

pub mod active;
pub mod area_allocator;
pub mod color;
pub mod controller;
pub mod entry;
pub mod frame;
pub mod mapper;
pub mod page;
pub mod phys;
pub mod remap;
pub mod stack_allocator;
pub mod temporary;
pub mod walk;

verus! {

/// Size in bytes of one page (virtual) or frame (physical).
pub const PAGE_SIZE: u64 = 4096;

/// Number of entries in a page table of any level.
pub const ENTRY_COUNT: u64 = 512;

/// Bytes of virtual address space covered by one entry of the top-level table.
pub const PML4_SIZE: u64 = 0x0000_0080_0000_0000;

/// Base of the virtual window aliasing the page tables themselves
/// (top-level slot 511).
pub const RECURSIVE_PAGE_OFFSET: u64 = 0xffff_ff80_0000_0000;

/// Base of the higher-half kernel image window (top-level slot 510).
pub const KERNEL_OFFSET: u64 = 0xffff_ff00_0000_0000;

/// Base of the kernel heap window (top-level slot 509).
pub const KERNEL_HEAP_OFFSET: u64 = 0xffff_fe80_0000_0000;

/// Size in bytes of the kernel heap window (100 KiB).
pub const KERNEL_HEAP_SIZE: u64 = 102400;

/// Base of the window for one-shot temporary mappings (top-level slot 508).
pub const KERNEL_TEMP_OFFSET: u64 = 0xffff_fe00_0000_0000;

} // verus!
