//! Sv39 page-table construction for a bare-metal kernel: address types, the
//! page-table-entry layout, a frame allocator, segments and the `Mapping`
//! that builds and edits one address space's tables.

pub mod address;
pub mod entry;
pub mod frame;
pub mod mapping;
pub mod segment;

pub use address::{PhysicalPageNumber, VirtualPageNumber};
pub use entry::{Flags, PageTableEntry};
pub use frame::{FrameAllocator, FrameTracker, MemoryError};
pub use mapping::Mapping;
pub use segment::{MapType, Range, Segment};
