//! Guest physical memory backed by memory that is mapped into this process.

pub mod address;
pub mod guest_memory;
pub mod host_memory;
pub mod laws;
pub mod meaning;
pub mod mmap;
pub mod ports;
pub mod volatile_memory;

pub use address::{GuestAddress, GuestUsize, MemoryRegionAddress};
pub use guest_memory::Error;
pub use host_memory::{HostArea, HostMemory};
pub use mmap::{
    GuestMemoryMmap, GuestRegionMmap, MapRequest, MmapError, MmapRegion, RegionVisitor, VisitorFn,
};
pub use ports::{ByteSink, ByteSource, SinkFn, SourceFn};
pub use volatile_memory::VolatileSlice;
