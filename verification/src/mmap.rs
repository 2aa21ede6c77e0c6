//! Guest memory whose regions are mapped into this process.
//!
//! - [`MmapRegion`]: a continuous mapping in this process.
//! - [`GuestRegionMmap`]: such a mapping together with the guest address at which it starts.
//! - [`GuestMemoryMmap`]: a collection of such regions, which makes up the memory of a guest.

pub mod access;
pub mod mapping;
pub mod memory;
pub mod region;
pub mod stream;
pub mod transfer;
pub mod visit;

pub use mapping::{MapRequest, MmapRegion};
pub use memory::{GuestMemoryMmap, MmapError};
pub use region::GuestRegionMmap;
pub use visit::{RegionVisitor, VisitorFn};
