# vm-memory

The physical memory of a guest, backed by memory that is mapped into this process.

- `src/address.rs`: guest addresses, and offsets inside a region.
- `src/host_memory.rs`: the areas of this process's memory that were mapped, and copying.
- `src/volatile_memory.rs`: bounds-checked slices of host memory.
- `src/guest_memory.rs`: what guest memory is: the layout of regions, and the bytes that the guest
  sees through them.
- `src/mmap/`: mappings (`mapping.rs`), regions of guest memory (`region.rs`), and the memory of a
  guest: its creation and its regions (`memory.rs`), reading and writing (`access.rs`), and transfers
  from a source or to a sink (`stream.rs`).
- `src/laws.rs`: what holds of guest memory as a whole, such as that a read gives what was written.
- `app/`: the system calls. It maps memory and lends it to the library.

Mappings, regions and guest memory are handles without bytes of their own. An access names the
`HostMemory` in which the bytes are, so that every contract can say what it reads and what it changes.
