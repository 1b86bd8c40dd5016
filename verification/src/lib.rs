//! A partitioned global address space (PGAS) library: a symmetric heap
//! shared by all processing elements (PEs), global pointers into it, and
//! distributed containers built on top.
//!
//! The crate holds the logic of the library: the allocator of the symmetric
//! heap, global pointer arithmetic, the placement of distributed data, and the
//! protocols of the queue, the hash table and the locks, each as a function
//! from what was observed in remote memory to what to do next. Moving bytes
//! between PEs is left to the transport that drives these functions.
pub mod config;
pub mod global_pointer;
pub mod comm;
pub mod global_guard;
pub mod guard_array;
pub mod array;
pub mod containers;
pub mod queue;
pub mod hash_table;
pub mod benchmark;
pub mod container;
pub mod slice;
pub mod utils;
