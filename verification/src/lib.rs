//! NUMAlloc: the logic of a NUMA-aware memory allocator.
pub mod memory;
pub mod text;
pub mod cpulist;
pub mod platform;
pub mod fuzz_hooks;
pub mod layout;
pub mod size_class;
pub mod freelist;
pub mod interleaving;
pub mod node_heap;
pub mod heap_view;
pub mod heap;
pub mod large_cache;
pub mod large_object;
pub mod thread_heap;
pub mod allocator;
pub mod validate;
pub mod laws;
pub mod guarantees;
pub mod system;
pub mod running;
pub mod ops;
pub mod model;
pub mod rng;
pub mod fuzz;
pub mod corpus;

pub use allocator::NumaAlloc;
