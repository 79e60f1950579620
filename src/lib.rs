//! Core of a small bare-metal kernel: a physical frame source, a page-table
//! model, a heap allocator over a fixed virtual region, a cooperative task
//! executor and an interrupt-fed scancode stream.

mod allocator;
mod bounded_queue;
mod executor;
mod frame;
mod heap;
mod mapper;
mod scancode;
mod simple_executor;

pub use allocator::{init_heap, HEAP_PAGES, HEAP_SIZE, HEAP_START, HEAP_TABLES};
pub use bounded_queue::BoundedQueue;
pub use executor::{Executor, IdleAction, TaskWaker};
pub use frame::{BootInfoFrameAllocator, MemoryRegion, PhysicalFrame, PAGE_SIZE};
pub use heap::{Block, Heap};
pub use mapper::{MapToError, Mapper, VirtualPage, FLAG_PRESENT, FLAG_WRITABLE};
pub use scancode::ScancodeStream;
pub use simple_executor::SimpleExecutor;
