pub mod allocator;
pub mod queue;
pub mod task;
pub mod vga_buffer;
