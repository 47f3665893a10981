//! Display and interaction core of a small hobby kernel: a double-buffered
//! pixel framebuffer writer, an incremental line-caching text renderer, and a
//! command shell with a modal keyboard-listener stack.

pub mod hex;
pub mod shell;
pub mod vga_buffer;
