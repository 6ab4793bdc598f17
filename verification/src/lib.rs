//! A small x86-64 hobby operating system: the frame-buffer description
//! handed from the boot loader to the kernel, pixel and glyph rendering into
//! a frame buffer, the kernel's boot screen, the boot loader's ELF load plan,
//! and the BDF font converter.

pub mod frame_buffer_config;
pub mod pixel_color;
pub mod pixel_writer;
pub mod loader;
pub mod font;
pub mod font_writer;
pub mod kernel;
pub mod bdf;
pub mod bdf_laws;
