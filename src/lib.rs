//! Boot-to-kernel handoff: firmware memory map, identity paging,
//! physical frame allocation and framebuffer drawing.
pub mod efi;
pub mod font;
pub mod graphics;
pub mod memory;
pub mod ui;
