//! Placard: an HTML/CSS badge renderer's verified core -- the HTML
//! tokenizer and DOM builder, the raster canvas, and the PNG and lossless
//! WebP encoders.

pub mod adler32;
pub mod bytes;
pub mod crc32;
pub mod families;
pub mod format;
pub mod html;
pub mod http;
pub mod layout;
pub mod net;
pub mod payload;
pub mod canvas;
pub mod chars;
pub mod png;
pub mod property;
pub mod render;
pub mod routes;
pub mod selector;
pub mod style;
pub mod text;
pub mod webp;
