//! Bitmap fonts for the GBA: the binary font format, text measuring and
//! wrapping, glyph sheet conversion, font declaration arguments, and
//! tile/sprite staging of rendered text.

pub mod metrics;
pub mod font;
pub mod lines;
pub mod blob;
pub mod printable;
pub mod full;
pub mod slot;
pub mod pixels;
pub mod parsing;
pub mod text_format;
pub mod create;
pub mod common;
pub mod edit;
pub mod update;
pub mod arg_tokens;
pub mod macro_args;
pub mod font_decl;
pub mod paste_back;
pub mod tiles;
pub mod renderer;
pub mod layout;
pub mod text_renderer;
pub mod typewriter;
pub mod multi_typewriter;
pub mod sprite;
pub mod sprite_renderer;
pub mod laws;
