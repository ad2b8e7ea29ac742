//! Verified core of a PDF redaction tool: mask colours, image decoding
//! decisions, font code/width tables, resource naming and the
//! bookkeeping that removes painted paths hidden under a mask.

pub mod color;
pub mod content;
pub mod dict;
pub mod document;
pub mod text;
pub mod font;
pub mod image;
pub mod inherit;
pub mod load_guard;
pub mod pages;
pub mod resources;
