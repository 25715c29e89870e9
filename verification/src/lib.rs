//! Verified core of a PPW-curve vector/raster illustration editor.

pub mod canvas_select;
pub mod clipboard;
pub mod curve;
pub mod document;
pub mod history;
pub mod path;
pub mod selection;
pub mod shape_util;
pub mod shortcuts;
pub mod svg_data;
pub mod svg_document;
pub mod svg_reload;
pub mod svg_lines;
pub mod svg_reader;
pub mod svg_tags;
pub mod text;
pub mod tools;
pub mod wheel;
