//! Text: the font index, the loaded font files, the glyph atlas and what
//! shaping needs around the shaper.

pub mod atlas;
pub mod cache;
pub mod db;
pub mod fallback;
pub mod finding;
pub mod index;
pub mod keeping;
pub mod matching;
pub mod paths;
pub mod residency;
pub mod scan;
pub mod sfnt;
pub mod shaping;
pub mod store;
pub mod wrap;
