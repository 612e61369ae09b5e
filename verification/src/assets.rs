//! Game art: palettes, 2bpp tiles, images, ROM scanning and asset packs.
pub mod palette;
pub mod tile;
pub mod image;
pub mod rom;
pub mod file;
pub mod pack;
pub mod profile;
pub mod loader;

pub use file::{sniff, FileKind};
pub use loader::{apply_profile_imports, load, LoadReport};
