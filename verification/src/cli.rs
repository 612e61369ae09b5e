//! The desktop harness's own logic: its options, walk scripts, map glyphs
//! and the PNG writer it saves frames with.
pub mod png;
pub mod harness;
