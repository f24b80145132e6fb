//! Turns collapsed stack samples into a flame graph: an image in which the
//! width of a frame shows the share of the samples that passed through it.
//!
//! The modules follow the way from the text to the image. `line` reads one
//! sample line. `profile` says what a set of lines tells of a call path, and
//! is what the rest is held to. `tree` merges the lines into the call tree,
//! `layout` places the nodes of the tree on the image, `paint` gives each
//! frame its color, and `svg` writes the image. `graph` does all of this in
//! turn. `color` has the palettes, `palette_map` keeps colors the same from
//! run to run, `attrs` reads attributes for the frames of chosen functions,
//! `options` holds the settings, and `text` has what the others need to
//! handle bytes as text. `pretty` shows that asking for a document that is
//! easy to read changes nothing in it but line feeds, and `order` that the
//! image does not depend on the order of the lines.

pub mod attrs;
pub mod color;
pub mod graph;
pub mod layout;
pub mod line;
pub mod options;
pub mod order;
pub mod paint;
pub mod palette_map;
pub mod pretty;
pub mod profile;
pub mod svg;
pub mod text;
pub mod tree;
