//! Publishing the notes of a vault that carry the tag `publish`.
//!
//! A note is a Markdown file that may open with a preamble: a YAML document between two lines
//! of three dashes. The notes whose preamble lists the tag `publish` under `tags` are
//! published: the body of each, without the preamble, becomes a file of the same name in the
//! destination directory. Everything else in the vault is left alone, and so are the
//! directories `.obsidian` and `.trash` with all that is beneath them.
//!
//! The library decides and computes; it touches no file. [`note`] splits a note into preamble
//! and body, [`selector`] reads the tags and decides on publication, and [`entry`] holds the
//! rules of the walk for one directory entry and takes one note through the pipeline. A
//! program that walks a vault on disk lists, reads and writes, and asks these three what to
//! do. [`vault`] walks a vault that is held in memory and writes to a [`destination`] that is
//! held in memory too; what holds of every walk is stated and proved there.

pub mod bytes;
pub mod destination;
pub mod entry;
pub mod note;
pub mod selector;
pub mod vault;
