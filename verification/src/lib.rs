//! KiCase: reading KiCad board documents and deciding how an enclosure is
//! laid out on the board's user layers.
//!
//! - [`sexpr`]: the board document reader, full and selective; [`selective`]:
//!   why the selective reader keeps what a full read gives; [`writing`]: why
//!   a value written out reads back as itself.
//! - [`board`]: the layer table, the layers in use, and the graphics and
//!   footprints an enclosure reads.
//! - [`layers`]: choosing the user layers the enclosure claims.
//! - [`model`]: what each drawn shape and each project entry comes to.
//! - [`config`], [`paths`], [`model_paths`]: the project file's entries, where
//!   output goes, and model path variables.
//! - [`report`], [`designer`], [`watcher`], [`rename`]: what the command line
//!   and the designer window report, when the board changed, and naming
//!   layers through KiCad's Python.

pub mod board;
pub mod config;
pub mod designer;
pub mod layers;
pub mod model;
pub mod model_paths;
pub mod paths;
pub mod rename;
pub mod report;
pub mod selective;
pub mod sexpr;
pub mod source;
pub mod text;
pub mod writing;
pub mod watcher;
