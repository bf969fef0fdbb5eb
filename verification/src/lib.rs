//! A declarative file manager: manifests say what is to be at which path, and
//! the library brings the file system into that state.
//!
//! The library decides and a driver acts. An operation is a [`program`] that
//! asks for one [`action`] after the other and goes on with the replies, so its
//! contract says exactly what it asks for on which replies, and what it returns.
//!
//! - [`manifest`], [`order`], [`read`], [`merge`] and [`split`] hold what is known
//!   of manifests: their entries and rules, the order in which entries are
//!   applied, how a manifest is taken in, merged, and held against another.
//! - [`file_util`] is about one entry, [`batch`] and [`apply`] about many, and
//!   [`diff`] about the step from one manifest to the next.
//! - [`written`] is about manifests as they are written, [`kept`] about what
//!   entries keep of what they see, and [`choice`] about what `clobber` decides.
//! - [`conduct`] states what operations never ask for. [`model`], [`effect`],
//!   [`making`] and [`attain`] state what those on one entry make of a file
//!   system, [`whole`] what whole manifests do, and [`refresh`], [`leftover`],
//!   [`protect`] and [`delta`] what the step from one manifest to the next does.
//! - [`progress`] states what it is to ask only for what can be done and to be let
//!   down in nothing. [`success`], [`sequel`] and [`course`] state what comes of
//!   operations then: of those on one entry, of one after the other, and of many.
//! - [`meaning`] and [`terms`] say of nodes and settings directly what entries and
//!   manifests mean.
//! - [`path`], [`text`], [`message`], [`temporary`] and [`cli`] are about paths,
//!   words, random names, and the command line.
use vstd::prelude::*;

pub mod action;
pub mod apply;
pub mod attain;
pub mod batch;
pub mod choice;
pub mod cli;
pub mod conduct;
pub mod course;
pub mod delta;
pub mod diff;
pub mod effect;
pub mod file_util;
pub mod kept;
pub mod leftover;
pub mod making;
pub mod manifest;
pub mod meaning;
pub mod merge;
pub mod message;
pub mod model;
pub mod order;
pub mod path;
pub mod program;
pub mod progress;
pub mod protect;
pub mod read;
pub mod refresh;
pub mod sequel;
pub mod split;
pub mod success;
pub mod temporary;
pub mod terms;
pub mod text;
pub mod whole;
pub mod written;

verus! {

/// The newest version of the manifest format that is read.
pub const VERSION: u64 = 3;

} // verus!
