//! Layout of the details and tree views of a file listing: which rows are
//! shown for a tree of files, how single-child directory chains collapse
//! into one row, how the files of leaf directories are laid out as a grid,
//! and which tree-drawing parts precede each row.

pub mod width;
pub mod cell;
pub mod tree;
pub mod leaf;
pub mod model;
pub mod details;
