//! The extent file system: a journalled file system with extent-mapped files.
pub mod bitmap;
pub mod bulk;
pub mod contents;
pub mod datalog;
pub mod dir;
pub mod dirent;
pub mod dirmodel;
pub mod driver;
pub mod extents;
pub mod file;
pub mod layout;
pub mod model;
pub mod mount;
pub mod moved_dirs;
pub mod moves;
pub mod names;
pub mod new_dirs;
pub mod op_laws;
pub mod ops;
pub mod orphans;
pub mod pages;
pub mod paths;
pub mod prefetch;
pub mod removed_dirs;
pub mod renames;
pub mod replacing;
pub mod space;
pub mod tree;
pub mod truncation;
pub mod write;
