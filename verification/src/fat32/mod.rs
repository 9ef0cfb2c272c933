//! FAT12, FAT16 and FAT32.
pub mod chains;
pub mod contents;
pub mod dir_laws;
pub mod driver;
pub mod entry;
pub mod entry_laws;
pub mod free_laws;
pub mod mirror_laws;
pub mod model;
pub mod names;
pub mod op_laws;
pub mod ops;
pub mod page_cache;
pub mod page_laws;
pub mod path_laws;
pub mod read;
pub mod size_laws;
pub mod structures;
pub mod table;
pub mod traverse;
pub mod write;
