#![allow(unused_imports)]

pub mod api;
pub mod block_device;
pub mod block_page_cache;
pub mod bytes;
pub mod dentry;
pub mod devfs;
pub mod efs;
pub mod error;
pub mod evict;
pub mod fat32;
pub mod fifo;
pub mod filesystem;
pub mod gpt;
pub mod handle;
pub mod icache;
pub mod inode;
pub mod journal;
pub mod manager;
pub mod mbr;
pub mod memfs;
pub mod order;
pub mod page_cache;
pub mod page_fill;
pub mod path;
pub mod table_laws;
pub mod text;
pub mod types;
pub mod recency;
pub mod shard;
pub mod sorted;
