# edos_fs

The file systems of a small operating system, as a library whose behaviour is stated in
contracts and proved.

* `src/` is the library.
  * `path`, `types`, `text`, `order`, `sorted`, `bytes`: paths, times, names and byte layouts.
  * `block_device`, `block_page_cache`, `shard`, `recency`: a device seen through a cache of pages.
  * `journal`: transactions, the ring they are committed to, and replay after a crash.
  * `efs`: a file system with extents and a journal. `fat32`: FAT12, FAT16 and FAT32. `memfs`: a
    file system in memory. `devfs`: devices as files.
  * `gpt`, `mbr`, `manager`: partition tables, partitions and mounts.
  * `page_cache`, `page_fill`: the pages of files in use.
  * `inode`, `icache`, `dentry`, `evict`, `fifo`, `handle`, `api`: what a kernel keeps of files that
    are open, paths that were looked up, pipes with names, and calls on paths.
* `tests/` runs the library on small images.
* `app/` puts it to work: disk images, the clock, threads and global state.

The functions that carry out an operation state their outcome over functions on a model of the
volume, such as `efs::model::FsState` and `fat32::model::FatState`. What the operations promise
together is stated and proved in public proof functions; most of them are in

* `efs::contents`, `efs::bulk`, `efs::prefetch`, `efs::truncation`, `efs::names`, `efs::renames`,
  `efs::moves`, `efs::new_dirs`, `efs::removed_dirs`, `efs::space`, `efs::orphans`: what is written
  is read back, setting a size keeps what lies below it, files and directories that were made or
  renamed are found and listed and names that were taken away are not, blocks that are given out
  were free, files without a name are on their chain;
* `efs::bitmap`, `efs::extents`: the run of blocks that is taken is the best there is, and a block
  that is mapped joins the extent it adjoins;
* `block_device`, `efs::driver`, `efs::datalog`, `efs::mount`: what reaches the medium and when: file
  data at once, metadata with its transaction, replayed blocks before the volume is mounted;
* `fat32::chains`, `fat32::contents`, `fat32::entry_laws`, `fat32::dir_laws`, `fat32::free_laws`,
  `fat32::size_laws`, `fat32::page_laws`, `fat32::mirror_laws`: the same for FAT, and copies of the
  table that follow the first;
* `journal::recovery`, `journal::checkpoint`, `journal::live`: what was committed is what replay
  restores, a commit that was cut short is not replayed, nothing reaches its home location before
  it is committed or leaves the ring before it is at home;
* `memfs::node`, `memfs::ops`, `page_cache`, `page_fill`, `block_page_cache`, `icache`, `dentry`,
  `evict`, `fifo`, `manager`, `gpt`, `devfs::registry`, `devfs::block`, `path`, `types`.
