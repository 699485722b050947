//! Filesystem core: on-disk records, the metadata index and block bookkeeping.
pub mod disk;
pub mod btree;
pub mod free_list;
pub mod journal;
pub mod inode_table;
pub mod buffer;
pub mod compress;
pub mod snapshot_disk;
pub mod snapshot;
pub mod layout;
pub mod fsck;
pub mod mount;
pub mod volume;
