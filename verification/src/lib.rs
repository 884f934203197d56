use vstd::prelude::*;
pub mod efs;
pub mod sched;
pub mod process;
pub mod trap;
pub mod flat_fs;
pub mod kernel;
pub mod link_app;
pub mod makefile;
pub mod mm;
pub mod pipe;
pub mod sync;
pub mod socket;
pub mod net;
pub mod net_laws;
pub mod id;
pub mod vfs;
pub mod inode_alloc;
pub mod inode;
pub mod bitmap;
pub mod layout;
pub mod codec;
pub mod block_cache;
pub mod block_dev;
pub mod lru;
