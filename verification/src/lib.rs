//! Security-labeled storage for a serverless platform: a label algebra, a
//! labeled namespace of files and directories, and the key/value service
//! that stores it.

pub mod dclabel;
pub mod dclabel_helper;
pub mod distributed_db;
pub mod encoding;
pub mod labeled_fs;
pub mod record;
pub mod syscalls;
pub mod workerpool;
