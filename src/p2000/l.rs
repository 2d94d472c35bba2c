//! Message shapes of the 9P2000.L dialect. They are defined for callers
//! that speak it; the server does not dispatch them.
use crate::p2000::Qid;
use vstd::prelude::*;

verus! {

/// Asks for an authentication file, with a numeric user id.
#[derive(Debug, PartialEq, Eq)]
pub struct Tauth {
    pub tag: u16,
    pub afid: u32,
    pub uname: String,
    pub aname: String,
    pub n_uname: u32,
}

/// Attaches with a numeric user id besides the name.
#[derive(Debug, PartialEq, Eq)]
pub struct Tattach {
    pub tag: u16,
    pub fid: u32,
    pub afid: u32,
    pub uname: String,
    pub aname: String,
    pub n_uname: u32,
}

/// A failed request, with the reason.
#[derive(Debug, PartialEq, Eq)]
pub struct Rlerror {
    pub tag: u16,
    pub ecode: String,
}

/// Asks for file system statistics.
#[derive(Debug, PartialEq, Eq)]
pub struct Tstatfs {
    pub tag: u16,
    pub fid: u32,
}

/// File system statistics.
#[derive(Debug, PartialEq, Eq)]
pub struct Rstatfs {
    pub tag: u16,
    pub fs_type: u32,
    pub bsize: u32,
    pub blocks: u64,
    pub bfree: u64,
    pub bavail: u64,
    pub files: u64,
    pub ffree: u64,
    pub fsid: u64,
    pub namelen: u32,
}

/// Opens a file with Linux open flags.
#[derive(Debug, PartialEq, Eq)]
pub struct Tlopen {
    pub tag: u16,
    pub fid: u32,
    pub flags: u32,
}

/// The answer to `Tlopen`.
#[derive(Debug, PartialEq, Eq)]
pub struct Rlopen {
    pub tag: u16,
    pub fid: u32,
    pub iounit: u32,
}

/// Creates and opens a file with Linux flags and mode.
#[derive(Debug, PartialEq, Eq)]
pub struct Tlcreate {
    pub tag: u16,
    pub fid: u32,
    pub name: String,
    pub flags: u32,
    pub mode: u32,
    pub gid: u32,
}

/// The created file's qid and I/O unit.
#[derive(Debug, PartialEq, Eq)]
pub struct Rlcreate {
    pub tag: u16,
    pub qid: Qid,
    pub iounit: u32,
}

/// Creates a symbolic link.
#[derive(Debug, PartialEq, Eq)]
pub struct Tsymlink {
    pub tag: u16,
    pub fid: u32,
    pub name: String,
    pub symtgt: String,
    pub gid: u32,
}

/// The link's qid.
#[derive(Debug, PartialEq, Eq)]
pub struct Rsymlink {
    pub tag: u16,
    pub qid: Qid,
}

/// Creates a device node.
#[derive(Debug, PartialEq, Eq)]
pub struct Tmknod {
    pub tag: u16,
    pub dfid: u32,
    pub name: String,
    pub mode: u32,
    pub major: u32,
    pub minor: u32,
    pub gid: u32,
}

/// The node's qid.
#[derive(Debug, PartialEq, Eq)]
pub struct Rmknod {
    pub tag: u16,
    pub qid: Qid,
}

/// Moves a file into the directory `dfid` as `name`.
#[derive(Debug, PartialEq, Eq)]
pub struct Trename {
    pub tag: u16,
    pub fid: u32,
    pub dfid: u32,
    pub name: String,
}

/// The answer to `Trename`.
#[derive(Debug, PartialEq, Eq)]
pub struct Rrename {
    pub tag: u16,
}

/// Asks for a symbolic link's target.
#[derive(Debug, PartialEq, Eq)]
pub struct Treadlink {
    pub tag: u16,
    pub fid: u32,
}

/// A symbolic link's target.
#[derive(Debug, PartialEq, Eq)]
pub struct Rreadlink {
    pub tag: u16,
    pub target: String,
}

/// Asks for a file's attributes.
#[derive(Debug, PartialEq, Eq)]
pub struct Tgetattr {
    pub tag: u16,
    pub fid: u32,
    pub request_mask: u64,
}

/// A file's attributes.
#[derive(Debug, PartialEq, Eq)]
pub struct Rgetattr {
    pub tag: u16,
    pub valid: u64,
    pub qid: Qid,
    pub mode: u32,
    pub uid: u32,
    pub gid: u32,
    pub nlink: u64,
    pub rdev: u64,
    pub size: u64,
    pub blksize: u64,
    pub blocks: u64,
    pub atime_sec: u64,
    pub atime_nsec: u64,
    pub mtime_sec: u64,
    pub mtime_nsec: u64,
    pub ctime_sec: u64,
    pub ctime_nsec: u64,
    pub btime_sec: u64,
    pub btime_nsec: u64,
    pub gen: u64,
    pub data_version: u64,
}

/// Sets a file's attributes.
#[derive(Debug, PartialEq, Eq)]
pub struct Tsetattr {
    pub tag: u16,
    pub valid: u32,
    pub mode: u32,
    pub uid: u32,
    pub gid: u32,
    pub size: u64,
    pub atime_sec: u64,
    pub atime_nsec: u64,
    pub mtime_sec: u64,
    pub mtime_nsec: u64,
}

/// The answer to `Tsetattr`.
#[derive(Debug, PartialEq, Eq)]
pub struct Rsetattr {
    pub tag: u16,
}

} // verus!
