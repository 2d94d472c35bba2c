//! The 9P2000 data types: qid types, file modes, open modes, qids and stat
//! records, with the permission rules that the server applies to them.
use vstd::prelude::*;

pub mod l;
pub mod u;

verus! {

/// The tag that marks a message whose tag does not matter (`Tversion`).
pub const NOTAG: u16 = 0xFFFF;

/// The fid that stands for "no fid" (`Tattach`'s `afid`).
pub const NOFID: u32 = 0xFFFF_FFFF;

/// Qid type bits.
pub const QTDIR: u8 = 0x80;
pub const QTAPPEND: u8 = 0x40;
pub const QTEXCL: u8 = 0x20;
pub const QTAUTH: u8 = 0x08;
pub const QTTMP: u8 = 0x04;
pub const QTFILE: u8 = 0x00;

/// File mode type bits: the qid type bits moved to the top byte.
pub const DMDIR: u32 = 0x8000_0000;
pub const DMAPPEND: u32 = 0x4000_0000;
pub const DMEXCL: u32 = 0x2000_0000;
pub const DMAUTH: u32 = 0x0800_0000;
pub const DMTMP: u32 = 0x0400_0000;

/// File mode permission bits.
pub const OWNER_READ: u32 = 0x100;
pub const OWNER_WRITE: u32 = 0x80;
pub const OWNER_EXEC: u32 = 0x40;
pub const GROUP_READ: u32 = 0x20;
pub const GROUP_WRITE: u32 = 0x10;
pub const GROUP_EXEC: u32 = 0x8;
pub const OTHER_READ: u32 = 0x4;
pub const OTHER_WRITE: u32 = 0x2;
pub const OTHER_EXEC: u32 = 0x1;

/// Open mode access kinds (the two low bits) and flags.
pub const OREAD: u8 = 0;
pub const OWRITE: u8 = 1;
pub const ORDWR: u8 = 2;
pub const OEXEC: u8 = 3;
pub const OTRUNC: u8 = 0x10;
pub const ORCLOSE: u8 = 0x40;

/// The type of a file, as carried in a qid.
#[derive(Debug, Clone, Copy, PartialEq, Eq, Structural)]
pub struct FileType {
    pub bits: u8,
}

/// A file's type and permission bits.
#[derive(Debug, Clone, Copy, PartialEq, Eq, Structural)]
pub struct FileMode {
    pub bits: u32,
}

/// The mode in which a file is opened.
#[derive(Debug, Clone, Copy, PartialEq, Eq, Structural)]
pub struct OpenMode {
    pub bits: u8,
}

impl FileType {
    pub fn bits(&self) -> (r: u8)
        ensures
            r == self.bits,
    {
        self.bits
    }

    /// The qid type of a file with mode `mode`: the mode's top byte.
    pub open spec fn spec_from_mode(mode: FileMode) -> FileType {
        FileType { bits: (mode.bits / 0x100_0000) as u8 }
    }

    pub fn from_mode(mode: FileMode) -> (r: FileType)
        ensures
            r == FileType::spec_from_mode(mode),
    {
        FileType { bits: (mode.bits / 0x100_0000) as u8 }
    }
}

impl FileMode {
    pub fn bits(&self) -> (r: u32)
        ensures
            r == self.bits,
    {
        self.bits
    }

    pub open spec fn has(self, flag: u32) -> bool {
        self.bits & flag == flag
    }

    /// Whether every bit of `flag` is set.
    pub fn contains(&self, flag: u32) -> (r: bool)
        ensures
            r == self.has(flag),
    {
        self.bits & flag == flag
    }

    pub open spec fn spec_is_dir(self) -> bool {
        self.bits >= DMDIR
    }

    pub fn is_dir(&self) -> (r: bool)
        ensures
            r == self.spec_is_dir(),
    {
        self.bits >= DMDIR
    }
}

impl OpenMode {
    pub fn bits(&self) -> (r: u8)
        ensures
            r == self.bits,
    {
        self.bits
    }

    /// The access kind: the two low bits.
    pub open spec fn access(self) -> u8 {
        self.bits % 4
    }

    pub open spec fn spec_is_readable(self) -> bool {
        self.access() == OREAD || self.access() == ORDWR
    }

    pub open spec fn spec_is_writable(self) -> bool {
        self.access() == OWRITE || self.access() == ORDWR
    }

    pub open spec fn spec_truncates(self) -> bool {
        (self.bits / OTRUNC) % 2 == 1
    }

    pub open spec fn spec_removes_on_close(self) -> bool {
        (self.bits / ORCLOSE) % 2 == 1
    }

    /// Whether the mode means a file is, or is asked to be, readable.
    pub fn is_readable(&self) -> (r: bool)
        ensures
            r == self.spec_is_readable(),
    {
        let lower = self.bits % 4;
        lower == OREAD || lower == ORDWR
    }

    /// Whether the mode means a file is, or is asked to be, writable.
    pub fn is_writable(&self) -> (r: bool)
        ensures
            r == self.spec_is_writable(),
    {
        let lower = self.bits % 4;
        lower == OWRITE || lower == ORDWR
    }

    /// Whether the mode asks for the file to be truncated.
    pub fn truncates(&self) -> (r: bool)
        ensures
            r == self.spec_truncates(),
    {
        (self.bits / OTRUNC) % 2 == 1
    }

    /// Whether the mode asks for the file to be removed when its fid is clunked.
    pub fn removes_on_close(&self) -> (r: bool)
        ensures
            r == self.spec_removes_on_close(),
    {
        (self.bits / ORCLOSE) % 2 == 1
    }
}

/// A file's identity as the server reports it.
#[derive(Debug, Clone, Copy, PartialEq, Eq, Structural)]
pub struct Qid {
    pub file_type: FileType,
    pub version: u32,
    pub path: u64,
}

/// A file's metadata record.
#[derive(Debug, PartialEq, Eq)]
pub struct Stat {
    pub type_: u16,
    pub dev: u32,
    pub qid: Qid,
    pub mode: FileMode,
    pub atime: u32,
    pub mtime: u32,
    pub length: u64,
    pub name: String,
    pub uid: String,
    pub gid: String,
    pub muid: String,
}

/// What a `Stat` holds, with its strings as character sequences.
pub struct StatView {
    pub type_: u16,
    pub dev: u32,
    pub qid: Qid,
    pub mode: FileMode,
    pub atime: u32,
    pub mtime: u32,
    pub length: u64,
    pub name: Seq<char>,
    pub uid: Seq<char>,
    pub gid: Seq<char>,
    pub muid: Seq<char>,
}

impl View for Stat {
    type V = StatView;

    open spec fn view(&self) -> StatView {
        StatView {
            type_: self.type_,
            dev: self.dev,
            qid: self.qid,
            mode: self.mode,
            atime: self.atime,
            mtime: self.mtime,
            length: self.length,
            name: self.name@,
            uid: self.uid@,
            gid: self.gid@,
            muid: self.muid@,
        }
    }
}

/// Readable by `user`: by others, or by the owner when `user` owns it.
pub open spec fn spec_readable_for(mode: FileMode, uid: Seq<char>, user: Seq<char>) -> bool {
    mode.has(OTHER_READ) || (mode.has(OWNER_READ) && uid == user)
}

/// Writable by `user`: by others, or by the owner when `user` owns it.
pub open spec fn spec_writable_for(mode: FileMode, uid: Seq<char>, user: Seq<char>) -> bool {
    mode.has(OTHER_WRITE) || (mode.has(OWNER_WRITE) && uid == user)
}

/// Makes an owned copy of a string.
pub fn copy_string(s: &String) -> (r: String)
    ensures
        r@ == s@,
{
    s.as_str().to_owned()
}

impl Stat {
    /// Whether the record grants the permission `other` to everyone, or
    /// `owner` to `user` as the owner.
    fn perm_for(&self, other: u32, owner: u32, user: &String) -> (r: bool)
        ensures
            r == (self.mode.has(other) || (self.mode.has(owner) && self.uid@ == user@)),
    {
        self.mode.contains(other) || (self.mode.contains(owner) && self.uid == *user)
    }

    /// Whether the record says `user` may read the file (group bits are not
    /// consulted).
    pub fn readable_for(&self, user: &String) -> (r: bool)
        ensures
            r == spec_readable_for(self.mode, self.uid@, user@),
    {
        self.perm_for(OTHER_READ, OWNER_READ, user)
    }

    /// Whether the record says `user` may write the file (group bits are not
    /// consulted).
    pub fn writable_for(&self, user: &String) -> (r: bool)
        ensures
            r == spec_writable_for(self.mode, self.uid@, user@),
    {
        self.perm_for(OTHER_WRITE, OWNER_WRITE, user)
    }

    /// A field-by-field copy.
    pub fn copy(&self) -> (r: Stat)
        ensures
            r@ == self@,
    {
        Stat {
            type_: self.type_,
            dev: self.dev,
            qid: self.qid,
            mode: self.mode,
            atime: self.atime,
            mtime: self.mtime,
            length: self.length,
            name: copy_string(&self.name),
            uid: copy_string(&self.uid),
            gid: copy_string(&self.gid),
            muid: copy_string(&self.muid),
        }
    }
}

} // verus!
