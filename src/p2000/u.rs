//! Message shapes of the 9P2000.u dialect. They are defined for callers
//! that speak it; the server does not dispatch them.
use crate::p2000::{OpenMode, Qid};
use vstd::prelude::*;

verus! {

pub const TOPENFD: u8 = 98;
pub const ROPENFD: u8 = 99;

/// Opens a file and asks for a Unix file descriptor to it.
#[derive(Debug, PartialEq, Eq)]
pub struct Topenfd {
    pub tag: u16,
    pub fid: u32,
    pub mode: OpenMode,
}

/// The opened file's qid, I/O unit and descriptor.
#[derive(Debug, PartialEq, Eq)]
pub struct Ropenfd {
    pub tag: u16,
    pub qid: Qid,
    pub iounit: u32,
    pub unixfd: u32,
}

} // verus!
