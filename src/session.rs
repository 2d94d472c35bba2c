//! A session: the fids a client holds, each bound to a node of the tree and
//! perhaps opened, and the operations that 9P2000 requests perform on them.
use crate::errors::{rerr, ServerError};
use crate::p2000::{FileMode, OpenMode, Qid, Stat, StatView, NOFID};
use crate::tree::{
    open_allowed, tree_create_post, tree_open_post, tree_read_post, tree_remove_post,
    tree_wstat_post, tree_write_post, walk_paths, File, FileTree, User,
};
use crate::wire::views_of;
use std::collections::HashMap;
use vstd::prelude::*;

verus! {

broadcast use vstd::std_specs::hash::group_hash_axioms;

/// How a fid was opened, and where the last read of it ended.
#[derive(Debug, Clone, Copy, PartialEq, Eq, Structural)]
pub struct OpenView {
    pub mode: OpenMode,
    pub last_offset: u64,
}

/// What a fid is bound to: a node of the tree, and how it was opened.
#[derive(Debug, Clone, Copy, PartialEq, Eq, Structural)]
pub struct FileHandle {
    pub file: u64,
    pub open: Option<OpenView>,
}

/// Whether the node at `path` can be removed from `fs`.
pub open spec fn removable(fs: Map<u64, File>, path: u64) -> bool {
    path != 0 && fs.contains_key(path) && fs[path].children@.len() == 0
}

impl FileHandle {
    /// A handle bound to `file`, not opened.
    pub fn new(file: u64) -> (r: Self)
        ensures
            r.file == file,
            r.open is None,
    {
        FileHandle { file, open: None }
    }

    /// Readable at `offset`: opened for reading, and, for a directory, at
    /// offset 0 or where the last read ended.
    pub open spec fn spec_is_readable(self, offset: u64, fs: Map<u64, File>) -> bool {
        match self.open {
            None => false,
            Some(view) => view.mode.spec_is_readable() && fs.contains_key(self.file) && (
            !fs[self.file].spec_is_dir() || view.last_offset == offset || offset == 0),
        }
    }

    pub fn is_readable(&self, offset: u64, file_tree: &FileTree) -> (r: bool)
        ensures
            r == self.spec_is_readable(offset, file_tree.all_files@),
    {
        match self.open {
            None => false,
            Some(view) => if view.mode.is_readable() {
                match file_tree.get(self.file) {
                    Some(file) => file.is_file() || (view.last_offset == offset || offset == 0),
                    None => false,
                }
            } else {
                false
            },
        }
    }

    pub open spec fn spec_is_writable(self) -> bool {
        self.open matches Some(view) && view.mode.spec_is_writable()
    }

    /// Opened for writing.
    pub fn is_writable(&self) -> (r: bool)
        ensures
            r == self.spec_is_writable(),
    {
        match self.open {
            Some(view) => view.mode.is_writable(),
            None => false,
        }
    }

    /// Creates `name` in the directory this unopened handle is bound to,
    /// then binds the handle to the new file, opened in `mode`.
    pub fn create(
        &mut self,
        user: &String,
        name: &String,
        perm: FileMode,
        mode: OpenMode,
        tree: &mut FileTree,
    ) -> (r: Result<u64, ServerError>)
        requires
            old(tree).wf(),
        ensures
            r matches Err(e) ==> e is NonFatal,
            final(tree).wf(),
            old(self).open is Some ==> r is Err && *final(self) == *old(self)
                && final(tree).all_files@ == old(tree).all_files@
                    && final(tree).last_path == old(tree).last_path,
            old(self).open is None ==> tree_create_post(
                old(tree).all_files@,
                old(tree).last_path,
                final(tree).all_files@,
                final(tree).last_path,
                old(self).file,
                user@,
                name@,
                perm,
                r,
            ),
            r is Err ==> *final(self) == *old(self),
            r matches Ok(np) ==> *final(self) == (FileHandle {
                file: np,
                open: Some(OpenView { mode, last_offset: 0 }),
            }),
    {
        if self.open.is_some() {
            return rerr("cannot create on an open fid");
        }
        let res = tree.create(self.file, user, name, perm, mode);
        if let Ok(np) = res {
            self.file = np;
            self.open = Some(OpenView { mode, last_offset: 0 });
        }
        res
    }

    /// Opens the node this unopened handle is bound to, in `mode`.
    pub fn open(&mut self, user: &User, mode: OpenMode, tree: &mut FileTree) -> (r: Result<
        (),
        ServerError,
    >)
        requires
            old(tree).wf(),
        ensures
            r matches Err(e) ==> e is NonFatal,
            final(tree).wf(),
            old(self).open is Some ==> r is Err && final(tree).all_files@ == old(tree).all_files@
                && final(tree).last_path == old(tree).last_path,
            old(self).open is None ==> tree_open_post(
                old(tree).all_files@,
                old(tree).last_path,
                final(tree).all_files@,
                final(tree).last_path,
                old(self).file,
                user.user@,
                mode,
                r,
            ),
            r is Err ==> *final(self) == *old(self),
            r is Ok ==> *final(self) == (FileHandle {
                file: old(self).file,
                open: Some(OpenView { mode, last_offset: 0 }),
            }),
    {
        if self.open.is_some() {
            return rerr("file is already open");
        }
        tree.open(self.file, user, mode)?;
        self.open = Some(OpenView { mode, last_offset: 0 });
        Ok(())
    }
}

/// A client's view of the server: its fids, the tree, and who it is.
pub struct Session {
    pub fids: HashMap<u32, FileHandle>,
    pub tree: FileTree,
    pub user: User,
}

impl Session {
    pub open spec fn wf(&self) -> bool {
        &&& self.tree.wf()
        &&& !self.fids@.contains_key(NOFID)
    }

    /// A session for `uname` over `tree`, with `fid` bound to the root.
    pub fn attach(tree: FileTree, fid: u32, uname: String, group: String) -> (r: Session)
        requires
            tree.wf(),
            fid != NOFID,
        ensures
            r.wf(),
            r.tree == tree,
            r.user.user@ == uname@,
            r.fids@ == Map::<u32, FileHandle>::empty().insert(fid, FileHandle::new_spec(0)),
    {
        let mut fids: HashMap<u32, FileHandle> = HashMap::new();
        fids.insert(fid, FileHandle::new(0));
        let s = Session { fids, tree, user: User { user: uname, group } };
        assert(s.fids@ =~= Map::<u32, FileHandle>::empty().insert(fid, FileHandle::new_spec(0)));
        s
    }

    /// Walks from the node of `fid` along `wname`. Where every name was
    /// walked, `newfid` is bound to the node reached (to `fid`'s node for an
    /// empty walk); otherwise nothing is bound, and the qids of the names
    /// that were walked (none, where the first fails) are returned.
    pub fn walk(&mut self, fid: u32, newfid: u32, wname: &Vec<String>) -> (r: Result<
        Vec<Qid>,
        ServerError,
    >)
        requires
            old(self).wf(),
        ensures
            r matches Err(e) ==> e is NonFatal,
            final(self).wf(),
            session_walk_post(*old(self), *final(self), fid, newfid, wname@, r),
    {
        let path = match self.fids.get(&fid) {
            Some(h) => h.file,
            None => {
                return rerr("unknown fid");
            },
        };
        if newfid == NOFID {
            return rerr("NOFID cannot be bound");
        }
        if self.tree.get(path).is_none() {
            return rerr("fid's file no longer exists");
        }
        let wfiles = self.tree.walk_from(path, wname);
        let ghost ps = walk_paths(self.tree.all_files@, path, views_of(wname@));
        if wfiles.len() == wname.len() {
            let target = if wname.len() != 0 {
                wfiles[wfiles.len() - 1].path
            } else {
                path
            };
            proof {
                if wname@.len() != 0 {
                    let k = wfiles@.len() - 1;
                    assert(wfiles@[k] == self.tree.all_files@[ps[k]].spec_qid());
                    assert(self.tree.all_files@[ps[k]].meta.path == ps[k]);
                }
            }
            self.fids.insert(newfid, FileHandle::new(target));
        }
        Ok(wfiles)
    }

    /// Opens the unopened `fid` in `mode`, returning its node's qid.
    pub fn open(&mut self, fid: u32, mode: OpenMode) -> (r: Result<Qid, ServerError>)
        requires
            old(self).wf(),
        ensures
            r matches Err(e) ==> e is NonFatal,
            final(self).wf(),
            session_open_post(*old(self), *final(self), fid, mode, r),
    {
        let mut h = match self.fids.get(&fid) {
            Some(h) => *h,
            None => {
                return rerr("unknown fid");
            },
        };
        h.open(&self.user, mode, &mut self.tree)?;
        let q = match self.tree.qid(h.file) {
            Some(q) => q,
            None => {
                return rerr("fid's file no longer exists");
            },
        };
        self.fids.insert(fid, h);
        Ok(q)
    }

    /// Creates `name` in the directory of the unopened `fid`, then binds
    /// `fid` to the new file, opened in `mode`. Returns the new file's qid.
    pub fn create(&mut self, fid: u32, name: &String, perm: FileMode, mode: OpenMode) -> (r: Result<
        Qid,
        ServerError,
    >)
        requires
            old(self).wf(),
        ensures
            r matches Err(e) ==> e is NonFatal,
            final(self).wf(),
            session_create_post(*old(self), *final(self), fid, name@, perm, mode, r),
    {
        let mut h = match self.fids.get(&fid) {
            Some(h) => *h,
            None => {
                return rerr("unknown fid");
            },
        };
        let np = match h.create(&self.user.user, name, perm, mode, &mut self.tree) {
            Ok(np) => np,
            Err(e) => {
                return Err(e);
            },
        };
        let q = match self.tree.qid(np) {
            Some(q) => q,
            None => {
                return rerr("created file is missing");
            },
        };
        self.fids.insert(fid, h);
        Ok(q)
    }
}

impl Session {
    /// Whether a read of `fid` at `offset` passes the session's checks: the
    /// fid is open for reading, its node exists, and a directory is read at
    /// offset 0 or where the last read ended.
    pub open spec fn read_allowed(&self, fid: u32, offset: u64) -> bool {
        self.fids@.contains_key(fid) && self.fids@[fid].spec_is_readable(
            offset,
            self.tree.all_files@,
        )
    }

    /// Reads up to `count` bytes at `offset` from the open `fid`, and
    /// advances the fid's read cursor by the count read.
    pub fn read(&mut self, fid: u32, offset: u64, count: u32) -> (r: Result<Vec<u8>, ServerError>)
        requires
            old(self).wf(),
        ensures
            r matches Err(e) ==> e is NonFatal,
            final(self).wf(),
            session_read_post(*old(self), *final(self), fid, offset, count, r),
    {
        let h = match self.fids.get(&fid) {
            Some(h) => *h,
            None => {
                return rerr("unknown fid");
            },
        };
        let view = match h.open {
            Some(view) => view,
            None => {
                return rerr("fid not open");
            },
        };
        if !view.mode.is_readable() {
            return rerr("fid not open for reading");
        }
        if !h.is_readable(offset, &self.tree) {
            return rerr("bad dir read offset");
        }
        let data = self.tree.read(h.file, offset, count)?;
        let end = if view.last_offset <= u64::MAX - data.len() as u64 {
            view.last_offset + data.len() as u64
        } else {
            u64::MAX
        };
        self.fids.insert(
            fid,
            FileHandle { file: h.file, open: Some(OpenView { mode: view.mode, last_offset: end }) },
        );
        Ok(data)
    }

    /// Writes `data` at `offset` through the `fid` opened for writing.
    pub fn write(&mut self, fid: u32, offset: u64, data: &[u8]) -> (r: Result<u32, ServerError>)
        requires
            old(self).wf(),
        ensures
            r matches Err(e) ==> e is NonFatal,
            final(self).wf(),
            session_write_post(*old(self), *final(self), fid, offset, data@, r),
    {
        let h = match self.fids.get(&fid) {
            Some(h) => *h,
            None => {
                return rerr("unknown fid");
            },
        };
        if h.open.is_none() {
            return rerr("fid not open");
        }
        if !h.is_writable() {
            return rerr("fid not open for writing");
        }
        self.tree.write(h.file, &self.user.user, offset, data)
    }

    /// Releases `fid`; where it was opened with `ORCLOSE`, its node is
    /// removed too, if it can be.
    pub fn clunk(&mut self, fid: u32) -> (r: Result<(), ServerError>)
        requires
            old(self).wf(),
        ensures
            r matches Err(e) ==> e is NonFatal,
            final(self).wf(),
            session_clunk_post(*old(self), *final(self), fid, r),
    {
        match self.fids.remove(&fid) {
            Some(h) => {
                if let Some(view) = h.open {
                    if view.mode.removes_on_close() {
                        let _ = self.tree.remove(h.file, &self.user);
                    }
                }
                Ok(())
            },
            None => {
                assert(self.fids@ =~= old(self).fids@);
                rerr("unknown fid")
            },
        }
    }

    /// Releases `fid` and removes its node. The fid is released whether or
    /// not the removal succeeds.
    pub fn remove(&mut self, fid: u32) -> (r: Result<(), ServerError>)
        requires
            old(self).wf(),
        ensures
            r matches Err(e) ==> e is NonFatal,
            final(self).wf(),
            session_remove_post(*old(self), *final(self), fid, r),
    {
        match self.fids.remove(&fid) {
            Some(h) => self.tree.remove(h.file, &self.user),
            None => {
                assert(self.fids@ =~= old(self).fids@);
                rerr("unknown fid")
            },
        }
    }

    /// The stat record of `fid`'s node.
    pub fn stat(&self, fid: u32) -> (r: Result<Stat, ServerError>)
        ensures
            r matches Err(e) ==> e is NonFatal,
            r is Ok <==> self.fids@.contains_key(fid) && self.tree.all_files@.contains_key(
                self.fids@[fid].file,
            ),
            r matches Ok(s) ==> s@ == self.tree.all_files@[self.fids@[fid].file].spec_stat(),
    {
        let h = match self.fids.get(&fid) {
            Some(h) => *h,
            None => {
                return rerr("unknown fid for stat");
            },
        };
        match self.tree.stat(h.file) {
            Some(s) => Ok(s),
            None => rerr("unknown path for stat"),
        }
    }

    /// Applies a `wstat` request to `fid`'s node.
    pub fn wstat(&mut self, fid: u32, st: &Stat) -> (r: Result<(), ServerError>)
        requires
            old(self).wf(),
        ensures
            r matches Err(e) ==> e is NonFatal,
            final(self).wf(),
            session_wstat_post(*old(self), *final(self), fid, st@, r),
    {
        let h = match self.fids.get(&fid) {
            Some(h) => *h,
            None => {
                return rerr("unknown fid for wstat");
            },
        };
        self.tree.wstat(h.file, &self.user.user, st)
    }
}

/// What `Session::walk` leaves and returns.
pub open spec fn session_walk_post(
    s0: Session,
    s1: Session,
    fid: u32,
    newfid: u32,
    wname: Seq<String>,
    r: Result<Vec<Qid>, ServerError>,
) -> bool {
    &&& s1.tree == s0.tree
    &&& s1.user == s0.user
    &&& r is Ok <==> s0.fids@.contains_key(fid) && newfid != NOFID
        && s0.tree.all_files@.contains_key(s0.fids@[fid].file)
    &&& r is Err ==> s1.fids@ == s0.fids@
    &&& r matches Ok(qs) ==> {
        let fs = s0.tree.all_files@;
        let start = s0.fids@[fid].file;
        let ps = walk_paths(fs, start, views_of(wname));
        &&& qs@.len() == ps.len()
        &&& forall|k: int| 0 <= k < qs@.len() ==> #[trigger] qs@[k] == fs[ps[k]].spec_qid()
        &&& ps.len() == wname.len() ==> s1.fids@ == s0.fids@.insert(
        newfid,
        FileHandle::new_spec(
        if wname.len() == 0 {
        start
        } else {
        ps.last()
        },
        ),
        )
        &&& ps.len() != wname.len() ==> s1.fids@ == s0.fids@
        }
}

/// What `Session::open` leaves and returns.
pub open spec fn session_open_post(
    s0: Session,
    s1: Session,
    fid: u32,
    mode: OpenMode,
    r: Result<Qid, ServerError>,
) -> bool {
    &&& s1.user == s0.user
    &&& r is Ok <==> s0.fids@.contains_key(fid) && s0.fids@[fid].open is None
        && s0.tree.all_files@.contains_key(s0.fids@[fid].file) && open_allowed(
        s0.tree.all_files@[s0.fids@[fid].file],
        s0.user.user@,
        mode,
        )
    &&& r is Err ==> s1.fids@ == s0.fids@ && s1.tree.all_files@ == s0.tree.all_files@
    &&& r matches Ok(q) ==> {
        let h = s0.fids@[fid];
        &&& tree_open_post(
        s0.tree.all_files@,
        s0.tree.last_path,
        s1.tree.all_files@,
        s1.tree.last_path,
        h.file,
        s0.user.user@,
        mode,
        Ok(()),
        )
        &&& s1.fids@ == s0.fids@.insert(
        fid,
        FileHandle { file: h.file, open: Some(OpenView { mode, last_offset: 0 }) },
        )
        &&& q == s1.tree.all_files@[h.file].spec_qid()
        }
}

/// What `Session::create` leaves and returns.
pub open spec fn session_create_post(
    s0: Session,
    s1: Session,
    fid: u32,
    name: Seq<char>,
    perm: FileMode,
    mode: OpenMode,
    r: Result<Qid, ServerError>,
) -> bool {
    &&& s1.user == s0.user
    &&& !s0.fids@.contains_key(fid) || s0.fids@[fid].open is Some ==> r is Err
        && s1.tree.all_files@ == s0.tree.all_files@
    &&& r is Err ==> s1.fids@ == s0.fids@
    &&& s0.fids@.contains_key(fid) && s0.fids@[fid].open is None ==> {
        let h = s0.fids@[fid];
        &&& tree_create_post(
        s0.tree.all_files@,
        s0.tree.last_path,
        s1.tree.all_files@,
        s1.tree.last_path,
        h.file,
        s0.user.user@,
        name,
        perm,
        match r {
        Ok(q) => Ok(q.path),
        Err(e) => Err(e),
        },
        )
        &&& r matches Ok(q) ==> s1.fids@ == s0.fids@.insert(
        fid,
        FileHandle { file: q.path, open: Some(OpenView { mode, last_offset: 0 }) },
        ) && q == s1.tree.all_files@[q.path].spec_qid()
        }
}

/// What `Session::read` leaves and returns.
pub open spec fn session_read_post(
    s0: Session,
    s1: Session,
    fid: u32,
    offset: u64,
    count: u32,
    r: Result<Vec<u8>, ServerError>,
) -> bool {
    &&& s1.user == s0.user
    &&& !s0.read_allowed(fid, offset)
        ==> r is Err && s1.fids@ == s0.fids@ && s1.tree.all_files@ == s0.tree.all_files@
    &&& s0.read_allowed(fid, offset) ==> {
        let h = s0.fids@[fid];
        &&& tree_read_post(
        s0.tree.all_files@,
        s0.tree.last_path,
        s1.tree.all_files@,
        s1.tree.last_path,
        h.file,
        offset,
        count,
        r,
        )
        &&& r is Err ==> s1.fids@ == s0.fids@
        &&& r matches Ok(d) ==> s1.fids@ == s0.fids@.insert(
        fid,
        FileHandle {
        file: h.file,
        open: Some(
        OpenView {
        mode: h.open->Some_0.mode,
        last_offset: if h.open->Some_0.last_offset + d@.len() <= u64::MAX {
        (h.open->Some_0.last_offset + d@.len()) as u64
        } else {
        u64::MAX
        },
        },
        ),
        },
        )
        }
}

/// What `Session::write` leaves and returns.
pub open spec fn session_write_post(
    s0: Session,
    s1: Session,
    fid: u32,
    offset: u64,
    data: Seq<u8>,
    r: Result<u32, ServerError>,
) -> bool {
    &&& s1.user == s0.user
    &&& s1.fids@ == s0.fids@
    &&& !(s0.fids@.contains_key(fid) && s0.fids@[fid].spec_is_writable()) ==> r is Err
        && s1.tree.all_files@ == s0.tree.all_files@
    &&& s0.fids@.contains_key(fid) && s0.fids@[fid].spec_is_writable()
        ==> tree_write_post(
        s0.tree.all_files@,
        s0.tree.last_path,
        s1.tree.all_files@,
        s1.tree.last_path,
        s0.fids@[fid].file,
        s0.user.user@,
        offset,
        data,
        r,
        )
}

/// What `Session::clunk` leaves and returns.
pub open spec fn session_clunk_post(
    s0: Session,
    s1: Session,
    fid: u32,
    r: Result<(),
    ServerError>,
) -> bool {
    &&& s1.user == s0.user
    &&& r is Ok <==> s0.fids@.contains_key(fid)
    &&& r is Err ==> s1.fids@ == s0.fids@ && s1.tree.all_files@ == s0.tree.all_files@
    &&& r is Ok ==> {
        let h = s0.fids@[fid];
        let closes = h.open matches Some(v) && v.mode.spec_removes_on_close();
        &&& s1.fids@ == s0.fids@.remove(fid)
        &&& closes && removable(s0.tree.all_files@, h.file) ==> tree_remove_post(
        s0.tree.all_files@,
        s0.tree.last_path,
        s1.tree.all_files@,
        s1.tree.last_path,
        h.file,
        Ok(()),
        )
        &&& !(closes && removable(s0.tree.all_files@, h.file))
        ==> s1.tree.all_files@ == s0.tree.all_files@
        }
}

/// What `Session::remove` leaves and returns.
pub open spec fn session_remove_post(
    s0: Session,
    s1: Session,
    fid: u32,
    r: Result<(),
    ServerError>,
) -> bool {
    &&& s1.user == s0.user
    &&& r is Ok <==> s0.fids@.contains_key(fid) && removable(
        s0.tree.all_files@,
        s0.fids@[fid].file,
        )
    &&& !s0.fids@.contains_key(fid)
        ==> s1.fids@ == s0.fids@ && s1.tree.all_files@ == s0.tree.all_files@
    &&& s0.fids@.contains_key(fid) ==> s1.fids@ == s0.fids@.remove(fid)
        && tree_remove_post(
        s0.tree.all_files@,
        s0.tree.last_path,
        s1.tree.all_files@,
        s1.tree.last_path,
        s0.fids@[fid].file,
        r,
        )
}

/// What `Session::wstat` leaves and returns.
pub open spec fn session_wstat_post(
    s0: Session,
    s1: Session,
    fid: u32,
    st: StatView,
    r: Result<(),
    ServerError>,
) -> bool {
    &&& s1.user == s0.user
    &&& s1.fids@ == s0.fids@
    &&& !s0.fids@.contains_key(fid) ==> r is Err && s1.tree.all_files@ == s0.tree.all_files@
    &&& s0.fids@.contains_key(fid) ==> tree_wstat_post(
        s0.tree.all_files@,
        s0.tree.last_path,
        s1.tree.all_files@,
        s1.tree.last_path,
        s0.fids@[fid].file,
        s0.user.user@,
        st,
        r,
        )
}

impl FileHandle {
    pub open spec fn new_spec(file: u64) -> FileHandle {
        FileHandle { file, open: None }
    }
}

} // verus!
