//! The in-memory file tree: files and directories keyed by their qid path,
//! with parent links, child lists and cached directory listings.
use crate::codec::{enc_stat, put_stat};
use crate::errors::{rerr, ServerError};
use crate::p2000::{
    copy_string, spec_readable_for, spec_writable_for, FileMode, FileType, OpenMode, Qid, Stat,
    StatView, DMDIR, GROUP_READ, GROUP_EXEC, GROUP_WRITE, OTHER_EXEC, OTHER_READ, OTHER_WRITE, OWNER_EXEC,
    OWNER_READ, OWNER_WRITE,
};
use crate::wire::{cat, views_of, SerError};
use std::collections::HashMap;
use vstd::prelude::*;

verus! {

broadcast use vstd::std_specs::hash::group_hash_axioms;

/// Largest file the tree holds, in bytes.
pub const MAX_FILE_LEN: u64 = 0xFFFF_FFFF;

/// The metadata that a file keeps besides its content.
pub struct CommonFileMetaData {
    pub mode: FileMode,
    pub version: u32,
    pub path: u64,
    pub atime: u32,
    pub mtime: u32,
    pub name: String,
    pub uid: String,
    pub gid: String,
    pub muid: String,
}

/// The user a session acts for.
pub struct User {
    pub user: String,
    pub group: String,
}

/// A node of the tree. A directory's `content` is its cached listing: the
/// standalone encodings of its children's stat records, or empty when it
/// must be rebuilt.
pub struct File {
    pub meta: CommonFileMetaData,
    pub content: Vec<u8>,
    pub parent: u64,
    pub children: Vec<u64>,
}

/// The files of the tree by path. The root is at path 0.
pub struct FileTree {
    pub last_path: u64,
    pub all_files: HashMap<u64, File>,
}

/// `c` with `d` written at `off`: zeros fill any gap past the old end.
pub open spec fn write_at(c: Seq<u8>, off: int, d: Seq<u8>) -> Seq<u8> {
    let pre = if off <= c.len() {
        c.subrange(0, off)
    } else {
        c + Seq::new((off - c.len()) as nat, |i: int| 0u8)
    };
    let end = off + d.len();
    let post = if end < c.len() {
        c.subrange(end, c.len() as int)
    } else {
        Seq::empty()
    };
    pre + d + post
}

/// What a read of `count` bytes at `off` sees of `c`.
pub open spec fn window(c: Seq<u8>, off: int, count: int) -> Seq<u8> {
    if off >= c.len() {
        Seq::empty()
    } else if off + count >= c.len() {
        c.subrange(off, c.len() as int)
    } else {
        c.subrange(off, off + count)
    }
}

/// `c` cut or zero-extended to `n` bytes.
pub open spec fn resized(c: Seq<u8>, n: int) -> Seq<u8> {
    if n <= c.len() {
        c.subrange(0, n)
    } else {
        c + Seq::new((n - c.len()) as nat, |i: int| 0u8)
    }
}

pub proof fn lemma_write_at_len(c: Seq<u8>, off: int, d: Seq<u8>)
    requires
        0 <= off,
    ensures
        write_at(c, off, d).len() == if off + d.len() > c.len() {
            off + d.len()
        } else {
            c.len() as int
        },
{
}

impl File {
    pub open spec fn spec_is_dir(&self) -> bool {
        self.meta.mode.spec_is_dir()
    }

    pub open spec fn spec_qid(&self) -> Qid {
        Qid {
            file_type: FileType::spec_from_mode(self.meta.mode),
            version: self.meta.version,
            path: self.meta.path,
        }
    }

    pub open spec fn spec_stat(&self) -> StatView {
        StatView {
            type_: 1,
            dev: 2,
            qid: self.spec_qid(),
            mode: self.meta.mode,
            atime: self.meta.atime,
            mtime: self.meta.mtime,
            length: if self.spec_is_dir() {
                0
            } else {
                self.content@.len() as u64
            },
            name: self.meta.name@,
            uid: self.meta.uid@,
            gid: self.meta.gid@,
            muid: self.meta.muid@,
        }
    }

    /// A file without content or children.
    pub fn new(meta: CommonFileMetaData, parent: u64) -> (r: File)
        ensures
            r.meta == meta,
            r.parent == parent,
            r.content@.len() == 0,
            r.children@.len() == 0,
    {
        File { meta, content: Vec::new(), parent, children: Vec::new() }
    }

    pub fn is_dir(&self) -> (r: bool)
        ensures
            r == self.spec_is_dir(),
    {
        self.meta.mode.is_dir()
    }

    pub fn is_file(&self) -> (r: bool)
        ensures
            r == !self.spec_is_dir(),
    {
        !self.is_dir()
    }

    pub fn qid(&self) -> (r: Qid)
        ensures
            r == self.spec_qid(),
    {
        Qid {
            file_type: FileType::from_mode(self.meta.mode),
            version: self.meta.version,
            path: self.meta.path,
        }
    }

    /// The file's stat record: a directory's length is 0, a file's the size
    /// of its content.
    pub fn stat(&self) -> (r: Stat)
        ensures
            r@ == self.spec_stat(),
    {
        Stat {
            type_: 1,
            dev: 2,
            qid: self.qid(),
            mode: self.meta.mode,
            atime: self.meta.atime,
            mtime: self.meta.mtime,
            length: if self.is_file() {
                self.content.len() as u64
            } else {
                0
            },
            name: copy_string(&self.meta.name),
            uid: copy_string(&self.meta.uid),
            gid: copy_string(&self.meta.gid),
            muid: copy_string(&self.meta.muid),
        }
    }

    /// Up to `count` bytes of the content, from `offset` on.
    pub fn read(&self, offset: u64, count: u32) -> (r: Vec<u8>)
        ensures
            r@ == window(self.content@, offset as int, count as int),
            r@.len() == if offset >= self.content@.len() {
                0
            } else if offset + count >= self.content@.len() {
                self.content@.len() - offset
            } else {
                count as int
            },
    {
        let len = self.content.len();
        let mut out: Vec<u8> = Vec::new();
        if offset >= len as u64 {
            return out;
        }
        let start = offset as usize;
        let stop = if (len - start) as u64 <= count as u64 {
            len
        } else {
            start + count as usize
        };
        let mut i = start;
        while i < stop
            invariant
                start <= i <= stop <= len == self.content@.len(),
                out@ == self.content@.subrange(start as int, i as int),
            decreases stop - i,
        {
            out.push(self.content[i]);
            i = i + 1;
            assert(out@ =~= self.content@.subrange(start as int, i as int));
        }
        out
    }
    /// Checks `mode` against the file's kind and permissions for `user`.
    pub fn check_open(&self, user: &User, mode: OpenMode) -> (r: Result<(), ServerError>)
        ensures
            r matches Err(e) ==> e is NonFatal,
            r is Ok <==> open_allowed(*self, user.user@, mode),
    {
        let user = &user.user;
        let uid = &self.meta.uid;
        let readable = self.meta.mode.contains(OTHER_READ) || (self.meta.mode.contains(OWNER_READ)
            && *uid == *user);
        let writable = self.meta.mode.contains(OTHER_WRITE) || (self.meta.mode.contains(
            OWNER_WRITE,
        ) && *uid == *user);
        if self.is_dir() {
            if mode.is_writable() {
                return rerr("can't write to a directory");
            }
            if mode.truncates() {
                return rerr("can't truncate a directory");
            }
            if mode.removes_on_close() {
                return rerr("can't remove dir on close");
            }
            if mode.is_readable() && !readable {
                return rerr("not readable");
            }
        } else {
            if mode.is_readable() && !readable {
                return rerr("file not readable");
            }
            if mode.is_writable() && !writable {
                return rerr("file not writable");
            }
        }
        Ok(())
    }

    /// Checks `mode` against the file's kind and permissions for `user`,
    /// and truncates the file where asked. Returns whether it truncated.
    pub fn open(&mut self, user: &User, mode: OpenMode) -> (r: Result<bool, ServerError>)
        ensures
            r matches Err(e) ==> e is NonFatal,
            r is Ok <==> open_allowed(*old(self), user.user@, mode),
            r is Err ==> *final(self) == *old(self),
            r matches Ok(t) ==> t == (!old(self).spec_is_dir() && mode.spec_truncates()),
            r == Ok::<bool, ServerError>(false) ==> *final(self) == *old(self),
            r == Ok::<bool, ServerError>(true) ==> {
                &&& final(self).content@.len() == 0
                &&& final(self).meta.muid@ == user.user@
                &&& same_but_muid(old(self).meta, final(self).meta)
                &&& final(self).parent == old(self).parent
                &&& final(self).children@ == old(self).children@
            },
    {
        self.check_open(user, mode)?;
        if self.is_file() && mode.truncates() {
            self.meta.muid = copy_string(&user.user);
            self.content = Vec::new();
            return Ok(true);
        }
        Ok(false)
    }

    /// Writes `data` at `offset`, filling any gap with zeros, and makes
    /// `user` the last modifier. Refuses directories. Returns the count
    /// written and whether the file's stat record changed in a way that
    /// invalidates its parent's listing.
    pub fn write(&mut self, user: &String, offset: u64, data: &[u8]) -> (r: Option<(u32, bool)>)
        requires
            offset + data@.len() <= MAX_FILE_LEN,
        ensures
            r is None <==> old(self).spec_is_dir(),
            r is None ==> *final(self) == *old(self),
            r matches Some((n, inv)) ==> {
                &&& n == data@.len()
                &&& final(self).content@ == write_at(old(self).content@, offset as int, data@)
                &&& final(self).meta.muid@ == user@
                &&& same_but_muid(old(self).meta, final(self).meta)
                &&& final(self).parent == old(self).parent
                &&& final(self).children@ == old(self).children@
                &&& inv == (old(self).meta.muid@ != user@ || final(self).content@.len()
                    != old(self).content@.len())
            },
    {
        if self.is_dir() {
            return None;
        }
        let mut should_invalidate = false;
        if self.meta.muid != *user {
            should_invalidate = true;
            self.meta.muid = copy_string(user);
        }
        let start_len = self.content.len();
        let new_content = written(&self.content, offset as usize, data);
        self.content = new_content;
        should_invalidate = should_invalidate || start_len != self.content.len();
        Some((data.len() as u32, should_invalidate))
    }
}

/// Whether `mode` may open `f` for `user`: directories refuse writing,
/// truncation and removal on close; reading and writing need the matching
/// permission.
pub open spec fn open_allowed(f: File, user: Seq<char>, mode: OpenMode) -> bool {
    let readable = spec_readable_for(f.meta.mode, f.meta.uid@, user);
    let writable = spec_writable_for(f.meta.mode, f.meta.uid@, user);
    if f.spec_is_dir() {
        !mode.spec_is_writable() && !mode.spec_truncates() && !mode.spec_removes_on_close() && (
        mode.spec_is_readable() ==> readable)
    } else {
        (mode.spec_is_readable() ==> readable) && (mode.spec_is_writable() ==> writable)
    }
}

/// The two records agree on everything but `muid`.
pub open spec fn same_but_muid(a: CommonFileMetaData, b: CommonFileMetaData) -> bool {
    &&& a.mode == b.mode
    &&& a.version == b.version
    &&& a.path == b.path
    &&& a.atime == b.atime
    &&& a.mtime == b.mtime
    &&& a.name == b.name
    &&& a.uid == b.uid
    &&& a.gid == b.gid
}

/// A directory's cache emptied, nothing else changed.
pub open spec fn cleared(a: File, b: File) -> bool {
    &&& a.meta == b.meta
    &&& a.parent == b.parent
    &&& a.children@ == b.children@
    &&& b.content@.len() == 0
}

/// `c` with `d` written at `off`.
pub fn written(c: &Vec<u8>, off: usize, d: &[u8]) -> (r: Vec<u8>)
    requires
        off + d@.len() <= usize::MAX,
    ensures
        r@ == write_at(c@, off as int, d@),
{
    let clen = c.len();
    let pre = if off <= clen {
        off
    } else {
        clen
    };
    let mut out = resize_to(c, off);
    assert(out@ =~= if off <= clen {
        c@.subrange(0, off as int)
    } else {
        c@ + Seq::new((off - clen) as nat, |i: int| 0u8)
    });
    let ghost pre_seq = out@;
    let mut j: usize = 0;
    while j < d.len()
        invariant
            j <= d@.len(),
            out@ == pre_seq + d@.subrange(0, j as int),
        decreases d@.len() - j,
    {
        out.push(d[j]);
        j = j + 1;
        assert(out@ =~= pre_seq + d@.subrange(0, j as int));
    }
    assert(d@.subrange(0, d@.len() as int) =~= d@);
    let end = off + d.len();
    let ghost mid = out@;
    if end < clen {
        let mut k: usize = end;
        while k < clen
            invariant
                end <= k <= clen == c@.len(),
                out@ == mid + c@.subrange(end as int, k as int),
            decreases clen - k,
        {
            out.push(c[k]);
            k = k + 1;
            assert(out@ =~= mid + c@.subrange(end as int, k as int));
        }
    } else {
        assert(out@ =~= mid + Seq::<u8>::empty());
    }
    out
}

/// `c` cut or zero-extended to `n` bytes.
pub fn resize_to(c: &Vec<u8>, n: usize) -> (r: Vec<u8>)
    ensures
        r@ == resized(c@, n as int),
{
    let mut out: Vec<u8> = Vec::new();
    let keep = if n <= c.len() {
        n
    } else {
        c.len()
    };
    let mut i: usize = 0;
    while i < keep
        invariant
            keep <= c@.len(),
            i <= keep,
            out@ == c@.subrange(0, i as int),
        decreases keep - i,
    {
        out.push(c[i]);
        i = i + 1;
        assert(out@ =~= c@.subrange(0, i as int));
    }
    while out.len() < n
        invariant
            keep <= out@.len() <= n,
            forall|k: int| 0 <= k < keep ==> out@[k] == c@[k],
            forall|k: int| keep <= k < out@.len() ==> out@[k] == 0u8,
            keep == if n <= c@.len() {
                n as int
            } else {
                c@.len() as int
            },
        decreases n - out@.len(),
    {
        out.push(0u8);
    }
    assert(out@ =~= resized(c@, n as int));
    out
}


/// The stat records of a directory's children, in child order.
pub open spec fn listing_entries(fs: Map<u64, File>, dir: u64) -> Seq<StatView> {
    fs[dir].children@.map_values(|c: u64| fs[c].spec_stat())
}

/// Standalone stat encodings, one after the other.
pub open spec fn enc_stats(ss: Seq<StatView>) -> Result<Seq<u8>, SerError>
    decreases ss.len(),
{
    if ss.len() == 0 {
        Ok(Seq::empty())
    } else {
        cat(enc_stats(ss.drop_last()), enc_stat(ss.last(), false))
    }
}

/// A directory's listing as a read of it returns it.
pub open spec fn listing(fs: Map<u64, File>, dir: u64) -> Result<Seq<u8>, SerError> {
    enc_stats(listing_entries(fs, dir))
}

/// Every node but the root is among its parent's children.
pub open spec fn parents_hold_children(fs: Map<u64, File>) -> bool {
    forall|p: u64|
        #[trigger] fs.contains_key(p) && p != 0 ==> fs.contains_key(fs[p].parent)
            && fs[fs[p].parent].children@.contains(p)
}

/// Every child listed exists, is not the root, and names its lister as parent.
pub open spec fn children_point_back(fs: Map<u64, File>) -> bool {
    forall|p: u64, i: int|
        #![trigger fs[p].children@[i]]
        fs.contains_key(p) && 0 <= i < fs[p].children@.len() ==> fs[p].children@[i] != 0
            && fs.contains_key(fs[p].children@[i]) && fs[fs[p].children@[i]].parent == p
}

/// No two children of one directory share a name.
pub open spec fn sibling_names_unique(fs: Map<u64, File>) -> bool {
    forall|p: u64, i: int, j: int|
        #![trigger fs[p].children@[i], fs[p].children@[j]]
        fs.contains_key(p) && 0 <= i < fs[p].children@.len() && 0 <= j < fs[p].children@.len()
            && i != j ==> fs[fs[p].children@[i]].meta.name@ != fs[fs[p].children@[j]].meta.name@
}

/// Per-node facts: paths match keys and stay within `last_path`, child
/// lists hold no repeats, plain files have no children and stay within
/// `MAX_FILE_LEN`, and no node but the root is its own parent.
pub open spec fn nodes_wf(fs: Map<u64, File>, last_path: u64) -> bool {
    forall|p: u64|
        #[trigger] fs.contains_key(p) ==> fs[p].meta.path == p && p <= last_path
            && fs[p].children@.no_duplicates() && (!fs[p].spec_is_dir() ==> fs[p].children@.len()
            == 0 && fs[p].content@.len() <= MAX_FILE_LEN) && (p != 0 ==> fs[p].parent != p)
}

/// Every directory cache that is not empty holds the directory's current
/// listing.
#[verifier::opaque]
pub open spec fn caches_current(fs: Map<u64, File>) -> bool {
    forall|d: u64|
        #[trigger] fs.contains_key(d) && fs[d].spec_is_dir() && fs[d].content@.len() > 0
            ==> listing(fs, d) == Ok::<Seq<u8>, SerError>(fs[d].content@)
}

/// A listing depends only on the directory's children and their records.
pub proof fn lemma_listing_frame(fs1: Map<u64, File>, fs2: Map<u64, File>, d: u64)
    requires
        fs1.contains_key(d),
        fs2.contains_key(d),
        fs2[d].children@ == fs1[d].children@,
        forall|i: int|
            0 <= i < fs1[d].children@.len() ==> #[trigger] fs2[fs1[d].children@[i]].spec_stat()
                == fs1[fs1[d].children@[i]].spec_stat(),
    ensures
        listing(fs2, d) == listing(fs1, d),
{
    assert(listing_entries(fs2, d) =~= listing_entries(fs1, d));
}

/// Replacing the node at `p` by `f`, with the same children, keeps every
/// cache current where `p`'s record is unchanged or its parent's cache is
/// empty, and `f`'s own cache is current.
pub proof fn lemma_caches_after_replace(fs: Map<u64, File>, last_path: u64, p: u64, f: File)
    requires
        tree_wf(fs, last_path),
        fs.contains_key(p),
        f.children@ == fs[p].children@,
        f.parent == fs[p].parent,
        f.spec_stat() == fs[p].spec_stat() || p == 0 || fs[fs[p].parent].content@.len() == 0,
        f.spec_is_dir() && f.content@.len() > 0 ==> listing(fs, p) == Ok::<Seq<u8>, SerError>(
            f.content@,
        ),
    ensures
        caches_current(fs.insert(p, f)),
{
    reveal(caches_current);
    let fs2 = fs.insert(p, f);
    assert forall|d: u64|
        #[trigger] fs2.contains_key(d) && fs2[d].spec_is_dir() && fs2[d].content@.len() > 0
            implies listing(fs2, d) == Ok::<Seq<u8>, SerError>(fs2[d].content@) by {
        assert forall|i: int| 0 <= i < fs[d].children@.len() implies #[trigger] fs2[fs[d].children@[i]].spec_stat()
            == fs[fs[d].children@[i]].spec_stat() by {
            let c = fs[d].children@[i];
            assert(fs[c].parent == d);
            if c == p {
                assert(p != 0);
                assert(d != p);
            }
        }
        lemma_listing_frame(fs, fs2, d);
    }
}

/// A directory's cache, where it is not empty, is its current listing: a
/// read of a directory always sees the listing of its children as they are.
pub proof fn lemma_cache_current(fs: Map<u64, File>, last_path: u64, d: u64)
    requires
        tree_wf(fs, last_path),
        fs.contains_key(d),
        fs[d].spec_is_dir(),
        fs[d].content@.len() > 0,
    ensures
        listing(fs, d) == Ok::<Seq<u8>, SerError>(fs[d].content@),
{
    reveal(caches_current);
}

pub open spec fn tree_wf(fs: Map<u64, File>, last_path: u64) -> bool {
    &&& fs.contains_key(0)
    &&& fs[0].parent == 0
    &&& fs[0].spec_is_dir()
    &&& nodes_wf(fs, last_path)
    &&& parents_hold_children(fs)
    &&& children_point_back(fs)
    &&& sibling_names_unique(fs)
    &&& caches_current(fs)
}

/// `b` may replace `a` without touching the tree's structure.
pub open spec fn same_shape(a: File, b: File) -> bool {
    &&& a.meta.path == b.meta.path
    &&& a.parent == b.parent
    &&& a.children@ == b.children@
    &&& a.spec_is_dir() == b.spec_is_dir()
    &&& a.meta.name@ == b.meta.name@
    &&& !b.spec_is_dir() ==> b.content@.len() <= MAX_FILE_LEN
}

pub proof fn lemma_same_shape(fs: Map<u64, File>, last_path: u64, p: u64, f: File)
    requires
        tree_wf(fs, last_path),
        fs.contains_key(p),
        same_shape(fs[p], f),
        f.spec_stat() == fs[p].spec_stat() || p == 0 || fs[fs[p].parent].content@.len() == 0,
        f.spec_is_dir() && f.content@.len() > 0 ==> listing(fs, p) == Ok::<Seq<u8>, SerError>(
            f.content@,
        ),
    ensures
        tree_wf(fs.insert(p, f), last_path),
{
    lemma_caches_after_replace(fs, last_path, p, f);
    let fs2 = fs.insert(p, f);
    assert forall|q: u64| #[trigger] fs2.contains_key(q) && q != 0 implies fs2.contains_key(
        fs2[q].parent,
    ) && fs2[fs2[q].parent].children@.contains(q) by {
        assert(fs.contains_key(q));
        assert(fs[fs[q].parent].children@.contains(q));
    }
    assert forall|q: u64, i: int|
        #![trigger fs2[q].children@[i]]
        fs2.contains_key(q) && 0 <= i < fs2[q].children@.len() implies fs2[q].children@[i] != 0
        && fs2.contains_key(fs2[q].children@[i]) && fs2[fs2[q].children@[i]].parent == q by {
        assert(fs[q].children@[i] == fs2[q].children@[i]);
    }
    assert forall|q: u64, i: int, j: int|
        #![trigger fs2[q].children@[i], fs2[q].children@[j]]
        fs2.contains_key(q) && 0 <= i < fs2[q].children@.len() && 0 <= j < fs2[q].children@.len()
            && i != j implies fs2[fs2[q].children@[i]].meta.name@
        != fs2[fs2[q].children@[j]].meta.name@ by {
        assert(fs[q].children@[i] == fs2[q].children@[i]);
        assert(fs[q].children@[j] == fs2[q].children@[j]);
    }
}

impl FileTree {
    pub open spec fn wf(&self) -> bool {
        tree_wf(self.all_files@, self.last_path)
    }

    /// The node at `path`, if there is one.
    pub fn get(&self, path: u64) -> (r: Option<&File>)
        ensures
            r matches Some(f) ==> self.all_files@.contains_key(path) && *f == self.all_files@[path],
            r is None ==> !self.all_files@.contains_key(path),
    {
        self.all_files.get(&path)
    }

    /// The stat record of the node at `path`.
    pub fn stat(&self, path: u64) -> (r: Option<Stat>)
        ensures
            r is Some <==> self.all_files@.contains_key(path),
            r matches Some(s) ==> s@ == self.all_files@[path].spec_stat(),
    {
        match self.all_files.get(&path) {
            Some(f) => Some(f.stat()),
            None => None,
        }
    }

    /// The qid of the node at `path`.
    pub fn qid(&self, path: u64) -> (r: Option<Qid>)
        ensures
            r is Some <==> self.all_files@.contains_key(path),
            r matches Some(q) ==> q == self.all_files@[path].spec_qid(),
    {
        match self.all_files.get(&path) {
            Some(f) => Some(f.qid()),
            None => None,
        }
    }
}

/// Whether a read of `f` must first rebuild its listing.
pub open spec fn needs_listing(f: File) -> bool {
    f.spec_is_dir() && f.content@.len() == 0 && f.children@.len() > 0
}

pub proof fn lemma_enc_stats_prefix_err(ss: Seq<StatView>, k: int)
    requires
        0 <= k <= ss.len(),
        enc_stats(ss.subrange(0, k)) is Err,
    ensures
        enc_stats(ss) is Err,
    decreases ss.len() - k,
{
    if k < ss.len() {
        assert(ss.subrange(0, k + 1).drop_last() =~= ss.subrange(0, k));
        lemma_enc_stats_prefix_err(ss, k + 1);
    } else {
        assert(ss.subrange(0, k) =~= ss);
    }
}

impl FileTree {
    /// Empties the cached listing of the directory at `path`; anything
    /// else is left as it is.
    pub fn invalidate(&mut self, path: u64)
        requires
            old(self).wf(),
        ensures
            final(self).wf(),
            final(self).last_path == old(self).last_path,
            old(self).all_files@.contains_key(path) && old(self).all_files@[path].spec_is_dir()
                ==> final(self).all_files@ == old(self).all_files@.insert(
                path,
                final(self).all_files@[path],
            ) && cleared(old(self).all_files@[path], final(self).all_files@[path]),
            !(old(self).all_files@.contains_key(path) && old(self).all_files@[path].spec_is_dir())
                ==> final(self).all_files@ == old(self).all_files@,
    {
        let ghost fs = self.all_files@;
        match self.all_files.remove(&path) {
            None => {
                assert(self.all_files@ =~= fs);
            },
            Some(mut f) => {
                if f.is_dir() {
                    f.content = Vec::new();
                }
                self.all_files.insert(path, f);
                proof {
                    lemma_same_shape(fs, self.last_path, path, f);
                    assert(self.all_files@ =~= fs.insert(path, f));
                    if !f.spec_is_dir() {
                        assert(self.all_files@ =~= fs);
                    }
                }
            },
        }
    }

    /// Reads up to `count` bytes at `offset` from the node at `path`. A
    /// directory whose listing cache is empty has it rebuilt first, from its
    /// children's stat records in child order.
    #[verifier::rlimit(40)]
    #[verifier::spinoff_prover]
    pub fn read(&mut self, path: u64, offset: u64, count: u32) -> (r: Result<Vec<u8>, ServerError>)
        requires
            old(self).wf(),
        ensures
            r matches Err(e) ==> e is NonFatal,
            final(self).wf(),
            tree_read_post(
                old(self).all_files@,
                old(self).last_path,
                final(self).all_files@,
                final(self).last_path,
                path, offset, count,
                r,
            ),
    {
        let ghost fs = self.all_files@;
        let new_content = match self.all_files.get(&path) {
            None => {
                return rerr("unknown file");
            },
            Some(file) => {
                if file.is_dir() && file.children.len() != 0 && file.content.len() == 0 {
                    let ghost entries = listing_entries(fs, path);
                    let mut content: Vec<u8> = Vec::new();
                    let mut i: usize = 0;
                    while i < file.children.len()
                        invariant
                            self.wf(),
                            fs == self.all_files@,
                            fs.contains_key(path),
                            *file == fs[path],
                            needs_listing(fs[path]),
                            entries == listing_entries(fs, path),
                            i <= file.children@.len(),
                            enc_stats(entries.subrange(0, i as int)) == Ok::<Seq<u8>, SerError>(
                                content@,
                            ),
                        decreases file.children@.len() - i,
                    {
                        let c = file.children[i];
                        assert(fs[path].children@[i as int] == c);
                        let child = match self.all_files.get(&c) {
                            Some(x) => x,
                            None => {
                                return rerr("unknown file");
                            },
                        };
                        let st = child.stat();
                        let ghost before = content@;
                        let res = put_stat(&mut content, &st, false);
                        assert(entries.subrange(0, i + 1).drop_last() =~= entries.subrange(
                            0,
                            i as int,
                        ));
                        assert(entries.subrange(0, i + 1).last() == entries[i as int]);
                        assert(entries[i as int] == st@);
                        if res.is_err() {
                            proof {
                                lemma_enc_stats_prefix_err(entries, i + 1);
                            }
                            return rerr("directory listing cannot be encoded");
                        }
                        i = i + 1;
                    }
                    assert(entries.subrange(0, i as int) =~= entries);
                    Some(content)
                } else {
                    None
                }
            },
        };
        match new_content {
            Some(content) => {
                let mut f = match self.all_files.remove(&path) {
                    Some(f) => f,
                    None => {
                        return rerr("unknown file");
                    },
                };
                f.content = content;
                let data = f.read(offset, count);
                self.all_files.insert(path, f);
                proof {
                    lemma_same_shape(fs, self.last_path, path, f);
                    assert(self.all_files@ =~= fs.insert(path, f));
                }
                Ok(data)
            },
            None => match self.all_files.get(&path) {
                Some(f) => Ok(f.read(offset, count)),
                None => rerr("unknown file"),
            },
        }
    }

    /// Writes `data` at `offset` into the file at `path` as `user`. When the
    /// file's last modifier or length changes, its parent's listing cache is
    /// emptied.
    #[verifier::rlimit(40)]
    #[verifier::spinoff_prover]
    pub fn write(&mut self, path: u64, user: &String, offset: u64, data: &[u8]) -> (r: Result<
        u32,
        ServerError,
    >)
        requires
            old(self).wf(),
        ensures
            r matches Err(e) ==> e is NonFatal,
            final(self).wf(),
            tree_write_post(
                old(self).all_files@,
                old(self).last_path,
                final(self).all_files@,
                final(self).last_path,
                path, user@, offset, data@,
                r,
            ),
    {
        let ghost fs = self.all_files@;
        if offset > MAX_FILE_LEN || data.len() as u64 > MAX_FILE_LEN - offset {
            if self.all_files.get(&path).is_none() {
                return rerr("unknown file");
            }
            return rerr("write past the largest file size");
        }
        let (parent, changed) = match self.all_files.get(&path) {
            None => {
                return rerr("unknown file");
            },
            Some(f) => {
                if f.is_dir() {
                    return rerr("can't write to a directory");
                }
                let old_len = f.content.len();
                let end = offset as usize + data.len();
                let new_len = if end > old_len {
                    end
                } else {
                    old_len
                };
                proof {
                    lemma_write_at_len(f.content@, offset as int, data@);
                }
                (f.parent, f.meta.muid != *user || new_len != old_len)
            },
        };
        if changed {
            self.invalidate(parent);
        }
        let ghost fs_mid = self.all_files@;
        assert(fs[path].parent != path);
        assert(fs_mid[path] == fs[path]);
        let mut f = match self.all_files.remove(&path) {
            Some(f) => f,
            None => {
                return rerr("unknown file");
            },
        };
        match f.write(user, offset, data) {
            None => {
                self.all_files.insert(path, f);
                rerr("can't write to a directory")
            },
            Some((n, inv)) => {
                self.all_files.insert(path, f);
                proof {
                    lemma_same_shape(fs_mid, self.last_path, path, f);
                    assert(self.all_files@ =~= fs_mid.insert(path, f));
                    if changed {
                        assert(self.all_files@ =~= fs.insert(path, f).insert(
                            parent,
                            self.all_files@[parent],
                        ));
                    } else {
                        assert(fs_mid =~= fs);
                    }
                }
                Ok(n)
            },
        }
    }

    /// Opens the node at `path` for `user` in `mode`. Truncation empties the
    /// file, makes `user` its last modifier and empties its parent's listing
    /// cache.
    #[verifier::rlimit(40)]
    #[verifier::spinoff_prover]
    pub fn open(&mut self, path: u64, user: &User, mode: OpenMode) -> (r: Result<(), ServerError>)
        requires
            old(self).wf(),
        ensures
            r matches Err(e) ==> e is NonFatal,
            final(self).wf(),
            tree_open_post(
                old(self).all_files@,
                old(self).last_path,
                final(self).all_files@,
                final(self).last_path,
                path, user.user@, mode,
                r,
            ),
    {
        let ghost fs = self.all_files@;
        let (parent, truncating) = match self.all_files.get(&path) {
            None => {
                return rerr("unknown file");
            },
            Some(f) => {
                f.check_open(user, mode)?;
                (f.parent, f.is_file() && mode.truncates())
            },
        };
        proof {
            if truncating {
                assert(path != 0);
                assert(fs[parent].children@.contains(path));
                assert(fs[parent].spec_is_dir());
            }
        }
        if truncating {
            self.invalidate(parent);
        }
        let ghost fs_mid = self.all_files@;
        assert(fs[path].parent != path || path == 0);
        assert(fs_mid[path] == fs[path]);
        let mut f = match self.all_files.remove(&path) {
            Some(f) => f,
            None => {
                return rerr("unknown file");
            },
        };
        let res = f.open(user, mode);
        self.all_files.insert(path, f);
        proof {
            if f.spec_is_dir() && f.content@.len() > 0 {
                lemma_cache_current(fs_mid, self.last_path, path);
            }
            lemma_same_shape(fs_mid, self.last_path, path, f);
            assert(self.all_files@ =~= fs_mid.insert(path, f));
            if truncating {
                assert(self.all_files@ =~= fs.insert(path, f).insert(
                    parent,
                    self.all_files@[parent],
                ));
            } else {
                assert(fs_mid =~= fs);
                assert(self.all_files@ =~= fs);
            }
        }
        match res {
            Err(e) => Err(e),
            Ok(_) => Ok(()),
        }
    }
}

/// Whether a directory at `path` can take a new child called `name`.
pub open spec fn create_allowed(
    fs: Map<u64, File>,
    last_path: u64,
    path: u64,
    name: Seq<char>,
) -> bool {
    &&& fs.contains_key(path)
    &&& fs[path].spec_is_dir()
    &&& forall|i: int|
        0 <= i < fs[path].children@.len()
            ==> fs[#[trigger] fs[path].children@[i]].meta.name@ != name
    &&& last_path < u64::MAX
}

#[verifier::rlimit(40)]
#[verifier::spinoff_prover]
pub proof fn lemma_create_wf(
    fs: Map<u64, File>,
    last_path: u64,
    path: u64,
    pf: File,
    np: u64,
    nf: File,
)
    requires
        tree_wf(fs, last_path),
        create_allowed(fs, last_path, path, nf.meta.name@),
        np == last_path + 1,
        pf.meta == fs[path].meta,
        pf.parent == fs[path].parent,
        pf.children@ == fs[path].children@.push(np),
        pf.content@.len() == 0,
        nf.meta.path == np,
        nf.parent == path,
        nf.children@.len() == 0,
        nf.content@.len() == 0,
    ensures
        tree_wf(fs.insert(path, pf).insert(np, nf), np),
{
    let fs2 = fs.insert(path, pf).insert(np, nf);
    reveal(caches_current);
    assert(!fs.contains_key(np));
    assert forall|d: u64|
        #[trigger] fs2.contains_key(d) && fs2[d].spec_is_dir() && fs2[d].content@.len() > 0
            implies listing(fs2, d) == Ok::<Seq<u8>, SerError>(fs2[d].content@) by {
        assert(d != np && d != path);
        assert forall|i: int| 0 <= i < fs[d].children@.len() implies #[trigger] fs2[fs[d].children@[i]].spec_stat()
            == fs[fs[d].children@[i]].spec_stat() by {
            let c = fs[d].children@[i];
            assert(fs.contains_key(c));
        }
        lemma_listing_frame(fs, fs2, d);
    }
    assert forall|q: u64| #[trigger] fs2.contains_key(q) implies fs2[q].meta.path == q && q <= np
        && fs2[q].children@.no_duplicates() && (!fs2[q].spec_is_dir() ==> fs2[q].children@.len()
        == 0 && fs2[q].content@.len() <= MAX_FILE_LEN) && (q != 0 ==> fs2[q].parent != q) by {
        if q == path {
            assert forall|i: int, j: int|
                0 <= i < pf.children@.len() && 0 <= j < pf.children@.len() && i != j
                    implies pf.children@[i]
                != pf.children@[j] by {
                if i < fs[path].children@.len() && j < fs[path].children@.len() {
                    assert(fs[path].children@.no_duplicates());
                } else if i < fs[path].children@.len() {
                    assert(fs[path].children@[i] == fs[path].children@[i]);
                    assert(fs.contains_key(fs[path].children@[i]));
                } else if j < fs[path].children@.len() {
                    assert(fs[path].children@[j] == fs[path].children@[j]);
                    assert(fs.contains_key(fs[path].children@[j]));
                }
            }
        }
    }
    assert forall|q: u64| #[trigger] fs2.contains_key(q) && q != 0 implies fs2.contains_key(
        fs2[q].parent,
    ) && fs2[fs2[q].parent].children@.contains(q) by {
        if q == np {
            assert(pf.children@[pf.children@.len() - 1] == np);
        } else {
            assert(fs.contains_key(q));
            let par = fs[q].parent;
            assert(fs[par].children@.contains(q));
            if par == path {
                let k = choose|k: int| 0 <= k < fs[par].children@.len()
                    && fs[par].children@[k] == q;
                assert(pf.children@[k] == q);
            }
        }
    }
    assert forall|q: u64, i: int|
        #![trigger fs2[q].children@[i]]
        fs2.contains_key(q) && 0 <= i < fs2[q].children@.len() implies fs2[q].children@[i] != 0
        && fs2.contains_key(fs2[q].children@[i]) && fs2[fs2[q].children@[i]].parent == q by {
        if q == path {
            if i < fs[path].children@.len() {
                assert(fs[q].children@[i] == fs2[q].children@[i]);
            }
        } else if q != np {
            assert(fs[q].children@[i] == fs2[q].children@[i]);
        }
    }
    assert forall|q: u64, i: int, j: int|
        #![trigger fs2[q].children@[i], fs2[q].children@[j]]
        fs2.contains_key(q) && 0 <= i < fs2[q].children@.len() && 0 <= j < fs2[q].children@.len()
            && i != j implies fs2[fs2[q].children@[i]].meta.name@
        != fs2[fs2[q].children@[j]].meta.name@ by {
        if q == path {
            let n = fs[path].children@.len();
            if i < n && j < n {
                assert(fs[q].children@[i] == fs2[q].children@[i]);
                assert(fs[q].children@[j] == fs2[q].children@[j]);
            } else if i < n {
                assert(fs[path].children@[i] == fs2[q].children@[i]);
            } else {
                assert(fs[path].children@[j] == fs2[q].children@[j]);
            }
        } else if q != np {
            assert(fs[q].children@[i] == fs2[q].children@[i]);
            assert(fs[q].children@[j] == fs2[q].children@[j]);
        }
    }
}

#[verifier::rlimit(40)]
#[verifier::spinoff_prover]
pub proof fn lemma_remove_wf(fs: Map<u64, File>, last_path: u64, path: u64, pf: File, k: int)
    requires
        tree_wf(fs, last_path),
        path != 0,
        fs.contains_key(path),
        fs[path].children@.len() == 0,
        0 <= k < fs[fs[path].parent].children@.len(),
        fs[fs[path].parent].children@[k] == path,
        pf.meta == fs[fs[path].parent].meta,
        pf.parent == fs[fs[path].parent].parent,
        pf.children@ == fs[fs[path].parent].children@.remove(k),
        pf.content@.len() == 0,
    ensures
        tree_wf(fs.remove(path).insert(fs[path].parent, pf), last_path),
{
    let par = fs[path].parent;
    let old_c = fs[par].children@;
    let fs2 = fs.remove(path).insert(par, pf);
    reveal(caches_current);
    assert(par != path) by {
        if par == path {
            assert(fs[path].children@.contains(path));
        }
    }
    assert forall|d: u64|
        #[trigger] fs2.contains_key(d) && fs2[d].spec_is_dir() && fs2[d].content@.len() > 0
            implies listing(fs2, d) == Ok::<Seq<u8>, SerError>(fs2[d].content@) by {
        assert(d != par && d != path);
        assert forall|i: int| 0 <= i < fs[d].children@.len() implies #[trigger] fs2[fs[d].children@[i]].spec_stat()
            == fs[fs[d].children@[i]].spec_stat() by {
            let c = fs[d].children@[i];
            assert(fs[c].parent == d);
            assert(c != path);
        }
        lemma_listing_frame(fs, fs2, d);
    }
    assert forall|i: int| 0 <= i < pf.children@.len() implies #[trigger] pf.children@[i] == (if i
        < k {
        old_c[i]
    } else {
        old_c[i + 1]
    }) by {}
    assert forall|q: u64| #[trigger] fs2.contains_key(q) implies fs2[q].meta.path == q && q
        <= last_path && fs2[q].children@.no_duplicates() && (!fs2[q].spec_is_dir()
        ==> fs2[q].children@.len() == 0 && fs2[q].content@.len() <= MAX_FILE_LEN) && (q != 0
        ==> fs2[q].parent != q) by {
        assert(fs.contains_key(q));
        if q == par {
            assert(old_c.no_duplicates());
            assert forall|i: int, j: int|
                0 <= i < pf.children@.len() && 0 <= j < pf.children@.len() && i != j
                    implies pf.children@[i]
                != pf.children@[j] by {
                let oi = if i < k {
                    i
                } else {
                    i + 1
                };
                let oj = if j < k {
                    j
                } else {
                    j + 1
                };
                assert(pf.children@[i] == old_c[oi]);
                assert(pf.children@[j] == old_c[oj]);
            }
        }
    }
    assert forall|q: u64| #[trigger] fs2.contains_key(q) && q != 0 implies fs2.contains_key(
        fs2[q].parent,
    ) && fs2[fs2[q].parent].children@.contains(q) by {
        assert(fs.contains_key(q));
        let qp = fs[q].parent;
        assert(fs[qp].children@.contains(q));
        let m = choose|m: int| 0 <= m < fs[qp].children@.len() && fs[qp].children@[m] == q;
        if qp == path {
            assert(false);
        }
        if qp == par {
            assert(m != k);
            if m < k {
                assert(pf.children@[m] == q);
            } else {
                assert(pf.children@[m - 1] == q);
            }
        }
    }
    assert forall|q: u64, i: int|
        #![trigger fs2[q].children@[i]]
        fs2.contains_key(q) && 0 <= i < fs2[q].children@.len() implies fs2[q].children@[i] != 0
        && fs2.contains_key(fs2[q].children@[i]) && fs2[fs2[q].children@[i]].parent == q by {
        if q == par {
            let oi = if i < k {
                i
            } else {
                i + 1
            };
            assert(fs2[q].children@[i] == old_c[oi]);
            assert(old_c.no_duplicates());
            assert(old_c[oi] != path);
        } else {
            assert(fs[q].children@[i] == fs2[q].children@[i]);
            if fs[q].children@[i] == path {
                assert(fs[path].parent == q);
            }
        }
    }
    assert forall|q: u64, i: int, j: int|
        #![trigger fs2[q].children@[i], fs2[q].children@[j]]
        fs2.contains_key(q) && 0 <= i < fs2[q].children@.len() && 0 <= j < fs2[q].children@.len()
            && i != j implies fs2[fs2[q].children@[i]].meta.name@
        != fs2[fs2[q].children@[j]].meta.name@ by {
        if q == par {
            let oi = if i < k {
                i
            } else {
                i + 1
            };
            let oj = if j < k {
                j
            } else {
                j + 1
            };
            assert(fs2[q].children@[i] == old_c[oi]);
            assert(fs2[q].children@[j] == old_c[oj]);
            assert(old_c.no_duplicates());
            assert(old_c[oi] != path);
            assert(old_c[oj] != path);
            assert(fs[par].children@[oi] == old_c[oi]);
            assert(fs[par].children@[oj] == old_c[oj]);
        } else {
            assert(fs[q].children@[i] == fs2[q].children@[i]);
            assert(fs[q].children@[j] == fs2[q].children@[j]);
            if fs[q].children@[i] == path {
                assert(fs[path].parent == q);
            }
            if fs[q].children@[j] == path {
                assert(fs[path].parent == q);
            }
        }
    }
}

impl FileTree {
    /// Creates `name` in the directory at `path`, owned by `user`, with
    /// permissions `perm`, at the next unused path. Empties the directory's
    /// listing cache. Returns the new path.
    #[verifier::rlimit(40)]
    #[verifier::spinoff_prover]
    pub fn create(
        &mut self,
        path: u64,
        user: &String,
        name: &String,
        perm: FileMode,
        _mode: OpenMode,
    ) -> (r: Result<u64, ServerError>)
        requires
            old(self).wf(),
        ensures
            r matches Err(e) ==> e is NonFatal,
            final(self).wf(),
            tree_create_post(
                old(self).all_files@,
                old(self).last_path,
                final(self).all_files@,
                final(self).last_path,
                path, user@, name@, perm,
                r,
            ),
    {
        let ghost fs = self.all_files@;
        match self.all_files.get(&path) {
            None => {
                return rerr("unknown file");
            },
            Some(file) => {
                if file.is_file() {
                    return rerr("can't create under a file");
                }
                let mut i: usize = 0;
                while i < file.children.len()
                    invariant
                        fs == self.all_files@,
                        tree_wf(fs, self.last_path),
                        fs.contains_key(path),
                        *file == fs[path],
                        i <= file.children@.len(),
                        forall|j: int|
                            0 <= j < i ==> fs[#[trigger] fs[path].children@[j]].meta.name@
                                != name@,
                    decreases file.children@.len() - i,
                {
                    let c = file.children[i];
                    assert(fs[path].children@[i as int] == c);
                    match self.all_files.get(&c) {
                        Some(cf) => {
                            if cf.meta.name == *name {
                                return rerr("a file with that name already exists");
                            }
                        },
                        None => {
                            return rerr("unknown file");
                        },
                    }
                    i = i + 1;
                }
            },
        }
        if self.last_path == u64::MAX {
            return rerr("no paths left");
        }
        let np = self.last_path + 1;
        let meta = CommonFileMetaData {
            mode: perm,
            version: 0,
            path: np,
            atime: 0,
            mtime: 0,
            name: copy_string(name),
            uid: copy_string(user),
            gid: "users".to_owned(),
            muid: copy_string(user),
        };
        let new_file = File::new(meta, path);
        let mut pf = match self.all_files.remove(&path) {
            Some(f) => f,
            None => {
                return rerr("unknown file");
            },
        };
        pf.children.push(np);
        pf.content = Vec::new();
        proof {
            lemma_create_wf(fs, self.last_path, path, pf, np, new_file);
        }
        self.all_files.insert(path, pf);
        self.all_files.insert(np, new_file);
        self.last_path = np;
        assert(self.all_files@ =~= fs.insert(path, pf).insert(np, new_file));
        Ok(np)
    }

    /// Removes the node at `path` from the tree and from its parent's
    /// children, and empties the parent's listing cache. The root, and a
    /// directory that still has children, cannot be removed.
    #[verifier::rlimit(40)]
    #[verifier::spinoff_prover]
    pub fn remove(&mut self, path: u64, _user: &User) -> (r: Result<(), ServerError>)
        requires
            old(self).wf(),
        ensures
            r matches Err(e) ==> e is NonFatal,
            final(self).wf(),
            tree_remove_post(
                old(self).all_files@,
                old(self).last_path,
                final(self).all_files@,
                final(self).last_path,
                path,
                r,
            ),
    {
        let ghost fs = self.all_files@;
        if path == 0 {
            return rerr("can't remove the root");
        }
        let parent = match self.all_files.get(&path) {
            None => {
                return rerr("unknown file");
            },
            Some(f) => {
                if f.children.len() != 0 {
                    return rerr("directory not empty");
                }
                f.parent
            },
        };
        assert(fs[parent].children@.contains(path));
        let mut pf = match self.all_files.remove(&parent) {
            Some(f) => f,
            None => {
                return rerr("file was orphaned");
            },
        };
        let mut k: usize = 0;
        while k < pf.children.len() && pf.children[k] != path
            invariant
                pf == fs[parent],
                k <= pf.children@.len(),
                forall|j: int| 0 <= j < k ==> pf.children@[j] != path,
            decreases pf.children@.len() - k,
        {
            k = k + 1;
        }
        if k == pf.children.len() {
            proof {
                let m = choose|m: int| 0 <= m < fs[parent].children@.len()
                    && fs[parent].children@[m]
                    == path;
                assert(pf.children@[m] == path);
            }
            self.all_files.insert(parent, pf);
            return rerr("file was orphaned");
        }
        pf.children.remove(k);
        pf.content = Vec::new();
        proof {
            lemma_remove_wf(fs, self.last_path, path, pf, k as int);
        }
        self.all_files.insert(parent, pf);
        self.all_files.remove(&path);
        assert(self.all_files@ =~= fs.remove(path).insert(parent, pf));
        Ok(())
    }
}

/// What `wstat` asks that no rule refuses. A field left at its "don't
/// touch" value (all ones, or an empty string) asks nothing. Type, device,
/// qid, access time, owner and last modifier cannot change. A new mode needs
/// the owner and must keep the directory bit; a new mtime needs the owner or
/// write permission; a directory's length can only be set to 0, a file's
/// up to `MAX_FILE_LEN`.
pub open spec fn wstat_allowed(m: CommonFileMetaData, user: Seq<char>, st: StatView) -> bool {
    &&& st.type_ == 0xFFFF || st.type_ == 1
    &&& st.dev == 0xFFFF_FFFF || st.dev == 2
    &&& st.qid.file_type.bits == 0xFF || st.qid.file_type == FileType::spec_from_mode(m.mode)
    &&& st.qid.version == 0xFFFF_FFFF || st.qid.version == m.version
    &&& st.qid.path == 0xFFFF_FFFF_FFFF_FFFF || st.qid.path == m.path
    &&& st.atime == 0xFFFF_FFFF || st.atime == m.atime
    &&& st.uid.len() == 0 || st.uid == m.uid@
    &&& st.muid.len() == 0 || st.muid == m.muid@
    &&& st.mode.bits != 0xFFFF_FFFF ==> m.uid@ == user && st.mode.spec_is_dir()
        == m.mode.spec_is_dir()
    &&& st.mtime != 0xFFFF_FFFF ==> m.uid@ == user || spec_writable_for(m.mode, m.uid@, user)
    &&& st.length != 0xFFFF_FFFF_FFFF_FFFF ==> if m.mode.spec_is_dir() {
        st.length == 0
    } else {
        st.length <= MAX_FILE_LEN
    }
}

/// Whether `wstat` asks for any change to the metadata record itself.
pub open spec fn wstat_changes_meta(st: StatView) -> bool {
    st.mode.bits != 0xFFFF_FFFF || st.mtime != 0xFFFF_FFFF || st.name.len() != 0 || st.gid.len()
        != 0
}

/// The metadata record that `wstat` asks for: `b` is `a` with each field
/// that `st` touches replaced.
pub open spec fn wstat_meta(a: CommonFileMetaData, b: CommonFileMetaData, st: StatView) -> bool {
    &&& b.mode == (if st.mode.bits != 0xFFFF_FFFF {
        st.mode
    } else {
        a.mode
    })
    &&& b.mtime == (if st.mtime != 0xFFFF_FFFF {
        st.mtime
    } else {
        a.mtime
    })
    &&& b.name@ == (if st.name.len() != 0 {
        st.name
    } else {
        a.name@
    })
    &&& b.gid@ == (if st.gid.len() != 0 {
        st.gid
    } else {
        a.gid@
    })
    &&& b.version == a.version
    &&& b.path == a.path
    &&& b.atime == a.atime
    &&& b.uid@ == a.uid@
    &&& b.muid@ == a.muid@
}

/// Whether the node at `path` may take the name `name`: no sibling has it.
pub open spec fn name_free(fs: Map<u64, File>, path: u64, name: Seq<char>) -> bool {
    path == 0 || forall|i: int|
        0 <= i < fs[fs[path].parent].children@.len() && fs[fs[path].parent].children@[i] != path
            ==> fs[#[trigger] fs[fs[path].parent].children@[i]].meta.name@ != name
}

/// Checks a `wstat` request against the current record `current` of a file
/// (a directory where `is_dir`), on a copy: nothing changes unless every
/// check passes. Returns the new record, or `None` where the request leaves
/// the record as it is.
pub fn atomic_maybe_change(
    current: &CommonFileMetaData,
    is_dir: bool,
    user: &String,
    st: &Stat,
) -> (r: Result<Option<CommonFileMetaData>, ServerError>)
    requires
        is_dir == current.mode.spec_is_dir(),
    ensures
        r matches Err(e) ==> e is NonFatal,
        r is Ok <==> wstat_allowed(*current, user@, st@),
        r matches Ok(None) ==> !wstat_changes_meta(st@),
        r matches Ok(Some(m)) ==> wstat_changes_meta(st@) && wstat_meta(*current, m, st@),
{
    let is_owner = *user == current.uid;
    if !(st.type_ == 0xFFFF || st.type_ == 1) || !(st.dev == 0xFFFF_FFFF || st.dev == 2) {
        return rerr("can't change a file's type or device");
    }
    let ft = FileType::from_mode(current.mode);
    if !(st.qid.file_type.bits == 0xFF || st.qid.file_type == ft) || !(st.qid.version
        == 0xFFFF_FFFF || st.qid.version == current.version) || !(st.qid.path
        == 0xFFFF_FFFF_FFFF_FFFF || st.qid.path == current.path) {
        return rerr("can't change a file's qid");
    }
    if !(st.atime == 0xFFFF_FFFF || st.atime == current.atime) {
        return rerr("can't change a file's atime");
    }
    if !(st.uid.as_str().is_empty() || st.uid == current.uid) {
        return rerr("can't change a file's owner");
    }
    if !(st.muid.as_str().is_empty() || st.muid == current.muid) {
        return rerr("can't change a file's last modifier");
    }
    if st.mode.bits != 0xFFFF_FFFF {
        if !is_owner {
            return rerr("only the owner can change a file's mode");
        }
        if st.mode.is_dir() != is_dir {
            return rerr("can't change dir bit");
        }
    }
    if st.mtime != 0xFFFF_FFFF {
        let writable = current.mode.contains(OTHER_WRITE) || (current.mode.contains(OWNER_WRITE)
            && is_owner);
        if !is_owner && !writable {
            return rerr("not permitted to set mtime");
        }
    }
    if st.length != 0xFFFF_FFFF_FFFF_FFFF {
        if is_dir && st.length != 0 {
            return rerr("can't set length of dir");
        }
        if !is_dir && st.length > MAX_FILE_LEN {
            return rerr("length past the largest file size");
        }
    }
    let changes_name = !st.name.as_str().is_empty();
    let changes_gid = !st.gid.as_str().is_empty();
    if st.mode.bits == 0xFFFF_FFFF && st.mtime == 0xFFFF_FFFF && !changes_name && !changes_gid {
        return Ok(None);
    }
    let new_meta = CommonFileMetaData {
        mode: if st.mode.bits != 0xFFFF_FFFF {
            st.mode
        } else {
            current.mode
        },
        version: current.version,
        path: current.path,
        atime: current.atime,
        mtime: if st.mtime != 0xFFFF_FFFF {
            st.mtime
        } else {
            current.mtime
        },
        name: if changes_name {
            copy_string(&st.name)
        } else {
            copy_string(&current.name)
        },
        uid: copy_string(&current.uid),
        gid: if changes_gid {
            copy_string(&st.gid)
        } else {
            copy_string(&current.gid)
        },
        muid: copy_string(&current.muid),
    };
    Ok(Some(new_meta))
}

#[verifier::rlimit(40)]
#[verifier::spinoff_prover]
pub proof fn lemma_rename_wf(fs: Map<u64, File>, last_path: u64, p: u64, f: File)
    requires
        tree_wf(fs, last_path),
        fs.contains_key(p),
        f.meta.path == fs[p].meta.path,
        f.parent == fs[p].parent,
        f.children@ == fs[p].children@,
        f.spec_is_dir() == fs[p].spec_is_dir(),
        !f.spec_is_dir() ==> f.content@.len() <= MAX_FILE_LEN,
        name_free(fs, p, f.meta.name@),
        f.spec_stat() == fs[p].spec_stat() || p == 0 || fs[fs[p].parent].content@.len() == 0,
        f.spec_is_dir() && f.content@.len() > 0 ==> listing(fs, p) == Ok::<Seq<u8>, SerError>(
            f.content@,
        ),
    ensures
        tree_wf(fs.insert(p, f), last_path),
{
    lemma_caches_after_replace(fs, last_path, p, f);
    let fs2 = fs.insert(p, f);
    let par = fs[p].parent;
    assert forall|q: u64| #[trigger] fs2.contains_key(q) && q != 0 implies fs2.contains_key(
        fs2[q].parent,
    ) && fs2[fs2[q].parent].children@.contains(q) by {
        assert(fs.contains_key(q));
        assert(fs[fs[q].parent].children@.contains(q));
    }
    assert forall|q: u64, i: int|
        #![trigger fs2[q].children@[i]]
        fs2.contains_key(q) && 0 <= i < fs2[q].children@.len() implies fs2[q].children@[i] != 0
        && fs2.contains_key(fs2[q].children@[i]) && fs2[fs2[q].children@[i]].parent == q by {
        assert(fs[q].children@[i] == fs2[q].children@[i]);
    }
    assert forall|q: u64, i: int, j: int|
        #![trigger fs2[q].children@[i], fs2[q].children@[j]]
        fs2.contains_key(q) && 0 <= i < fs2[q].children@.len() && 0 <= j < fs2[q].children@.len()
            && i != j implies fs2[fs2[q].children@[i]].meta.name@
        != fs2[fs2[q].children@[j]].meta.name@ by {
        let ci = fs[q].children@[i];
        let cj = fs[q].children@[j];
        assert(ci == fs2[q].children@[i]);
        assert(cj == fs2[q].children@[j]);
        assert(fs[q].children@.no_duplicates());
        if ci == p {
            assert(fs[ci].parent == q);
            assert(p != 0);
            assert(fs[par].children@[j] == cj);
        } else if cj == p {
            assert(fs[cj].parent == q);
            assert(p != 0);
            assert(fs[par].children@[i] == ci);
        }
    }
}

impl FileTree {
    /// Applies a `wstat` request by `user` to the node at `path`, all or
    /// nothing: metadata fields, a rename (refused where a sibling has the
    /// name) and a file length. Any change empties the parent's listing
    /// cache.
    #[verifier::rlimit(40)]
    #[verifier::spinoff_prover]
    pub fn wstat(&mut self, path: u64, user: &String, st: &Stat) -> (r: Result<(), ServerError>)
        requires
            old(self).wf(),
        ensures
            r matches Err(e) ==> e is NonFatal,
            final(self).wf(),
            tree_wstat_post(
                old(self).all_files@,
                old(self).last_path,
                final(self).all_files@,
                final(self).last_path,
                path, user@, st@,
                r,
            ),
    {
        let ghost fs = self.all_files@;
        let parent = match self.all_files.get(&path) {
            None => {
                return rerr("unknown file");
            },
            Some(f) => f.parent,
        };
        if !st.name.as_str().is_empty() && path != 0 {
            let siblings = match self.all_files.get(&parent) {
                None => {
                    return rerr("file was orphaned");
                },
                Some(pf) => pf,
            };
            let mut i: usize = 0;
            while i < siblings.children.len()
                invariant
                    fs == self.all_files@,
                    tree_wf(fs, self.last_path),
                    fs.contains_key(path),
                    path != 0,
                    st.name@.len() != 0,
                    parent == fs[path].parent,
                    *siblings == fs[parent],
                    i <= siblings.children@.len(),
                    forall|j: int|
                        0 <= j < i && fs[parent].children@[j] != path
                            ==> fs[#[trigger] fs[parent].children@[j]].meta.name@
                            != st.name@,
                decreases siblings.children@.len() - i,
            {
                let c = siblings.children[i];
                assert(fs[parent].children@[i as int] == c);
                if c != path {
                    match self.all_files.get(&c) {
                        Some(cf) => {
                            if cf.meta.name == st.name {
                                return rerr("a file with that name already exists");
                            }
                        },
                        None => {
                            return rerr("unknown file");
                        },
                    }
                }
                i = i + 1;
            }
        }
        let (is_dir, maybe_new_meta) = match self.all_files.get(&path) {
            None => {
                return rerr("unknown file");
            },
            Some(f) => {
                let is_dir = f.is_dir();
                match atomic_maybe_change(&f.meta, is_dir, user, st) {
                    Ok(m) => (is_dir, m),
                    Err(e) => {
                        return Err(e);
                    },
                }
            },
        };
        let changing_length = st.length != 0xFFFF_FFFF_FFFF_FFFF;
        let changed = maybe_new_meta.is_some() || changing_length;
        proof {
            if path != 0 {
                assert(fs[parent].children@.contains(path));
                assert(fs[parent].spec_is_dir());
            }
        }
        if changed && path != 0 {
            self.invalidate(parent);
        }
        let ghost fs_mid = self.all_files@;
        assert(fs_mid[path] == fs[path]);
        let mut f = match self.all_files.remove(&path) {
            Some(f) => f,
            None => {
                return rerr("unknown file");
            },
        };
        match maybe_new_meta {
            Some(m) => {
                f.meta = m;
            },
            None => {},
        }
        if changing_length && !is_dir {
            assert(st.length <= MAX_FILE_LEN);
            assert(st.length as usize as int == st.length as int);
            f.content = resize_to(&f.content, st.length as usize);
        }
        proof {
            if path != 0 {
                assert(fs[fs[path].parent].children@.contains(path));
                let k = choose|k: int|
                    0 <= k < fs[fs[path].parent].children@.len()
                        && fs[fs[path].parent].children@[k] == path;
                assert(fs[fs[path].parent].children@[k] == path);
                assert forall|i: int|
                    0 <= i < fs_mid[fs_mid[path].parent].children@.len()
                        && fs_mid[fs_mid[path].parent].children@[i] != path implies fs_mid[
                        #[trigger] fs_mid[fs_mid[path].parent].children@[i]].meta.name@
                    != f.meta.name@ by {
                    let c = fs[fs[path].parent].children@[i];
                    assert(fs_mid[fs_mid[path].parent].children@[i] == c);
                    assert(fs_mid[c].meta.name@ == fs[c].meta.name@);
                    if !(st.name@.len() != 0) {
                        assert(fs[fs[path].parent].children@[i] != path);
                    }
                }
            }
            if f.spec_is_dir() && f.content@.len() > 0 {
                lemma_cache_current(fs_mid, self.last_path, path);
            }
            lemma_rename_wf(fs_mid, self.last_path, path, f);
        }
        self.all_files.insert(path, f);
        proof {
            assert(self.all_files@ =~= fs_mid.insert(path, f));
            if changed && path != 0 {
                assert(self.all_files@ =~= fs.insert(path, f).insert(
                    parent,
                    self.all_files@[parent],
                ));
            } else {
                assert(fs_mid =~= fs);
                if !changed {
                    assert(self.all_files@ =~= fs);
                }
            }
        }
        Ok(())
    }
}

/// The name that walks to the parent.
pub open spec fn dotdot() -> Seq<char> {
    seq!['.', '.']
}

/// The first of `kids` called `name`.
pub open spec fn find_named(fs: Map<u64, File>, kids: Seq<u64>, name: Seq<char>) -> Option<u64>
    decreases kids.len(),
{
    if kids.len() == 0 {
        None
    } else if fs[kids[0]].meta.name@ == name {
        Some(kids[0])
    } else {
        find_named(fs, kids.drop_first(), name)
    }
}

/// One step of a walk from `cur`: `..` goes to the parent (the root stays
/// put), another name to the child of that name. Nothing is walked from a
/// plain file, nor to a name that no child has.
pub open spec fn walk_step(fs: Map<u64, File>, cur: u64, name: Seq<char>) -> Option<u64> {
    if !fs.contains_key(cur) || !fs[cur].spec_is_dir() {
        None
    } else if name == dotdot() {
        Some(
            if cur == 0 {
                0
            } else {
                fs[cur].parent
            },
        )
    } else {
        find_named(fs, fs[cur].children@, name)
    }
}

/// The paths a walk from `cur` along `names` reaches, up to the first step
/// that fails.
pub open spec fn walk_paths(fs: Map<u64, File>, cur: u64, names: Seq<Seq<char>>) -> Seq<u64>
    decreases names.len(),
{
    if names.len() == 0 {
        Seq::empty()
    } else {
        match walk_step(fs, cur, names[0]) {
            None => Seq::empty(),
            Some(n) => seq![n] + walk_paths(fs, n, names.drop_first()),
        }
    }
}

pub proof fn lemma_find_named_in(fs: Map<u64, File>, kids: Seq<u64>, name: Seq<char>)
    requires
        find_named(fs, kids, name) is Some,
    ensures
        kids.contains(find_named(fs, kids, name)->Some_0),
    decreases kids.len(),
{
    if fs[kids[0]].meta.name@ != name {
        lemma_find_named_in(fs, kids.drop_first(), name);
        let n = find_named(fs, kids, name)->Some_0;
        let k = choose|k: int| 0 <= k < kids.drop_first().len() && kids.drop_first()[k] == n;
        assert(kids[k + 1] == n);
    } else {
        assert(kids[0] == find_named(fs, kids, name)->Some_0);
    }
}

/// A walk step lands on a node of the tree.
pub proof fn lemma_walk_step_in_tree(fs: Map<u64, File>, last_path: u64, cur: u64, name: Seq<char>)
    requires
        tree_wf(fs, last_path),
        walk_step(fs, cur, name) is Some,
    ensures
        fs.contains_key(walk_step(fs, cur, name)->Some_0),
{
    if name != dotdot() {
        lemma_find_named_in(fs, fs[cur].children@, name);
        let n = walk_step(fs, cur, name)->Some_0;
        let k = choose|k: int| 0 <= k < fs[cur].children@.len() && fs[cur].children@[k] == n;
        assert(fs[cur].children@[k] == n);
    }
}

impl FileTree {
    /// The paths of the children of the directory at `path`, in order.
    pub fn children_of(&self, path: u64) -> (r: Vec<u64>)
        ensures
            self.all_files@.contains_key(path) ==> r@ == self.all_files@[path].children@,
            !self.all_files@.contains_key(path) ==> r@.len() == 0,
    {
        match self.all_files.get(&path) {
            Some(f) => f.children.clone(),
            None => Vec::new(),
        }
    }

    /// The child of the directory `f` at `cur` called `name`, if any.
    fn find_child(&self, cur: u64, f: &File, name: &String) -> (r: Option<u64>)
        requires
            self.wf(),
            self.all_files@.contains_key(cur),
            *f == self.all_files@[cur],
            f.spec_is_dir(),
            name@ != dotdot(),
        ensures
            r == walk_step(self.all_files@, cur, name@),
    {
        let ghost fs = self.all_files@;
        let ghost kids = f.children@;
        let mut j: usize = 0;
        assert(kids.subrange(0, kids.len() as int) =~= kids);
        while j < f.children.len()
            invariant
                fs == self.all_files@,
                tree_wf(fs, self.last_path),
                fs.contains_key(cur),
                *f == fs[cur],
                kids == f.children@,
                name@ != dotdot(),
                f.spec_is_dir(),
                j <= kids.len(),
                find_named(fs, kids, name@) == find_named(
                    fs,
                    kids.subrange(j as int, kids.len() as int),
                    name@,
                ),
            decreases kids.len() - j,
        {
            let c = f.children[j];
            let ghost rest = kids.subrange(j as int, kids.len() as int);
            assert(rest[0] == c);
            assert(rest.drop_first() =~= kids.subrange(j + 1, kids.len() as int));
            assert(fs[cur].children@[j as int] == c);
            match self.all_files.get(&c) {
                Some(cf) => {
                    if cf.meta.name == *name {
                        assert(find_named(fs, rest, name@) == Some(c));
                        assert(fs[cur].children@ == kids);
                        assert(name@ != dotdot());
                        assert(walk_step(fs, cur, name@) == find_named(fs, kids, name@));
                        return Some(c);
                    }
                },
                None => {},
            }
            j = j + 1;
        }
        assert(kids.subrange(j as int, kids.len() as int).len() == 0);
        None
    }

    /// Walks from the node at `path` along `wname`, returning the qids of
    /// the nodes reached, up to the first step that fails.
    #[verifier::rlimit(40)]
    #[verifier::spinoff_prover]
    pub fn walk_from(&self, path: u64, wname: &Vec<String>) -> (r: Vec<Qid>)
        requires
            self.wf(),
            self.all_files@.contains_key(path),
        ensures
            r@.len() == walk_paths(self.all_files@, path, views_of(wname@)).len(),
            forall|k: int|
                0 <= k < r@.len() ==> self.all_files@.contains_key(
                    walk_paths(self.all_files@, path, views_of(wname@))[k],
                ) && #[trigger] r@[k] == self.all_files@[walk_paths(
                    self.all_files@,
                    path,
                    views_of(wname@),
                )[k]].spec_qid(),
    {
        let ghost fs = self.all_files@;
        let ghost names = views_of(wname@);
        let dd = "..".to_owned();
        proof {
            reveal_strlit("..");
        }
        let mut cur = path;
        let mut out: Vec<Qid> = Vec::new();
        let ghost mut ps: Seq<u64> = Seq::empty();
        let mut i: usize = 0;
        let mut done = false;
        assert(names.subrange(0, names.len() as int) =~= names);
        while i < wname.len() && !done
            invariant
                fs == self.all_files@,
                tree_wf(fs, self.last_path),
                fs.contains_key(cur),
                names == views_of(wname@),
                names.len() == wname@.len(),
                dd@ == dotdot(),
                i <= wname@.len(),
                ps + walk_paths(fs, cur, names.subrange(i as int, names.len() as int))
                    == walk_paths(fs, path, names),
                done ==> walk_paths(fs, cur, names.subrange(i as int, names.len() as int)).len()
                    == 0,
                out@.len() == ps.len(),
                forall|k: int| 0 <= k < ps.len() ==> fs.contains_key(#[trigger] ps[k]),
                forall|k: int| 0 <= k < ps.len() ==> #[trigger] out@[k] == fs[ps[k]].spec_qid(),
            decreases (wname@.len() - i) * 2 + (if done {
                0int
            } else {
                1int
            }),
        {
            let ghost rest = names.subrange(i as int, names.len() as int);
            assert(rest[0] == names[i as int]);
            assert(names[i as int] == wname@[i as int]@);
            assert(rest.drop_first() =~= names.subrange(i + 1, names.len() as int));
            let f = match self.all_files.get(&cur) {
                Some(f) => f,
                None => {
                    return out;
                },
            };
            let next = if f.is_file() {
                None
            } else if wname[i] == dd {
                Some(
                    if cur == 0 {
                        0
                    } else {
                        f.parent
                    },
                )
            } else {
                self.find_child(cur, f, &wname[i])
            };
            assert(next == walk_step(fs, cur, rest[0]));
            proof {
                if next is Some {
                    lemma_walk_step_in_tree(fs, self.last_path, cur, rest[0]);
                }
            }
            match next {
                None => {
                    done = true;
                },
                Some(n) => {
                    let q = match self.all_files.get(&n) {
                        Some(nf) => nf.qid(),
                        None => {
                            return out;
                        },
                    };
                    let ghost old_out = out@;
                    out.push(q);
                    proof {
                        assert((ps + seq![n]) + walk_paths(fs, n, rest.drop_first()) =~= ps + (
                        seq![n] + walk_paths(fs, n, rest.drop_first())));
                        let old_ps = ps;
                        ps = ps.push(n);
                        assert(ps =~= old_ps + seq![n]);
                        assert forall|k: int|
                            0 <= k < ps.len() implies fs.contains_key(#[trigger] ps[k]) by {
                            if k < old_ps.len() {
                                assert(ps[k] == old_ps[k]);
                            }
                        }
                        assert forall|k: int| 0 <= k < ps.len() implies #[trigger] out@[k]
                            == fs[ps[k]].spec_qid() by {
                            if k < old_ps.len() {
                                assert(ps[k] == old_ps[k]);
                                assert(out@[k] == old_out[k]);
                            }
                        }
                    }
                    cur = n;
                    i = i + 1;
                },
            }
        }
        proof {
            if !done {
                assert(names.subrange(i as int, names.len() as int).len() == 0);
            }
            assert(ps + walk_paths(fs, cur, names.subrange(i as int, names.len() as int)) =~= ps);
        }
        out
    }

    /// Walks from the root along `wname`.
    pub fn walk(&self, wname: &Vec<String>) -> (r: Vec<Qid>)
        requires
            self.wf(),
        ensures
            r@.len() == walk_paths(self.all_files@, 0, views_of(wname@)).len(),
            forall|k: int|
                0 <= k < r@.len() ==> #[trigger] r@[k] == self.all_files@[walk_paths(
                    self.all_files@,
                    0,
                    views_of(wname@),
                )[k]].spec_qid(),
    {
        self.walk_from(0, wname)
    }
}

/// What `FileTree::read` leaves and returns.
pub open spec fn tree_read_post(
    fs0: Map<u64, File>,
    lp0: u64,
    fs1: Map<u64, File>,
    lp1: u64,
    path: u64, offset: u64, count: u32,
    r: Result<Vec<u8>, ServerError>,
) -> bool {
    &&& lp1 == lp0
    &&& !fs0.contains_key(path) ==> r is Err && fs1
        == fs0
    &&& fs0.contains_key(path) ==> {
        let f = fs0[path];
        if needs_listing(f) {
            match listing(fs0, path) {
                Err(_) => r is Err && fs1 == fs0,
                Ok(l) => {
                    &&& r matches Ok(d) && d@ == window(l, offset as int, count as int)
                    &&& fs1 == fs0.insert(
                        path,
                        fs1[path],
                    )
                    &&& fs1[path].content@ == l
                    &&& fs1[path].meta == f.meta
                    &&& fs1[path].parent == f.parent
                    &&& fs1[path].children@ == f.children@
                },
            }
        } else {
            &&& r matches Ok(d) && d@ == window(f.content@, offset as int, count as int)
            &&& fs1 == fs0
        }
    }
}

/// What `FileTree::write` leaves and returns.
pub open spec fn tree_write_post(
    fs0: Map<u64, File>,
    lp0: u64,
    fs1: Map<u64, File>,
    lp1: u64,
    path: u64, user: Seq<char>, offset: u64, data: Seq<u8>,
    r: Result<u32, ServerError>,
) -> bool {
    &&& lp1 == lp0
    &&& r is Ok <==> fs0.contains_key(path) && !fs0[path].spec_is_dir() && offset + data.len()
        <= MAX_FILE_LEN
    &&& r is Err ==> fs1 == fs0
    &&& r matches Ok(n) ==> {
        let f = fs0[path];
        let g = fs1[path];
        let changed = f.meta.muid@ != user || g.content@.len() != f.content@.len();
        &&& n == data.len()
        &&& g.content@ == write_at(f.content@, offset as int, data)
        &&& g.meta.muid@ == user
        &&& same_but_muid(f.meta, g.meta)
        &&& g.parent == f.parent
        &&& g.children@ == f.children@
        &&& changed ==> fs1 == fs0.insert(path, g).insert(
            f.parent,
            fs1[f.parent],
        ) && cleared(fs0[f.parent], fs1[f.parent])
        &&& !changed ==> fs1 == fs0.insert(path, g)
    }
}

/// What `FileTree::open` leaves and returns.
pub open spec fn tree_open_post(
    fs0: Map<u64, File>,
    lp0: u64,
    fs1: Map<u64, File>,
    lp1: u64,
    path: u64, user: Seq<char>, mode: OpenMode,
    r: Result<(), ServerError>,
) -> bool {
    &&& lp1 == lp0
    &&& r is Ok <==> fs0.contains_key(path) && open_allowed(
        fs0[path],
        user,
        mode,
    )
    &&& fs0.contains_key(path) && fs0[path].spec_is_dir() && (
        mode.spec_is_writable() || mode.spec_truncates() || mode.spec_removes_on_close())
        ==> r is Err
    &&& r is Err ==> fs1 == fs0
    &&& r is Ok && !(!fs0[path].spec_is_dir() && mode.spec_truncates())
        ==> fs1 == fs0
    &&& r is Ok && !fs0[path].spec_is_dir() && mode.spec_truncates() ==> {
        let f = fs0[path];
        let g = fs1[path];
        &&& g.content@.len() == 0
        &&& g.meta.muid@ == user
        &&& same_but_muid(f.meta, g.meta)
        &&& g.parent == f.parent
        &&& g.children@ == f.children@
        &&& fs1 == fs0.insert(path, g).insert(
            f.parent,
            fs1[f.parent],
        )
        &&& cleared(fs0[f.parent], fs1[f.parent])
    }
}

/// What `FileTree::create` leaves and returns.
pub open spec fn tree_create_post(
    fs0: Map<u64, File>,
    lp0: u64,
    fs1: Map<u64, File>,
    lp1: u64,
    path: u64, user: Seq<char>, name: Seq<char>, perm: FileMode,
    r: Result<u64, ServerError>,
) -> bool {
    &&& r is Ok <==> create_allowed(fs0, lp0, path, name)
    &&& r is Err ==> fs1 == fs0 && lp1
        == lp0
    &&& r matches Ok(np) ==> {
        let pf = fs1[path];
        let nf = fs1[np];
        &&& np == lp0 + 1
        &&& lp1 == np
        &&& fs1 == fs0.insert(path, pf).insert(np, nf)
        &&& pf.meta == fs0[path].meta
        &&& pf.parent == fs0[path].parent
        &&& pf.children@ == fs0[path].children@.push(np)
        &&& pf.content@.len() == 0
        &&& nf.meta.name@ == name
        &&& nf.meta.uid@ == user
        &&& nf.meta.muid@ == user
        &&& nf.meta.mode == perm
        &&& nf.meta.path == np
        &&& nf.meta.version == 0
        &&& nf.parent == path
        &&& nf.children@.len() == 0
        &&& nf.content@.len() == 0
    }
}

/// What `FileTree::remove` leaves and returns.
pub open spec fn tree_remove_post(
    fs0: Map<u64, File>,
    lp0: u64,
    fs1: Map<u64, File>,
    lp1: u64,
    path: u64,
    r: Result<(), ServerError>,
) -> bool {
    &&& lp1 == lp0
    &&& r is Ok <==> path != 0 && fs0.contains_key(path) && fs0[path].children@.len() == 0
    &&& r is Err ==> fs1 == fs0
    &&& r is Ok ==> {
        let par = fs0[path].parent;
        let pf = fs1[par];
        &&& fs1 == fs0.remove(path).insert(par, pf)
        &&& !fs1.contains_key(path)
        &&& pf.meta == fs0[par].meta
        &&& pf.parent == fs0[par].parent
        &&& pf.content@.len() == 0
        &&& exists|k: int|
            0 <= k < fs0[par].children@.len()
                && fs0[par].children@[k] == path
                && pf.children@ == fs0[par].children@.remove(k)
    }
}

/// What `FileTree::wstat` leaves and returns.
pub open spec fn tree_wstat_post(
    fs0: Map<u64, File>,
    lp0: u64,
    fs1: Map<u64, File>,
    lp1: u64,
    path: u64, user: Seq<char>, st: StatView,
    r: Result<(), ServerError>,
) -> bool {
    &&& lp1 == lp0
    &&& r is Ok <==> fs0.contains_key(path) && wstat_allowed(
        fs0[path].meta,
        user,
        st,
    ) && (st.name.len() != 0 ==> name_free(fs0, path, st.name))
    &&& r is Err ==> fs1 == fs0
    &&& r is Ok ==> {
        let f = fs0[path];
        let g = fs1[path];
        let resizes = st.length != 0xFFFF_FFFF_FFFF_FFFF;
        let changed = wstat_changes_meta(st) || resizes;
        &&& wstat_changes_meta(st) ==> wstat_meta(f.meta, g.meta, st)
        &&& !wstat_changes_meta(st) ==> g.meta == f.meta
        &&& g.content@ == (if resizes && !f.spec_is_dir() {
            resized(f.content@, st.length as int)
        } else {
            f.content@
        })
        &&& g.parent == f.parent
        &&& g.children@ == f.children@
        &&& changed && path != 0 ==> fs1 == fs0.insert(
            path,
            g,
        ).insert(f.parent, fs1[f.parent]) && cleared(
            fs0[f.parent],
            fs1[f.parent],
        )
        &&& path == 0 ==> fs1 == fs0.insert(path, g)
        &&& !changed ==> fs1 == fs0
    }
}

/// Every node but the root is among its parent's children.
pub proof fn parent_lists_child(fs: Map<u64, File>, last_path: u64, n: u64)
    requires
        tree_wf(fs, last_path),
        fs.contains_key(n),
        n != 0,
    ensures
        fs.contains_key(fs[n].parent),
        fs[fs[n].parent].children@.contains(fs[n].meta.path),
{
}

/// No two children of one directory share a name.
pub proof fn siblings_have_distinct_names(
    fs: Map<u64, File>,
    last_path: u64,
    dir: u64,
    i: int,
    j: int,
)
    requires
        tree_wf(fs, last_path),
        fs.contains_key(dir),
        0 <= i < fs[dir].children@.len(),
        0 <= j < fs[dir].children@.len(),
        i != j,
    ensures
        fs[fs[dir].children@[i]].meta.name@ != fs[fs[dir].children@[j]].meta.name@,
{
}

/// After a create in a directory succeeds, the directory's listing must be
/// rebuilt by the next read, and one of the records it is rebuilt from
/// carries the new name.
pub proof fn created_name_is_listed(
    fs0: Map<u64, File>,
    lp0: u64,
    fs1: Map<u64, File>,
    lp1: u64,
    path: u64,
    user: Seq<char>,
    name: Seq<char>,
    perm: FileMode,
    r: Result<u64, ServerError>,
)
    requires
        tree_wf(fs0, lp0),
        tree_create_post(fs0, lp0, fs1, lp1, path, user, name, perm, r),
        r is Ok,
    ensures
        needs_listing(fs1[path]),
        exists|i: int|
            0 <= i < listing_entries(fs1, path).len()
                && (#[trigger] listing_entries(fs1, path)[i]).name
                == name,
{
    let np = r->Ok_0;
    let kids = fs1[path].children@;
    let i = kids.len() - 1;
    assert(kids[i] == np);
    assert(listing_entries(fs1, path)[i] == fs1[np].spec_stat());
}

/// An empty walk reaches nothing, and `..` from the root stays at the root.
pub proof fn walk_edges(fs: Map<u64, File>, last_path: u64, p: u64)
    requires
        tree_wf(fs, last_path),
    ensures
        walk_paths(fs, p, Seq::empty()).len() == 0,
        walk_paths(fs, 0, seq![dotdot()]) == seq![0u64],
{
    let names = seq![dotdot()];
    assert(names[0] == dotdot());
    assert(names.drop_first().len() == 0);
    assert(walk_step(fs, 0, names[0]) == Some(0u64));
    assert(walk_paths(fs, 0, names.drop_first()) == Seq::<u64>::empty());
    assert(walk_paths(fs, 0, names) == seq![0u64] + Seq::<u64>::empty());
    assert(seq![0u64] + Seq::<u64>::empty() =~= seq![0u64]);
}

/// A read of `count` bytes at `off` returns `min(count, max(0, len - off))`
/// bytes.
pub proof fn read_length(c: Seq<u8>, off: int, count: int)
    requires
        0 <= off,
        0 <= count,
    ensures
        window(c, off, count).len() == if c.len() - off <= 0 {
            0
        } else if count <= c.len() - off {
            count
        } else {
            c.len() - off
        },
{
}

/// A tree holding only the root directory, owned by `user`.
pub fn mktree(user: String) -> (r: FileTree)
    ensures
        r.wf(),
        r.last_path == 0,
        r.all_files@.dom() == set![0u64],
        r.all_files@[0].meta.uid@ == user@,
        r.all_files@[0].meta.mode.bits == DMDIR | 0o775,
        r.all_files@[0].meta.name@ == "/"@,
        r.all_files@[0].meta.path == 0,
        r.all_files@[0].meta.version == 0,
        r.all_files@[0].parent == 0,
        r.all_files@[0].children@.len() == 0,
        r.all_files@[0].content@.len() == 0,
{
    let root = File {
        parent: 0,
        content: Vec::new(),
        meta: CommonFileMetaData {
            version: 0,
            path: 0,
            mode: FileMode {
                bits: DMDIR | OWNER_READ | OWNER_WRITE | OWNER_EXEC | GROUP_READ | GROUP_WRITE
                    | GROUP_EXEC | OTHER_READ | OTHER_EXEC,
            },
            atime: 3,
            mtime: 4,
            name: "/".to_owned(),
            uid: user,
            gid: "gid".to_owned(),
            muid: "muid".to_owned(),
        },
        children: Vec::new(),
    };
    assert(DMDIR | OWNER_READ | OWNER_WRITE | OWNER_EXEC | GROUP_READ | GROUP_WRITE | GROUP_EXEC
        | OTHER_READ | OTHER_EXEC == DMDIR | 0o775) by (bit_vector);
    assert(DMDIR | 0o775u32 == 0x8000_01FDu32) by (bit_vector);
    let mut all_files: HashMap<u64, File> = HashMap::new();
    all_files.insert(0, root);
    let t = FileTree { last_path: 0, all_files };
    assert(t.all_files@.dom() =~= set![0u64]);
    proof {
        reveal(caches_current);
    }
    t
}

} // verus!
