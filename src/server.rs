//! The message dispatcher of one connection: it takes framed requests,
//! routes them to the session, and frames the replies. The connection's
//! reading and writing stay with the caller, who performs the `Action`
//! each frame yields.
use crate::errors::{rerr, ServerError};
use crate::message::{
    enc_message, is_known_type, is_request_type, lemma_body_starts_with_tag, Fcall, Rattach, Rauth, Rclunk,
    Rcreate, Rerror, Rflush, Ropen, Rread, Rremove, Rstat, Rversion, Rwalk, Rwrite, Rwstat, Tattach,
    Tauth, Tclunk, Tcreate, Tflush, Topen, Tread, Tremove, Tstat, Tversion, Twalk, Twrite, Twstat,
    RERROR, TVERSION,
};
use crate::p2000::{copy_string, NOFID};
use crate::session::{
    session_clunk_post, session_create_post, session_open_post, session_read_post,
    session_remove_post, session_walk_post, session_write_post, session_wstat_post, FileHandle,
    Session,
};
use crate::tree::FileTree;
use crate::wire::{
    get_u16, get_u32, lemma_int_bytes, put_bytes, put_u32, put_u8, utf8_len, SerError,
    STRING_LEN_MAX,
};
use vstd::bytes::*;
use vstd::prelude::*;
use vstd::slice::slice_subrange;

verus! {

/// Bytes of an `Rread` before its data: size, type, tag and count.
pub const RREAD_HEADER: u32 = 11;

/// Smallest frame: size, type and tag.
pub const FRAME_MIN: u32 = 7;

/// What the caller does with the connection after a frame.
#[derive(Debug)]
pub enum Action {
    /// Send these bytes, then read the next frame.
    Reply(Vec<u8>),
    /// Send nothing, then read the next frame.
    Skip,
    /// Send these bytes, if any, then close the connection.
    Close(Option<Vec<u8>>),
}

/// `b` is the message `f` framed: its size (itself, the type byte and the
/// body), its type, its body.
pub open spec fn framed_message(b: Seq<u8>, f: Fcall) -> bool {
    enc_message(f) matches Ok(body) && b == spec_u32_to_le_bytes((body.len() + 5) as u32) + seq![
        f.spec_type_id(),
    ] + body
}

/// The tag of a framed request.
pub open spec fn frame_tag(req: Seq<u8>) -> u16 {
    spec_u16_from_le_bytes(req.subrange(5, 7))
}

/// `b` answers the framed request `req`: it is one framed message, with
/// the request's tag, of the request's reply type or `Rerror`.
pub open spec fn answers(req: Seq<u8>, b: Seq<u8>) -> bool {
    exists|resp: Fcall|
        framed_message(b, resp) && resp.spec_tag() == frame_tag(req) && (resp.spec_type_id()
            == req[4] + 1 || resp.spec_type_id() == RERROR)
}

/// `b` is a framed `Rerror` with `tag`.
pub open spec fn is_rerror(b: Seq<u8>, tag: u16) -> bool {
    exists|f: Fcall| framed_message(b, f) && f.spec_tag() == tag && f.spec_type_id() == RERROR
}

/// `b` is what a request with `tag` gets for the outcome `res` of its
/// handling: the reply framed, or, where the reply cannot be encoded, an
/// `Rerror`; for a failure, an `Rerror` that carries the failure's message
/// (where it fits in a string).
pub open spec fn replies_with(b: Seq<u8>, tag: u16, res: Result<Fcall, ServerError>) -> bool {
    match res {
        Ok(resp) => if enc_message(resp) is Ok {
            framed_message(b, resp)
        } else {
            is_rerror(b, tag)
        },
        Err(ServerError::NonFatal { msg }) => exists|e: Rerror|
            framed_message(b, Fcall::Rerror(e)) && e.tag == tag && (utf8_len(msg@)
                <= STRING_LEN_MAX ==> e.ename@ == msg@),
        Err(_) => false,
    }
}

/// The body of a framed request decodes as a message of its type.
pub open spec fn decodes(req: Seq<u8>) -> bool {
    exists|f: Fcall|
        f.spec_type_id() == req[4] && #[trigger] enc_message(f) == Ok::<Seq<u8>, SerError>(
            req.subrange(5, req.len() as int),
        )
}

/// A frame whose size field matches its length.
pub open spec fn well_framed(req: Seq<u8>) -> bool {
    req.len() >= FRAME_MIN && spec_u32_from_le_bytes(req.subrange(0, 4)) == req.len()
}

/// The count a read may return within a negotiated `msize` (no limit
/// before negotiation).
pub open spec fn read_limit(msize: u32, count: u32) -> u32 {
    if msize == 0 {
        count
    } else if msize <= RREAD_HEADER {
        0
    } else if count > msize - RREAD_HEADER {
        (msize - RREAD_HEADER) as u32
    } else {
        count
    }
}

/// Frames the message `f`.
pub fn frame_message(f: &Fcall) -> (r: Result<Vec<u8>, SerError>)
    ensures
        r matches Ok(b) ==> framed_message(b@, *f),
        r matches Err(e) ==> enc_message(*f) == Err::<Seq<u8>, SerError>(e),
{
    let body = f.encode()?;
    let mut out: Vec<u8> = Vec::new();
    put_u32(&mut out, (body.len() + 5) as u32);
    put_u8(&mut out, f.msg_type_id());
    put_bytes(&mut out, body.as_slice());
    assert(out@ =~= spec_u32_to_le_bytes((body@.len() + 5) as u32) + seq![f.spec_type_id()]
        + body@);
    Ok(out)
}

/// The size a frame header declares, where it is a possible frame size.
pub fn frame_size(header: &[u8]) -> (r: Option<u32>)
    ensures
        r matches Some(n) ==> header@.len() >= 4 && n == spec_u32_from_le_bytes(
            header@.subrange(0, 4),
        ) && n >= FRAME_MIN,
        r is None ==> header@.len() < 4 || spec_u32_from_le_bytes(header@.subrange(0, 4))
            < FRAME_MIN,
{
    match get_u32(header, 0, header.len()) {
        Ok((n, _)) => if n >= FRAME_MIN {
            Some(n)
        } else {
            None
        },
        Err(_) => None,
    }
}

/// A framed `Rerror` with `tag`; `ename` if it can be encoded, else a
/// shorter reason.
fn rerror_frame(tag: u16, ename: &String) -> (r: Vec<u8>)
    ensures
        is_rerror(r@, tag),
        exists|e: Rerror|
            framed_message(r@, Fcall::Rerror(e)) && e.tag == tag && (utf8_len(ename@)
                <= STRING_LEN_MAX ==> e.ename@ == ename@),
{
    let f = Fcall::Rerror(Rerror { tag, ename: copy_string(ename) });
    match frame_message(&f) {
        Ok(b) => {
            proof {
                let e = f->Rerror_0;
                assert(framed_message(b@, Fcall::Rerror(e)));
            }
            b
        },
        Err(_) => {
            proof {
                lemma_int_bytes();
            }
            let g = Fcall::Rerror(Rerror { tag, ename: "error".to_owned() });
            proof {
                reveal_strlit("error");
                lemma_int_bytes();
                assert(vstd::utf8::encode_utf8("error"@).len() <= 5) by {
                    vstd::utf8::is_ascii_chars_encode_utf8("error"@);
                }
            }
            match frame_message(&g) {
                Ok(b) => {
                    proof {
                        let e = g->Rerror_0;
                        assert(framed_message(b@, Fcall::Rerror(e)));
                    }
                    b
                },
                Err(_) => {
                    assert(false);
                    Vec::new()
                },
            }
        },
    }
}

/// What `Server::version` leaves and returns.
pub open spec fn version_post(sv0: Server, sv1: Server, msg: Tversion, r: Result<Rversion, ServerError>) -> bool {
    &&& sv1.session == sv0.session
    &&& sv1.file_tree == sv0.file_tree
    &&& sv1.max_msize == sv0.max_msize
    &&& r matches Ok(m) && m.tag == msg.tag && m.msize == sv1.msize && m.version@
        == "9P2000"@
    &&& sv1.msize == if msg.msize < sv0.max_msize {
        msg.msize
        } else {
        sv0.max_msize
        }
}

/// What `Server::auth` leaves and returns.
pub open spec fn auth_post(sv0: Server, sv1: Server, msg: Tauth, r: Result<Rauth, ServerError>) -> bool {
    &&& r matches Err(ServerError::NonFatal { msg }) && msg@ == "no auth needed"@
    &&& sv1 == sv0
}

/// What `Server::attach` leaves and returns.
pub open spec fn attach_post(sv0: Server, sv1: Server, msg: Tattach, r: Result<Rattach, ServerError>) -> bool {
    &&& sv1.max_msize == sv0.max_msize
    &&& sv1.msize == sv0.msize
    &&& r is Ok <==> sv0.session is None && msg.afid == NOFID && msg.fid != NOFID
    &&& r is Err ==> sv1 == sv0
    &&& r matches Ok(m) ==> {
        let t = sv0.file_tree->Some_0;
        &&& m.tag == msg.tag
        &&& m.qid == t.all_files@[0].spec_qid()
        &&& sv1.file_tree is None
        &&& sv1.session matches Some(s) && s.tree == t && s.user.user@
        == msg.uname@ && s.fids@ == Map::<u32, FileHandle>::empty().insert(
        msg.fid,
        FileHandle::new_spec(0),
        )
        }
}

/// What `Server::flush` leaves and returns.
pub open spec fn flush_post(sv0: Server, sv1: Server, msg: Tflush, r: Result<Rflush, ServerError>) -> bool {
    &&& r matches Ok(m) && m.tag == msg.tag
    &&& sv1 == sv0
}

/// What `Server::walk` leaves and returns.
pub open spec fn walk_post(sv0: Server, sv1: Server, msg: Twalk, r: Result<Rwalk, ServerError>) -> bool {
    &&& sv1.same_frame(&sv0)
    &&& sv0.session is None ==> r is Err
    &&& sv0.session matches Some(s0) ==> sv1.session matches Some(s1)
        && session_walk_post(
        s0,
        s1,
        msg.fid,
        msg.newfid,
        msg.wname@,
        match r {
        Ok(m) => Ok(m.wqid),
        Err(e) => Err(e),
        },
        )
    &&& r matches Ok(m) ==> m.tag == msg.tag
}

/// What `Server::open` leaves and returns.
pub open spec fn open_post(sv0: Server, sv1: Server, msg: Topen, r: Result<Ropen, ServerError>) -> bool {
    &&& sv1.same_frame(&sv0)
    &&& sv0.session is None ==> r is Err
    &&& sv0.session matches Some(s0) ==> sv1.session matches Some(s1)
        && session_open_post(
        s0,
        s1,
        msg.fid,
        msg.mode,
        match r {
        Ok(m) => Ok(m.qid),
        Err(e) => Err(e),
        },
        )
    &&& r matches Ok(m) ==> m.tag == msg.tag && m.iounit == 0
}

/// What `Server::create` leaves and returns.
pub open spec fn create_post(sv0: Server, sv1: Server, msg: Tcreate, r: Result<Rcreate, ServerError>) -> bool {
    &&& sv1.same_frame(&sv0)
    &&& sv0.session is None ==> r is Err
    &&& sv0.session matches Some(s0) ==> sv1.session matches Some(s1)
        && session_create_post(
        s0,
        s1,
        msg.fid,
        msg.name@,
        msg.perm,
        msg.mode,
        match r {
        Ok(m) => Ok(m.qid),
        Err(e) => Err(e),
        },
        )
    &&& r matches Ok(m) ==> m.tag == msg.tag && m.iounit == 0
}

/// What `Server::read` leaves and returns.
pub open spec fn read_post(sv0: Server, sv1: Server, msg: Tread, r: Result<Rread, ServerError>) -> bool {
    &&& sv1.same_frame(&sv0)
    &&& sv0.session is None ==> r is Err
    &&& sv0.session matches Some(s0) ==> sv1.session matches Some(s1)
        && session_read_post(
        s0,
        s1,
        msg.fid,
        msg.offset,
        read_limit(sv0.msize, msg.count),
        match r {
        Ok(m) => Ok(m.data),
        Err(e) => Err(e),
        },
        )
    &&& r matches Ok(m) ==> m.tag == msg.tag
}

/// What `Server::write` leaves and returns.
pub open spec fn write_post(sv0: Server, sv1: Server, msg: Twrite, r: Result<Rwrite, ServerError>) -> bool {
    &&& sv1.same_frame(&sv0)
    &&& sv0.session is None ==> r is Err
    &&& sv0.session matches Some(s0) ==> sv1.session matches Some(s1)
        && session_write_post(
        s0,
        s1,
        msg.fid,
        msg.offset,
        msg.data@,
        match r {
        Ok(m) => Ok(m.count),
        Err(e) => Err(e),
        },
        )
    &&& r matches Ok(m) ==> m.tag == msg.tag
}

/// What `Server::clunk` leaves and returns.
pub open spec fn clunk_post(sv0: Server, sv1: Server, msg: Tclunk, r: Result<Rclunk, ServerError>) -> bool {
    &&& sv1.same_frame(&sv0)
    &&& sv0.session is None ==> r is Err
    &&& sv0.session matches Some(s0) ==> sv1.session matches Some(s1)
        && session_clunk_post(
        s0,
        s1,
        msg.fid,
        match r {
        Ok(m) => Ok(()),
        Err(e) => Err(e),
        },
        )
    &&& r matches Ok(m) ==> m.tag == msg.tag
}

/// What `Server::remove` leaves and returns.
pub open spec fn remove_post(sv0: Server, sv1: Server, msg: Tremove, r: Result<Rremove, ServerError>) -> bool {
    &&& sv1.same_frame(&sv0)
    &&& sv0.session is None ==> r is Err
    &&& sv0.session matches Some(s0) ==> sv1.session matches Some(s1)
        && session_remove_post(
        s0,
        s1,
        msg.fid,
        match r {
        Ok(m) => Ok(()),
        Err(e) => Err(e),
        },
        )
    &&& r matches Ok(m) ==> m.tag == msg.tag
}

/// What `Server::stat` leaves and returns.
pub open spec fn stat_post(sv0: Server, sv1: Server, msg: Tstat, r: Result<Rstat, ServerError>) -> bool {
    &&& sv1 == sv0
    &&& sv0.session is None ==> r is Err
    &&& sv0.session matches Some(s) ==> {
        &&& r is Ok <==> s.fids@.contains_key(msg.fid) && s.tree.all_files@.contains_key(
        s.fids@[msg.fid].file,
        )
        &&& r matches Ok(m)
        ==> m.tag == msg.tag
        && m.stat@ == s.tree.all_files@[s.fids@[msg.fid].file].spec_stat()
        }
}

/// What `Server::wstat` leaves and returns.
pub open spec fn wstat_post(sv0: Server, sv1: Server, msg: Twstat, r: Result<Rwstat, ServerError>) -> bool {
    &&& sv1.same_frame(&sv0)
    &&& sv0.session is None ==> r is Err
    &&& sv0.session matches Some(s0) ==> sv1.session matches Some(s1)
        && session_wstat_post(
        s0,
        s1,
        msg.fid,
        msg.stat@,
        match r {
        Ok(m) => Ok(()),
        Err(e) => Err(e),
        },
        )
    &&& r matches Ok(m) ==> m.tag == msg.tag
}

/// What `Server::dispatch` leaves and returns for the request `msg`: what
/// the request's handler leaves and returns.
pub open spec fn dispatch_post(sv0: Server, sv1: Server, msg: Fcall, res: Result<Fcall, ServerError>) -> bool {
    match msg {
        Fcall::Tversion(m) => match res {
            Ok(f) => f matches Fcall::Rversion(x) && version_post(sv0, sv1, m, Ok(x)),
            Err(e) => version_post(sv0, sv1, m, Err(e)),
        },
        Fcall::Tauth(m) => match res {
            Ok(f) => f matches Fcall::Rauth(x) && auth_post(sv0, sv1, m, Ok(x)),
            Err(e) => auth_post(sv0, sv1, m, Err(e)),
        },
        Fcall::Tattach(m) => match res {
            Ok(f) => f matches Fcall::Rattach(x) && attach_post(sv0, sv1, m, Ok(x)),
            Err(e) => attach_post(sv0, sv1, m, Err(e)),
        },
        Fcall::Tflush(m) => match res {
            Ok(f) => f matches Fcall::Rflush(x) && flush_post(sv0, sv1, m, Ok(x)),
            Err(e) => flush_post(sv0, sv1, m, Err(e)),
        },
        Fcall::Twalk(m) => match res {
            Ok(f) => f matches Fcall::Rwalk(x) && walk_post(sv0, sv1, m, Ok(x)),
            Err(e) => walk_post(sv0, sv1, m, Err(e)),
        },
        Fcall::Topen(m) => match res {
            Ok(f) => f matches Fcall::Ropen(x) && open_post(sv0, sv1, m, Ok(x)),
            Err(e) => open_post(sv0, sv1, m, Err(e)),
        },
        Fcall::Tcreate(m) => match res {
            Ok(f) => f matches Fcall::Rcreate(x) && create_post(sv0, sv1, m, Ok(x)),
            Err(e) => create_post(sv0, sv1, m, Err(e)),
        },
        Fcall::Tread(m) => match res {
            Ok(f) => f matches Fcall::Rread(x) && read_post(sv0, sv1, m, Ok(x)),
            Err(e) => read_post(sv0, sv1, m, Err(e)),
        },
        Fcall::Twrite(m) => match res {
            Ok(f) => f matches Fcall::Rwrite(x) && write_post(sv0, sv1, m, Ok(x)),
            Err(e) => write_post(sv0, sv1, m, Err(e)),
        },
        Fcall::Tclunk(m) => match res {
            Ok(f) => f matches Fcall::Rclunk(x) && clunk_post(sv0, sv1, m, Ok(x)),
            Err(e) => clunk_post(sv0, sv1, m, Err(e)),
        },
        Fcall::Tremove(m) => match res {
            Ok(f) => f matches Fcall::Rremove(x) && remove_post(sv0, sv1, m, Ok(x)),
            Err(e) => remove_post(sv0, sv1, m, Err(e)),
        },
        Fcall::Tstat(m) => match res {
            Ok(f) => f matches Fcall::Rstat(x) && stat_post(sv0, sv1, m, Ok(x)),
            Err(e) => stat_post(sv0, sv1, m, Err(e)),
        },
        Fcall::Twstat(m) => match res {
            Ok(f) => f matches Fcall::Rwstat(x) && wstat_post(sv0, sv1, m, Ok(x)),
            Err(e) => wstat_post(sv0, sv1, m, Err(e)),
        },
        _ => false,
    }
}

/// The state of one connection.
pub struct Server {
    pub session: Option<Session>,
    pub file_tree: Option<FileTree>,
    /// The largest message this server accepts.
    pub max_msize: u32,
    /// The negotiated largest message; 0 until `Tversion`.
    pub msize: u32,
}

impl Server {
    /// The tree is in the session once attached, else held on its own.
    pub open spec fn wf(&self) -> bool {
        &&& (self.session is Some) != (self.file_tree is Some)
        &&& self.session matches Some(s) ==> s.wf()
        &&& self.file_tree matches Some(t) ==> t.wf()
        &&& self.msize <= self.max_msize
    }

    /// The tree, wherever it is held.
    pub open spec fn tree(&self) -> FileTree {
        match self.session {
            Some(s) => s.tree,
            None => self.file_tree->Some_0,
        }
    }

    /// Everything but the session is as before.
    pub open spec fn same_frame(&self, other: &Server) -> bool {
        &&& self.max_msize == other.max_msize
        &&& self.msize == other.msize
        &&& (self.session is Some) == (other.session is Some)
        &&& self.file_tree == other.file_tree
    }

    /// A connection over `tree` that accepts messages up to `max_msize`.
    pub fn new(tree: FileTree, max_msize: u32) -> (r: Server)
        requires
            tree.wf(),
        ensures
            r.wf(),
            r.session is None,
            r.file_tree == Some(tree),
            r.max_msize == max_msize,
            r.msize == 0,
    {
        Server { session: None, file_tree: Some(tree), max_msize, msize: 0 }
    }

    /// Whether a frame of `size` bytes is worth reading: none larger than
    /// this server's largest message is.
    pub fn frame_fits(&self, size: u32) -> (r: bool)
        ensures
            r == (size <= self.max_msize),
    {
        size <= self.max_msize
    }

    /// Ends the connection, handing back the tree for the next one.
    pub fn end_session(self) -> (r: FileTree)
        requires
            self.wf(),
        ensures
            r == self.tree(),
            r.wf(),
    {
        match self.session {
            Some(s) => s.tree,
            None => match self.file_tree {
                Some(t) => t,
                None => {
                    assert(false);
                    crate::tree::mktree(String::new())
                },
            },
        }
    }

    /// Negotiates the protocol: the smaller of the two message sizes, and
    /// version "9P2000".
    pub fn version(&mut self, msg: Tversion) -> (r: Result<Rversion, ServerError>)
        requires
            old(self).wf(),
        ensures
            r matches Err(e) ==> e is NonFatal,
            final(self).wf(),
            version_post(*old(self), *final(self), msg, r),
    {
        let msize = if msg.msize < self.max_msize {
            msg.msize
        } else {
            self.max_msize
        };
        self.msize = msize;
        Ok(Rversion { tag: msg.tag, msize, version: "9P2000".to_owned() })
    }

    /// Authentication is not used: always refused.
    pub fn auth(&mut self, _msg: Tauth) -> (r: Result<Rauth, ServerError>)
        ensures
            r matches Err(e) ==> e is NonFatal,
            auth_post(*old(self), *final(self), _msg, r),
    {
        rerr("no auth needed")
    }

    /// Starts the session: binds `fid` to the root for user `uname`. Needs
    /// no auth fid, and no session yet.
    pub fn attach(&mut self, msg: Tattach) -> (r: Result<Rattach, ServerError>)
        requires
            old(self).wf(),
        ensures
            r matches Err(e) ==> e is NonFatal,
            final(self).wf(),
            attach_post(*old(self), *final(self), msg, r),
    {
        if self.session.is_some() {
            return rerr("already attached");
        }
        if msg.afid != NOFID {
            return rerr("no auth needed");
        }
        if msg.fid == NOFID {
            return rerr("NOFID cannot be bound");
        }
        let tree = match self.file_tree.take() {
            Some(t) => t,
            None => {
                return rerr("no tree to serve");
            },
        };
        let qid = match tree.qid(0) {
            Some(q) => q,
            None => {
                self.file_tree = Some(tree);
                return rerr("no root");
            },
        };
        self.session = Some(Session::attach(tree, msg.fid, msg.uname, "users".to_owned()));
        Ok(Rattach { tag: msg.tag, qid })
    }

    /// Nothing is ever pending, so a flush only answers.
    pub fn flush(&mut self, msg: Tflush) -> (r: Result<Rflush, ServerError>)
        ensures
            r matches Err(e) ==> e is NonFatal,
            flush_post(*old(self), *final(self), msg, r),
    {
        Ok(Rflush { tag: msg.tag })
    }

    pub fn walk(&mut self, msg: Twalk) -> (r: Result<Rwalk, ServerError>)
        requires
            old(self).wf(),
        ensures
            r matches Err(e) ==> e is NonFatal,
            final(self).wf(),
            walk_post(*old(self), *final(self), msg, r),
    {
        match &mut self.session {
            None => rerr("not attached"),
            Some(s) => {
                let wqid = s.walk(msg.fid, msg.newfid, &msg.wname)?;
                Ok(Rwalk { tag: msg.tag, wqid })
            },
        }
    }

    pub fn open(&mut self, msg: Topen) -> (r: Result<Ropen, ServerError>)
        requires
            old(self).wf(),
        ensures
            r matches Err(e) ==> e is NonFatal,
            final(self).wf(),
            open_post(*old(self), *final(self), msg, r),
    {
        match &mut self.session {
            None => rerr("not attached"),
            Some(s) => {
                let qid = s.open(msg.fid, msg.mode)?;
                Ok(Ropen { tag: msg.tag, qid, iounit: 0 })
            },
        }
    }

    pub fn create(&mut self, msg: Tcreate) -> (r: Result<Rcreate, ServerError>)
        requires
            old(self).wf(),
        ensures
            r matches Err(e) ==> e is NonFatal,
            final(self).wf(),
            create_post(*old(self), *final(self), msg, r),
    {
        match &mut self.session {
            None => rerr("not attached"),
            Some(s) => {
                let qid = s.create(msg.fid, &msg.name, msg.perm, msg.mode)?;
                Ok(Rcreate { tag: msg.tag, qid, iounit: 0 })
            },
        }
    }

    /// Reads at most what fits in one reply within the negotiated size.
    pub fn read(&mut self, msg: Tread) -> (r: Result<Rread, ServerError>)
        requires
            old(self).wf(),
        ensures
            r matches Err(e) ==> e is NonFatal,
            final(self).wf(),
            read_post(*old(self), *final(self), msg, r),
    {
        let count = if self.msize == 0 {
            msg.count
        } else if self.msize <= RREAD_HEADER {
            0
        } else if msg.count > self.msize - RREAD_HEADER {
            self.msize - RREAD_HEADER
        } else {
            msg.count
        };
        match &mut self.session {
            None => rerr("not attached"),
            Some(s) => {
                let data = s.read(msg.fid, msg.offset, count)?;
                Ok(Rread { tag: msg.tag, data })
            },
        }
    }

    pub fn write(&mut self, msg: Twrite) -> (r: Result<Rwrite, ServerError>)
        requires
            old(self).wf(),
        ensures
            r matches Err(e) ==> e is NonFatal,
            final(self).wf(),
            write_post(*old(self), *final(self), msg, r),
    {
        match &mut self.session {
            None => rerr("not attached"),
            Some(s) => {
                let count = s.write(msg.fid, msg.offset, msg.data.as_slice())?;
                Ok(Rwrite { tag: msg.tag, count })
            },
        }
    }

    pub fn clunk(&mut self, msg: Tclunk) -> (r: Result<Rclunk, ServerError>)
        requires
            old(self).wf(),
        ensures
            r matches Err(e) ==> e is NonFatal,
            final(self).wf(),
            clunk_post(*old(self), *final(self), msg, r),
    {
        match &mut self.session {
            None => rerr("not attached"),
            Some(s) => {
                s.clunk(msg.fid)?;
                Ok(Rclunk { tag: msg.tag })
            },
        }
    }

    pub fn remove(&mut self, msg: Tremove) -> (r: Result<Rremove, ServerError>)
        requires
            old(self).wf(),
        ensures
            r matches Err(e) ==> e is NonFatal,
            final(self).wf(),
            remove_post(*old(self), *final(self), msg, r),
    {
        match &mut self.session {
            None => rerr("not attached"),
            Some(s) => {
                s.remove(msg.fid)?;
                Ok(Rremove { tag: msg.tag })
            },
        }
    }

    pub fn stat(&mut self, msg: Tstat) -> (r: Result<Rstat, ServerError>)
        requires
            old(self).wf(),
        ensures
            r matches Err(e) ==> e is NonFatal,
            stat_post(*old(self), *final(self), msg, r),
    {
        match &self.session {
            None => rerr("not attached"),
            Some(s) => {
                let stat = s.stat(msg.fid)?;
                Ok(Rstat { tag: msg.tag, stat })
            },
        }
    }

    pub fn wstat(&mut self, msg: Twstat) -> (r: Result<Rwstat, ServerError>)
        requires
            old(self).wf(),
        ensures
            r matches Err(e) ==> e is NonFatal,
            final(self).wf(),
            wstat_post(*old(self), *final(self), msg, r),
    {
        match &mut self.session {
            None => rerr("not attached"),
            Some(s) => {
                s.wstat(msg.fid, &msg.stat)?;
                Ok(Rwstat { tag: msg.tag })
            },
        }
    }

    /// Routes a request to its handler. Replies (R-messages) are not
    /// requests: `None`.
    #[verifier::rlimit(40)]
    #[verifier::spinoff_prover]
    pub fn dispatch(&mut self, msg: Fcall) -> (r: Option<Result<Fcall, ServerError>>)
        requires
            old(self).wf(),
        ensures
            final(self).wf(),
            final(self).max_msize == old(self).max_msize,
            r is None ==> *final(self) == *old(self),
            r is None <==> !is_request_type(msg.spec_type_id()),
            r matches Some(Err(e)) ==> e is NonFatal,
            r matches Some(Ok(resp)) ==> resp.spec_tag() == msg.spec_tag() && resp.spec_type_id()
                == msg.spec_type_id() + 1,
            r matches Some(res) ==> dispatch_post(*old(self), *final(self), msg, res),
    {
        let res: Result<Fcall, ServerError> = match msg {
            Fcall::Tversion(m) => match self.version(m) {
                Ok(x) => Ok(Fcall::Rversion(x)),
                Err(e) => Err(e),
            },
            Fcall::Tauth(m) => match self.auth(m) {
                Ok(x) => Ok(Fcall::Rauth(x)),
                Err(e) => Err(e),
            },
            Fcall::Tattach(m) => match self.attach(m) {
                Ok(x) => Ok(Fcall::Rattach(x)),
                Err(e) => Err(e),
            },
            Fcall::Tflush(m) => match self.flush(m) {
                Ok(x) => Ok(Fcall::Rflush(x)),
                Err(e) => Err(e),
            },
            Fcall::Twalk(m) => match self.walk(m) {
                Ok(x) => Ok(Fcall::Rwalk(x)),
                Err(e) => Err(e),
            },
            Fcall::Topen(m) => match self.open(m) {
                Ok(x) => Ok(Fcall::Ropen(x)),
                Err(e) => Err(e),
            },
            Fcall::Tcreate(m) => match self.create(m) {
                Ok(x) => Ok(Fcall::Rcreate(x)),
                Err(e) => Err(e),
            },
            Fcall::Tread(m) => match self.read(m) {
                Ok(x) => Ok(Fcall::Rread(x)),
                Err(e) => Err(e),
            },
            Fcall::Twrite(m) => match self.write(m) {
                Ok(x) => Ok(Fcall::Rwrite(x)),
                Err(e) => Err(e),
            },
            Fcall::Tclunk(m) => match self.clunk(m) {
                Ok(x) => Ok(Fcall::Rclunk(x)),
                Err(e) => Err(e),
            },
            Fcall::Tremove(m) => match self.remove(m) {
                Ok(x) => Ok(Fcall::Rremove(x)),
                Err(e) => Err(e),
            },
            Fcall::Tstat(m) => match self.stat(m) {
                Ok(x) => Ok(Fcall::Rstat(x)),
                Err(e) => Err(e),
            },
            Fcall::Twstat(m) => match self.wstat(m) {
                Ok(x) => Ok(Fcall::Rwstat(x)),
                Err(e) => Err(e),
            },
            _ => {
                return None;
            },
        };
        Some(res)
    }

    /// Handles one whole frame: size, type, body. A frame whose size field
    /// is wrong, or whose body does not decode, closes the connection; one
    /// larger than the negotiated size gets an `Rerror` and closes it; an
    /// unknown type, or a reply type, is skipped. Before `Tversion` only
    /// `Tversion` is served. Every reply answers the request's tag.
    #[verifier::rlimit(40)]
    #[verifier::spinoff_prover]
    pub fn handle_frame(&mut self, frame: &[u8]) -> (r: Action)
        requires
            old(self).wf(),
        ensures
            final(self).wf(),
            final(self).max_msize == old(self).max_msize,
            !well_framed(frame@) ==> (r matches Action::Close(None)) && *final(self) == *old(self),
            well_framed(frame@) && !is_known_type(frame@[4]) ==> r is Skip && *final(self)
                == *old(self),
            well_framed(frame@) && is_known_type(frame@[4]) && old(self).msize != 0 && frame@.len()
                > old(self).msize
                    ==> (r matches Action::Close(Some(_))) && *final(self) == *old(self),
            r matches Action::Reply(b) ==> answers(frame@, b@),
            well_framed(frame@) && is_known_type(frame@[4]) && (old(self).msize == 0
                || frame@.len() <= old(self).msize) ==> ((r matches Action::Close(None)) <==> !exists|
                f: Fcall,
            |
                f.spec_type_id() == frame@[4]
                    && #[trigger] enc_message(f) == Ok::<Seq<u8>, SerError>(
                    frame@.subrange(5, frame@.len() as int),
                )),
            well_framed(frame@) && is_request_type(frame@[4]) && (old(self).msize == 0
                || frame@.len() <= old(self).msize) && (exists|f: Fcall|
                f.spec_type_id() == frame@[4]
                    && #[trigger] enc_message(f) == Ok::<Seq<u8>, SerError>(
                    frame@.subrange(5, frame@.len() as int),
                )) ==> r is Reply,
            r matches Action::Close(Some(b)) ==> answers(frame@, b@),
            well_framed(frame@) && is_known_type(frame@[4]) && old(self).msize == 0 && frame@[4]
                != TVERSION ==> *final(self) == *old(self) && ((r matches Action::Close(None)) || (
            r matches Action::Reply(b) && is_rerror(b@, frame_tag(frame@)))),
            well_framed(frame@) && is_request_type(frame@[4]) && (old(self).msize == 0 ==> frame@[4]
                == TVERSION) && (old(self).msize != 0 ==> frame@.len() <= old(self).msize)
                && decodes(frame@) ==> exists|g: Fcall, res: Result<Fcall, ServerError>|
                #![trigger dispatch_post(*old(self), *final(self), g, res)]
                g.spec_type_id() == frame@[4] && enc_message(g) == Ok::<
                    Seq<u8>,
                    SerError,
                >(frame@.subrange(5, frame@.len() as int)) && dispatch_post(
                    *old(self),
                    *final(self),
                    g,
                    res,
                ) && (r matches Action::Reply(b) && replies_with(b@, frame_tag(frame@), res)),
    {
        let len = frame.len();
        if len < FRAME_MIN as usize {
            return Action::Close(None);
        }
        let size = match get_u32(frame, 0, len) {
            Ok((n, _)) => n,
            Err(_) => {
                return Action::Close(None);
            },
        };
        if size as usize != len {
            return Action::Close(None);
        }
        let mtype = frame[4];
        let tag = match get_u16(frame, 5, len) {
            Ok((t, _)) => t,
            Err(_) => {
                return Action::Close(None);
            },
        };
        if !(100 <= mtype && mtype <= 127 && mtype != 106) {
            return Action::Skip;
        }
        if self.msize != 0 && len > self.msize as usize {
            return Action::Close(Some(rerror_frame(tag, &"message larger than msize".to_owned())));
        }
        let body = slice_subrange(frame, 5, len);
        let msg = match Fcall::decode(mtype, body) {
            Ok(m) => m,
            Err(_) => {
                return Action::Close(None);
            },
        };
        proof {
            lemma_int_bytes();
            lemma_body_starts_with_tag(msg);
            assert(frame@.subrange(5, 7) =~= spec_u16_to_le_bytes(msg.spec_tag()));
        }
        if self.msize == 0 && mtype != TVERSION {
            return Action::Reply(rerror_frame(tag, &"version not negotiated".to_owned()));
        }
        let ghost g = msg;
        let ghost s0 = *self;
        let res = match self.dispatch(msg) {
            Some(res) => res,
            None => {
                return Action::Skip;
            },
        };
        let ghost res0 = res;
        let r = match res {
            Ok(resp) => {
                assert(resp.spec_tag() == tag);
                match frame_message(&resp) {
                    Ok(b) => Action::Reply(b),
                    Err(_) => Action::Reply(rerror_frame(tag, &"reply too large".to_owned())),
                }
            },
            Err(ServerError::NonFatal { msg }) => Action::Reply(rerror_frame(tag, &msg)),
            Err(ServerError::NotifiedFatal { msg }) => Action::Close(Some(rerror_frame(tag, &msg))),
            Err(ServerError::ImmediateFatal { .. }) => Action::Close(None),
        };
        proof {
            assert(g.spec_type_id() == frame@[4] && enc_message(g) == Ok::<Seq<u8>, SerError>(
                frame@.subrange(5, frame@.len() as int),
            ));
            assert(dispatch_post(s0, *self, g, res0));
        }
        r
    }
}

} // verus!
