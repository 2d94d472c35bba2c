use nine::message::{
    Fcall, Rattach, Rclunk, Rcreate, Rflush, Ropen, Rread, Rversion, Rwalk, Rwrite, Rwstat,
    Tattach, Tclunk, Tcreate, Tflush, Topen, Tread, Tremove, Tstat, Tversion, Twalk, Twrite,
    Twstat, RSTAT,
};
use nine::p2000::{
    FileMode, FileType, OpenMode, Qid, Stat, NOFID, NOTAG, OREAD, ORCLOSE, OWRITE, QTDIR, QTFILE,
};
use nine::server::{frame_message, frame_size, Action, Server};
use nine::tree::{mktree, FileTree};

const MAX_MSIZE: u32 = 1 << 20;

fn send(server: &mut Server, f: Fcall) -> Vec<u8> {
    let frame = frame_message(&f).unwrap();
    match server.handle_frame(&frame) {
        Action::Reply(b) => b,
        other => panic!("unexpected action {:?}", other),
    }
}

fn reply(bytes: &[u8]) -> Fcall {
    assert_eq!(frame_size(&bytes[0..4]).unwrap() as usize, bytes.len());
    Fcall::decode(bytes[4], &bytes[5..]).unwrap()
}

fn ask(server: &mut Server, f: Fcall) -> Fcall {
    reply(&send(server, f))
}

fn is_error(f: &Fcall, tag: u16) -> bool {
    match f {
        Fcall::Rerror(e) => e.tag == tag,
        _ => false,
    }
}

fn dir_qid(path: u64) -> Qid {
    Qid { file_type: FileType { bits: QTDIR }, version: 0, path }
}

fn file_qid(path: u64) -> Qid {
    Qid { file_type: FileType { bits: QTFILE }, version: 0, path }
}

fn attached(tree: FileTree, user: &str) -> Server {
    let mut server = Server::new(tree, MAX_MSIZE);
    let r = ask(
        &mut server,
        Fcall::Tversion(Tversion { tag: NOTAG, msize: 65535, version: "9P2000".to_string() }),
    );
    assert_eq!(
        r,
        Fcall::Rversion(Rversion { tag: NOTAG, msize: 65535, version: "9P2000".to_string() })
    );
    let r = ask(
        &mut server,
        Fcall::Tattach(Tattach {
            tag: 0,
            fid: 0,
            afid: NOFID,
            uname: user.to_string(),
            aname: String::new(),
        }),
    );
    assert_eq!(r, Fcall::Rattach(Rattach { tag: 0, qid: dir_qid(0) }));
    server
}

/// Attaches as glenda, creates "hello", writes "hi", reads it back.
fn create_write_read() -> Server {
    let mut s = attached(mktree("glenda".to_string()), "glenda");
    let r = ask(&mut s, Fcall::Twalk(Twalk { tag: 1, fid: 0, newfid: 1, wname: vec![] }));
    assert_eq!(r, Fcall::Rwalk(Rwalk { tag: 1, wqid: vec![] }));
    let r = ask(
        &mut s,
        Fcall::Tcreate(Tcreate {
            tag: 2,
            fid: 1,
            name: "hello".to_string(),
            perm: FileMode { bits: 0o644 },
            mode: OpenMode { bits: OWRITE },
        }),
    );
    assert_eq!(r, Fcall::Rcreate(Rcreate { tag: 2, qid: file_qid(1), iounit: 0 }));
    let r = ask(
        &mut s,
        Fcall::Twrite(Twrite { tag: 3, fid: 1, offset: 0, data: b"hi".to_vec() }),
    );
    assert_eq!(r, Fcall::Rwrite(Rwrite { tag: 3, count: 2 }));
    let r = ask(&mut s, Fcall::Tclunk(Tclunk { tag: 4, fid: 1 }));
    assert_eq!(r, Fcall::Rclunk(Rclunk { tag: 4 }));
    let r = ask(
        &mut s,
        Fcall::Twalk(Twalk { tag: 5, fid: 0, newfid: 1, wname: vec!["hello".to_string()] }),
    );
    assert_eq!(r, Fcall::Rwalk(Rwalk { tag: 5, wqid: vec![file_qid(1)] }));
    let r = ask(&mut s, Fcall::Topen(Topen { tag: 6, fid: 1, mode: OpenMode { bits: OREAD } }));
    assert_eq!(r, Fcall::Ropen(Ropen { tag: 6, qid: file_qid(1), iounit: 0 }));
    let r = ask(&mut s, Fcall::Tread(Tread { tag: 7, fid: 1, offset: 0, count: 100 }));
    assert_eq!(r, Fcall::Rread(Rread { tag: 7, data: b"hi".to_vec() }));
    s
}

fn parse_listing(data: &[u8]) -> Vec<Stat> {
    let mut out = Vec::new();
    let mut p = 0;
    while p < data.len() {
        let (st, q) = nine::codec::get_stat(data, p, data.len(), false).unwrap();
        out.push(st);
        p = q;
    }
    out
}

#[test]
fn scenario_version_attach() {
    attached(mktree("glenda".to_string()), "glenda");
}

#[test]
fn scenario_create_write_read() {
    create_write_read();
}

#[test]
fn scenario_directory_listing() {
    let mut s = create_write_read();
    let r = ask(&mut s, Fcall::Topen(Topen { tag: 8, fid: 0, mode: OpenMode { bits: OREAD } }));
    assert!(matches!(r, Fcall::Ropen(_)));
    let r = ask(&mut s, Fcall::Tread(Tread { tag: 8, fid: 0, offset: 0, count: 4096 }));
    let data = match r {
        Fcall::Rread(m) => {
            assert_eq!(m.tag, 8);
            m.data
        }
        other => panic!("unexpected {:?}", other),
    };
    let entries = parse_listing(&data);
    assert_eq!(entries.len(), 1);
    assert_eq!(entries[0].name, "hello");
    assert_eq!(entries[0].length, 2);
}

fn tree_with_file(mode: u32) -> FileTree {
    let mut s = attached(mktree("glenda".to_string()), "glenda");
    let r = ask(&mut s, Fcall::Twalk(Twalk { tag: 1, fid: 0, newfid: 1, wname: vec![] }));
    assert!(matches!(r, Fcall::Rwalk(_)));
    let r = ask(
        &mut s,
        Fcall::Tcreate(Tcreate {
            tag: 2,
            fid: 1,
            name: "secret".to_string(),
            perm: FileMode { bits: mode },
            mode: OpenMode { bits: OREAD },
        }),
    );
    assert!(matches!(r, Fcall::Rcreate(_)));
    s.end_session()
}

#[test]
fn scenario_permission_denial() {
    let mut s = attached(tree_with_file(0o400), "other");
    let r = ask(
        &mut s,
        Fcall::Twalk(Twalk { tag: 1, fid: 0, newfid: 1, wname: vec!["secret".to_string()] }),
    );
    assert!(matches!(r, Fcall::Rwalk(_)));
    let r = ask(&mut s, Fcall::Topen(Topen { tag: 2, fid: 1, mode: OpenMode { bits: OREAD } }));
    assert!(is_error(&r, 2));

    let mut s = attached(tree_with_file(0o444), "other");
    let r = ask(
        &mut s,
        Fcall::Twalk(Twalk { tag: 1, fid: 0, newfid: 1, wname: vec!["secret".to_string()] }),
    );
    assert!(matches!(r, Fcall::Rwalk(_)));
    let r = ask(&mut s, Fcall::Topen(Topen { tag: 2, fid: 1, mode: OpenMode { bits: OREAD } }));
    assert!(matches!(r, Fcall::Ropen(_)));
}

fn untouched_stat(name: &str) -> Stat {
    Stat {
        type_: u16::MAX,
        dev: u32::MAX,
        qid: Qid { file_type: FileType { bits: 0xFF }, version: u32::MAX, path: u64::MAX },
        mode: FileMode { bits: u32::MAX },
        atime: u32::MAX,
        mtime: u32::MAX,
        length: u64::MAX,
        name: name.to_string(),
        uid: String::new(),
        gid: String::new(),
        muid: String::new(),
    }
}

#[test]
fn scenario_double_size_stat() {
    let mut s = create_write_read();
    let r = ask(&mut s, Fcall::Twstat(Twstat { tag: 9, fid: 1, stat: untouched_stat("renamed") }));
    assert_eq!(r, Fcall::Rwstat(Rwstat { tag: 9 }));
    let raw = send(&mut s, Fcall::Tstat(Tstat { tag: 10, fid: 1 }));
    assert_eq!(raw[4], RSTAT);
    let outer = u16::from_le_bytes([raw[7], raw[8]]);
    let inner = u16::from_le_bytes([raw[9], raw[10]]);
    assert_eq!(outer, inner + 2);
    assert_eq!(inner as usize, raw.len() - 11);
    match reply(&raw) {
        Fcall::Rstat(m) => {
            assert_eq!(m.tag, 10);
            assert_eq!(m.stat.name, "renamed");
            assert_eq!(m.stat.length, 2);
        }
        other => panic!("unexpected {:?}", other),
    }
}

#[test]
fn scenario_remove_on_clunk() {
    let mut s = create_write_read();
    let r = ask(
        &mut s,
        Fcall::Twalk(Twalk { tag: 11, fid: 0, newfid: 2, wname: vec!["hello".to_string()] }),
    );
    assert!(matches!(r, Fcall::Rwalk(_)));
    let r = ask(
        &mut s,
        Fcall::Topen(Topen { tag: 12, fid: 2, mode: OpenMode { bits: OREAD | ORCLOSE } }),
    );
    assert!(matches!(r, Fcall::Ropen(_)));
    let r = ask(&mut s, Fcall::Tclunk(Tclunk { tag: 13, fid: 2 }));
    assert_eq!(r, Fcall::Rclunk(Rclunk { tag: 13 }));
    let r = ask(
        &mut s,
        Fcall::Twalk(Twalk { tag: 14, fid: 0, newfid: 3, wname: vec!["hello".to_string()] }),
    );
    assert_eq!(r, Fcall::Rwalk(Rwalk { tag: 14, wqid: vec![] }));
    let r = ask(&mut s, Fcall::Tstat(Tstat { tag: 15, fid: 3 }));
    assert!(is_error(&r, 15));
}

#[test]
fn flush_answers_with_its_tag() {
    let mut s = attached(mktree("glenda".to_string()), "glenda");
    let r = ask(&mut s, Fcall::Tflush(Tflush { tag: 5, oldtag: 4 }));
    assert_eq!(r, Fcall::Rflush(Rflush { tag: 5 }));
}

#[test]
fn auth_is_refused() {
    let mut s = Server::new(mktree("glenda".to_string()), MAX_MSIZE);
    ask(
        &mut s,
        Fcall::Tversion(Tversion { tag: NOTAG, msize: 8192, version: "9P2000".to_string() }),
    );
    let r = ask(
        &mut s,
        Fcall::Tauth(nine::message::Tauth {
            tag: 3,
            afid: 1,
            uname: "glenda".to_string(),
            aname: String::new(),
        }),
    );
    match r {
        Fcall::Rerror(e) => {
            assert_eq!(e.tag, 3);
            assert_eq!(e.ename, "no auth needed");
        }
        other => panic!("unexpected {:?}", other),
    }
}

#[test]
fn version_takes_the_smaller_msize() {
    let mut s = Server::new(mktree("glenda".to_string()), 8192);
    let r = ask(
        &mut s,
        Fcall::Tversion(Tversion { tag: NOTAG, msize: 65535, version: "9P2000".to_string() }),
    );
    assert_eq!(
        r,
        Fcall::Rversion(Rversion { tag: NOTAG, msize: 8192, version: "9P2000".to_string() })
    );
}

#[test]
fn messages_before_version_get_rerror() {
    let mut s = Server::new(mktree("glenda".to_string()), MAX_MSIZE);
    let r = ask(&mut s, Fcall::Tclunk(Tclunk { tag: 1, fid: 0 }));
    assert!(is_error(&r, 1));
}

#[test]
fn oversized_message_closes_with_rerror() {
    let mut s = Server::new(mktree("glenda".to_string()), 64);
    ask(
        &mut s,
        Fcall::Tversion(Tversion { tag: NOTAG, msize: 64, version: "9P2000".to_string() }),
    );
    let big = Fcall::Twrite(Twrite { tag: 4, fid: 0, offset: 0, data: vec![0u8; 100] });
    match s.handle_frame(&frame_message(&big).unwrap()) {
        Action::Close(Some(b)) => assert!(is_error(&reply(&b), 4)),
        other => panic!("unexpected {:?}", other),
    }
}

#[test]
fn bad_frames_close_or_skip() {
    let mut s = Server::new(mktree("glenda".to_string()), MAX_MSIZE);
    assert!(matches!(s.handle_frame(&[1, 2, 3]), Action::Close(None)));
    assert!(matches!(s.handle_frame(&[9, 0, 0, 0, 100, 0, 0]), Action::Close(None)));
    assert!(matches!(s.handle_frame(&[7, 0, 0, 0, 200, 0, 0]), Action::Skip));
    assert!(matches!(s.handle_frame(&[7, 0, 0, 0, 100, 0, 0]), Action::Close(None)));
}

#[test]
fn attach_needs_nofid_afid() {
    let mut s = Server::new(mktree("glenda".to_string()), MAX_MSIZE);
    ask(
        &mut s,
        Fcall::Tversion(Tversion { tag: NOTAG, msize: 8192, version: "9P2000".to_string() }),
    );
    let r = ask(
        &mut s,
        Fcall::Tattach(Tattach {
            tag: 0,
            fid: 0,
            afid: 5,
            uname: "glenda".to_string(),
            aname: String::new(),
        }),
    );
    assert!(is_error(&r, 0));
}

#[test]
fn read_is_limited_by_msize() {
    let mut s = Server::new(mktree("glenda".to_string()), 30);
    ask(&mut s, Fcall::Tversion(Tversion { tag: NOTAG, msize: 30, version: "9P2000".to_string() }));
    ask(
        &mut s,
        Fcall::Tattach(Tattach {
            tag: 0,
            fid: 0,
            afid: NOFID,
            uname: "glenda".to_string(),
            aname: String::new(),
        }),
    );
    ask(&mut s, Fcall::Twalk(Twalk { tag: 1, fid: 0, newfid: 1, wname: vec![] }));
    ask(
        &mut s,
        Fcall::Tcreate(Tcreate {
            tag: 2,
            fid: 1,
            name: "f".to_string(),
            perm: FileMode { bits: 0o644 },
            mode: OpenMode { bits: 2 },
        }),
    );
    for k in 0..5u64 {
        let r = ask(&mut s, Fcall::Twrite(Twrite { tag: 3, fid: 1, offset: 5 * k, data: vec![7u8; 5] }));
        assert_eq!(r, Fcall::Rwrite(Rwrite { tag: 3, count: 5 }));
    }
    let r = ask(&mut s, Fcall::Tread(Tread { tag: 4, fid: 1, offset: 0, count: 100 }));
    match r {
        Fcall::Rread(m) => assert_eq!(m.data.len(), 19),
        other => panic!("unexpected {:?}", other),
    }
}
