use nine::message::{
    Fcall, Rattach, Rauth, Rclunk, Rcreate, Rerror, Rflush, Ropen, Rread, Rremove, Rstat,
    Rversion, Rwalk, Rwrite, Rwstat, Tattach, Tauth, Tclunk, Tcreate, Tflush, Topen, Tread,
    Tremove, Tstat, Tversion, Twalk, Twrite, Twstat, RAUTH, RREAD, RSTAT, TVERSION, TWALK,
};
use nine::p2000::{FileMode, FileType, Qid, Stat, NOTAG, OWNER_READ, OWNER_WRITE, QTAUTH, QTFILE};

fn write_qid(bytes: &mut Vec<u8>, qid: &Qid) {
    bytes.push(qid.file_type.bits());
    bytes.extend_from_slice(&qid.version.to_le_bytes());
    bytes.extend_from_slice(&qid.path.to_le_bytes());
}

/// Not including the size fields.
fn stat_len(s: &Stat) -> u16 {
    2 + 4 + 13 + 4 + 4 + 4 + 8
        + s.name.len() as u16
        + s.uid.len() as u16
        + s.gid.len() as u16
        + s.muid.len() as u16
        + 8
}

fn write_str(w: &mut Vec<u8>, s: &str) {
    w.extend_from_slice(&(s.len() as u16).to_le_bytes());
    w.extend_from_slice(s.as_bytes());
}

fn write_stat(bytes: &mut Vec<u8>, s: &Stat) {
    bytes.extend_from_slice(&(stat_len(s) + 2).to_le_bytes());
    bytes.extend_from_slice(&stat_len(s).to_le_bytes());
    bytes.extend_from_slice(&s.type_.to_le_bytes());
    bytes.extend_from_slice(&s.dev.to_le_bytes());
    write_qid(bytes, &s.qid);
    bytes.extend_from_slice(&s.mode.bits().to_le_bytes());
    bytes.extend_from_slice(&s.atime.to_le_bytes());
    bytes.extend_from_slice(&s.mtime.to_le_bytes());
    bytes.extend_from_slice(&s.length.to_le_bytes());
    write_str(bytes, &s.name);
    write_str(bytes, &s.uid);
    write_str(bytes, &s.gid);
    write_str(bytes, &s.muid);
}

fn version_msg() -> Tversion {
    Tversion { tag: NOTAG, msize: u16::MAX as u32, version: "9p2000".to_string() }
}

fn version_bytes() -> Vec<u8> {
    let mut b = Vec::new();
    b.extend_from_slice(&NOTAG.to_le_bytes());
    b.extend_from_slice(&(u16::MAX as u32).to_le_bytes());
    write_str(&mut b, "9p2000");
    b
}

fn rauth_msg() -> Rauth {
    Rauth { tag: 1, aqid: Qid { file_type: FileType { bits: QTAUTH }, version: 1, path: 0 } }
}

fn rauth_bytes() -> Vec<u8> {
    let mut b = Vec::new();
    b.extend_from_slice(&rauth_msg().tag.to_le_bytes());
    write_qid(&mut b, &rauth_msg().aqid);
    b
}

fn rstat_msg() -> Rstat {
    Rstat {
        tag: 1,
        stat: Stat {
            type_: 1,
            dev: 2,
            qid: Qid { file_type: FileType { bits: QTFILE }, version: 3, path: 4 },
            mode: FileMode { bits: OWNER_READ | OWNER_WRITE },
            atime: 5,
            mtime: 6,
            length: 512,
            name: "hello".to_string(),
            uid: "glenda".to_string(),
            gid: "glenda".to_string(),
            muid: "glenda".to_string(),
        },
    }
}

fn rstat_bytes() -> Vec<u8> {
    let mut b = Vec::new();
    b.extend_from_slice(&rstat_msg().tag.to_le_bytes());
    write_stat(&mut b, &rstat_msg().stat);
    b
}

fn twalk_msg() -> Twalk {
    Twalk { tag: 1, fid: 2, newfid: 3, wname: vec!["one".to_string(), "two".to_string()] }
}

fn twalk_bytes() -> Vec<u8> {
    let m = twalk_msg();
    let mut b = Vec::new();
    b.extend_from_slice(&m.tag.to_le_bytes());
    b.extend_from_slice(&m.fid.to_le_bytes());
    b.extend_from_slice(&m.newfid.to_le_bytes());
    b.extend_from_slice(&2u16.to_le_bytes());
    write_str(&mut b, "one");
    write_str(&mut b, "two");
    b
}

fn rread_msg() -> Rread {
    Rread { tag: 1, data: "hello".to_string().into_bytes() }
}

fn rread_bytes() -> Vec<u8> {
    let m = rread_msg();
    let mut b = Vec::new();
    b.extend_from_slice(&m.tag.to_le_bytes());
    b.extend_from_slice(&5u32.to_le_bytes());
    b.extend_from_slice(&m.data);
    b
}

#[test]
fn version() {
    let actual = Fcall::decode(TVERSION, &version_bytes()).unwrap();
    assert_eq!(actual, Fcall::Tversion(version_msg()));
    assert_eq!(Fcall::Tversion(version_msg()).encode().unwrap(), version_bytes());
}

#[test]
fn rauth() {
    let actual = Fcall::decode(RAUTH, &rauth_bytes()).unwrap();
    assert_eq!(actual, Fcall::Rauth(rauth_msg()));
    assert_eq!(Fcall::Rauth(rauth_msg()).encode().unwrap(), rauth_bytes());
}

#[test]
fn rstat() {
    let actual = Fcall::decode(RSTAT, &rstat_bytes()).unwrap();
    assert_eq!(actual, Fcall::Rstat(rstat_msg()));
    assert_eq!(Fcall::Rstat(rstat_msg()).encode().unwrap(), rstat_bytes());
}

#[test]
fn twalk() {
    let actual = Fcall::decode(TWALK, &twalk_bytes()).unwrap();
    assert_eq!(actual, Fcall::Twalk(twalk_msg()));
    assert_eq!(Fcall::Twalk(twalk_msg()).encode().unwrap(), twalk_bytes());
}

#[test]
fn rread() {
    let actual = Fcall::decode(RREAD, &rread_bytes()).unwrap();
    assert_eq!(actual, Fcall::Rread(rread_msg()));
    assert_eq!(rread_bytes(), Fcall::Rread(rread_msg()).encode().unwrap());
}

#[test]
fn version_size() {
    assert_eq!(Fcall::Tversion(version_msg()).size().unwrap(), 2 + 4 + 8);
}

#[test]
fn version_ser_vec() {
    assert_eq!(version_bytes(), Fcall::Tversion(version_msg()).encode().unwrap());
}

#[test]
fn version_de_read() {
    assert_eq!(Fcall::Tversion(version_msg()), Fcall::decode(TVERSION, &version_bytes()).unwrap());
}

#[test]
fn rauth_size() {
    assert_eq!(Fcall::Rauth(rauth_msg()).size().unwrap(), 2 + 13);
}

#[test]
fn rauth_ser_vec() {
    assert_eq!(rauth_bytes(), Fcall::Rauth(rauth_msg()).encode().unwrap());
}

#[test]
fn rauth_de_read() {
    assert_eq!(Fcall::Rauth(rauth_msg()), Fcall::decode(RAUTH, &rauth_bytes()).unwrap());
}

#[test]
fn rstat_size() {
    assert_eq!(
        Fcall::Rstat(rstat_msg()).size().unwrap(),
        2 + 4 + stat_len(&rstat_msg().stat) as u32
    );
}

#[test]
fn rstat_ser_vec() {
    assert_eq!(rstat_bytes(), Fcall::Rstat(rstat_msg()).encode().unwrap());
}

#[test]
fn rstat_de_read() {
    assert_eq!(Fcall::Rstat(rstat_msg()), Fcall::decode(RSTAT, &rstat_bytes()).unwrap());
}

#[test]
fn twalk_size() {
    assert_eq!(Fcall::Twalk(twalk_msg()).size().unwrap(), 2 + 4 + 4 + 2 + 4 + 6);
}

#[test]
fn twalk_ser_vec() {
    assert_eq!(twalk_bytes(), Fcall::Twalk(twalk_msg()).encode().unwrap());
}

#[test]
fn twalk_de_read() {
    assert_eq!(Fcall::Twalk(twalk_msg()), Fcall::decode(TWALK, &twalk_bytes()).unwrap());
}

#[test]
fn rread_size() {
    assert_eq!(Fcall::Rread(rread_msg()).size().unwrap(), 2 + 4 + 5);
}

#[test]
fn rread_ser_vec() {
    assert_eq!(rread_bytes(), Fcall::Rread(rread_msg()).encode().unwrap());
}

#[test]
fn rread_de_read() {
    assert_eq!(Fcall::Rread(rread_msg()), Fcall::decode(RREAD, &rread_bytes()).unwrap());
}

#[test]
fn rstat_inner_size_is_body_and_outer_two_more() {
    let b = rstat_bytes();
    let outer = u16::from_le_bytes([b[2], b[3]]);
    let inner = u16::from_le_bytes([b[4], b[5]]);
    assert_eq!(outer, inner + 2);
    assert_eq!(inner as usize, b.len() - 6);
}

#[test]
fn decode_refuses_truncated_string() {
    let mut b = version_bytes();
    b.pop();
    assert_eq!(Fcall::decode(TVERSION, &b), Err(nine::wire::DeError::UnexpectedEof));
}

#[test]
fn decode_refuses_trailing_bytes() {
    let mut b = rread_bytes();
    b.push(0);
    assert_eq!(Fcall::decode(RREAD, &b), Err(nine::wire::DeError::TrailingBytes));
}

#[test]
fn decode_refuses_declared_length_past_end() {
    let mut b = Vec::new();
    b.extend_from_slice(&1u16.to_le_bytes());
    b.extend_from_slice(&100u32.to_le_bytes());
    b.extend_from_slice(b"short");
    assert_eq!(Fcall::decode(RREAD, &b), Err(nine::wire::DeError::UnexpectedEof));
}

#[test]
fn decode_unknown_type() {
    assert_eq!(Fcall::decode(106, &[0, 0]), Err(nine::wire::DeError::UnknownType));
}

#[test]
fn decode_refuses_invalid_utf8() {
    let mut b = Vec::new();
    b.extend_from_slice(&1u16.to_le_bytes());
    b.extend_from_slice(&2u16.to_le_bytes());
    b.extend_from_slice(&[0xff, 0xfe]);
    assert_eq!(
        Fcall::decode(nine::message::RERROR, &b),
        Err(nine::wire::DeError::Utf8)
    );
}

#[test]
fn decode_refuses_stat_sizes_that_disagree() {
    let mut b = rstat_bytes();
    b[2] = b[2].wrapping_add(1);
    assert_eq!(Fcall::decode(RSTAT, &b), Err(nine::wire::DeError::BadStatSize));
}

#[test]
fn size_matches_encoding_for_every_shape() {
    let msgs = vec![
        Fcall::Tversion(version_msg()),
        Fcall::Rauth(rauth_msg()),
        Fcall::Rstat(rstat_msg()),
        Fcall::Twalk(twalk_msg()),
        Fcall::Rread(rread_msg()),
    ];
    for m in msgs {
        assert_eq!(m.size().unwrap() as usize, m.encode().unwrap().len());
        let back = Fcall::decode(m.msg_type_id(), &m.encode().unwrap()).unwrap();
        assert_eq!(back, m);
    }
}

fn every_kind() -> Vec<Fcall> {
    let q = Qid { file_type: FileType { bits: 0x80 }, version: 7, path: 9 };
    let st = rstat_msg().stat;
    vec![
        Fcall::Tversion(version_msg()),
        Fcall::Rversion(Rversion { tag: 1, msize: 8192, version: "9P2000".to_string() }),
        Fcall::Tauth(Tauth { tag: 2, afid: 3, uname: "glenda".to_string(), aname: "".to_string() }),
        Fcall::Rauth(rauth_msg()),
        Fcall::Tattach(Tattach {
            tag: 4,
            fid: 5,
            afid: u32::MAX,
            uname: "glenda".to_string(),
            aname: "main".to_string(),
        }),
        Fcall::Rattach(Rattach { tag: 4, qid: q }),
        Fcall::Rerror(Rerror { tag: 6, ename: "no such file".to_string() }),
        Fcall::Tflush(Tflush { tag: 7, oldtag: 6 }),
        Fcall::Rflush(Rflush { tag: 7 }),
        Fcall::Twalk(twalk_msg()),
        Fcall::Rwalk(Rwalk { tag: 8, wqid: vec![q, q] }),
        Fcall::Topen(Topen { tag: 9, fid: 1, mode: nine::p2000::OpenMode { bits: 0x12 } }),
        Fcall::Ropen(Ropen { tag: 9, qid: q, iounit: 0 }),
        Fcall::Tcreate(Tcreate {
            tag: 10,
            fid: 1,
            name: "ünïcödé".to_string(),
            perm: FileMode { bits: 0x8000_01ed },
            mode: nine::p2000::OpenMode { bits: 1 },
        }),
        Fcall::Rcreate(Rcreate { tag: 10, qid: q, iounit: 0 }),
        Fcall::Tread(Tread { tag: 11, fid: 1, offset: 1 << 40, count: 4096 }),
        Fcall::Rread(rread_msg()),
        Fcall::Twrite(Twrite { tag: 12, fid: 1, offset: 3, data: vec![0, 1, 2, 255] }),
        Fcall::Rwrite(Rwrite { tag: 12, count: 4 }),
        Fcall::Tclunk(Tclunk { tag: 13, fid: 1 }),
        Fcall::Rclunk(Rclunk { tag: 13 }),
        Fcall::Tremove(Tremove { tag: 14, fid: 1 }),
        Fcall::Rremove(Rremove { tag: 14 }),
        Fcall::Tstat(Tstat { tag: 15, fid: 1 }),
        Fcall::Rstat(rstat_msg()),
        Fcall::Twstat(Twstat { tag: 16, fid: 1, stat: st }),
        Fcall::Rwstat(Rwstat { tag: 16 }),
    ]
}

#[test]
fn every_kind_round_trips() {
    let all = every_kind();
    assert_eq!(all.len(), 27);
    for m in all {
        let bytes = m.encode().unwrap();
        assert_eq!(m.size().unwrap() as usize, bytes.len());
        assert_eq!(&bytes[0..2], &m.tag().to_le_bytes());
        assert_eq!(Fcall::decode(m.msg_type_id(), &bytes).unwrap(), m);
    }
}
