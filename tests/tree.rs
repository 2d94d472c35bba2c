use nine::errors::ServerError;
use nine::p2000::{
    FileMode, FileType, OpenMode, Qid, Stat, DMDIR, OREAD, ORCLOSE, ORDWR, OTRUNC, OWRITE, QTFILE,
};
use nine::session::Session;
use nine::tree::{atomic_maybe_change, mktree, written, File, FileTree, User};

fn user(name: &str) -> User {
    User { user: name.to_string(), group: "users".to_string() }
}

fn mode(bits: u8) -> OpenMode {
    OpenMode { bits }
}

fn tree_with(files: &[(&str, u32)]) -> FileTree {
    let mut t = mktree("glenda".to_string());
    for (name, perm) in files {
        t.create(0, &"glenda".to_string(), &name.to_string(), FileMode { bits: *perm }, mode(OREAD))
            .unwrap();
    }
    t
}

fn file<'a>(t: &'a FileTree, path: u64) -> &'a File {
    t.get(path).unwrap()
}

fn untouched() -> Stat {
    Stat {
        type_: u16::MAX,
        dev: u32::MAX,
        qid: Qid { file_type: FileType { bits: 0xFF }, version: u32::MAX, path: u64::MAX },
        mode: FileMode { bits: u32::MAX },
        atime: u32::MAX,
        mtime: u32::MAX,
        length: u64::MAX,
        name: String::new(),
        uid: String::new(),
        gid: String::new(),
        muid: String::new(),
    }
}

#[test]
fn root_is_a_directory_at_path_zero() {
    let t = mktree("glenda".to_string());
    let root = file(&t, 0);
    assert!(root.is_dir());
    assert_eq!(root.meta.mode.bits(), DMDIR | 0o775);
    assert_eq!(root.meta.uid, "glenda");
    assert_eq!(root.meta.name, "/");
    assert_eq!(t.qid(0).unwrap().file_type.bits(), 0x80);
}

#[test]
fn created_nodes_are_listed_by_their_parent() {
    let mut t = tree_with(&[("a", 0o644)]);
    let d = t
        .create(0, &"glenda".to_string(), &"d".to_string(), FileMode { bits: DMDIR | 0o755 }, mode(OREAD))
        .unwrap();
    let b = t.create(d, &"glenda".to_string(), &"b".to_string(), FileMode { bits: 0o644 }, mode(OREAD)).unwrap();
    assert_eq!(d, 2);
    assert_eq!(b, 3);
    for p in [1u64, 2, 3] {
        let parent = file(&t, p).parent;
        assert!(t.children_of(parent).contains(&p));
    }
}

#[test]
fn sibling_names_stay_unique() {
    let mut t = tree_with(&[("a", 0o644)]);
    let r = t.create(0, &"glenda".to_string(), &"a".to_string(), FileMode { bits: 0o644 }, mode(OREAD));
    assert!(r.is_err());
    t.create(0, &"glenda".to_string(), &"b".to_string(), FileMode { bits: 0o644 }, mode(OREAD)).unwrap();
    let mut st = untouched();
    st.name = "a".to_string();
    assert!(t.wstat(2, &"glenda".to_string(), &st).is_err());
    assert_eq!(file(&t, 2).meta.name, "b");
}

#[test]
fn create_under_a_file_fails() {
    let mut t = tree_with(&[("a", 0o644)]);
    let r = t.create(1, &"glenda".to_string(), &"x".to_string(), FileMode { bits: 0o644 }, mode(OREAD));
    assert!(r.is_err());
}

#[test]
fn listing_after_create_names_the_new_file() {
    let mut t = tree_with(&[("a", 0o644)]);
    t.read(0, 0, 4096).unwrap();
    t.create(0, &"glenda".to_string(), &"zed".to_string(), FileMode { bits: 0o644 }, mode(OREAD)).unwrap();
    assert!(file(&t, 0).content.is_empty());
    let data = t.read(0, 0, 4096).unwrap();
    let mut names = Vec::new();
    let mut p = 0;
    while p < data.len() {
        let (st, q) = nine::codec::get_stat(&data, p, data.len(), false).unwrap();
        names.push(st.name);
        p = q;
    }
    assert!(names.contains(&"zed".to_string()));
    assert!(names.contains(&"a".to_string()));
}

#[test]
fn write_that_changes_muid_or_length_empties_parent_listing() {
    let mut t = tree_with(&[("a", 0o666)]);
    t.read(0, 0, 4096).unwrap();
    assert!(!file(&t, 0).content.is_empty());
    assert_eq!(t.write(1, &"glenda".to_string(), 0, b"abc").unwrap(), 3);
    assert!(file(&t, 0).content.is_empty());
    t.read(0, 0, 4096).unwrap();
    assert!(!file(&t, 0).content.is_empty());
    // Same writer, same length: the listing stays.
    t.write(1, &"glenda".to_string(), 0, b"xyz").unwrap();
    assert!(!file(&t, 0).content.is_empty());
    // Another writer: the listing goes.
    t.write(1, &"other".to_string(), 0, b"x").unwrap();
    assert!(file(&t, 0).content.is_empty());
    assert_eq!(file(&t, 1).meta.muid, "other");
    assert_eq!(file(&t, 1).content, b"xyz".to_vec());
}

#[test]
fn write_past_end_fills_with_zeros() {
    let mut t = tree_with(&[("a", 0o666)]);
    t.write(1, &"glenda".to_string(), 3, b"z").unwrap();
    assert_eq!(file(&t, 1).content, vec![0, 0, 0, b'z']);
    assert_eq!(written(&vec![1, 2, 3, 4, 5], 1, &[9, 9]), vec![1, 9, 9, 4, 5]);
}

#[test]
fn writing_a_directory_fails() {
    let mut t = mktree("glenda".to_string());
    assert!(t.write(0, &"glenda".to_string(), 0, b"x").is_err());
}

#[test]
fn opening_a_directory_for_write_trunc_or_close_fails() {
    let mut t = mktree("glenda".to_string());
    let u = user("glenda");
    assert!(t.open(0, &u, mode(OWRITE)).is_err());
    assert!(t.open(0, &u, mode(ORDWR)).is_err());
    assert!(t.open(0, &u, mode(OREAD | OTRUNC)).is_err());
    assert!(t.open(0, &u, mode(OREAD | ORCLOSE)).is_err());
    assert!(t.open(0, &u, mode(OREAD)).is_ok());
}

#[test]
fn open_with_trunc_empties_and_sets_muid() {
    let mut t = tree_with(&[("a", 0o666)]);
    t.write(1, &"glenda".to_string(), 0, b"hello").unwrap();
    t.open(1, &user("other"), mode(OWRITE | OTRUNC)).unwrap();
    assert!(file(&t, 1).content.is_empty());
    assert_eq!(file(&t, 1).meta.muid, "other");
}

#[test]
fn open_checks_permissions() {
    let mut t = tree_with(&[("ro", 0o444), ("own", 0o600)]);
    assert!(t.open(1, &user("other"), mode(OWRITE)).is_err());
    assert!(t.open(1, &user("other"), mode(OREAD)).is_ok());
    assert!(t.open(2, &user("other"), mode(OREAD)).is_err());
    assert!(t.open(2, &user("glenda"), mode(ORDWR)).is_ok());
}

#[test]
fn file_read_returns_what_is_there() {
    let mut t = tree_with(&[("a", 0o666)]);
    t.write(1, &"glenda".to_string(), 0, b"0123456789").unwrap();
    assert_eq!(t.read(1, 0, 4).unwrap(), b"0123".to_vec());
    assert_eq!(t.read(1, 8, 4).unwrap(), b"89".to_vec());
    assert_eq!(t.read(1, 10, 4).unwrap().len(), 0);
    assert_eq!(t.read(1, 100, 4).unwrap().len(), 0);
    assert_eq!(file(&t, 1).read(3, 0).len(), 0);
}

#[test]
fn remove_unlinks_and_refuses_root_and_full_dirs() {
    let mut t = tree_with(&[("a", 0o666)]);
    let u = user("glenda");
    let d = t
        .create(0, &"glenda".to_string(), &"d".to_string(), FileMode { bits: DMDIR | 0o755 }, mode(OREAD))
        .unwrap();
    t.create(d, &"glenda".to_string(), &"x".to_string(), FileMode { bits: 0o644 }, mode(OREAD)).unwrap();
    assert!(t.remove(0, &u).is_err());
    assert!(t.remove(d, &u).is_err());
    t.remove(1, &u).unwrap();
    assert!(t.get(1).is_none());
    assert!(!t.children_of(0).contains(&1));
    assert!(t.remove(1, &u).is_err());
}

#[test]
fn wstat_is_all_or_nothing() {
    let mut t = tree_with(&[("a", 0o644)]);
    let mut st = untouched();
    st.name = "b".to_string();
    st.uid = "someone".to_string();
    assert!(t.wstat(1, &"glenda".to_string(), &st).is_err());
    assert_eq!(file(&t, 1).meta.name, "a");

    let mut st = untouched();
    st.name = "b".to_string();
    st.length = 3;
    st.mode = FileMode { bits: 0o600 };
    t.wstat(1, &"glenda".to_string(), &st).unwrap();
    assert_eq!(file(&t, 1).meta.name, "b");
    assert_eq!(file(&t, 1).content, vec![0, 0, 0]);
    assert_eq!(file(&t, 1).meta.mode.bits(), 0o600);
}

#[test]
fn wstat_mode_needs_owner_and_keeps_dir_bit() {
    let mut t = tree_with(&[("a", 0o666)]);
    let mut st = untouched();
    st.mode = FileMode { bits: 0o600 };
    assert!(t.wstat(1, &"other".to_string(), &st).is_err());
    st.mode = FileMode { bits: DMDIR | 0o600 };
    assert!(t.wstat(1, &"glenda".to_string(), &st).is_err());
    let mut st = untouched();
    st.length = 5;
    assert!(t.wstat(0, &"glenda".to_string(), &st).is_err());
}

#[test]
fn atomic_maybe_change_reports_no_change() {
    let t = tree_with(&[("a", 0o644)]);
    let f = file(&t, 1);
    let r = atomic_maybe_change(&f.meta, false, &"glenda".to_string(), &untouched());
    assert!(matches!(r, Ok(None)));
    let mut st = untouched();
    st.mtime = 77;
    match atomic_maybe_change(&f.meta, false, &"glenda".to_string(), &st) {
        Ok(Some(m)) => assert_eq!(m.mtime, 77),
        _ => panic!("expected a change"),
    }
    let mut st = untouched();
    st.dev = 9;
    assert!(matches!(
        atomic_maybe_change(&f.meta, false, &"glenda".to_string(), &st),
        Err(ServerError::NonFatal { .. })
    ));
}

#[test]
fn walk_stops_at_the_first_failure() {
    let mut t = tree_with(&[("a", 0o644)]);
    let d = t
        .create(0, &"glenda".to_string(), &"d".to_string(), FileMode { bits: DMDIR | 0o755 }, mode(OREAD))
        .unwrap();
    let names = |v: &[&str]| v.iter().map(|s| s.to_string()).collect::<Vec<String>>();
    assert_eq!(t.walk_from(0, &names(&[])).len(), 0);
    let up = t.walk_from(0, &names(&[".."]));
    assert_eq!(up.len(), 1);
    assert_eq!(up[0].path, 0);
    let q = t.walk_from(0, &names(&["d", "..", "a"]));
    assert_eq!(q.iter().map(|q| q.path).collect::<Vec<u64>>(), vec![d, 0, 1]);
    assert_eq!(t.walk_from(0, &names(&["a", "x"])).len(), 1);
    assert_eq!(t.walk_from(0, &names(&["nope", "a"])).len(), 0);
    assert_eq!(t.walk(&names(&["d"]))[0].file_type.bits(), 0x80);
    assert_eq!(t.walk(&names(&["a"]))[0].file_type.bits(), QTFILE);
}

fn session() -> Session {
    let t = tree_with(&[("a", 0o666)]);
    Session::attach(t, 0, "glenda".to_string(), "users".to_string())
}

#[test]
fn partial_walk_binds_nothing() {
    let mut s = session();
    let names = vec!["a".to_string(), "b".to_string()];
    let q = s.walk(0, 5, &names).unwrap();
    assert_eq!(q.len(), 1);
    assert!(s.stat(5).is_err());
    let q = s.walk(0, 5, &vec![]).unwrap();
    assert!(q.is_empty());
    assert_eq!(s.stat(5).unwrap().qid.path, 0);
    assert!(s.walk(0, 6, &vec!["zz".to_string()]).unwrap().is_empty());
    assert!(s.stat(6).is_err());
    assert!(s.walk(0, u32::MAX, &vec![]).is_err());
}

#[test]
fn directory_reads_follow_the_last_offset() {
    let mut s = session();
    s.walk(0, 1, &vec![]).unwrap();
    s.open(1, mode(OREAD)).unwrap();
    let first = s.read(1, 0, 10).unwrap();
    assert_eq!(first.len(), 10);
    assert!(s.read(1, 3, 10).is_err());
    let next = s.read(1, 10, 10).unwrap();
    assert!(!next.is_empty());
    assert!(s.read(1, 0, 10).is_ok());
}

#[test]
fn reads_and_writes_need_an_open_fid() {
    let mut s = session();
    s.walk(0, 1, &vec!["a".to_string()]).unwrap();
    assert!(s.read(1, 0, 10).is_err());
    assert!(s.write(1, 0, b"x").is_err());
    s.open(1, mode(OREAD)).unwrap();
    assert!(s.write(1, 0, b"x").is_err());
    assert!(s.open(1, mode(OREAD)).is_err());
}

#[test]
fn clunk_and_remove_release_the_fid() {
    let mut s = session();
    s.walk(0, 1, &vec!["a".to_string()]).unwrap();
    s.clunk(1).unwrap();
    assert!(s.clunk(1).is_err());
    assert!(s.tree.get(1).is_some());
    s.walk(0, 2, &vec!["a".to_string()]).unwrap();
    s.remove(2).unwrap();
    assert!(s.tree.get(1).is_none());
    assert!(s.stat(2).is_err());
}

#[test]
fn create_through_a_fid_opens_the_new_file() {
    let mut s = session();
    s.walk(0, 1, &vec![]).unwrap();
    let q = s.create(1, &"n".to_string(), FileMode { bits: 0o644 }, mode(ORDWR)).unwrap();
    assert_eq!(q.path, 2);
    assert_eq!(s.write(1, 0, b"hey").unwrap(), 3);
    assert_eq!(s.read(1, 0, 10).unwrap(), b"hey".to_vec());
    assert!(s.create(1, &"m".to_string(), FileMode { bits: 0o644 }, mode(ORDWR)).is_err());
}

#[test]
fn stat_reports_length_and_owner() {
    let mut s = session();
    s.walk(0, 1, &vec!["a".to_string()]).unwrap();
    s.open(1, mode(OWRITE)).unwrap();
    s.write(1, 0, b"12345").unwrap();
    let st = s.stat(1).unwrap();
    assert_eq!(st.length, 5);
    assert_eq!(st.uid, "glenda");
    assert_eq!(st.qid.path, 1);
    assert_eq!(s.stat(0).unwrap().length, 0);
}

#[test]
fn rename_shows_in_the_next_listing() {
    let mut t = tree_with(&[("a", 0o644)]);
    t.read(0, 0, 4096).unwrap();
    let mut st = untouched();
    st.name = "renamed".to_string();
    t.wstat(1, &"glenda".to_string(), &st).unwrap();
    assert!(file(&t, 0).content.is_empty());
    let data = t.read(0, 0, 4096).unwrap();
    let (entry, _) = nine::codec::get_stat(&data, 0, data.len(), false).unwrap();
    assert_eq!(entry.name, "renamed");
}

#[test]
fn read_trunc_open_truncates_without_write_permission() {
    let mut t = tree_with(&[("a", 0o644)]);
    t.write(1, &"glenda".to_string(), 0, b"hello").unwrap();
    t.open(1, &user("other"), mode(OREAD | OTRUNC)).unwrap();
    assert!(file(&t, 1).content.is_empty());
    assert_eq!(file(&t, 1).meta.muid, "other");
}

#[test]
fn read_cursor_advances_by_the_count_read() {
    let mut s = session();
    s.walk(0, 1, &vec!["a".to_string()]).unwrap();
    s.open(1, mode(ORDWR)).unwrap();
    s.write(1, 0, b"0123456789").unwrap();
    assert_eq!(s.read(1, 4, 3).unwrap(), b"456".to_vec());
    assert_eq!(s.fids.get(&1).unwrap().open.unwrap().last_offset, 3);
    assert_eq!(s.read(1, 0, 2).unwrap(), b"01".to_vec());
    assert_eq!(s.fids.get(&1).unwrap().open.unwrap().last_offset, 5);
}

#[test]
fn failed_string_leaves_the_buffer_alone() {
    let mut buf = vec![1u8, 2];
    assert!(nine::wire::put_str(&mut buf, &"x".repeat(65536)).is_err());
    assert_eq!(buf, vec![1, 2]);
}
