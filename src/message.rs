//! The 9P2000 message set: one struct per message, the `Fcall` union of
//! them, and their encoding, sizing and decoding.
use crate::codec::{
    enc_qids, enc_stat, get_qid, get_qids, get_stat, lemma_split, put_qid, put_qids, put_stat,
    qid_bytes, qids_at, size_stat, sized, stat_at,
};
use crate::p2000::{FileMode, OpenMode, Qid, Stat};
use crate::wire::{
    appended, cat, enc_data, enc_str, enc_strs, get_data, get_str, get_strs, get_u16, get_u32,
    get_u64, get_u8, lemma_int_bytes, put_data, put_str, put_strs, put_u16, put_u32, put_u64,
    put_u8, views_of, DeError, SerError, SEQ_LEN_MAX, at, lemma_at_split, strs_at, str_bytes,
    data_bytes, utf8_len, STRING_LEN_MAX,
};
use crate::codec::{size_data, size_str, size_strs};
use vstd::bytes::*;
use vstd::prelude::*;

verus! {

pub broadcast proof fn lemma_cat_assoc(a: Seq<u8>, b: Seq<u8>, c: Seq<u8>)
    ensures
        #[trigger] (a + (b + c)) == (a + b) + c,
{
    assert(a + (b + c) =~= (a + b) + c);
}

/// Largest encoded message body: with the four-byte size and the type byte
/// the whole message must fit a `u32`.
pub const BODY_LEN_MAX: usize = 4294967290;

pub const TVERSION: u8 = 100;
pub const RVERSION: u8 = 101;
pub const TAUTH: u8 = 102;
pub const RAUTH: u8 = 103;
pub const TATTACH: u8 = 104;
pub const RATTACH: u8 = 105;
pub const RERROR: u8 = 107;
pub const TFLUSH: u8 = 108;
pub const RFLUSH: u8 = 109;
pub const TWALK: u8 = 110;
pub const RWALK: u8 = 111;
pub const TOPEN: u8 = 112;
pub const ROPEN: u8 = 113;
pub const TCREATE: u8 = 114;
pub const RCREATE: u8 = 115;
pub const TREAD: u8 = 116;
pub const RREAD: u8 = 117;
pub const TWRITE: u8 = 118;
pub const RWRITE: u8 = 119;
pub const TCLUNK: u8 = 120;
pub const RCLUNK: u8 = 121;
pub const TREMOVE: u8 = 122;
pub const RREMOVE: u8 = 123;
pub const TSTAT: u8 = 124;
pub const RSTAT: u8 = 125;
pub const TWSTAT: u8 = 126;
pub const RWSTAT: u8 = 127;

/// Opens a connection: proposes a maximum message size and a protocol version.
#[derive(Debug, PartialEq, Eq)]
pub struct Tversion {
    pub tag: u16,
    pub msize: u32,
    pub version: String,
}

/// The server's answer to `Tversion`.
#[derive(Debug, PartialEq, Eq)]
pub struct Rversion {
    pub tag: u16,
    pub msize: u32,
    pub version: String,
}

/// Asks for an authentication file.
#[derive(Debug, PartialEq, Eq)]
pub struct Tauth {
    pub tag: u16,
    pub afid: u32,
    pub uname: String,
    pub aname: String,
}

/// The qid of an authentication file.
#[derive(Debug, PartialEq, Eq)]
pub struct Rauth {
    pub tag: u16,
    pub aqid: Qid,
}

/// Introduces a user and binds `fid` to the root of the tree.
#[derive(Debug, PartialEq, Eq)]
pub struct Tattach {
    pub tag: u16,
    pub fid: u32,
    pub afid: u32,
    pub uname: String,
    pub aname: String,
}

/// The root's qid.
#[derive(Debug, PartialEq, Eq)]
pub struct Rattach {
    pub tag: u16,
    pub qid: Qid,
}

/// A failed request, with the reason.
#[derive(Debug, PartialEq, Eq)]
pub struct Rerror {
    pub tag: u16,
    pub ename: String,
}

/// Asks the server to abandon the request tagged `oldtag`.
#[derive(Debug, PartialEq, Eq)]
pub struct Tflush {
    pub tag: u16,
    pub oldtag: u16,
}

/// The answer to `Tflush`.
#[derive(Debug, PartialEq, Eq)]
pub struct Rflush {
    pub tag: u16,
}

/// Walks from `fid` along `wname`, binding `newfid` where the walk ends.
#[derive(Debug, PartialEq, Eq)]
pub struct Twalk {
    pub tag: u16,
    pub fid: u32,
    pub newfid: u32,
    pub wname: Vec<String>,
}

/// The qids of the files walked to.
#[derive(Debug, PartialEq, Eq)]
pub struct Rwalk {
    pub tag: u16,
    pub wqid: Vec<Qid>,
}

/// Opens the file of `fid`.
#[derive(Debug, PartialEq, Eq)]
pub struct Topen {
    pub tag: u16,
    pub fid: u32,
    pub mode: OpenMode,
}

/// The opened file's qid and I/O unit.
#[derive(Debug, PartialEq, Eq)]
pub struct Ropen {
    pub tag: u16,
    pub qid: Qid,
    pub iounit: u32,
}

/// Creates `name` in the directory of `fid` and opens it.
#[derive(Debug, PartialEq, Eq)]
pub struct Tcreate {
    pub tag: u16,
    pub fid: u32,
    pub name: String,
    pub perm: FileMode,
    pub mode: OpenMode,
}

/// The created file's qid and I/O unit.
#[derive(Debug, PartialEq, Eq)]
pub struct Rcreate {
    pub tag: u16,
    pub qid: Qid,
    pub iounit: u32,
}

/// Reads up to `count` bytes at `offset`.
#[derive(Debug, PartialEq, Eq)]
pub struct Tread {
    pub tag: u16,
    pub fid: u32,
    pub offset: u64,
    pub count: u32,
}

/// The bytes read.
#[derive(Debug, PartialEq, Eq)]
pub struct Rread {
    pub tag: u16,
    pub data: Vec<u8>,
}

/// Writes `data` at `offset`.
#[derive(Debug, PartialEq, Eq)]
pub struct Twrite {
    pub tag: u16,
    pub fid: u32,
    pub offset: u64,
    pub data: Vec<u8>,
}

/// How many bytes were written.
#[derive(Debug, PartialEq, Eq)]
pub struct Rwrite {
    pub tag: u16,
    pub count: u32,
}

/// Releases `fid`.
#[derive(Debug, PartialEq, Eq)]
pub struct Tclunk {
    pub tag: u16,
    pub fid: u32,
}

/// The answer to `Tclunk`.
#[derive(Debug, PartialEq, Eq)]
pub struct Rclunk {
    pub tag: u16,
}

/// Removes the file of `fid` and releases `fid`.
#[derive(Debug, PartialEq, Eq)]
pub struct Tremove {
    pub tag: u16,
    pub fid: u32,
}

/// The answer to `Tremove`.
#[derive(Debug, PartialEq, Eq)]
pub struct Rremove {
    pub tag: u16,
}

/// Asks for the stat record of the file of `fid`.
#[derive(Debug, PartialEq, Eq)]
pub struct Tstat {
    pub tag: u16,
    pub fid: u32,
}

/// A stat record.
#[derive(Debug, PartialEq, Eq)]
pub struct Rstat {
    pub tag: u16,
    pub stat: Stat,
}

/// Changes the fields of a stat record that are not left as "don't touch".
#[derive(Debug, PartialEq, Eq)]
pub struct Twstat {
    pub tag: u16,
    pub fid: u32,
    pub stat: Stat,
}

/// The answer to `Twstat`.
#[derive(Debug, PartialEq, Eq)]
pub struct Rwstat {
    pub tag: u16,
}

/// Any 9P2000 message.
#[derive(Debug, PartialEq, Eq)]
pub enum Fcall {
    Tversion(Tversion),
    Rversion(Rversion),
    Tauth(Tauth),
    Rauth(Rauth),
    Tattach(Tattach),
    Rattach(Rattach),
    Rerror(Rerror),
    Tflush(Tflush),
    Rflush(Rflush),
    Twalk(Twalk),
    Rwalk(Rwalk),
    Topen(Topen),
    Ropen(Ropen),
    Tcreate(Tcreate),
    Rcreate(Rcreate),
    Tread(Tread),
    Rread(Rread),
    Twrite(Twrite),
    Rwrite(Rwrite),
    Tclunk(Tclunk),
    Rclunk(Rclunk),
    Tremove(Tremove),
    Rremove(Rremove),
    Tstat(Tstat),
    Rstat(Rstat),
    Twstat(Twstat),
    Rwstat(Rwstat),
}

impl Tversion {
    /// The message body on the wire, or the first field that cannot be encoded.
    pub open spec fn spec_enc(self) -> Result<Seq<u8>, SerError> {
        cat(
            Ok(spec_u16_to_le_bytes(self.tag) + spec_u32_to_le_bytes(self.msize)),
            enc_str(self.version@),
        )
    }

    /// Appends the message body to `buf`.
    pub fn encode_into(&self, buf: &mut Vec<u8>) -> (r: Result<(), SerError>)
        ensures
            appended(r, old(buf)@, final(buf)@, self.spec_enc()),
    {
        broadcast use lemma_cat_assoc;

        proof {
            lemma_int_bytes();
        }
        let m = self;
        put_u16(buf, m.tag);
        put_u32(buf, m.msize);
        put_str(buf, m.version.as_str())?;
        Ok(())
    }

    /// The size of the message body, computed without encoding it.
    pub fn body_size(&self) -> (r: Result<u64, SerError>)
        ensures
            sized(r, self.spec_enc()),
    {
        proof {
            lemma_int_bytes();
        }
        let m = self;
        let s0 = size_str(m.version.as_str())?;
        Ok(2 + 4 + s0)
    }

    /// The two messages hold the same values.
    pub open spec fn same(self, o: Self) -> bool {
        self.tag == o.tag
            && self.msize == o.msize
            && self.version@ == o.version@
    }

    /// Where the message's encoding is the whole of `b`, each field's
    /// encoding stands in turn, from the start.
    pub proof fn lemma_layout(m: Self, b: Seq<u8>, end: int)
        requires
            m.spec_enc() == Ok::<Seq<u8>, SerError>(b),
            end == b.len(),
        ensures
            at(b, 0int, end, spec_u16_to_le_bytes(m.tag)),
            at(b, 0int + (spec_u16_to_le_bytes(m.tag)).len(), end, spec_u32_to_le_bytes(m.msize)),
            utf8_len(m.version@) <= STRING_LEN_MAX,
            at(
                b,
                0int + (spec_u16_to_le_bytes(m.tag)).len() + (spec_u32_to_le_bytes(m.msize)).len(),
                end,
                str_bytes(m.version@),
            ),
            0int
                + (spec_u16_to_le_bytes(m.tag)).len()
                + (spec_u32_to_le_bytes(m.msize)).len()
                + (str_bytes(m.version@)).len() == end,
    {
        broadcast use lemma_cat_assoc;

        lemma_int_bytes();
        assert(
            b == spec_u16_to_le_bytes(m.tag)
                + spec_u32_to_le_bytes(m.msize)
                + str_bytes(m.version@)
        );
        assert(b.subrange(0, b.len() as int) =~= b);
        lemma_at_split(
            b,
            0,
            end,
            spec_u16_to_le_bytes(m.tag) + spec_u32_to_le_bytes(m.msize),
            str_bytes(m.version@),
        );
        lemma_at_split(b, 0, end, spec_u16_to_le_bytes(m.tag), spec_u32_to_le_bytes(m.msize));
    }

    /// Decodes a message body that must hold exactly this message. Where
    /// the body is the encoding of a message, that message is read.
    pub fn decode_body(b: &[u8]) -> (r: Result<Tversion, DeError>)
        requires
            b@.len() <= BODY_LEN_MAX,
        ensures
            b@.len() < 2 ==> r is Err,
            r matches Ok(m) ==> m.spec_enc() == Ok::<Seq<u8>, SerError>(b@),
            forall|m: Tversion|
                #[trigger] m.spec_enc() == Ok::<Seq<u8>, SerError>(b@)
                    ==> (r matches Ok(m2) && m2.same(m)),
    {
        broadcast use lemma_cat_assoc;

        proof {
            lemma_int_bytes();
        }
        let end = b.len();
        let (tag, pos1) = match get_u16(b, 0, end) {
            Ok(x) => x,
            Err(e) => {
                proof {
                    assert forall|m: Tversion|
                        #[trigger] m.spec_enc() == Ok::<Seq<u8>, SerError>(b@) implies false by {
                        Tversion::lemma_layout(m, b@, end as int);
                    }
                }
                return Err(e);
            },
        };
        let (msize, pos2) = match get_u32(b, pos1, end) {
            Ok(x) => x,
            Err(e) => {
                proof {
                    assert forall|m: Tversion|
                        #[trigger] m.spec_enc() == Ok::<Seq<u8>, SerError>(b@) implies false by {
                        Tversion::lemma_layout(m, b@, end as int);
                    }
                }
                return Err(e);
            },
        };
        let (version, pos3) = match get_str(b, pos2, end) {
            Ok(x) => x,
            Err(e) => {
                proof {
                    assert forall|m: Tversion|
                        #[trigger] m.spec_enc() == Ok::<Seq<u8>, SerError>(b@) implies false by {
                        Tversion::lemma_layout(m, b@, end as int);
                    }
                }
                return Err(e);
            },
        };
        if pos3 != end {
            proof {
                assert forall|m: Tversion|
                    #[trigger] m.spec_enc() == Ok::<Seq<u8>, SerError>(b@) implies false by {
                    Tversion::lemma_layout(m, b@, end as int);
                }
            }
            return Err(DeError::TrailingBytes);
        }
        let m2 = Tversion { tag, msize, version };
        proof {
            lemma_split(b@, 0, pos1 as int, pos2 as int);
            lemma_split(b@, 0, pos2 as int, pos3 as int);
            assert(b@.subrange(0, pos3 as int) =~= b@);
            assert forall|m: Tversion|
                #[trigger] m.spec_enc() == Ok::<Seq<u8>, SerError>(b@) implies m2.same(m) by {
                Tversion::lemma_layout(m, b@, end as int);
            }
        }
        Ok(m2)
    }
}

impl Rversion {
    /// The message body on the wire, or the first field that cannot be encoded.
    pub open spec fn spec_enc(self) -> Result<Seq<u8>, SerError> {
        cat(
            Ok(spec_u16_to_le_bytes(self.tag) + spec_u32_to_le_bytes(self.msize)),
            enc_str(self.version@),
        )
    }

    /// Appends the message body to `buf`.
    pub fn encode_into(&self, buf: &mut Vec<u8>) -> (r: Result<(), SerError>)
        ensures
            appended(r, old(buf)@, final(buf)@, self.spec_enc()),
    {
        broadcast use lemma_cat_assoc;

        proof {
            lemma_int_bytes();
        }
        let m = self;
        put_u16(buf, m.tag);
        put_u32(buf, m.msize);
        put_str(buf, m.version.as_str())?;
        Ok(())
    }

    /// The size of the message body, computed without encoding it.
    pub fn body_size(&self) -> (r: Result<u64, SerError>)
        ensures
            sized(r, self.spec_enc()),
    {
        proof {
            lemma_int_bytes();
        }
        let m = self;
        let s0 = size_str(m.version.as_str())?;
        Ok(2 + 4 + s0)
    }

    /// The two messages hold the same values.
    pub open spec fn same(self, o: Self) -> bool {
        self.tag == o.tag
            && self.msize == o.msize
            && self.version@ == o.version@
    }

    /// Where the message's encoding is the whole of `b`, each field's
    /// encoding stands in turn, from the start.
    pub proof fn lemma_layout(m: Self, b: Seq<u8>, end: int)
        requires
            m.spec_enc() == Ok::<Seq<u8>, SerError>(b),
            end == b.len(),
        ensures
            at(b, 0int, end, spec_u16_to_le_bytes(m.tag)),
            at(b, 0int + (spec_u16_to_le_bytes(m.tag)).len(), end, spec_u32_to_le_bytes(m.msize)),
            utf8_len(m.version@) <= STRING_LEN_MAX,
            at(
                b,
                0int + (spec_u16_to_le_bytes(m.tag)).len() + (spec_u32_to_le_bytes(m.msize)).len(),
                end,
                str_bytes(m.version@),
            ),
            0int
                + (spec_u16_to_le_bytes(m.tag)).len()
                + (spec_u32_to_le_bytes(m.msize)).len()
                + (str_bytes(m.version@)).len() == end,
    {
        broadcast use lemma_cat_assoc;

        lemma_int_bytes();
        assert(
            b == spec_u16_to_le_bytes(m.tag)
                + spec_u32_to_le_bytes(m.msize)
                + str_bytes(m.version@)
        );
        assert(b.subrange(0, b.len() as int) =~= b);
        lemma_at_split(
            b,
            0,
            end,
            spec_u16_to_le_bytes(m.tag) + spec_u32_to_le_bytes(m.msize),
            str_bytes(m.version@),
        );
        lemma_at_split(b, 0, end, spec_u16_to_le_bytes(m.tag), spec_u32_to_le_bytes(m.msize));
    }

    /// Decodes a message body that must hold exactly this message. Where
    /// the body is the encoding of a message, that message is read.
    pub fn decode_body(b: &[u8]) -> (r: Result<Rversion, DeError>)
        requires
            b@.len() <= BODY_LEN_MAX,
        ensures
            b@.len() < 2 ==> r is Err,
            r matches Ok(m) ==> m.spec_enc() == Ok::<Seq<u8>, SerError>(b@),
            forall|m: Rversion|
                #[trigger] m.spec_enc() == Ok::<Seq<u8>, SerError>(b@)
                    ==> (r matches Ok(m2) && m2.same(m)),
    {
        broadcast use lemma_cat_assoc;

        proof {
            lemma_int_bytes();
        }
        let end = b.len();
        let (tag, pos1) = match get_u16(b, 0, end) {
            Ok(x) => x,
            Err(e) => {
                proof {
                    assert forall|m: Rversion|
                        #[trigger] m.spec_enc() == Ok::<Seq<u8>, SerError>(b@) implies false by {
                        Rversion::lemma_layout(m, b@, end as int);
                    }
                }
                return Err(e);
            },
        };
        let (msize, pos2) = match get_u32(b, pos1, end) {
            Ok(x) => x,
            Err(e) => {
                proof {
                    assert forall|m: Rversion|
                        #[trigger] m.spec_enc() == Ok::<Seq<u8>, SerError>(b@) implies false by {
                        Rversion::lemma_layout(m, b@, end as int);
                    }
                }
                return Err(e);
            },
        };
        let (version, pos3) = match get_str(b, pos2, end) {
            Ok(x) => x,
            Err(e) => {
                proof {
                    assert forall|m: Rversion|
                        #[trigger] m.spec_enc() == Ok::<Seq<u8>, SerError>(b@) implies false by {
                        Rversion::lemma_layout(m, b@, end as int);
                    }
                }
                return Err(e);
            },
        };
        if pos3 != end {
            proof {
                assert forall|m: Rversion|
                    #[trigger] m.spec_enc() == Ok::<Seq<u8>, SerError>(b@) implies false by {
                    Rversion::lemma_layout(m, b@, end as int);
                }
            }
            return Err(DeError::TrailingBytes);
        }
        let m2 = Rversion { tag, msize, version };
        proof {
            lemma_split(b@, 0, pos1 as int, pos2 as int);
            lemma_split(b@, 0, pos2 as int, pos3 as int);
            assert(b@.subrange(0, pos3 as int) =~= b@);
            assert forall|m: Rversion|
                #[trigger] m.spec_enc() == Ok::<Seq<u8>, SerError>(b@) implies m2.same(m) by {
                Rversion::lemma_layout(m, b@, end as int);
            }
        }
        Ok(m2)
    }
}

impl Tauth {
    /// The message body on the wire, or the first field that cannot be encoded.
    pub open spec fn spec_enc(self) -> Result<Seq<u8>, SerError> {
        cat(
            cat(
                Ok(spec_u16_to_le_bytes(self.tag) + spec_u32_to_le_bytes(self.afid)),
                enc_str(self.uname@),
            ),
            enc_str(self.aname@),
        )
    }

    /// Appends the message body to `buf`.
    pub fn encode_into(&self, buf: &mut Vec<u8>) -> (r: Result<(), SerError>)
        ensures
            appended(r, old(buf)@, final(buf)@, self.spec_enc()),
    {
        broadcast use lemma_cat_assoc;

        proof {
            lemma_int_bytes();
        }
        let m = self;
        put_u16(buf, m.tag);
        put_u32(buf, m.afid);
        put_str(buf, m.uname.as_str())?;
        put_str(buf, m.aname.as_str())?;
        Ok(())
    }

    /// The size of the message body, computed without encoding it.
    pub fn body_size(&self) -> (r: Result<u64, SerError>)
        ensures
            sized(r, self.spec_enc()),
    {
        proof {
            lemma_int_bytes();
        }
        let m = self;
        let s0 = size_str(m.uname.as_str())?;
        let s1 = size_str(m.aname.as_str())?;
        Ok(2 + 4 + s0 + s1)
    }

    /// The two messages hold the same values.
    pub open spec fn same(self, o: Self) -> bool {
        self.tag == o.tag
            && self.afid == o.afid
            && self.uname@ == o.uname@
            && self.aname@ == o.aname@
    }

    /// Where the message's encoding is the whole of `b`, each field's
    /// encoding stands in turn, from the start.
    pub proof fn lemma_layout(m: Self, b: Seq<u8>, end: int)
        requires
            m.spec_enc() == Ok::<Seq<u8>, SerError>(b),
            end == b.len(),
        ensures
            at(b, 0int, end, spec_u16_to_le_bytes(m.tag)),
            at(b, 0int + (spec_u16_to_le_bytes(m.tag)).len(), end, spec_u32_to_le_bytes(m.afid)),
            utf8_len(m.uname@) <= STRING_LEN_MAX,
            at(
                b,
                0int + (spec_u16_to_le_bytes(m.tag)).len() + (spec_u32_to_le_bytes(m.afid)).len(),
                end,
                str_bytes(m.uname@),
            ),
            utf8_len(m.aname@) <= STRING_LEN_MAX,
            at(
                b,
                0int
                    + (spec_u16_to_le_bytes(m.tag)).len()
                    + (spec_u32_to_le_bytes(m.afid)).len()
                    + (str_bytes(m.uname@)).len(),
                end,
                str_bytes(m.aname@),
            ),
            0int
                + (spec_u16_to_le_bytes(m.tag)).len()
                + (spec_u32_to_le_bytes(m.afid)).len()
                + (str_bytes(m.uname@)).len()
                + (str_bytes(m.aname@)).len() == end,
    {
        broadcast use lemma_cat_assoc;

        lemma_int_bytes();
        assert(
            b == spec_u16_to_le_bytes(m.tag)
                + spec_u32_to_le_bytes(m.afid)
                + str_bytes(m.uname@)
                + str_bytes(m.aname@)
        );
        assert(b.subrange(0, b.len() as int) =~= b);
        lemma_at_split(
            b,
            0,
            end,
            spec_u16_to_le_bytes(m.tag) + spec_u32_to_le_bytes(m.afid) + str_bytes(m.uname@),
            str_bytes(m.aname@),
        );
        lemma_at_split(
            b,
            0,
            end,
            spec_u16_to_le_bytes(m.tag) + spec_u32_to_le_bytes(m.afid),
            str_bytes(m.uname@),
        );
        lemma_at_split(b, 0, end, spec_u16_to_le_bytes(m.tag), spec_u32_to_le_bytes(m.afid));
    }

    /// Decodes a message body that must hold exactly this message. Where
    /// the body is the encoding of a message, that message is read.
    pub fn decode_body(b: &[u8]) -> (r: Result<Tauth, DeError>)
        requires
            b@.len() <= BODY_LEN_MAX,
        ensures
            b@.len() < 2 ==> r is Err,
            r matches Ok(m) ==> m.spec_enc() == Ok::<Seq<u8>, SerError>(b@),
            forall|m: Tauth|
                #[trigger] m.spec_enc() == Ok::<Seq<u8>, SerError>(b@)
                    ==> (r matches Ok(m2) && m2.same(m)),
    {
        broadcast use lemma_cat_assoc;

        proof {
            lemma_int_bytes();
        }
        let end = b.len();
        let (tag, pos1) = match get_u16(b, 0, end) {
            Ok(x) => x,
            Err(e) => {
                proof {
                    assert forall|m: Tauth|
                        #[trigger] m.spec_enc() == Ok::<Seq<u8>, SerError>(b@) implies false by {
                        Tauth::lemma_layout(m, b@, end as int);
                    }
                }
                return Err(e);
            },
        };
        let (afid, pos2) = match get_u32(b, pos1, end) {
            Ok(x) => x,
            Err(e) => {
                proof {
                    assert forall|m: Tauth|
                        #[trigger] m.spec_enc() == Ok::<Seq<u8>, SerError>(b@) implies false by {
                        Tauth::lemma_layout(m, b@, end as int);
                    }
                }
                return Err(e);
            },
        };
        let (uname, pos3) = match get_str(b, pos2, end) {
            Ok(x) => x,
            Err(e) => {
                proof {
                    assert forall|m: Tauth|
                        #[trigger] m.spec_enc() == Ok::<Seq<u8>, SerError>(b@) implies false by {
                        Tauth::lemma_layout(m, b@, end as int);
                    }
                }
                return Err(e);
            },
        };
        let (aname, pos4) = match get_str(b, pos3, end) {
            Ok(x) => x,
            Err(e) => {
                proof {
                    assert forall|m: Tauth|
                        #[trigger] m.spec_enc() == Ok::<Seq<u8>, SerError>(b@) implies false by {
                        Tauth::lemma_layout(m, b@, end as int);
                    }
                }
                return Err(e);
            },
        };
        if pos4 != end {
            proof {
                assert forall|m: Tauth|
                    #[trigger] m.spec_enc() == Ok::<Seq<u8>, SerError>(b@) implies false by {
                    Tauth::lemma_layout(m, b@, end as int);
                }
            }
            return Err(DeError::TrailingBytes);
        }
        let m2 = Tauth { tag, afid, uname, aname };
        proof {
            lemma_split(b@, 0, pos1 as int, pos2 as int);
            lemma_split(b@, 0, pos2 as int, pos3 as int);
            lemma_split(b@, 0, pos3 as int, pos4 as int);
            assert(b@.subrange(0, pos4 as int) =~= b@);
            assert forall|m: Tauth|
                #[trigger] m.spec_enc() == Ok::<Seq<u8>, SerError>(b@) implies m2.same(m) by {
                Tauth::lemma_layout(m, b@, end as int);
            }
        }
        Ok(m2)
    }
}

impl Rauth {
    /// The message body on the wire, or the first field that cannot be encoded.
    pub open spec fn spec_enc(self) -> Result<Seq<u8>, SerError> {
        Ok(spec_u16_to_le_bytes(self.tag) + qid_bytes(self.aqid))
    }

    /// Appends the message body to `buf`.
    pub fn encode_into(&self, buf: &mut Vec<u8>) -> (r: Result<(), SerError>)
        ensures
            appended(r, old(buf)@, final(buf)@, self.spec_enc()),
    {
        broadcast use lemma_cat_assoc;

        proof {
            lemma_int_bytes();
        }
        let m = self;
        put_u16(buf, m.tag);
        put_qid(buf, &m.aqid);
        Ok(())
    }

    /// The size of the message body, computed without encoding it.
    pub fn body_size(&self) -> (r: Result<u64, SerError>)
        ensures
            sized(r, self.spec_enc()),
    {
        proof {
            lemma_int_bytes();
        }
        let m = self;
        Ok(2 + 13)
    }

    /// The two messages hold the same values.
    pub open spec fn same(self, o: Self) -> bool {
        self.tag == o.tag
            && self.aqid == o.aqid
    }

    /// Where the message's encoding is the whole of `b`, each field's
    /// encoding stands in turn, from the start.
    pub proof fn lemma_layout(m: Self, b: Seq<u8>, end: int)
        requires
            m.spec_enc() == Ok::<Seq<u8>, SerError>(b),
            end == b.len(),
        ensures
            at(b, 0int, end, spec_u16_to_le_bytes(m.tag)),
            at(b, 0int + (spec_u16_to_le_bytes(m.tag)).len(), end, qid_bytes(m.aqid)),
            0int + (spec_u16_to_le_bytes(m.tag)).len() + (qid_bytes(m.aqid)).len() == end,
    {
        broadcast use lemma_cat_assoc;

        lemma_int_bytes();
        assert(b == spec_u16_to_le_bytes(m.tag) + qid_bytes(m.aqid));
        assert(b.subrange(0, b.len() as int) =~= b);
        lemma_at_split(b, 0, end, spec_u16_to_le_bytes(m.tag), qid_bytes(m.aqid));
    }

    /// Decodes a message body that must hold exactly this message. Where
    /// the body is the encoding of a message, that message is read.
    pub fn decode_body(b: &[u8]) -> (r: Result<Rauth, DeError>)
        requires
            b@.len() <= BODY_LEN_MAX,
        ensures
            b@.len() < 2 ==> r is Err,
            r matches Ok(m) ==> m.spec_enc() == Ok::<Seq<u8>, SerError>(b@),
            forall|m: Rauth|
                #[trigger] m.spec_enc() == Ok::<Seq<u8>, SerError>(b@)
                    ==> (r matches Ok(m2) && m2.same(m)),
    {
        broadcast use lemma_cat_assoc;

        proof {
            lemma_int_bytes();
        }
        let end = b.len();
        let (tag, pos1) = match get_u16(b, 0, end) {
            Ok(x) => x,
            Err(e) => {
                proof {
                    assert forall|m: Rauth|
                        #[trigger] m.spec_enc() == Ok::<Seq<u8>, SerError>(b@) implies false by {
                        Rauth::lemma_layout(m, b@, end as int);
                    }
                }
                return Err(e);
            },
        };
        let (aqid, pos2) = match get_qid(b, pos1, end) {
            Ok(x) => x,
            Err(e) => {
                proof {
                    assert forall|m: Rauth|
                        #[trigger] m.spec_enc() == Ok::<Seq<u8>, SerError>(b@) implies false by {
                        Rauth::lemma_layout(m, b@, end as int);
                    }
                }
                return Err(e);
            },
        };
        if pos2 != end {
            proof {
                assert forall|m: Rauth|
                    #[trigger] m.spec_enc() == Ok::<Seq<u8>, SerError>(b@) implies false by {
                    Rauth::lemma_layout(m, b@, end as int);
                }
            }
            return Err(DeError::TrailingBytes);
        }
        let m2 = Rauth { tag, aqid };
        proof {
            lemma_split(b@, 0, pos1 as int, pos2 as int);
            assert(b@.subrange(0, pos2 as int) =~= b@);
            assert forall|m: Rauth|
                #[trigger] m.spec_enc() == Ok::<Seq<u8>, SerError>(b@) implies m2.same(m) by {
                Rauth::lemma_layout(m, b@, end as int);
            }
        }
        Ok(m2)
    }
}

impl Tattach {
    /// The message body on the wire, or the first field that cannot be encoded.
    pub open spec fn spec_enc(self) -> Result<Seq<u8>, SerError> {
        cat(
            cat(
                Ok(
                    spec_u16_to_le_bytes(self.tag)
                        + spec_u32_to_le_bytes(self.fid)
                        + spec_u32_to_le_bytes(self.afid),
                ),
                enc_str(self.uname@),
            ),
            enc_str(self.aname@),
        )
    }

    /// Appends the message body to `buf`.
    pub fn encode_into(&self, buf: &mut Vec<u8>) -> (r: Result<(), SerError>)
        ensures
            appended(r, old(buf)@, final(buf)@, self.spec_enc()),
    {
        broadcast use lemma_cat_assoc;

        proof {
            lemma_int_bytes();
        }
        let m = self;
        put_u16(buf, m.tag);
        put_u32(buf, m.fid);
        put_u32(buf, m.afid);
        put_str(buf, m.uname.as_str())?;
        put_str(buf, m.aname.as_str())?;
        Ok(())
    }

    /// The size of the message body, computed without encoding it.
    pub fn body_size(&self) -> (r: Result<u64, SerError>)
        ensures
            sized(r, self.spec_enc()),
    {
        proof {
            lemma_int_bytes();
        }
        let m = self;
        let s0 = size_str(m.uname.as_str())?;
        let s1 = size_str(m.aname.as_str())?;
        Ok(2 + 4 + 4 + s0 + s1)
    }

    /// The two messages hold the same values.
    pub open spec fn same(self, o: Self) -> bool {
        self.tag == o.tag
            && self.fid == o.fid
            && self.afid == o.afid
            && self.uname@ == o.uname@
            && self.aname@ == o.aname@
    }

    /// Where the message's encoding is the whole of `b`, each field's
    /// encoding stands in turn, from the start.
    pub proof fn lemma_layout(m: Self, b: Seq<u8>, end: int)
        requires
            m.spec_enc() == Ok::<Seq<u8>, SerError>(b),
            end == b.len(),
        ensures
            at(b, 0int, end, spec_u16_to_le_bytes(m.tag)),
            at(b, 0int + (spec_u16_to_le_bytes(m.tag)).len(), end, spec_u32_to_le_bytes(m.fid)),
            at(
                b,
                0int + (spec_u16_to_le_bytes(m.tag)).len() + (spec_u32_to_le_bytes(m.fid)).len(),
                end,
                spec_u32_to_le_bytes(m.afid),
            ),
            utf8_len(m.uname@) <= STRING_LEN_MAX,
            at(
                b,
                0int
                    + (spec_u16_to_le_bytes(m.tag)).len()
                    + (spec_u32_to_le_bytes(m.fid)).len()
                    + (spec_u32_to_le_bytes(m.afid)).len(),
                end,
                str_bytes(m.uname@),
            ),
            utf8_len(m.aname@) <= STRING_LEN_MAX,
            at(
                b,
                0int
                    + (spec_u16_to_le_bytes(m.tag)).len()
                    + (spec_u32_to_le_bytes(m.fid)).len()
                    + (spec_u32_to_le_bytes(m.afid)).len()
                    + (str_bytes(m.uname@)).len(),
                end,
                str_bytes(m.aname@),
            ),
            0int
                + (spec_u16_to_le_bytes(m.tag)).len()
                + (spec_u32_to_le_bytes(m.fid)).len()
                + (spec_u32_to_le_bytes(m.afid)).len()
                + (str_bytes(m.uname@)).len()
                + (str_bytes(m.aname@)).len() == end,
    {
        broadcast use lemma_cat_assoc;

        lemma_int_bytes();
        assert(
            b == spec_u16_to_le_bytes(m.tag)
                + spec_u32_to_le_bytes(m.fid)
                + spec_u32_to_le_bytes(m.afid)
                + str_bytes(m.uname@)
                + str_bytes(m.aname@)
        );
        assert(b.subrange(0, b.len() as int) =~= b);
        lemma_at_split(
            b,
            0,
            end,
            spec_u16_to_le_bytes(m.tag)
                + spec_u32_to_le_bytes(m.fid)
                + spec_u32_to_le_bytes(m.afid)
                + str_bytes(m.uname@),
            str_bytes(m.aname@),
        );
        lemma_at_split(
            b,
            0,
            end,
            spec_u16_to_le_bytes(m.tag)
                + spec_u32_to_le_bytes(m.fid)
                + spec_u32_to_le_bytes(m.afid),
            str_bytes(m.uname@),
        );
        lemma_at_split(
            b,
            0,
            end,
            spec_u16_to_le_bytes(m.tag) + spec_u32_to_le_bytes(m.fid),
            spec_u32_to_le_bytes(m.afid),
        );
        lemma_at_split(b, 0, end, spec_u16_to_le_bytes(m.tag), spec_u32_to_le_bytes(m.fid));
    }

    /// Decodes a message body that must hold exactly this message. Where
    /// the body is the encoding of a message, that message is read.
    pub fn decode_body(b: &[u8]) -> (r: Result<Tattach, DeError>)
        requires
            b@.len() <= BODY_LEN_MAX,
        ensures
            b@.len() < 2 ==> r is Err,
            r matches Ok(m) ==> m.spec_enc() == Ok::<Seq<u8>, SerError>(b@),
            forall|m: Tattach|
                #[trigger] m.spec_enc() == Ok::<Seq<u8>, SerError>(b@)
                    ==> (r matches Ok(m2) && m2.same(m)),
    {
        broadcast use lemma_cat_assoc;

        proof {
            lemma_int_bytes();
        }
        let end = b.len();
        let (tag, pos1) = match get_u16(b, 0, end) {
            Ok(x) => x,
            Err(e) => {
                proof {
                    assert forall|m: Tattach|
                        #[trigger] m.spec_enc() == Ok::<Seq<u8>, SerError>(b@) implies false by {
                        Tattach::lemma_layout(m, b@, end as int);
                    }
                }
                return Err(e);
            },
        };
        let (fid, pos2) = match get_u32(b, pos1, end) {
            Ok(x) => x,
            Err(e) => {
                proof {
                    assert forall|m: Tattach|
                        #[trigger] m.spec_enc() == Ok::<Seq<u8>, SerError>(b@) implies false by {
                        Tattach::lemma_layout(m, b@, end as int);
                    }
                }
                return Err(e);
            },
        };
        let (afid, pos3) = match get_u32(b, pos2, end) {
            Ok(x) => x,
            Err(e) => {
                proof {
                    assert forall|m: Tattach|
                        #[trigger] m.spec_enc() == Ok::<Seq<u8>, SerError>(b@) implies false by {
                        Tattach::lemma_layout(m, b@, end as int);
                    }
                }
                return Err(e);
            },
        };
        let (uname, pos4) = match get_str(b, pos3, end) {
            Ok(x) => x,
            Err(e) => {
                proof {
                    assert forall|m: Tattach|
                        #[trigger] m.spec_enc() == Ok::<Seq<u8>, SerError>(b@) implies false by {
                        Tattach::lemma_layout(m, b@, end as int);
                    }
                }
                return Err(e);
            },
        };
        let (aname, pos5) = match get_str(b, pos4, end) {
            Ok(x) => x,
            Err(e) => {
                proof {
                    assert forall|m: Tattach|
                        #[trigger] m.spec_enc() == Ok::<Seq<u8>, SerError>(b@) implies false by {
                        Tattach::lemma_layout(m, b@, end as int);
                    }
                }
                return Err(e);
            },
        };
        if pos5 != end {
            proof {
                assert forall|m: Tattach|
                    #[trigger] m.spec_enc() == Ok::<Seq<u8>, SerError>(b@) implies false by {
                    Tattach::lemma_layout(m, b@, end as int);
                }
            }
            return Err(DeError::TrailingBytes);
        }
        let m2 = Tattach { tag, fid, afid, uname, aname };
        proof {
            lemma_split(b@, 0, pos1 as int, pos2 as int);
            lemma_split(b@, 0, pos2 as int, pos3 as int);
            lemma_split(b@, 0, pos3 as int, pos4 as int);
            lemma_split(b@, 0, pos4 as int, pos5 as int);
            assert(b@.subrange(0, pos5 as int) =~= b@);
            assert forall|m: Tattach|
                #[trigger] m.spec_enc() == Ok::<Seq<u8>, SerError>(b@) implies m2.same(m) by {
                Tattach::lemma_layout(m, b@, end as int);
            }
        }
        Ok(m2)
    }
}

impl Rattach {
    /// The message body on the wire, or the first field that cannot be encoded.
    pub open spec fn spec_enc(self) -> Result<Seq<u8>, SerError> {
        Ok(spec_u16_to_le_bytes(self.tag) + qid_bytes(self.qid))
    }

    /// Appends the message body to `buf`.
    pub fn encode_into(&self, buf: &mut Vec<u8>) -> (r: Result<(), SerError>)
        ensures
            appended(r, old(buf)@, final(buf)@, self.spec_enc()),
    {
        broadcast use lemma_cat_assoc;

        proof {
            lemma_int_bytes();
        }
        let m = self;
        put_u16(buf, m.tag);
        put_qid(buf, &m.qid);
        Ok(())
    }

    /// The size of the message body, computed without encoding it.
    pub fn body_size(&self) -> (r: Result<u64, SerError>)
        ensures
            sized(r, self.spec_enc()),
    {
        proof {
            lemma_int_bytes();
        }
        let m = self;
        Ok(2 + 13)
    }

    /// The two messages hold the same values.
    pub open spec fn same(self, o: Self) -> bool {
        self.tag == o.tag
            && self.qid == o.qid
    }

    /// Where the message's encoding is the whole of `b`, each field's
    /// encoding stands in turn, from the start.
    pub proof fn lemma_layout(m: Self, b: Seq<u8>, end: int)
        requires
            m.spec_enc() == Ok::<Seq<u8>, SerError>(b),
            end == b.len(),
        ensures
            at(b, 0int, end, spec_u16_to_le_bytes(m.tag)),
            at(b, 0int + (spec_u16_to_le_bytes(m.tag)).len(), end, qid_bytes(m.qid)),
            0int + (spec_u16_to_le_bytes(m.tag)).len() + (qid_bytes(m.qid)).len() == end,
    {
        broadcast use lemma_cat_assoc;

        lemma_int_bytes();
        assert(b == spec_u16_to_le_bytes(m.tag) + qid_bytes(m.qid));
        assert(b.subrange(0, b.len() as int) =~= b);
        lemma_at_split(b, 0, end, spec_u16_to_le_bytes(m.tag), qid_bytes(m.qid));
    }

    /// Decodes a message body that must hold exactly this message. Where
    /// the body is the encoding of a message, that message is read.
    pub fn decode_body(b: &[u8]) -> (r: Result<Rattach, DeError>)
        requires
            b@.len() <= BODY_LEN_MAX,
        ensures
            b@.len() < 2 ==> r is Err,
            r matches Ok(m) ==> m.spec_enc() == Ok::<Seq<u8>, SerError>(b@),
            forall|m: Rattach|
                #[trigger] m.spec_enc() == Ok::<Seq<u8>, SerError>(b@)
                    ==> (r matches Ok(m2) && m2.same(m)),
    {
        broadcast use lemma_cat_assoc;

        proof {
            lemma_int_bytes();
        }
        let end = b.len();
        let (tag, pos1) = match get_u16(b, 0, end) {
            Ok(x) => x,
            Err(e) => {
                proof {
                    assert forall|m: Rattach|
                        #[trigger] m.spec_enc() == Ok::<Seq<u8>, SerError>(b@) implies false by {
                        Rattach::lemma_layout(m, b@, end as int);
                    }
                }
                return Err(e);
            },
        };
        let (qid, pos2) = match get_qid(b, pos1, end) {
            Ok(x) => x,
            Err(e) => {
                proof {
                    assert forall|m: Rattach|
                        #[trigger] m.spec_enc() == Ok::<Seq<u8>, SerError>(b@) implies false by {
                        Rattach::lemma_layout(m, b@, end as int);
                    }
                }
                return Err(e);
            },
        };
        if pos2 != end {
            proof {
                assert forall|m: Rattach|
                    #[trigger] m.spec_enc() == Ok::<Seq<u8>, SerError>(b@) implies false by {
                    Rattach::lemma_layout(m, b@, end as int);
                }
            }
            return Err(DeError::TrailingBytes);
        }
        let m2 = Rattach { tag, qid };
        proof {
            lemma_split(b@, 0, pos1 as int, pos2 as int);
            assert(b@.subrange(0, pos2 as int) =~= b@);
            assert forall|m: Rattach|
                #[trigger] m.spec_enc() == Ok::<Seq<u8>, SerError>(b@) implies m2.same(m) by {
                Rattach::lemma_layout(m, b@, end as int);
            }
        }
        Ok(m2)
    }
}

impl Rerror {
    /// The message body on the wire, or the first field that cannot be encoded.
    pub open spec fn spec_enc(self) -> Result<Seq<u8>, SerError> {
        cat(Ok(spec_u16_to_le_bytes(self.tag)), enc_str(self.ename@))
    }

    /// Appends the message body to `buf`.
    pub fn encode_into(&self, buf: &mut Vec<u8>) -> (r: Result<(), SerError>)
        ensures
            appended(r, old(buf)@, final(buf)@, self.spec_enc()),
    {
        broadcast use lemma_cat_assoc;

        proof {
            lemma_int_bytes();
        }
        let m = self;
        put_u16(buf, m.tag);
        put_str(buf, m.ename.as_str())?;
        Ok(())
    }

    /// The size of the message body, computed without encoding it.
    pub fn body_size(&self) -> (r: Result<u64, SerError>)
        ensures
            sized(r, self.spec_enc()),
    {
        proof {
            lemma_int_bytes();
        }
        let m = self;
        let s0 = size_str(m.ename.as_str())?;
        Ok(2 + s0)
    }

    /// The two messages hold the same values.
    pub open spec fn same(self, o: Self) -> bool {
        self.tag == o.tag
            && self.ename@ == o.ename@
    }

    /// Where the message's encoding is the whole of `b`, each field's
    /// encoding stands in turn, from the start.
    pub proof fn lemma_layout(m: Self, b: Seq<u8>, end: int)
        requires
            m.spec_enc() == Ok::<Seq<u8>, SerError>(b),
            end == b.len(),
        ensures
            at(b, 0int, end, spec_u16_to_le_bytes(m.tag)),
            utf8_len(m.ename@) <= STRING_LEN_MAX,
            at(b, 0int + (spec_u16_to_le_bytes(m.tag)).len(), end, str_bytes(m.ename@)),
            0int + (spec_u16_to_le_bytes(m.tag)).len() + (str_bytes(m.ename@)).len() == end,
    {
        broadcast use lemma_cat_assoc;

        lemma_int_bytes();
        assert(b == spec_u16_to_le_bytes(m.tag) + str_bytes(m.ename@));
        assert(b.subrange(0, b.len() as int) =~= b);
        lemma_at_split(b, 0, end, spec_u16_to_le_bytes(m.tag), str_bytes(m.ename@));
    }

    /// Decodes a message body that must hold exactly this message. Where
    /// the body is the encoding of a message, that message is read.
    pub fn decode_body(b: &[u8]) -> (r: Result<Rerror, DeError>)
        requires
            b@.len() <= BODY_LEN_MAX,
        ensures
            b@.len() < 2 ==> r is Err,
            r matches Ok(m) ==> m.spec_enc() == Ok::<Seq<u8>, SerError>(b@),
            forall|m: Rerror|
                #[trigger] m.spec_enc() == Ok::<Seq<u8>, SerError>(b@)
                    ==> (r matches Ok(m2) && m2.same(m)),
    {
        broadcast use lemma_cat_assoc;

        proof {
            lemma_int_bytes();
        }
        let end = b.len();
        let (tag, pos1) = match get_u16(b, 0, end) {
            Ok(x) => x,
            Err(e) => {
                proof {
                    assert forall|m: Rerror|
                        #[trigger] m.spec_enc() == Ok::<Seq<u8>, SerError>(b@) implies false by {
                        Rerror::lemma_layout(m, b@, end as int);
                    }
                }
                return Err(e);
            },
        };
        let (ename, pos2) = match get_str(b, pos1, end) {
            Ok(x) => x,
            Err(e) => {
                proof {
                    assert forall|m: Rerror|
                        #[trigger] m.spec_enc() == Ok::<Seq<u8>, SerError>(b@) implies false by {
                        Rerror::lemma_layout(m, b@, end as int);
                    }
                }
                return Err(e);
            },
        };
        if pos2 != end {
            proof {
                assert forall|m: Rerror|
                    #[trigger] m.spec_enc() == Ok::<Seq<u8>, SerError>(b@) implies false by {
                    Rerror::lemma_layout(m, b@, end as int);
                }
            }
            return Err(DeError::TrailingBytes);
        }
        let m2 = Rerror { tag, ename };
        proof {
            lemma_split(b@, 0, pos1 as int, pos2 as int);
            assert(b@.subrange(0, pos2 as int) =~= b@);
            assert forall|m: Rerror|
                #[trigger] m.spec_enc() == Ok::<Seq<u8>, SerError>(b@) implies m2.same(m) by {
                Rerror::lemma_layout(m, b@, end as int);
            }
        }
        Ok(m2)
    }
}

impl Tflush {
    /// The message body on the wire, or the first field that cannot be encoded.
    pub open spec fn spec_enc(self) -> Result<Seq<u8>, SerError> {
        Ok(spec_u16_to_le_bytes(self.tag) + spec_u16_to_le_bytes(self.oldtag))
    }

    /// Appends the message body to `buf`.
    pub fn encode_into(&self, buf: &mut Vec<u8>) -> (r: Result<(), SerError>)
        ensures
            appended(r, old(buf)@, final(buf)@, self.spec_enc()),
    {
        broadcast use lemma_cat_assoc;

        proof {
            lemma_int_bytes();
        }
        let m = self;
        put_u16(buf, m.tag);
        put_u16(buf, m.oldtag);
        Ok(())
    }

    /// The size of the message body, computed without encoding it.
    pub fn body_size(&self) -> (r: Result<u64, SerError>)
        ensures
            sized(r, self.spec_enc()),
    {
        proof {
            lemma_int_bytes();
        }
        let m = self;
        Ok(2 + 2)
    }

    /// The two messages hold the same values.
    pub open spec fn same(self, o: Self) -> bool {
        self.tag == o.tag
            && self.oldtag == o.oldtag
    }

    /// Where the message's encoding is the whole of `b`, each field's
    /// encoding stands in turn, from the start.
    pub proof fn lemma_layout(m: Self, b: Seq<u8>, end: int)
        requires
            m.spec_enc() == Ok::<Seq<u8>, SerError>(b),
            end == b.len(),
        ensures
            at(b, 0int, end, spec_u16_to_le_bytes(m.tag)),
            at(b, 0int + (spec_u16_to_le_bytes(m.tag)).len(), end, spec_u16_to_le_bytes(m.oldtag)),
            0int
                + (spec_u16_to_le_bytes(m.tag)).len()
                + (spec_u16_to_le_bytes(m.oldtag)).len() == end,
    {
        broadcast use lemma_cat_assoc;

        lemma_int_bytes();
        assert(b == spec_u16_to_le_bytes(m.tag) + spec_u16_to_le_bytes(m.oldtag));
        assert(b.subrange(0, b.len() as int) =~= b);
        lemma_at_split(b, 0, end, spec_u16_to_le_bytes(m.tag), spec_u16_to_le_bytes(m.oldtag));
    }

    /// Decodes a message body that must hold exactly this message. Where
    /// the body is the encoding of a message, that message is read.
    pub fn decode_body(b: &[u8]) -> (r: Result<Tflush, DeError>)
        requires
            b@.len() <= BODY_LEN_MAX,
        ensures
            b@.len() < 2 ==> r is Err,
            r matches Ok(m) ==> m.spec_enc() == Ok::<Seq<u8>, SerError>(b@),
            forall|m: Tflush|
                #[trigger] m.spec_enc() == Ok::<Seq<u8>, SerError>(b@)
                    ==> (r matches Ok(m2) && m2.same(m)),
    {
        broadcast use lemma_cat_assoc;

        proof {
            lemma_int_bytes();
        }
        let end = b.len();
        let (tag, pos1) = match get_u16(b, 0, end) {
            Ok(x) => x,
            Err(e) => {
                proof {
                    assert forall|m: Tflush|
                        #[trigger] m.spec_enc() == Ok::<Seq<u8>, SerError>(b@) implies false by {
                        Tflush::lemma_layout(m, b@, end as int);
                    }
                }
                return Err(e);
            },
        };
        let (oldtag, pos2) = match get_u16(b, pos1, end) {
            Ok(x) => x,
            Err(e) => {
                proof {
                    assert forall|m: Tflush|
                        #[trigger] m.spec_enc() == Ok::<Seq<u8>, SerError>(b@) implies false by {
                        Tflush::lemma_layout(m, b@, end as int);
                    }
                }
                return Err(e);
            },
        };
        if pos2 != end {
            proof {
                assert forall|m: Tflush|
                    #[trigger] m.spec_enc() == Ok::<Seq<u8>, SerError>(b@) implies false by {
                    Tflush::lemma_layout(m, b@, end as int);
                }
            }
            return Err(DeError::TrailingBytes);
        }
        let m2 = Tflush { tag, oldtag };
        proof {
            lemma_split(b@, 0, pos1 as int, pos2 as int);
            assert(b@.subrange(0, pos2 as int) =~= b@);
            assert forall|m: Tflush|
                #[trigger] m.spec_enc() == Ok::<Seq<u8>, SerError>(b@) implies m2.same(m) by {
                Tflush::lemma_layout(m, b@, end as int);
            }
        }
        Ok(m2)
    }
}

impl Rflush {
    /// The message body on the wire, or the first field that cannot be encoded.
    pub open spec fn spec_enc(self) -> Result<Seq<u8>, SerError> {
        Ok(spec_u16_to_le_bytes(self.tag))
    }

    /// Appends the message body to `buf`.
    pub fn encode_into(&self, buf: &mut Vec<u8>) -> (r: Result<(), SerError>)
        ensures
            appended(r, old(buf)@, final(buf)@, self.spec_enc()),
    {
        broadcast use lemma_cat_assoc;

        proof {
            lemma_int_bytes();
        }
        let m = self;
        put_u16(buf, m.tag);
        Ok(())
    }

    /// The size of the message body, computed without encoding it.
    pub fn body_size(&self) -> (r: Result<u64, SerError>)
        ensures
            sized(r, self.spec_enc()),
    {
        proof {
            lemma_int_bytes();
        }
        let m = self;
        Ok(2)
    }

    /// The two messages hold the same values.
    pub open spec fn same(self, o: Self) -> bool {
        self.tag == o.tag
    }

    /// Where the message's encoding is the whole of `b`, each field's
    /// encoding stands in turn, from the start.
    pub proof fn lemma_layout(m: Self, b: Seq<u8>, end: int)
        requires
            m.spec_enc() == Ok::<Seq<u8>, SerError>(b),
            end == b.len(),
        ensures
            at(b, 0int, end, spec_u16_to_le_bytes(m.tag)),
            0int + (spec_u16_to_le_bytes(m.tag)).len() == end,
    {
        broadcast use lemma_cat_assoc;

        lemma_int_bytes();
        assert(b == spec_u16_to_le_bytes(m.tag));
        assert(b.subrange(0, b.len() as int) =~= b);
    }

    /// Decodes a message body that must hold exactly this message. Where
    /// the body is the encoding of a message, that message is read.
    pub fn decode_body(b: &[u8]) -> (r: Result<Rflush, DeError>)
        requires
            b@.len() <= BODY_LEN_MAX,
        ensures
            b@.len() < 2 ==> r is Err,
            r matches Ok(m) ==> m.spec_enc() == Ok::<Seq<u8>, SerError>(b@),
            forall|m: Rflush|
                #[trigger] m.spec_enc() == Ok::<Seq<u8>, SerError>(b@)
                    ==> (r matches Ok(m2) && m2.same(m)),
    {
        broadcast use lemma_cat_assoc;

        proof {
            lemma_int_bytes();
        }
        let end = b.len();
        let (tag, pos1) = match get_u16(b, 0, end) {
            Ok(x) => x,
            Err(e) => {
                proof {
                    assert forall|m: Rflush|
                        #[trigger] m.spec_enc() == Ok::<Seq<u8>, SerError>(b@) implies false by {
                        Rflush::lemma_layout(m, b@, end as int);
                    }
                }
                return Err(e);
            },
        };
        if pos1 != end {
            proof {
                assert forall|m: Rflush|
                    #[trigger] m.spec_enc() == Ok::<Seq<u8>, SerError>(b@) implies false by {
                    Rflush::lemma_layout(m, b@, end as int);
                }
            }
            return Err(DeError::TrailingBytes);
        }
        let m2 = Rflush { tag };
        proof {
            assert(b@.subrange(0, pos1 as int) =~= b@);
            assert forall|m: Rflush|
                #[trigger] m.spec_enc() == Ok::<Seq<u8>, SerError>(b@) implies m2.same(m) by {
                Rflush::lemma_layout(m, b@, end as int);
            }
        }
        Ok(m2)
    }
}

impl Twalk {
    /// The message body on the wire, or the first field that cannot be encoded.
    pub open spec fn spec_enc(self) -> Result<Seq<u8>, SerError> {
        cat(
            Ok(
                spec_u16_to_le_bytes(self.tag)
                    + spec_u32_to_le_bytes(self.fid)
                    + spec_u32_to_le_bytes(self.newfid),
            ),
            enc_strs(views_of(self.wname@)),
        )
    }

    /// Appends the message body to `buf`.
    pub fn encode_into(&self, buf: &mut Vec<u8>) -> (r: Result<(), SerError>)
        ensures
            appended(r, old(buf)@, final(buf)@, self.spec_enc()),
    {
        broadcast use lemma_cat_assoc;

        proof {
            lemma_int_bytes();
        }
        let m = self;
        put_u16(buf, m.tag);
        put_u32(buf, m.fid);
        put_u32(buf, m.newfid);
        put_strs(buf, &m.wname)?;
        Ok(())
    }

    /// The size of the message body, computed without encoding it.
    pub fn body_size(&self) -> (r: Result<u64, SerError>)
        ensures
            sized(r, self.spec_enc()),
    {
        proof {
            lemma_int_bytes();
        }
        let m = self;
        let s0 = size_strs(&m.wname)?;
        Ok(2 + 4 + 4 + s0)
    }

    /// The two messages hold the same values.
    pub open spec fn same(self, o: Self) -> bool {
        self.tag == o.tag
            && self.fid == o.fid
            && self.newfid == o.newfid
            && views_of(self.wname@) == views_of(o.wname@)
    }

    /// Where the message's encoding is the whole of `b`, each field's
    /// encoding stands in turn, from the start.
    pub proof fn lemma_layout(m: Self, b: Seq<u8>, end: int)
        requires
            m.spec_enc() == Ok::<Seq<u8>, SerError>(b),
            end == b.len(),
        ensures
            at(b, 0int, end, spec_u16_to_le_bytes(m.tag)),
            at(b, 0int + (spec_u16_to_le_bytes(m.tag)).len(), end, spec_u32_to_le_bytes(m.fid)),
            at(
                b,
                0int + (spec_u16_to_le_bytes(m.tag)).len() + (spec_u32_to_le_bytes(m.fid)).len(),
                end,
                spec_u32_to_le_bytes(m.newfid),
            ),
            strs_at(
                b,
                0int
                    + (spec_u16_to_le_bytes(m.tag)).len()
                    + (spec_u32_to_le_bytes(m.fid)).len()
                    + (spec_u32_to_le_bytes(m.newfid)).len(),
                end,
                views_of(m.wname@),
            ),
            0int
                + (spec_u16_to_le_bytes(m.tag)).len()
                + (spec_u32_to_le_bytes(m.fid)).len()
                + (spec_u32_to_le_bytes(m.newfid)).len()
                + (enc_strs(views_of(m.wname@))->Ok_0).len() == end,
    {
        broadcast use lemma_cat_assoc;

        lemma_int_bytes();
        assert(
            b == spec_u16_to_le_bytes(m.tag)
                + spec_u32_to_le_bytes(m.fid)
                + spec_u32_to_le_bytes(m.newfid)
                + enc_strs(views_of(m.wname@))->Ok_0
        );
        assert(b.subrange(0, b.len() as int) =~= b);
        lemma_at_split(
            b,
            0,
            end,
            spec_u16_to_le_bytes(m.tag)
                + spec_u32_to_le_bytes(m.fid)
                + spec_u32_to_le_bytes(m.newfid),
            enc_strs(views_of(m.wname@))->Ok_0,
        );
        lemma_at_split(
            b,
            0,
            end,
            spec_u16_to_le_bytes(m.tag) + spec_u32_to_le_bytes(m.fid),
            spec_u32_to_le_bytes(m.newfid),
        );
        lemma_at_split(b, 0, end, spec_u16_to_le_bytes(m.tag), spec_u32_to_le_bytes(m.fid));
    }

    /// Decodes a message body that must hold exactly this message. Where
    /// the body is the encoding of a message, that message is read.
    pub fn decode_body(b: &[u8]) -> (r: Result<Twalk, DeError>)
        requires
            b@.len() <= BODY_LEN_MAX,
        ensures
            b@.len() < 2 ==> r is Err,
            r matches Ok(m) ==> m.spec_enc() == Ok::<Seq<u8>, SerError>(b@),
            forall|m: Twalk|
                #[trigger] m.spec_enc() == Ok::<Seq<u8>, SerError>(b@)
                    ==> (r matches Ok(m2) && m2.same(m)),
    {
        broadcast use lemma_cat_assoc;

        proof {
            lemma_int_bytes();
        }
        let end = b.len();
        let (tag, pos1) = match get_u16(b, 0, end) {
            Ok(x) => x,
            Err(e) => {
                proof {
                    assert forall|m: Twalk|
                        #[trigger] m.spec_enc() == Ok::<Seq<u8>, SerError>(b@) implies false by {
                        Twalk::lemma_layout(m, b@, end as int);
                    }
                }
                return Err(e);
            },
        };
        let (fid, pos2) = match get_u32(b, pos1, end) {
            Ok(x) => x,
            Err(e) => {
                proof {
                    assert forall|m: Twalk|
                        #[trigger] m.spec_enc() == Ok::<Seq<u8>, SerError>(b@) implies false by {
                        Twalk::lemma_layout(m, b@, end as int);
                    }
                }
                return Err(e);
            },
        };
        let (newfid, pos3) = match get_u32(b, pos2, end) {
            Ok(x) => x,
            Err(e) => {
                proof {
                    assert forall|m: Twalk|
                        #[trigger] m.spec_enc() == Ok::<Seq<u8>, SerError>(b@) implies false by {
                        Twalk::lemma_layout(m, b@, end as int);
                    }
                }
                return Err(e);
            },
        };
        let (wname, pos4) = match get_strs(b, pos3, end) {
            Ok(x) => x,
            Err(e) => {
                proof {
                    assert forall|m: Twalk|
                        #[trigger] m.spec_enc() == Ok::<Seq<u8>, SerError>(b@) implies false by {
                        Twalk::lemma_layout(m, b@, end as int);
                    }
                }
                return Err(e);
            },
        };
        if pos4 != end {
            proof {
                assert forall|m: Twalk|
                    #[trigger] m.spec_enc() == Ok::<Seq<u8>, SerError>(b@) implies false by {
                    Twalk::lemma_layout(m, b@, end as int);
                }
            }
            return Err(DeError::TrailingBytes);
        }
        let m2 = Twalk { tag, fid, newfid, wname };
        proof {
            lemma_split(b@, 0, pos1 as int, pos2 as int);
            lemma_split(b@, 0, pos2 as int, pos3 as int);
            lemma_split(b@, 0, pos3 as int, pos4 as int);
            assert(b@.subrange(0, pos4 as int) =~= b@);
            assert forall|m: Twalk|
                #[trigger] m.spec_enc() == Ok::<Seq<u8>, SerError>(b@) implies m2.same(m) by {
                Twalk::lemma_layout(m, b@, end as int);
            }
        }
        Ok(m2)
    }
}

impl Rwalk {
    /// The message body on the wire, or the first field that cannot be encoded.
    pub open spec fn spec_enc(self) -> Result<Seq<u8>, SerError> {
        cat(Ok(spec_u16_to_le_bytes(self.tag)), enc_qids(self.wqid@))
    }

    /// Appends the message body to `buf`.
    pub fn encode_into(&self, buf: &mut Vec<u8>) -> (r: Result<(), SerError>)
        ensures
            appended(r, old(buf)@, final(buf)@, self.spec_enc()),
    {
        broadcast use lemma_cat_assoc;

        proof {
            lemma_int_bytes();
        }
        let m = self;
        put_u16(buf, m.tag);
        put_qids(buf, &m.wqid)?;
        Ok(())
    }

    /// The size of the message body, computed without encoding it.
    pub fn body_size(&self) -> (r: Result<u64, SerError>)
        ensures
            sized(r, self.spec_enc()),
    {
        proof {
            lemma_int_bytes();
        }
        let m = self;
        if m.wqid.len() > SEQ_LEN_MAX {
            return Err(SerError::SeqTooLong);
        }
        proof {
            lemma_qids_len(m.wqid@);
        }
        let s0: u64 = 2 + 13 * m.wqid.len() as u64;
        Ok(2 + s0)
    }

    /// The two messages hold the same values.
    pub open spec fn same(self, o: Self) -> bool {
        self.tag == o.tag
            && self.wqid@ == o.wqid@
    }

    /// Where the message's encoding is the whole of `b`, each field's
    /// encoding stands in turn, from the start.
    pub proof fn lemma_layout(m: Self, b: Seq<u8>, end: int)
        requires
            m.spec_enc() == Ok::<Seq<u8>, SerError>(b),
            end == b.len(),
        ensures
            at(b, 0int, end, spec_u16_to_le_bytes(m.tag)),
            qids_at(b, 0int + (spec_u16_to_le_bytes(m.tag)).len(), end, m.wqid@),
            0int + (spec_u16_to_le_bytes(m.tag)).len() + (enc_qids(m.wqid@)->Ok_0).len() == end,
    {
        broadcast use lemma_cat_assoc;

        lemma_int_bytes();
        assert(b == spec_u16_to_le_bytes(m.tag) + enc_qids(m.wqid@)->Ok_0);
        assert(b.subrange(0, b.len() as int) =~= b);
        lemma_at_split(b, 0, end, spec_u16_to_le_bytes(m.tag), enc_qids(m.wqid@)->Ok_0);
    }

    /// Decodes a message body that must hold exactly this message. Where
    /// the body is the encoding of a message, that message is read.
    pub fn decode_body(b: &[u8]) -> (r: Result<Rwalk, DeError>)
        requires
            b@.len() <= BODY_LEN_MAX,
        ensures
            b@.len() < 2 ==> r is Err,
            r matches Ok(m) ==> m.spec_enc() == Ok::<Seq<u8>, SerError>(b@),
            forall|m: Rwalk|
                #[trigger] m.spec_enc() == Ok::<Seq<u8>, SerError>(b@)
                    ==> (r matches Ok(m2) && m2.same(m)),
    {
        broadcast use lemma_cat_assoc;

        proof {
            lemma_int_bytes();
        }
        let end = b.len();
        let (tag, pos1) = match get_u16(b, 0, end) {
            Ok(x) => x,
            Err(e) => {
                proof {
                    assert forall|m: Rwalk|
                        #[trigger] m.spec_enc() == Ok::<Seq<u8>, SerError>(b@) implies false by {
                        Rwalk::lemma_layout(m, b@, end as int);
                    }
                }
                return Err(e);
            },
        };
        let (wqid, pos2) = match get_qids(b, pos1, end) {
            Ok(x) => x,
            Err(e) => {
                proof {
                    assert forall|m: Rwalk|
                        #[trigger] m.spec_enc() == Ok::<Seq<u8>, SerError>(b@) implies false by {
                        Rwalk::lemma_layout(m, b@, end as int);
                    }
                }
                return Err(e);
            },
        };
        if pos2 != end {
            proof {
                assert forall|m: Rwalk|
                    #[trigger] m.spec_enc() == Ok::<Seq<u8>, SerError>(b@) implies false by {
                    Rwalk::lemma_layout(m, b@, end as int);
                }
            }
            return Err(DeError::TrailingBytes);
        }
        let m2 = Rwalk { tag, wqid };
        proof {
            lemma_split(b@, 0, pos1 as int, pos2 as int);
            assert(b@.subrange(0, pos2 as int) =~= b@);
            assert forall|m: Rwalk|
                #[trigger] m.spec_enc() == Ok::<Seq<u8>, SerError>(b@) implies m2.same(m) by {
                Rwalk::lemma_layout(m, b@, end as int);
            }
        }
        Ok(m2)
    }
}

impl Topen {
    /// The message body on the wire, or the first field that cannot be encoded.
    pub open spec fn spec_enc(self) -> Result<Seq<u8>, SerError> {
        Ok(spec_u16_to_le_bytes(self.tag) + spec_u32_to_le_bytes(self.fid) + seq![self.mode.bits])
    }

    /// Appends the message body to `buf`.
    pub fn encode_into(&self, buf: &mut Vec<u8>) -> (r: Result<(), SerError>)
        ensures
            appended(r, old(buf)@, final(buf)@, self.spec_enc()),
    {
        broadcast use lemma_cat_assoc;

        proof {
            lemma_int_bytes();
        }
        let m = self;
        put_u16(buf, m.tag);
        put_u32(buf, m.fid);
        put_u8(buf, m.mode.bits);
        Ok(())
    }

    /// The size of the message body, computed without encoding it.
    pub fn body_size(&self) -> (r: Result<u64, SerError>)
        ensures
            sized(r, self.spec_enc()),
    {
        proof {
            lemma_int_bytes();
        }
        let m = self;
        Ok(2 + 4 + 1)
    }

    /// The two messages hold the same values.
    pub open spec fn same(self, o: Self) -> bool {
        self.tag == o.tag
            && self.fid == o.fid
            && self.mode == o.mode
    }

    /// Where the message's encoding is the whole of `b`, each field's
    /// encoding stands in turn, from the start.
    pub proof fn lemma_layout(m: Self, b: Seq<u8>, end: int)
        requires
            m.spec_enc() == Ok::<Seq<u8>, SerError>(b),
            end == b.len(),
        ensures
            at(b, 0int, end, spec_u16_to_le_bytes(m.tag)),
            at(b, 0int + (spec_u16_to_le_bytes(m.tag)).len(), end, spec_u32_to_le_bytes(m.fid)),
            at(
                b,
                0int + (spec_u16_to_le_bytes(m.tag)).len() + (spec_u32_to_le_bytes(m.fid)).len(),
                end,
                seq![m.mode.bits],
            ),
            0int
                + (spec_u16_to_le_bytes(m.tag)).len()
                + (spec_u32_to_le_bytes(m.fid)).len()
                + (seq![m.mode.bits]).len() == end,
    {
        broadcast use lemma_cat_assoc;

        lemma_int_bytes();
        assert(b == spec_u16_to_le_bytes(m.tag) + spec_u32_to_le_bytes(m.fid) + seq![m.mode.bits]);
        assert(b.subrange(0, b.len() as int) =~= b);
        lemma_at_split(
            b,
            0,
            end,
            spec_u16_to_le_bytes(m.tag) + spec_u32_to_le_bytes(m.fid),
            seq![m.mode.bits],
        );
        lemma_at_split(b, 0, end, spec_u16_to_le_bytes(m.tag), spec_u32_to_le_bytes(m.fid));
    }

    /// Decodes a message body that must hold exactly this message. Where
    /// the body is the encoding of a message, that message is read.
    pub fn decode_body(b: &[u8]) -> (r: Result<Topen, DeError>)
        requires
            b@.len() <= BODY_LEN_MAX,
        ensures
            b@.len() < 2 ==> r is Err,
            r matches Ok(m) ==> m.spec_enc() == Ok::<Seq<u8>, SerError>(b@),
            forall|m: Topen|
                #[trigger] m.spec_enc() == Ok::<Seq<u8>, SerError>(b@)
                    ==> (r matches Ok(m2) && m2.same(m)),
    {
        broadcast use lemma_cat_assoc;

        proof {
            lemma_int_bytes();
        }
        let end = b.len();
        let (tag, pos1) = match get_u16(b, 0, end) {
            Ok(x) => x,
            Err(e) => {
                proof {
                    assert forall|m: Topen|
                        #[trigger] m.spec_enc() == Ok::<Seq<u8>, SerError>(b@) implies false by {
                        Topen::lemma_layout(m, b@, end as int);
                    }
                }
                return Err(e);
            },
        };
        let (fid, pos2) = match get_u32(b, pos1, end) {
            Ok(x) => x,
            Err(e) => {
                proof {
                    assert forall|m: Topen|
                        #[trigger] m.spec_enc() == Ok::<Seq<u8>, SerError>(b@) implies false by {
                        Topen::lemma_layout(m, b@, end as int);
                    }
                }
                return Err(e);
            },
        };
        let (mode_bits, pos3) = match get_u8(b, pos2, end) {
            Ok(x) => x,
            Err(e) => {
                proof {
                    assert forall|m: Topen|
                        #[trigger] m.spec_enc() == Ok::<Seq<u8>, SerError>(b@) implies false by {
                        Topen::lemma_layout(m, b@, end as int);
                    }
                }
                return Err(e);
            },
        };
        let mode = OpenMode { bits: mode_bits };
        if pos3 != end {
            proof {
                assert forall|m: Topen|
                    #[trigger] m.spec_enc() == Ok::<Seq<u8>, SerError>(b@) implies false by {
                    Topen::lemma_layout(m, b@, end as int);
                }
            }
            return Err(DeError::TrailingBytes);
        }
        let m2 = Topen { tag, fid, mode };
        proof {
            lemma_split(b@, 0, pos1 as int, pos2 as int);
            lemma_split(b@, 0, pos2 as int, pos3 as int);
            assert(b@.subrange(0, pos3 as int) =~= b@);
            assert forall|m: Topen|
                #[trigger] m.spec_enc() == Ok::<Seq<u8>, SerError>(b@) implies m2.same(m) by {
                Topen::lemma_layout(m, b@, end as int);
            }
        }
        Ok(m2)
    }
}

impl Ropen {
    /// The message body on the wire, or the first field that cannot be encoded.
    pub open spec fn spec_enc(self) -> Result<Seq<u8>, SerError> {
        Ok(spec_u16_to_le_bytes(self.tag) + qid_bytes(self.qid) + spec_u32_to_le_bytes(self.iounit))
    }

    /// Appends the message body to `buf`.
    pub fn encode_into(&self, buf: &mut Vec<u8>) -> (r: Result<(), SerError>)
        ensures
            appended(r, old(buf)@, final(buf)@, self.spec_enc()),
    {
        broadcast use lemma_cat_assoc;

        proof {
            lemma_int_bytes();
        }
        let m = self;
        put_u16(buf, m.tag);
        put_qid(buf, &m.qid);
        put_u32(buf, m.iounit);
        Ok(())
    }

    /// The size of the message body, computed without encoding it.
    pub fn body_size(&self) -> (r: Result<u64, SerError>)
        ensures
            sized(r, self.spec_enc()),
    {
        proof {
            lemma_int_bytes();
        }
        let m = self;
        Ok(2 + 13 + 4)
    }

    /// The two messages hold the same values.
    pub open spec fn same(self, o: Self) -> bool {
        self.tag == o.tag
            && self.qid == o.qid
            && self.iounit == o.iounit
    }

    /// Where the message's encoding is the whole of `b`, each field's
    /// encoding stands in turn, from the start.
    pub proof fn lemma_layout(m: Self, b: Seq<u8>, end: int)
        requires
            m.spec_enc() == Ok::<Seq<u8>, SerError>(b),
            end == b.len(),
        ensures
            at(b, 0int, end, spec_u16_to_le_bytes(m.tag)),
            at(b, 0int + (spec_u16_to_le_bytes(m.tag)).len(), end, qid_bytes(m.qid)),
            at(
                b,
                0int + (spec_u16_to_le_bytes(m.tag)).len() + (qid_bytes(m.qid)).len(),
                end,
                spec_u32_to_le_bytes(m.iounit),
            ),
            0int
                + (spec_u16_to_le_bytes(m.tag)).len()
                + (qid_bytes(m.qid)).len()
                + (spec_u32_to_le_bytes(m.iounit)).len() == end,
    {
        broadcast use lemma_cat_assoc;

        lemma_int_bytes();
        assert(
            b == spec_u16_to_le_bytes(m.tag) + qid_bytes(m.qid) + spec_u32_to_le_bytes(m.iounit)
        );
        assert(b.subrange(0, b.len() as int) =~= b);
        lemma_at_split(
            b,
            0,
            end,
            spec_u16_to_le_bytes(m.tag) + qid_bytes(m.qid),
            spec_u32_to_le_bytes(m.iounit),
        );
        lemma_at_split(b, 0, end, spec_u16_to_le_bytes(m.tag), qid_bytes(m.qid));
    }

    /// Decodes a message body that must hold exactly this message. Where
    /// the body is the encoding of a message, that message is read.
    pub fn decode_body(b: &[u8]) -> (r: Result<Ropen, DeError>)
        requires
            b@.len() <= BODY_LEN_MAX,
        ensures
            b@.len() < 2 ==> r is Err,
            r matches Ok(m) ==> m.spec_enc() == Ok::<Seq<u8>, SerError>(b@),
            forall|m: Ropen|
                #[trigger] m.spec_enc() == Ok::<Seq<u8>, SerError>(b@)
                    ==> (r matches Ok(m2) && m2.same(m)),
    {
        broadcast use lemma_cat_assoc;

        proof {
            lemma_int_bytes();
        }
        let end = b.len();
        let (tag, pos1) = match get_u16(b, 0, end) {
            Ok(x) => x,
            Err(e) => {
                proof {
                    assert forall|m: Ropen|
                        #[trigger] m.spec_enc() == Ok::<Seq<u8>, SerError>(b@) implies false by {
                        Ropen::lemma_layout(m, b@, end as int);
                    }
                }
                return Err(e);
            },
        };
        let (qid, pos2) = match get_qid(b, pos1, end) {
            Ok(x) => x,
            Err(e) => {
                proof {
                    assert forall|m: Ropen|
                        #[trigger] m.spec_enc() == Ok::<Seq<u8>, SerError>(b@) implies false by {
                        Ropen::lemma_layout(m, b@, end as int);
                    }
                }
                return Err(e);
            },
        };
        let (iounit, pos3) = match get_u32(b, pos2, end) {
            Ok(x) => x,
            Err(e) => {
                proof {
                    assert forall|m: Ropen|
                        #[trigger] m.spec_enc() == Ok::<Seq<u8>, SerError>(b@) implies false by {
                        Ropen::lemma_layout(m, b@, end as int);
                    }
                }
                return Err(e);
            },
        };
        if pos3 != end {
            proof {
                assert forall|m: Ropen|
                    #[trigger] m.spec_enc() == Ok::<Seq<u8>, SerError>(b@) implies false by {
                    Ropen::lemma_layout(m, b@, end as int);
                }
            }
            return Err(DeError::TrailingBytes);
        }
        let m2 = Ropen { tag, qid, iounit };
        proof {
            lemma_split(b@, 0, pos1 as int, pos2 as int);
            lemma_split(b@, 0, pos2 as int, pos3 as int);
            assert(b@.subrange(0, pos3 as int) =~= b@);
            assert forall|m: Ropen|
                #[trigger] m.spec_enc() == Ok::<Seq<u8>, SerError>(b@) implies m2.same(m) by {
                Ropen::lemma_layout(m, b@, end as int);
            }
        }
        Ok(m2)
    }
}

impl Tcreate {
    /// The message body on the wire, or the first field that cannot be encoded.
    pub open spec fn spec_enc(self) -> Result<Seq<u8>, SerError> {
        cat(
            cat(
                Ok(spec_u16_to_le_bytes(self.tag) + spec_u32_to_le_bytes(self.fid)),
                enc_str(self.name@),
            ),
            Ok(spec_u32_to_le_bytes(self.perm.bits) + seq![self.mode.bits]),
        )
    }

    /// Appends the message body to `buf`.
    pub fn encode_into(&self, buf: &mut Vec<u8>) -> (r: Result<(), SerError>)
        ensures
            appended(r, old(buf)@, final(buf)@, self.spec_enc()),
    {
        broadcast use lemma_cat_assoc;

        proof {
            lemma_int_bytes();
        }
        let m = self;
        put_u16(buf, m.tag);
        put_u32(buf, m.fid);
        put_str(buf, m.name.as_str())?;
        put_u32(buf, m.perm.bits);
        put_u8(buf, m.mode.bits);
        Ok(())
    }

    /// The size of the message body, computed without encoding it.
    pub fn body_size(&self) -> (r: Result<u64, SerError>)
        ensures
            sized(r, self.spec_enc()),
    {
        proof {
            lemma_int_bytes();
        }
        let m = self;
        let s0 = size_str(m.name.as_str())?;
        Ok(2 + 4 + s0 + 4 + 1)
    }

    /// The two messages hold the same values.
    pub open spec fn same(self, o: Self) -> bool {
        self.tag == o.tag
            && self.fid == o.fid
            && self.name@ == o.name@
            && self.perm == o.perm
            && self.mode == o.mode
    }

    /// Where the message's encoding is the whole of `b`, each field's
    /// encoding stands in turn, from the start.
    pub proof fn lemma_layout(m: Self, b: Seq<u8>, end: int)
        requires
            m.spec_enc() == Ok::<Seq<u8>, SerError>(b),
            end == b.len(),
        ensures
            at(b, 0int, end, spec_u16_to_le_bytes(m.tag)),
            at(b, 0int + (spec_u16_to_le_bytes(m.tag)).len(), end, spec_u32_to_le_bytes(m.fid)),
            utf8_len(m.name@) <= STRING_LEN_MAX,
            at(
                b,
                0int + (spec_u16_to_le_bytes(m.tag)).len() + (spec_u32_to_le_bytes(m.fid)).len(),
                end,
                str_bytes(m.name@),
            ),
            at(
                b,
                0int
                    + (spec_u16_to_le_bytes(m.tag)).len()
                    + (spec_u32_to_le_bytes(m.fid)).len()
                    + (str_bytes(m.name@)).len(),
                end,
                spec_u32_to_le_bytes(m.perm.bits),
            ),
            at(
                b,
                0int
                    + (spec_u16_to_le_bytes(m.tag)).len()
                    + (spec_u32_to_le_bytes(m.fid)).len()
                    + (str_bytes(m.name@)).len()
                    + (spec_u32_to_le_bytes(m.perm.bits)).len(),
                end,
                seq![m.mode.bits],
            ),
            0int
                + (spec_u16_to_le_bytes(m.tag)).len()
                + (spec_u32_to_le_bytes(m.fid)).len()
                + (str_bytes(m.name@)).len()
                + (spec_u32_to_le_bytes(m.perm.bits)).len()
                + (seq![m.mode.bits]).len() == end,
    {
        broadcast use lemma_cat_assoc;

        lemma_int_bytes();
        assert(
            b == spec_u16_to_le_bytes(m.tag)
                + spec_u32_to_le_bytes(m.fid)
                + str_bytes(m.name@)
                + spec_u32_to_le_bytes(m.perm.bits)
                + seq![m.mode.bits]
        );
        assert(b.subrange(0, b.len() as int) =~= b);
        lemma_at_split(
            b,
            0,
            end,
            spec_u16_to_le_bytes(m.tag)
                + spec_u32_to_le_bytes(m.fid)
                + str_bytes(m.name@)
                + spec_u32_to_le_bytes(m.perm.bits),
            seq![m.mode.bits],
        );
        lemma_at_split(
            b,
            0,
            end,
            spec_u16_to_le_bytes(m.tag) + spec_u32_to_le_bytes(m.fid) + str_bytes(m.name@),
            spec_u32_to_le_bytes(m.perm.bits),
        );
        lemma_at_split(
            b,
            0,
            end,
            spec_u16_to_le_bytes(m.tag) + spec_u32_to_le_bytes(m.fid),
            str_bytes(m.name@),
        );
        lemma_at_split(b, 0, end, spec_u16_to_le_bytes(m.tag), spec_u32_to_le_bytes(m.fid));
    }

    /// Decodes a message body that must hold exactly this message. Where
    /// the body is the encoding of a message, that message is read.
    pub fn decode_body(b: &[u8]) -> (r: Result<Tcreate, DeError>)
        requires
            b@.len() <= BODY_LEN_MAX,
        ensures
            b@.len() < 2 ==> r is Err,
            r matches Ok(m) ==> m.spec_enc() == Ok::<Seq<u8>, SerError>(b@),
            forall|m: Tcreate|
                #[trigger] m.spec_enc() == Ok::<Seq<u8>, SerError>(b@)
                    ==> (r matches Ok(m2) && m2.same(m)),
    {
        broadcast use lemma_cat_assoc;

        proof {
            lemma_int_bytes();
        }
        let end = b.len();
        let (tag, pos1) = match get_u16(b, 0, end) {
            Ok(x) => x,
            Err(e) => {
                proof {
                    assert forall|m: Tcreate|
                        #[trigger] m.spec_enc() == Ok::<Seq<u8>, SerError>(b@) implies false by {
                        Tcreate::lemma_layout(m, b@, end as int);
                    }
                }
                return Err(e);
            },
        };
        let (fid, pos2) = match get_u32(b, pos1, end) {
            Ok(x) => x,
            Err(e) => {
                proof {
                    assert forall|m: Tcreate|
                        #[trigger] m.spec_enc() == Ok::<Seq<u8>, SerError>(b@) implies false by {
                        Tcreate::lemma_layout(m, b@, end as int);
                    }
                }
                return Err(e);
            },
        };
        let (name, pos3) = match get_str(b, pos2, end) {
            Ok(x) => x,
            Err(e) => {
                proof {
                    assert forall|m: Tcreate|
                        #[trigger] m.spec_enc() == Ok::<Seq<u8>, SerError>(b@) implies false by {
                        Tcreate::lemma_layout(m, b@, end as int);
                    }
                }
                return Err(e);
            },
        };
        let (perm_bits, pos4) = match get_u32(b, pos3, end) {
            Ok(x) => x,
            Err(e) => {
                proof {
                    assert forall|m: Tcreate|
                        #[trigger] m.spec_enc() == Ok::<Seq<u8>, SerError>(b@) implies false by {
                        Tcreate::lemma_layout(m, b@, end as int);
                    }
                }
                return Err(e);
            },
        };
        let perm = FileMode { bits: perm_bits };
        let (mode_bits, pos5) = match get_u8(b, pos4, end) {
            Ok(x) => x,
            Err(e) => {
                proof {
                    assert forall|m: Tcreate|
                        #[trigger] m.spec_enc() == Ok::<Seq<u8>, SerError>(b@) implies false by {
                        Tcreate::lemma_layout(m, b@, end as int);
                    }
                }
                return Err(e);
            },
        };
        let mode = OpenMode { bits: mode_bits };
        if pos5 != end {
            proof {
                assert forall|m: Tcreate|
                    #[trigger] m.spec_enc() == Ok::<Seq<u8>, SerError>(b@) implies false by {
                    Tcreate::lemma_layout(m, b@, end as int);
                }
            }
            return Err(DeError::TrailingBytes);
        }
        let m2 = Tcreate { tag, fid, name, perm, mode };
        proof {
            lemma_split(b@, 0, pos1 as int, pos2 as int);
            lemma_split(b@, 0, pos2 as int, pos3 as int);
            lemma_split(b@, 0, pos3 as int, pos4 as int);
            lemma_split(b@, 0, pos4 as int, pos5 as int);
            assert(b@.subrange(0, pos5 as int) =~= b@);
            assert forall|m: Tcreate|
                #[trigger] m.spec_enc() == Ok::<Seq<u8>, SerError>(b@) implies m2.same(m) by {
                Tcreate::lemma_layout(m, b@, end as int);
            }
        }
        Ok(m2)
    }
}

impl Rcreate {
    /// The message body on the wire, or the first field that cannot be encoded.
    pub open spec fn spec_enc(self) -> Result<Seq<u8>, SerError> {
        Ok(spec_u16_to_le_bytes(self.tag) + qid_bytes(self.qid) + spec_u32_to_le_bytes(self.iounit))
    }

    /// Appends the message body to `buf`.
    pub fn encode_into(&self, buf: &mut Vec<u8>) -> (r: Result<(), SerError>)
        ensures
            appended(r, old(buf)@, final(buf)@, self.spec_enc()),
    {
        broadcast use lemma_cat_assoc;

        proof {
            lemma_int_bytes();
        }
        let m = self;
        put_u16(buf, m.tag);
        put_qid(buf, &m.qid);
        put_u32(buf, m.iounit);
        Ok(())
    }

    /// The size of the message body, computed without encoding it.
    pub fn body_size(&self) -> (r: Result<u64, SerError>)
        ensures
            sized(r, self.spec_enc()),
    {
        proof {
            lemma_int_bytes();
        }
        let m = self;
        Ok(2 + 13 + 4)
    }

    /// The two messages hold the same values.
    pub open spec fn same(self, o: Self) -> bool {
        self.tag == o.tag
            && self.qid == o.qid
            && self.iounit == o.iounit
    }

    /// Where the message's encoding is the whole of `b`, each field's
    /// encoding stands in turn, from the start.
    pub proof fn lemma_layout(m: Self, b: Seq<u8>, end: int)
        requires
            m.spec_enc() == Ok::<Seq<u8>, SerError>(b),
            end == b.len(),
        ensures
            at(b, 0int, end, spec_u16_to_le_bytes(m.tag)),
            at(b, 0int + (spec_u16_to_le_bytes(m.tag)).len(), end, qid_bytes(m.qid)),
            at(
                b,
                0int + (spec_u16_to_le_bytes(m.tag)).len() + (qid_bytes(m.qid)).len(),
                end,
                spec_u32_to_le_bytes(m.iounit),
            ),
            0int
                + (spec_u16_to_le_bytes(m.tag)).len()
                + (qid_bytes(m.qid)).len()
                + (spec_u32_to_le_bytes(m.iounit)).len() == end,
    {
        broadcast use lemma_cat_assoc;

        lemma_int_bytes();
        assert(
            b == spec_u16_to_le_bytes(m.tag) + qid_bytes(m.qid) + spec_u32_to_le_bytes(m.iounit)
        );
        assert(b.subrange(0, b.len() as int) =~= b);
        lemma_at_split(
            b,
            0,
            end,
            spec_u16_to_le_bytes(m.tag) + qid_bytes(m.qid),
            spec_u32_to_le_bytes(m.iounit),
        );
        lemma_at_split(b, 0, end, spec_u16_to_le_bytes(m.tag), qid_bytes(m.qid));
    }

    /// Decodes a message body that must hold exactly this message. Where
    /// the body is the encoding of a message, that message is read.
    pub fn decode_body(b: &[u8]) -> (r: Result<Rcreate, DeError>)
        requires
            b@.len() <= BODY_LEN_MAX,
        ensures
            b@.len() < 2 ==> r is Err,
            r matches Ok(m) ==> m.spec_enc() == Ok::<Seq<u8>, SerError>(b@),
            forall|m: Rcreate|
                #[trigger] m.spec_enc() == Ok::<Seq<u8>, SerError>(b@)
                    ==> (r matches Ok(m2) && m2.same(m)),
    {
        broadcast use lemma_cat_assoc;

        proof {
            lemma_int_bytes();
        }
        let end = b.len();
        let (tag, pos1) = match get_u16(b, 0, end) {
            Ok(x) => x,
            Err(e) => {
                proof {
                    assert forall|m: Rcreate|
                        #[trigger] m.spec_enc() == Ok::<Seq<u8>, SerError>(b@) implies false by {
                        Rcreate::lemma_layout(m, b@, end as int);
                    }
                }
                return Err(e);
            },
        };
        let (qid, pos2) = match get_qid(b, pos1, end) {
            Ok(x) => x,
            Err(e) => {
                proof {
                    assert forall|m: Rcreate|
                        #[trigger] m.spec_enc() == Ok::<Seq<u8>, SerError>(b@) implies false by {
                        Rcreate::lemma_layout(m, b@, end as int);
                    }
                }
                return Err(e);
            },
        };
        let (iounit, pos3) = match get_u32(b, pos2, end) {
            Ok(x) => x,
            Err(e) => {
                proof {
                    assert forall|m: Rcreate|
                        #[trigger] m.spec_enc() == Ok::<Seq<u8>, SerError>(b@) implies false by {
                        Rcreate::lemma_layout(m, b@, end as int);
                    }
                }
                return Err(e);
            },
        };
        if pos3 != end {
            proof {
                assert forall|m: Rcreate|
                    #[trigger] m.spec_enc() == Ok::<Seq<u8>, SerError>(b@) implies false by {
                    Rcreate::lemma_layout(m, b@, end as int);
                }
            }
            return Err(DeError::TrailingBytes);
        }
        let m2 = Rcreate { tag, qid, iounit };
        proof {
            lemma_split(b@, 0, pos1 as int, pos2 as int);
            lemma_split(b@, 0, pos2 as int, pos3 as int);
            assert(b@.subrange(0, pos3 as int) =~= b@);
            assert forall|m: Rcreate|
                #[trigger] m.spec_enc() == Ok::<Seq<u8>, SerError>(b@) implies m2.same(m) by {
                Rcreate::lemma_layout(m, b@, end as int);
            }
        }
        Ok(m2)
    }
}

impl Tread {
    /// The message body on the wire, or the first field that cannot be encoded.
    pub open spec fn spec_enc(self) -> Result<Seq<u8>, SerError> {
        Ok(
            spec_u16_to_le_bytes(self.tag)
                + spec_u32_to_le_bytes(self.fid)
                + spec_u64_to_le_bytes(self.offset)
                + spec_u32_to_le_bytes(self.count),
        )
    }

    /// Appends the message body to `buf`.
    pub fn encode_into(&self, buf: &mut Vec<u8>) -> (r: Result<(), SerError>)
        ensures
            appended(r, old(buf)@, final(buf)@, self.spec_enc()),
    {
        broadcast use lemma_cat_assoc;

        proof {
            lemma_int_bytes();
        }
        let m = self;
        put_u16(buf, m.tag);
        put_u32(buf, m.fid);
        put_u64(buf, m.offset);
        put_u32(buf, m.count);
        Ok(())
    }

    /// The size of the message body, computed without encoding it.
    pub fn body_size(&self) -> (r: Result<u64, SerError>)
        ensures
            sized(r, self.spec_enc()),
    {
        proof {
            lemma_int_bytes();
        }
        let m = self;
        Ok(2 + 4 + 8 + 4)
    }

    /// The two messages hold the same values.
    pub open spec fn same(self, o: Self) -> bool {
        self.tag == o.tag
            && self.fid == o.fid
            && self.offset == o.offset
            && self.count == o.count
    }

    /// Where the message's encoding is the whole of `b`, each field's
    /// encoding stands in turn, from the start.
    pub proof fn lemma_layout(m: Self, b: Seq<u8>, end: int)
        requires
            m.spec_enc() == Ok::<Seq<u8>, SerError>(b),
            end == b.len(),
        ensures
            at(b, 0int, end, spec_u16_to_le_bytes(m.tag)),
            at(b, 0int + (spec_u16_to_le_bytes(m.tag)).len(), end, spec_u32_to_le_bytes(m.fid)),
            at(
                b,
                0int + (spec_u16_to_le_bytes(m.tag)).len() + (spec_u32_to_le_bytes(m.fid)).len(),
                end,
                spec_u64_to_le_bytes(m.offset),
            ),
            at(
                b,
                0int
                    + (spec_u16_to_le_bytes(m.tag)).len()
                    + (spec_u32_to_le_bytes(m.fid)).len()
                    + (spec_u64_to_le_bytes(m.offset)).len(),
                end,
                spec_u32_to_le_bytes(m.count),
            ),
            0int
                + (spec_u16_to_le_bytes(m.tag)).len()
                + (spec_u32_to_le_bytes(m.fid)).len()
                + (spec_u64_to_le_bytes(m.offset)).len()
                + (spec_u32_to_le_bytes(m.count)).len() == end,
    {
        broadcast use lemma_cat_assoc;

        lemma_int_bytes();
        assert(
            b == spec_u16_to_le_bytes(m.tag)
                + spec_u32_to_le_bytes(m.fid)
                + spec_u64_to_le_bytes(m.offset)
                + spec_u32_to_le_bytes(m.count)
        );
        assert(b.subrange(0, b.len() as int) =~= b);
        lemma_at_split(
            b,
            0,
            end,
            spec_u16_to_le_bytes(m.tag)
                + spec_u32_to_le_bytes(m.fid)
                + spec_u64_to_le_bytes(m.offset),
            spec_u32_to_le_bytes(m.count),
        );
        lemma_at_split(
            b,
            0,
            end,
            spec_u16_to_le_bytes(m.tag) + spec_u32_to_le_bytes(m.fid),
            spec_u64_to_le_bytes(m.offset),
        );
        lemma_at_split(b, 0, end, spec_u16_to_le_bytes(m.tag), spec_u32_to_le_bytes(m.fid));
    }

    /// Decodes a message body that must hold exactly this message. Where
    /// the body is the encoding of a message, that message is read.
    pub fn decode_body(b: &[u8]) -> (r: Result<Tread, DeError>)
        requires
            b@.len() <= BODY_LEN_MAX,
        ensures
            b@.len() < 2 ==> r is Err,
            r matches Ok(m) ==> m.spec_enc() == Ok::<Seq<u8>, SerError>(b@),
            forall|m: Tread|
                #[trigger] m.spec_enc() == Ok::<Seq<u8>, SerError>(b@)
                    ==> (r matches Ok(m2) && m2.same(m)),
    {
        broadcast use lemma_cat_assoc;

        proof {
            lemma_int_bytes();
        }
        let end = b.len();
        let (tag, pos1) = match get_u16(b, 0, end) {
            Ok(x) => x,
            Err(e) => {
                proof {
                    assert forall|m: Tread|
                        #[trigger] m.spec_enc() == Ok::<Seq<u8>, SerError>(b@) implies false by {
                        Tread::lemma_layout(m, b@, end as int);
                    }
                }
                return Err(e);
            },
        };
        let (fid, pos2) = match get_u32(b, pos1, end) {
            Ok(x) => x,
            Err(e) => {
                proof {
                    assert forall|m: Tread|
                        #[trigger] m.spec_enc() == Ok::<Seq<u8>, SerError>(b@) implies false by {
                        Tread::lemma_layout(m, b@, end as int);
                    }
                }
                return Err(e);
            },
        };
        let (offset, pos3) = match get_u64(b, pos2, end) {
            Ok(x) => x,
            Err(e) => {
                proof {
                    assert forall|m: Tread|
                        #[trigger] m.spec_enc() == Ok::<Seq<u8>, SerError>(b@) implies false by {
                        Tread::lemma_layout(m, b@, end as int);
                    }
                }
                return Err(e);
            },
        };
        let (count, pos4) = match get_u32(b, pos3, end) {
            Ok(x) => x,
            Err(e) => {
                proof {
                    assert forall|m: Tread|
                        #[trigger] m.spec_enc() == Ok::<Seq<u8>, SerError>(b@) implies false by {
                        Tread::lemma_layout(m, b@, end as int);
                    }
                }
                return Err(e);
            },
        };
        if pos4 != end {
            proof {
                assert forall|m: Tread|
                    #[trigger] m.spec_enc() == Ok::<Seq<u8>, SerError>(b@) implies false by {
                    Tread::lemma_layout(m, b@, end as int);
                }
            }
            return Err(DeError::TrailingBytes);
        }
        let m2 = Tread { tag, fid, offset, count };
        proof {
            lemma_split(b@, 0, pos1 as int, pos2 as int);
            lemma_split(b@, 0, pos2 as int, pos3 as int);
            lemma_split(b@, 0, pos3 as int, pos4 as int);
            assert(b@.subrange(0, pos4 as int) =~= b@);
            assert forall|m: Tread|
                #[trigger] m.spec_enc() == Ok::<Seq<u8>, SerError>(b@) implies m2.same(m) by {
                Tread::lemma_layout(m, b@, end as int);
            }
        }
        Ok(m2)
    }
}

impl Rread {
    /// The message body on the wire, or the first field that cannot be encoded.
    pub open spec fn spec_enc(self) -> Result<Seq<u8>, SerError> {
        cat(Ok(spec_u16_to_le_bytes(self.tag)), enc_data(self.data@))
    }

    /// Appends the message body to `buf`.
    pub fn encode_into(&self, buf: &mut Vec<u8>) -> (r: Result<(), SerError>)
        ensures
            appended(r, old(buf)@, final(buf)@, self.spec_enc()),
    {
        broadcast use lemma_cat_assoc;

        proof {
            lemma_int_bytes();
        }
        let m = self;
        put_u16(buf, m.tag);
        put_data(buf, m.data.as_slice())?;
        Ok(())
    }

    /// The size of the message body, computed without encoding it.
    pub fn body_size(&self) -> (r: Result<u64, SerError>)
        ensures
            sized(r, self.spec_enc()),
    {
        proof {
            lemma_int_bytes();
        }
        let m = self;
        let s0 = size_data(m.data.as_slice())?;
        Ok(2 + s0)
    }

    /// The two messages hold the same values.
    pub open spec fn same(self, o: Self) -> bool {
        self.tag == o.tag
            && self.data@ == o.data@
    }

    /// Where the message's encoding is the whole of `b`, each field's
    /// encoding stands in turn, from the start.
    pub proof fn lemma_layout(m: Self, b: Seq<u8>, end: int)
        requires
            m.spec_enc() == Ok::<Seq<u8>, SerError>(b),
            end == b.len(),
        ensures
            at(b, 0int, end, spec_u16_to_le_bytes(m.tag)),
            m.data@.len() <= u32::MAX,
            at(b, 0int + (spec_u16_to_le_bytes(m.tag)).len(), end, data_bytes(m.data@)),
            0int + (spec_u16_to_le_bytes(m.tag)).len() + (data_bytes(m.data@)).len() == end,
    {
        broadcast use lemma_cat_assoc;

        lemma_int_bytes();
        assert(b == spec_u16_to_le_bytes(m.tag) + data_bytes(m.data@));
        assert(b.subrange(0, b.len() as int) =~= b);
        lemma_at_split(b, 0, end, spec_u16_to_le_bytes(m.tag), data_bytes(m.data@));
    }

    /// Decodes a message body that must hold exactly this message. Where
    /// the body is the encoding of a message, that message is read.
    pub fn decode_body(b: &[u8]) -> (r: Result<Rread, DeError>)
        requires
            b@.len() <= BODY_LEN_MAX,
        ensures
            b@.len() < 2 ==> r is Err,
            r matches Ok(m) ==> m.spec_enc() == Ok::<Seq<u8>, SerError>(b@),
            forall|m: Rread|
                #[trigger] m.spec_enc() == Ok::<Seq<u8>, SerError>(b@)
                    ==> (r matches Ok(m2) && m2.same(m)),
    {
        broadcast use lemma_cat_assoc;

        proof {
            lemma_int_bytes();
        }
        let end = b.len();
        let (tag, pos1) = match get_u16(b, 0, end) {
            Ok(x) => x,
            Err(e) => {
                proof {
                    assert forall|m: Rread|
                        #[trigger] m.spec_enc() == Ok::<Seq<u8>, SerError>(b@) implies false by {
                        Rread::lemma_layout(m, b@, end as int);
                    }
                }
                return Err(e);
            },
        };
        let (data, pos2) = match get_data(b, pos1, end) {
            Ok(x) => x,
            Err(e) => {
                proof {
                    assert forall|m: Rread|
                        #[trigger] m.spec_enc() == Ok::<Seq<u8>, SerError>(b@) implies false by {
                        Rread::lemma_layout(m, b@, end as int);
                    }
                }
                return Err(e);
            },
        };
        if pos2 != end {
            proof {
                assert forall|m: Rread|
                    #[trigger] m.spec_enc() == Ok::<Seq<u8>, SerError>(b@) implies false by {
                    Rread::lemma_layout(m, b@, end as int);
                }
            }
            return Err(DeError::TrailingBytes);
        }
        let m2 = Rread { tag, data };
        proof {
            lemma_split(b@, 0, pos1 as int, pos2 as int);
            assert(b@.subrange(0, pos2 as int) =~= b@);
            assert forall|m: Rread|
                #[trigger] m.spec_enc() == Ok::<Seq<u8>, SerError>(b@) implies m2.same(m) by {
                Rread::lemma_layout(m, b@, end as int);
            }
        }
        Ok(m2)
    }
}

impl Twrite {
    /// The message body on the wire, or the first field that cannot be encoded.
    pub open spec fn spec_enc(self) -> Result<Seq<u8>, SerError> {
        cat(
            Ok(
                spec_u16_to_le_bytes(self.tag)
                    + spec_u32_to_le_bytes(self.fid)
                    + spec_u64_to_le_bytes(self.offset),
            ),
            enc_data(self.data@),
        )
    }

    /// Appends the message body to `buf`.
    pub fn encode_into(&self, buf: &mut Vec<u8>) -> (r: Result<(), SerError>)
        ensures
            appended(r, old(buf)@, final(buf)@, self.spec_enc()),
    {
        broadcast use lemma_cat_assoc;

        proof {
            lemma_int_bytes();
        }
        let m = self;
        put_u16(buf, m.tag);
        put_u32(buf, m.fid);
        put_u64(buf, m.offset);
        put_data(buf, m.data.as_slice())?;
        Ok(())
    }

    /// The size of the message body, computed without encoding it.
    pub fn body_size(&self) -> (r: Result<u64, SerError>)
        ensures
            sized(r, self.spec_enc()),
    {
        proof {
            lemma_int_bytes();
        }
        let m = self;
        let s0 = size_data(m.data.as_slice())?;
        Ok(2 + 4 + 8 + s0)
    }

    /// The two messages hold the same values.
    pub open spec fn same(self, o: Self) -> bool {
        self.tag == o.tag
            && self.fid == o.fid
            && self.offset == o.offset
            && self.data@ == o.data@
    }

    /// Where the message's encoding is the whole of `b`, each field's
    /// encoding stands in turn, from the start.
    pub proof fn lemma_layout(m: Self, b: Seq<u8>, end: int)
        requires
            m.spec_enc() == Ok::<Seq<u8>, SerError>(b),
            end == b.len(),
        ensures
            at(b, 0int, end, spec_u16_to_le_bytes(m.tag)),
            at(b, 0int + (spec_u16_to_le_bytes(m.tag)).len(), end, spec_u32_to_le_bytes(m.fid)),
            at(
                b,
                0int + (spec_u16_to_le_bytes(m.tag)).len() + (spec_u32_to_le_bytes(m.fid)).len(),
                end,
                spec_u64_to_le_bytes(m.offset),
            ),
            m.data@.len() <= u32::MAX,
            at(
                b,
                0int
                    + (spec_u16_to_le_bytes(m.tag)).len()
                    + (spec_u32_to_le_bytes(m.fid)).len()
                    + (spec_u64_to_le_bytes(m.offset)).len(),
                end,
                data_bytes(m.data@),
            ),
            0int
                + (spec_u16_to_le_bytes(m.tag)).len()
                + (spec_u32_to_le_bytes(m.fid)).len()
                + (spec_u64_to_le_bytes(m.offset)).len()
                + (data_bytes(m.data@)).len() == end,
    {
        broadcast use lemma_cat_assoc;

        lemma_int_bytes();
        assert(
            b == spec_u16_to_le_bytes(m.tag)
                + spec_u32_to_le_bytes(m.fid)
                + spec_u64_to_le_bytes(m.offset)
                + data_bytes(m.data@)
        );
        assert(b.subrange(0, b.len() as int) =~= b);
        lemma_at_split(
            b,
            0,
            end,
            spec_u16_to_le_bytes(m.tag)
                + spec_u32_to_le_bytes(m.fid)
                + spec_u64_to_le_bytes(m.offset),
            data_bytes(m.data@),
        );
        lemma_at_split(
            b,
            0,
            end,
            spec_u16_to_le_bytes(m.tag) + spec_u32_to_le_bytes(m.fid),
            spec_u64_to_le_bytes(m.offset),
        );
        lemma_at_split(b, 0, end, spec_u16_to_le_bytes(m.tag), spec_u32_to_le_bytes(m.fid));
    }

    /// Decodes a message body that must hold exactly this message. Where
    /// the body is the encoding of a message, that message is read.
    pub fn decode_body(b: &[u8]) -> (r: Result<Twrite, DeError>)
        requires
            b@.len() <= BODY_LEN_MAX,
        ensures
            b@.len() < 2 ==> r is Err,
            r matches Ok(m) ==> m.spec_enc() == Ok::<Seq<u8>, SerError>(b@),
            forall|m: Twrite|
                #[trigger] m.spec_enc() == Ok::<Seq<u8>, SerError>(b@)
                    ==> (r matches Ok(m2) && m2.same(m)),
    {
        broadcast use lemma_cat_assoc;

        proof {
            lemma_int_bytes();
        }
        let end = b.len();
        let (tag, pos1) = match get_u16(b, 0, end) {
            Ok(x) => x,
            Err(e) => {
                proof {
                    assert forall|m: Twrite|
                        #[trigger] m.spec_enc() == Ok::<Seq<u8>, SerError>(b@) implies false by {
                        Twrite::lemma_layout(m, b@, end as int);
                    }
                }
                return Err(e);
            },
        };
        let (fid, pos2) = match get_u32(b, pos1, end) {
            Ok(x) => x,
            Err(e) => {
                proof {
                    assert forall|m: Twrite|
                        #[trigger] m.spec_enc() == Ok::<Seq<u8>, SerError>(b@) implies false by {
                        Twrite::lemma_layout(m, b@, end as int);
                    }
                }
                return Err(e);
            },
        };
        let (offset, pos3) = match get_u64(b, pos2, end) {
            Ok(x) => x,
            Err(e) => {
                proof {
                    assert forall|m: Twrite|
                        #[trigger] m.spec_enc() == Ok::<Seq<u8>, SerError>(b@) implies false by {
                        Twrite::lemma_layout(m, b@, end as int);
                    }
                }
                return Err(e);
            },
        };
        let (data, pos4) = match get_data(b, pos3, end) {
            Ok(x) => x,
            Err(e) => {
                proof {
                    assert forall|m: Twrite|
                        #[trigger] m.spec_enc() == Ok::<Seq<u8>, SerError>(b@) implies false by {
                        Twrite::lemma_layout(m, b@, end as int);
                    }
                }
                return Err(e);
            },
        };
        if pos4 != end {
            proof {
                assert forall|m: Twrite|
                    #[trigger] m.spec_enc() == Ok::<Seq<u8>, SerError>(b@) implies false by {
                    Twrite::lemma_layout(m, b@, end as int);
                }
            }
            return Err(DeError::TrailingBytes);
        }
        let m2 = Twrite { tag, fid, offset, data };
        proof {
            lemma_split(b@, 0, pos1 as int, pos2 as int);
            lemma_split(b@, 0, pos2 as int, pos3 as int);
            lemma_split(b@, 0, pos3 as int, pos4 as int);
            assert(b@.subrange(0, pos4 as int) =~= b@);
            assert forall|m: Twrite|
                #[trigger] m.spec_enc() == Ok::<Seq<u8>, SerError>(b@) implies m2.same(m) by {
                Twrite::lemma_layout(m, b@, end as int);
            }
        }
        Ok(m2)
    }
}

impl Rwrite {
    /// The message body on the wire, or the first field that cannot be encoded.
    pub open spec fn spec_enc(self) -> Result<Seq<u8>, SerError> {
        Ok(spec_u16_to_le_bytes(self.tag) + spec_u32_to_le_bytes(self.count))
    }

    /// Appends the message body to `buf`.
    pub fn encode_into(&self, buf: &mut Vec<u8>) -> (r: Result<(), SerError>)
        ensures
            appended(r, old(buf)@, final(buf)@, self.spec_enc()),
    {
        broadcast use lemma_cat_assoc;

        proof {
            lemma_int_bytes();
        }
        let m = self;
        put_u16(buf, m.tag);
        put_u32(buf, m.count);
        Ok(())
    }

    /// The size of the message body, computed without encoding it.
    pub fn body_size(&self) -> (r: Result<u64, SerError>)
        ensures
            sized(r, self.spec_enc()),
    {
        proof {
            lemma_int_bytes();
        }
        let m = self;
        Ok(2 + 4)
    }

    /// The two messages hold the same values.
    pub open spec fn same(self, o: Self) -> bool {
        self.tag == o.tag
            && self.count == o.count
    }

    /// Where the message's encoding is the whole of `b`, each field's
    /// encoding stands in turn, from the start.
    pub proof fn lemma_layout(m: Self, b: Seq<u8>, end: int)
        requires
            m.spec_enc() == Ok::<Seq<u8>, SerError>(b),
            end == b.len(),
        ensures
            at(b, 0int, end, spec_u16_to_le_bytes(m.tag)),
            at(b, 0int + (spec_u16_to_le_bytes(m.tag)).len(), end, spec_u32_to_le_bytes(m.count)),
            0int
                + (spec_u16_to_le_bytes(m.tag)).len()
                + (spec_u32_to_le_bytes(m.count)).len() == end,
    {
        broadcast use lemma_cat_assoc;

        lemma_int_bytes();
        assert(b == spec_u16_to_le_bytes(m.tag) + spec_u32_to_le_bytes(m.count));
        assert(b.subrange(0, b.len() as int) =~= b);
        lemma_at_split(b, 0, end, spec_u16_to_le_bytes(m.tag), spec_u32_to_le_bytes(m.count));
    }

    /// Decodes a message body that must hold exactly this message. Where
    /// the body is the encoding of a message, that message is read.
    pub fn decode_body(b: &[u8]) -> (r: Result<Rwrite, DeError>)
        requires
            b@.len() <= BODY_LEN_MAX,
        ensures
            b@.len() < 2 ==> r is Err,
            r matches Ok(m) ==> m.spec_enc() == Ok::<Seq<u8>, SerError>(b@),
            forall|m: Rwrite|
                #[trigger] m.spec_enc() == Ok::<Seq<u8>, SerError>(b@)
                    ==> (r matches Ok(m2) && m2.same(m)),
    {
        broadcast use lemma_cat_assoc;

        proof {
            lemma_int_bytes();
        }
        let end = b.len();
        let (tag, pos1) = match get_u16(b, 0, end) {
            Ok(x) => x,
            Err(e) => {
                proof {
                    assert forall|m: Rwrite|
                        #[trigger] m.spec_enc() == Ok::<Seq<u8>, SerError>(b@) implies false by {
                        Rwrite::lemma_layout(m, b@, end as int);
                    }
                }
                return Err(e);
            },
        };
        let (count, pos2) = match get_u32(b, pos1, end) {
            Ok(x) => x,
            Err(e) => {
                proof {
                    assert forall|m: Rwrite|
                        #[trigger] m.spec_enc() == Ok::<Seq<u8>, SerError>(b@) implies false by {
                        Rwrite::lemma_layout(m, b@, end as int);
                    }
                }
                return Err(e);
            },
        };
        if pos2 != end {
            proof {
                assert forall|m: Rwrite|
                    #[trigger] m.spec_enc() == Ok::<Seq<u8>, SerError>(b@) implies false by {
                    Rwrite::lemma_layout(m, b@, end as int);
                }
            }
            return Err(DeError::TrailingBytes);
        }
        let m2 = Rwrite { tag, count };
        proof {
            lemma_split(b@, 0, pos1 as int, pos2 as int);
            assert(b@.subrange(0, pos2 as int) =~= b@);
            assert forall|m: Rwrite|
                #[trigger] m.spec_enc() == Ok::<Seq<u8>, SerError>(b@) implies m2.same(m) by {
                Rwrite::lemma_layout(m, b@, end as int);
            }
        }
        Ok(m2)
    }
}

impl Tclunk {
    /// The message body on the wire, or the first field that cannot be encoded.
    pub open spec fn spec_enc(self) -> Result<Seq<u8>, SerError> {
        Ok(spec_u16_to_le_bytes(self.tag) + spec_u32_to_le_bytes(self.fid))
    }

    /// Appends the message body to `buf`.
    pub fn encode_into(&self, buf: &mut Vec<u8>) -> (r: Result<(), SerError>)
        ensures
            appended(r, old(buf)@, final(buf)@, self.spec_enc()),
    {
        broadcast use lemma_cat_assoc;

        proof {
            lemma_int_bytes();
        }
        let m = self;
        put_u16(buf, m.tag);
        put_u32(buf, m.fid);
        Ok(())
    }

    /// The size of the message body, computed without encoding it.
    pub fn body_size(&self) -> (r: Result<u64, SerError>)
        ensures
            sized(r, self.spec_enc()),
    {
        proof {
            lemma_int_bytes();
        }
        let m = self;
        Ok(2 + 4)
    }

    /// The two messages hold the same values.
    pub open spec fn same(self, o: Self) -> bool {
        self.tag == o.tag
            && self.fid == o.fid
    }

    /// Where the message's encoding is the whole of `b`, each field's
    /// encoding stands in turn, from the start.
    pub proof fn lemma_layout(m: Self, b: Seq<u8>, end: int)
        requires
            m.spec_enc() == Ok::<Seq<u8>, SerError>(b),
            end == b.len(),
        ensures
            at(b, 0int, end, spec_u16_to_le_bytes(m.tag)),
            at(b, 0int + (spec_u16_to_le_bytes(m.tag)).len(), end, spec_u32_to_le_bytes(m.fid)),
            0int + (spec_u16_to_le_bytes(m.tag)).len() + (spec_u32_to_le_bytes(m.fid)).len() == end,
    {
        broadcast use lemma_cat_assoc;

        lemma_int_bytes();
        assert(b == spec_u16_to_le_bytes(m.tag) + spec_u32_to_le_bytes(m.fid));
        assert(b.subrange(0, b.len() as int) =~= b);
        lemma_at_split(b, 0, end, spec_u16_to_le_bytes(m.tag), spec_u32_to_le_bytes(m.fid));
    }

    /// Decodes a message body that must hold exactly this message. Where
    /// the body is the encoding of a message, that message is read.
    pub fn decode_body(b: &[u8]) -> (r: Result<Tclunk, DeError>)
        requires
            b@.len() <= BODY_LEN_MAX,
        ensures
            b@.len() < 2 ==> r is Err,
            r matches Ok(m) ==> m.spec_enc() == Ok::<Seq<u8>, SerError>(b@),
            forall|m: Tclunk|
                #[trigger] m.spec_enc() == Ok::<Seq<u8>, SerError>(b@)
                    ==> (r matches Ok(m2) && m2.same(m)),
    {
        broadcast use lemma_cat_assoc;

        proof {
            lemma_int_bytes();
        }
        let end = b.len();
        let (tag, pos1) = match get_u16(b, 0, end) {
            Ok(x) => x,
            Err(e) => {
                proof {
                    assert forall|m: Tclunk|
                        #[trigger] m.spec_enc() == Ok::<Seq<u8>, SerError>(b@) implies false by {
                        Tclunk::lemma_layout(m, b@, end as int);
                    }
                }
                return Err(e);
            },
        };
        let (fid, pos2) = match get_u32(b, pos1, end) {
            Ok(x) => x,
            Err(e) => {
                proof {
                    assert forall|m: Tclunk|
                        #[trigger] m.spec_enc() == Ok::<Seq<u8>, SerError>(b@) implies false by {
                        Tclunk::lemma_layout(m, b@, end as int);
                    }
                }
                return Err(e);
            },
        };
        if pos2 != end {
            proof {
                assert forall|m: Tclunk|
                    #[trigger] m.spec_enc() == Ok::<Seq<u8>, SerError>(b@) implies false by {
                    Tclunk::lemma_layout(m, b@, end as int);
                }
            }
            return Err(DeError::TrailingBytes);
        }
        let m2 = Tclunk { tag, fid };
        proof {
            lemma_split(b@, 0, pos1 as int, pos2 as int);
            assert(b@.subrange(0, pos2 as int) =~= b@);
            assert forall|m: Tclunk|
                #[trigger] m.spec_enc() == Ok::<Seq<u8>, SerError>(b@) implies m2.same(m) by {
                Tclunk::lemma_layout(m, b@, end as int);
            }
        }
        Ok(m2)
    }
}

impl Rclunk {
    /// The message body on the wire, or the first field that cannot be encoded.
    pub open spec fn spec_enc(self) -> Result<Seq<u8>, SerError> {
        Ok(spec_u16_to_le_bytes(self.tag))
    }

    /// Appends the message body to `buf`.
    pub fn encode_into(&self, buf: &mut Vec<u8>) -> (r: Result<(), SerError>)
        ensures
            appended(r, old(buf)@, final(buf)@, self.spec_enc()),
    {
        broadcast use lemma_cat_assoc;

        proof {
            lemma_int_bytes();
        }
        let m = self;
        put_u16(buf, m.tag);
        Ok(())
    }

    /// The size of the message body, computed without encoding it.
    pub fn body_size(&self) -> (r: Result<u64, SerError>)
        ensures
            sized(r, self.spec_enc()),
    {
        proof {
            lemma_int_bytes();
        }
        let m = self;
        Ok(2)
    }

    /// The two messages hold the same values.
    pub open spec fn same(self, o: Self) -> bool {
        self.tag == o.tag
    }

    /// Where the message's encoding is the whole of `b`, each field's
    /// encoding stands in turn, from the start.
    pub proof fn lemma_layout(m: Self, b: Seq<u8>, end: int)
        requires
            m.spec_enc() == Ok::<Seq<u8>, SerError>(b),
            end == b.len(),
        ensures
            at(b, 0int, end, spec_u16_to_le_bytes(m.tag)),
            0int + (spec_u16_to_le_bytes(m.tag)).len() == end,
    {
        broadcast use lemma_cat_assoc;

        lemma_int_bytes();
        assert(b == spec_u16_to_le_bytes(m.tag));
        assert(b.subrange(0, b.len() as int) =~= b);
    }

    /// Decodes a message body that must hold exactly this message. Where
    /// the body is the encoding of a message, that message is read.
    pub fn decode_body(b: &[u8]) -> (r: Result<Rclunk, DeError>)
        requires
            b@.len() <= BODY_LEN_MAX,
        ensures
            b@.len() < 2 ==> r is Err,
            r matches Ok(m) ==> m.spec_enc() == Ok::<Seq<u8>, SerError>(b@),
            forall|m: Rclunk|
                #[trigger] m.spec_enc() == Ok::<Seq<u8>, SerError>(b@)
                    ==> (r matches Ok(m2) && m2.same(m)),
    {
        broadcast use lemma_cat_assoc;

        proof {
            lemma_int_bytes();
        }
        let end = b.len();
        let (tag, pos1) = match get_u16(b, 0, end) {
            Ok(x) => x,
            Err(e) => {
                proof {
                    assert forall|m: Rclunk|
                        #[trigger] m.spec_enc() == Ok::<Seq<u8>, SerError>(b@) implies false by {
                        Rclunk::lemma_layout(m, b@, end as int);
                    }
                }
                return Err(e);
            },
        };
        if pos1 != end {
            proof {
                assert forall|m: Rclunk|
                    #[trigger] m.spec_enc() == Ok::<Seq<u8>, SerError>(b@) implies false by {
                    Rclunk::lemma_layout(m, b@, end as int);
                }
            }
            return Err(DeError::TrailingBytes);
        }
        let m2 = Rclunk { tag };
        proof {
            assert(b@.subrange(0, pos1 as int) =~= b@);
            assert forall|m: Rclunk|
                #[trigger] m.spec_enc() == Ok::<Seq<u8>, SerError>(b@) implies m2.same(m) by {
                Rclunk::lemma_layout(m, b@, end as int);
            }
        }
        Ok(m2)
    }
}

impl Tremove {
    /// The message body on the wire, or the first field that cannot be encoded.
    pub open spec fn spec_enc(self) -> Result<Seq<u8>, SerError> {
        Ok(spec_u16_to_le_bytes(self.tag) + spec_u32_to_le_bytes(self.fid))
    }

    /// Appends the message body to `buf`.
    pub fn encode_into(&self, buf: &mut Vec<u8>) -> (r: Result<(), SerError>)
        ensures
            appended(r, old(buf)@, final(buf)@, self.spec_enc()),
    {
        broadcast use lemma_cat_assoc;

        proof {
            lemma_int_bytes();
        }
        let m = self;
        put_u16(buf, m.tag);
        put_u32(buf, m.fid);
        Ok(())
    }

    /// The size of the message body, computed without encoding it.
    pub fn body_size(&self) -> (r: Result<u64, SerError>)
        ensures
            sized(r, self.spec_enc()),
    {
        proof {
            lemma_int_bytes();
        }
        let m = self;
        Ok(2 + 4)
    }

    /// The two messages hold the same values.
    pub open spec fn same(self, o: Self) -> bool {
        self.tag == o.tag
            && self.fid == o.fid
    }

    /// Where the message's encoding is the whole of `b`, each field's
    /// encoding stands in turn, from the start.
    pub proof fn lemma_layout(m: Self, b: Seq<u8>, end: int)
        requires
            m.spec_enc() == Ok::<Seq<u8>, SerError>(b),
            end == b.len(),
        ensures
            at(b, 0int, end, spec_u16_to_le_bytes(m.tag)),
            at(b, 0int + (spec_u16_to_le_bytes(m.tag)).len(), end, spec_u32_to_le_bytes(m.fid)),
            0int + (spec_u16_to_le_bytes(m.tag)).len() + (spec_u32_to_le_bytes(m.fid)).len() == end,
    {
        broadcast use lemma_cat_assoc;

        lemma_int_bytes();
        assert(b == spec_u16_to_le_bytes(m.tag) + spec_u32_to_le_bytes(m.fid));
        assert(b.subrange(0, b.len() as int) =~= b);
        lemma_at_split(b, 0, end, spec_u16_to_le_bytes(m.tag), spec_u32_to_le_bytes(m.fid));
    }

    /// Decodes a message body that must hold exactly this message. Where
    /// the body is the encoding of a message, that message is read.
    pub fn decode_body(b: &[u8]) -> (r: Result<Tremove, DeError>)
        requires
            b@.len() <= BODY_LEN_MAX,
        ensures
            b@.len() < 2 ==> r is Err,
            r matches Ok(m) ==> m.spec_enc() == Ok::<Seq<u8>, SerError>(b@),
            forall|m: Tremove|
                #[trigger] m.spec_enc() == Ok::<Seq<u8>, SerError>(b@)
                    ==> (r matches Ok(m2) && m2.same(m)),
    {
        broadcast use lemma_cat_assoc;

        proof {
            lemma_int_bytes();
        }
        let end = b.len();
        let (tag, pos1) = match get_u16(b, 0, end) {
            Ok(x) => x,
            Err(e) => {
                proof {
                    assert forall|m: Tremove|
                        #[trigger] m.spec_enc() == Ok::<Seq<u8>, SerError>(b@) implies false by {
                        Tremove::lemma_layout(m, b@, end as int);
                    }
                }
                return Err(e);
            },
        };
        let (fid, pos2) = match get_u32(b, pos1, end) {
            Ok(x) => x,
            Err(e) => {
                proof {
                    assert forall|m: Tremove|
                        #[trigger] m.spec_enc() == Ok::<Seq<u8>, SerError>(b@) implies false by {
                        Tremove::lemma_layout(m, b@, end as int);
                    }
                }
                return Err(e);
            },
        };
        if pos2 != end {
            proof {
                assert forall|m: Tremove|
                    #[trigger] m.spec_enc() == Ok::<Seq<u8>, SerError>(b@) implies false by {
                    Tremove::lemma_layout(m, b@, end as int);
                }
            }
            return Err(DeError::TrailingBytes);
        }
        let m2 = Tremove { tag, fid };
        proof {
            lemma_split(b@, 0, pos1 as int, pos2 as int);
            assert(b@.subrange(0, pos2 as int) =~= b@);
            assert forall|m: Tremove|
                #[trigger] m.spec_enc() == Ok::<Seq<u8>, SerError>(b@) implies m2.same(m) by {
                Tremove::lemma_layout(m, b@, end as int);
            }
        }
        Ok(m2)
    }
}

impl Rremove {
    /// The message body on the wire, or the first field that cannot be encoded.
    pub open spec fn spec_enc(self) -> Result<Seq<u8>, SerError> {
        Ok(spec_u16_to_le_bytes(self.tag))
    }

    /// Appends the message body to `buf`.
    pub fn encode_into(&self, buf: &mut Vec<u8>) -> (r: Result<(), SerError>)
        ensures
            appended(r, old(buf)@, final(buf)@, self.spec_enc()),
    {
        broadcast use lemma_cat_assoc;

        proof {
            lemma_int_bytes();
        }
        let m = self;
        put_u16(buf, m.tag);
        Ok(())
    }

    /// The size of the message body, computed without encoding it.
    pub fn body_size(&self) -> (r: Result<u64, SerError>)
        ensures
            sized(r, self.spec_enc()),
    {
        proof {
            lemma_int_bytes();
        }
        let m = self;
        Ok(2)
    }

    /// The two messages hold the same values.
    pub open spec fn same(self, o: Self) -> bool {
        self.tag == o.tag
    }

    /// Where the message's encoding is the whole of `b`, each field's
    /// encoding stands in turn, from the start.
    pub proof fn lemma_layout(m: Self, b: Seq<u8>, end: int)
        requires
            m.spec_enc() == Ok::<Seq<u8>, SerError>(b),
            end == b.len(),
        ensures
            at(b, 0int, end, spec_u16_to_le_bytes(m.tag)),
            0int + (spec_u16_to_le_bytes(m.tag)).len() == end,
    {
        broadcast use lemma_cat_assoc;

        lemma_int_bytes();
        assert(b == spec_u16_to_le_bytes(m.tag));
        assert(b.subrange(0, b.len() as int) =~= b);
    }

    /// Decodes a message body that must hold exactly this message. Where
    /// the body is the encoding of a message, that message is read.
    pub fn decode_body(b: &[u8]) -> (r: Result<Rremove, DeError>)
        requires
            b@.len() <= BODY_LEN_MAX,
        ensures
            b@.len() < 2 ==> r is Err,
            r matches Ok(m) ==> m.spec_enc() == Ok::<Seq<u8>, SerError>(b@),
            forall|m: Rremove|
                #[trigger] m.spec_enc() == Ok::<Seq<u8>, SerError>(b@)
                    ==> (r matches Ok(m2) && m2.same(m)),
    {
        broadcast use lemma_cat_assoc;

        proof {
            lemma_int_bytes();
        }
        let end = b.len();
        let (tag, pos1) = match get_u16(b, 0, end) {
            Ok(x) => x,
            Err(e) => {
                proof {
                    assert forall|m: Rremove|
                        #[trigger] m.spec_enc() == Ok::<Seq<u8>, SerError>(b@) implies false by {
                        Rremove::lemma_layout(m, b@, end as int);
                    }
                }
                return Err(e);
            },
        };
        if pos1 != end {
            proof {
                assert forall|m: Rremove|
                    #[trigger] m.spec_enc() == Ok::<Seq<u8>, SerError>(b@) implies false by {
                    Rremove::lemma_layout(m, b@, end as int);
                }
            }
            return Err(DeError::TrailingBytes);
        }
        let m2 = Rremove { tag };
        proof {
            assert(b@.subrange(0, pos1 as int) =~= b@);
            assert forall|m: Rremove|
                #[trigger] m.spec_enc() == Ok::<Seq<u8>, SerError>(b@) implies m2.same(m) by {
                Rremove::lemma_layout(m, b@, end as int);
            }
        }
        Ok(m2)
    }
}

impl Tstat {
    /// The message body on the wire, or the first field that cannot be encoded.
    pub open spec fn spec_enc(self) -> Result<Seq<u8>, SerError> {
        Ok(spec_u16_to_le_bytes(self.tag) + spec_u32_to_le_bytes(self.fid))
    }

    /// Appends the message body to `buf`.
    pub fn encode_into(&self, buf: &mut Vec<u8>) -> (r: Result<(), SerError>)
        ensures
            appended(r, old(buf)@, final(buf)@, self.spec_enc()),
    {
        broadcast use lemma_cat_assoc;

        proof {
            lemma_int_bytes();
        }
        let m = self;
        put_u16(buf, m.tag);
        put_u32(buf, m.fid);
        Ok(())
    }

    /// The size of the message body, computed without encoding it.
    pub fn body_size(&self) -> (r: Result<u64, SerError>)
        ensures
            sized(r, self.spec_enc()),
    {
        proof {
            lemma_int_bytes();
        }
        let m = self;
        Ok(2 + 4)
    }

    /// The two messages hold the same values.
    pub open spec fn same(self, o: Self) -> bool {
        self.tag == o.tag
            && self.fid == o.fid
    }

    /// Where the message's encoding is the whole of `b`, each field's
    /// encoding stands in turn, from the start.
    pub proof fn lemma_layout(m: Self, b: Seq<u8>, end: int)
        requires
            m.spec_enc() == Ok::<Seq<u8>, SerError>(b),
            end == b.len(),
        ensures
            at(b, 0int, end, spec_u16_to_le_bytes(m.tag)),
            at(b, 0int + (spec_u16_to_le_bytes(m.tag)).len(), end, spec_u32_to_le_bytes(m.fid)),
            0int + (spec_u16_to_le_bytes(m.tag)).len() + (spec_u32_to_le_bytes(m.fid)).len() == end,
    {
        broadcast use lemma_cat_assoc;

        lemma_int_bytes();
        assert(b == spec_u16_to_le_bytes(m.tag) + spec_u32_to_le_bytes(m.fid));
        assert(b.subrange(0, b.len() as int) =~= b);
        lemma_at_split(b, 0, end, spec_u16_to_le_bytes(m.tag), spec_u32_to_le_bytes(m.fid));
    }

    /// Decodes a message body that must hold exactly this message. Where
    /// the body is the encoding of a message, that message is read.
    pub fn decode_body(b: &[u8]) -> (r: Result<Tstat, DeError>)
        requires
            b@.len() <= BODY_LEN_MAX,
        ensures
            b@.len() < 2 ==> r is Err,
            r matches Ok(m) ==> m.spec_enc() == Ok::<Seq<u8>, SerError>(b@),
            forall|m: Tstat|
                #[trigger] m.spec_enc() == Ok::<Seq<u8>, SerError>(b@)
                    ==> (r matches Ok(m2) && m2.same(m)),
    {
        broadcast use lemma_cat_assoc;

        proof {
            lemma_int_bytes();
        }
        let end = b.len();
        let (tag, pos1) = match get_u16(b, 0, end) {
            Ok(x) => x,
            Err(e) => {
                proof {
                    assert forall|m: Tstat|
                        #[trigger] m.spec_enc() == Ok::<Seq<u8>, SerError>(b@) implies false by {
                        Tstat::lemma_layout(m, b@, end as int);
                    }
                }
                return Err(e);
            },
        };
        let (fid, pos2) = match get_u32(b, pos1, end) {
            Ok(x) => x,
            Err(e) => {
                proof {
                    assert forall|m: Tstat|
                        #[trigger] m.spec_enc() == Ok::<Seq<u8>, SerError>(b@) implies false by {
                        Tstat::lemma_layout(m, b@, end as int);
                    }
                }
                return Err(e);
            },
        };
        if pos2 != end {
            proof {
                assert forall|m: Tstat|
                    #[trigger] m.spec_enc() == Ok::<Seq<u8>, SerError>(b@) implies false by {
                    Tstat::lemma_layout(m, b@, end as int);
                }
            }
            return Err(DeError::TrailingBytes);
        }
        let m2 = Tstat { tag, fid };
        proof {
            lemma_split(b@, 0, pos1 as int, pos2 as int);
            assert(b@.subrange(0, pos2 as int) =~= b@);
            assert forall|m: Tstat|
                #[trigger] m.spec_enc() == Ok::<Seq<u8>, SerError>(b@) implies m2.same(m) by {
                Tstat::lemma_layout(m, b@, end as int);
            }
        }
        Ok(m2)
    }
}

impl Rstat {
    /// The message body on the wire, or the first field that cannot be encoded.
    pub open spec fn spec_enc(self) -> Result<Seq<u8>, SerError> {
        cat(Ok(spec_u16_to_le_bytes(self.tag)), enc_stat(self.stat@, true))
    }

    /// Appends the message body to `buf`.
    pub fn encode_into(&self, buf: &mut Vec<u8>) -> (r: Result<(), SerError>)
        ensures
            appended(r, old(buf)@, final(buf)@, self.spec_enc()),
    {
        broadcast use lemma_cat_assoc;

        proof {
            lemma_int_bytes();
        }
        let m = self;
        put_u16(buf, m.tag);
        put_stat(buf, &m.stat, true)?;
        Ok(())
    }

    /// The size of the message body, computed without encoding it.
    pub fn body_size(&self) -> (r: Result<u64, SerError>)
        ensures
            sized(r, self.spec_enc()),
    {
        proof {
            lemma_int_bytes();
        }
        let m = self;
        let s0 = size_stat(&m.stat, true)?;
        Ok(2 + s0)
    }

    /// The two messages hold the same values.
    pub open spec fn same(self, o: Self) -> bool {
        self.tag == o.tag
            && self.stat@ == o.stat@
    }

    /// Where the message's encoding is the whole of `b`, each field's
    /// encoding stands in turn, from the start.
    pub proof fn lemma_layout(m: Self, b: Seq<u8>, end: int)
        requires
            m.spec_enc() == Ok::<Seq<u8>, SerError>(b),
            end == b.len(),
        ensures
            at(b, 0int, end, spec_u16_to_le_bytes(m.tag)),
            stat_at(b, 0int + (spec_u16_to_le_bytes(m.tag)).len(), end, m.stat@, true),
            0int
                + (spec_u16_to_le_bytes(m.tag)).len()
                + (enc_stat(m.stat@, true)->Ok_0).len() == end,
    {
        broadcast use lemma_cat_assoc;

        lemma_int_bytes();
        assert(b == spec_u16_to_le_bytes(m.tag) + enc_stat(m.stat@, true)->Ok_0);
        assert(b.subrange(0, b.len() as int) =~= b);
        lemma_at_split(b, 0, end, spec_u16_to_le_bytes(m.tag), enc_stat(m.stat@, true)->Ok_0);
    }

    /// Decodes a message body that must hold exactly this message. Where
    /// the body is the encoding of a message, that message is read.
    pub fn decode_body(b: &[u8]) -> (r: Result<Rstat, DeError>)
        requires
            b@.len() <= BODY_LEN_MAX,
        ensures
            b@.len() < 2 ==> r is Err,
            r matches Ok(m) ==> m.spec_enc() == Ok::<Seq<u8>, SerError>(b@),
            forall|m: Rstat|
                #[trigger] m.spec_enc() == Ok::<Seq<u8>, SerError>(b@)
                    ==> (r matches Ok(m2) && m2.same(m)),
    {
        broadcast use lemma_cat_assoc;

        proof {
            lemma_int_bytes();
        }
        let end = b.len();
        let (tag, pos1) = match get_u16(b, 0, end) {
            Ok(x) => x,
            Err(e) => {
                proof {
                    assert forall|m: Rstat|
                        #[trigger] m.spec_enc() == Ok::<Seq<u8>, SerError>(b@) implies false by {
                        Rstat::lemma_layout(m, b@, end as int);
                    }
                }
                return Err(e);
            },
        };
        let (stat, pos2) = match get_stat(b, pos1, end, true) {
            Ok(x) => x,
            Err(e) => {
                proof {
                    assert forall|m: Rstat|
                        #[trigger] m.spec_enc() == Ok::<Seq<u8>, SerError>(b@) implies false by {
                        Rstat::lemma_layout(m, b@, end as int);
                    }
                }
                return Err(e);
            },
        };
        if pos2 != end {
            proof {
                assert forall|m: Rstat|
                    #[trigger] m.spec_enc() == Ok::<Seq<u8>, SerError>(b@) implies false by {
                    Rstat::lemma_layout(m, b@, end as int);
                }
            }
            return Err(DeError::TrailingBytes);
        }
        let m2 = Rstat { tag, stat };
        proof {
            lemma_split(b@, 0, pos1 as int, pos2 as int);
            assert(b@.subrange(0, pos2 as int) =~= b@);
            assert forall|m: Rstat|
                #[trigger] m.spec_enc() == Ok::<Seq<u8>, SerError>(b@) implies m2.same(m) by {
                Rstat::lemma_layout(m, b@, end as int);
            }
        }
        Ok(m2)
    }
}

impl Twstat {
    /// The message body on the wire, or the first field that cannot be encoded.
    pub open spec fn spec_enc(self) -> Result<Seq<u8>, SerError> {
        cat(
            Ok(spec_u16_to_le_bytes(self.tag) + spec_u32_to_le_bytes(self.fid)),
            enc_stat(self.stat@, true),
        )
    }

    /// Appends the message body to `buf`.
    pub fn encode_into(&self, buf: &mut Vec<u8>) -> (r: Result<(), SerError>)
        ensures
            appended(r, old(buf)@, final(buf)@, self.spec_enc()),
    {
        broadcast use lemma_cat_assoc;

        proof {
            lemma_int_bytes();
        }
        let m = self;
        put_u16(buf, m.tag);
        put_u32(buf, m.fid);
        put_stat(buf, &m.stat, true)?;
        Ok(())
    }

    /// The size of the message body, computed without encoding it.
    pub fn body_size(&self) -> (r: Result<u64, SerError>)
        ensures
            sized(r, self.spec_enc()),
    {
        proof {
            lemma_int_bytes();
        }
        let m = self;
        let s0 = size_stat(&m.stat, true)?;
        Ok(2 + 4 + s0)
    }

    /// The two messages hold the same values.
    pub open spec fn same(self, o: Self) -> bool {
        self.tag == o.tag
            && self.fid == o.fid
            && self.stat@ == o.stat@
    }

    /// Where the message's encoding is the whole of `b`, each field's
    /// encoding stands in turn, from the start.
    pub proof fn lemma_layout(m: Self, b: Seq<u8>, end: int)
        requires
            m.spec_enc() == Ok::<Seq<u8>, SerError>(b),
            end == b.len(),
        ensures
            at(b, 0int, end, spec_u16_to_le_bytes(m.tag)),
            at(b, 0int + (spec_u16_to_le_bytes(m.tag)).len(), end, spec_u32_to_le_bytes(m.fid)),
            stat_at(
                b,
                0int + (spec_u16_to_le_bytes(m.tag)).len() + (spec_u32_to_le_bytes(m.fid)).len(),
                end,
                m.stat@,
                true,
            ),
            0int
                + (spec_u16_to_le_bytes(m.tag)).len()
                + (spec_u32_to_le_bytes(m.fid)).len()
                + (enc_stat(m.stat@, true)->Ok_0).len() == end,
    {
        broadcast use lemma_cat_assoc;

        lemma_int_bytes();
        assert(
            b == spec_u16_to_le_bytes(m.tag)
                + spec_u32_to_le_bytes(m.fid)
                + enc_stat(m.stat@, true)->Ok_0
        );
        assert(b.subrange(0, b.len() as int) =~= b);
        lemma_at_split(
            b,
            0,
            end,
            spec_u16_to_le_bytes(m.tag) + spec_u32_to_le_bytes(m.fid),
            enc_stat(m.stat@, true)->Ok_0,
        );
        lemma_at_split(b, 0, end, spec_u16_to_le_bytes(m.tag), spec_u32_to_le_bytes(m.fid));
    }

    /// Decodes a message body that must hold exactly this message. Where
    /// the body is the encoding of a message, that message is read.
    pub fn decode_body(b: &[u8]) -> (r: Result<Twstat, DeError>)
        requires
            b@.len() <= BODY_LEN_MAX,
        ensures
            b@.len() < 2 ==> r is Err,
            r matches Ok(m) ==> m.spec_enc() == Ok::<Seq<u8>, SerError>(b@),
            forall|m: Twstat|
                #[trigger] m.spec_enc() == Ok::<Seq<u8>, SerError>(b@)
                    ==> (r matches Ok(m2) && m2.same(m)),
    {
        broadcast use lemma_cat_assoc;

        proof {
            lemma_int_bytes();
        }
        let end = b.len();
        let (tag, pos1) = match get_u16(b, 0, end) {
            Ok(x) => x,
            Err(e) => {
                proof {
                    assert forall|m: Twstat|
                        #[trigger] m.spec_enc() == Ok::<Seq<u8>, SerError>(b@) implies false by {
                        Twstat::lemma_layout(m, b@, end as int);
                    }
                }
                return Err(e);
            },
        };
        let (fid, pos2) = match get_u32(b, pos1, end) {
            Ok(x) => x,
            Err(e) => {
                proof {
                    assert forall|m: Twstat|
                        #[trigger] m.spec_enc() == Ok::<Seq<u8>, SerError>(b@) implies false by {
                        Twstat::lemma_layout(m, b@, end as int);
                    }
                }
                return Err(e);
            },
        };
        let (stat, pos3) = match get_stat(b, pos2, end, true) {
            Ok(x) => x,
            Err(e) => {
                proof {
                    assert forall|m: Twstat|
                        #[trigger] m.spec_enc() == Ok::<Seq<u8>, SerError>(b@) implies false by {
                        Twstat::lemma_layout(m, b@, end as int);
                    }
                }
                return Err(e);
            },
        };
        if pos3 != end {
            proof {
                assert forall|m: Twstat|
                    #[trigger] m.spec_enc() == Ok::<Seq<u8>, SerError>(b@) implies false by {
                    Twstat::lemma_layout(m, b@, end as int);
                }
            }
            return Err(DeError::TrailingBytes);
        }
        let m2 = Twstat { tag, fid, stat };
        proof {
            lemma_split(b@, 0, pos1 as int, pos2 as int);
            lemma_split(b@, 0, pos2 as int, pos3 as int);
            assert(b@.subrange(0, pos3 as int) =~= b@);
            assert forall|m: Twstat|
                #[trigger] m.spec_enc() == Ok::<Seq<u8>, SerError>(b@) implies m2.same(m) by {
                Twstat::lemma_layout(m, b@, end as int);
            }
        }
        Ok(m2)
    }
}

impl Rwstat {
    /// The message body on the wire, or the first field that cannot be encoded.
    pub open spec fn spec_enc(self) -> Result<Seq<u8>, SerError> {
        Ok(spec_u16_to_le_bytes(self.tag))
    }

    /// Appends the message body to `buf`.
    pub fn encode_into(&self, buf: &mut Vec<u8>) -> (r: Result<(), SerError>)
        ensures
            appended(r, old(buf)@, final(buf)@, self.spec_enc()),
    {
        broadcast use lemma_cat_assoc;

        proof {
            lemma_int_bytes();
        }
        let m = self;
        put_u16(buf, m.tag);
        Ok(())
    }

    /// The size of the message body, computed without encoding it.
    pub fn body_size(&self) -> (r: Result<u64, SerError>)
        ensures
            sized(r, self.spec_enc()),
    {
        proof {
            lemma_int_bytes();
        }
        let m = self;
        Ok(2)
    }

    /// The two messages hold the same values.
    pub open spec fn same(self, o: Self) -> bool {
        self.tag == o.tag
    }

    /// Where the message's encoding is the whole of `b`, each field's
    /// encoding stands in turn, from the start.
    pub proof fn lemma_layout(m: Self, b: Seq<u8>, end: int)
        requires
            m.spec_enc() == Ok::<Seq<u8>, SerError>(b),
            end == b.len(),
        ensures
            at(b, 0int, end, spec_u16_to_le_bytes(m.tag)),
            0int + (spec_u16_to_le_bytes(m.tag)).len() == end,
    {
        broadcast use lemma_cat_assoc;

        lemma_int_bytes();
        assert(b == spec_u16_to_le_bytes(m.tag));
        assert(b.subrange(0, b.len() as int) =~= b);
    }

    /// Decodes a message body that must hold exactly this message. Where
    /// the body is the encoding of a message, that message is read.
    pub fn decode_body(b: &[u8]) -> (r: Result<Rwstat, DeError>)
        requires
            b@.len() <= BODY_LEN_MAX,
        ensures
            b@.len() < 2 ==> r is Err,
            r matches Ok(m) ==> m.spec_enc() == Ok::<Seq<u8>, SerError>(b@),
            forall|m: Rwstat|
                #[trigger] m.spec_enc() == Ok::<Seq<u8>, SerError>(b@)
                    ==> (r matches Ok(m2) && m2.same(m)),
    {
        broadcast use lemma_cat_assoc;

        proof {
            lemma_int_bytes();
        }
        let end = b.len();
        let (tag, pos1) = match get_u16(b, 0, end) {
            Ok(x) => x,
            Err(e) => {
                proof {
                    assert forall|m: Rwstat|
                        #[trigger] m.spec_enc() == Ok::<Seq<u8>, SerError>(b@) implies false by {
                        Rwstat::lemma_layout(m, b@, end as int);
                    }
                }
                return Err(e);
            },
        };
        if pos1 != end {
            proof {
                assert forall|m: Rwstat|
                    #[trigger] m.spec_enc() == Ok::<Seq<u8>, SerError>(b@) implies false by {
                    Rwstat::lemma_layout(m, b@, end as int);
                }
            }
            return Err(DeError::TrailingBytes);
        }
        let m2 = Rwstat { tag };
        proof {
            assert(b@.subrange(0, pos1 as int) =~= b@);
            assert forall|m: Rwstat|
                #[trigger] m.spec_enc() == Ok::<Seq<u8>, SerError>(b@) implies m2.same(m) by {
                Rwstat::lemma_layout(m, b@, end as int);
            }
        }
        Ok(m2)
    }
}

/// The type byte that every message of a kind carries.
pub trait ConstMessageTypeId {
    const MSG_TYPE_ID: u8;
}

/// The type byte of a message.
pub trait MessageTypeId {
    spec fn spec_msg_type_id(&self) -> u8;

    fn msg_type_id(&self) -> (r: u8)
        ensures
            r == self.spec_msg_type_id(),
    ;
}

impl ConstMessageTypeId for Tversion {
    const MSG_TYPE_ID: u8 = TVERSION;
}

impl MessageTypeId for Tversion {
    open spec fn spec_msg_type_id(&self) -> u8 {
        TVERSION
    }

    fn msg_type_id(&self) -> (r: u8) {
        TVERSION
    }
}

impl ConstMessageTypeId for Rversion {
    const MSG_TYPE_ID: u8 = RVERSION;
}

impl MessageTypeId for Rversion {
    open spec fn spec_msg_type_id(&self) -> u8 {
        RVERSION
    }

    fn msg_type_id(&self) -> (r: u8) {
        RVERSION
    }
}

impl ConstMessageTypeId for Tauth {
    const MSG_TYPE_ID: u8 = TAUTH;
}

impl MessageTypeId for Tauth {
    open spec fn spec_msg_type_id(&self) -> u8 {
        TAUTH
    }

    fn msg_type_id(&self) -> (r: u8) {
        TAUTH
    }
}

impl ConstMessageTypeId for Rauth {
    const MSG_TYPE_ID: u8 = RAUTH;
}

impl MessageTypeId for Rauth {
    open spec fn spec_msg_type_id(&self) -> u8 {
        RAUTH
    }

    fn msg_type_id(&self) -> (r: u8) {
        RAUTH
    }
}

impl ConstMessageTypeId for Tattach {
    const MSG_TYPE_ID: u8 = TATTACH;
}

impl MessageTypeId for Tattach {
    open spec fn spec_msg_type_id(&self) -> u8 {
        TATTACH
    }

    fn msg_type_id(&self) -> (r: u8) {
        TATTACH
    }
}

impl ConstMessageTypeId for Rattach {
    const MSG_TYPE_ID: u8 = RATTACH;
}

impl MessageTypeId for Rattach {
    open spec fn spec_msg_type_id(&self) -> u8 {
        RATTACH
    }

    fn msg_type_id(&self) -> (r: u8) {
        RATTACH
    }
}

impl ConstMessageTypeId for Rerror {
    const MSG_TYPE_ID: u8 = RERROR;
}

impl MessageTypeId for Rerror {
    open spec fn spec_msg_type_id(&self) -> u8 {
        RERROR
    }

    fn msg_type_id(&self) -> (r: u8) {
        RERROR
    }
}

impl ConstMessageTypeId for Tflush {
    const MSG_TYPE_ID: u8 = TFLUSH;
}

impl MessageTypeId for Tflush {
    open spec fn spec_msg_type_id(&self) -> u8 {
        TFLUSH
    }

    fn msg_type_id(&self) -> (r: u8) {
        TFLUSH
    }
}

impl ConstMessageTypeId for Rflush {
    const MSG_TYPE_ID: u8 = RFLUSH;
}

impl MessageTypeId for Rflush {
    open spec fn spec_msg_type_id(&self) -> u8 {
        RFLUSH
    }

    fn msg_type_id(&self) -> (r: u8) {
        RFLUSH
    }
}

impl ConstMessageTypeId for Twalk {
    const MSG_TYPE_ID: u8 = TWALK;
}

impl MessageTypeId for Twalk {
    open spec fn spec_msg_type_id(&self) -> u8 {
        TWALK
    }

    fn msg_type_id(&self) -> (r: u8) {
        TWALK
    }
}

impl ConstMessageTypeId for Rwalk {
    const MSG_TYPE_ID: u8 = RWALK;
}

impl MessageTypeId for Rwalk {
    open spec fn spec_msg_type_id(&self) -> u8 {
        RWALK
    }

    fn msg_type_id(&self) -> (r: u8) {
        RWALK
    }
}

impl ConstMessageTypeId for Topen {
    const MSG_TYPE_ID: u8 = TOPEN;
}

impl MessageTypeId for Topen {
    open spec fn spec_msg_type_id(&self) -> u8 {
        TOPEN
    }

    fn msg_type_id(&self) -> (r: u8) {
        TOPEN
    }
}

impl ConstMessageTypeId for Ropen {
    const MSG_TYPE_ID: u8 = ROPEN;
}

impl MessageTypeId for Ropen {
    open spec fn spec_msg_type_id(&self) -> u8 {
        ROPEN
    }

    fn msg_type_id(&self) -> (r: u8) {
        ROPEN
    }
}

impl ConstMessageTypeId for Tcreate {
    const MSG_TYPE_ID: u8 = TCREATE;
}

impl MessageTypeId for Tcreate {
    open spec fn spec_msg_type_id(&self) -> u8 {
        TCREATE
    }

    fn msg_type_id(&self) -> (r: u8) {
        TCREATE
    }
}

impl ConstMessageTypeId for Rcreate {
    const MSG_TYPE_ID: u8 = RCREATE;
}

impl MessageTypeId for Rcreate {
    open spec fn spec_msg_type_id(&self) -> u8 {
        RCREATE
    }

    fn msg_type_id(&self) -> (r: u8) {
        RCREATE
    }
}

impl ConstMessageTypeId for Tread {
    const MSG_TYPE_ID: u8 = TREAD;
}

impl MessageTypeId for Tread {
    open spec fn spec_msg_type_id(&self) -> u8 {
        TREAD
    }

    fn msg_type_id(&self) -> (r: u8) {
        TREAD
    }
}

impl ConstMessageTypeId for Rread {
    const MSG_TYPE_ID: u8 = RREAD;
}

impl MessageTypeId for Rread {
    open spec fn spec_msg_type_id(&self) -> u8 {
        RREAD
    }

    fn msg_type_id(&self) -> (r: u8) {
        RREAD
    }
}

impl ConstMessageTypeId for Twrite {
    const MSG_TYPE_ID: u8 = TWRITE;
}

impl MessageTypeId for Twrite {
    open spec fn spec_msg_type_id(&self) -> u8 {
        TWRITE
    }

    fn msg_type_id(&self) -> (r: u8) {
        TWRITE
    }
}

impl ConstMessageTypeId for Rwrite {
    const MSG_TYPE_ID: u8 = RWRITE;
}

impl MessageTypeId for Rwrite {
    open spec fn spec_msg_type_id(&self) -> u8 {
        RWRITE
    }

    fn msg_type_id(&self) -> (r: u8) {
        RWRITE
    }
}

impl ConstMessageTypeId for Tclunk {
    const MSG_TYPE_ID: u8 = TCLUNK;
}

impl MessageTypeId for Tclunk {
    open spec fn spec_msg_type_id(&self) -> u8 {
        TCLUNK
    }

    fn msg_type_id(&self) -> (r: u8) {
        TCLUNK
    }
}

impl ConstMessageTypeId for Rclunk {
    const MSG_TYPE_ID: u8 = RCLUNK;
}

impl MessageTypeId for Rclunk {
    open spec fn spec_msg_type_id(&self) -> u8 {
        RCLUNK
    }

    fn msg_type_id(&self) -> (r: u8) {
        RCLUNK
    }
}

impl ConstMessageTypeId for Tremove {
    const MSG_TYPE_ID: u8 = TREMOVE;
}

impl MessageTypeId for Tremove {
    open spec fn spec_msg_type_id(&self) -> u8 {
        TREMOVE
    }

    fn msg_type_id(&self) -> (r: u8) {
        TREMOVE
    }
}

impl ConstMessageTypeId for Rremove {
    const MSG_TYPE_ID: u8 = RREMOVE;
}

impl MessageTypeId for Rremove {
    open spec fn spec_msg_type_id(&self) -> u8 {
        RREMOVE
    }

    fn msg_type_id(&self) -> (r: u8) {
        RREMOVE
    }
}

impl ConstMessageTypeId for Tstat {
    const MSG_TYPE_ID: u8 = TSTAT;
}

impl MessageTypeId for Tstat {
    open spec fn spec_msg_type_id(&self) -> u8 {
        TSTAT
    }

    fn msg_type_id(&self) -> (r: u8) {
        TSTAT
    }
}

impl ConstMessageTypeId for Rstat {
    const MSG_TYPE_ID: u8 = RSTAT;
}

impl MessageTypeId for Rstat {
    open spec fn spec_msg_type_id(&self) -> u8 {
        RSTAT
    }

    fn msg_type_id(&self) -> (r: u8) {
        RSTAT
    }
}

impl ConstMessageTypeId for Twstat {
    const MSG_TYPE_ID: u8 = TWSTAT;
}

impl MessageTypeId for Twstat {
    open spec fn spec_msg_type_id(&self) -> u8 {
        TWSTAT
    }

    fn msg_type_id(&self) -> (r: u8) {
        TWSTAT
    }
}

impl ConstMessageTypeId for Rwstat {
    const MSG_TYPE_ID: u8 = RWSTAT;
}

impl MessageTypeId for Rwstat {
    open spec fn spec_msg_type_id(&self) -> u8 {
        RWSTAT
    }

    fn msg_type_id(&self) -> (r: u8) {
        RWSTAT
    }
}

/// A message body on the wire: its fields in order, or the first field
/// that cannot be encoded.
pub open spec fn enc_body(f: Fcall) -> Result<Seq<u8>, SerError> {
    match f {
        Fcall::Tversion(m) => m.spec_enc(),
        Fcall::Rversion(m) => m.spec_enc(),
        Fcall::Tauth(m) => m.spec_enc(),
        Fcall::Rauth(m) => m.spec_enc(),
        Fcall::Tattach(m) => m.spec_enc(),
        Fcall::Rattach(m) => m.spec_enc(),
        Fcall::Rerror(m) => m.spec_enc(),
        Fcall::Tflush(m) => m.spec_enc(),
        Fcall::Rflush(m) => m.spec_enc(),
        Fcall::Twalk(m) => m.spec_enc(),
        Fcall::Rwalk(m) => m.spec_enc(),
        Fcall::Topen(m) => m.spec_enc(),
        Fcall::Ropen(m) => m.spec_enc(),
        Fcall::Tcreate(m) => m.spec_enc(),
        Fcall::Rcreate(m) => m.spec_enc(),
        Fcall::Tread(m) => m.spec_enc(),
        Fcall::Rread(m) => m.spec_enc(),
        Fcall::Twrite(m) => m.spec_enc(),
        Fcall::Rwrite(m) => m.spec_enc(),
        Fcall::Tclunk(m) => m.spec_enc(),
        Fcall::Rclunk(m) => m.spec_enc(),
        Fcall::Tremove(m) => m.spec_enc(),
        Fcall::Rremove(m) => m.spec_enc(),
        Fcall::Tstat(m) => m.spec_enc(),
        Fcall::Rstat(m) => m.spec_enc(),
        Fcall::Twstat(m) => m.spec_enc(),
        Fcall::Rwstat(m) => m.spec_enc(),
    }
}

/// A message body, refused as a whole when the message it makes would not
/// fit a `u32` size.
pub open spec fn enc_message(f: Fcall) -> Result<Seq<u8>, SerError> {
    match enc_body(f) {
        Ok(b) => if b.len() > BODY_LEN_MAX {
            Err(SerError::TooBig)
        } else {
            Ok(b)
        },
        Err(e) => Err(e),
    }
}

pub open spec fn is_known_type(t: u8) -> bool {
    100 <= t <= 127 && t != 106
}

/// The type bytes of the requests a server answers.
pub open spec fn is_request_type(t: u8) -> bool {
    t == TVERSION || t == TAUTH || t == TATTACH || t == TFLUSH || t == TWALK || t == TOPEN || t
        == TCREATE || t == TREAD || t == TWRITE || t == TCLUNK || t == TREMOVE || t == TSTAT || t
        == TWSTAT
}

impl Fcall {
    pub open spec fn spec_type_id(self) -> u8 {
        match self {
            Fcall::Tversion(_) => TVERSION,
            Fcall::Rversion(_) => RVERSION,
            Fcall::Tauth(_) => TAUTH,
            Fcall::Rauth(_) => RAUTH,
            Fcall::Tattach(_) => TATTACH,
            Fcall::Rattach(_) => RATTACH,
            Fcall::Rerror(_) => RERROR,
            Fcall::Tflush(_) => TFLUSH,
            Fcall::Rflush(_) => RFLUSH,
            Fcall::Twalk(_) => TWALK,
            Fcall::Rwalk(_) => RWALK,
            Fcall::Topen(_) => TOPEN,
            Fcall::Ropen(_) => ROPEN,
            Fcall::Tcreate(_) => TCREATE,
            Fcall::Rcreate(_) => RCREATE,
            Fcall::Tread(_) => TREAD,
            Fcall::Rread(_) => RREAD,
            Fcall::Twrite(_) => TWRITE,
            Fcall::Rwrite(_) => RWRITE,
            Fcall::Tclunk(_) => TCLUNK,
            Fcall::Rclunk(_) => RCLUNK,
            Fcall::Tremove(_) => TREMOVE,
            Fcall::Rremove(_) => RREMOVE,
            Fcall::Tstat(_) => TSTAT,
            Fcall::Rstat(_) => RSTAT,
            Fcall::Twstat(_) => TWSTAT,
            Fcall::Rwstat(_) => RWSTAT,
        }
    }

    pub open spec fn spec_tag(self) -> u16 {
        match self {
            Fcall::Tversion(m) => m.tag,
            Fcall::Rversion(m) => m.tag,
            Fcall::Tauth(m) => m.tag,
            Fcall::Rauth(m) => m.tag,
            Fcall::Tattach(m) => m.tag,
            Fcall::Rattach(m) => m.tag,
            Fcall::Rerror(m) => m.tag,
            Fcall::Tflush(m) => m.tag,
            Fcall::Rflush(m) => m.tag,
            Fcall::Twalk(m) => m.tag,
            Fcall::Rwalk(m) => m.tag,
            Fcall::Topen(m) => m.tag,
            Fcall::Ropen(m) => m.tag,
            Fcall::Tcreate(m) => m.tag,
            Fcall::Rcreate(m) => m.tag,
            Fcall::Tread(m) => m.tag,
            Fcall::Rread(m) => m.tag,
            Fcall::Twrite(m) => m.tag,
            Fcall::Rwrite(m) => m.tag,
            Fcall::Tclunk(m) => m.tag,
            Fcall::Rclunk(m) => m.tag,
            Fcall::Tremove(m) => m.tag,
            Fcall::Rremove(m) => m.tag,
            Fcall::Tstat(m) => m.tag,
            Fcall::Rstat(m) => m.tag,
            Fcall::Twstat(m) => m.tag,
            Fcall::Rwstat(m) => m.tag,
        }
    }

    /// The message's type byte.
    pub fn msg_type_id(&self) -> (r: u8)
        ensures
            r == self.spec_type_id(),
            is_known_type(r),
    {
        match self {
            Fcall::Tversion(_) => TVERSION,
            Fcall::Rversion(_) => RVERSION,
            Fcall::Tauth(_) => TAUTH,
            Fcall::Rauth(_) => RAUTH,
            Fcall::Tattach(_) => TATTACH,
            Fcall::Rattach(_) => RATTACH,
            Fcall::Rerror(_) => RERROR,
            Fcall::Tflush(_) => TFLUSH,
            Fcall::Rflush(_) => RFLUSH,
            Fcall::Twalk(_) => TWALK,
            Fcall::Rwalk(_) => RWALK,
            Fcall::Topen(_) => TOPEN,
            Fcall::Ropen(_) => ROPEN,
            Fcall::Tcreate(_) => TCREATE,
            Fcall::Rcreate(_) => RCREATE,
            Fcall::Tread(_) => TREAD,
            Fcall::Rread(_) => RREAD,
            Fcall::Twrite(_) => TWRITE,
            Fcall::Rwrite(_) => RWRITE,
            Fcall::Tclunk(_) => TCLUNK,
            Fcall::Rclunk(_) => RCLUNK,
            Fcall::Tremove(_) => TREMOVE,
            Fcall::Rremove(_) => RREMOVE,
            Fcall::Tstat(_) => TSTAT,
            Fcall::Rstat(_) => RSTAT,
            Fcall::Twstat(_) => TWSTAT,
            Fcall::Rwstat(_) => RWSTAT,
        }
    }

    /// The message's tag.
    pub fn tag(&self) -> (r: u16)
        ensures
            r == self.spec_tag(),
    {
        match self {
            Fcall::Tversion(m) => m.tag,
            Fcall::Rversion(m) => m.tag,
            Fcall::Tauth(m) => m.tag,
            Fcall::Rauth(m) => m.tag,
            Fcall::Tattach(m) => m.tag,
            Fcall::Rattach(m) => m.tag,
            Fcall::Rerror(m) => m.tag,
            Fcall::Tflush(m) => m.tag,
            Fcall::Rflush(m) => m.tag,
            Fcall::Twalk(m) => m.tag,
            Fcall::Rwalk(m) => m.tag,
            Fcall::Topen(m) => m.tag,
            Fcall::Ropen(m) => m.tag,
            Fcall::Tcreate(m) => m.tag,
            Fcall::Rcreate(m) => m.tag,
            Fcall::Tread(m) => m.tag,
            Fcall::Rread(m) => m.tag,
            Fcall::Twrite(m) => m.tag,
            Fcall::Rwrite(m) => m.tag,
            Fcall::Tclunk(m) => m.tag,
            Fcall::Rclunk(m) => m.tag,
            Fcall::Tremove(m) => m.tag,
            Fcall::Rremove(m) => m.tag,
            Fcall::Tstat(m) => m.tag,
            Fcall::Rstat(m) => m.tag,
            Fcall::Twstat(m) => m.tag,
            Fcall::Rwstat(m) => m.tag,
        }
    }

    /// Appends the message body to `buf`.
    pub fn encode_into(&self, buf: &mut Vec<u8>) -> (r: Result<(), SerError>)
        ensures
            appended(r, old(buf)@, final(buf)@, enc_body(*self)),
    {
        match self {
            Fcall::Tversion(m) => m.encode_into(buf),
            Fcall::Rversion(m) => m.encode_into(buf),
            Fcall::Tauth(m) => m.encode_into(buf),
            Fcall::Rauth(m) => m.encode_into(buf),
            Fcall::Tattach(m) => m.encode_into(buf),
            Fcall::Rattach(m) => m.encode_into(buf),
            Fcall::Rerror(m) => m.encode_into(buf),
            Fcall::Tflush(m) => m.encode_into(buf),
            Fcall::Rflush(m) => m.encode_into(buf),
            Fcall::Twalk(m) => m.encode_into(buf),
            Fcall::Rwalk(m) => m.encode_into(buf),
            Fcall::Topen(m) => m.encode_into(buf),
            Fcall::Ropen(m) => m.encode_into(buf),
            Fcall::Tcreate(m) => m.encode_into(buf),
            Fcall::Rcreate(m) => m.encode_into(buf),
            Fcall::Tread(m) => m.encode_into(buf),
            Fcall::Rread(m) => m.encode_into(buf),
            Fcall::Twrite(m) => m.encode_into(buf),
            Fcall::Rwrite(m) => m.encode_into(buf),
            Fcall::Tclunk(m) => m.encode_into(buf),
            Fcall::Rclunk(m) => m.encode_into(buf),
            Fcall::Tremove(m) => m.encode_into(buf),
            Fcall::Rremove(m) => m.encode_into(buf),
            Fcall::Tstat(m) => m.encode_into(buf),
            Fcall::Rstat(m) => m.encode_into(buf),
            Fcall::Twstat(m) => m.encode_into(buf),
            Fcall::Rwstat(m) => m.encode_into(buf),
        }
    }

    /// The encoded message body, refused where the message would not fit a
    /// `u32` size.
    pub fn encode(&self) -> (r: Result<Vec<u8>, SerError>)
        ensures
            r matches Ok(v) ==> enc_message(*self) == Ok::<Seq<u8>, SerError>(v@),
            r matches Err(e) ==> enc_message(*self) == Err::<Seq<u8>, SerError>(e),
    {
        let mut buf: Vec<u8> = Vec::new();
        self.encode_into(&mut buf)?;
        assert(buf@ =~= Seq::<u8>::empty() + buf@);
        if buf.len() > BODY_LEN_MAX {
            return Err(SerError::TooBig);
        }
        Ok(buf)
    }

    /// The size of the encoded message body, computed without encoding it.
    pub fn size(&self) -> (r: Result<u32, SerError>)
        ensures
            r matches Ok(n) ==> enc_message(*self) matches Ok(b) && n == b.len(),
            r matches Err(e) ==> enc_message(*self) == Err::<Seq<u8>, SerError>(e),
    {
        let n = match self {
            Fcall::Tversion(m) => m.body_size(),
            Fcall::Rversion(m) => m.body_size(),
            Fcall::Tauth(m) => m.body_size(),
            Fcall::Rauth(m) => m.body_size(),
            Fcall::Tattach(m) => m.body_size(),
            Fcall::Rattach(m) => m.body_size(),
            Fcall::Rerror(m) => m.body_size(),
            Fcall::Tflush(m) => m.body_size(),
            Fcall::Rflush(m) => m.body_size(),
            Fcall::Twalk(m) => m.body_size(),
            Fcall::Rwalk(m) => m.body_size(),
            Fcall::Topen(m) => m.body_size(),
            Fcall::Ropen(m) => m.body_size(),
            Fcall::Tcreate(m) => m.body_size(),
            Fcall::Rcreate(m) => m.body_size(),
            Fcall::Tread(m) => m.body_size(),
            Fcall::Rread(m) => m.body_size(),
            Fcall::Twrite(m) => m.body_size(),
            Fcall::Rwrite(m) => m.body_size(),
            Fcall::Tclunk(m) => m.body_size(),
            Fcall::Rclunk(m) => m.body_size(),
            Fcall::Tremove(m) => m.body_size(),
            Fcall::Rremove(m) => m.body_size(),
            Fcall::Tstat(m) => m.body_size(),
            Fcall::Rstat(m) => m.body_size(),
            Fcall::Twstat(m) => m.body_size(),
            Fcall::Rwstat(m) => m.body_size(),
        }?;
        if n > BODY_LEN_MAX as u64 {
            return Err(SerError::TooBig);
        }
        Ok(n as u32)
    }

    /// The two messages are of one kind and hold the same values.
    pub open spec fn same(self, o: Fcall) -> bool {
        match (self, o) {
            (Fcall::Tversion(a), Fcall::Tversion(b)) => a.same(b),
            (Fcall::Rversion(a), Fcall::Rversion(b)) => a.same(b),
            (Fcall::Tauth(a), Fcall::Tauth(b)) => a.same(b),
            (Fcall::Rauth(a), Fcall::Rauth(b)) => a.same(b),
            (Fcall::Tattach(a), Fcall::Tattach(b)) => a.same(b),
            (Fcall::Rattach(a), Fcall::Rattach(b)) => a.same(b),
            (Fcall::Rerror(a), Fcall::Rerror(b)) => a.same(b),
            (Fcall::Tflush(a), Fcall::Tflush(b)) => a.same(b),
            (Fcall::Rflush(a), Fcall::Rflush(b)) => a.same(b),
            (Fcall::Twalk(a), Fcall::Twalk(b)) => a.same(b),
            (Fcall::Rwalk(a), Fcall::Rwalk(b)) => a.same(b),
            (Fcall::Topen(a), Fcall::Topen(b)) => a.same(b),
            (Fcall::Ropen(a), Fcall::Ropen(b)) => a.same(b),
            (Fcall::Tcreate(a), Fcall::Tcreate(b)) => a.same(b),
            (Fcall::Rcreate(a), Fcall::Rcreate(b)) => a.same(b),
            (Fcall::Tread(a), Fcall::Tread(b)) => a.same(b),
            (Fcall::Rread(a), Fcall::Rread(b)) => a.same(b),
            (Fcall::Twrite(a), Fcall::Twrite(b)) => a.same(b),
            (Fcall::Rwrite(a), Fcall::Rwrite(b)) => a.same(b),
            (Fcall::Tclunk(a), Fcall::Tclunk(b)) => a.same(b),
            (Fcall::Rclunk(a), Fcall::Rclunk(b)) => a.same(b),
            (Fcall::Tremove(a), Fcall::Tremove(b)) => a.same(b),
            (Fcall::Rremove(a), Fcall::Rremove(b)) => a.same(b),
            (Fcall::Tstat(a), Fcall::Tstat(b)) => a.same(b),
            (Fcall::Rstat(a), Fcall::Rstat(b)) => a.same(b),
            (Fcall::Twstat(a), Fcall::Twstat(b)) => a.same(b),
            (Fcall::Rwstat(a), Fcall::Rwstat(b)) => a.same(b),
            _ => false,
        }
    }

    /// Decodes a message body of type `mtype`. The body must hold exactly
    /// one message: a field that runs past its end, or bytes left over, are
    /// errors.
    #[verifier::rlimit(40)]
    #[verifier::spinoff_prover]
    pub fn decode(mtype: u8, b: &[u8]) -> (r: Result<Fcall, DeError>)
        ensures
            !is_known_type(mtype) ==> r == Err::<Fcall, DeError>(DeError::UnknownType),
            b@.len() < 2 ==> r is Err,
            r matches Ok(f) ==> f.spec_type_id() == mtype && enc_message(f) == Ok::<
                Seq<u8>,
                SerError,
            >(b@),
            forall|f: Fcall|
                f.spec_type_id() == mtype
                    && #[trigger] enc_message(f) == Ok::<Seq<u8>, SerError>(b@)
                    ==> (r matches Ok(g) && g.same(f)),
            r is Ok <==> exists|f: Fcall|
                f.spec_type_id() == mtype
                    && #[trigger] enc_message(f) == Ok::<Seq<u8>, SerError>(b@),
    {
        if !(100 <= mtype && mtype <= 127 && mtype != 106) {
            return Err(DeError::UnknownType);
        }
        if b.len() > BODY_LEN_MAX {
            return Err(DeError::Oversized);
        }
        match mtype {
            TVERSION => Ok(Fcall::Tversion(Tversion::decode_body(b)?)),
            RVERSION => Ok(Fcall::Rversion(Rversion::decode_body(b)?)),
            TAUTH => Ok(Fcall::Tauth(Tauth::decode_body(b)?)),
            RAUTH => Ok(Fcall::Rauth(Rauth::decode_body(b)?)),
            TATTACH => Ok(Fcall::Tattach(Tattach::decode_body(b)?)),
            RATTACH => Ok(Fcall::Rattach(Rattach::decode_body(b)?)),
            RERROR => Ok(Fcall::Rerror(Rerror::decode_body(b)?)),
            TFLUSH => Ok(Fcall::Tflush(Tflush::decode_body(b)?)),
            RFLUSH => Ok(Fcall::Rflush(Rflush::decode_body(b)?)),
            TWALK => Ok(Fcall::Twalk(Twalk::decode_body(b)?)),
            RWALK => Ok(Fcall::Rwalk(Rwalk::decode_body(b)?)),
            TOPEN => Ok(Fcall::Topen(Topen::decode_body(b)?)),
            ROPEN => Ok(Fcall::Ropen(Ropen::decode_body(b)?)),
            TCREATE => Ok(Fcall::Tcreate(Tcreate::decode_body(b)?)),
            RCREATE => Ok(Fcall::Rcreate(Rcreate::decode_body(b)?)),
            TREAD => Ok(Fcall::Tread(Tread::decode_body(b)?)),
            RREAD => Ok(Fcall::Rread(Rread::decode_body(b)?)),
            TWRITE => Ok(Fcall::Twrite(Twrite::decode_body(b)?)),
            RWRITE => Ok(Fcall::Rwrite(Rwrite::decode_body(b)?)),
            TCLUNK => Ok(Fcall::Tclunk(Tclunk::decode_body(b)?)),
            RCLUNK => Ok(Fcall::Rclunk(Rclunk::decode_body(b)?)),
            TREMOVE => Ok(Fcall::Tremove(Tremove::decode_body(b)?)),
            RREMOVE => Ok(Fcall::Rremove(Rremove::decode_body(b)?)),
            TSTAT => Ok(Fcall::Tstat(Tstat::decode_body(b)?)),
            RSTAT => Ok(Fcall::Rstat(Rstat::decode_body(b)?)),
            TWSTAT => Ok(Fcall::Twstat(Twstat::decode_body(b)?)),
            RWSTAT => Ok(Fcall::Rwstat(Rwstat::decode_body(b)?)),
            _ => Err(DeError::UnknownType),
        }
    }
}

proof fn lemma_qids_len(qs: Seq<Qid>)
    ensures
        crate::codec::qids_body(qs).len() == 13 * qs.len(),
    decreases qs.len(),
{
    lemma_int_bytes();
    if qs.len() > 0 {
        lemma_qids_len(qs.drop_last());
    }
}

/// Every encoded message body starts with the message's tag.
#[verifier::rlimit(40)]
#[verifier::spinoff_prover]
pub proof fn lemma_body_starts_with_tag(f: Fcall)
    ensures
        enc_body(f) matches Ok(b) ==> b.len() >= 2 && b[0] == spec_u16_to_le_bytes(f.spec_tag())[0]
            && b[1] == spec_u16_to_le_bytes(f.spec_tag())[1],
{
    lemma_int_bytes();
    match f {
        Fcall::Tversion(m) => {
        },
        Fcall::Rversion(m) => {
        },
        Fcall::Tauth(m) => {
        },
        Fcall::Rauth(m) => {
        },
        Fcall::Tattach(m) => {
        },
        Fcall::Rattach(m) => {
        },
        Fcall::Rerror(m) => {
        },
        Fcall::Tflush(m) => {
        },
        Fcall::Rflush(m) => {
        },
        Fcall::Twalk(m) => {
        },
        Fcall::Rwalk(m) => {
        },
        Fcall::Topen(m) => {
        },
        Fcall::Ropen(m) => {
        },
        Fcall::Tcreate(m) => {
        },
        Fcall::Rcreate(m) => {
        },
        Fcall::Tread(m) => {
        },
        Fcall::Rread(m) => {
        },
        Fcall::Twrite(m) => {
        },
        Fcall::Rwrite(m) => {
        },
        Fcall::Tclunk(m) => {
        },
        Fcall::Rclunk(m) => {
        },
        Fcall::Tremove(m) => {
        },
        Fcall::Rremove(m) => {
        },
        Fcall::Tstat(m) => {
        },
        Fcall::Rstat(m) => {
        },
        Fcall::Twstat(m) => {
        },
        Fcall::Rwstat(m) => {
        },
    }
}

} // verus!
