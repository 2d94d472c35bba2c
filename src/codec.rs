//! Encoding, sizing and decoding of qids and stat records.
use crate::p2000::{FileMode, FileType, Qid, Stat, StatView};
use crate::wire::{
    appended, enc_data, enc_str, enc_strs, get_str, get_u16, get_u32, get_u64,
    get_u8, lemma_at_split, lemma_int_bytes, put_bytes, at, put_str, put_u16, put_u32, put_u64, put_u8, str_bytes,
    strs_body, utf8_len, views_of, DeError, SerError, BYTES_LEN_MAX, SEQ_LEN_MAX,
    STRING_LEN_MAX,
};
use vstd::bytes::*;
use vstd::prelude::*;

verus! {

/// Largest stat body: its size, and in `Twstat`/`Rstat` that size plus
/// two, must fit in two bytes.
pub const STAT_BODY_MAX: usize = 65533;

/// A qid on the wire: type, version, path (13 bytes).
pub open spec fn qid_bytes(q: Qid) -> Seq<u8> {
    seq![q.file_type.bits] + spec_u32_to_le_bytes(q.version) + spec_u64_to_le_bytes(q.path)
}

/// The elements of a qid sequence, one after the other.
pub open spec fn qids_body(qs: Seq<Qid>) -> Seq<u8>
    decreases qs.len(),
{
    if qs.len() == 0 {
        Seq::empty()
    } else {
        qids_body(qs.drop_last()) + qid_bytes(qs.last())
    }
}

/// A sequence of qids on the wire: two-byte count, then the qids.
pub open spec fn enc_qids(qs: Seq<Qid>) -> Result<Seq<u8>, SerError> {
    if qs.len() > SEQ_LEN_MAX {
        Err(SerError::SeqTooLong)
    } else {
        Ok(spec_u16_to_le_bytes(qs.len() as u16) + qids_body(qs))
    }
}

/// The fixed-width fields of a stat record (39 bytes).
pub open spec fn stat_fixed(s: StatView) -> Seq<u8> {
    spec_u16_to_le_bytes(s.type_) + spec_u32_to_le_bytes(s.dev) + qid_bytes(s.qid)
        + spec_u32_to_le_bytes(s.mode.bits) + spec_u32_to_le_bytes(s.atime)
        + spec_u32_to_le_bytes(s.mtime) + spec_u64_to_le_bytes(s.length)
}

/// A stat record's fields, without any size prefix.
pub open spec fn stat_body(s: StatView) -> Seq<u8> {
    stat_fixed(s) + str_bytes(s.name) + str_bytes(s.uid) + str_bytes(s.gid) + str_bytes(s.muid)
}

pub open spec fn stat_strs_fit(s: StatView) -> bool {
    &&& utf8_len(s.name) <= STRING_LEN_MAX
    &&& utf8_len(s.uid) <= STRING_LEN_MAX
    &&& utf8_len(s.gid) <= STRING_LEN_MAX
    &&& utf8_len(s.muid) <= STRING_LEN_MAX
}

/// A stat record on the wire. Standalone (`double` false, as in directory
/// listings) it carries its body's size first; inside `Twstat` and `Rstat`
/// (`double` true) the body's size plus two comes before that.
pub open spec fn enc_stat(s: StatView, double: bool) -> Result<Seq<u8>, SerError> {
    let body = stat_body(s);
    if !stat_strs_fit(s) {
        Err(SerError::StringTooLong)
    } else if body.len() > STAT_BODY_MAX {
        Err(SerError::TooBig)
    } else if double {
        Ok(spec_u16_to_le_bytes((body.len() + 2) as u16) + spec_u16_to_le_bytes(body.len() as u16)
            + body)
    } else {
        Ok(spec_u16_to_le_bytes(body.len() as u16) + body)
    }
}

/// A standalone stat record starts with its body's size, two bytes fewer
/// than the whole. Inside `Twstat` and `Rstat` the record starts with two
/// sizes: the outer is the inner plus two, and the inner is the body's size.
pub proof fn stat_size_prefixes(s: StatView)
    requires
        enc_stat(s, false) is Ok,
    ensures
        enc_stat(s, true) is Ok,
        ({
            let one = enc_stat(s, false)->Ok_0;
            let two = enc_stat(s, true)->Ok_0;
            let len = stat_body(s).len();
            &&& spec_u16_from_le_bytes(one.subrange(0, 2)) == len
            &&& one.len() == len + 2
            &&& spec_u16_from_le_bytes(two.subrange(0, 2)) == spec_u16_from_le_bytes(
                two.subrange(2, 4),
            ) + 2
            &&& spec_u16_from_le_bytes(two.subrange(2, 4)) == len
            &&& two.len() == len + 4
        }),
{
    lemma_int_bytes();
    let len = stat_body(s).len();
    let one = enc_stat(s, false)->Ok_0;
    let two = enc_stat(s, true)->Ok_0;
    assert(one.subrange(0, 2) =~= spec_u16_to_le_bytes(len as u16));
    assert(two.subrange(0, 2) =~= spec_u16_to_le_bytes((len + 2) as u16));
    assert(two.subrange(2, 4) =~= spec_u16_to_le_bytes(len as u16));
}

/// `r` reports the length of the encoding `enc`, or its failure.
pub open spec fn sized(r: Result<u64, SerError>, enc: Result<Seq<u8>, SerError>) -> bool {
    match enc {
        Ok(b) => r matches Ok(n) && n == b.len(),
        Err(e) => r == Err::<u64, SerError>(e),
    }
}

pub proof fn lemma_split(b: Seq<u8>, p: int, q: int, r: int)
    requires
        0 <= p <= q <= r <= b.len(),
    ensures
        b.subrange(p, r) == b.subrange(p, q) + b.subrange(q, r),
{
    assert(b.subrange(p, r) =~= b.subrange(p, q) + b.subrange(q, r));
}

pub fn put_qid(buf: &mut Vec<u8>, q: &Qid)
    ensures
        final(buf)@ == old(buf)@ + qid_bytes(*q),
{
    put_u8(buf, q.file_type.bits);
    put_u32(buf, q.version);
    put_u64(buf, q.path);
    assert(final(buf)@ =~= old(buf)@ + qid_bytes(*q));
}

/// Appends a counted sequence of qids.
pub fn put_qids(buf: &mut Vec<u8>, qs: &Vec<Qid>) -> (r: Result<(), SerError>)
    ensures
        appended(r, old(buf)@, final(buf)@, enc_qids(qs@)),
        r is Err ==> final(buf)@ == old(buf)@,
{
    if qs.len() > SEQ_LEN_MAX {
        return Err(SerError::SeqTooLong);
    }
    put_u16(buf, qs.len() as u16);
    let ghost start = buf@;
    let mut k: usize = 0;
    while k < qs.len()
        invariant
            k <= qs@.len(),
            buf@ == start + qids_body(qs@.subrange(0, k as int)),
        decreases qs@.len() - k,
    {
        put_qid(buf, &qs[k]);
        assert(qs@.subrange(0, k + 1).drop_last() =~= qs@.subrange(0, k as int));
        k = k + 1;
        assert(buf@ =~= start + qids_body(qs@.subrange(0, k as int)));
    }
    assert(qs@.subrange(0, qs@.len() as int) =~= qs@);
    assert(final(buf)@ =~= old(buf)@ + (spec_u16_to_le_bytes(qs@.len() as u16) + qids_body(qs@)));
    Ok(())
}

/// Appends a stat record, with one size prefix or, when `double`, two.
pub fn put_stat(buf: &mut Vec<u8>, s: &Stat, double: bool) -> (r: Result<(), SerError>)
    ensures
        appended(r, old(buf)@, final(buf)@, enc_stat(s@, double)),
        r is Err ==> final(buf)@ == old(buf)@,
{
    let mut body: Vec<u8> = Vec::new();
    put_u16(&mut body, s.type_);
    put_u32(&mut body, s.dev);
    put_qid(&mut body, &s.qid);
    put_u32(&mut body, s.mode.bits);
    put_u32(&mut body, s.atime);
    put_u32(&mut body, s.mtime);
    put_u64(&mut body, s.length);
    assert(body@ =~= stat_fixed(s@));
    put_str(&mut body, s.name.as_str())?;
    put_str(&mut body, s.uid.as_str())?;
    put_str(&mut body, s.gid.as_str())?;
    put_str(&mut body, s.muid.as_str())?;
    assert(body@ =~= stat_body(s@));
    if body.len() > STAT_BODY_MAX {
        return Err(SerError::TooBig);
    }
    if double {
        put_u16(buf, (body.len() + 2) as u16);
    }
    put_u16(buf, body.len() as u16);
    put_bytes(buf, body.as_slice());
    assert(double ==> final(buf)@ =~= old(buf)@ + (spec_u16_to_le_bytes((body@.len() + 2) as u16)
        + spec_u16_to_le_bytes(body@.len() as u16) + body@));
    assert(!double ==> final(buf)@ =~= old(buf)@ + (spec_u16_to_le_bytes(body@.len() as u16)
        + body@));
    Ok(())
}

/// The encoded size of a string, without encoding it.
pub fn size_str(s: &str) -> (r: Result<u64, SerError>)
    ensures
        sized(r, enc_str(s@)),
{
    proof {
        lemma_int_bytes();
    }
    let n = s.as_bytes().len();
    if n > STRING_LEN_MAX {
        return Err(SerError::StringTooLong);
    }
    Ok(n as u64 + 2)
}

/// The encoded size of a byte array, without encoding it.
pub fn size_data(d: &[u8]) -> (r: Result<u64, SerError>)
    ensures
        sized(r, enc_data(d@)),
{
    proof {
        lemma_int_bytes();
    }
    if d.len() > BYTES_LEN_MAX {
        return Err(SerError::BytesTooLong);
    }
    Ok(d.len() as u64 + 4)
}

/// The encoded size of a string sequence, without encoding it.
pub fn size_strs(ss: &Vec<String>) -> (r: Result<u64, SerError>)
    ensures
        sized(r, enc_strs(views_of(ss@))),
        r matches Ok(n) ==> n <= 2 + 65537 * 65535,
{
    proof {
        lemma_int_bytes();
    }
    let ghost vs = views_of(ss@);
    assert(vs.len() == ss@.len());
    if ss.len() > SEQ_LEN_MAX {
        return Err(SerError::SeqTooLong);
    }
    let mut total: u64 = 2;
    let mut i: usize = 0;
    while i < ss.len()
        invariant
            i <= ss@.len() <= SEQ_LEN_MAX,
            vs == views_of(ss@),
            vs.len() == ss@.len(),
            forall|j: int| 0 <= j < i ==> utf8_len(#[trigger] vs[j]) <= STRING_LEN_MAX,
            total == 2 + strs_body(vs.subrange(0, i as int)).len(),
            total <= 2 + 65537 * i,
        decreases ss@.len() - i,
    {
        assert(vs[i as int] == ss@[i as int]@);
        let n = ss[i].as_str().as_bytes().len();
        if n > STRING_LEN_MAX {
            assert(utf8_len(vs[i as int]) > STRING_LEN_MAX);
            return Err(SerError::StringTooLong);
        }
        assert(vs.subrange(0, i + 1).drop_last() =~= vs.subrange(0, i as int));
        assert(vs.subrange(0, i + 1).last() == vs[i as int]);
        proof {
            lemma_int_bytes();
        }
        assert(str_bytes(vs[i as int]).len() == 2 + n);
        total = total + 2 + n as u64;
        i = i + 1;
    }
    assert(vs.subrange(0, ss@.len() as int) =~= vs);
    assert(total <= 2 + 65537 * 65535) by (nonlinear_arith)
        requires
            total <= 2 + 65537 * i,
            i <= 65535,
    ;
    Ok(total)
}

/// The encoded size of a stat record, without encoding it.
pub fn size_stat(s: &Stat, double: bool) -> (r: Result<u64, SerError>)
    ensures
        sized(r, enc_stat(s@, double)),
{
    proof {
        lemma_int_bytes();
    }
    let a = size_str(s.name.as_str())?;
    let b = size_str(s.uid.as_str())?;
    let c = size_str(s.gid.as_str())?;
    let d = size_str(s.muid.as_str())?;
    let body = 39 + a + b + c + d;
    assert(stat_fixed(s@).len() == 39);
    if body > STAT_BODY_MAX as u64 {
        return Err(SerError::TooBig);
    }
    if double {
        Ok(body + 4)
    } else {
        Ok(body + 2)
    }
}

/// Reads a qid at `p`, within `b[..end]`.
pub fn get_qid(b: &[u8], p: usize, end: usize) -> (r: Result<(Qid, usize), DeError>)
    requires
        p <= end <= b@.len(),
    ensures
        r is Err <==> p + 13 > end,
        r matches Ok((q, e)) ==> e == p + 13 && b@.subrange(p as int, e as int) == qid_bytes(q),
        forall|x: Qid|
            #[trigger] at(b@, p as int, end as int, qid_bytes(x))
                ==> r == Ok::<(Qid, usize), DeError>(
                (x, (p + 13) as usize),
            ),
{
    proof {
        lemma_int_bytes();
        assert forall|x: Qid| #[trigger] at(b@, p as int, end as int, qid_bytes(x)) implies at(
            b@,
            p as int,
            end as int,
            seq![x.file_type.bits],
        ) && at(b@, p + 1, end as int, spec_u32_to_le_bytes(x.version)) && at(
            b@,
            p + 5,
            end as int,
            spec_u64_to_le_bytes(x.path),
        ) by {
            lemma_at_split(
                b@,
                p as int,
                end as int,
                seq![x.file_type.bits] + spec_u32_to_le_bytes(x.version),
                spec_u64_to_le_bytes(x.path),
            );
            lemma_at_split(
                b@,
                p as int,
                end as int,
                seq![x.file_type.bits],
                spec_u32_to_le_bytes(x.version),
            );
        }
    }
    let (t, pos1) = get_u8(b, p, end)?;
    let (version, pos2) = match get_u32(b, pos1, end) {
        Ok(x) => x,
        Err(e) => return Err(e),
    };
    let (path, pos3) = match get_u64(b, pos2, end) {
        Ok(x) => x,
        Err(e) => return Err(e),
    };
    proof {
        lemma_split(b@, p as int, pos1 as int, pos2 as int);
        lemma_split(b@, p as int, pos2 as int, pos3 as int);
    }
    Ok((Qid { file_type: FileType { bits: t }, version, path }, pos3))
}

/// The encoding of the qids `qs` stands at `p`.
pub open spec fn qids_at(b: Seq<u8>, p: int, end: int, qs: Seq<Qid>) -> bool {
    enc_qids(qs) matches Ok(x) && at(b, p, end, x)
}

pub proof fn lemma_qids_body_split(qs: Seq<Qid>, k: int)
    requires
        0 <= k <= qs.len(),
    ensures
        qids_body(qs) == qids_body(qs.subrange(0, k)) + qids_body(qs.subrange(k, qs.len() as int)),
    decreases qs.len(),
{
    if k == qs.len() {
        assert(qs.subrange(0, k) =~= qs);
        assert(qs.subrange(k, qs.len() as int).len() == 0);
        assert(qids_body(qs) =~= qids_body(qs.subrange(0, k)) + Seq::<u8>::empty());
    } else {
        lemma_qids_body_split(qs.drop_last(), k);
        assert(qs.drop_last().subrange(0, k) =~= qs.subrange(0, k));
        assert(qs.subrange(k, qs.len() as int).drop_last() =~= qs.drop_last().subrange(
            k,
            qs.drop_last().len() as int,
        ));
        assert(qs.subrange(k, qs.len() as int).last() == qs.last());
        assert(qids_body(qs) =~= qids_body(qs.subrange(0, k)) + qids_body(
            qs.subrange(k, qs.len() as int),
        ));
    }
}

pub proof fn lemma_qids_body_first(qs: Seq<Qid>)
    requires
        qs.len() > 0,
    ensures
        qids_body(qs) == qid_bytes(qs[0]) + qids_body(qs.drop_first()),
{
    lemma_qids_body_split(qs, 1);
    let one = qs.subrange(0, 1);
    assert(one.drop_last() =~= Seq::<Qid>::empty());
    assert(one.last() == qs[0]);
    assert(qids_body(one.drop_last()) == Seq::<u8>::empty());
    assert(qids_body(one) =~= qid_bytes(qs[0]));
    assert(qs.subrange(1, qs.len() as int) =~= qs.drop_first());
}

/// Reads a counted sequence of qids at `p`, within `b[..end]`. Where the
/// encoding of a qid sequence stands at `p`, that sequence is read.
#[verifier::rlimit(40)]
#[verifier::spinoff_prover]
pub fn get_qids(b: &[u8], p: usize, end: usize) -> (r: Result<(Vec<Qid>, usize), DeError>)
    requires
        p <= end <= b@.len(),
    ensures
        p + 2 > end ==> r is Err,
        r matches Ok((qs, q)) ==> p < q <= end && enc_qids(qs@) == Ok::<Seq<u8>, SerError>(
            b@.subrange(p as int, q as int),
        ),
        forall|xs: Seq<Qid>|
            #[trigger] qids_at(b@, p as int, end as int, xs) ==> (r matches Ok((v, q)) && v@ == xs
                && q == p + 2 + qids_body(xs).len()),
{
    proof {
        lemma_int_bytes();
        assert forall|xs: Seq<Qid>| #[trigger] qids_at(b@, p as int, end as int, xs) implies p + 2
            <= end && spec_u16_from_le_bytes(b@.subrange(p as int, p + 2)) == xs.len() && at(
            b@,
            p + 2,
            end as int,
            qids_body(xs),
        ) by {
            lemma_at_split(
                b@,
                p as int,
                end as int,
                spec_u16_to_le_bytes(xs.len() as u16),
                qids_body(xs),
            );
        }
    }
    let (count, q0) = get_u16(b, p, end)?;
    let mut qs: Vec<Qid> = Vec::new();
    let mut q = q0;
    let mut i: u16 = 0;
    while i < count
        invariant
            p + 2 == q0 <= q <= end <= b@.len(),
            i <= count,
            qs@.len() == i,
            b@.subrange(q0 as int, q as int) == qids_body(qs@),
            count == spec_u16_from_le_bytes(b@.subrange(p as int, p + 2)),
            forall|xs: Seq<Qid>|
                #[trigger] qids_at(b@, p as int, end as int, xs) ==> xs.len() == count && qs@
                    == xs.subrange(0, i as int)
                        && q == q0 + qids_body(xs.subrange(0, i as int)).len()
                    && at(b@, q0 as int, end as int, qids_body(xs)),
        decreases count - i,
    {
        proof {
            assert forall|xs: Seq<Qid>| #[trigger] qids_at(b@, p as int, end as int, xs) implies at(
                b@,
                q as int,
                end as int,
                qid_bytes(xs[i as int]),
            ) by {
                lemma_qids_body_split(xs, i as int);
                lemma_at_split(
                    b@,
                    q0 as int,
                    end as int,
                    qids_body(xs.subrange(0, i as int)),
                    qids_body(xs.subrange(i as int, xs.len() as int)),
                );
                lemma_qids_body_first(xs.subrange(i as int, xs.len() as int));
                lemma_at_split(
                    b@,
                    q as int,
                    end as int,
                    qid_bytes(xs[i as int]),
                    qids_body(xs.subrange(i as int, xs.len() as int).drop_first()),
                );
            }
        }
        let (x, q2) = match get_qid(b, q, end) {
            Ok(v) => v,
            Err(e) => {
                proof {
                    assert forall|xs: Seq<Qid>| #[trigger] qids_at(
                        b@,
                        p as int,
                        end as int,
                        xs,
                    ) implies false by {
                        assert(at(b@, q as int, end as int, qid_bytes(xs[i as int])));
                    }
                }
                return Err(e);
            },
        };
        let ghost old_qs = qs@;
        qs.push(x);
        proof {
            assert(qs@.drop_last() =~= old_qs);
            lemma_split(b@, q0 as int, q as int, q2 as int);
            assert forall|xs: Seq<Qid>| #[trigger] qids_at(b@, p as int, end as int, xs) implies qs@
                == xs.subrange(0, i + 1) && q2 == q0 + qids_body(xs.subrange(0, i + 1)).len() by {
                assert(at(b@, q as int, end as int, qid_bytes(xs[i as int])));
                assert(qs@ =~= xs.subrange(0, i + 1));
                assert(xs.subrange(0, i + 1).drop_last() =~= xs.subrange(0, i as int));
                assert(xs.subrange(0, i + 1).last() == xs[i as int]);
            }
        }
        q = q2;
        i = i + 1;
    }
    proof {
        lemma_split(b@, p as int, q0 as int, q as int);
        assert forall|xs: Seq<Qid>|
            #[trigger] qids_at(b@, p as int, end as int, xs) implies qs@ == xs
            && q == p + 2 + qids_body(xs).len() by {
            assert(xs.subrange(0, i as int) =~= xs);
        }
    }
    Ok((qs, q))
}

/// The encoding of the stat record `sv` stands at `p`, with one size
/// prefix or, when `double`, two.
pub open spec fn stat_at(b: Seq<u8>, p: int, end: int, sv: StatView, double: bool) -> bool {
    enc_stat(sv, double) matches Ok(x) && at(b, p, end, x)
}

pub proof fn lemma_stat_body_at(b: Seq<u8>, start: int, lim: int, sv: StatView)
    requires
        stat_strs_fit(sv),
        at(b, start, lim, stat_body(sv)),
    ensures
        at(b, start, lim, spec_u16_to_le_bytes(sv.type_)),
        at(b, start + 2, lim, spec_u32_to_le_bytes(sv.dev)),
        at(b, start + 6, lim, qid_bytes(sv.qid)),
        at(b, start + 19, lim, spec_u32_to_le_bytes(sv.mode.bits)),
        at(b, start + 23, lim, spec_u32_to_le_bytes(sv.atime)),
        at(b, start + 27, lim, spec_u32_to_le_bytes(sv.mtime)),
        at(b, start + 31, lim, spec_u64_to_le_bytes(sv.length)),
        at(b, start + 39, lim, str_bytes(sv.name)),
        at(b, start + 39 + str_bytes(sv.name).len(), lim, str_bytes(sv.uid)),
        at(
            b,
            start + 39 + str_bytes(sv.name).len() + str_bytes(sv.uid).len(),
            lim,
            str_bytes(sv.gid),
        ),
        at(
            b,
            start + 39 + str_bytes(sv.name).len() + str_bytes(sv.uid).len() + str_bytes(
                sv.gid,
            ).len(),
            lim,
            str_bytes(sv.muid),
        ),
        stat_body(sv).len() == 39 + str_bytes(sv.name).len() + str_bytes(sv.uid).len()
            + str_bytes(sv.gid).len() + str_bytes(sv.muid).len(),
{
    lemma_int_bytes();
    let n = str_bytes(sv.name);
    let u = str_bytes(sv.uid);
    let g = str_bytes(sv.gid);
    let m = str_bytes(sv.muid);
    let f = stat_fixed(sv);
    lemma_at_split(b, start, lim, f + n + u + g, m);
    lemma_at_split(b, start, lim, f + n + u, g);
    lemma_at_split(b, start, lim, f + n, u);
    lemma_at_split(b, start, lim, f, n);
    let t = spec_u16_to_le_bytes(sv.type_);
    let d = spec_u32_to_le_bytes(sv.dev);
    let q = qid_bytes(sv.qid);
    let mo = spec_u32_to_le_bytes(sv.mode.bits);
    let ta = spec_u32_to_le_bytes(sv.atime);
    let mt = spec_u32_to_le_bytes(sv.mtime);
    let l = spec_u64_to_le_bytes(sv.length);
    lemma_at_split(b, start, lim, t + d + q + mo + ta + mt, l);
    lemma_at_split(b, start, lim, t + d + q + mo + ta, mt);
    lemma_at_split(b, start, lim, t + d + q + mo, ta);
    lemma_at_split(b, start, lim, t + d + q, mo);
    lemma_at_split(b, start, lim, t + d, q);
    lemma_at_split(b, start, lim, t, d);
}

/// Reads the fields of a stat record that fills `b[start..lim]` exactly,
/// never reading past `lim`. Where a record's fields fill that range, that
/// record is read.
#[verifier::rlimit(80)]
#[verifier::spinoff_prover]
pub fn get_stat_body(b: &[u8], start: usize, lim: usize) -> (r: Result<Stat, DeError>)
    requires
        start <= lim <= b@.len(),
    ensures
        r matches Ok(s) ==> stat_strs_fit(s@) && stat_body(s@) == b@.subrange(
            start as int,
            lim as int,
        ),
        forall|sv: StatView|
            stat_strs_fit(sv)
                && #[trigger] at(b@, start as int, lim as int, stat_body(sv))
                && start + stat_body(sv).len() == lim
                ==> (r matches Ok(s2) && s2@ == sv),
{
    proof {
        lemma_int_bytes();
    }
    let (type_, a1) = match get_u16(b, start, lim) {
        Ok(x) => x,
        Err(e) => {
            proof {
                assert forall|sv: StatView|
                    stat_strs_fit(sv)
                        && #[trigger] at(b@, start as int, lim as int, stat_body(sv))
                        && start + stat_body(sv).len() == lim
                        implies false by {
                    lemma_stat_body_at(b@, start as int, lim as int, sv);
                }
            }
            return Err(e);
        },
    };
    let (dev, a2) = match get_u32(b, a1, lim) {
        Ok(x) => x,
        Err(e) => {
            proof {
                assert forall|sv: StatView|
                    stat_strs_fit(sv)
                        && #[trigger] at(b@, start as int, lim as int, stat_body(sv))
                        && start + stat_body(sv).len() == lim
                        implies false by {
                    lemma_stat_body_at(b@, start as int, lim as int, sv);
                }
            }
            return Err(e);
        },
    };
    let (qid, a3) = match get_qid(b, a2, lim) {
        Ok(x) => x,
        Err(e) => {
            proof {
                assert forall|sv: StatView|
                    stat_strs_fit(sv)
                        && #[trigger] at(b@, start as int, lim as int, stat_body(sv))
                        && start + stat_body(sv).len() == lim
                        implies false by {
                    lemma_stat_body_at(b@, start as int, lim as int, sv);
                }
            }
            return Err(e);
        },
    };
    let (mode_bits, a4) = match get_u32(b, a3, lim) {
        Ok(x) => x,
        Err(e) => {
            proof {
                assert forall|sv: StatView|
                    stat_strs_fit(sv)
                        && #[trigger] at(b@, start as int, lim as int, stat_body(sv))
                        && start + stat_body(sv).len() == lim
                        implies false by {
                    lemma_stat_body_at(b@, start as int, lim as int, sv);
                }
            }
            return Err(e);
        },
    };
    let (atime, a5) = match get_u32(b, a4, lim) {
        Ok(x) => x,
        Err(e) => {
            proof {
                assert forall|sv: StatView|
                    stat_strs_fit(sv)
                        && #[trigger] at(b@, start as int, lim as int, stat_body(sv))
                        && start + stat_body(sv).len() == lim
                        implies false by {
                    lemma_stat_body_at(b@, start as int, lim as int, sv);
                }
            }
            return Err(e);
        },
    };
    let (mtime, a6) = match get_u32(b, a5, lim) {
        Ok(x) => x,
        Err(e) => {
            proof {
                assert forall|sv: StatView|
                    stat_strs_fit(sv)
                        && #[trigger] at(b@, start as int, lim as int, stat_body(sv))
                        && start + stat_body(sv).len() == lim
                        implies false by {
                    lemma_stat_body_at(b@, start as int, lim as int, sv);
                }
            }
            return Err(e);
        },
    };
    let (length, a7) = match get_u64(b, a6, lim) {
        Ok(x) => x,
        Err(e) => {
            proof {
                assert forall|sv: StatView|
                    stat_strs_fit(sv)
                        && #[trigger] at(b@, start as int, lim as int, stat_body(sv))
                        && start + stat_body(sv).len() == lim
                        implies false by {
                    lemma_stat_body_at(b@, start as int, lim as int, sv);
                }
            }
            return Err(e);
        },
    };
    let (name, a8) = match get_str(b, a7, lim) {
        Ok(x) => x,
        Err(e) => {
            proof {
                assert forall|sv: StatView|
                    stat_strs_fit(sv)
                        && #[trigger] at(b@, start as int, lim as int, stat_body(sv))
                        && start + stat_body(sv).len() == lim
                        implies false by {
                    lemma_stat_body_at(b@, start as int, lim as int, sv);
                }
            }
            return Err(e);
        },
    };
    let (uid, a9) = match get_str(b, a8, lim) {
        Ok(x) => x,
        Err(e) => {
            proof {
                assert forall|sv: StatView|
                    stat_strs_fit(sv)
                        && #[trigger] at(b@, start as int, lim as int, stat_body(sv))
                        && start + stat_body(sv).len() == lim
                        implies false by {
                    lemma_stat_body_at(b@, start as int, lim as int, sv);
                }
            }
            return Err(e);
        },
    };
    let (gid, a10) = match get_str(b, a9, lim) {
        Ok(x) => x,
        Err(e) => {
            proof {
                assert forall|sv: StatView|
                    stat_strs_fit(sv)
                        && #[trigger] at(b@, start as int, lim as int, stat_body(sv))
                        && start + stat_body(sv).len() == lim
                        implies false by {
                    lemma_stat_body_at(b@, start as int, lim as int, sv);
                }
            }
            return Err(e);
        },
    };
    let (muid, a11) = match get_str(b, a10, lim) {
        Ok(x) => x,
        Err(e) => {
            proof {
                assert forall|sv: StatView|
                    stat_strs_fit(sv)
                        && #[trigger] at(b@, start as int, lim as int, stat_body(sv))
                        && start + stat_body(sv).len() == lim
                        implies false by {
                    lemma_stat_body_at(b@, start as int, lim as int, sv);
                }
            }
            return Err(e);
        },
    };
    if a11 != lim {
        proof {
            assert forall|sv: StatView|
                stat_strs_fit(sv)
                    && #[trigger] at(b@, start as int, lim as int, stat_body(sv))
                    && start + stat_body(sv).len() == lim
                    implies false by {
                lemma_stat_body_at(b@, start as int, lim as int, sv);
            }
        }
        return Err(DeError::BadStatSize);
    }
    let s = Stat {
        type_,
        dev,
        qid,
        mode: FileMode { bits: mode_bits },
        atime,
        mtime,
        length,
        name,
        uid,
        gid,
        muid,
    };
    proof {
        let bs = b@;
        lemma_split(bs, start as int, a1 as int, a2 as int);
        lemma_split(bs, start as int, a2 as int, a3 as int);
        lemma_split(bs, start as int, a3 as int, a4 as int);
        lemma_split(bs, start as int, a4 as int, a5 as int);
        lemma_split(bs, start as int, a5 as int, a6 as int);
        lemma_split(bs, start as int, a6 as int, a7 as int);
        lemma_split(bs, start as int, a7 as int, a8 as int);
        lemma_split(bs, start as int, a8 as int, a9 as int);
        lemma_split(bs, start as int, a9 as int, a10 as int);
        lemma_split(bs, start as int, a10 as int, a11 as int);
        assert(bs.subrange(start as int, lim as int) =~= stat_body(s@));
        assert forall|sv: StatView|
            stat_strs_fit(sv)
                && #[trigger] at(b@, start as int, lim as int, stat_body(sv))
                && start + stat_body(sv).len() == lim
                implies s@ == sv by {
            lemma_stat_body_at(b@, start as int, lim as int, sv);
        }
    }
    Ok(s)
}

/// Reads a stat record at `p`, within `b[..end]`, with one size prefix or,
/// when `double`, two. The record's fields must fill its declared size
/// exactly, and are never read past it. Where a record's encoding stands
/// at `p`, that record is read.
#[verifier::rlimit(80)]
#[verifier::spinoff_prover]
pub fn get_stat(b: &[u8], p: usize, end: usize, double: bool) -> (r: Result<(Stat, usize), DeError>)
    requires
        p <= end <= b@.len(),
    ensures
        r matches Ok((s, q)) ==> p < q <= end && enc_stat(s@, double) == Ok::<Seq<u8>, SerError>(
            b@.subrange(p as int, q as int),
        ),
        forall|sv: StatView|
            #[trigger] stat_at(b@, p as int, end as int, sv, double) ==> (r matches Ok((s2, q))
                && s2@ == sv && q == p + enc_stat(sv, double)->Ok_0.len()),
{
    proof {
        lemma_int_bytes();
        assert forall|sv: StatView|
            #[trigger] stat_at(b@, p as int, end as int, sv, double) implies {
            let body = stat_body(sv);
            let q3 = if double {
                p + 4
            } else {
                p + 2
            };
            &&& stat_strs_fit(sv)
            &&& body.len() <= STAT_BODY_MAX
            &&& q3 + body.len() <= end
            &&& at(b@, q3, end as int, body)
            &&& spec_u16_from_le_bytes(b@.subrange(q3 - 2, q3)) == body.len()
            &&& double ==> spec_u16_from_le_bytes(b@.subrange(p as int, p + 2)) == body.len() + 2
            &&& enc_stat(sv, double)->Ok_0.len() == q3 - p + body.len()
        } by {
            let body = stat_body(sv);
            if double {
                lemma_at_split(
                    b@,
                    p as int,
                    end as int,
                    spec_u16_to_le_bytes((body.len() + 2) as u16) + spec_u16_to_le_bytes(
                        body.len() as u16,
                    ),
                    body,
                );
                lemma_at_split(
                    b@,
                    p as int,
                    end as int,
                    spec_u16_to_le_bytes((body.len() + 2) as u16),
                    spec_u16_to_le_bytes(body.len() as u16),
                );
            } else {
                lemma_at_split(
                    b@,
                    p as int,
                    end as int,
                    spec_u16_to_le_bytes(body.len() as u16),
                    body,
                );
            }
        }
    }
    if double {
        let (outer, q1) = match get_u16(b, p, end) {
            Ok(x) => x,
            Err(e) => {
                return Err(e);
            },
        };
        let (inner, q2) = match get_u16(b, q1, end) {
            Ok(x) => x,
            Err(e) => {
                return Err(e);
            },
        };
        if inner as usize > STAT_BODY_MAX || outer as usize != inner as usize + 2 {
            return Err(DeError::BadStatSize);
        }
    }
    let (size, q3) = if double {
        match get_u16(b, p + 2, end) {
            Ok(x) => x,
            Err(e) => {
                return Err(e);
            },
        }
    } else {
        match get_u16(b, p, end) {
            Ok(x) => x,
            Err(e) => {
                return Err(e);
            },
        }
    };
    if size as usize > STAT_BODY_MAX {
        return Err(DeError::BadStatSize);
    }
    if end - q3 < size as usize {
        return Err(DeError::UnexpectedEof);
    }
    let lim = q3 + size as usize;
    let s = match get_stat_body(b, q3, lim) {
        Ok(s) => s,
        Err(e) => {
            proof {
                assert forall|sv: StatView| #[trigger] stat_at(
                    b@,
                    p as int,
                    end as int,
                    sv,
                    double,
                ) implies false by {
                    let body = stat_body(sv);
                    assert(at(b@, q3 as int, lim as int, body));
                }
            }
            return Err(e);
        },
    };
    proof {
        let bs = b@;
        assert(bs.subrange(q3 as int, lim as int) =~= stat_body(s@));
        lemma_split(bs, p as int, q3 as int, lim as int);
        if double {
            lemma_split(bs, p as int, (p + 2) as int, q3 as int);
        }
        assert forall|sv: StatView|
            #[trigger] stat_at(b@, p as int, end as int, sv, double) implies s@
            == sv && lim == p + enc_stat(sv, double)->Ok_0.len() by {
            let body = stat_body(sv);
            assert(at(b@, q3 as int, lim as int, body));
        }
    }
    Ok((s, lim))
}

} // verus!
