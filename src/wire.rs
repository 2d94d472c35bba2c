//! Primitive 9P2000 encodings: little-endian integers, length-prefixed
//! strings, counted byte arrays and counted sequences.
use vstd::bytes::*;
use vstd::prelude::*;
use vstd::slice::*;
use vstd::utf8::*;

verus! {

/// Longest string payload: its length travels in two bytes.
pub const STRING_LEN_MAX: usize = 65535;

/// Most elements a counted sequence may hold.
pub const SEQ_LEN_MAX: usize = 65535;

/// Longest byte array: 2^32 less the 11 bytes of frame size, type, tag
/// and array length that precede it.
pub const BYTES_LEN_MAX: usize = 4294967285;

/// Why a value could not be encoded.
#[derive(Debug, Clone, Copy, PartialEq, Eq, Structural)]
pub enum SerError {
    /// A string longer than 65535 bytes.
    StringTooLong,
    /// A byte array longer than `BYTES_LEN_MAX`.
    BytesTooLong,
    /// A sequence with more than 65535 elements.
    SeqTooLong,
    /// A stat record or a whole message whose size does not fit its prefix.
    TooBig,
}

/// Why bytes could not be decoded.
#[derive(Debug, Clone, Copy, PartialEq, Eq, Structural)]
pub enum DeError {
    /// The input ended before a declared field did.
    UnexpectedEof,
    /// A string was not valid UTF-8.
    Utf8,
    /// A stat record's size prefixes disagree with its contents.
    BadStatSize,
    /// Bytes were left over after the message.
    TrailingBytes,
    /// The message type byte names no known message.
    UnknownType,
    /// The input is longer than any message may be.
    Oversized,
}

impl DeError {
    /// Whether the input simply ran out, which upstream reads as the peer
    /// having gone away.
    pub fn is_eof(&self) -> (r: bool)
        ensures
            r <==> *self == DeError::UnexpectedEof,
    {
        match self {
            DeError::UnexpectedEof => true,
            _ => false,
        }
    }
}

pub open spec fn utf8_len(s: Seq<char>) -> nat {
    encode_utf8(s).len()
}

/// A string on the wire: two-byte length, then its UTF-8 bytes.
pub open spec fn str_bytes(s: Seq<char>) -> Seq<u8> {
    spec_u16_to_le_bytes(utf8_len(s) as u16) + encode_utf8(s)
}

pub open spec fn enc_str(s: Seq<char>) -> Result<Seq<u8>, SerError> {
    if utf8_len(s) <= STRING_LEN_MAX {
        Ok(str_bytes(s))
    } else {
        Err(SerError::StringTooLong)
    }
}

/// A byte array on the wire: four-byte length, then the bytes.
pub open spec fn data_bytes(d: Seq<u8>) -> Seq<u8> {
    spec_u32_to_le_bytes(d.len() as u32) + d
}

pub open spec fn enc_data(d: Seq<u8>) -> Result<Seq<u8>, SerError> {
    if d.len() <= BYTES_LEN_MAX {
        Ok(data_bytes(d))
    } else {
        Err(SerError::BytesTooLong)
    }
}

/// The elements of a string sequence, one after the other.
pub open spec fn strs_body(ss: Seq<Seq<char>>) -> Seq<u8>
    decreases ss.len(),
{
    if ss.len() == 0 {
        Seq::empty()
    } else {
        strs_body(ss.drop_last()) + str_bytes(ss.last())
    }
}

pub open spec fn all_strs_fit(ss: Seq<Seq<char>>) -> bool {
    forall|i: int| 0 <= i < ss.len() ==> utf8_len(#[trigger] ss[i]) <= STRING_LEN_MAX
}

/// A sequence of strings on the wire: two-byte count, then the strings.
pub open spec fn enc_strs(ss: Seq<Seq<char>>) -> Result<Seq<u8>, SerError> {
    if ss.len() > SEQ_LEN_MAX {
        Err(SerError::SeqTooLong)
    } else if !all_strs_fit(ss) {
        Err(SerError::StringTooLong)
    } else {
        Ok(spec_u16_to_le_bytes(ss.len() as u16) + strs_body(ss))
    }
}

/// Two encodings, one after the other; the first failure wins.
pub open spec fn cat(a: Result<Seq<u8>, SerError>, b: Result<Seq<u8>, SerError>) -> Result<
    Seq<u8>,
    SerError,
> {
    match a {
        Err(e) => Err(e),
        Ok(x) => match b {
            Err(e) => Err(e),
            Ok(y) => Ok(x + y),
        },
    }
}

/// `r` is what appending the encoding `enc` to `before` reports, and
/// `after` what it leaves, where it succeeds.
pub open spec fn appended(
    r: Result<(), SerError>,
    before: Seq<u8>,
    after: Seq<u8>,
    enc: Result<Seq<u8>, SerError>,
) -> bool {
    match enc {
        Ok(b) => r is Ok && after == before + b,
        Err(e) => r == Err::<(), SerError>(e),
    }
}

pub proof fn lemma_int_bytes()
    ensures
        forall|x: u16|
            #![trigger spec_u16_to_le_bytes(x)]
            {
                &&& spec_u16_to_le_bytes(x).len() == 2
                &&& spec_u16_from_le_bytes(spec_u16_to_le_bytes(x)) == x
            },
        forall|s: Seq<u8>|
            s.len() == 2 ==> #[trigger] spec_u16_to_le_bytes(spec_u16_from_le_bytes(s)) == s,
        forall|x: u32|
            #![trigger spec_u32_to_le_bytes(x)]
            {
                &&& spec_u32_to_le_bytes(x).len() == 4
                &&& spec_u32_from_le_bytes(spec_u32_to_le_bytes(x)) == x
            },
        forall|s: Seq<u8>|
            s.len() == 4 ==> #[trigger] spec_u32_to_le_bytes(spec_u32_from_le_bytes(s)) == s,
        forall|x: u64|
            #![trigger spec_u64_to_le_bytes(x)]
            {
                &&& spec_u64_to_le_bytes(x).len() == 8
                &&& spec_u64_from_le_bytes(spec_u64_to_le_bytes(x)) == x
            },
        forall|s: Seq<u8>|
            #![trigger spec_u64_to_le_bytes(spec_u64_from_le_bytes(s))]
            s.len() == 8 ==> spec_u64_to_le_bytes(spec_u64_from_le_bytes(s)) == s,
{
    lemma_auto_spec_u16_to_from_le_bytes();
    assert forall|x: u16| #![trigger spec_u16_to_le_bytes(x)]
        spec_u16_to_le_bytes(x).len() == 2
            && spec_u16_from_le_bytes(spec_u16_to_le_bytes(x)) == x by {
        assert(spec_u16_to_le_bytes(x).len() == 2);
    }
    lemma_auto_spec_u32_to_from_le_bytes();
    lemma_auto_spec_u64_to_from_le_bytes();
}

/// Appends `src` to `buf`.
pub fn put_bytes(buf: &mut Vec<u8>, src: &[u8])
    ensures
        final(buf)@ == old(buf)@ + src@,
{
    let ghost start = buf@;
    let mut i: usize = 0;
    while i < src.len()
        invariant
            i <= src@.len(),
            buf@ == start + src@.subrange(0, i as int),
        decreases src@.len() - i,
    {
        buf.push(src[i]);
        i = i + 1;
        assert(buf@ =~= start + src@.subrange(0, i as int));
    }
    assert(src@.subrange(0, src@.len() as int) =~= src@);
}

pub fn put_u8(buf: &mut Vec<u8>, v: u8)
    ensures
        final(buf)@ == old(buf)@ + seq![v],
{
    buf.push(v);
    assert(buf@ =~= old(buf)@ + seq![v]);
}

pub fn put_u16(buf: &mut Vec<u8>, v: u16)
    ensures
        final(buf)@ == old(buf)@ + spec_u16_to_le_bytes(v),
{
    let b = u16_to_le_bytes(v);
    put_bytes(buf, b.as_slice());
}

pub fn put_u32(buf: &mut Vec<u8>, v: u32)
    ensures
        final(buf)@ == old(buf)@ + spec_u32_to_le_bytes(v),
{
    let b = u32_to_le_bytes(v);
    put_bytes(buf, b.as_slice());
}

pub fn put_u64(buf: &mut Vec<u8>, v: u64)
    ensures
        final(buf)@ == old(buf)@ + spec_u64_to_le_bytes(v),
{
    let b = u64_to_le_bytes(v);
    put_bytes(buf, b.as_slice());
}

/// Appends a string, refusing one whose length does not fit two bytes.
pub fn put_str(buf: &mut Vec<u8>, s: &str) -> (r: Result<(), SerError>)
    ensures
        appended(r, old(buf)@, final(buf)@, enc_str(s@)),
        r is Err ==> final(buf)@ == old(buf)@,
{
    let b = s.as_bytes();
    if b.len() > STRING_LEN_MAX {
        return Err(SerError::StringTooLong);
    }
    put_u16(buf, b.len() as u16);
    put_bytes(buf, b);
    assert(final(buf)@ =~= old(buf)@ + str_bytes(s@));
    Ok(())
}

/// Appends a byte array, refusing one longer than `BYTES_LEN_MAX`.
pub fn put_data(buf: &mut Vec<u8>, d: &[u8]) -> (r: Result<(), SerError>)
    ensures
        appended(r, old(buf)@, final(buf)@, enc_data(d@)),
        r is Err ==> final(buf)@ == old(buf)@,
{
    if d.len() > BYTES_LEN_MAX {
        return Err(SerError::BytesTooLong);
    }
    put_u32(buf, d.len() as u32);
    put_bytes(buf, d);
    assert(final(buf)@ =~= old(buf)@ + data_bytes(d@));
    Ok(())
}

pub open spec fn views_of(ss: Seq<String>) -> Seq<Seq<char>> {
    ss.map_values(|s: String| s@)
}

/// Appends a counted sequence of strings.
pub fn put_strs(buf: &mut Vec<u8>, ss: &Vec<String>) -> (r: Result<(), SerError>)
    ensures
        appended(r, old(buf)@, final(buf)@, enc_strs(views_of(ss@))),
        r is Err ==> final(buf)@ == old(buf)@,
{
    let ghost vs = views_of(ss@);
    if ss.len() > SEQ_LEN_MAX {
        return Err(SerError::SeqTooLong);
    }
    let mut i: usize = 0;
    while i < ss.len()
        invariant
            i <= ss@.len() <= SEQ_LEN_MAX,
            vs == views_of(ss@),
            vs.len() == ss@.len(),
            forall|j: int| 0 <= j < i ==> utf8_len(#[trigger] vs[j]) <= STRING_LEN_MAX,
        decreases ss@.len() - i,
    {
        if ss[i].as_str().as_bytes().len() > STRING_LEN_MAX {
            assert(vs[i as int] == ss@[i as int]@);
            assert(utf8_len(vs[i as int]) > STRING_LEN_MAX);
            return Err(SerError::StringTooLong);
        }
        i = i + 1;
    }
    put_u16(buf, ss.len() as u16);
    let ghost start = buf@;
    let mut k: usize = 0;
    while k < ss.len()
        invariant
            k <= ss@.len(),
            vs == views_of(ss@),
            all_strs_fit(vs),
            buf@ == start + strs_body(vs.subrange(0, k as int)),
        decreases ss@.len() - k,
    {
        let ghost before = buf@;
        let rs = put_str(buf, ss[k].as_str());
        assert(utf8_len(vs[k as int]) <= STRING_LEN_MAX);
        assert(vs.subrange(0, k + 1).drop_last() =~= vs.subrange(0, k as int));
        k = k + 1;
        assert(buf@ =~= start + strs_body(vs.subrange(0, k as int)));
    }
    assert(vs.subrange(0, ss@.len() as int) =~= vs);
    assert(final(buf)@ =~= old(buf)@ + (spec_u16_to_le_bytes(ss@.len() as u16) + strs_body(vs)));
    Ok(())
}

/// `x` stands in `b` at `p`, and ends by `end`.
pub open spec fn at(b: Seq<u8>, p: int, end: int, x: Seq<u8>) -> bool {
    0 <= p && p + x.len() <= end && end <= b.len() && b.subrange(p, p + x.len()) == x
}

pub proof fn lemma_at_split(b: Seq<u8>, p: int, end: int, x: Seq<u8>, y: Seq<u8>)
    requires
        at(b, p, end, x + y),
    ensures
        at(b, p, end, x),
        at(b, p + x.len(), end, y),
{
    let whole = b.subrange(p, p + x.len() + y.len());
    assert forall|i: int| 0 <= i < x.len() implies b.subrange(p, p + x.len())[i] == x[i] by {
        assert(whole[i] == (x + y)[i]);
    }
    assert forall|i: int| 0 <= i < y.len() implies b.subrange(
        p + x.len(),
        p + x.len() + y.len(),
    )[i] == y[i] by {
        assert(whole[x.len() + i] == (x + y)[x.len() + i]);
    }
    assert(b.subrange(p, p + x.len()) =~= x);
    assert(b.subrange(p + x.len(), p + x.len() + y.len()) =~= y);
}

/// Reads a little-endian `u16` at `p`, within `b[..end]`.
pub fn get_u16(b: &[u8], p: usize, end: usize) -> (r: Result<(u16, usize), DeError>)
    requires
        p <= end <= b@.len(),
    ensures
        r is Err <==> p + 2 > end,
        r is Err ==> r == Err::<(u16, usize), DeError>(DeError::UnexpectedEof),
        r matches Ok((v, q)) ==> q == p + 2 && b@.subrange(p as int, q as int)
            == spec_u16_to_le_bytes(v)
                && v == spec_u16_from_le_bytes(b@.subrange(p as int, q as int)),
        forall|x: u16|
            #[trigger] at(b@, p as int, end as int, spec_u16_to_le_bytes(x)) ==> r == Ok::<
                (u16, usize),
                DeError,
            >((x, (p + 2) as usize)),
{
    proof {
        lemma_int_bytes();
    }
    if end - p < 2 {
        return Err(DeError::UnexpectedEof);
    }
    let v = u16_from_le_bytes(slice_subrange(b, p, p + 2));
    proof {
        lemma_int_bytes();
    }
    Ok((v, p + 2))
}

/// Reads a little-endian `u32` at `p`, within `b[..end]`.
pub fn get_u32(b: &[u8], p: usize, end: usize) -> (r: Result<(u32, usize), DeError>)
    requires
        p <= end <= b@.len(),
    ensures
        r is Err <==> p + 4 > end,
        r is Err ==> r == Err::<(u32, usize), DeError>(DeError::UnexpectedEof),
        r matches Ok((v, q)) ==> q == p + 4 && b@.subrange(p as int, q as int)
            == spec_u32_to_le_bytes(v)
                && v == spec_u32_from_le_bytes(b@.subrange(p as int, q as int)),
        forall|x: u32|
            #[trigger] at(b@, p as int, end as int, spec_u32_to_le_bytes(x)) ==> r == Ok::<
                (u32, usize),
                DeError,
            >((x, (p + 4) as usize)),
{
    proof {
        lemma_int_bytes();
    }
    if end - p < 4 {
        return Err(DeError::UnexpectedEof);
    }
    let v = u32_from_le_bytes(slice_subrange(b, p, p + 4));
    proof {
        lemma_int_bytes();
    }
    Ok((v, p + 4))
}

/// Reads a little-endian `u64` at `p`, within `b[..end]`.
pub fn get_u64(b: &[u8], p: usize, end: usize) -> (r: Result<(u64, usize), DeError>)
    requires
        p <= end <= b@.len(),
    ensures
        r is Err <==> p + 8 > end,
        r is Err ==> r == Err::<(u64, usize), DeError>(DeError::UnexpectedEof),
        r matches Ok((v, q)) ==> q == p + 8 && b@.subrange(p as int, q as int)
            == spec_u64_to_le_bytes(v),
        forall|x: u64|
            #[trigger] at(b@, p as int, end as int, spec_u64_to_le_bytes(x)) ==> r == Ok::<
                (u64, usize),
                DeError,
            >((x, (p + 8) as usize)),
{
    proof {
        lemma_int_bytes();
    }
    if end - p < 8 {
        return Err(DeError::UnexpectedEof);
    }
    let v = u64_from_le_bytes(slice_subrange(b, p, p + 8));
    proof {
        lemma_int_bytes();
    }
    Ok((v, p + 8))
}

/// Reads one byte at `p`, within `b[..end]`.
pub fn get_u8(b: &[u8], p: usize, end: usize) -> (r: Result<(u8, usize), DeError>)
    requires
        p <= end <= b@.len(),
    ensures
        r is Err <==> p + 1 > end,
        r is Err ==> r == Err::<(u8, usize), DeError>(DeError::UnexpectedEof),
        r matches Ok((v, q)) ==> q == p + 1 && b@.subrange(p as int, q as int) == seq![v],
        forall|x: u8|
            #[trigger] at(b@, p as int, end as int, seq![x]) ==> r == Ok::<(u8, usize), DeError>(
                (x, (p + 1) as usize),
            ),
{
    if end - p < 1 {
        return Err(DeError::UnexpectedEof);
    }
    let v = b[p];
    assert(b@.subrange(p as int, p + 1) =~= seq![v]);
    assert forall|x: u8| #[trigger] at(b@, p as int, end as int, seq![x]) implies x == v by {
        assert(b@.subrange(p as int, p + 1)[0] == seq![x][0]);
    }
    Ok((v, p + 1))
}

/// Relies on `String::from_utf8`: it succeeds exactly on valid UTF-8, and
/// the string it returns holds those bytes.
#[verifier::external_body]
fn string_from_utf8(v: Vec<u8>) -> (r: Option<String>)
    ensures
        r is Some <==> valid_utf8(v@),
        r matches Some(s) ==> encode_utf8(s@) == v@,
{
    String::from_utf8(v).ok()
}

/// The length that the two bytes at `p` declare.
pub open spec fn declared_u16(b: Seq<u8>, p: int) -> int {
    spec_u16_from_le_bytes(b.subrange(p, p + 2)) as int
}

/// The length that the four bytes at `p` declare.
pub open spec fn declared_u32(b: Seq<u8>, p: int) -> int {
    spec_u32_from_le_bytes(b.subrange(p, p + 4)) as int
}

/// Where a string's encoding stands at `p` before `end`, its declared
/// length is its byte length and the bytes it declares end by `end`: a
/// decoder that stops at the declared length never reads past it.
pub proof fn lemma_str_at(b: Seq<u8>, p: int, end: int, s: Seq<char>)
    requires
        utf8_len(s) <= STRING_LEN_MAX,
        at(b, p, end, str_bytes(s)),
    ensures
        p + 2 <= end,
        spec_u16_from_le_bytes(b.subrange(p, p + 2)) == utf8_len(s),
        at(b, p + 2, end, encode_utf8(s)),
        str_bytes(s).len() == 2 + utf8_len(s),
{
    lemma_int_bytes();
    lemma_at_split(b, p, end, spec_u16_to_le_bytes(utf8_len(s) as u16), encode_utf8(s));
}

/// Reads a string at `p`, within `b[..end]`. It never reads past `end`:
/// a declared length that runs past it is an error. Where the encoding of
/// a string stands at `p`, that string is read.
#[verifier::rlimit(40)]
#[verifier::spinoff_prover]
pub fn get_str(b: &[u8], p: usize, end: usize) -> (r: Result<(String, usize), DeError>)
    requires
        p <= end <= b@.len(),
    ensures
        p + 2 > end ==> r == Err::<(String, usize), DeError>(DeError::UnexpectedEof),
        p + 2 <= end && p + 2 + declared_u16(b@, p as int) > end ==> r == Err::<
            (String, usize),
            DeError,
        >(DeError::UnexpectedEof),
        r matches Ok((s, q)) ==> p < q <= end && b@.subrange(p as int, q as int) == str_bytes(s@)
            && utf8_len(s@) <= STRING_LEN_MAX,
        r is Err ==> r == Err::<(String, usize), DeError>(DeError::UnexpectedEof) || r == Err::<
            (String, usize),
            DeError,
        >(DeError::Utf8),
        forall|s: Seq<char>|
            utf8_len(s) <= STRING_LEN_MAX && #[trigger] at(b@, p as int, end as int, str_bytes(s))
                ==> (r matches Ok((s2, q)) && s2@ == s && q == p + str_bytes(s).len()),
{
    proof {
        lemma_int_bytes();
    }
    let (len, q) = match get_u16(b, p, end) {
        Ok(x) => x,
        Err(e) => {
            proof {
                assert forall|s: Seq<char>|
                    utf8_len(s) <= STRING_LEN_MAX && #[trigger] at(
                        b@,
                        p as int,
                        end as int,
                        str_bytes(s),
                    ) implies false by {
                    lemma_str_at(b@, p as int, end as int, s);
                }
            }
            return Err(e);
        },
    };
    let n = len as usize;
    if end - q < n {
        proof {
            assert forall|s: Seq<char>|
                utf8_len(s) <= STRING_LEN_MAX && #[trigger] at(
                    b@,
                    p as int,
                    end as int,
                    str_bytes(s),
                ) implies false by {
                lemma_str_at(b@, p as int, end as int, s);
            }
        }
        return Err(DeError::UnexpectedEof);
    }
    let bytes = slice_to_vec(slice_subrange(b, q, q + n));
    let ghost bv = bytes@;
    match string_from_utf8(bytes) {
        None => {
            proof {
                assert forall|s: Seq<char>|
                    utf8_len(s) <= STRING_LEN_MAX && #[trigger] at(
                        b@,
                        p as int,
                        end as int,
                        str_bytes(s),
                    ) implies false by {
                    lemma_str_at(b@, p as int, end as int, s);
                    encode_utf8_valid_utf8(s);
                    assert(bv == encode_utf8(s));
                }
            }
            Err(DeError::Utf8)
        },
        Some(st) => {
            proof {
                assert(b@.subrange(p as int, (q + n) as int) =~= b@.subrange(p as int, q as int)
                    + b@.subrange(q as int, (q + n) as int));
                assert forall|s: Seq<char>|
                    utf8_len(s) <= STRING_LEN_MAX && #[trigger] at(
                        b@,
                        p as int,
                        end as int,
                        str_bytes(s),
                    ) implies st@ == s && q + n == p + str_bytes(s).len() by {
                    lemma_str_at(b@, p as int, end as int, s);
                    assert(bv == encode_utf8(s));
                    encode_utf8_decode_utf8(s);
                    encode_utf8_decode_utf8(st@);
                }
            }
            Ok((st, q + n))
        },
    }
}

/// Where a byte array's encoding stands at `p` before `end`, its declared
/// length is its length and the bytes it declares end by `end`: a decoder
/// that stops at the declared length never reads past it.
pub proof fn lemma_data_at(b: Seq<u8>, p: int, end: int, d: Seq<u8>)
    requires
        d.len() <= u32::MAX,
        at(b, p, end, data_bytes(d)),
    ensures
        p + 4 <= end,
        declared_u32(b, p) == d.len(),
        p + 4 + declared_u32(b, p) <= end,
        at(b, p + 4, end, d),
{
    lemma_int_bytes();
    lemma_at_split(b, p, end, spec_u32_to_le_bytes(d.len() as u32), d);
}

/// Reads a byte array at `p`, within `b[..end]`, never past `end`.
pub fn get_data(b: &[u8], p: usize, end: usize) -> (r: Result<(Vec<u8>, usize), DeError>)
    requires
        p <= end <= b@.len(),
    ensures
        r is Err <==> p + 4 > end || p + 4 + declared_u32(b@, p as int) > end,
        r is Err ==> r == Err::<(Vec<u8>, usize), DeError>(DeError::UnexpectedEof),
        r matches Ok((d, q)) ==> p < q <= end && b@.subrange(p as int, q as int) == data_bytes(d@)
            && d@.len() <= u32::MAX,
        forall|d: Seq<u8>|
            d.len() <= u32::MAX && #[trigger] at(b@, p as int, end as int, data_bytes(d))
                ==> (r matches Ok(
                (d2, q),
            ) && d2@ == d && q == p + data_bytes(d).len()),
{
    proof {
        lemma_int_bytes();
        assert forall|d: Seq<u8>|
            d.len() <= u32::MAX && #[trigger] at(b@, p as int, end as int, data_bytes(d)) implies p
            + 4 <= end && declared_u32(b@, p as int) == d.len() && at(
            b@,
            p + 4,
            end as int,
            d,
        ) by {
            lemma_at_split(b@, p as int, end as int, spec_u32_to_le_bytes(d.len() as u32), d);
        }
    }
    let (len, q) = get_u32(b, p, end)?;
    let n = len as usize;
    if end - q < n {
        return Err(DeError::UnexpectedEof);
    }
    let d = slice_to_vec(slice_subrange(b, q, q + n));
    proof {
        lemma_int_bytes();
        assert(b@.subrange(p as int, (q + n) as int) =~= b@.subrange(p as int, q as int)
            + b@.subrange(q as int, (q + n) as int));
    }
    Ok((d, q + n))
}

/// The encoding of the strings `ss` stands at `p`.
pub open spec fn strs_at(b: Seq<u8>, p: int, end: int, ss: Seq<Seq<char>>) -> bool {
    enc_strs(ss) matches Ok(x) && at(b, p, end, x)
}

pub proof fn lemma_strs_body_split(ss: Seq<Seq<char>>, k: int)
    requires
        0 <= k <= ss.len(),
    ensures
        strs_body(ss) == strs_body(ss.subrange(0, k)) + strs_body(ss.subrange(k, ss.len() as int)),
    decreases ss.len(),
{
    if k == ss.len() {
        assert(ss.subrange(0, k) =~= ss);
        assert(ss.subrange(k, ss.len() as int).len() == 0);
        assert(strs_body(ss) =~= strs_body(ss.subrange(0, k)) + Seq::<u8>::empty());
    } else {
        lemma_strs_body_split(ss.drop_last(), k);
        assert(ss.drop_last().subrange(0, k) =~= ss.subrange(0, k));
        assert(ss.subrange(k, ss.len() as int).drop_last() =~= ss.drop_last().subrange(
            k,
            ss.drop_last().len() as int,
        ));
        assert(ss.subrange(k, ss.len() as int).last() == ss.last());
        assert(strs_body(ss) =~= strs_body(ss.subrange(0, k)) + strs_body(
            ss.subrange(k, ss.len() as int),
        ));
    }
}

pub proof fn lemma_strs_body_first(ss: Seq<Seq<char>>)
    requires
        ss.len() > 0,
    ensures
        strs_body(ss) == str_bytes(ss[0]) + strs_body(ss.drop_first()),
{
    lemma_strs_body_split(ss, 1);
    let one = ss.subrange(0, 1);
    assert(one.drop_last() =~= Seq::<Seq<char>>::empty());
    assert(one.last() == ss[0]);
    assert(strs_body(one.drop_last()) == Seq::<u8>::empty());
    assert(strs_body(one) =~= str_bytes(ss[0]));
    assert(ss.subrange(1, ss.len() as int) =~= ss.drop_first());
}

/// Reads a counted sequence of strings at `p`, within `b[..end]`.
#[verifier::rlimit(40)]
#[verifier::spinoff_prover]
pub fn get_strs(b: &[u8], p: usize, end: usize) -> (r: Result<(Vec<String>, usize), DeError>)
    requires
        p <= end <= b@.len(),
    ensures
        p + 2 > end ==> r is Err,
        r matches Ok((ss, q)) ==> p < q <= end && enc_strs(views_of(ss@)) == Ok::<
            Seq<u8>,
            SerError,
        >(b@.subrange(p as int, q as int)),
        forall|ss: Seq<Seq<char>>|
            #[trigger] strs_at(b@, p as int, end as int, ss)
                ==> (r matches Ok((v, q)) && views_of(v@)
                == ss && q == p + 2 + strs_body(ss).len()),
{
    proof {
        lemma_int_bytes();
        assert forall|ss: Seq<Seq<char>>| #[trigger] strs_at(b@, p as int, end as int, ss) implies p
            + 2 <= end && declared_u16(b@, p as int) == ss.len() && at(
            b@,
            p + 2,
            end as int,
            strs_body(ss),
        ) by {
            lemma_at_split(
                b@,
                p as int,
                end as int,
                spec_u16_to_le_bytes(ss.len() as u16),
                strs_body(ss),
            );
        }
    }
    let (count, q0) = get_u16(b, p, end)?;
    let mut ss: Vec<String> = Vec::new();
    let mut q = q0;
    let mut i: u16 = 0;
    while i < count
        invariant
            p + 2 == q0 <= q <= end <= b@.len(),
            i <= count,
            ss@.len() == i,
            all_strs_fit(views_of(ss@)),
            b@.subrange(q0 as int, q as int) == strs_body(views_of(ss@)),
            count == declared_u16(b@, p as int),
            forall|ws: Seq<Seq<char>>|
                #[trigger] strs_at(b@, p as int, end as int, ws) ==> ws.len() == count
                    && views_of(ss@) == ws.subrange(0, i as int) && q == q0 + strs_body(
                    ws.subrange(0, i as int),
                ).len() && at(b@, q0 as int, end as int, strs_body(ws)),
        decreases count - i,
    {
        proof {
            assert forall|ws: Seq<Seq<char>>|
                #[trigger] strs_at(b@, p as int, end as int, ws)
                    implies utf8_len(ws[i as int]) <= STRING_LEN_MAX
                        && at(b@, q as int, end as int, str_bytes(ws[i as int])) by {
                assert(all_strs_fit(ws));
                lemma_strs_body_split(ws, i as int);
                lemma_at_split(
                    b@,
                    q0 as int,
                    end as int,
                    strs_body(ws.subrange(0, i as int)),
                    strs_body(ws.subrange(i as int, ws.len() as int)),
                );
                lemma_strs_body_first(ws.subrange(i as int, ws.len() as int));
                lemma_at_split(
                    b@,
                    q as int,
                    end as int,
                    str_bytes(ws[i as int]),
                    strs_body(ws.subrange(i as int, ws.len() as int).drop_first()),
                );
            }
        }
        let (s, q2) = match get_str(b, q, end) {
            Ok(x) => x,
            Err(e) => {
                proof {
                    assert forall|ws: Seq<Seq<char>>|
                        #[trigger] strs_at(b@, p as int, end as int, ws) implies false by {
                        assert(
                            utf8_len(ws[i as int]) <= STRING_LEN_MAX
                                && at(b@, q as int, end as int, str_bytes(ws[i as int]))
                        );
                    }
                }
                return Err(e);
            },
        };
        let ghost old_ss = ss@;
        ss.push(s);
        proof {
            assert(views_of(ss@).drop_last() =~= views_of(old_ss));
            assert forall|ws: Seq<Seq<char>>|
                #[trigger] strs_at(b@, p as int, end as int, ws)
                    implies views_of(ss@) == ws.subrange(0, i + 1)
                        && q2 == q0 + strs_body(ws.subrange(0, i + 1)).len() by {
                assert(
                    utf8_len(ws[i as int]) <= STRING_LEN_MAX
                        && at(b@, q as int, end as int, str_bytes(ws[i as int]))
                );
                assert(s@ == ws[i as int]);
                assert(views_of(ss@) =~= ws.subrange(0, i + 1));
                assert(ws.subrange(0, i + 1).drop_last() =~= ws.subrange(0, i as int));
                assert(ws.subrange(0, i + 1).last() == ws[i as int]);
            }
            assert(b@.subrange(q0 as int, q2 as int) =~= b@.subrange(q0 as int, q as int)
                + b@.subrange(q as int, q2 as int));
            assert forall|j: int| 0 <= j < ss@.len() implies utf8_len(
                #[trigger] views_of(ss@)[j],
            ) <= STRING_LEN_MAX by {
                if j < old_ss.len() {
                    assert(views_of(ss@)[j] == views_of(old_ss)[j]);
                }
            }
        }
        q = q2;
        i = i + 1;
    }
    proof {
        lemma_int_bytes();
        assert(b@.subrange(p as int, q as int) =~= b@.subrange(p as int, q0 as int)
            + b@.subrange(q0 as int, q as int));
        assert forall|ws: Seq<Seq<char>>|
            #[trigger] strs_at(b@, p as int, end as int, ws)
                implies views_of(ss@) == ws && q == p + 2 + strs_body(ws).len() by {
            assert(ws.subrange(0, i as int) =~= ws);
        }
    }
    Ok((ss, q))
}

} // verus!
