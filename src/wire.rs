//! Frame primitives: big-endian integers, C strings and length-prefixed
//! byte strings, read from a buffer at a position and appended to a buffer.

use vstd::prelude::*;
use vstd::slice::{slice_subrange, slice_to_vec};

verus! {

/// What can go wrong while decoding a frame.
#[derive(Clone, Copy, Debug, PartialEq, Eq, Structural)]
pub enum CodecError {
    /// Fewer bytes remain than a field needs.
    UnexpectedEof,
    /// A C string has no terminating null byte.
    InvalidData,
    /// The bytes do not form a message of the protocol.
    InvalidInput,
}

/// Length prefix that stands for SQL NULL in a length-prefixed field.
pub const NULL_LENGTH: u32 = 0xFFFF_FFFF;

/// The big-endian 16-bit value of the first two bytes of `s`.
pub open spec fn be_u16(s: Seq<u8>) -> u16 {
    ((s[0] as u16) << 8u16) | (s[1] as u16)
}

/// The big-endian 32-bit value of the first four bytes of `s`.
pub open spec fn be_u32(s: Seq<u8>) -> u32 {
    ((s[0] as u32) << 24u32) | ((s[1] as u32) << 16u32) | ((s[2] as u32) << 8u32) | (s[3] as u32)
}

/// Big-endian bytes of a 16-bit value.
pub open spec fn u16_bytes(v: u16) -> Seq<u8> {
    seq![(v >> 8u16) as u8, (v & 0xffu16) as u8]
}

/// Big-endian bytes of a 32-bit value.
pub open spec fn u32_bytes(v: u32) -> Seq<u8> {
    seq![(v >> 24u32) as u8, ((v >> 16u32) & 0xffu32) as u8, ((v >> 8u32) & 0xffu32) as u8, (v & 0xffu32) as u8]
}

/// One byte, and what follows it.
pub open spec fn parse_u8(s: Seq<u8>) -> Option<(u8, Seq<u8>)> {
    if s.len() >= 1 { Some((s[0], s.skip(1))) } else { None }
}

/// A big-endian 16-bit integer, and what follows it.
pub open spec fn parse_u16(s: Seq<u8>) -> Option<(u16, Seq<u8>)> {
    if s.len() >= 2 { Some((be_u16(s), s.skip(2))) } else { None }
}

/// A big-endian 32-bit integer, and what follows it.
pub open spec fn parse_u32(s: Seq<u8>) -> Option<(u32, Seq<u8>)> {
    if s.len() >= 4 { Some((be_u32(s), s.skip(4))) } else { None }
}

/// `k` is the index of the first null byte of `s`.
pub open spec fn is_first_nul(s: Seq<u8>, k: int) -> bool {
    &&& 0 <= k < s.len()
    &&& s[k] == 0
    &&& forall|j: int| 0 <= j < k ==> s[j] != 0
}

/// A C string: the bytes before the first null byte, and what follows that byte.
pub open spec fn parse_cstr(s: Seq<u8>) -> Option<(Seq<u8>, Seq<u8>)> {
    if exists|k: int| is_first_nul(s, k) {
        let k = choose|k: int| is_first_nul(s, k);
        Some((s.take(k), s.skip(k + 1)))
    } else {
        None
    }
}

/// A byte string behind a 32-bit length; `None` stands for the NULL prefix.
pub open spec fn parse_sized(s: Seq<u8>) -> Option<(Option<Seq<u8>>, Seq<u8>)> {
    match parse_u32(s) {
        Some((n, r)) => if n == NULL_LENGTH {
            Some((None, r))
        } else if n <= r.len() {
            Some((Some(r.take(n as int)), r.skip(n as int)))
        } else {
            None
        },
        None => None,
    }
}

/// A C string as written on the wire.
pub open spec fn cstr_bytes(c: Seq<u8>) -> Seq<u8> {
    c.push(0)
}

/// A length-prefixed field as written on the wire.
pub open spec fn sized_bytes(f: Option<Seq<u8>>) -> Seq<u8> {
    match f {
        Some(b) => u32_bytes(b.len() as u32) + b,
        None => u32_bytes(NULL_LENGTH),
    }
}

/// A byte string that can stand as a C string.
pub open spec fn no_nul(c: Seq<u8>) -> bool {
    forall|i: int| 0 <= i < c.len() ==> c[i] != 0
}

/// A field whose length fits the prefix without meeting the NULL value.
pub open spec fn sized_ok(f: Option<Seq<u8>>) -> bool {
    match f {
        Some(b) => b.len() < NULL_LENGTH,
        None => true,
    }
}

/// A written 16-bit integer reads back as itself.
pub proof fn lemma_u16_round_trip(v: u16, rest: Seq<u8>)
    ensures
        parse_u16(u16_bytes(v) + rest) == Some((v, rest)),
{
    let s = u16_bytes(v) + rest;
    assert(s[0] == (v >> 8u16) as u8);
    assert(s[1] == (v & 0xffu16) as u8);
    assert(((((v >> 8u16) as u8) as u16) << 8u16) | (((v & 0xffu16) as u8) as u16) == v)
        by (bit_vector);
    assert(s.skip(2) =~= rest);
}

/// A written 32-bit integer reads back as itself.
pub proof fn lemma_u32_round_trip(v: u32, rest: Seq<u8>)
    ensures
        parse_u32(u32_bytes(v) + rest) == Some((v, rest)),
{
    let s = u32_bytes(v) + rest;
    assert(s[0] == (v >> 24u32) as u8);
    assert(s[1] == ((v >> 16u32) & 0xffu32) as u8);
    assert(s[2] == ((v >> 8u32) & 0xffu32) as u8);
    assert(s[3] == (v & 0xffu32) as u8);
    assert(((((v >> 24u32) as u8) as u32) << 24u32) | (((((v >> 16u32) & 0xffu32) as u8) as u32)
        << 16u32) | (((((v >> 8u32) & 0xffu32) as u8) as u32) << 8u32) | (((v & 0xffu32) as u8)
        as u32) == v) by (bit_vector);
    assert(s.skip(4) =~= rest);
}

/// A written byte reads back as itself.
pub proof fn lemma_u8_round_trip(v: u8, rest: Seq<u8>)
    ensures
        parse_u8(seq![v] + rest) == Some((v, rest)),
{
    assert((seq![v] + rest).skip(1) =~= rest);
}

/// A sequence has at most one first null byte.
pub proof fn lemma_first_nul_unique(s: Seq<u8>, a: int, b: int)
    requires
        is_first_nul(s, a),
        is_first_nul(s, b),
    ensures
        a == b,
{
    if a < b {
        assert(s[a] != 0);
    } else if b < a {
        assert(s[b] != 0);
    }
}

/// The C string sits at index `k` of `s`.
pub proof fn lemma_cstr_at(s: Seq<u8>, k: int)
    requires
        is_first_nul(s, k),
    ensures
        parse_cstr(s) == Some((s.take(k), s.skip(k + 1))),
{
    let c = choose|j: int| is_first_nul(s, j);
    lemma_first_nul_unique(s, c, k);
}

/// A written C string without null bytes reads back as itself.
pub proof fn lemma_cstr_round_trip(c: Seq<u8>, rest: Seq<u8>)
    requires
        no_nul(c),
    ensures
        parse_cstr(cstr_bytes(c) + rest) == Some((c, rest)),
{
    let s = cstr_bytes(c) + rest;
    assert(is_first_nul(s, c.len() as int));
    lemma_cstr_at(s, c.len() as int);
    assert(s.take(c.len() as int) =~= c);
    assert(s.skip(c.len() + 1int) =~= rest);
}

/// A written length-prefixed field reads back as itself.
pub proof fn lemma_sized_round_trip(f: Option<Seq<u8>>, rest: Seq<u8>)
    requires
        sized_ok(f),
    ensures
        parse_sized(sized_bytes(f) + rest) == Some((f, rest)),
{
    match f {
        Some(b) => {
            let n = b.len() as u32;
            assert(u32_bytes(n) + b + rest =~= u32_bytes(n) + (b + rest));
            lemma_u32_round_trip(n, b + rest);
            assert((b + rest).take(n as int) =~= b);
            assert((b + rest).skip(n as int) =~= rest);
        },
        None => {
            lemma_u32_round_trip(NULL_LENGTH, rest);
        },
    }
}

/// What `parse_u16` reads is written back as the same two bytes.
pub proof fn lemma_parse_u16_inv(s: Seq<u8>)
    requires
        s.len() >= 2,
    ensures
        s == u16_bytes(be_u16(s)) + s.skip(2),
{
    let b0 = s[0];
    let b1 = s[1];
    let v = be_u16(s);
    assert(v == ((b0 as u16) << 8u16) | (b1 as u16));
    assert((((((b0 as u16) << 8u16) | (b1 as u16)) >> 8u16) as u8 == b0) && (((((b0 as u16)
        << 8u16) | (b1 as u16)) & 0xffu16) as u8 == b1)) by (bit_vector);
    assert(s =~= u16_bytes(v) + s.skip(2));
}

/// What `parse_u32` reads is written back as the same four bytes.
pub proof fn lemma_parse_u32_inv(s: Seq<u8>)
    requires
        s.len() >= 4,
    ensures
        s == u32_bytes(be_u32(s)) + s.skip(4),
{
    let b0 = s[0];
    let b1 = s[1];
    let b2 = s[2];
    let b3 = s[3];
    let v = be_u32(s);
    assert(v == ((b0 as u32) << 24u32) | ((b1 as u32) << 16u32) | ((b2 as u32) << 8u32) | (
    b3 as u32));
    assert(({
        let w = ((b0 as u32) << 24u32) | ((b1 as u32) << 16u32) | ((b2 as u32) << 8u32) | (
        b3 as u32);
        &&& (w >> 24u32) as u8 == b0
        &&& ((w >> 16u32) & 0xffu32) as u8 == b1
        &&& ((w >> 8u32) & 0xffu32) as u8 == b2
        &&& (w & 0xffu32) as u8 == b3
    })) by (bit_vector);
    assert(s =~= u32_bytes(v) + s.skip(4));
}

/// What `parse_cstr` reads is a C string that is written back as the same
/// bytes.
pub proof fn lemma_parse_cstr_inv(s: Seq<u8>)
    ensures
        match parse_cstr(s) {
            Some((c, r)) => no_nul(c) && s == cstr_bytes(c) + r,
            None => true,
        },
{
    if exists|k: int| is_first_nul(s, k) {
        let k = choose|k: int| is_first_nul(s, k);
        assert(s =~= cstr_bytes(s.take(k)) + s.skip(k + 1));
    }
}

/// What `parse_sized` reads is a field that is written back as the same
/// bytes.
pub proof fn lemma_parse_sized_inv(s: Seq<u8>)
    ensures
        match parse_sized(s) {
            Some((f, r)) => sized_ok(f) && s == sized_bytes(f) + r,
            None => true,
        },
{
    if s.len() < 4 {
        return;
    }
    lemma_parse_u32_inv(s);
    let n = be_u32(s);
    let r = s.skip(4);
    if n != NULL_LENGTH && n <= r.len() {
        assert(r.take(n as int).len() == n);
        assert(s =~= u32_bytes(n) + r.take(n as int) + r.skip(n as int));
    }
}

/// The bytes of each element of `s`, one after another.
pub open spec fn concat_map<A>(s: Seq<A>, f: spec_fn(A) -> Seq<u8>) -> Seq<u8>
    decreases s.len(),
{
    if s.len() == 0 {
        Seq::empty()
    } else {
        f(s[0]) + concat_map(s.skip(1), f)
    }
}

/// The bytes of a prefix one item longer end with that item's bytes.
pub proof fn lemma_concat_map_push<A>(s: Seq<A>, f: spec_fn(A) -> Seq<u8>, i: int)
    requires
        0 <= i < s.len(),
    ensures
        concat_map(s.take(i + 1), f) == concat_map(s.take(i), f) + f(s[i]),
    decreases i,
{
    if i == 0 {
        let e = s.take(1).skip(1);
        assert(e.len() == 0);
        assert(concat_map(e, f) == Seq::<u8>::empty());
        assert(s.take(0).len() == 0);
        assert(concat_map(s.take(0), f) == Seq::<u8>::empty());
        assert(s.take(1)[0] == s[0]);
        assert(concat_map(s.take(1), f) == f(s[0]) + concat_map(e, f));
        assert(f(s[0]) + Seq::<u8>::empty() =~= f(s[0]));
        assert(Seq::<u8>::empty() + f(s[0]) =~= f(s[0]));
    } else {
        let t = s.skip(1);
        lemma_concat_map_push(t, f, i - 1);
        assert(s.take(i + 1).skip(1) =~= t.take(i));
        assert(s.take(i).skip(1) =~= t.take(i - 1));
        assert(s.take(i + 1)[0] == s[0]);
        assert(s.take(i)[0] == s[0]);
        assert(t[i - 1] == s[i]);
        assert(concat_map(s.take(i + 1), f) =~= concat_map(s.take(i), f) + f(s[i]));
    }
}

/// The wire bytes of a sequence of length-prefixed fields.
pub open spec fn fields_bytes(fs: Seq<Option<Seq<u8>>>) -> Seq<u8> {
    concat_map(fs, |f: Option<Seq<u8>>| sized_bytes(f))
}

/// The bytes of a prefix of fields one field longer end with that field's bytes.
pub proof fn lemma_fields_bytes(fs: Seq<Option<Seq<u8>>>, i: int)
    requires
        0 <= i < fs.len(),
    ensures
        fields_bytes(fs.take(i + 1)) == fields_bytes(fs.take(i)) + sized_bytes(fs[i]),
{
    lemma_concat_map_push(fs, |f: Option<Seq<u8>>| sized_bytes(f), i);
}

/// Puts the items of `acc` in front of the items that a list parser found.
pub open spec fn prepend<A>(acc: Seq<A>, r: Result<(Seq<A>, Seq<u8>), CodecError>) -> Result<
    (Seq<A>, Seq<u8>),
    CodecError,
> {
    match r {
        Ok((xs, rest)) => Ok((acc + xs, rest)),
        Err(e) => Err(e),
    }
}

/// Putting nothing in front changes nothing.
pub proof fn lemma_prepend_empty<A>(r: Result<(Seq<A>, Seq<u8>), CodecError>)
    ensures
        prepend(Seq::<A>::empty(), r) == r,
{
    match r {
        Ok((xs, rest)) => {
            assert(Seq::<A>::empty() + xs =~= xs);
        },
        Err(_) => {},
    }
}

/// Putting `x` in front, then `acc`, is putting `acc` followed by `x` in front.
pub proof fn lemma_prepend_step<A>(acc: Seq<A>, x: A, r: Result<(Seq<A>, Seq<u8>), CodecError>)
    ensures
        prepend(acc, prepend(seq![x], r)) == prepend(acc.push(x), r),
{
    match r {
        Ok((xs, rest)) => {
            assert(acc + (seq![x] + xs) =~= acc.push(x) + xs);
        },
        Err(_) => {},
    }
}

/// Reads one byte at `pos`.
pub fn get_u8(s: &[u8], pos: usize) -> (r: Result<(u8, usize), CodecError>)
    requires
        pos <= s@.len(),
    ensures
        match r {
            Ok((v, p)) => pos <= p <= s@.len() && parse_u8(s@.skip(pos as int)) == Some(
                (v, s@.skip(p as int)),
            ),
            Err(e) => e == CodecError::UnexpectedEof && parse_u8(s@.skip(pos as int)) is None,
        },
{
    if s.len() - pos < 1 {
        return Err(CodecError::UnexpectedEof);
    }
    assert(s@.skip(pos as int).skip(1) =~= s@.skip(pos + 1));
    Ok((s[pos], pos + 1))
}

/// Reads a big-endian 16-bit integer at `pos`.
pub fn get_u16(s: &[u8], pos: usize) -> (r: Result<(u16, usize), CodecError>)
    requires
        pos <= s@.len(),
    ensures
        match r {
            Ok((v, p)) => pos <= p <= s@.len() && parse_u16(s@.skip(pos as int)) == Some(
                (v, s@.skip(p as int)),
            ),
            Err(e) => e == CodecError::UnexpectedEof && parse_u16(s@.skip(pos as int)) is None,
        },
{
    if s.len() - pos < 2 {
        return Err(CodecError::UnexpectedEof);
    }
    assert(s@.skip(pos as int).skip(2) =~= s@.skip(pos + 2));
    let v = ((s[pos] as u16) << 8u16) | (s[pos + 1] as u16);
    Ok((v, pos + 2))
}

/// Reads a big-endian 32-bit integer at `pos`.
pub fn get_u32(s: &[u8], pos: usize) -> (r: Result<(u32, usize), CodecError>)
    requires
        pos <= s@.len(),
    ensures
        match r {
            Ok((v, p)) => pos <= p <= s@.len() && parse_u32(s@.skip(pos as int)) == Some(
                (v, s@.skip(p as int)),
            ),
            Err(e) => e == CodecError::UnexpectedEof && parse_u32(s@.skip(pos as int)) is None,
        },
{
    if s.len() - pos < 4 {
        return Err(CodecError::UnexpectedEof);
    }
    assert(s@.skip(pos as int).skip(4) =~= s@.skip(pos + 4));
    let v = ((s[pos] as u32) << 24u32) | ((s[pos + 1] as u32) << 16u32) | ((s[pos + 2] as u32)
        << 8u32) | (s[pos + 3] as u32);
    Ok((v, pos + 4))
}

/// Reads a big-endian 16-bit signed integer at `pos`.
pub fn get_i16(s: &[u8], pos: usize) -> (r: Result<(i16, usize), CodecError>)
    requires
        pos <= s@.len(),
    ensures
        match r {
            Ok((v, p)) => pos <= p <= s@.len() && match parse_u16(s@.skip(pos as int)) {
                Some((u, rest)) => v == u as i16 && rest == s@.skip(p as int),
                None => false,
            },
            Err(e) => e == CodecError::UnexpectedEof && parse_u16(s@.skip(pos as int)) is None,
        },
{
    let (v, p) = get_u16(s, pos)?;
    Ok((v as i16, p))
}

/// Reads a big-endian 32-bit signed integer at `pos`.
pub fn get_i32(s: &[u8], pos: usize) -> (r: Result<(i32, usize), CodecError>)
    requires
        pos <= s@.len(),
    ensures
        match r {
            Ok((v, p)) => pos <= p <= s@.len() && match parse_u32(s@.skip(pos as int)) {
                Some((u, rest)) => v == u as i32 && rest == s@.skip(p as int),
                None => false,
            },
            Err(e) => e == CodecError::UnexpectedEof && parse_u32(s@.skip(pos as int)) is None,
        },
{
    let (v, p) = get_u32(s, pos)?;
    Ok((v as i32, p))
}

/// Reads a C string at `pos`: the bytes up to the first null byte, which is
/// consumed too.
pub fn get_cstr(s: &[u8], pos: usize) -> (r: Result<(Vec<u8>, usize), CodecError>)
    requires
        pos <= s@.len(),
    ensures
        match r {
            Ok((c, p)) => pos < p <= s@.len() && parse_cstr(s@.skip(pos as int)) == Some(
                (c@, s@.skip(p as int)),
            ),
            Err(e) => e == CodecError::InvalidData && parse_cstr(s@.skip(pos as int)) is None,
        },
{
    let ghost t = s@.skip(pos as int);
    let mut i: usize = pos;
    while i < s.len() && s[i] != 0
        invariant
            pos <= i <= s@.len(),
            t == s@.skip(pos as int),
            forall|j: int| pos <= j < i ==> s@[j] != 0,
        decreases s@.len() - i,
    {
        i = i + 1;
    }
    if i == s.len() {
        assert forall|k: int| !is_first_nul(t, k) by {
            if 0 <= k < t.len() {
                assert(t[k] == s@[pos + k]);
            }
        }
        return Err(CodecError::InvalidData);
    }
    let ghost k = (i - pos) as int;
    assert forall|j: int| 0 <= j < k implies t[j] != 0 by {
        assert(t[j] == s@[pos + j]);
    }
    assert(is_first_nul(t, k));
    proof { lemma_cstr_at(t, k); }
    let c = slice_to_vec(slice_subrange(s, pos, i));
    assert(c@ =~= t.take(k));
    assert(t.skip(k + 1) =~= s@.skip(i + 1));
    Ok((c, i + 1))
}

/// Reads a length-prefixed byte string at `pos`; the NULL prefix gives `None`.
pub fn get_sized(s: &[u8], pos: usize) -> (r: Result<(Option<Vec<u8>>, usize), CodecError>)
    requires
        pos <= s@.len(),
    ensures
        match r {
            Ok((f, p)) => pos < p <= s@.len() && parse_sized(s@.skip(pos as int)) == Some(
                (opt_view(f), s@.skip(p as int)),
            ),
            Err(e) => e == CodecError::UnexpectedEof && parse_sized(s@.skip(pos as int)) is None,
        },
{
    let (n, p) = get_u32(s, pos)?;
    if n == NULL_LENGTH {
        return Ok((None, p));
    }
    if s.len() - p < n as usize {
        return Err(CodecError::UnexpectedEof);
    }
    let end = p + n as usize;
    let b = slice_to_vec(slice_subrange(s, p, end));
    let ghost r = s@.skip(p as int);
    assert(b@ =~= r.take(n as int));
    assert(r.skip(n as int) =~= s@.skip(end as int));
    Ok((Some(b), end))
}

/// Copies `s[a..b]` into a new vector.
pub fn copy_range(s: &[u8], a: usize, b: usize) -> (r: Vec<u8>)
    requires
        a <= b <= s@.len(),
    ensures
        r@ == s@.subrange(a as int, b as int),
{
    slice_to_vec(slice_subrange(s, a, b))
}

/// The view of an optional byte vector.
pub open spec fn opt_view(f: Option<Vec<u8>>) -> Option<Seq<u8>> {
    match f {
        Some(b) => Some(b@),
        None => None,
    }
}

/// Appends one byte.
pub fn put_u8(out: &mut Vec<u8>, v: u8)
    ensures
        final(out)@ == old(out)@.push(v),
{
    out.push(v);
}

/// Appends a big-endian 16-bit integer.
pub fn put_u16(out: &mut Vec<u8>, v: u16)
    ensures
        final(out)@ == old(out)@ + u16_bytes(v),
{
    out.push((v >> 8u16) as u8);
    out.push((v & 0xffu16) as u8);
    assert(out@ =~= old(out)@ + u16_bytes(v));
}

/// Appends a big-endian 32-bit integer.
pub fn put_u32(out: &mut Vec<u8>, v: u32)
    ensures
        final(out)@ == old(out)@ + u32_bytes(v),
{
    out.push((v >> 24u32) as u8);
    out.push(((v >> 16u32) & 0xffu32) as u8);
    out.push(((v >> 8u32) & 0xffu32) as u8);
    out.push((v & 0xffu32) as u8);
    assert(out@ =~= old(out)@ + u32_bytes(v));
}

/// Appends every byte of `data`.
pub fn put_slice(out: &mut Vec<u8>, data: &[u8])
    ensures
        final(out)@ == old(out)@ + data@,
{
    let mut i: usize = 0;
    while i < data.len()
        invariant
            i <= data@.len(),
            out@ == old(out)@ + data@.take(i as int),
        decreases data@.len() - i,
    {
        out.push(data[i]);
        i = i + 1;
        assert(out@ =~= old(out)@ + data@.take(i as int));
    }
    assert(data@.take(i as int) =~= data@);
}

/// Appends `data` as a C string.
pub fn put_cstr(out: &mut Vec<u8>, data: &[u8])
    ensures
        final(out)@ == old(out)@ + cstr_bytes(data@),
{
    put_slice(out, data);
    out.push(0);
    assert(out@ =~= old(out)@ + cstr_bytes(data@));
}

/// Appends a length-prefixed field; `None` writes the NULL prefix.
pub fn put_sized(out: &mut Vec<u8>, f: &Option<Vec<u8>>)
    requires
        sized_ok(opt_view(*f)),
    ensures
        final(out)@ == old(out)@ + sized_bytes(opt_view(*f)),
{
    match f {
        Some(b) => {
            put_u32(out, b.len() as u32);
            put_slice(out, b.as_slice());
            assert(out@ =~= old(out)@ + sized_bytes(opt_view(*f)));
        },
        None => {
            put_u32(out, NULL_LENGTH);
        },
    }
}

} // verus!
