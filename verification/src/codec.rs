//! Fixed-layout binary codec.
//!
//! A `MatrixEntry` occupies 8 bytes: two little-endian 32-bit fields at byte
//! offsets [0,4) and [4,8).  A `Matrix` is an 8-byte segment descriptor
//! {offset of the collection, byte count of the collection}, both little-endian
//! 32-bit fields, followed by the concatenated entry encodings.

use vstd::prelude::*;

use crate::matrix::{Matrix, MatrixEntry};
use crate::Error;

verus! {

/// Encoded size of one `MatrixEntry`.
pub const ENTRY_SIZE: usize = 8;

/// Size of the segment descriptor in front of the entry collection.
pub const HEADER_SIZE: usize = 8;

/// Largest entry count whose byte count still fits the 32-bit length field.
pub const MAX_ENTRIES: usize = 536870911;

/// Little-endian byte image of a 32-bit value.
pub open spec fn u32_le_bytes(v: u32) -> Seq<u8> {
    seq![
        (v & 0xff) as u8,
        ((v >> 8) & 0xff) as u8,
        ((v >> 16) & 0xff) as u8,
        ((v >> 24) & 0xff) as u8,
    ]
}

/// The 32-bit value read from four little-endian bytes.
pub open spec fn u32_from_le(b0: u8, b1: u8, b2: u8, b3: u8) -> u32 {
    (b0 as u32) | ((b1 as u32) << 8) | ((b2 as u32) << 16) | ((b3 as u32) << 24)
}

/// Reading the four little-endian bytes of `v` gives `v` back.
pub proof fn lemma_u32_le_round_trip(v: u32)
    ensures
        u32_from_le(
            u32_le_bytes(v)[0],
            u32_le_bytes(v)[1],
            u32_le_bytes(v)[2],
            u32_le_bytes(v)[3],
        ) == v,
{
    assert(((v & 0xff) as u8 as u32) | ((((v >> 8) & 0xff) as u8 as u32) << 8)
        | ((((v >> 16) & 0xff) as u8 as u32) << 16) | ((((v >> 24) & 0xff) as u8 as u32) << 24)
        == v) by (bit_vector);
}

/// Writing the value read from four bytes gives the same four bytes back.
pub proof fn lemma_u32_le_inverse(b0: u8, b1: u8, b2: u8, b3: u8)
    ensures
        u32_le_bytes(u32_from_le(b0, b1, b2, b3)) == seq![b0, b1, b2, b3],
{
    let v = u32_from_le(b0, b1, b2, b3);
    assert(((b0 as u32) | ((b1 as u32) << 8) | ((b2 as u32) << 16) | ((b3 as u32) << 24)) & 0xff
        == b0 as u32) by (bit_vector);
    assert((((b0 as u32) | ((b1 as u32) << 8) | ((b2 as u32) << 16) | ((b3 as u32) << 24)) >> 8)
        & 0xff == b1 as u32) by (bit_vector);
    assert((((b0 as u32) | ((b1 as u32) << 8) | ((b2 as u32) << 16) | ((b3 as u32) << 24)) >> 16)
        & 0xff == b2 as u32) by (bit_vector);
    assert((((b0 as u32) | ((b1 as u32) << 8) | ((b2 as u32) << 16) | ((b3 as u32) << 24)) >> 24)
        & 0xff == b3 as u32) by (bit_vector);
    assert(u32_le_bytes(v) =~= seq![b0, b1, b2, b3]);
}

/// Appends the four little-endian bytes of `v`.
pub fn push_u32_le(out: &mut Vec<u8>, v: u32)
    ensures
        final(out)@ == old(out)@ + u32_le_bytes(v),
{
    proof {
        assert(v & 0xff < 256 && (v >> 8) & 0xff < 256 && (v >> 16) & 0xff < 256
            && (v >> 24) & 0xff < 256) by (bit_vector);
    }
    out.push((v & 0xff) as u8);
    out.push(((v >> 8) & 0xff) as u8);
    out.push(((v >> 16) & 0xff) as u8);
    out.push(((v >> 24) & 0xff) as u8);
    assert(out@ =~= old(out)@ + u32_le_bytes(v));
}

/// Reads the little-endian 32-bit field at byte offset `pos`.
pub fn read_u32_le(buf: &Vec<u8>, pos: usize) -> (r: u32)
    requires
        pos + 4 <= buf@.len(),
    ensures
        r == u32_from_le(buf@[pos as int], buf@[pos + 1], buf@[pos + 2], buf@[pos + 3]),
{
    let n: usize = buf.len();
    let b0 = buf[pos];
    let b1 = buf[pos + 1];
    let b2 = buf[pos + 2];
    let b3 = buf[pos + 3];
    (b0 as u32) | ((b1 as u32) << 8) | ((b2 as u32) << 16) | ((b3 as u32) << 24)
}

/// Byte image of one entry: subject at [0,4), permission at [4,8).
pub open spec fn entry_bytes(e: MatrixEntry) -> Seq<u8> {
    u32_le_bytes(e.subject) + u32_le_bytes(e.permission)
}

/// The entry read from an 8-byte record.
pub open spec fn entry_from_bytes(b: Seq<u8>) -> MatrixEntry {
    MatrixEntry {
        subject: u32_from_le(b[0], b[1], b[2], b[3]),
        permission: u32_from_le(b[4], b[5], b[6], b[7]),
    }
}

/// Concatenated byte images of a sequence of entries.
pub open spec fn entries_bytes(s: Seq<MatrixEntry>) -> Seq<u8>
    decreases s.len(),
{
    if s.len() == 0 {
        Seq::empty()
    } else {
        entry_bytes(s[0]) + entries_bytes(s.drop_first())
    }
}

/// The entries read from a buffer of consecutive 8-byte records.
pub open spec fn entries_from_bytes(b: Seq<u8>) -> Seq<MatrixEntry>
    decreases b.len(),
{
    if b.len() < ENTRY_SIZE {
        Seq::empty()
    } else {
        seq![entry_from_bytes(b.subrange(0, ENTRY_SIZE as int))] + entries_from_bytes(
            b.skip(ENTRY_SIZE as int),
        )
    }
}

/// Byte image of a whole matrix: the segment descriptor {offset of the
/// collection, byte count of the collection}, then the entries.
pub open spec fn matrix_bytes(s: Seq<MatrixEntry>) -> Seq<u8> {
    u32_le_bytes(HEADER_SIZE as u32) + u32_le_bytes((s.len() * ENTRY_SIZE) as u32)
        + entries_bytes(s)
}

/// What decoding a matrix buffer yields: `None` exactly when the buffer is
/// malformed (too short, offset not at the collection start, byte count not a
/// multiple of the entry size, or byte count disagreeing with the data
/// actually present).
pub open spec fn spec_decode_matrix(b: Seq<u8>) -> Option<Seq<MatrixEntry>> {
    if b.len() < HEADER_SIZE {
        None
    } else {
        let off = u32_from_le(b[0], b[1], b[2], b[3]);
        let cnt = u32_from_le(b[4], b[5], b[6], b[7]);
        if off == HEADER_SIZE && cnt % (ENTRY_SIZE as u32) == 0 && b.len() == HEADER_SIZE + cnt {
            Some(entries_from_bytes(b.skip(HEADER_SIZE as int)))
        } else {
            None
        }
    }
}

/// The concatenated entry images take 8 bytes per entry.
pub proof fn lemma_entries_bytes_len(s: Seq<MatrixEntry>)
    ensures
        entries_bytes(s).len() == ENTRY_SIZE * s.len(),
    decreases s.len(),
{
    if s.len() > 0 {
        lemma_entries_bytes_len(s.drop_first());
    }
}

/// Appending an entry appends its byte image.
pub proof fn lemma_entries_bytes_push(s: Seq<MatrixEntry>, e: MatrixEntry)
    ensures
        entries_bytes(s.push(e)) == entries_bytes(s) + entry_bytes(e),
    decreases s.len(),
{
    if s.len() == 0 {
        assert(s.push(e)[0] == e);
        assert(s.push(e).drop_first() =~= s);
        assert(entries_bytes(s.push(e)) =~= entries_bytes(s) + entry_bytes(e));
    } else {
        assert(s.push(e).drop_first() =~= s.drop_first().push(e));
        lemma_entries_bytes_push(s.drop_first(), e);
        assert(entries_bytes(s.push(e)) =~= entries_bytes(s) + entry_bytes(e));
    }
}

/// Decoding the byte image of an entry gives that entry back.
pub proof fn lemma_entry_round_trip(e: MatrixEntry)
    ensures
        entry_from_bytes(entry_bytes(e)) == e,
{
    lemma_u32_le_round_trip(e.subject);
    lemma_u32_le_round_trip(e.permission);
}

/// Re-encoding the entry read from any 8-byte record reproduces the record.
pub proof fn lemma_entry_reencode(b: Seq<u8>)
    requires
        b.len() == ENTRY_SIZE,
    ensures
        entry_bytes(entry_from_bytes(b)) == b,
{
    lemma_u32_le_inverse(b[0], b[1], b[2], b[3]);
    lemma_u32_le_inverse(b[4], b[5], b[6], b[7]);
    assert(entry_bytes(entry_from_bytes(b)) =~= b);
}

/// Decoding the concatenated byte images of entries gives the entries back.
pub proof fn lemma_entries_round_trip(s: Seq<MatrixEntry>)
    ensures
        entries_from_bytes(entries_bytes(s)) == s,
    decreases s.len(),
{
    if s.len() == 0 {
        assert(entries_from_bytes(entries_bytes(s)) =~= s);
    } else {
        let b = entries_bytes(s);
        lemma_entries_bytes_len(s);
        assert(b.subrange(0, ENTRY_SIZE as int) =~= entry_bytes(s[0]));
        assert(b.skip(ENTRY_SIZE as int) =~= entries_bytes(s.drop_first()));
        lemma_entry_round_trip(s[0]);
        lemma_entries_round_trip(s.drop_first());
        assert(entries_from_bytes(entries_bytes(s)) =~= s);
    }
}

/// Re-encoding the entries read from a buffer whose length is a multiple of
/// the entry size reproduces the buffer.
pub proof fn lemma_entries_reencode(b: Seq<u8>)
    requires
        b.len() % (ENTRY_SIZE as nat) == 0,
    ensures
        entries_bytes(entries_from_bytes(b)) == b,
        entries_from_bytes(b).len() * ENTRY_SIZE == b.len(),
    decreases b.len(),
{
    if b.len() == 0 {
        assert(entries_bytes(entries_from_bytes(b)) =~= b);
    } else {
        let head = b.subrange(0, ENTRY_SIZE as int);
        let tail = b.skip(ENTRY_SIZE as int);
        lemma_entry_reencode(head);
        lemma_entries_reencode(tail);
        let s = entries_from_bytes(b);
        assert(s.drop_first() =~= entries_from_bytes(tail));
        assert(entries_bytes(s) =~= b);
    }
}

/// Decoding the byte image of a matrix gives its entries back.
pub proof fn lemma_matrix_round_trip(s: Seq<MatrixEntry>)
    requires
        s.len() <= MAX_ENTRIES,
    ensures
        spec_decode_matrix(matrix_bytes(s)) == Some(s),
{
    let b = matrix_bytes(s);
    lemma_entries_bytes_len(s);
    lemma_u32_le_round_trip(HEADER_SIZE as u32);
    let cnt32 = (s.len() * ENTRY_SIZE) as u32;
    lemma_u32_le_round_trip(cnt32);
    assert(b[0] == u32_le_bytes(HEADER_SIZE as u32)[0]);
    assert(b[1] == u32_le_bytes(HEADER_SIZE as u32)[1]);
    assert(b[2] == u32_le_bytes(HEADER_SIZE as u32)[2]);
    assert(b[3] == u32_le_bytes(HEADER_SIZE as u32)[3]);
    assert(b[4] == u32_le_bytes(cnt32)[0]);
    assert(b[5] == u32_le_bytes(cnt32)[1]);
    assert(b[6] == u32_le_bytes(cnt32)[2]);
    assert(b[7] == u32_le_bytes(cnt32)[3]);
    assert(cnt32 == s.len() * ENTRY_SIZE);
    assert(cnt32 % (ENTRY_SIZE as u32) == 0) by {
        assert(cnt32 == (ENTRY_SIZE as u32) * s.len());
    }
    assert(b.skip(HEADER_SIZE as int) =~= entries_bytes(s));
    lemma_entries_round_trip(s);
}

/// Re-encoding any matrix that decodes successfully reproduces the buffer
/// byte for byte: the encoding is a canonical form.
pub proof fn lemma_matrix_reencode(b: Seq<u8>)
    requires
        spec_decode_matrix(b) is Some,
    ensures
        matrix_bytes(spec_decode_matrix(b)->Some_0) == b,
        spec_decode_matrix(b)->Some_0.len() <= MAX_ENTRIES,
{
    let s = spec_decode_matrix(b)->Some_0;
    let off = u32_from_le(b[0], b[1], b[2], b[3]);
    let cnt = u32_from_le(b[4], b[5], b[6], b[7]);
    let body = b.skip(HEADER_SIZE as int);
    assert(body.len() % (ENTRY_SIZE as nat) == 0);
    lemma_entries_reencode(body);
    lemma_u32_le_inverse(b[0], b[1], b[2], b[3]);
    lemma_u32_le_inverse(b[4], b[5], b[6], b[7]);
    assert(s.len() * ENTRY_SIZE == cnt);
    assert((s.len() * ENTRY_SIZE) as u32 == cnt);
    assert(matrix_bytes(s) =~= b);
}

/// Encodes one entry as its fixed 8-byte record.
pub fn encode_entry(e: &MatrixEntry) -> (r: Vec<u8>)
    ensures
        r@ == entry_bytes(*e),
{
    let mut out: Vec<u8> = Vec::new();
    push_u32_le(&mut out, e.subject);
    push_u32_le(&mut out, e.permission);
    assert(out@ =~= entry_bytes(*e));
    out
}

/// Decodes a fixed 8-byte entry record; any other buffer length is malformed.
pub fn decode_entry(buf: &Vec<u8>) -> (r: Result<MatrixEntry, Error>)
    ensures
        buf@.len() == ENTRY_SIZE ==> r == Ok::<MatrixEntry, Error>(entry_from_bytes(buf@)),
        buf@.len() != ENTRY_SIZE ==> r == Err::<MatrixEntry, Error>(Error::MalformedEncoding),
{
    if buf.len() != ENTRY_SIZE {
        return Err(Error::MalformedEncoding);
    }
    let subject = read_u32_le(buf, 0);
    let permission = read_u32_le(buf, 4);
    Ok(MatrixEntry { subject, permission })
}

/// Encodes a whole matrix: segment descriptor, then the entry records.
pub fn encode_matrix(m: &Matrix) -> (r: Vec<u8>)
    requires
        m@.len() <= MAX_ENTRIES,
    ensures
        r@ == matrix_bytes(m@),
{
    let n: usize = m.values.len();
    let mut out: Vec<u8> = Vec::new();
    push_u32_le(&mut out, HEADER_SIZE as u32);
    let cnt: u32 = (n as u32) * (ENTRY_SIZE as u32);
    push_u32_le(&mut out, cnt);
    let mut i: usize = 0;
    while i < n
        invariant
            i <= n,
            n == m@.len(),
            n <= MAX_ENTRIES,
            cnt == n * ENTRY_SIZE,
            out@ == u32_le_bytes(HEADER_SIZE as u32) + u32_le_bytes(cnt) + entries_bytes(
                m@.take(i as int),
            ),
        decreases n - i,
    {
        let e = m.values[i];
        push_u32_le(&mut out, e.subject);
        push_u32_le(&mut out, e.permission);
        proof {
            lemma_entries_bytes_push(m@.take(i as int), m@[i as int]);
            assert(m@.take(i + 1) =~= m@.take(i as int).push(m@[i as int]));
            assert(out@ =~= u32_le_bytes(HEADER_SIZE as u32) + u32_le_bytes(cnt) + entries_bytes(
                m@.take(i + 1),
            ));
        }
        i += 1;
    }
    proof {
        assert(m@.take(n as int) =~= m@);
        assert(cnt == (m@.len() * ENTRY_SIZE) as u32);
    }
    out
}

/// Decodes a matrix buffer, validating the segment descriptor against the
/// data actually present; fails with `MalformedEncoding` exactly when
/// `spec_decode_matrix` yields nothing.
pub fn decode_matrix(buf: &Vec<u8>) -> (r: Result<Matrix, Error>)
    ensures
        (match spec_decode_matrix(buf@) {
            Some(s) => r matches Ok(m) && m@ == s && s.len() <= MAX_ENTRIES,
            None => r == Err::<Matrix, Error>(Error::MalformedEncoding),
        }),
{
    let n: usize = buf.len();
    if n < HEADER_SIZE {
        return Err(Error::MalformedEncoding);
    }
    let off = read_u32_le(buf, 0);
    let cnt = read_u32_le(buf, 4);
    if off != HEADER_SIZE as u32 || cnt % (ENTRY_SIZE as u32) != 0 || (n as u64) != (
    HEADER_SIZE as u64) + (cnt as u64) {
        return Err(Error::MalformedEncoding);
    }
    let mut values: Vec<MatrixEntry> = Vec::new();
    let mut pos: usize = HEADER_SIZE;
    while pos < n
        invariant
            HEADER_SIZE <= pos <= n,
            (pos - HEADER_SIZE) % (ENTRY_SIZE as int) == 0,
            n == buf@.len(),
            n == HEADER_SIZE + cnt,
            cnt % (ENTRY_SIZE as u32) == 0,
            values@.len() * ENTRY_SIZE + HEADER_SIZE == pos,
            entries_from_bytes(buf@.skip(HEADER_SIZE as int)) == values@ + entries_from_bytes(
                buf@.skip(pos as int),
            ),
        decreases n - pos,
    {
        proof {
            let k = values@.len() as int;
            assert(cnt as int % 8 == 0);
            assert(n - pos == cnt as int - 8 * k);
            assert((cnt as int - 8 * k) % 8 == 0) by {
                assert(cnt as int == 8 * (cnt as int / 8));
            }
            assert(n - pos >= ENTRY_SIZE);
        }
        let subject = read_u32_le(buf, pos);
        let permission = read_u32_le(buf, pos + 4);
        values.push(MatrixEntry { subject, permission });
        proof {
            let rest = buf@.skip(pos as int);
            assert(rest.subrange(0, ENTRY_SIZE as int) =~= buf@.subrange(
                pos as int,
                pos + ENTRY_SIZE,
            ));
            assert(rest.skip(ENTRY_SIZE as int) =~= buf@.skip(pos + ENTRY_SIZE));
            assert(entry_from_bytes(rest.subrange(0, ENTRY_SIZE as int)) == MatrixEntry {
                subject,
                permission,
            });
            assert(entries_from_bytes(buf@.skip(HEADER_SIZE as int)) =~= values@
                + entries_from_bytes(buf@.skip(pos + ENTRY_SIZE)));
        }
        pos = pos + ENTRY_SIZE;
    }
    proof {
        assert(buf@.skip(n as int) =~= Seq::<u8>::empty());
        assert(entries_from_bytes(buf@.skip(HEADER_SIZE as int)) =~= values@);
    }
    Ok(Matrix { values })
}

} // verus!
