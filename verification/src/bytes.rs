//! Fixed-width integer encodings used by the wire formats: the byte
//! sequences a value is written as, the values a byte window is read as,
//! and the facts that the two undo each other.

use vstd::prelude::*;

verus! {

/// The two bytes of `v`, most significant first.
pub open spec fn be16(v: u16) -> Seq<u8> {
    seq![(v >> 8u16) as u8, v as u8]
}

/// The four bytes of `v`, most significant first.
pub open spec fn be32(v: u32) -> Seq<u8> {
    seq![(v >> 24u32) as u8, (v >> 16u32) as u8, (v >> 8u32) as u8, v as u8]
}

/// The eight bytes of `v`, most significant first.
pub open spec fn be64(v: u64) -> Seq<u8> {
    seq![
        (v >> 56u64) as u8,
        (v >> 48u64) as u8,
        (v >> 40u64) as u8,
        (v >> 32u64) as u8,
        (v >> 24u64) as u8,
        (v >> 16u64) as u8,
        (v >> 8u64) as u8,
        v as u8,
    ]
}

/// The two bytes of `v`, least significant first.
pub open spec fn le16(v: u16) -> Seq<u8> {
    seq![v as u8, (v >> 8u16) as u8]
}

/// The four bytes of `v`, least significant first.
pub open spec fn le32(v: u32) -> Seq<u8> {
    seq![v as u8, (v >> 8u32) as u8, (v >> 16u32) as u8, (v >> 24u32) as u8]
}

/// The eight bytes of `v`, least significant first.
pub open spec fn le64(v: u64) -> Seq<u8> {
    seq![
        v as u8,
        (v >> 8u64) as u8,
        (v >> 16u64) as u8,
        (v >> 24u64) as u8,
        (v >> 32u64) as u8,
        (v >> 40u64) as u8,
        (v >> 48u64) as u8,
        (v >> 56u64) as u8,
    ]
}

/// The value of the first two bytes of `s`, read most significant first.
pub open spec fn from_be16(s: Seq<u8>) -> u16 {
    ((s[0] as u16) << 8u16) | (s[1] as u16)
}

/// The value of the first four bytes of `s`, read most significant first.
pub open spec fn from_be32(s: Seq<u8>) -> u32 {
    ((s[0] as u32) << 24u32) | ((s[1] as u32) << 16u32) | ((s[2] as u32) << 8u32) | (s[3] as u32)
}

/// The value of the first eight bytes of `s`, read most significant first.
pub open spec fn from_be64(s: Seq<u8>) -> u64 {
    ((s[0] as u64) << 56u64) | ((s[1] as u64) << 48u64) | ((s[2] as u64) << 40u64) | ((
    s[3] as u64) << 32u64) | ((s[4] as u64) << 24u64) | ((s[5] as u64) << 16u64) | ((s[6] as u64)
        << 8u64) | (s[7] as u64)
}

/// The value of the first two bytes of `s`, read least significant first.
pub open spec fn from_le16(s: Seq<u8>) -> u16 {
    (s[0] as u16) | ((s[1] as u16) << 8u16)
}

/// The value of the first four bytes of `s`, read least significant first.
pub open spec fn from_le32(s: Seq<u8>) -> u32 {
    (s[0] as u32) | ((s[1] as u32) << 8u32) | ((s[2] as u32) << 16u32) | ((s[3] as u32) << 24u32)
}

/// The value of the first eight bytes of `s`, read least significant first.
pub open spec fn from_le64(s: Seq<u8>) -> u64 {
    (s[0] as u64) | ((s[1] as u64) << 8u64) | ((s[2] as u64) << 16u64) | ((s[3] as u64) << 24u64)
        | ((s[4] as u64) << 32u64) | ((s[5] as u64) << 40u64) | ((s[6] as u64) << 48u64) | ((
    s[7] as u64) << 56u64)
}

/// Reading back the big-endian bytes of a `u16` gives the value.
pub proof fn lemma_be16_roundtrip(v: u16)
    ensures
        from_be16(be16(v)) == v,
{
    let b0 = (v >> 8u16) as u8;
    let b1 = v as u8;
    assert(from_be16(be16(v)) == ((b0 as u16) << 8u16) | (b1 as u16));
    assert(((((v >> 8u16) as u8) as u16) << 8u16) | ((v as u8) as u16) == v) by (bit_vector);
}

/// The big-endian bytes of the value read from two bytes are those bytes.
pub proof fn lemma_be16_bytes_roundtrip(s: Seq<u8>)
    requires
        s.len() == 2,
    ensures
        be16(from_be16(s)) == s,
{
    let b0 = s[0];
    let b1 = s[1];
    let x = from_be16(s);
    assert(x == ((b0 as u16) << 8u16) | (b1 as u16));
    assert((((((b0 as u16) << 8u16) | (b1 as u16)) >> 8u16) as u8) == b0) by (bit_vector);
    assert(((((b0 as u16) << 8u16) | (b1 as u16)) as u8) == b1) by (bit_vector);
    assert(be16(x) =~= s);
}

/// Reading back the big-endian bytes of a `u32` gives the value.
pub proof fn lemma_be32_roundtrip(v: u32)
    ensures
        from_be32(be32(v)) == v,
{
    let s = be32(v);
    assert(from_be32(s) == ((((v >> 24u32) as u8) as u32) << 24u32) | ((((v >> 16u32) as u8) as u32)
        << 16u32) | ((((v >> 8u32) as u8) as u32) << 8u32) | ((v as u8) as u32));
    assert(((((v >> 24u32) as u8) as u32) << 24u32) | ((((v >> 16u32) as u8) as u32) << 16u32) | ((((v
        >> 8u32) as u8) as u32) << 8u32) | ((v as u8) as u32) == v) by (bit_vector);
}

/// The big-endian bytes of the value read from four bytes are those bytes.
pub proof fn lemma_be32_bytes_roundtrip(s: Seq<u8>)
    requires
        s.len() == 4,
    ensures
        be32(from_be32(s)) == s,
{
    let (b0, b1, b2, b3) = (s[0], s[1], s[2], s[3]);
    let x = from_be32(s);
    assert(x == ((b0 as u32) << 24u32) | ((b1 as u32) << 16u32) | ((b2 as u32) << 8u32) | (
    b3 as u32));
    assert({
        let x = ((b0 as u32) << 24u32) | ((b1 as u32) << 16u32) | ((b2 as u32) << 8u32) | (
        b3 as u32);
        &&& ((x >> 24u32) as u8) == b0
        &&& ((x >> 16u32) as u8) == b1
        &&& ((x >> 8u32) as u8) == b2
        &&& (x as u8) == b3
    }) by (bit_vector);
    assert(be32(x) =~= s);
}

/// Reading back the big-endian bytes of a `u64` gives the value.
pub proof fn lemma_be64_roundtrip(v: u64)
    ensures
        from_be64(be64(v)) == v,
{
    let s = be64(v);
    assert(from_be64(s) == ((((v >> 56u64) as u8) as u64) << 56u64) | ((((v >> 48u64) as u8) as u64)
        << 48u64) | ((((v >> 40u64) as u8) as u64) << 40u64) | ((((v >> 32u64) as u8) as u64)
        << 32u64) | ((((v >> 24u64) as u8) as u64) << 24u64) | ((((v >> 16u64) as u8) as u64)
        << 16u64) | ((((v >> 8u64) as u8) as u64) << 8u64) | ((v as u8) as u64));
    assert(((((v >> 56u64) as u8) as u64) << 56u64) | ((((v >> 48u64) as u8) as u64) << 48u64) | ((((v
        >> 40u64) as u8) as u64) << 40u64) | ((((v >> 32u64) as u8) as u64) << 32u64) | ((((v
        >> 24u64) as u8) as u64) << 24u64) | ((((v >> 16u64) as u8) as u64) << 16u64) | ((((v
        >> 8u64) as u8) as u64) << 8u64) | ((v as u8) as u64) == v) by (bit_vector);
}

/// The big-endian bytes of the value read from eight bytes are those bytes.
pub proof fn lemma_be64_bytes_roundtrip(s: Seq<u8>)
    requires
        s.len() == 8,
    ensures
        be64(from_be64(s)) == s,
{
    let (b0, b1, b2, b3, b4, b5, b6, b7) = (s[0], s[1], s[2], s[3], s[4], s[5], s[6], s[7]);
    let x = from_be64(s);
    assert(x == ((b0 as u64) << 56u64) | ((b1 as u64) << 48u64) | ((b2 as u64) << 40u64) | ((
    b3 as u64) << 32u64) | ((b4 as u64) << 24u64) | ((b5 as u64) << 16u64) | ((b6 as u64)
        << 8u64) | (b7 as u64));
    assert({
        let x = ((b0 as u64) << 56u64) | ((b1 as u64) << 48u64) | ((b2 as u64) << 40u64) | ((
        b3 as u64) << 32u64) | ((b4 as u64) << 24u64) | ((b5 as u64) << 16u64) | ((b6 as u64)
            << 8u64) | (b7 as u64);
        &&& ((x >> 56u64) as u8) == b0
        &&& ((x >> 48u64) as u8) == b1
        &&& ((x >> 40u64) as u8) == b2
        &&& ((x >> 32u64) as u8) == b3
        &&& ((x >> 24u64) as u8) == b4
        &&& ((x >> 16u64) as u8) == b5
        &&& ((x >> 8u64) as u8) == b6
        &&& (x as u8) == b7
    }) by (bit_vector);
    assert(be64(x) =~= s);
}

/// Reading back the little-endian bytes of a `u16` gives the value.
pub proof fn lemma_le16_roundtrip(v: u16)
    ensures
        from_le16(le16(v)) == v,
{
    assert(from_le16(le16(v)) == ((v as u8) as u16) | ((((v >> 8u16) as u8) as u16) << 8u16));
    assert(((v as u8) as u16) | ((((v >> 8u16) as u8) as u16) << 8u16) == v) by (bit_vector);
}

/// Reading back the little-endian bytes of a `u32` gives the value.
pub proof fn lemma_le32_roundtrip(v: u32)
    ensures
        from_le32(le32(v)) == v,
{
    assert(from_le32(le32(v)) == ((v as u8) as u32) | ((((v >> 8u32) as u8) as u32) << 8u32) | ((((v
        >> 16u32) as u8) as u32) << 16u32) | ((((v >> 24u32) as u8) as u32) << 24u32));
    assert(((v as u8) as u32) | ((((v >> 8u32) as u8) as u32) << 8u32) | ((((v >> 16u32) as u8) as u32)
        << 16u32) | ((((v >> 24u32) as u8) as u32) << 24u32) == v) by (bit_vector);
}

/// Reading back the little-endian bytes of a `u64` gives the value.
pub proof fn lemma_le64_roundtrip(v: u64)
    ensures
        from_le64(le64(v)) == v,
{
    assert(from_le64(le64(v)) == ((v as u8) as u64) | ((((v >> 8u64) as u8) as u64) << 8u64) | ((((v
        >> 16u64) as u8) as u64) << 16u64) | ((((v >> 24u64) as u8) as u64) << 24u64) | ((((v
        >> 32u64) as u8) as u64) << 32u64) | ((((v >> 40u64) as u8) as u64) << 40u64) | ((((v
        >> 48u64) as u8) as u64) << 48u64) | ((((v >> 56u64) as u8) as u64) << 56u64));
    assert(((v as u8) as u64) | ((((v >> 8u64) as u8) as u64) << 8u64) | ((((v >> 16u64) as u8) as u64)
        << 16u64) | ((((v >> 24u64) as u8) as u64) << 24u64) | ((((v >> 32u64) as u8) as u64)
        << 32u64) | ((((v >> 40u64) as u8) as u64) << 40u64) | ((((v >> 48u64) as u8) as u64)
        << 48u64) | ((((v >> 56u64) as u8) as u64) << 56u64) == v) by (bit_vector);
}

/// Appends the big-endian bytes of `v`.
pub fn push_be16(buf: &mut Vec<u8>, v: u16)
    ensures
        final(buf)@ == old(buf)@ + be16(v),
{
    buf.push((v >> 8u16) as u8);
    buf.push(v as u8);
    assert(buf@ =~= old(buf)@ + be16(v));
}

/// Appends the big-endian bytes of `v`.
pub fn push_be32(buf: &mut Vec<u8>, v: u32)
    ensures
        final(buf)@ == old(buf)@ + be32(v),
{
    buf.push((v >> 24u32) as u8);
    buf.push((v >> 16u32) as u8);
    buf.push((v >> 8u32) as u8);
    buf.push(v as u8);
    assert(buf@ =~= old(buf)@ + be32(v));
}

/// Appends the big-endian bytes of `v`.
pub fn push_be64(buf: &mut Vec<u8>, v: u64)
    ensures
        final(buf)@ == old(buf)@ + be64(v),
{
    buf.push((v >> 56u64) as u8);
    buf.push((v >> 48u64) as u8);
    buf.push((v >> 40u64) as u8);
    buf.push((v >> 32u64) as u8);
    buf.push((v >> 24u64) as u8);
    buf.push((v >> 16u64) as u8);
    buf.push((v >> 8u64) as u8);
    buf.push(v as u8);
    assert(buf@ =~= old(buf)@ + be64(v));
}

/// Appends the little-endian bytes of `v`.
pub fn push_le16(buf: &mut Vec<u8>, v: u16)
    ensures
        final(buf)@ == old(buf)@ + le16(v),
{
    buf.push(v as u8);
    buf.push((v >> 8u16) as u8);
    assert(buf@ =~= old(buf)@ + le16(v));
}

/// Appends the little-endian bytes of `v`.
pub fn push_le32(buf: &mut Vec<u8>, v: u32)
    ensures
        final(buf)@ == old(buf)@ + le32(v),
{
    buf.push(v as u8);
    buf.push((v >> 8u32) as u8);
    buf.push((v >> 16u32) as u8);
    buf.push((v >> 24u32) as u8);
    assert(buf@ =~= old(buf)@ + le32(v));
}

/// Appends the little-endian bytes of `v`.
pub fn push_le64(buf: &mut Vec<u8>, v: u64)
    ensures
        final(buf)@ == old(buf)@ + le64(v),
{
    buf.push(v as u8);
    buf.push((v >> 8u64) as u8);
    buf.push((v >> 16u64) as u8);
    buf.push((v >> 24u64) as u8);
    buf.push((v >> 32u64) as u8);
    buf.push((v >> 40u64) as u8);
    buf.push((v >> 48u64) as u8);
    buf.push((v >> 56u64) as u8);
    assert(buf@ =~= old(buf)@ + le64(v));
}

/// Appends every byte of `data`.
pub fn push_all(buf: &mut Vec<u8>, data: &[u8])
    ensures
        final(buf)@ == old(buf)@ + data@,
{
    let mut i: usize = 0;
    while i < data.len()
        invariant
            i <= data@.len(),
            buf@ == old(buf)@ + data@.subrange(0, i as int),
        decreases data@.len() - i,
    {
        buf.push(data[i]);
        i = i + 1;
        assert(data@.subrange(0, i as int) =~= data@.subrange(0, i - 1) + seq![data@[i - 1]]);
        assert(buf@ =~= old(buf)@ + data@.subrange(0, i as int));
    }
    assert(data@.subrange(0, data@.len() as int) =~= data@);
}

/// The bytes `data[pos..pos + len]` as a new vector.
pub fn copy_range(data: &[u8], pos: usize, len: usize) -> (out: Vec<u8>)
    requires
        pos + len <= data@.len(),
    ensures
        out@ == data@.subrange(pos as int, pos + len),
{
    let mut out: Vec<u8> = Vec::new();
    let mut i: usize = 0;
    while i < len
        invariant
            i <= len,
            pos + len <= data@.len(),
            data@.len() == data.len(),
            out@ == data@.subrange(pos as int, pos + i),
        decreases len - i,
    {
        out.push(data[pos + i]);
        i = i + 1;
        assert(out@ =~= data@.subrange(pos as int, pos + i));
    }
    out
}

/// The big-endian `u16` at `data[pos..pos + 2]`.
pub fn read_be16(data: &[u8], pos: usize) -> (v: u16)
    requires
        pos + 2 <= data@.len(),
    ensures
        v == from_be16(data@.subrange(pos as int, pos + 2)),
{
    ((data[pos] as u16) << 8u16) | (data[pos + 1] as u16)
}

/// The big-endian `u32` at `data[pos..pos + 4]`.
pub fn read_be32(data: &[u8], pos: usize) -> (v: u32)
    requires
        pos + 4 <= data@.len(),
    ensures
        v == from_be32(data@.subrange(pos as int, pos + 4)),
{
    ((data[pos] as u32) << 24u32) | ((data[pos + 1] as u32) << 16u32) | ((data[pos + 2] as u32)
        << 8u32) | (data[pos + 3] as u32)
}

/// The big-endian `u64` at `data[pos..pos + 8]`.
pub fn read_be64(data: &[u8], pos: usize) -> (v: u64)
    requires
        pos + 8 <= data@.len(),
    ensures
        v == from_be64(data@.subrange(pos as int, pos + 8)),
{
    ((data[pos] as u64) << 56u64) | ((data[pos + 1] as u64) << 48u64) | ((data[pos + 2] as u64)
        << 40u64) | ((data[pos + 3] as u64) << 32u64) | ((data[pos + 4] as u64) << 24u64) | ((
    data[pos + 5] as u64) << 16u64) | ((data[pos + 6] as u64) << 8u64) | (data[pos + 7] as u64)
}

/// The little-endian `u16` at `data[pos..pos + 2]`.
pub fn read_le16(data: &[u8], pos: usize) -> (v: u16)
    requires
        pos + 2 <= data@.len(),
    ensures
        v == from_le16(data@.subrange(pos as int, pos + 2)),
{
    (data[pos] as u16) | ((data[pos + 1] as u16) << 8u16)
}

/// The little-endian `u32` at `data[pos..pos + 4]`.
pub fn read_le32(data: &[u8], pos: usize) -> (v: u32)
    requires
        pos + 4 <= data@.len(),
    ensures
        v == from_le32(data@.subrange(pos as int, pos + 4)),
{
    (data[pos] as u32) | ((data[pos + 1] as u32) << 8u32) | ((data[pos + 2] as u32) << 16u32) | ((
    data[pos + 3] as u32) << 24u32)
}

/// The little-endian `u64` at `data[pos..pos + 8]`.
pub fn read_le64(data: &[u8], pos: usize) -> (v: u64)
    requires
        pos + 8 <= data@.len(),
    ensures
        v == from_le64(data@.subrange(pos as int, pos + 8)),
{
    (data[pos] as u64) | ((data[pos + 1] as u64) << 8u64) | ((data[pos + 2] as u64) << 16u64) | ((
    data[pos + 3] as u64) << 24u64) | ((data[pos + 4] as u64) << 32u64) | ((data[pos + 5] as u64)
        << 40u64) | ((data[pos + 6] as u64) << 48u64) | ((data[pos + 7] as u64) << 56u64)
}


/// `i` is where `a` and `b` part: they agree before it, and there `a` has
/// either run out while `b` goes on, or holds the smaller byte.
pub open spec fn lex_split(a: Seq<u8>, b: Seq<u8>, i: int) -> bool {
    &&& 0 <= i <= a.len()
    &&& i <= b.len()
    &&& forall|j: int| 0 <= j < i ==> a[j] == b[j]
    &&& ((i == a.len() && i < b.len()) || (i < a.len() && i < b.len() && a[i] < b[i]))
}

/// `a` sorts strictly before `b` in lexicographic byte order (the order of
/// byte slices and of strings).
pub open spec fn lex_less(a: Seq<u8>, b: Seq<u8>) -> bool {
    exists|i: int| #[trigger] lex_split(a, b, i)
}

proof fn lemma_lex_first_difference(a: Seq<u8>, b: Seq<u8>, n: int)
    requires
        0 <= n <= a.len(),
        n <= b.len(),
        forall|j: int| 0 <= j < n ==> a[j] == b[j],
    ensures
        lex_less(a, b) || lex_less(b, a) || a == b,
    decreases a.len() - n,
{
    if n == a.len() && n == b.len() {
        assert(a =~= b);
    } else if n == a.len() {
        assert(lex_split(a, b, n));
    } else if n == b.len() {
        assert(lex_split(b, a, n));
    } else if a[n] < b[n] {
        assert(lex_split(a, b, n));
    } else if b[n] < a[n] {
        assert(lex_split(b, a, n));
    } else {
        lemma_lex_first_difference(a, b, n + 1);
    }
}

/// Lexicographic byte order is a strict total order: of two byte strings,
/// exactly one is smaller, unless they are equal.
pub proof fn lemma_lex_trichotomy(a: Seq<u8>, b: Seq<u8>)
    ensures
        a == b ==> !lex_less(a, b),
        a != b ==> (lex_less(a, b) <==> !lex_less(b, a)),
{
    if lex_less(a, b) && lex_less(b, a) {
        let i = choose|i: int| lex_split(a, b, i);
        let j = choose|j: int| lex_split(b, a, j);
        if i < j {
            assert(b[i] == a[i]);
        } else if j < i {
            assert(a[j] == b[j]);
        }
    }
    if a == b && lex_less(a, b) {
        let i = choose|i: int| lex_split(a, b, i);
    }
    if a != b {
        lemma_lex_first_difference(a, b, 0);
    }
}

/// Whether `a` sorts strictly before `b`, comparing bytes.
pub fn lex_less_bytes(a: &[u8], b: &[u8]) -> (r: bool)
    ensures
        r == lex_less(a@, b@),
{
    let mut i: usize = 0;
    while i < a.len() && i < b.len()
        invariant
            i <= a@.len(),
            i <= b@.len(),
            forall|j: int| 0 <= j < i ==> a@[j] == b@[j],
        decreases a@.len() - i,
    {
        if a[i] != b[i] {
            proof {
                lemma_lex_trichotomy(a@, b@);
                if a[i as int] < b[i as int] {
                    assert(lex_split(a@, b@, i as int));
                } else {
                    assert(lex_split(b@, a@, i as int));
                }
            }
            return a[i] < b[i];
        }
        i = i + 1;
    }
    proof {
        lemma_lex_trichotomy(a@, b@);
        if i < b@.len() {
            assert(lex_split(a@, b@, i as int));
        } else if i < a@.len() {
            assert(lex_split(b@, a@, i as int));
        } else {
            assert(a@ =~= b@);
        }
    }
    i < b.len()
}

} // verus!
