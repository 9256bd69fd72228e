use vstd::prelude::*;

verus! {

/// The little-endian 16-bit value stored at `s[pos..pos + 2]`.
pub open spec fn le16(s: Seq<u8>, pos: int) -> int {
    s[pos] as int + s[pos + 1] as int * 256
}

/// The little-endian 32-bit value stored at `s[pos..pos + 4]`.
pub open spec fn le32(s: Seq<u8>, pos: int) -> int {
    s[pos] as int + s[pos + 1] as int * 256 + s[pos + 2] as int * 65536 + s[pos + 3] as int
        * 16777216
}

/// The little-endian bytes of a 16-bit value.
pub open spec fn le16_bytes(v: u16) -> Seq<u8> {
    seq![(v % 256) as u8, (v / 256) as u8]
}

/// The little-endian bytes of a 32-bit value.
pub open spec fn le32_bytes(v: u32) -> Seq<u8> {
    seq![
        (v % 256) as u8,
        ((v / 256) % 256) as u8,
        ((v / 65536) % 256) as u8,
        (v / 16777216) as u8,
    ]
}

/// Reads the little-endian 16-bit value at `pos`.
pub fn read_le16(s: &[u8], pos: usize) -> (v: u16)
    requires
        pos + 2 <= s.len(),
    ensures
        v == le16(s@, pos as int),
{
    (s[pos] as u16) + (s[pos + 1] as u16) * 256
}

/// Reads the little-endian 32-bit value at `pos`.
pub fn read_le32(s: &[u8], pos: usize) -> (v: u32)
    requires
        pos + 4 <= s.len(),
    ensures
        v == le32(s@, pos as int),
{
    (s[pos] as u32) + (s[pos + 1] as u32) * 256 + (s[pos + 2] as u32) * 65536 + (s[pos + 3] as u32)
        * 16777216
}

/// Appends the little-endian bytes of a 16-bit value.
pub fn push_le16(out: &mut Vec<u8>, v: u16)
    ensures
        final(out)@ == old(out)@ + le16_bytes(v),
{
    out.push((v % 256) as u8);
    out.push((v / 256) as u8);
    assert(final(out)@ =~= old(out)@ + le16_bytes(v));
}

/// Appends the little-endian bytes of a 32-bit value.
pub fn push_le32(out: &mut Vec<u8>, v: u32)
    ensures
        final(out)@ == old(out)@ + le32_bytes(v),
{
    out.push((v % 256) as u8);
    out.push(((v / 256) % 256) as u8);
    out.push(((v / 65536) % 256) as u8);
    out.push((v / 16777216) as u8);
    assert(final(out)@ =~= old(out)@ + le32_bytes(v));
}

/// Appends all of `data`.
pub fn push_all(out: &mut Vec<u8>, data: &[u8])
    ensures
        final(out)@ == old(out)@ + data@,
{
    let ghost start = out@;
    let mut i: usize = 0;
    while i < data.len()
        invariant
            0 <= i <= data.len(),
            out@ == start + data@.take(i as int),
        decreases data.len() - i,
    {
        out.push(data[i]);
        assert(data@.take(i + 1) =~= data@.take(i as int).push(data@[i as int]));
        i = i + 1;
    }
    assert(data@.take(data.len() as int) =~= data@);
}

/// The bytes `s[from..to]`.
pub fn copy_range(s: &[u8], from: usize, to: usize) -> (r: Vec<u8>)
    requires
        from <= to <= s.len(),
    ensures
        r@ == s@.subrange(from as int, to as int),
{
    let mut r: Vec<u8> = Vec::new();
    let mut i = from;
    while i < to
        invariant
            from <= i <= to <= s.len(),
            r@ == s@.subrange(from as int, i as int),
        decreases to - i,
    {
        r.push(s[i]);
        assert(s@.subrange(from as int, i + 1) =~= s@.subrange(from as int, i as int).push(
            s@[i as int],
        ));
        i = i + 1;
    }
    r
}

/// Reading back the bytes of a little-endian 32-bit value gives the value.
pub proof fn lemma_le32_roundtrip(v: u32)
    ensures
        le32(le32_bytes(v), 0) == v,
{
    let b = le32_bytes(v);
    assert(b[0] as int == v % 256);
    assert(b[1] as int == (v / 256) % 256);
    assert(b[2] as int == (v / 65536) % 256);
    assert(b[3] as int == v / 16777216);
    assert(v as int == v % 256 + ((v / 256) % 256) * 256 + ((v / 65536) % 256) * 65536 + (v
        / 16777216) * 16777216) by (nonlinear_arith);
}

/// Reading back the bytes of a little-endian 16-bit value gives the value.
pub proof fn lemma_le16_roundtrip(v: u16)
    ensures
        le16(le16_bytes(v), 0) == v,
{
    let b = le16_bytes(v);
    assert(b[0] as int == v % 256);
    assert(b[1] as int == v / 256);
}

} // verus!
