//! Little- and big-endian integers in byte sequences.
use vstd::prelude::*;

verus! {

pub open spec fn le16(s: Seq<u8>, p: int) -> nat {
    s[p] as nat + 256 * (s[p + 1] as nat)
}

pub open spec fn le32(s: Seq<u8>, p: int) -> nat {
    s[p] as nat + 256 * (s[p + 1] as nat) + 65536 * (s[p + 2] as nat) + 16777216 * (
    s[p + 3] as nat)
}

pub open spec fn be32(s: Seq<u8>, p: int) -> nat {
    16777216 * (s[p] as nat) + 65536 * (s[p + 1] as nat) + 256 * (s[p + 2] as nat) + (s[p
        + 3] as nat)
}

pub open spec fn le16_bytes(v: u16) -> Seq<u8> {
    seq![(v % 256) as u8, (v / 256) as u8]
}

pub open spec fn le32_bytes(v: u32) -> Seq<u8> {
    seq![
        (v % 256) as u8,
        ((v / 256) % 256) as u8,
        ((v / 65536) % 256) as u8,
        (v / 16777216) as u8,
    ]
}

pub open spec fn be32_bytes(v: u32) -> Seq<u8> {
    seq![
        (v / 16777216) as u8,
        ((v / 65536) % 256) as u8,
        ((v / 256) % 256) as u8,
        (v % 256) as u8,
    ]
}

pub fn read_le16(s: &[u8], p: usize) -> (r: u16)
    requires
        p + 2 <= s@.len(),
    ensures
        r as nat == le16(s@, p as int),
{
    (s[p] as u16) + 256 * (s[p + 1] as u16)
}

pub fn read_le32(s: &[u8], p: usize) -> (r: u32)
    requires
        p + 4 <= s@.len(),
    ensures
        r as nat == le32(s@, p as int),
{
    (s[p] as u32) + 256 * (s[p + 1] as u32) + 65536 * (s[p + 2] as u32) + 16777216 * (s[p
        + 3] as u32)
}

pub fn read_be32(s: &[u8], p: usize) -> (r: u32)
    requires
        p + 4 <= s@.len(),
    ensures
        r as nat == be32(s@, p as int),
{
    16777216 * (s[p] as u32) + 65536 * (s[p + 1] as u32) + 256 * (s[p + 2] as u32) + (s[p
        + 3] as u32)
}

pub fn push_le16(out: &mut Vec<u8>, v: u16)
    ensures
        final(out)@ == old(out)@ + le16_bytes(v),
{
    out.push((v % 256) as u8);
    out.push((v / 256) as u8);
    assert(final(out)@ =~= old(out)@ + le16_bytes(v));
}

pub fn push_le32(out: &mut Vec<u8>, v: u32)
    ensures
        final(out)@ == old(out)@ + le32_bytes(v),
{
    out.push((v % 256) as u8);
    out.push(((v / 256) % 256) as u8);
    out.push(((v / 65536) % 256) as u8);
    out.push((v / 16777216) as u8);
    assert(final(out)@ =~= old(out)@ + le32_bytes(v));
}

pub fn push_be32(out: &mut Vec<u8>, v: u32)
    ensures
        final(out)@ == old(out)@ + be32_bytes(v),
{
    out.push((v / 16777216) as u8);
    out.push(((v / 65536) % 256) as u8);
    out.push(((v / 256) % 256) as u8);
    out.push((v % 256) as u8);
    assert(final(out)@ =~= old(out)@ + be32_bytes(v));
}

/// Reading back a written little-endian `u16` gives the value.
pub proof fn lemma_le16_round_trip(v: u16, pre: Seq<u8>, post: Seq<u8>)
    ensures
        le16(pre + le16_bytes(v) + post, pre.len() as int) == v,
{
    let s = pre + le16_bytes(v) + post;
    assert(s[pre.len() as int] == (v % 256) as u8);
    assert(s[pre.len() as int + 1] == (v / 256) as u8);
}

/// Reading back a written little-endian `u32` gives the value.
pub proof fn lemma_le32_round_trip(v: u32, pre: Seq<u8>, post: Seq<u8>)
    ensures
        le32(pre + le32_bytes(v) + post, pre.len() as int) == v,
{
    let s = pre + le32_bytes(v) + post;
    let p = pre.len() as int;
    assert(s[p] == (v % 256) as u8);
    assert(s[p + 1] == ((v / 256) % 256) as u8);
    assert(s[p + 2] == ((v / 65536) % 256) as u8);
    assert(s[p + 3] == (v / 16777216) as u8);
}

/// Reading back a written big-endian `u32` gives the value.
pub proof fn lemma_be32_round_trip(v: u32, pre: Seq<u8>, post: Seq<u8>)
    ensures
        be32(pre + be32_bytes(v) + post, pre.len() as int) == v,
{
    let s = pre + be32_bytes(v) + post;
    let p = pre.len() as int;
    assert(s[p] == (v / 16777216) as u8);
    assert(s[p + 1] == ((v / 65536) % 256) as u8);
    assert(s[p + 2] == ((v / 256) % 256) as u8);
    assert(s[p + 3] == (v % 256) as u8);
}

} // verus!

verus! {

/// Appends the bytes of `b`.
pub fn push_bytes(out: &mut Vec<u8>, b: &[u8])
    ensures
        final(out)@ == old(out)@ + b@,
{
    let mut i: usize = 0;
    while i < b.len()
        invariant
            i <= b@.len(),
            out@ == old(out)@ + b@.take(i as int),
        decreases b@.len() - i,
    {
        out.push(b[i]);
        assert(b@.take(i + 1) =~= b@.take(i as int).push(b@[i as int]));
        i = i + 1;
    }
    assert(b@.take(b@.len() as int) =~= b@);
}

} // verus!
