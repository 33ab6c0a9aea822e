//! The fixed-size descriptor in front of a container, and the layout of a
//! metadata blob that names the file it belongs to.

use crate::error::Error;
use byteorder::{ByteOrder, LittleEndian, WriteBytesExt};
use vstd::arithmetic::div_mod::{lemma_div_denominator, lemma_fundamental_div_mod_converse};
use vstd::prelude::*;
use vstd::slice::{slice_subrange, slice_to_vec};

verus! {

/// Length of an encoded descriptor.
pub const DESCRIPTOR_LEN: usize = 16;

/// Length of the fixed part of a path metadata blob: mode, mtime, ctime.
pub const PATH_METADATA_FIXED_LEN: usize = 20;

/// Mask of the file-type bits of a mode.
pub const S_IFMT: u32 = 0o170000;

/// File-type bits of a regular file.
pub const S_IFREG: u32 = 0o100000;

/// The number that the first four bytes of `s` spell, lowest byte first.
pub open spec fn le32(s: Seq<u8>) -> nat {
    (s[0] as nat) + 0x100 * (s[1] as nat) + 0x1_0000 * (s[2] as nat) + 0x100_0000 * (s[3] as nat)
}

/// The number that the first eight bytes of `s` spell, lowest byte first.
pub open spec fn le64(s: Seq<u8>) -> nat {
    le32(s) + 0x1_0000_0000 * le32(s.skip(4))
}

/// The four bytes of `x`, lowest first.
pub open spec fn le32_bytes(x: u32) -> Seq<u8> {
    seq![
        (x as nat % 0x100) as u8,
        (x as nat / 0x100 % 0x100) as u8,
        (x as nat / 0x1_0000 % 0x100) as u8,
        (x as nat / 0x100_0000 % 0x100) as u8,
    ]
}

/// The eight bytes of `x`, lowest first.
pub open spec fn le64_bytes(x: u64) -> Seq<u8> {
    le32_bytes((x as nat % 0x1_0000_0000) as u32) + le32_bytes((x as nat / 0x1_0000_0000) as u32)
}

/// Reading back the bytes of a number gives the number.
pub proof fn lemma_le32_of_bytes(x: u32)
    ensures
        le32_bytes(x).len() == 4,
        le32(le32_bytes(x)) == x,
{
}

/// A byte in front of a number: dividing by 256 takes it off again.
proof fn lemma_low_byte(b: nat, rest: nat)
    requires
        b < 0x100,
    ensures
        (b + 0x100 * rest) % 0x100 == b,
        (b + 0x100 * rest) / 0x100 == rest,
{
    lemma_fundamental_div_mod_converse((b + 0x100 * rest) as int, 0x100, rest as int, b as int);
}

/// Writing out the number that four bytes spell gives those bytes.
pub proof fn lemma_le32_bytes_of(s: Seq<u8>)
    requires
        s.len() >= 4,
    ensures
        le32(s) <= u32::MAX,
        le32_bytes(le32(s) as u32) == s.take(4),
{
    let b0 = s[0] as nat;
    let b1 = s[1] as nat;
    let b2 = s[2] as nat;
    let b3 = s[3] as nat;
    let v = le32(s);
    let r1 = b1 + 0x100 * (b2 + 0x100 * b3);
    let r2 = b2 + 0x100 * b3;
    assert(v == b0 + 0x100 * r1);
    lemma_low_byte(b0, r1);
    lemma_low_byte(b1, r2);
    lemma_low_byte(b2, b3);
    assert(v / 0x100 == r1);
    assert(v / 0x1_0000 == r2) by {
        lemma_div_denominator(v as int, 0x100, 0x100);
    }
    assert(v / 0x100_0000 == b3) by {
        lemma_div_denominator(v as int, 0x1_0000, 0x100);
    }
    assert(b3 % 0x100 == b3);
    assert(le32_bytes(v as u32) =~= s.take(4));
}

/// Reading back the bytes of a number gives the number.
pub proof fn lemma_le64_of_bytes(x: u64)
    ensures
        le64_bytes(x).len() == 8,
        le64(le64_bytes(x)) == x,
{
    let lo = (x as nat % 0x1_0000_0000) as u32;
    let hi = (x as nat / 0x1_0000_0000) as u32;
    lemma_le32_of_bytes(lo);
    lemma_le32_of_bytes(hi);
    let b = le64_bytes(x);
    assert(b.skip(4) =~= le32_bytes(hi));
    assert(le32(b) == le32(le32_bytes(lo)));
}

/// Writing out the number that eight bytes spell gives those bytes.
pub proof fn lemma_le64_bytes_of(s: Seq<u8>)
    requires
        s.len() >= 8,
    ensures
        le64(s) <= u64::MAX,
        le64_bytes(le64(s) as u64) == s.take(8),
{
    lemma_le32_bytes_of(s);
    lemma_le32_bytes_of(s.skip(4));
    let lo = le32(s);
    let hi = le32(s.skip(4));
    let x = le64(s);
    lemma_fundamental_div_mod_converse(x as int, 0x1_0000_0000, hi as int, lo as int);
    assert(s.skip(4).take(4) =~= s.subrange(4, 8));
    assert(le64_bytes(x as u64) =~= s.take(8));
}

/// The layout sizes that stand in front of a container.
#[derive(Clone, Copy, Debug, PartialEq, Eq, Structural)]
pub struct Descriptor {
    /// Length of the caller's metadata blob.
    pub metadata_size: u32,
    /// Plaintext bytes in each body chunk but the last.
    pub chunk_size: u32,
    /// Length of the whole plaintext.
    pub plain_size: u64,
}

/// What a metadata blob says of the file it describes.
#[derive(Debug)]
pub struct PathMetadata {
    /// Path of the file, as bytes.
    pub path: Vec<u8>,
    /// File mode bits.
    pub mode: u32,
    /// Time of last modification.
    pub mtime: u64,
    /// Time of last status change.
    pub ctime: u64,
}

/// The sixteen bytes of a descriptor: metadata size, chunk size, plain size.
#[verifier::opaque]
pub open spec fn descriptor_bytes(d: Descriptor) -> Seq<u8> {
    le32_bytes(d.metadata_size) + le32_bytes(d.chunk_size) + le64_bytes(d.plain_size)
}

/// The descriptor that the first sixteen bytes of `s` spell.
#[verifier::opaque]
pub open spec fn descriptor_of(s: Seq<u8>) -> Descriptor {
    Descriptor {
        metadata_size: le32(s) as u32,
        chunk_size: le32(s.skip(4)) as u32,
        plain_size: le64(s.skip(8)) as u64,
    }
}

/// Whether the file-type bits of `mode` are those of a regular file.
pub open spec fn is_regular(mode: u32) -> bool {
    mode & S_IFMT == S_IFREG
}

/// Decoding an encoded descriptor gives it back.
pub proof fn lemma_descriptor_round_trip(d: Descriptor)
    ensures
        descriptor_bytes(d).len() == DESCRIPTOR_LEN,
        descriptor_of(descriptor_bytes(d)) == d,
{
    reveal(descriptor_bytes);
    reveal(descriptor_of);
    let b = descriptor_bytes(d);
    lemma_le32_of_bytes(d.metadata_size);
    lemma_le32_of_bytes(d.chunk_size);
    lemma_le64_of_bytes(d.plain_size);
    assert(b.skip(4).take(4) =~= le32_bytes(d.chunk_size));
    assert(b.skip(8) =~= le64_bytes(d.plain_size));
    assert(le32(b) == le32(le32_bytes(d.metadata_size)));
    assert(le32(b.skip(4)) == le32(b.skip(4).take(4)));
}

/// Encoding the descriptor that sixteen bytes spell gives those bytes, so
/// two different headers never decode to one descriptor.
pub proof fn lemma_descriptor_bytes_of(s: Seq<u8>)
    requires
        s.len() >= DESCRIPTOR_LEN,
    ensures
        descriptor_bytes(descriptor_of(s)) == s.take(DESCRIPTOR_LEN as int),
{
    reveal(descriptor_bytes);
    reveal(descriptor_of);
    lemma_le32_bytes_of(s);
    lemma_le32_bytes_of(s.skip(4));
    lemma_le64_bytes_of(s.skip(8));
    assert(descriptor_bytes(descriptor_of(s)) =~= s.take(16));
}

/// `byteorder`'s `LittleEndian::read_u32`: the number that the first four
/// bytes of the slice spell, lowest byte first. It panics on a shorter slice.
#[verifier::external_body]
fn read_u32_le(buf: &[u8]) -> (r: u32)
    requires
        buf@.len() >= 4,
    ensures
        r == le32(buf@),
{
    LittleEndian::read_u32(buf)
}

/// `byteorder`'s `LittleEndian::read_u64`: the number that the first eight
/// bytes of the slice spell, lowest byte first. It panics on a shorter slice.
#[verifier::external_body]
fn read_u64_le(buf: &[u8]) -> (r: u64)
    requires
        buf@.len() >= 8,
    ensures
        r == le64(buf@),
{
    LittleEndian::read_u64(buf)
}

/// `byteorder`'s `WriteBytesExt::write_u32` on a `Vec<u8>`, which appends
/// the four bytes of `n`, lowest first; writing to a `Vec` does not fail.
#[verifier::external_body]
fn write_u32_le(out: &mut Vec<u8>, n: u32)
    ensures
        final(out)@ == old(out)@ + le32_bytes(n),
{
    let _ = out.write_u32::<LittleEndian>(n);
}

/// `byteorder`'s `WriteBytesExt::write_u64` on a `Vec<u8>`, which appends
/// the eight bytes of `n`, lowest first; writing to a `Vec` does not fail.
#[verifier::external_body]
fn write_u64_le(out: &mut Vec<u8>, n: u64)
    ensures
        final(out)@ == old(out)@ + le64_bytes(n),
{
    let _ = out.write_u64::<LittleEndian>(n);
}

/// Encodes a descriptor as its sixteen bytes.
pub fn encode_descriptor(d: Descriptor) -> (out: Vec<u8>)
    ensures
        out@ == descriptor_bytes(d),
        out@.len() == DESCRIPTOR_LEN,
{
    let mut out: Vec<u8> = Vec::new();
    write_u32_le(&mut out, d.metadata_size);
    write_u32_le(&mut out, d.chunk_size);
    write_u64_le(&mut out, d.plain_size);
    proof {
        reveal(descriptor_bytes);
        lemma_descriptor_round_trip(d);
        assert(out@ =~= descriptor_bytes(d));
    }
    out
}

/// Decodes the descriptor in the first sixteen bytes of `bytes`; fewer
/// bytes are a format error. The descriptor that comes out encodes to
/// those sixteen bytes again.
pub fn decode_descriptor(bytes: &[u8]) -> (r: Result<Descriptor, Error>)
    ensures
        bytes@.len() < DESCRIPTOR_LEN <==> r == Err::<Descriptor, Error>(Error::Format),
        bytes@.len() >= DESCRIPTOR_LEN <==> r == Ok::<Descriptor, Error>(descriptor_of(bytes@)),
        r matches Ok(d) ==> descriptor_bytes(d) == bytes@.take(DESCRIPTOR_LEN as int),
{
    if bytes.len() < DESCRIPTOR_LEN {
        return Err(Error::Format);
    }
    let metadata_size = read_u32_le(bytes);
    let chunk_size = read_u32_le(slice_subrange(bytes, 4, 8));
    let plain_size = read_u64_le(slice_subrange(bytes, 8, 16));
    proof {
        lemma_descriptor_bytes_of(bytes@);
        reveal(descriptor_of);
        let s = bytes@;
        assert(le32(s.subrange(4, 8)) == le32(s.skip(4)));
        assert(le32(s.subrange(8, 16)) == le32(s.skip(8)));
        assert(le32(s.subrange(8, 16).skip(4)) == le32(s.skip(8).skip(4)));
    }
    Ok(Descriptor { metadata_size, chunk_size, plain_size })
}

/// Whether `mode` is that of a regular file.
pub fn mode_is_reg(mode: u32) -> (r: bool)
    ensures
        r == is_regular(mode),
{
    (mode & S_IFMT) == S_IFREG
}

/// Reads a metadata blob as mode, mtime, ctime and path, at offsets 0, 4,
/// 12 and 20; a blob of fewer than twenty bytes is a format error.
pub fn dest_metadata(metadata: &[u8]) -> (r: Result<PathMetadata, Error>)
    ensures
        metadata@.len() < PATH_METADATA_FIXED_LEN <==> r is Err,
        r matches Err(e) ==> e == Error::Format,
        r matches Ok(m) ==> {
            &&& m.mode == le32(metadata@)
            &&& m.mtime == le64(metadata@.skip(4))
            &&& m.ctime == le64(metadata@.skip(12))
            &&& m.path@ == metadata@.skip(PATH_METADATA_FIXED_LEN as int)
        },
{
    if metadata.len() < PATH_METADATA_FIXED_LEN {
        return Err(Error::Format);
    }
    let mode = read_u32_le(metadata);
    let mtime = read_u64_le(slice_subrange(metadata, 4, 12));
    let ctime = read_u64_le(slice_subrange(metadata, 12, 20));
    let path = slice_to_vec(slice_subrange(metadata, 20, metadata.len()));
    proof {
        let s = metadata@;
        assert(le32(s.subrange(4, 12)) == le32(s.skip(4)));
        assert(le32(s.subrange(4, 12).skip(4)) == le32(s.skip(4).skip(4)));
        assert(le32(s.subrange(12, 20)) == le32(s.skip(12)));
        assert(le32(s.subrange(12, 20).skip(4)) == le32(s.skip(12).skip(4)));
        assert(s.subrange(20, s.len() as int) =~= s.skip(20));
    }
    Ok(PathMetadata { path, mode, mtime, ctime })
}

/// A descriptor is read from the first sixteen bytes alone.
pub proof fn lemma_descriptor_of_lead(s: Seq<u8>, lead: Seq<u8>)
    requires
        s.len() >= DESCRIPTOR_LEN,
        lead.len() >= DESCRIPTOR_LEN,
        s.take(DESCRIPTOR_LEN as int) == lead.take(DESCRIPTOR_LEN as int),
    ensures
        descriptor_of(s) == descriptor_of(lead),
{
    reveal(descriptor_of);
    assert forall|i: int| 0 <= i < 16 implies s[i] == lead[i] by {
        assert(s.take(16)[i] == lead.take(16)[i]);
    }
    assert(le32(s.skip(4)) == le32(lead.skip(4)));
    assert(le32(s.skip(8)) == le32(lead.skip(8)));
    assert(le32(s.skip(8).skip(4)) == le32(lead.skip(8).skip(4)));
}

} // verus!
