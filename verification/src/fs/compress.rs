//! Transparent zstd compression for cold file data: an 8-byte header (magic
//! and original size) in front of a zstd frame, used only when it shrinks
//! the data.
use vstd::prelude::*;
use vstd::bytes::*;
use vstd::slice::*;
use crate::codec::{append_bytes, append_u32, copy_range, le32_at, read_le32};

verus! {

pub const COMPRESS_MAGIC: u32 = 0x5A535444;
pub const COMPRESS_HEADER_SIZE: usize = 8;

/// Data shorter than this is never compressed.
pub const MIN_COMPRESS_LEN: usize = 512;

/// Name for what `zstd::encode_all` gives for `data` at compression
/// `level`: the frame, or `None` when encoding fails.
pub uninterp spec fn zstd_encoded(data: Seq<u8>, level: i32) -> Option<Seq<u8>>;

/// Name for what streaming `payload` through a `zstd::Decoder` produces.
pub uninterp spec fn zstd_stream_output(payload: Seq<u8>) -> Seq<u8>;

/// Calls `zstd::encode_all(data, level)`. The outcome, frame or failure, is
/// the named outcome for exactly this input and level, and zstd's format
/// guarantees that decoding a frame it produced gives the input back. On
/// which inputs encoding fails is not stated.
#[verifier::external_body]
fn zstd_encode(data: &[u8], level: i32) -> (r: Option<Vec<u8>>)
    ensures
        r is Some <==> zstd_encoded(data@, level) is Some,
        r matches Some(v) ==> v@ == zstd_encoded(data@, level).unwrap(),
        r matches Some(v) ==> zstd_stream_output(v@) == data@,
{
    zstd::encode_all(data, level).ok()
}

/// Streams `payload` through `zstd::Decoder::new` and `read_to_end`,
/// keeping what was decoded before any error. The result is the named
/// output for exactly this payload.
#[verifier::external_body]
fn zstd_decode(payload: &[u8]) -> (r: Vec<u8>)
    ensures
        r@ == zstd_stream_output(payload@),
{
    let mut out = Vec::new();
    if let Ok(mut decoder) = zstd::Decoder::new(payload) {
        let _ = std::io::Read::read_to_end(&mut decoder, &mut out);
    }
    out
}

/// The header written in front of a compressed frame.
pub open spec fn compress_header(len: nat) -> Seq<u8> {
    spec_u32_to_le_bytes(COMPRESS_MAGIC) + spec_u32_to_le_bytes(len as u32)
}

/// Data that starts with the compression magic.
pub open spec fn has_magic(data: Seq<u8>) -> bool {
    data.len() >= 4 && le32_at(data, 0) == COMPRESS_MAGIC
}

/// zstd encodes `data` at level 3 into a frame shorter than `data`, and
/// `data` is long enough to be worth compressing.
pub open spec fn shrinks(data: Seq<u8>) -> bool {
    &&& data.len() >= MIN_COMPRESS_LEN
    &&& zstd_encoded(data, 3) is Some
    &&& zstd_encoded(data, 3).unwrap().len() < data.len()
}

/// What `compress` stores for `data`: header and frame when compression
/// shrinks it, otherwise the data unchanged.
pub open spec fn compressed_form(data: Seq<u8>) -> Seq<u8> {
    if shrinks(data) {
        compress_header(data.len()) + zstd_encoded(data, 3).unwrap()
    } else {
        data
    }
}

/// What `decompress` gives back for `stored`.
pub open spec fn decompressed(stored: Seq<u8>) -> Seq<u8> {
    if stored.len() < COMPRESS_HEADER_SIZE || le32_at(stored, 0) != COMPRESS_MAGIC {
        stored
    } else {
        zstd_stream_output(stored.subrange(COMPRESS_HEADER_SIZE as int, stored.len() as int))
    }
}

/// Compress data if it is worth it (at least 512 bytes and zstd shrinks it):
/// header and frame, or else the data unchanged. Decompressing the result
/// gives the data back, unless it was kept as is and starts with the magic.
pub fn compress(data: &[u8]) -> (r: Vec<u8>)
    ensures
        r@ == compressed_form(data@),
        r@ != data@ ==> zstd_stream_output(r@.subrange(COMPRESS_HEADER_SIZE as int, r@.len() as int)) == data@,
        (shrinks(data@) || !has_magic(data@)) ==> decompressed(r@) == data@,
{
    let n = data.len();
    if n < MIN_COMPRESS_LEN {
        let same = copy_range(data, 0, n);
        assert(same@ =~= data@);
        proof {
            lemma_kept_roundtrip(data@);
        }
        return same;
    }
    let compressed = match zstd_encode(data, 3) {
        Some(v) => v,
        None => {
            let same = copy_range(data, 0, n);
            assert(same@ =~= data@);
            proof {
                lemma_kept_roundtrip(data@);
            }
            return same;
        },
    };
    if compressed.len() >= n {
        let same = copy_range(data, 0, n);
        assert(same@ =~= data@);
        proof {
            lemma_kept_roundtrip(data@);
        }
        return same;
    }
    let mut out: Vec<u8> = Vec::new();
    append_u32(&mut out, COMPRESS_MAGIC);
    append_u32(&mut out, #[verifier::truncate] (n as u32));
    append_bytes(&mut out, compressed.as_slice());
    proof {
        lemma_auto_spec_u32_to_from_le_bytes();
        assert(out@ =~= compress_header(data@.len()) + compressed@);
        assert(out@.subrange(0, 4) =~= spec_u32_to_le_bytes(COMPRESS_MAGIC));
        assert(out@.subrange(COMPRESS_HEADER_SIZE as int, out@.len() as int) =~= compressed@);
    }
    out
}

proof fn lemma_kept_roundtrip(data: Seq<u8>)
    ensures
        !has_magic(data) ==> decompressed(data) == data,
{
}

/// Decompress data that carries the compression header; anything else is
/// returned as it is.
pub fn decompress(data: &[u8]) -> (r: Vec<u8>)
    ensures
        r@ == decompressed(data@),
{
    let n = data.len();
    if n < COMPRESS_HEADER_SIZE {
        let same = copy_range(data, 0, n);
        assert(same@ =~= data@);
        return same;
    }
    let magic = read_le32(data, 0);
    if magic != COMPRESS_MAGIC {
        let same = copy_range(data, 0, n);
        assert(same@ =~= data@);
        return same;
    }
    zstd_decode(slice_subrange(data, COMPRESS_HEADER_SIZE, n))
}

pub fn is_compressed(data: &[u8]) -> (r: bool)
    ensures
        r == has_magic(data@),
{
    data.len() >= 4 && read_le32(data, 0) == COMPRESS_MAGIC
}

/// Decompressing what `compress` stored gives the original data, unless
/// the data was kept as is and itself starts with the compression magic.
pub proof fn lemma_compress_roundtrip(data: Seq<u8>, stored: Seq<u8>)
    requires
        stored == compressed_form(data),
        shrinks(data) ==> zstd_stream_output(zstd_encoded(data, 3).unwrap()) == data,
        shrinks(data) || !has_magic(data),
    ensures
        decompressed(stored) == data,
{
    lemma_auto_spec_u32_to_from_le_bytes();
    if shrinks(data) {
        let f = zstd_encoded(data, 3).unwrap();
        assert(stored.subrange(0, 4) =~= spec_u32_to_le_bytes(COMPRESS_MAGIC));
        assert(stored.subrange(8, stored.len() as int) =~= f);
    }
}

} // verus!
