//! Compression engines: Zstandard (the fast tier), LZMA2 in an xz
//! container (the ultra tier), and store. Compression happens per chunk;
//! an empty chunk is stored with zero length.

use vstd::prelude::*;

use crate::format::{CODE_LZMA2, CODE_STORE, CODE_ZSTD};

verus! {

/// The Zstandard frame that `zstd::bulk::compress` produces for `data` at `level`.
pub uninterp spec fn zstd_frame(level: i32, data: Seq<u8>) -> Seq<u8>;

/// What `zstd::bulk::decompress` yields for `frame`.
pub uninterp spec fn zstd_content(frame: Seq<u8>) -> Seq<u8>;

/// The xz stream (LZMA2, CRC64 check) that liblzma's easy encoder produces
/// for `data` at preset `level`.
pub uninterp spec fn xz_frame(level: u32, data: Seq<u8>) -> Seq<u8>;

/// What the xz decoder yields for `stream`.
pub uninterp spec fn xz_content(stream: Seq<u8>) -> Seq<u8>;

/// `zstd::bulk::compress(data, level)`. The contract claims: it succeeds
/// (zstd clamps the level into its range and the crate compresses into a
/// buffer of `compress_bound` size, so only running out of memory, which
/// the contract does not cover, could stop it), and the result is the
/// Zstandard frame of `data` at `level`, which is never empty (a frame
/// starts with a 4-byte magic number).
#[verifier::external_body]
fn zstd_compress(data: &[u8], level: i32) -> (r: Option<Vec<u8>>)
    ensures
        r is Some,
        r matches Some(c) ==> c@ == zstd_frame(level, data@) && c@.len() > 0,
{
    zstd::bulk::compress(data, level).ok()
}

/// `zstd::bulk::decompress(data, capacity)`. The contract claims: on
/// success the result is the frame's content, at most `capacity` bytes; and
/// decompressing the frame of some `x` with room for `x` gives `x` back.
#[verifier::external_body]
fn zstd_decompress(data: &[u8], capacity: usize) -> (r: Option<Vec<u8>>)
    ensures
        r matches Some(d) ==> d@ == zstd_content(data@) && d@.len() <= capacity,
        forall|level: i32, x: Seq<u8>|
            data@ == #[trigger] zstd_frame(level, x) && x.len() <= capacity ==> r is Some && r->0@ == x,
{
    zstd::bulk::decompress(data, capacity).ok()
}

/// `xz2::write::XzEncoder::new(Vec::new(), level)`, `write_all(data)` and
/// `finish()`. The contract claims: with a preset of at most 9 it succeeds
/// (liblzma then fails only for want of memory, which the contract does
/// not cover, and writing into a `Vec` cannot fail), and the result is the
/// xz stream of `data` at preset `level`, which is never empty (it starts
/// with a 12-byte stream header).
#[verifier::external_body]
fn xz_compress(data: &[u8], level: u32) -> (r: Option<Vec<u8>>)
    requires
        level <= 9,
    ensures
        r is Some,
        r matches Some(c) ==> c@ == xz_frame(level, data@) && c@.len() > 0,
{
    let mut enc = xz2::write::XzEncoder::new(Vec::new(), level);
    match std::io::Write::write_all(&mut enc, data) {
        Ok(()) => enc.finish().ok(),
        Err(_) => None,
    }
}

/// `xz2::read::XzDecoder::new(data)` and `read_to_end`. The contract claims:
/// on success the result is the stream's content; and decoding the xz
/// stream of some `x` gives `x` back.
#[verifier::external_body]
fn xz_decompress(data: &[u8]) -> (r: Option<Vec<u8>>)
    ensures
        r matches Some(d) ==> d@ == xz_content(data@),
        forall|level: u32, x: Seq<u8>| data@ == #[trigger] xz_frame(level, x) ==> r is Some && r->0@ == x,
{
    let mut dec = xz2::read::XzDecoder::new(data);
    let mut out = Vec::new();
    match std::io::Read::read_to_end(&mut dec, &mut out) {
        Ok(_) => Some(out),
        Err(_) => None,
    }
}

/// Why compression or decompression failed.
#[derive(Clone, Copy, Debug, PartialEq, Eq)]
pub enum CompressError {
    UnknownCodec(u8),
    ZstdCompress,
    ZstdDecompress,
    Lzma2Compress,
    Lzma2Decompress,
}

/// The LZMA2 preset used for a compression level: the level clamped to 0..=9.
pub open spec fn lzma2_preset(level: i32) -> u32 {
    if level < 0 {
        0
    } else if level > 9 {
        9
    } else {
        level as u32
    }
}

/// The codecs a block may use.
pub open spec fn known_codec(codec: u8) -> bool {
    codec == CODE_STORE || codec == CODE_ZSTD || codec == CODE_LZMA2
}

/// The compressed form of a non-empty chunk under a known codec.
pub open spec fn compressed_form(codec: u8, level: i32, data: Seq<u8>) -> Seq<u8> {
    if data.len() == 0 {
        Seq::empty()
    } else if codec == CODE_STORE {
        data
    } else if codec == CODE_ZSTD {
        zstd_frame(level, data)
    } else {
        xz_frame(lzma2_preset(level), data)
    }
}

/// Codec law: a non-empty chunk is stored as it is under `store`, as the
/// Zstandard frame at the requested level itself under Zstandard, and as
/// the xz stream at the level clamped to presets 0..=9 under LZMA2.
pub proof fn lemma_compressed_form_codecs(level: i32, data: Seq<u8>)
    requires
        data.len() > 0,
    ensures
        compressed_form(CODE_STORE, level, data) == data,
        compressed_form(CODE_ZSTD, level, data) == zstd_frame(level, data),
        0 <= level <= 9 ==> compressed_form(CODE_LZMA2, level, data) == xz_frame(level as u32, data),
        level > 9 ==> compressed_form(CODE_LZMA2, level, data) == xz_frame(9, data),
        level < 0 ==> compressed_form(CODE_LZMA2, level, data) == xz_frame(0, data),
{
}

/// Compresses a chunk with `codec` at `level`. An empty chunk compresses to
/// nothing; `store` keeps the bytes as they are.
pub fn compress(codec: u8, level: i32, data: &[u8]) -> (r: Result<Vec<u8>, CompressError>)
    ensures
        r matches Ok(c) ==> known_codec(codec) || data@.len() == 0,
        r matches Ok(c) ==> c@ == compressed_form(codec, level, data@),
        r is Ok <==> (known_codec(codec) || data@.len() == 0),
        r matches Err(e) ==> e == CompressError::UnknownCodec(codec),
        r matches Ok(c) ==> (c@.len() == 0 <==> data@.len() == 0),
        codec == CODE_ZSTD && data@.len() > 0 ==> (r matches Ok(c) && c@ == zstd_frame(level, data@)),
        codec == CODE_LZMA2 && data@.len() > 0 ==> (r matches Ok(c) && c@ == xz_frame(
            if level < 0 {
                0u32
            } else if level > 9 {
                9u32
            } else {
                level as u32
            },
            data@,
        )),
        codec == CODE_STORE ==> (r matches Ok(c) && c@ == data@),
{
    if data.len() == 0 {
        return Ok(Vec::new());
    }
    if codec == CODE_STORE {
        Ok(vstd::slice::slice_to_vec(data))
    } else if codec == CODE_ZSTD {
        match zstd_compress(data, level) {
            Some(c) => Ok(c),
            None => Err(CompressError::ZstdCompress),
        }
    } else if codec == CODE_LZMA2 {
        let preset: u32 = if level < 0 {
            0
        } else if level > 9 {
            9
        } else {
            level as u32
        };
        match xz_compress(data, preset) {
            Some(c) => Ok(c),
            None => Err(CompressError::Lzma2Compress),
        }
    } else {
        Err(CompressError::UnknownCodec(codec))
    }
}

/// Decompresses a chunk whose original length is `capacity` (Zstandard
/// refuses to produce more). Empty input decompresses to nothing. What
/// `compress` produced for `x` (with `x` fitting `capacity`; it is empty
/// exactly when `x` is) decompresses to `x`.
pub fn decompress(codec: u8, data: &[u8], capacity: usize) -> (r: Result<Vec<u8>, CompressError>)
    ensures
        data@.len() == 0 ==> (r matches Ok(d) && d@.len() == 0),
        data@.len() > 0 && codec == CODE_STORE ==> (r matches Ok(d) && d@ == data@),
        data@.len() > 0 && codec == CODE_ZSTD ==> match r {
            Ok(d) => d@ == zstd_content(data@) && d@.len() <= capacity,
            Err(e) => e == CompressError::ZstdDecompress,
        },
        data@.len() > 0 && codec == CODE_LZMA2 ==> match r {
            Ok(d) => d@ == xz_content(data@),
            Err(e) => e == CompressError::Lzma2Decompress,
        },
        data@.len() > 0 && !known_codec(codec) ==> r == Err::<Vec<u8>, CompressError>(
            CompressError::UnknownCodec(codec),
        ),
        forall|level: i32, x: Seq<u8>|
            known_codec(codec) && x.len() <= capacity && data@ == #[trigger] compressed_form(codec, level, x)
                && (x.len() == 0 <==> data@.len() == 0) ==> r is Ok && r->Ok_0@ == x,
{
    if data.len() == 0 {
        let r: Result<Vec<u8>, CompressError> = Ok(Vec::new());
        assert(r->Ok_0@ =~= Seq::<u8>::empty());
        return r;
    }
    if codec == CODE_STORE {
        Ok(vstd::slice::slice_to_vec(data))
    } else if codec == CODE_ZSTD {
        match zstd_decompress(data, capacity) {
            Some(d) => Ok(d),
            None => Err(CompressError::ZstdDecompress),
        }
    } else if codec == CODE_LZMA2 {
        match xz_decompress(data) {
            Some(d) => Ok(d),
            None => Err(CompressError::Lzma2Decompress),
        }
    } else {
        Err(CompressError::UnknownCodec(codec))
    }
}

} // verus!
