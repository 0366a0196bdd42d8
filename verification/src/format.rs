//! The `.NEXT` archive binary format: the 60-byte archive header, the
//! 28-byte block header, the framed index block, and codec identifiers.
//!
//! All integers are little-endian. The archive header carries a CRC-32 of
//! its bytes 8..40; the index block carries a CRC-32 of its JSON document.

use vstd::bytes::*;
use vstd::prelude::*;
use vstd::string::StringSliceAdditionalSpecFns;

use crate::bytes::push_all;
use crate::text::{ascii_lower_seq, chars_eq, chars_of, lower_ascii};

verus! {

/// File magic: `NEXTAR` + version byte + pad.
pub const MAGIC: [u8; 8] = [0x4E, 0x45, 0x58, 0x54, 0x41, 0x52, 0x01, 0x00];

/// Block header magic (`NB1` + version byte), little-endian u32.
pub const BLOCK_MAGIC: u32 = 0x0131_424E;

/// Index block magic.
pub const INDEX_MAGIC: [u8; 8] = [0x4E, 0x49, 0x44, 0x58, 0x01, 0x00, 0x00, 0x00];

/// Recovery volume file magic.
pub const VOL_MAGIC: [u8; 8] = [0x4E, 0x45, 0x58, 0x56, 0x4F, 0x4C, 0x31, 0x00];

/// Marker before the index copy inside a volume file.
pub const VOL_INDEX_MARKER: [u8; 8] = [0x4E, 0x49, 0x44, 0x58, 0x56, 0x4F, 0x4C, 0x31];

/// Volume file end magic.
pub const VOL_END: [u8; 8] = [0x4E, 0x45, 0x58, 0x56, 0x45, 0x4E, 0x44, 0x00];

/// Set when payloads are encrypted with XChaCha20-Poly1305.
pub const FLAG_ENCRYPTED: u32 = 1;

/// Set when recovery volumes were generated (RS parity).
pub const FLAG_RECOVERY: u32 = 2;

/// Total size of the on-disk archive header.
pub const HEADER_LEN: u64 = 60;

/// Total size of one on-disk block header.
pub const BLOCK_HEADER_LEN: u64 = 28;

/// Codec byte: payload stored raw.
pub const CODE_STORE: u8 = 0;

/// Codec byte: Zstandard.
pub const CODE_ZSTD: u8 = 1;

/// Codec byte: LZMA2 in an xz container.
pub const CODE_LZMA2: u8 = 2;

/// Block flag: payload encrypted.
pub const BLOCK_FLAG_ENCRYPTED: u8 = 1;

// ─────────────────────────── codecs ───────────────────────────

/// The name of a codec byte.
pub open spec fn codec_name_spec(code: u8) -> Seq<char> {
    if code == CODE_STORE {
        "store"@
    } else if code == CODE_ZSTD {
        "zstd"@
    } else if code == CODE_LZMA2 {
        "lzma2"@
    } else {
        "unknown"@
    }
}

/// The name of a codec byte (`unknown` for bytes that name no codec).
pub fn codec_name(code: u8) -> (r: &'static str)
    ensures
        r@ == codec_name_spec(code),
{
    if code == CODE_STORE {
        "store"
    } else if code == CODE_ZSTD {
        "zstd"
    } else if code == CODE_LZMA2 {
        "lzma2"
    } else {
        "unknown"
    }
}

/// The codec byte a (lowercased) name selects, if any.
pub open spec fn codec_for_name(name: Seq<char>) -> Option<u8> {
    if name == "store"@ || name == "none"@ || name == "copy"@ {
        Some(CODE_STORE)
    } else if name == "zstd"@ || name == "zstandard"@ {
        Some(CODE_ZSTD)
    } else if name == "lzma2"@ || name == "lzma"@ || name == "xz"@ {
        Some(CODE_LZMA2)
    } else {
        None
    }
}

/// A codec name that matches no codec (lowercased, as it was compared).
#[derive(Debug)]
pub struct UnknownCodec {
    pub name: String,
}

fn name_is(name: &[char], lit: &str) -> (r: bool)
    ensures
        r == (name@ == lit@),
{
    let l = chars_of(lit);
    chars_eq(name, l.as_slice())
}

/// Parses a codec name (ASCII case-insensitive): `store`/`none`/`copy`,
/// `zstd`/`zstandard`, `lzma2`/`lzma`/`xz`.
pub fn codec_from_name(name: &str) -> (r: Result<u8, UnknownCodec>)
    ensures
        match r {
            Ok(c) => codec_for_name(ascii_lower_seq(name@)) == Some(c),
            Err(e) => codec_for_name(ascii_lower_seq(name@)) is None && e.name@ == ascii_lower_seq(name@),
        },
{
    let n = lower_ascii(name);
    let s = n.as_slice();
    if name_is(s, "store") || name_is(s, "none") || name_is(s, "copy") {
        Ok(CODE_STORE)
    } else if name_is(s, "zstd") || name_is(s, "zstandard") {
        Ok(CODE_ZSTD)
    } else if name_is(s, "lzma2") || name_is(s, "lzma") || name_is(s, "xz") {
        Ok(CODE_LZMA2)
    } else {
        Err(UnknownCodec { name: crate::text::string_from_chars(s) })
    }
}

/// Naming a codec and parsing the name back gives the codec.
pub proof fn lemma_codec_name_roundtrip(code: u8)
    requires
        code == CODE_STORE || code == CODE_ZSTD || code == CODE_LZMA2,
    ensures
        codec_for_name(ascii_lower_seq(codec_name_spec(code))) == Some(code),
{
    reveal_strlit("store");
    reveal_strlit("none");
    reveal_strlit("copy");
    reveal_strlit("zstd");
    reveal_strlit("zstandard");
    reveal_strlit("lzma2");
    reveal_strlit("lzma");
    reveal_strlit("xz");
    let n = codec_name_spec(code);
    assert(ascii_lower_seq(n) =~= n);
    if code == CODE_ZSTD {
        assert(n[0] != "none"@[0]);
        assert(n[0] != "copy"@[0]);
        assert(n != "none"@);
        assert(n != "copy"@);
    }
    if code == CODE_LZMA2 {
        assert(n[0] != "store"@[0]);
        assert(n != "store"@);
    }
}

// ─────────────────────────── checksum ───────────────────────────

/// One bit of the reflected CRC-32 (IEEE) register update, polynomial
/// `0xEDB88320`.
pub open spec fn crc_bit(c: u32) -> u32 {
    if c & 1 == 1 {
        (c >> 1) ^ 0xEDB8_8320u32
    } else {
        c >> 1
    }
}

/// `n` register updates.
pub open spec fn crc_bits(c: u32, n: nat) -> u32
    decreases n,
{
    if n == 0 {
        c
    } else {
        crc_bits(crc_bit(c), (n - 1) as nat)
    }
}

/// The CRC-32 register after feeding `data`, starting from all ones.
pub open spec fn crc_register(data: Seq<u8>) -> u32
    decreases data.len(),
{
    if data.len() == 0 {
        0xFFFF_FFFFu32
    } else {
        crc_bits(crc_register(data.drop_last()) ^ (data.last() as u32), 8)
    }
}

/// The CRC-32 (IEEE) checksum of a byte sequence: the final register,
/// inverted.
pub open spec fn crc32(data: Seq<u8>) -> u32 {
    !crc_register(data)
}

/// `crc32fast::hash`: the CRC-32 (IEEE, reflected polynomial `0xEDB88320`,
/// initial value and final XOR all ones) of `data`, as `crc32` states it.
#[verifier::external_body]
pub(crate) fn crc32_of(data: &[u8]) -> (r: u32)
    ensures
        r == crc32(data@),
{
    crc32fast::hash(data)
}

// ─────────────────────────── archive header ───────────────────────────

/// The archive header (60 bytes on disk).
#[derive(Clone, Copy, Debug)]
pub struct ArchiveHeader {
    pub version: u16,
    pub flags: u32,
    pub codec: u8,
    pub level: u8,
    pub block_size: u32,
    pub segment_size: u16,
    pub parity: u16,
    pub salt: [u8; 16],
    pub index_offset: u64,
    pub index_len: u64,
}

/// Bytes 8..40 of the encoded header: everything the header CRC covers.
pub open spec fn header_crc_region(h: ArchiveHeader) -> Seq<u8> {
    spec_u16_to_le_bytes(h.version) + spec_u32_to_le_bytes(h.flags) + seq![h.codec, h.level]
        + spec_u32_to_le_bytes(h.block_size) + spec_u16_to_le_bytes(h.segment_size)
        + spec_u16_to_le_bytes(h.parity) + h.salt@
}

/// The 60-byte on-disk encoding of a header.
pub open spec fn header_encoding(h: ArchiveHeader) -> Seq<u8> {
    MAGIC@ + header_crc_region(h) + spec_u32_to_le_bytes(crc32(header_crc_region(h)))
        + spec_u64_to_le_bytes(h.index_offset) + spec_u64_to_le_bytes(h.index_len)
}

/// `b` (at least 60 bytes) carries the magic and a header CRC that matches
/// its bytes 8..40.
pub open spec fn header_bytes_valid(b: Seq<u8>) -> bool {
    &&& b.len() >= 60
    &&& b.subrange(0, 8) == MAGIC@
    &&& spec_u32_from_le_bytes(b.subrange(40, 44)) == crc32(b.subrange(8, 40))
}

/// `h` holds the fields that the header layout places in `b`.
pub open spec fn header_decodes(b: Seq<u8>, h: ArchiveHeader) -> bool {
    &&& h.version == spec_u16_from_le_bytes(b.subrange(8, 10))
    &&& h.flags == spec_u32_from_le_bytes(b.subrange(10, 14))
    &&& h.codec == b[14]
    &&& h.level == b[15]
    &&& h.block_size == spec_u32_from_le_bytes(b.subrange(16, 20))
    &&& h.segment_size == spec_u16_from_le_bytes(b.subrange(20, 22))
    &&& h.parity == spec_u16_from_le_bytes(b.subrange(22, 24))
    &&& h.salt@ == b.subrange(24, 40)
    &&& h.index_offset == spec_u64_from_le_bytes(b.subrange(44, 52))
    &&& h.index_len == spec_u64_from_le_bytes(b.subrange(52, 60))
}

/// Why a header, block header or index block was rejected.
#[derive(Clone, Copy, Debug, PartialEq, Eq)]
pub enum FormatError {
    HeaderTruncated,
    BadMagic,
    HeaderChecksum,
    BlockTruncated,
    BadBlockMagic,
    IndexTruncated,
    BadIndexMagic,
    IndexJsonTruncated,
    IndexChecksum,
}

impl ArchiveHeader {
    /// Header flags from the encryption and recovery choices.
    pub open spec fn flags_for(parity: u16, encrypted: bool) -> u32 {
        if encrypted && parity > 0 {
            3u32
        } else if encrypted {
            FLAG_ENCRYPTED
        } else if parity > 0 {
            FLAG_RECOVERY
        } else {
            0
        }
    }

    /// A version-1 header with the given parameters and salt, and an index
    /// location of zero (patched once the index is written).
    pub fn with_salt(
        codec: u8,
        level: u8,
        block_size: u32,
        segment_size: u16,
        parity: u16,
        encrypted: bool,
        salt: [u8; 16],
    ) -> (h: Self)
        ensures
            h.version == 1,
            h.flags == Self::flags_for(parity, encrypted),
            h.codec == codec,
            h.level == level,
            h.block_size == block_size,
            h.segment_size == segment_size,
            h.parity == parity,
            h.salt == salt,
            h.index_offset == 0,
            h.index_len == 0,
    {
        let flags: u32 = if encrypted && parity > 0 {
            3
        } else if encrypted {
            FLAG_ENCRYPTED
        } else if parity > 0 {
            FLAG_RECOVERY
        } else {
            0
        };
        ArchiveHeader {
            version: 1,
            flags,
            codec,
            level,
            block_size,
            segment_size,
            parity,
            salt,
            index_offset: 0,
            index_len: 0,
        }
    }

    /// A version-1 header with a fresh random salt from the operating system
    /// and an index location of zero.
    pub fn new(codec: u8, level: u8, block_size: u32, segment_size: u16, parity: u16, encrypted: bool) -> (h: Self)
        ensures
            h.version == 1,
            h.flags == Self::flags_for(parity, encrypted),
            h.codec == codec,
            h.level == level,
            h.block_size == block_size,
            h.segment_size == segment_size,
            h.parity == parity,
            h.index_offset == 0,
            h.index_len == 0,
    {
        let salt = crate::crypto::random_salt();
        Self::with_salt(codec, level, block_size, segment_size, parity, encrypted, salt)
    }

    /// Whether payloads are encrypted (flag bit 0).
    pub fn encrypted(&self) -> (r: bool)
        ensures
            r == (self.flags & FLAG_ENCRYPTED != 0),
    {
        self.flags & FLAG_ENCRYPTED != 0
    }

    /// Whether recovery volumes were generated (flag bit 1).
    pub fn recovery(&self) -> (r: bool)
        ensures
            r == (self.flags & FLAG_RECOVERY != 0),
    {
        self.flags & FLAG_RECOVERY != 0
    }

    /// The 60-byte on-disk encoding, with the CRC of bytes 8..40 filled in.
    pub fn to_bytes(&self) -> (b: Vec<u8>)
        ensures
            b@ == header_encoding(*self),
            b@.len() == 60,
    {
        let mut region: Vec<u8> = Vec::new();
        push_all(&mut region, u16_to_le_bytes(self.version).as_slice());
        push_all(&mut region, u32_to_le_bytes(self.flags).as_slice());
        region.push(self.codec);
        region.push(self.level);
        push_all(&mut region, u32_to_le_bytes(self.block_size).as_slice());
        push_all(&mut region, u16_to_le_bytes(self.segment_size).as_slice());
        push_all(&mut region, u16_to_le_bytes(self.parity).as_slice());
        push_all(&mut region, self.salt.as_slice());
        assert(region@ =~= header_crc_region(*self));
        let crc = crc32_of(region.as_slice());
        let mut b: Vec<u8> = Vec::new();
        push_all(&mut b, MAGIC.as_slice());
        push_all(&mut b, region.as_slice());
        push_all(&mut b, u32_to_le_bytes(crc).as_slice());
        push_all(&mut b, u64_to_le_bytes(self.index_offset).as_slice());
        push_all(&mut b, u64_to_le_bytes(self.index_len).as_slice());
        assert(b@ =~= header_encoding(*self));
        b
    }

    /// Parses a header from at least 60 bytes, checking the magic and the
    /// header CRC.
    pub fn from_bytes(b: &[u8]) -> (r: Result<Self, FormatError>)
        ensures
            match r {
                Ok(h) => header_bytes_valid(b@) && header_decodes(b@, h),
                Err(e) => !header_bytes_valid(b@) && e == (if b@.len() < 60 {
                    FormatError::HeaderTruncated
                } else if b@.subrange(0, 8) != MAGIC@ {
                    FormatError::BadMagic
                } else {
                    FormatError::HeaderChecksum
                }),
            },
    {
        if b.len() < 60 {
            return Err(FormatError::HeaderTruncated);
        }
        if !bytes_eq(&b[0..8], MAGIC.as_slice()) {
            return Err(FormatError::BadMagic);
        }
        let expected = u32_from_le_bytes(&b[40..44]);
        let actual = crc32_of(&b[8..40]);
        if expected != actual {
            return Err(FormatError::HeaderChecksum);
        }
        let mut salt: [u8; 16] = [0u8; 16];
        let mut i: usize = 0;
        while i < 16
            invariant
                i <= 16,
                b@.len() >= 60,
                forall|j: int| 0 <= j < i ==> salt@[j] == b@[24 + j],
                salt@.len() == 16,
            decreases 16 - i,
        {
            salt[i] = b[24 + i];
            i = i + 1;
        }
        assert(salt@ =~= b@.subrange(24, 40));
        Ok(ArchiveHeader {
            version: u16_from_le_bytes(&b[8..10]),
            flags: u32_from_le_bytes(&b[10..14]),
            codec: b[14],
            level: b[15],
            block_size: u32_from_le_bytes(&b[16..20]),
            segment_size: u16_from_le_bytes(&b[20..22]),
            parity: u16_from_le_bytes(&b[22..24]),
            salt,
            index_offset: u64_from_le_bytes(&b[44..52]),
            index_len: u64_from_le_bytes(&b[52..60]),
        })
    }
}

// ─────────────────────────── block header ───────────────────────────

/// The header in front of every data block (28 bytes on disk).
#[derive(Clone, Copy, Debug)]
pub struct BlockHeader {
    pub flags: u8,
    pub codec: u8,
    pub block_id: u64,
    pub orig_len: u32,
    pub stored_len: u32,
    pub crc: u32,
}

/// The 28-byte on-disk encoding of a block header (the last two bytes are
/// reserved and zero).
pub open spec fn block_header_encoding(h: BlockHeader) -> Seq<u8> {
    spec_u32_to_le_bytes(BLOCK_MAGIC) + seq![h.flags, h.codec] + spec_u64_to_le_bytes(h.block_id)
        + spec_u32_to_le_bytes(h.orig_len) + spec_u32_to_le_bytes(h.stored_len)
        + spec_u32_to_le_bytes(h.crc) + seq![0u8, 0u8]
}

/// `h` holds the fields that the block header layout places in `b`.
pub open spec fn block_header_decodes(b: Seq<u8>, h: BlockHeader) -> bool {
    &&& h.flags == b[4]
    &&& h.codec == b[5]
    &&& h.block_id == spec_u64_from_le_bytes(b.subrange(6, 14))
    &&& h.orig_len == spec_u32_from_le_bytes(b.subrange(14, 18))
    &&& h.stored_len == spec_u32_from_le_bytes(b.subrange(18, 22))
    &&& h.crc == spec_u32_from_le_bytes(b.subrange(22, 26))
}

/// `b` is long enough for a block header and starts with the block magic.
pub open spec fn block_header_bytes_valid(b: Seq<u8>) -> bool {
    b.len() >= 28 && spec_u32_from_le_bytes(b.subrange(0, 4)) == BLOCK_MAGIC
}

impl BlockHeader {
    /// The 28-byte on-disk encoding.
    pub fn to_bytes(&self) -> (b: Vec<u8>)
        ensures
            b@ == block_header_encoding(*self),
            b@.len() == 28,
    {
        let mut b: Vec<u8> = Vec::new();
        push_all(&mut b, u32_to_le_bytes(BLOCK_MAGIC).as_slice());
        b.push(self.flags);
        b.push(self.codec);
        push_all(&mut b, u64_to_le_bytes(self.block_id).as_slice());
        push_all(&mut b, u32_to_le_bytes(self.orig_len).as_slice());
        push_all(&mut b, u32_to_le_bytes(self.stored_len).as_slice());
        push_all(&mut b, u32_to_le_bytes(self.crc).as_slice());
        b.push(0);
        b.push(0);
        assert(b@ =~= block_header_encoding(*self));
        b
    }

    /// Parses a block header from at least 28 bytes, checking the magic.
    pub fn from_bytes(b: &[u8]) -> (r: Result<Self, FormatError>)
        ensures
            match r {
                Ok(h) => block_header_bytes_valid(b@) && block_header_decodes(b@, h),
                Err(e) => !block_header_bytes_valid(b@) && e == (if b@.len() < 28 {
                    FormatError::BlockTruncated
                } else {
                    FormatError::BadBlockMagic
                }),
            },
    {
        if b.len() < 28 {
            return Err(FormatError::BlockTruncated);
        }
        if u32_from_le_bytes(&b[0..4]) != BLOCK_MAGIC {
            return Err(FormatError::BadBlockMagic);
        }
        Ok(BlockHeader {
            flags: b[4],
            codec: b[5],
            block_id: u64_from_le_bytes(&b[6..14]),
            orig_len: u32_from_le_bytes(&b[14..18]),
            stored_len: u32_from_le_bytes(&b[18..22]),
            crc: u32_from_le_bytes(&b[22..26]),
        })
    }
}

/// Encoding a block header and parsing it back yields the same fields.
pub proof fn lemma_block_header_roundtrip(h: BlockHeader)
    ensures
        block_header_encoding(h).len() == 28,
        block_header_bytes_valid(block_header_encoding(h)),
        block_header_decodes(block_header_encoding(h), h),
{
    lemma_auto_spec_u32_to_from_le_bytes();
    lemma_auto_spec_u64_to_from_le_bytes();
    let e = block_header_encoding(h);
    assert(e.subrange(0, 4) =~= spec_u32_to_le_bytes(BLOCK_MAGIC));
    assert(e.subrange(6, 14) =~= spec_u64_to_le_bytes(h.block_id));
    assert(e.subrange(14, 18) =~= spec_u32_to_le_bytes(h.orig_len));
    assert(e.subrange(18, 22) =~= spec_u32_to_le_bytes(h.stored_len));
    assert(e.subrange(22, 26) =~= spec_u32_to_le_bytes(h.crc));
}

// ─────────────────────────── index block ───────────────────────────

/// The on-disk index block framing a JSON document: magic, JSON length
/// (u64), the JSON bytes, and the CRC-32 of the JSON.
pub open spec fn index_block(json: Seq<u8>) -> Seq<u8> {
    INDEX_MAGIC@ + spec_u64_to_le_bytes(json.len() as u64) + json + spec_u32_to_le_bytes(crc32(json))
}

/// What reading an index block yields: the framed JSON document, or why the
/// block was rejected. Bytes after the CRC are ignored.
pub open spec fn index_unframe(b: Seq<u8>) -> Result<Seq<u8>, FormatError> {
    if b.len() < 20 {
        Err(FormatError::IndexTruncated)
    } else if b.subrange(0, 8) != INDEX_MAGIC@ {
        Err(FormatError::BadIndexMagic)
    } else {
        let l = spec_u64_from_le_bytes(b.subrange(8, 16)) as int;
        if 20 + l > b.len() {
            Err(FormatError::IndexJsonTruncated)
        } else if spec_u32_from_le_bytes(b.subrange(16 + l, 20 + l)) != crc32(b.subrange(16, 16 + l)) {
            Err(FormatError::IndexChecksum)
        } else {
            Ok(b.subrange(16, 16 + l))
        }
    }
}

/// Frames a serialized index (its JSON bytes) as an index block.
pub fn index_to_bytes(json: &[u8]) -> (b: Vec<u8>)
    ensures
        b@ == index_block(json@),
{
    let mut b: Vec<u8> = Vec::new();
    push_all(&mut b, INDEX_MAGIC.as_slice());
    push_all(&mut b, u64_to_le_bytes(json.len() as u64).as_slice());
    push_all(&mut b, json);
    let crc = crc32_of(json);
    push_all(&mut b, u32_to_le_bytes(crc).as_slice());
    assert(b@ =~= index_block(json@));
    b
}

/// Checks an index block's magic, declared length and CRC, and returns the
/// JSON document it frames.
pub fn index_from_bytes(b: &[u8]) -> (r: Result<Vec<u8>, FormatError>)
    ensures
        match r {
            Ok(json) => index_unframe(b@) == Ok::<Seq<u8>, FormatError>(json@),
            Err(e) => index_unframe(b@) == Err::<Seq<u8>, FormatError>(e),
        },
{
    if b.len() < 20 {
        return Err(FormatError::IndexTruncated);
    }
    if !bytes_eq(&b[0..8], INDEX_MAGIC.as_slice()) {
        return Err(FormatError::BadIndexMagic);
    }
    let l = u64_from_le_bytes(&b[8..16]);
    let avail: usize = b.len() - 20;
    if (avail as u64) < l {
        return Err(FormatError::IndexJsonTruncated);
    }
    let len: usize = l as usize;
    let json = &b[16..16 + len];
    let expected = u32_from_le_bytes(&b[16 + len..20 + len]);
    let actual = crc32_of(json);
    if expected != actual {
        return Err(FormatError::IndexChecksum);
    }
    Ok(vstd::slice::slice_to_vec(json))
}

/// Framing a JSON document and unframing the block gives the document back.
pub proof fn lemma_index_roundtrip(json: Seq<u8>)
    requires
        json.len() <= u64::MAX,
    ensures
        index_unframe(index_block(json)) == Ok::<Seq<u8>, FormatError>(json),
{
    lemma_auto_spec_u32_to_from_le_bytes();
    lemma_auto_spec_u64_to_from_le_bytes();
    let b = index_block(json);
    let l = json.len() as int;
    assert(b.subrange(0, 8) =~= INDEX_MAGIC@);
    assert(b.subrange(8, 16) =~= spec_u64_to_le_bytes(json.len() as u64));
    assert(b.subrange(16, 16 + l) =~= json);
    assert(b.subrange(16 + l, 20 + l) =~= spec_u32_to_le_bytes(crc32(json)));
}

// ─────────────────────────── index model ───────────────────────────

/// One file, directory or symlink of the archive.
#[derive(Clone, Debug)]
pub struct FileEntry {
    /// Archive-relative path, forward slashes, no leading `./`.
    pub path: String,
    /// "file" | "dir" | "symlink"
    pub kind: String,
    /// Unix-style permission bits (best-effort on Windows).
    pub mode: u32,
    pub size: u64,
    pub mtime: i64,
    pub mtime_ns: u32,
    /// Symlink target, when kind == "symlink".
    pub link: Option<String>,
    /// Block ids holding this file's chunks, in order.
    pub blocks: Vec<u64>,
}

impl View for FileEntry {
    type V = (Seq<char>, Seq<char>, u32, u64, i64, u32, Option<Seq<char>>, Seq<u64>);

    open spec fn view(&self) -> Self::V {
        (
            self.path@,
            self.kind@,
            self.mode,
            self.size,
            self.mtime,
            self.mtime_ns,
            match self.link {
                Some(l) => Some(l@),
                None => None,
            },
            self.blocks@,
        )
    }
}

impl FileEntry {
    /// A copy of this entry with `path` in place of its path.
    pub fn with_path(&self, path: String) -> (r: FileEntry)
        ensures
            r@ == (path@, self@.1, self@.2, self@.3, self@.4, self@.5, self@.6, self@.7),
    {
        let link = match &self.link {
            Some(l) => Some(crate::text::copy_str(l.as_str())),
            None => None,
        };
        let mut blocks: Vec<u64> = Vec::new();
        let mut i: usize = 0;
        while i < self.blocks.len()
            invariant
                i <= self.blocks@.len(),
                blocks@ == self.blocks@.take(i as int),
            decreases self.blocks@.len() - i,
        {
            blocks.push(self.blocks[i]);
            i = i + 1;
            assert(blocks@ =~= self.blocks@.take(i as int));
        }
        assert(self.blocks@.take(i as int) =~= self.blocks@);
        FileEntry {
            path,
            kind: crate::text::copy_str(self.kind.as_str()),
            mode: self.mode,
            size: self.size,
            mtime: self.mtime,
            mtime_ns: self.mtime_ns,
            link,
            blocks,
        }
    }
}

/// One row of the global block table.
#[derive(Clone, Copy, Debug)]
pub struct BlockEntry {
    pub id: u64,
    pub codec: u8,
    pub orig_len: u32,
    pub stored_len: u32,
    pub crc: u32,
}

/// The archive index: metadata, file tree and block table.
#[derive(Clone, Debug)]
pub struct Index {
    pub created_by: String,
    pub created_at: i64,
    pub encrypted: bool,
    pub codec: String,
    pub level: u8,
    pub block_size: u32,
    pub segment_size: u16,
    pub parity: u16,
    /// Hex-encoded archive salt (16 bytes) when encrypted.
    pub salt_hex: Option<String>,
    /// Hex-encoded password verifier when encrypted.
    pub verifier_hex: Option<String>,
    /// Files and directories in the archive, sorted by path.
    pub files: Vec<FileEntry>,
    /// Global block table, sorted by id.
    pub blocks: Vec<BlockEntry>,
}

// ─────────────────────────── hex ───────────────────────────

/// Lowercase hexadecimal digit for `v < 16`.
pub open spec fn hex_digit(v: int) -> char {
    if v < 10 {
        (48 + v) as char
    } else {
        (87 + v) as char
    }
}

/// Two lowercase hex digits per byte, high nibble first.
pub open spec fn hex_chars(d: Seq<u8>) -> Seq<char> {
    Seq::new(
        2 * d.len(),
        |i: int|
            if i % 2 == 0 {
                hex_digit((d[i / 2] / 16) as int)
            } else {
                hex_digit((d[i / 2] % 16) as int)
            },
    )
}

/// Value of a hexadecimal digit byte (either case), if it is one.
pub open spec fn hex_value(b: u8) -> Option<int> {
    if 48 <= b <= 57 {
        Some(b - 48)
    } else if 97 <= b <= 102 {
        Some(b - 87)
    } else if 65 <= b <= 70 {
        Some(b - 55)
    } else {
        None
    }
}

/// Why a hex string was rejected.
#[derive(Clone, Copy, Debug, PartialEq, Eq)]
pub enum HexError {
    OddLength,
    InvalidDigit,
}

/// Decoding of the bytes of a hex string: pairs of digits, high first.
pub open spec fn unhex_bytes(b: Seq<u8>) -> Result<Seq<u8>, HexError> {
    if b.len() % 2 != 0 {
        Err(HexError::OddLength)
    } else if exists|i: int| 0 <= i < b.len() && #[trigger] hex_value(b[i]) is None {
        Err(HexError::InvalidDigit)
    } else {
        Ok(
            Seq::new(
                b.len() / 2,
                |i: int| (hex_value(b[2 * i])->0 * 16 + hex_value(b[2 * i + 1])->0) as u8,
            ),
        )
    }
}

fn hex_digit_exec(v: u8) -> (c: char)
    requires
        v < 16,
    ensures
        c == hex_digit(v as int),
{
    if v < 10 {
        (48 + v) as char
    } else {
        (87 + v) as char
    }
}

/// Lowercase hex encoding of `data`.
pub fn hex(data: &[u8]) -> (s: String)
    ensures
        s@ == hex_chars(data@),
{
    let mut s = String::new();
    let mut i: usize = 0;
    while i < data.len()
        invariant
            i <= data@.len(),
            s@ =~= hex_chars(data@.take(i as int)),
        decreases data@.len() - i,
    {
        let b = data[i];
        crate::text::push_char(&mut s, hex_digit_exec(b / 16));
        crate::text::push_char(&mut s, hex_digit_exec(b % 16));
        i = i + 1;
        assert(s@ =~= hex_chars(data@.take(i as int)));
    }
    assert(data@.take(data@.len() as int) =~= data@);
    s
}

fn hex_value_exec(b: u8) -> (r: Option<u8>)
    ensures
        match r {
            Some(v) => hex_value(b) == Some(v as int),
            None => hex_value(b) is None,
        },
{
    if 48 <= b && b <= 57 {
        Some(b - 48)
    } else if 97 <= b && b <= 102 {
        Some(b - 87)
    } else if 65 <= b && b <= 70 {
        Some(b - 55)
    } else {
        None
    }
}

/// Decodes a hex string (either case) into bytes.
pub fn unhex(s: &str) -> (r: Result<Vec<u8>, HexError>)
    ensures
        match r {
            Ok(v) => unhex_bytes(s.spec_bytes()) == Ok::<Seq<u8>, HexError>(v@),
            Err(e) => unhex_bytes(s.spec_bytes()) == Err::<Seq<u8>, HexError>(e),
        },
{
    let b = s.as_bytes();
    if b.len() % 2 != 0 {
        return Err(HexError::OddLength);
    }
    let mut out: Vec<u8> = Vec::new();
    let mut i: usize = 0;
    while i < b.len()
        invariant
            b@ == s.spec_bytes(),
            b@.len() % 2 == 0,
            i % 2 == 0,
            i <= b@.len(),
            out@.len() == i / 2,
            forall|j: int| 0 <= j < i ==> hex_value(#[trigger] b@[j]) is Some,
            forall|j: int|
                0 <= j < i / 2 ==> #[trigger] out@[j] == (hex_value(b@[2 * j])->0 * 16 + hex_value(
                    b@[2 * j + 1],
                )->0) as u8,
        decreases b@.len() - i,
    {
        let hi = hex_value_exec(b[i]);
        let lo = hex_value_exec(b[i + 1]);
        match (hi, lo) {
            (Some(h), Some(l)) => {
                out.push(h * 16 + l);
            },
            _ => {
                return Err(HexError::InvalidDigit);
            },
        }
        i = i + 2;
    }
    assert(out@ =~= unhex_bytes(b@)->Ok_0);
    Ok(out)
}

/// Hex-encoding bytes and decoding the encoding gives the bytes back.
pub proof fn lemma_hex_roundtrip(d: Seq<u8>)
    ensures
        unhex_bytes(vstd::utf8::encode_utf8(hex_chars(d))) == Ok::<Seq<u8>, HexError>(d),
{
    let cs = hex_chars(d);
    assert(vstd::utf8::is_ascii_chars(cs)) by {
        assert forall|i: int| 0 <= i < cs.len() implies (#[trigger] cs[i]) as nat <= 127 by {
            let v = if i % 2 == 0 { d[i / 2] / 16 } else { d[i / 2] % 16 };
            assert(cs[i] == hex_digit(v as int));
        }
    }
    vstd::utf8::is_ascii_chars_encode_utf8(cs);
    let b = vstd::utf8::encode_utf8(cs);
    assert forall|i: int| 0 <= i < b.len() implies #[trigger] hex_value(b[i]) is Some by {
        assert(b[i] == cs[i] as u8);
    }
    let out = unhex_bytes(b)->Ok_0;
    assert forall|j: int| 0 <= j < d.len() implies #[trigger] out[j] == d[j] by {
        assert(b[2 * j] == cs[2 * j] as u8);
        assert(b[2 * j + 1] == cs[2 * j + 1] as u8);
        assert((2 * j) / 2 == j);
        assert((2 * j + 1) / 2 == j);
        assert((2 * j) % 2 == 0);
        assert((2 * j + 1) % 2 == 1);
    }
    assert(out =~= d);
}

/// A hexadecimal digit character, in either case.
pub open spec fn is_hex_char(c: char) -> bool {
    ('0' <= c <= '9') || ('a' <= c <= 'f') || ('A' <= c <= 'F')
}

/// Decoding an even-length string of hex digits (either case) succeeds,
/// and encoding the bytes again gives the string in lowercase.
pub proof fn lemma_unhex_roundtrip(s: Seq<char>)
    requires
        s.len() % 2 == 0,
        forall|i: int| 0 <= i < s.len() ==> is_hex_char(#[trigger] s[i]),
    ensures
        unhex_bytes(vstd::utf8::encode_utf8(s)) is Ok,
        hex_chars(unhex_bytes(vstd::utf8::encode_utf8(s))->Ok_0) == crate::text::ascii_lower_seq(s),
{
    assert(vstd::utf8::is_ascii_chars(s)) by {
        assert forall|i: int| 0 <= i < s.len() implies '\0' <= #[trigger] s[i] <= '\u{7f}' by {
            assert(is_hex_char(s[i]));
        }
    }
    vstd::utf8::is_ascii_chars_encode_utf8(s);
    let b = vstd::utf8::encode_utf8(s);
    assert forall|i: int| 0 <= i < b.len() implies #[trigger] hex_value(b[i]) is Some by {
        assert(b[i] == s[i] as u8);
        assert(is_hex_char(s[i]));
    }
    let d = unhex_bytes(b)->Ok_0;
    let h = hex_chars(d);
    let low = crate::text::ascii_lower_seq(s);
    assert forall|i: int| 0 <= i < h.len() implies #[trigger] h[i] == low[i] by {
        let j = i / 2;
        assert(0 <= j < d.len());
        let hi = hex_value(b[2 * j])->0;
        let lo = hex_value(b[2 * j + 1])->0;
        assert(0 <= hi < 16 && 0 <= lo < 16);
        assert(d[j] == (hi * 16 + lo) as u8);
        assert((hi * 16 + lo) / 16 == hi && (hi * 16 + lo) % 16 == lo && hi * 16 + lo < 256) by (nonlinear_arith)
            requires
                0 <= hi < 16,
                0 <= lo < 16,
        ;
        let k = if i % 2 == 0 { 2 * j } else { 2 * j + 1 };
        assert(k == i);
        assert(b[k] == s[k] as u8);
        assert(is_hex_char(s[k]));
    }
    assert(h =~= low);
}

/// Byte-wise equality of two slices.
pub fn bytes_eq(a: &[u8], b: &[u8]) -> (r: bool)
    ensures
        r == (a@ == b@),
{
    if a.len() != b.len() {
        return false;
    }
    let mut i: usize = 0;
    while i < a.len()
        invariant
            i <= a@.len(),
            a@.len() == b@.len(),
            forall|j: int| 0 <= j < i ==> a@[j] == b@[j],
        decreases a@.len() - i,
    {
        if a[i] != b[i] {
            return false;
        }
        i = i + 1;
    }
    assert(a@ =~= b@);
    true
}

/// Encoding a header and parsing it back yields the same header: the
/// encoding is 60 bytes, passes the magic and CRC checks, and every field
/// decodes to its original value.
pub proof fn lemma_header_roundtrip(h: ArchiveHeader)
    ensures
        header_encoding(h).len() == 60,
        header_bytes_valid(header_encoding(h)),
        header_decodes(header_encoding(h), h),
{
    lemma_auto_spec_u16_to_from_le_bytes();
    lemma_auto_spec_u32_to_from_le_bytes();
    lemma_auto_spec_u64_to_from_le_bytes();
    let e = header_encoding(h);
    let region = header_crc_region(h);
    assert(region.len() == 32);
    assert(e.subrange(0, 8) =~= MAGIC@);
    assert(e.subrange(8, 40) =~= region);
    assert(e.subrange(40, 44) =~= spec_u32_to_le_bytes(crc32(region)));
    assert(e.subrange(8, 10) =~= spec_u16_to_le_bytes(h.version));
    assert(e.subrange(10, 14) =~= spec_u32_to_le_bytes(h.flags));
    assert(e.subrange(16, 20) =~= spec_u32_to_le_bytes(h.block_size));
    assert(e.subrange(20, 22) =~= spec_u16_to_le_bytes(h.segment_size));
    assert(e.subrange(22, 24) =~= spec_u16_to_le_bytes(h.parity));
    assert(e.subrange(24, 40) =~= h.salt@);
    assert(e.subrange(44, 52) =~= spec_u64_to_le_bytes(h.index_offset));
    assert(e.subrange(52, 60) =~= spec_u64_to_le_bytes(h.index_len));
}

} // verus!
