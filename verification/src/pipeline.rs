//! The per-block work of the create pipeline and its inverse: a worker
//! compresses a chunk (falling back to storing it raw when compression does
//! not shrink it), encrypts it when a password is set, and checksums it;
//! the block record written to the archive is its 28-byte header followed
//! by the payload. Reading a block back checks the header against the
//! block table and the payload against its CRC, then decrypts and
//! decompresses it.

use vstd::prelude::*;

use crate::compress::{compress, compressed_form, decompress, known_codec, CompressError};
use crate::crypto::{aad_of, aead_msg_ok, aead_seal, nonce_of, Crypto, CryptoError};
use crate::crypto::{zero_bytes, VERIFIER_AAD};
use crate::format::{
    block_header_bytes_valid, block_header_decodes, block_header_encoding, codec_name, codec_name_spec, crc32,
    crc32_of, hex, hex_chars, ArchiveHeader, BlockEntry, BlockHeader, FileEntry, Index, BLOCK_FLAG_ENCRYPTED,
    CODE_STORE,
};

verus! {

broadcast use crate::bytes::group_byte_views;

/// One chunk after compression, encryption and checksumming.
pub struct StoredBlock {
    pub block_id: u64,
    pub codec: u8,
    pub orig_len: u32,
    pub payload: Vec<u8>,
    pub crc: u32,
    pub encrypted: bool,
}

/// Why a block could not be produced or read back.
#[derive(Clone, Copy, Debug, PartialEq, Eq)]
pub enum BlockError {
    Compress(CompressError),
    Crypto(CryptoError),
}

/// The key a block is encrypted under, if any.
pub open spec fn key_of(crypto: Option<&Crypto>) -> Option<Seq<u8>> {
    match crypto {
        Some(c) => Some(c.key_view()),
        None => None,
    }
}

/// The codec a worker records for a chunk: the requested one, or `store`
/// when compression did not make a non-empty chunk smaller.
pub open spec fn chosen_codec(codec: u8, level: i32, data: Seq<u8>) -> u8 {
    if data.len() > 0 && compressed_form(codec, level, data).len() >= data.len() {
        CODE_STORE
    } else {
        codec
    }
}

/// The stored payload of a chunk under the recorded codec: its compressed
/// form, sealed with the block's nonce and AAD when a key is given.
pub open spec fn encoded_payload(codec: u8, level: i32, key: Option<Seq<u8>>, salt: Seq<u8>, id: u64, data: Seq<u8>) -> Seq<u8> {
    match key {
        Some(k) => aead_seal(k, nonce_of(salt, id), aad_of(id, codec), compressed_form(codec, level, data)),
        None => compressed_form(codec, level, data),
    }
}

/// Stored payload law: a non-empty chunk under a known codec is recorded
/// with that codec when its compressed form is shorter than the chunk, and
/// as `store` (the chunk's own bytes) otherwise; with a key, that plain
/// payload is sealed under the nonce SHA-256(salt ‖ id LE)[..24] and the
/// associated data id LE ‖ recorded codec.
pub proof fn lemma_stored_payload(codec: u8, level: i32, key: Option<Seq<u8>>, salt: Seq<u8>, id: u64, data: Seq<u8>)
    requires
        known_codec(codec),
        data.len() > 0,
    ensures
        ({
            let form = compressed_form(codec, level, data);
            let used = chosen_codec(codec, level, data);
            let plain = if form.len() < data.len() { form } else { data };
            &&& used == (if form.len() < data.len() { codec } else { CODE_STORE })
            &&& compressed_form(used, level, data) == plain
            &&& key is None ==> encoded_payload(used, level, key, salt, id, data) == plain
            &&& key matches Some(k) ==> encoded_payload(used, level, key, salt, id, data) == aead_seal(
                k,
                crate::crypto::sha256(salt + vstd::bytes::spec_u64_to_le_bytes(id)).take(24),
                vstd::bytes::spec_u64_to_le_bytes(id).push(used),
                plain,
            )
        }),
{
}

/// What a decoder needs to know of how a payload was produced from `data`:
/// a known codec (any codec for an empty chunk), the payload's encoding, a compressed form that is empty
/// exactly when the chunk is, and (when encrypted) a sealable length.
pub open spec fn payload_encodes(codec: u8, level: i32, key: Option<Seq<u8>>, salt: Seq<u8>, id: u64, data: Seq<u8>, payload: Seq<u8>) -> bool {
    &&& (known_codec(codec) || data.len() == 0)
    &&& payload == encoded_payload(codec, level, key, salt, id, data)
    &&& (compressed_form(codec, level, data).len() == 0 <==> data.len() == 0)
    &&& (key is Some ==> aead_msg_ok(compressed_form(codec, level, data).len()))
}

/// Compresses, (optionally) encrypts and checksums one chunk. A non-empty
/// chunk whose compressed form is not smaller is stored raw, so a payload
/// is never longer than its chunk (plus the 16-byte tag when encrypted).
pub fn process_chunk(
    codec: u8,
    level: i32,
    crypto: Option<&Crypto>,
    salt: &[u8],
    block_id: u64,
    data: Vec<u8>,
) -> (r: Result<StoredBlock, BlockError>)
    requires
        data@.len() <= u32::MAX,
    ensures
        r matches Ok(b) ==> {
            &&& b.block_id == block_id
            &&& b.codec == chosen_codec(codec, level, data@)
            &&& b.orig_len == data@.len()
            &&& payload_encodes(b.codec, level, key_of(crypto), salt@, block_id, data@, b.payload@)
            &&& b.crc == crc32(b.payload@)
            &&& b.encrypted == crypto is Some
            &&& b.payload@.len() <= data@.len() + (if crypto is Some { 16int } else { 0int })
        },
        r is Ok <==> (known_codec(codec) || data@.len() == 0),
        r matches Err(e) ==> e == BlockError::Compress(CompressError::UnknownCodec(codec)),
{
    let orig_len = data.len() as u32;
    let mut used = codec;
    let compressed = match compress(codec, level, data.as_slice()) {
        Ok(c) => c,
        Err(e) => return Err(BlockError::Compress(e)),
    };
    let mut payload = compressed;
    if data.len() > 0 && payload.len() >= data.len() {
        payload = data;
        used = CODE_STORE;
    }
    let ghost plain = payload@;
    assert(plain == compressed_form(used, level, data@));
    assert(payload@.len() <= data@.len());
    assert(aead_msg_ok(payload@.len()));
    match crypto {
        Some(c) => {
            payload = match c.encrypt_block(salt, block_id, used, payload.as_slice()) {
                Ok(p) => p,
                Err(e) => return Err(BlockError::Crypto(e)),
            };
        },
        None => {},
    }
    let crc = crc32_of(payload.as_slice());
    Ok(StoredBlock { block_id, codec: used, orig_len, payload, crc, encrypted: crypto.is_some() })
}

/// The block-table row of a stored block.
pub open spec fn entry_of(b: StoredBlock) -> BlockEntry {
    BlockEntry { id: b.block_id, codec: b.codec, orig_len: b.orig_len, stored_len: b.payload@.len() as u32, crc: b.crc }
}

/// The on-disk block header of a stored block.
pub open spec fn header_of(b: StoredBlock) -> BlockHeader {
    BlockHeader {
        flags: if b.encrypted { BLOCK_FLAG_ENCRYPTED } else { 0 },
        codec: b.codec,
        block_id: b.block_id,
        orig_len: b.orig_len,
        stored_len: b.payload@.len() as u32,
        crc: b.crc,
    }
}

/// The record written to the archive for a block (header then payload) and
/// its row in the block table.
pub fn write_block(b: &StoredBlock) -> (r: (Vec<u8>, BlockEntry))
    requires
        b.payload@.len() <= u32::MAX,
    ensures
        r.0@ == block_header_encoding(header_of(*b)) + b.payload@,
        r.1 == entry_of(*b),
{
    let flags: u8 = if b.encrypted { BLOCK_FLAG_ENCRYPTED } else { 0 };
    let hdr = BlockHeader {
        flags,
        codec: b.codec,
        block_id: b.block_id,
        orig_len: b.orig_len,
        stored_len: b.payload.len() as u32,
        crc: b.crc,
    };
    let mut out = hdr.to_bytes();
    crate::bytes::push_all(&mut out, b.payload.as_slice());
    let entry = BlockEntry {
        id: b.block_id,
        codec: b.codec,
        orig_len: b.orig_len,
        stored_len: hdr.stored_len,
        crc: b.crc,
    };
    (out, entry)
}

/// Checks a block header read from the archive against its block-table
/// row: magic, block id, stored length and original length must match.
pub fn check_block_header(hb: &[u8], be: &BlockEntry) -> (ok: bool)
    ensures
        ok <==> block_header_bytes_valid(hb@) && exists|h: BlockHeader|
            block_header_decodes(hb@, h) && h.block_id == be.id && h.stored_len == be.stored_len
                && h.orig_len == be.orig_len,
{
    match BlockHeader::from_bytes(hb) {
        Ok(h) => {
            if h.block_id != be.id || h.stored_len != be.stored_len || h.orig_len != be.orig_len {
                proof {
                    assert forall|h2: BlockHeader| block_header_decodes(hb@, h2) implies !(h2.block_id == be.id
                        && h2.stored_len == be.stored_len && h2.orig_len == be.orig_len) by {}
                }
                false
            } else {
                true
            }
        },
        Err(_) => false,
    }
}

/// The reader accepts what the writer wrote: the record `write_block`
/// produces for a block made by `process_chunk` starts with a valid block
/// header that decodes to the block's id, stored length and original
/// length (the checks `check_block_header` makes against the block's table
/// row), and the payload after it matches the row's CRC.
pub proof fn lemma_written_block_accepted(b: StoredBlock)
    requires
        b.payload@.len() <= u32::MAX,
        b.crc == crc32(b.payload@),
    ensures
        ({
            let rec = block_header_encoding(header_of(b)) + b.payload@;
            let be = entry_of(b);
            &&& block_header_bytes_valid(rec.take(28))
            &&& block_header_decodes(rec.take(28), header_of(b))
            &&& header_of(b).block_id == be.id
            &&& header_of(b).stored_len == be.stored_len
            &&& header_of(b).orig_len == be.orig_len
            &&& rec.skip(28) == b.payload@
            &&& crc32(rec.skip(28)) == be.crc
        }),
{
    crate::format::lemma_block_header_roundtrip(header_of(b));
    let rec = block_header_encoding(header_of(b)) + b.payload@;
    assert(rec.take(28) =~= block_header_encoding(header_of(b)));
    assert(rec.skip(28) =~= b.payload@);
}

/// Checks a payload read from the archive against its block-table CRC.
pub fn check_payload(payload: &[u8], be: &BlockEntry) -> (ok: bool)
    ensures
        ok == (crc32(payload@) == be.crc),
{
    crc32_of(payload) == be.crc
}

/// The stored payload after decryption: itself without a key, the AEAD
/// plaintext under the block's nonce and AAD with one (`None` when it does
/// not authenticate).
pub open spec fn opened(crypto: Option<&Crypto>, salt: Seq<u8>, be: BlockEntry, payload: Seq<u8>) -> Option<Seq<u8>> {
    match crypto {
        Some(c) => crate::crypto::aead_open(c.key_view(), nonce_of(salt, be.id), aad_of(be.id, be.codec), payload),
        None => Some(payload),
    }
}

/// `d` is what decompressing `plain` with `codec` yields (at most `cap`
/// bytes for Zstandard).
pub open spec fn decompressed(codec: u8, plain: Seq<u8>, cap: nat, d: Seq<u8>) -> bool {
    if plain.len() == 0 {
        d.len() == 0
    } else if codec == CODE_STORE {
        d == plain
    } else if codec == crate::format::CODE_ZSTD {
        d == crate::compress::zstd_content(plain) && d.len() <= cap
    } else if codec == crate::format::CODE_LZMA2 {
        d == crate::compress::xz_content(plain)
    } else {
        false
    }
}

/// Turns a stored payload back into the chunk: decrypts it when a key is
/// given, then decompresses it with the block's codec, expecting at most
/// `orig_len` bytes. A payload that encodes a chunk (as `process_chunk`
/// produces it) decodes to that chunk.
pub fn decode_block(crypto: Option<&Crypto>, salt: &[u8], be: &BlockEntry, payload: &[u8]) -> (r: Result<Vec<u8>, BlockError>)
    ensures
        forall|level: i32, data: Seq<u8>|
            data.len() <= be.orig_len && #[trigger] payload_encodes(be.codec, level, key_of(crypto), salt@, be.id, data, payload@)
                ==> r is Ok && r->Ok_0@ == data,
        r matches Ok(d) ==> match opened(crypto, salt@, *be, payload@) {
            Some(plain) => decompressed(be.codec, plain, be.orig_len as nat, d@),
            None => false,
        },
        r matches Err(BlockError::Crypto(e)) ==> e == CryptoError::DecryptFailed && opened(crypto, salt@, *be, payload@) is None,
        r matches Err(BlockError::Compress(_)) ==> opened(crypto, salt@, *be, payload@) is Some,
{
    let plain = match crypto {
        Some(c) => match c.decrypt_block(salt, be.id, be.codec, payload) {
            Ok(p) => p,
            Err(e) => return Err(BlockError::Crypto(e)),
        },
        None => vstd::slice::slice_to_vec(payload),
    };
    assert(opened(crypto, salt@, *be, payload@) == Some(plain@));
    match decompress(be.codec, plain.as_slice(), be.orig_len as usize) {
        Ok(d) => {
            assert(decompressed(be.codec, plain@, be.orig_len as nat, d@));
            Ok(d)
        },
        Err(e) => Err(BlockError::Compress(e)),
    }
}

/// The payloads of a list of blocks.
pub open spec fn payloads_of(blocks: Seq<StoredBlock>) -> Seq<Seq<u8>> {
    Seq::new(blocks.len(), |i: int| blocks[i].payload@)
}

/// Computes the recovery parity of a finished segment of blocks (its id is
/// the first block's id divided by `k`).
pub fn segment_parity(blocks: &[StoredBlock], k: usize, m: usize) -> (r: Result<
    crate::recovery::SegmentParity,
    crate::recovery::RecoveryError,
>)
    requires
        blocks@.len() > 0,
    ensures
        match r {
            Ok(sp) => crate::recovery::params_valid(k as nat, m as nat) && blocks@.len() <= k
                && crate::recovery::max_len(payloads_of(blocks@)) > 0 && sp.seg_id == ((blocks@[0].block_id as usize) / k) as u32
                && sp.data_count == blocks@.len() && sp.shard_size == crate::recovery::max_len(payloads_of(blocks@))
                && sp.parity.deep_view() == crate::recovery::rs_parity(
                k as nat,
                m as nat,
                crate::recovery::segment_data(payloads_of(blocks@), k as nat, sp.shard_size as nat),
            ) && sp.parity@.len() == m && forall|j: int|
                0 <= j < m ==> (#[trigger] sp.parity@[j])@.len() == sp.shard_size,
            Err(e) => !(crate::recovery::params_valid(k as nat, m as nat) && blocks@.len() <= k
                && crate::recovery::max_len(payloads_of(blocks@)) > 0),
        },
{
    let mut payloads: Vec<Vec<u8>> = Vec::new();
    let mut i: usize = 0;
    while i < blocks.len()
        invariant
            i <= blocks@.len(),
            payloads.deep_view() == payloads_of(blocks@).take(i as int),
        decreases blocks@.len() - i,
    {
        let c = blocks[i].payload.clone();
        assert(c@ =~= blocks@[i as int].payload@);
        let ghost before = payloads.deep_view();
        payloads.push(c);
        assert(payloads.deep_view() =~= before.push(c@));
        i = i + 1;
        assert(payloads.deep_view() =~= payloads_of(blocks@).take(i as int));
    }
    assert(payloads_of(blocks@).take(i as int) =~= payloads_of(blocks@));
    let mut sp = match crate::recovery::encode_segment(k, m, payloads.as_slice()) {
        Ok(sp) => sp,
        Err(e) => return Err(e),
    };
    let first: usize = #[verifier::truncate] (blocks[0].block_id as usize);
    let q: usize = first / k;
    sp.seg_id = #[verifier::truncate] (q as u32);
    Ok(sp)
}

// ─────────────────────────── ordered writer ───────────────────────────

/// What the writer does next with blocks that are ready: write one block,
/// or (with recovery) compute parity for a full segment and write it.
pub enum WriterStep {
    Block(StoredBlock),
    Segment(Vec<StoredBlock>),
}

/// Block ids of a list of blocks.
pub open spec fn ids_of(blocks: Seq<StoredBlock>) -> Seq<u64> {
    Seq::new(blocks.len(), |i: int| blocks[i].block_id)
}

/// The block ids a list of steps writes, in order.
pub open spec fn step_ids(steps: Seq<WriterStep>) -> Seq<u64>
    decreases steps.len(),
{
    if steps.len() == 0 {
        Seq::empty()
    } else {
        step_ids(steps.drop_last()) + match steps.last() {
            WriterStep::Block(b) => seq![b.block_id],
            WriterStep::Segment(v) => ids_of(v@),
        }
    }
}

/// The blocks a list of steps writes, in order.
pub open spec fn step_blocks(steps: Seq<WriterStep>) -> Seq<StoredBlock>
    decreases steps.len(),
{
    if steps.len() == 0 {
        Seq::empty()
    } else {
        step_blocks(steps.drop_last()) + match steps.last() {
            WriterStep::Block(b) => seq![b],
            WriterStep::Segment(v) => v@,
        }
    }
}

/// Each block is the one last received under its id.
pub open spec fn as_received(blocks: Seq<StoredBlock>, received: Map<u64, StoredBlock>) -> bool {
    forall|i: int|
        0 <= i < blocks.len() ==> received.contains_key((#[trigger] blocks[i]).block_id) && blocks[i]
            == received[blocks[i].block_id]
}

/// The ids `a, a+1, ..., b-1`.
pub open spec fn id_range(a: int, b: int) -> Seq<u64> {
    Seq::new((b - a) as nat, |i: int| (a + i) as u64)
}

/// Steps of the right shape: single blocks without recovery, segments of
/// exactly `k` blocks with it.
pub open spec fn steps_shaped(steps: Seq<WriterStep>, k: nat, grouped: bool) -> bool {
    forall|i: int|
        0 <= i < steps.len() ==> match #[trigger] steps[i] {
            WriterStep::Block(_) => !grouped,
            WriterStep::Segment(v) => grouped && v@.len() == k,
        }
}

/// Puts blocks that workers finish out of order back into block-id order,
/// grouping them into segments of `k` when recovery is on.
pub struct BlockOrderer {
    pending: std::collections::BTreeMap<u64, StoredBlock>,
    next_id: u64,
    segment: Vec<StoredBlock>,
    k: usize,
    grouped: bool,
    received: Ghost<Map<u64, StoredBlock>>,
}

impl BlockOrderer {
    /// The blocks accepted so far, the last one under each id (a block
    /// whose id was already placed is not taken).
    pub closed spec fn received(&self) -> Map<u64, StoredBlock> {
        self.received@
    }

    /// The next block id to be placed.
    pub closed spec fn spec_next_id(&self) -> nat {
        self.next_id as nat
    }

    /// Blocks already handed out in steps (ids `0..emitted`).
    pub closed spec fn emitted(&self) -> nat {
        (self.next_id - self.segment@.len()) as nat
    }

    /// Segment size.
    pub closed spec fn spec_k(&self) -> nat {
        self.k as nat
    }

    /// Whether blocks are grouped into segments.
    pub closed spec fn spec_grouped(&self) -> bool {
        self.grouped
    }

    /// Blocks waiting for earlier ids.
    pub closed spec fn pending_count(&self) -> nat {
        self.pending@.dom().len()
    }

    /// Internal consistency of the orderer.
    pub closed spec fn wf(&self) -> bool {
        &&& self.grouped ==> self.k >= 1 && self.segment@.len() < self.k
        &&& !self.grouped ==> self.segment@.len() == 0
        &&& self.segment@.len() <= self.next_id
        &&& ids_of(self.segment@) == id_range(self.next_id - self.segment@.len(), self.next_id as int)
        &&& forall|key: u64| #[trigger] self.pending@.contains_key(key) ==> key < u64::MAX
            && self.pending@[key].block_id == key
        &&& forall|key: u64|
            #[trigger] self.pending@.contains_key(key) && key >= self.next_id ==> self.received@.contains_key(key)
                && self.pending@[key] == self.received@[key]
        &&& as_received(self.segment@, self.received@)
        &&& forall|key: u64|
            key >= self.next_id && #[trigger] self.received@.contains_key(key) ==> self.pending@.contains_key(key)
        &&& self.grouped ==> (self.next_id - self.segment@.len()) % (self.k as int) == 0
    }

    /// An empty orderer; `grouped` with segment size `k` when recovery is on.
    pub fn new(k: usize, grouped: bool) -> (o: Self)
        requires
            grouped ==> k >= 1,
        ensures
            o.wf(),
            o.emitted() == 0,
            o.spec_next_id() == 0,
            o.spec_k() == k,
            o.spec_grouped() == grouped,
            o.pending_count() == 0,
            o.received() == Map::<u64, StoredBlock>::empty(),
    {
        let o = BlockOrderer {
            pending: std::collections::BTreeMap::new(),
            next_id: 0,
            segment: Vec::new(),
            k,
            grouped,
            received: Ghost(Map::empty()),
        };
        assert(ids_of(o.segment@) =~= id_range(0, 0));
        if grouped {
            assert(0int % (k as int) == 0) by (nonlinear_arith)
                requires
                    k >= 1,
            ;
        }
        o
    }

    /// Accepts one finished block and returns the steps that became ready,
    /// in order: they write exactly the next ids after those written so far.
    pub fn accept(&mut self, b: StoredBlock) -> (steps: Vec<WriterStep>)
        requires
            old(self).wf(),
            b.block_id < u64::MAX,
        ensures
            final(self).wf(),
            final(self).spec_k() == old(self).spec_k(),
            final(self).spec_grouped() == old(self).spec_grouped(),
            final(self).emitted() >= old(self).emitted(),
            step_ids(steps@) == id_range(old(self).emitted() as int, final(self).emitted() as int),
            steps_shaped(steps@, old(self).spec_k(), old(self).spec_grouped()),
            final(self).received() == (if b.block_id >= old(self).spec_next_id() {
                old(self).received().insert(b.block_id, b)
            } else {
                old(self).received()
            }),
            as_received(step_blocks(steps@), final(self).received()),
            final(self).spec_next_id() >= old(self).spec_next_id(),
            forall|id: int|
                old(self).spec_next_id() <= id < final(self).spec_next_id() ==> #[trigger] final(self).received().contains_key(
                    id as u64,
                ),
            final(self).spec_next_id() <= u64::MAX,
            !final(self).received().contains_key(final(self).spec_next_id() as u64),
            !final(self).spec_grouped() ==> final(self).emitted() == final(self).spec_next_id(),
            final(self).spec_grouped() ==> final(self).emitted() % final(self).spec_k() == 0
                && final(self).spec_next_id() < final(self).emitted() + final(self).spec_k(),
    {
        let id = b.block_id;
        let ghost gb = b;
        let ghost taken = id >= self.next_id;
        self.received = Ghost(if taken { self.received@.insert(id, gb) } else { self.received@ });
        self.pending.insert(id, b);
        proof {
            let seg = self.segment@;
            assert forall|i: int| 0 <= i < seg.len() implies self.received@.contains_key((#[trigger] seg[i]).block_id)
                && seg[i] == self.received@[seg[i].block_id] by {
                assert(ids_of(seg)[i] == id_range(self.next_id - seg.len(), self.next_id as int)[i]);
                assert(seg[i].block_id < self.next_id);
            }
        }
        let mut steps: Vec<WriterStep> = Vec::new();
        let ghost start = self.next_id - self.segment@.len();
        assert(step_ids(steps@) =~= id_range(start, start));
        loop
            invariant
                self.wf(),
                self.k == old(self).k,
                self.grouped == old(self).grouped,
                start == old(self).emitted(),
                start <= self.next_id - self.segment@.len(),
                step_ids(steps@) == id_range(start, self.next_id - self.segment@.len()),
                steps_shaped(steps@, self.k as nat, self.grouped),
                self.received@ == (if taken { old(self).received@.insert(gb.block_id, gb) } else { old(self).received@ }),
                as_received(step_blocks(steps@), self.received@),
                self.next_id >= old(self).next_id,
                forall|i: int| old(self).next_id <= i < self.next_id ==> #[trigger] self.received@.contains_key(i as u64),
            ensures
                !self.pending@.contains_key(self.next_id),
            decreases self.pending@.dom().len(),
        {
            let nid = self.next_id;
            match self.pending.remove(&nid) {
                Some(blk) => {
                    let ghost old_steps = steps@;
                    let ghost old_seg = self.segment@;
                    assert(blk.block_id == nid);
                    self.next_id = nid + 1;
                    if self.grouped {
                        self.segment.push(blk);
                        assert(self.segment@ == old_seg.push(blk));
                        assert forall|i: int| 0 <= i < self.segment@.len() implies #[trigger] ids_of(self.segment@)[i]
                            == id_range(self.next_id - self.segment@.len(), self.next_id as int)[i] by {
                            if i < old_seg.len() {
                                assert(ids_of(old_seg)[i] == id_range(nid - old_seg.len(), nid as int)[i]);
                            }
                        }
                        assert(ids_of(self.segment@) =~= id_range(self.next_id - self.segment@.len(), self.next_id as int));
                        if self.segment.len() == self.k {
                            let mut full: Vec<StoredBlock> = Vec::new();
                            std::mem::swap(&mut full, &mut self.segment);
                            steps.push(WriterStep::Segment(full));
                            proof {
                                vstd::arithmetic::div_mod::lemma_mod_add_multiples_vanish(
                                    (nid + 1 - self.k) as int,
                                    self.k as int,
                                );
                            }
                            assert(steps@.drop_last() == old_steps);
                            assert(step_blocks(steps@) =~= step_blocks(old_steps) + full@);
                            assert(step_ids(steps@) =~= id_range(start, self.next_id as int));
                            assert(ids_of(self.segment@) =~= id_range(self.next_id as int, self.next_id as int));
                        }
                    } else {
                        steps.push(WriterStep::Block(blk));
                        assert(steps@.drop_last() == old_steps);
                        assert(step_blocks(steps@) =~= step_blocks(old_steps).push(blk));
                        assert(step_ids(steps@) =~= id_range(start, self.next_id as int));
                        assert(ids_of(self.segment@) =~= id_range(self.next_id as int, self.next_id as int));
                    }
                },
                None => break,
            }
        }
        steps
    }

    /// Ends the stream: fails with the number of blocks still waiting for
    /// an earlier id (the stream ended early); otherwise returns the final,
    /// short segment, if any.
    pub fn finish(self) -> (r: Result<Option<Vec<StoredBlock>>, usize>)
        requires
            self.wf(),
        ensures
            match r {
                Err(n) => n == self.pending_count() && n > 0,
                Ok(None) => self.pending_count() == 0 && self.emitted() == self.spec_next_id(),
                Ok(Some(seg)) => self.pending_count() == 0 && self.spec_grouped() && seg@.len() > 0
                    && seg@.len() < self.spec_k() && ids_of(seg@) == id_range(
                    self.emitted() as int,
                    self.spec_next_id() as int,
                ) && as_received(seg@, self.received()),
            },
    {
        if !self.pending.is_empty() {
            return Err(self.pending.len());
        }
        if self.segment.len() > 0 {
            Ok(Some(self.segment))
        } else {
            Ok(None)
        }
    }
}

// ─────────────────────────── create: options and final index ───────────────────────────

// ─────────────────────────── block ids ───────────────────────────

/// The lists of block ids, one after the other.
pub open spec fn flatten(lists: Seq<Seq<u64>>) -> Seq<u64>
    decreases lists.len(),
{
    if lists.len() == 0 {
        Seq::empty()
    } else {
        flatten(lists.drop_last()) + lists.last()
    }
}

/// The block ids of a list of per-file id lists.
pub open spec fn lists_view(lists: Seq<Vec<u64>>) -> Seq<Seq<u64>> {
    Seq::new(lists.len(), |i: int| lists[i]@)
}

/// Hands out block ids in chunk order while the files are read, and keeps
/// the ids of each file's chunks: the files' lists, one after the other,
/// are always `0, 1, ..., produced - 1`.
pub struct BlockIds {
    next: u64,
    lists: Vec<Vec<u64>>,
    current: Vec<u64>,
}

impl BlockIds {
    /// Ids handed out so far.
    pub closed spec fn produced(&self) -> nat {
        self.next as nat
    }

    /// The id lists of the files already finished.
    pub closed spec fn done_lists(&self) -> Seq<Seq<u64>> {
        lists_view(self.lists@)
    }

    /// The ids of the file being read.
    pub closed spec fn current(&self) -> Seq<u64> {
        self.current@
    }

    /// The lists and the current file's ids cover `0..produced` in order.
    pub closed spec fn wf(&self) -> bool {
        flatten(lists_view(self.lists@)) + self.current@ == id_range(0, self.next as int)
    }

    /// No ids handed out yet.
    pub fn new() -> (r: Self)
        ensures
            r.wf(),
            r.produced() == 0,
            r.done_lists() == Seq::<Seq<u64>>::empty(),
            r.current() == Seq::<u64>::empty(),
    {
        let r = BlockIds { next: 0, lists: Vec::new(), current: Vec::new() };
        assert(lists_view(r.lists@) =~= Seq::<Seq<u64>>::empty());
        assert(flatten(lists_view(r.lists@)) + r.current@ =~= id_range(0, 0));
        r
    }

    /// Ids handed out so far.
    pub fn next_id(&self) -> (r: u64)
        ensures
            r == self.produced(),
    {
        self.next
    }

    /// The id of the next chunk of the file being read: the next id in
    /// order, recorded in the file's list.
    pub fn assign(&mut self) -> (id: u64)
        requires
            old(self).wf(),
            old(self).produced() < u64::MAX,
        ensures
            final(self).wf(),
            id == old(self).produced(),
            final(self).produced() == old(self).produced() + 1,
            final(self).done_lists() == old(self).done_lists(),
            final(self).current() == old(self).current().push(id),
    {
        let id = self.next;
        let ghost f = flatten(lists_view(self.lists@));
        let ghost c = self.current@;
        self.current.push(id);
        self.next = id + 1;
        assert(f + self.current@ =~= (f + c).push(id));
        assert(id_range(0, self.next as int) =~= id_range(0, id as int).push(id));
        id
    }

    /// Closes the file being read: its ids become its list.
    pub fn end_file(&mut self)
        requires
            old(self).wf(),
        ensures
            final(self).wf(),
            final(self).produced() == old(self).produced(),
            final(self).done_lists() == old(self).done_lists().push(old(self).current()),
            final(self).current() == Seq::<u64>::empty(),
    {
        let mut cur: Vec<u64> = Vec::new();
        std::mem::swap(&mut cur, &mut self.current);
        let ghost before = self.lists@;
        self.lists.push(cur);
        proof {
            assert(lists_view(self.lists@).drop_last() =~= lists_view(before));
            assert(lists_view(self.lists@) =~= lists_view(before).push(cur@));
            assert(flatten(lists_view(self.lists@)) + self.current@ =~= flatten(lists_view(before)) + cur@);
        }
    }

    /// The files' id lists and how many ids were handed out; the lists,
    /// one after the other, are exactly `0..produced`.
    pub fn finish(self) -> (r: (Vec<Vec<u64>>, u64))
        requires
            self.wf(),
            self.current() == Seq::<u64>::empty(),
        ensures
            lists_view(r.0@) == self.done_lists(),
            r.1 == self.produced(),
            flatten(lists_view(r.0@)) == id_range(0, r.1 as int),
    {
        assert(flatten(lists_view(self.lists@)) + self.current@ =~= flatten(lists_view(self.lists@)));
        (self.lists, self.next)
    }
}

/// What a new archive is made with.
#[derive(Clone, Debug)]
pub struct CreateOptions {
    /// Codec code (`CODE_ZSTD`, `CODE_LZMA2` or `CODE_STORE`).
    pub codec: u8,
    /// Compression level as given (stored clamped to 0..=255).
    pub level: i32,
    /// Chunk size in bytes.
    pub block_size: u32,
    /// Password; blocks are encrypted when one is given.
    pub password: Option<String>,
    /// Worker threads.
    pub threads: usize,
    /// Data blocks per recovery segment.
    pub segment_size: usize,
    /// Parity blocks per segment (0 = no recovery volume).
    pub parity: usize,
    /// No progress output.
    pub quiet: bool,
}

/// What creating an archive produced.
#[derive(Clone, Copy, Debug)]
pub struct CreateStats {
    pub total_bytes_read: u64,
    pub archive_size: u64,
    pub volume_size: u64,
    pub block_count: usize,
}

/// One input: its index entry and where to read it from.
#[derive(Clone, Debug)]
pub struct InputFile {
    pub entry: FileEntry,
    pub local: String,
}

/// The compression level as the header and index store it.
pub open spec fn level_byte_spec(level: i32) -> u8 {
    if level < 0 {
        0
    } else if level > 255 {
        255
    } else {
        level as u8
    }
}

/// The compression level clamped to a byte.
pub fn level_byte(level: i32) -> (r: u8)
    ensures
        r == level_byte_spec(level),
{
    if level < 0 {
        0
    } else if level > 255 {
        255
    } else {
        level as u8
    }
}

/// The segment size a new archive records: the requested one when
/// recovery is on, 0 without recovery.
pub open spec fn recorded_segment_size(opts: CreateOptions) -> u16 {
    if opts.parity == 0 {
        0
    } else {
        opts.segment_size as u16
    }
}

fn recorded_segment_size_exec(opts: &CreateOptions) -> (r: u16)
    ensures
        r == recorded_segment_size(*opts),
{
    if opts.parity == 0 {
        0
    } else {
        opts.segment_size as u16
    }
}

/// The header a new archive starts with (fresh random salt, index not yet
/// written). Segment size and parity are stored in 16 bits; both are 0
/// without recovery.
pub fn create_header(opts: &CreateOptions) -> (h: ArchiveHeader)
    ensures
        h.version == 1,
        h.flags == ArchiveHeader::flags_for(opts.parity as u16, opts.password is Some),
        h.codec == opts.codec,
        h.level == level_byte_spec(opts.level),
        h.block_size == opts.block_size,
        h.segment_size == recorded_segment_size(*opts),
        h.parity == opts.parity as u16,
        h.index_offset == 0,
        h.index_len == 0,
{
    ArchiveHeader::new(
        opts.codec,
        level_byte(opts.level),
        opts.block_size,
        recorded_segment_size_exec(opts),
        opts.parity as u16,
        opts.password.is_some(),
    )
}

/// Why the final index of a new archive could not be made.
#[derive(Clone, Copy, Debug, PartialEq, Eq)]
pub enum CreateError {
    /// The password verifier could not be sealed.
    Crypto(CryptoError),
    /// The writer wrote a different number of blocks than were produced.
    Inconsistent { produced: u64, written: usize },
}

/// An entry with its block list replaced.
pub open spec fn with_blocks(e: <FileEntry as View>::V, blocks: Seq<u64>) -> <FileEntry as View>::V {
    (e.0, e.1, e.2, e.3, e.4, e.5, e.6, blocks)
}

/// The entries of a new archive: each keeps its metadata and gets the block
/// ids its chunks were assigned.
pub open spec fn entries_with_lists(entries: Seq<FileEntry>, lists: Seq<Vec<u64>>) -> Seq<<FileEntry as View>::V> {
    Seq::new(
        entries.len(),
        |i: int|
            if i < lists.len() {
                with_blocks(entries[i]@, lists[i]@)
            } else {
                entries[i]@
            },
    )
}

/// The index written at the end of a new archive: the options, the salt
/// and password verifier (hex) when encrypted, every entry with its block
/// list, and the block table as the writer produced it. It is refused when
/// the block table does not hold exactly the produced blocks.
pub fn assemble_index(
    opts: &CreateOptions,
    salt: &[u8; 16],
    crypto: Option<&Crypto>,
    created_by: String,
    created_at: i64,
    entries: Vec<FileEntry>,
    lists: Vec<Vec<u64>>,
    block_table: Vec<BlockEntry>,
    produced: u64,
) -> (r: Result<Index, CreateError>)
    requires
        lists@.len() <= entries@.len(),
    ensures
        match r {
            Ok(ix) => {
                &&& block_table@.len() == produced
                &&& ix.created_by@ == created_by@
                &&& ix.created_at == created_at
                &&& ix.encrypted == crypto is Some
                &&& ix.codec@ == codec_name_spec(opts.codec)
                &&& ix.level == level_byte_spec(opts.level)
                &&& ix.block_size == opts.block_size
                &&& ix.segment_size == recorded_segment_size(*opts)
                &&& ix.parity == opts.parity as u16
                &&& match crypto {
                    Some(c) => ix.salt_hex is Some && ix.salt_hex->0@ == hex_chars(salt@) && ix.verifier_hex is Some
                        && ix.verifier_hex->0@ == hex_chars(
                        crate::crypto::aead_seal(c.verifier_key_view(), zero_bytes(24), VERIFIER_AAD@, zero_bytes(32)),
                    ),
                    None => ix.salt_hex is None && ix.verifier_hex is None,
                }
                &&& ix.files@.len() == entries@.len()
                &&& forall|i: int| 0 <= i < entries@.len() ==> #[trigger] ix.files@[i]@ == entries_with_lists(entries@, lists@)[i]
                &&& ix.blocks@ == block_table@
            },
            Err(CreateError::Inconsistent { produced: p, written: w }) => block_table@.len() != produced && p == produced
                && w == block_table@.len(),
            Err(CreateError::Crypto(_)) => false,
        },
{
    if block_table.len() as u64 != produced {
        return Err(CreateError::Inconsistent { produced, written: block_table.len() });
    }
    let (salt_hex, verifier_hex) = match crypto {
        Some(c) => {
            let v = match c.password_verifier() {
                Ok(v) => v,
                Err(e) => return Err(CreateError::Crypto(e)),
            };
            (Some(hex(salt)), Some(hex(v.as_slice())))
        },
        None => (None, None),
    };
    let ghost spec_files = entries_with_lists(entries@, lists@);
    let mut files: Vec<FileEntry> = Vec::new();
    let mut i: usize = 0;
    while i < entries.len()
        invariant
            i <= entries@.len(),
            lists@.len() <= entries@.len(),
            spec_files == entries_with_lists(entries@, lists@),
            files@.len() == i,
            forall|j: int| 0 <= j < i ==> #[trigger] files@[j]@ == spec_files[j],
        decreases entries@.len() - i,
    {
        let e = &entries[i];
        let mut fe = e.with_path(crate::text::copy_str(e.path.as_str()));
        if i < lists.len() {
            let mut blocks: Vec<u64> = Vec::new();
            let src = &lists[i];
            let mut j: usize = 0;
            while j < src.len()
                invariant
                    j <= src@.len(),
                    blocks@ == src@.take(j as int),
                decreases src@.len() - j,
            {
                blocks.push(src[j]);
                j = j + 1;
                assert(blocks@ =~= src@.take(j as int));
            }
            assert(src@.take(j as int) =~= src@);
            fe.blocks = blocks;
        }
        files.push(fe);
        i = i + 1;
    }
    Ok(Index {
        created_by,
        created_at,
        encrypted: crypto.is_some(),
        codec: crate::text::copy_str(codec_name(opts.codec)),
        level: level_byte(opts.level),
        block_size: opts.block_size,
        segment_size: recorded_segment_size_exec(opts),
        parity: opts.parity as u16,
        salt_hex,
        verifier_hex,
        files,
        blocks: block_table,
    })
}

} // verus!
