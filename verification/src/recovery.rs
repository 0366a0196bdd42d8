//! Reed-Solomon recovery: parity shards for segments of `k` data blocks,
//! the rebuilding of lost blocks, and the `.nvol` volume layout.
//!
//! Parity is computed over the stored (compressed, possibly encrypted)
//! payloads. Each segment's payloads are padded with zeros to the longest
//! one; a short final segment is completed with zero lanes, so every
//! segment uses the same `k`-lane codeword.

use vstd::bytes::*;
use vstd::prelude::*;

use crate::format::{crc32, crc32_of, header_bytes_valid, header_decodes, ArchiveHeader, BlockEntry, FormatError};

verus! {

/// Default data blocks per RS segment.
pub const DEFAULT_SEGMENT_SIZE: usize = 128;

/// Upper bound on data + parity shards (GF(2^8)).
pub const MAX_TOTAL_SHARDS: usize = 256;

// ─────────────────────────── shard model ───────────────────────────

broadcast use crate::bytes::group_byte_views;

/// The parity shards that Reed-Solomon over GF(2^8) computes for `k` data
/// shards and `m` parity shards.
pub uninterp spec fn rs_parity(k: nat, m: nat, data: Seq<Seq<u8>>) -> Seq<Seq<u8>>;

/// `n` zero bytes.
pub open spec fn zeros(n: nat) -> Seq<u8> {
    Seq::new(n, |i: int| 0u8)
}

/// `x` padded with zero bytes up to length `n` (unchanged if already longer).
pub open spec fn pad(x: Seq<u8>, n: nat) -> Seq<u8> {
    if x.len() >= n {
        x
    } else {
        x + zeros((n - x.len()) as nat)
    }
}

/// Padding law: a payload padded to `n` bytes is `n` bytes long, begins
/// with the payload, and every byte after it is zero.
pub proof fn lemma_pad_with_zeros(x: Seq<u8>, n: nat)
    requires
        x.len() <= n,
    ensures
        pad(x, n).len() == n,
        pad(x, n).take(x.len() as int) == x,
        forall|i: int| x.len() <= i < n ==> #[trigger] pad(x, n)[i] == 0u8,
{
    assert(pad(x, n).take(x.len() as int) =~= x);
}

/// Segment lanes law: lane `i` of a segment is payload `i` followed by zero
/// bytes up to the shard size, and the lanes past the last payload are all
/// zero bytes.
pub proof fn lemma_segment_lanes(payloads: Seq<Seq<u8>>, k: nat, size: nat)
    requires
        payloads.len() <= k,
        forall|i: int| 0 <= i < payloads.len() ==> (#[trigger] payloads[i]).len() <= size,
    ensures
        segment_data(payloads, k, size).len() == k,
        forall|i: int, j: int|
            0 <= i < k && 0 <= j < size ==> #[trigger] segment_data(payloads, k, size)[i][j] == if i < payloads.len()
                && j < payloads[i].len() {
                payloads[i][j]
            } else {
                0u8
            },
        forall|i: int| 0 <= i < k ==> (#[trigger] segment_data(payloads, k, size)[i]).len() == size,
{
}

/// Length of the longest sequence (0 for none).
pub open spec fn max_len(s: Seq<Seq<u8>>) -> nat
    decreases s.len(),
{
    if s.len() == 0 {
        0
    } else {
        let rest = max_len(s.drop_last());
        if s.last().len() > rest {
            s.last().len()
        } else {
            rest
        }
    }
}

/// Length of the longest present shard (0 for none).
pub open spec fn max_present_len(s: Seq<Option<Seq<u8>>>) -> nat
    decreases s.len(),
{
    if s.len() == 0 {
        0
    } else {
        let rest = max_present_len(s.drop_last());
        match s.last() {
            Some(x) => if x.len() > rest {
                x.len()
            } else {
                rest
            },
            None => rest,
        }
    }
}

/// Number of present shards.
pub open spec fn count_present(s: Seq<Option<Seq<u8>>>) -> nat
    decreases s.len(),
{
    if s.len() == 0 {
        0
    } else {
        count_present(s.drop_last()) + if s.last() is Some {
            1nat
        } else {
            0nat
        }
    }
}

/// The `k` data lanes of a segment: its payloads padded to `size`, then
/// zero lanes up to `k`.
pub open spec fn segment_data(payloads: Seq<Seq<u8>>, k: nat, size: nat) -> Seq<Seq<u8>> {
    Seq::new(k, |i: int| if i < payloads.len() { pad(payloads[i], size) } else { zeros(size) })
}

/// Parameters the Reed-Solomon codec accepts for segments.
pub open spec fn params_valid(k: nat, m: nat) -> bool {
    2 <= k && 1 <= m && k + m <= 256
}

/// What the codec's `encode` accepts: a valid codec and exactly `k + m`
/// shards of one non-zero length.
pub open spec fn rs_encode_accepts(k: nat, m: nat, shards: Seq<Seq<u8>>) -> bool {
    &&& 1 <= k && 1 <= m && k + m <= 256
    &&& shards.len() == k + m
    &&& shards[0].len() > 0
    &&& forall|i: int| 0 <= i < shards.len() ==> (#[trigger] shards[i]).len() == shards[0].len()
}

/// What the codec's `reconstruct` accepts: a valid codec, exactly `k + m`
/// shards, every present shard non-empty and of one length, and at least
/// `k` of them present.
pub open spec fn rs_reconstruct_accepts(k: nat, m: nat, shards: Seq<Option<Seq<u8>>>) -> bool {
    &&& 1 <= k && 1 <= m && k + m <= 256
    &&& shards.len() == k + m
    &&& forall|i: int|
        0 <= i < shards.len() && (#[trigger] shards[i]) is Some ==> shards[i]->0.len() > 0
            && shards[i]->0.len() == max_present_len(shards)
    &&& count_present(shards) >= k
}

/// The present shards agree with the codeword of data `d`: `d` has `k`
/// equal-length shards, its parity has `m` shards of that length, and each
/// present shard equals the codeword's shard at its position.
pub open spec fn rs_consistent(k: nat, m: nat, shards: Seq<Option<Seq<u8>>>, d: Seq<Seq<u8>>) -> bool {
    &&& d.len() == k
    &&& shards.len() == k + m
    &&& forall|i: int| 0 <= i < k ==> (#[trigger] d[i]).len() == d[0].len()
    &&& rs_parity(k, m, d).len() == m
    &&& forall|j: int| 0 <= j < m ==> (#[trigger] rs_parity(k, m, d)[j]).len() == d[0].len()
    &&& forall|i: int|
        0 <= i < k && (#[trigger] shards[i]) is Some ==> shards[i]->0 == d[i]
    &&& forall|j: int|
        0 <= j < m && (#[trigger] shards[k + j]) is Some ==> shards[k + j]->0 == rs_parity(k, m, d)[j]
}

/// `reed_solomon_erasure::galois_8::ReedSolomon::new(k, m)` followed by
/// `ReedSolomon::encode` on `shards`. The contract claims: encoding succeeds
/// exactly when the codec accepts the shard set; on success the first `k`
/// shards are untouched and the last `m` hold the parity of the first `k`;
/// on failure nothing changes; shard count and lengths never change. The
/// constructor adds `k + m` unchecked, so `k` and `m` must be in the
/// field's range.
#[verifier::external_body]
fn rs_encode(k: usize, m: usize, shards: &mut Vec<Vec<u8>>) -> (ok: bool)
    requires
        1 <= k,
        1 <= m,
        k + m <= 256,
    ensures
        ok == rs_encode_accepts(k as nat, m as nat, old(shards).deep_view()),
        final(shards)@.len() == old(shards)@.len(),
        forall|i: int|
            0 <= i < old(shards)@.len() ==> (#[trigger] final(shards)@[i])@.len()
                == old(shards)@[i]@.len(),
        ok ==> final(shards).deep_view().take(k as int) == old(shards).deep_view().take(k as int),
        ok ==> final(shards).deep_view().skip(k as int) == rs_parity(
            k as nat,
            m as nat,
            old(shards).deep_view().take(k as int),
        ),
        !ok ==> final(shards).deep_view() == old(shards).deep_view(),
{
    match reed_solomon_erasure::galois_8::ReedSolomon::new(k, m) {
        Ok(rs) => rs.encode(shards).is_ok(),
        Err(_) => false,
    }
}

/// `reed_solomon_erasure::galois_8::ReedSolomon::new(k, m)` followed by
/// `ReedSolomon::reconstruct` on `shards` (`None` marks a missing shard).
/// The contract claims: reconstruction succeeds exactly when the codec
/// accepts the shard set; present shards are never changed; on failure
/// nothing changes; on success every shard is present with the common
/// length, and whenever the present shards agree with the codeword of some
/// data `d`, the result is that codeword (the MDS property of the code).
/// The constructor adds `k + m` unchecked, so `k` and `m` must be in the
/// field's range.
#[verifier::external_body]
fn rs_reconstruct(k: usize, m: usize, shards: &mut Vec<Option<Vec<u8>>>) -> (ok: bool)
    requires
        1 <= k,
        1 <= m,
        k + m <= 256,
    ensures
        ok == rs_reconstruct_accepts(k as nat, m as nat, old(shards).deep_view()),
        final(shards)@.len() == old(shards)@.len(),
        forall|i: int|
            0 <= i < old(shards)@.len() && (#[trigger] old(shards).deep_view()[i]) is Some
                ==> final(shards).deep_view()[i] == old(shards).deep_view()[i],
        !ok ==> final(shards).deep_view() == old(shards).deep_view(),
        ok ==> forall|i: int|
            0 <= i < final(shards)@.len() ==> (#[trigger] final(shards).deep_view()[i]) is Some
                && final(shards).deep_view()[i]->0.len() == max_present_len(old(shards).deep_view()),
        ok ==> forall|d: Seq<Seq<u8>>|
            rs_consistent(k as nat, m as nat, old(shards).deep_view(), d) ==> forall|i: int|
                0 <= i < k + m ==> #[trigger] final(shards).deep_view()[i] == Some(
                    (d + rs_parity(k as nat, m as nat, d))[i],
                ),
{
    match reed_solomon_erasure::galois_8::ReedSolomon::new(k, m) {
        Ok(rs) => rs.reconstruct(shards.as_mut_slice()).is_ok(),
        Err(_) => false,
    }
}

// ─────────────────────────── segments ───────────────────────────

/// Why a recovery operation failed.
#[derive(Clone, Copy, Debug, PartialEq, Eq)]
pub enum RecoveryError {
    /// Segment size below 2.
    SegmentTooSmall { k: usize },
    /// Parity 0 with recovery requested.
    NoParity,
    /// Segment size plus parity above 256.
    TooManyShards { k: usize, m: usize },
    /// More data blocks than the segment size.
    SegmentOverfull,
    /// The codec refused to encode (e.g. all payloads empty).
    EncodeFailed,
    /// The volume holds a different number of parity shards.
    ParityCount { expected: usize, got: usize },
    /// The codec could not rebuild the segment (too many lanes lost).
    ReconstructFailed,
}

/// The error `validate_params` reports for `k`, `m`, if any.
pub open spec fn params_error(k: usize, m: usize) -> Option<RecoveryError> {
    if k < 2 {
        Some(RecoveryError::SegmentTooSmall { k })
    } else if m < 1 {
        Some(RecoveryError::NoParity)
    } else if k + m > MAX_TOTAL_SHARDS {
        Some(RecoveryError::TooManyShards { k, m })
    } else {
        None
    }
}

/// Checks segment size `k` and parity `m`: `k >= 2`, `m >= 1`, `k + m <= 256`.
pub fn validate_params(k: usize, m: usize) -> (r: Result<(), RecoveryError>)
    ensures
        r is Ok <==> params_error(k, m) is None,
        r is Ok <==> params_valid(k as nat, m as nat),
        r matches Err(e) ==> params_error(k, m) == Some(e),
{
    if k < 2 {
        return Err(RecoveryError::SegmentTooSmall { k });
    }
    if m < 1 {
        return Err(RecoveryError::NoParity);
    }
    if m > MAX_TOTAL_SHARDS || k > MAX_TOTAL_SHARDS - m {
        return Err(RecoveryError::TooManyShards { k, m });
    }
    Ok(())
}

/// Parity computed for one segment.
pub struct SegmentParity {
    pub seg_id: u32,
    /// Number of real data blocks in the segment (the last may be short).
    pub data_count: usize,
    /// All data shards are padded to this size for the RS math.
    pub shard_size: usize,
    /// `m` parity shards, each `shard_size` bytes.
    pub parity: Vec<Vec<u8>>,
}

/// Length of the longest payload.
fn longest(payloads: &[Vec<u8>]) -> (n: usize)
    ensures
        n == max_len(payloads.deep_view()),
{
    let mut n: usize = 0;
    let mut i: usize = 0;
    while i < payloads.len()
        invariant
            i <= payloads@.len(),
            n == max_len(payloads.deep_view().take(i as int)),
        decreases payloads@.len() - i,
    {
        assert(payloads.deep_view().take(i + 1).drop_last() =~= payloads.deep_view().take(i as int));
        if payloads[i].len() > n {
            n = payloads[i].len();
        }
        i = i + 1;
    }
    assert(payloads.deep_view().take(i as int) =~= payloads.deep_view());
    n
}

/// `x` padded with zeros to `n` bytes.
fn padded(x: &Vec<u8>, n: usize) -> (r: Vec<u8>)
    requires
        x@.len() <= n,
    ensures
        r@ == pad(x@, n as nat),
        r@.len() == n,
        r@.take(x@.len() as int) == x@,
        forall|i: int| x@.len() <= i < n ==> r@[i] == 0u8,
{
    let mut v = x.clone();
    assert(v@ =~= x@);
    v.resize(n, 0);
    assert(v@ =~= pad(x@, n as nat));
    assert(v@.take(x@.len() as int) =~= x@);
    v
}

fn zero_shard(n: usize) -> (r: Vec<u8>)
    ensures
        r@ == zeros(n as nat),
{
    let mut v: Vec<u8> = Vec::new();
    v.resize(n, 0);
    assert(v@ =~= zeros(n as nat));
    v
}

/// No sequence is longer than the longest.
pub proof fn lemma_max_len_bound(s: Seq<Seq<u8>>, i: int)
    requires
        0 <= i < s.len(),
    ensures
        s[i].len() <= max_len(s),
    decreases s.len(),
{
    if i < s.len() - 1 {
        lemma_max_len_bound(s.drop_last(), i);
    }
}

/// Computes the `m` parity shards of one segment of `k` lanes from its
/// payloads (at most `k`; missing lanes are zero shards).
pub fn encode_segment(k: usize, m: usize, payloads: &[Vec<u8>]) -> (r: Result<SegmentParity, RecoveryError>)
    ensures
        r is Ok <==> params_valid(k as nat, m as nat) && payloads@.len() <= k
            && max_len(payloads.deep_view()) > 0,
        r matches Err(e) ==> e == (if !params_valid(k as nat, m as nat) {
            params_error(k, m)->0
        } else if payloads@.len() > k {
            RecoveryError::SegmentOverfull
        } else {
            RecoveryError::EncodeFailed
        }),
        r matches Ok(sp) ==> {
            &&& sp.seg_id == 0
            &&& sp.data_count == payloads@.len()
            &&& sp.shard_size == max_len(payloads.deep_view())
            &&& sp.parity.deep_view() == rs_parity(
                k as nat,
                m as nat,
                segment_data(payloads.deep_view(), k as nat, sp.shard_size as nat),
            )
            &&& sp.parity@.len() == m
            &&& forall|j: int| 0 <= j < m ==> (#[trigger] sp.parity@[j])@.len() == sp.shard_size
        },
{
    match validate_params(k, m) {
        Err(e) => return Err(e),
        Ok(()) => {},
    }
    let data_count = payloads.len();
    if data_count > k {
        return Err(RecoveryError::SegmentOverfull);
    }
    let shard_size = longest(payloads);
    let ghost data = segment_data(payloads.deep_view(), k as nat, shard_size as nat);
    let mut shards: Vec<Vec<u8>> = Vec::new();
    let mut i: usize = 0;
    while i < k
        invariant
            i <= k,
            data_count == payloads@.len() <= k,
            shard_size == max_len(payloads.deep_view()),
            data == segment_data(payloads.deep_view(), k as nat, shard_size as nat),
            shards@.len() == i,
            forall|j: int| 0 <= j < i ==> (#[trigger] shards@[j])@ == data[j],
        decreases k - i,
    {
        if i < data_count {
            proof { lemma_max_len_bound(payloads.deep_view(), i as int); }
            shards.push(padded(&payloads[i], shard_size));
        } else {
            shards.push(zero_shard(shard_size));
        }
        i = i + 1;
    }
    let mut j: usize = 0;
    while j < m
        invariant
            j <= m,
            data_count == payloads@.len() <= k,
            shard_size == max_len(payloads.deep_view()),
            data == segment_data(payloads.deep_view(), k as nat, shard_size as nat),
            shards@.len() == k + j,
            forall|x: int| 0 <= x < k ==> (#[trigger] shards@[x])@ == data[x],
            forall|x: int| k <= x < k + j ==> (#[trigger] shards@[x])@ == zeros(shard_size as nat),
        decreases m - j,
    {
        shards.push(zero_shard(shard_size));
        j = j + 1;
    }
    assert(shards.deep_view().take(k as int) =~= data);
    proof {
        assert forall|x: int| 0 <= x < shards@.len() implies (#[trigger] shards.deep_view()[x]).len()
            == shards.deep_view()[0].len() by {
            if x < k && x < data_count {
                lemma_max_len_bound(payloads.deep_view(), x);
                assert(shards.deep_view()[x] == pad(payloads.deep_view()[x], shard_size as nat));
            }
            if data_count > 0 {
                lemma_max_len_bound(payloads.deep_view(), 0);
                assert(shards.deep_view()[0] == pad(payloads.deep_view()[0], shard_size as nat));
            }
        }
    }
    let ghost before = shards.deep_view();
    proof {
        if data_count > 0 {
            lemma_max_len_bound(payloads.deep_view(), 0);
        }
        assert(before[0] == data[0]);
        assert(before[0].len() == shard_size);
    }
    let ok = rs_encode(k, m, &mut shards);
    if !ok {
        if data_count > 0 {
            proof { lemma_max_len_bound(payloads.deep_view(), 0); }
        }
        return Err(RecoveryError::EncodeFailed);
    }
    let parity = shards.split_off(k);
    assert(parity.deep_view() =~= rs_parity(k as nat, m as nat, data));
    Ok(SegmentParity { seg_id: 0, data_count, shard_size, parity })
}

/// Shard size used when rebuilding: the longest present lane or parity shard.
pub open spec fn lane_size(lanes: Seq<Option<Seq<u8>>>, parity: Seq<Seq<u8>>) -> nat {
    if max_present_len(lanes) > max_len(parity) {
        max_present_len(lanes)
    } else {
        max_len(parity)
    }
}

/// The `k + m` shards handed to the codec when rebuilding a segment: present
/// lanes padded to `size`, missing lanes absent, zero lanes up to `k`, then
/// the volume's parity shards.
pub open spec fn received_shards(
    lanes: Seq<Option<Seq<u8>>>,
    parity: Seq<Seq<u8>>,
    k: nat,
    size: nat,
) -> Seq<Option<Seq<u8>>> {
    Seq::new(
        k + parity.len(),
        |i: int|
            if i < lanes.len() {
                match lanes[i] {
                    Some(p) => Some(pad(p, size)),
                    None => None,
                }
            } else if i < k {
                Some(zeros(size))
            } else {
                Some(parity[i - k])
            },
    )
}

/// Length of the longest present lane.
fn longest_present(lanes: &Vec<Option<Vec<u8>>>) -> (n: usize)
    ensures
        n == max_present_len(lanes.deep_view()),
{
    let mut n: usize = 0;
    let mut i: usize = 0;
    while i < lanes.len()
        invariant
            i <= lanes@.len(),
            n == max_present_len(lanes.deep_view().take(i as int)),
        decreases lanes@.len() - i,
    {
        assert(lanes.deep_view().take(i + 1).drop_last() =~= lanes.deep_view().take(i as int));
        match &lanes[i] {
            Some(p) => {
                if p.len() > n {
                    n = p.len();
                }
            },
            None => {},
        }
        i = i + 1;
    }
    assert(lanes.deep_view().take(i as int) =~= lanes.deep_view());
    n
}

proof fn lemma_max_present_bound(s: Seq<Option<Seq<u8>>>, i: int)
    requires
        0 <= i < s.len(),
        s[i] is Some,
    ensures
        s[i]->0.len() <= max_present_len(s),
    decreases s.len(),
{
    if i < s.len() - 1 {
        lemma_max_present_bound(s.drop_last(), i);
    }
}

/// Rebuilds the missing lanes of one segment. `lanes` has one entry per
/// real data block (`None` for a corrupt or missing block); `parity` holds
/// the segment's `m` volume shards. Returns, per lane, `None` for an intact
/// lane and the rebuilt (padded) payload for an erased one.
pub fn reconstruct_segment(
    k: usize,
    m: usize,
    lanes: Vec<Option<Vec<u8>>>,
    parity: &[Vec<u8>],
) -> (r: Result<Vec<Option<Vec<u8>>>, RecoveryError>)
    ensures
        ({
            let size = lane_size(lanes.deep_view(), parity.deep_view());
            let recv = received_shards(lanes.deep_view(), parity.deep_view(), k as nat, size);
            &&& r is Ok <==> params_valid(k as nat, m as nat) && lanes@.len() <= k && parity@.len() == m
                && rs_reconstruct_accepts(k as nat, m as nat, recv)
            &&& r matches Err(e) ==> e == (if !params_valid(k as nat, m as nat) {
                params_error(k, m)->0
            } else if lanes@.len() > k {
                RecoveryError::SegmentOverfull
            } else if parity@.len() != m {
                RecoveryError::ParityCount { expected: m, got: parity@.len() as usize }
            } else {
                RecoveryError::ReconstructFailed
            })
            &&& r matches Ok(rebuilt) ==> {
                &&& rebuilt@.len() == lanes@.len()
                &&& forall|i: int|
                    0 <= i < lanes@.len() ==> ((#[trigger] lanes@[i]) is Some <==> rebuilt@[i] is None)
                &&& forall|i: int|
                    0 <= i < lanes@.len() && (#[trigger] rebuilt@[i]) is Some ==> rebuilt@[i]->0@.len()
                        == max_present_len(recv)
                &&& forall|d: Seq<Seq<u8>>|
                    rs_consistent(k as nat, m as nat, recv, d) ==> forall|i: int|
                        0 <= i < lanes@.len() && (#[trigger] lanes@[i]) is None ==> rebuilt.deep_view()[i]
                            == Some(d[i])
            }
        }),
{
    match validate_params(k, m) {
        Err(e) => return Err(e),
        Ok(()) => {},
    }
    let data_count = lanes.len();
    if data_count > k {
        return Err(RecoveryError::SegmentOverfull);
    }
    if parity.len() != m {
        return Err(RecoveryError::ParityCount { expected: m, got: parity.len() });
    }
    let lane_max = longest_present(&lanes);
    let parity_max = longest(parity);
    let shard_size = if lane_max > parity_max { lane_max } else { parity_max };
    let ghost size = lane_size(lanes.deep_view(), parity.deep_view());
    let ghost recv = received_shards(lanes.deep_view(), parity.deep_view(), k as nat, size);
    let mut received: Vec<Option<Vec<u8>>> = Vec::new();
    let mut i: usize = 0;
    while i < k + m
        invariant
            i <= k + m,
            params_valid(k as nat, m as nat),
            data_count == lanes@.len() <= k,
            parity@.len() == m,
            shard_size == size,
            size == lane_size(lanes.deep_view(), parity.deep_view()),
            recv == received_shards(lanes.deep_view(), parity.deep_view(), k as nat, size),
            received@.len() == i,
            forall|j: int| 0 <= j < i ==> (#[trigger] received@[j]).deep_view() == recv[j],
        decreases k + m - i,
    {
        if i < data_count {
            match &lanes[i] {
                Some(p) => {
                    proof { lemma_max_present_bound(lanes.deep_view(), i as int); }
                    received.push(Some(padded(p, shard_size)));
                },
                None => {
                    received.push(None);
                },
            }
        } else if i < k {
            received.push(Some(zero_shard(shard_size)));
        } else {
            received.push(Some(parity[i - k].clone()));
        }
        assert(received@[i as int].deep_view() == recv[i as int]);
        i = i + 1;
    }
    assert(received.deep_view() =~= recv);
    let ok = rs_reconstruct(k, m, &mut received);
    if !ok {
        return Err(RecoveryError::ReconstructFailed);
    }
    let ghost full = received.deep_view();
    let mut rebuilt: Vec<Option<Vec<u8>>> = Vec::new();
    let mut j: usize = 0;
    while j < data_count
        invariant
            j <= data_count,
            data_count == lanes@.len() <= k,
            received@.len() == k + m,
            full == received.deep_view(),
            forall|x: int| 0 <= x < k + m ==> (#[trigger] full[x]) is Some,
            rebuilt@.len() == j,
            forall|x: int|
                0 <= x < j ==> (#[trigger] rebuilt@[x]).deep_view() == (if lanes@[x] is Some {
                    None::<Seq<u8>>
                } else {
                    full[x]
                }),
        decreases data_count - j,
    {
        if lanes[j].is_some() {
            rebuilt.push(None);
        } else {
            match &received[j] {
                Some(v) => rebuilt.push(Some(v.clone())),
                None => {
                    assert(false);
                    rebuilt.push(None);
                },
            }
        }
        assert(rebuilt@[j as int].deep_view() == (if lanes@[j as int] is Some {
            None::<Seq<u8>>
        } else {
            full[j as int]
        }));
        j = j + 1;
    }
    proof {
        assert forall|d: Seq<Seq<u8>>| rs_consistent(k as nat, m as nat, recv, d) implies forall|x: int|
            0 <= x < lanes@.len() && (#[trigger] lanes@[x]) is None ==> rebuilt.deep_view()[x]
                == Some(d[x]) by {
            assert forall|x: int| 0 <= x < lanes@.len() && (#[trigger] lanes@[x]) is None implies rebuilt.deep_view()[x]
                == Some(d[x]) by {
                assert(full[x] == Some((d + rs_parity(k as nat, m as nat, d))[x]));
                assert(rebuilt.deep_view()[x] == rebuilt@[x].deep_view());
            }
        }
        assert forall|x: int| 0 <= x < lanes@.len() && (#[trigger] rebuilt@[x]) is Some implies rebuilt@[x]->0@.len() == max_present_len(recv) by {
            assert(rebuilt@[x].deep_view() == full[x]);
        }
        assert forall|x: int| 0 <= x < lanes@.len() implies ((#[trigger] lanes@[x]) is Some <==> rebuilt@[x] is None) by {
            assert(rebuilt@[x].deep_view() == (if lanes@[x] is Some { None::<Seq<u8>> } else { full[x] }));
        }
    }
    Ok(rebuilt)
}

// ─────────────────────────── volume layout ───────────────────────────

/// A field of the volume file, named in truncation errors.
#[derive(Clone, Copy, Debug, PartialEq, Eq)]
pub enum VolumeField {
    Magic,
    Version,
    SegmentSize,
    Parity,
    SegmentCount,
    HeaderCopy,
    SegmentId,
    DataCount,
    ShardSize,
    ParityShard,
    IndexLen,
    IndexCopy,
    IndexCrc,
}

/// Why a volume file was rejected.
#[derive(Clone, Copy, Debug, PartialEq, Eq)]
pub enum VolumeError {
    Truncated(VolumeField),
    BadMagic,
    UnsupportedVersion(u16),
    Params(RecoveryError),
    Header(FormatError),
    MissingEndMarker,
    MissingHeaderCopy,
    MissingIndexCopy,
}

/// One segment record of a volume: id, data count, shard size, parity shards.
pub type SegRec = (u32, u32, u32, Seq<Seq<u8>>);

/// Concatenation of byte sequences.
pub open spec fn concat(s: Seq<Seq<u8>>) -> Seq<u8>
    decreases s.len(),
{
    if s.len() == 0 {
        Seq::empty()
    } else {
        concat(s.drop_last()) + s.last()
    }
}

/// Reads `n` shards of `size` bytes starting at `pos`; the shards and the
/// position after them, or `None` if the data ends first.
pub open spec fn parse_shards(data: Seq<u8>, pos: int, n: nat, size: int) -> Option<(Seq<Seq<u8>>, int)>
    decreases n,
{
    if n == 0 {
        Some((Seq::empty(), pos))
    } else {
        match parse_shards(data, pos, (n - 1) as nat, size) {
            Some((shards, p)) => if p + size > data.len() {
                None
            } else {
                Some((shards.push(data.subrange(p, p + size)), p + size))
            },
            None => None,
        }
    }
}

/// Reads one segment record at `pos` (`m` parity shards).
pub open spec fn parse_segment(data: Seq<u8>, pos: int, m: nat) -> Result<(SegRec, int), VolumeError> {
    if pos + 4 > data.len() {
        Err(VolumeError::Truncated(VolumeField::SegmentId))
    } else if pos + 8 > data.len() {
        Err(VolumeError::Truncated(VolumeField::DataCount))
    } else if pos + 12 > data.len() {
        Err(VolumeError::Truncated(VolumeField::ShardSize))
    } else {
        let id = spec_u32_from_le_bytes(data.subrange(pos, pos + 4));
        let dc = spec_u32_from_le_bytes(data.subrange(pos + 4, pos + 8));
        let ss = spec_u32_from_le_bytes(data.subrange(pos + 8, pos + 12));
        match parse_shards(data, pos + 12, m, ss as int) {
            Some((shards, p)) => Ok(((id, dc, ss, shards), p)),
            None => Err(VolumeError::Truncated(VolumeField::ParityShard)),
        }
    }
}

/// Reads `n` segment records starting at `pos`.
pub open spec fn parse_segments(data: Seq<u8>, pos: int, n: nat, m: nat) -> Result<(Seq<SegRec>, int), VolumeError>
    decreases n,
{
    if n == 0 {
        Ok((Seq::empty(), pos))
    } else {
        match parse_segments(data, pos, (n - 1) as nat, m) {
            Ok((recs, p)) => match parse_segment(data, p, m) {
                Ok((rec, q)) => Ok((recs.push(rec), q)),
                Err(e) => Err(e),
            },
            Err(e) => Err(e),
        }
    }
}

/// Reads the optional index section at `pos`: the index copy when its CRC
/// matches, `None` when the section is absent or its CRC does not match.
pub open spec fn parse_index_section(data: Seq<u8>, pos: int) -> Result<Option<Seq<u8>>, VolumeError> {
    if pos + 8 <= data.len() && data.subrange(pos, pos + 8) == crate::format::VOL_INDEX_MARKER@ {
        let p = pos + 8;
        if p + 8 > data.len() {
            Err(VolumeError::Truncated(VolumeField::IndexLen))
        } else {
            let ilen = spec_u64_from_le_bytes(data.subrange(p, p + 8)) as int;
            let q = p + 8;
            if q + ilen > data.len() {
                Err(VolumeError::Truncated(VolumeField::IndexCopy))
            } else if q + ilen + 4 > data.len() {
                Err(VolumeError::Truncated(VolumeField::IndexCrc))
            } else {
                let ib = data.subrange(q, q + ilen);
                let crc = spec_u32_from_le_bytes(data.subrange(q + ilen, q + ilen + 4));
                let e = q + ilen + 4;
                if e + 8 <= data.len() && data.subrange(e, e + 8) != crate::format::VOL_END@ {
                    Err(VolumeError::MissingEndMarker)
                } else if crc == crc32(ib) {
                    Ok(Some(ib))
                } else {
                    Ok(None)
                }
            }
        }
    } else {
        Ok(None)
    }
}

/// What a volume file holds: `k`, `m`, the archive header copy (bytes), the
/// segment records in file order, and the index copy if it is intact.
pub type VolumeSpec = (nat, nat, Seq<u8>, Seq<SegRec>, Option<Seq<u8>>);

/// Parses a whole volume file.
pub open spec fn parse_volume(data: Seq<u8>) -> Result<VolumeSpec, VolumeError> {
    if data.len() < 8 {
        Err(VolumeError::Truncated(VolumeField::Magic))
    } else if data.subrange(0, 8) != crate::format::VOL_MAGIC@ {
        Err(VolumeError::BadMagic)
    } else if data.len() < 10 {
        Err(VolumeError::Truncated(VolumeField::Version))
    } else if spec_u16_from_le_bytes(data.subrange(8, 10)) != 1 {
        Err(VolumeError::UnsupportedVersion(spec_u16_from_le_bytes(data.subrange(8, 10))))
    } else if data.len() < 12 {
        Err(VolumeError::Truncated(VolumeField::SegmentSize))
    } else if data.len() < 14 {
        Err(VolumeError::Truncated(VolumeField::Parity))
    } else if data.len() < 18 {
        Err(VolumeError::Truncated(VolumeField::SegmentCount))
    } else {
        let k = spec_u16_from_le_bytes(data.subrange(10, 12)) as usize;
        let m = spec_u16_from_le_bytes(data.subrange(12, 14)) as usize;
        let n = spec_u32_from_le_bytes(data.subrange(14, 18));
        if params_error(k, m) is Some {
            Err(VolumeError::Params(params_error(k, m)->0))
        } else if data.len() < 78 {
            Err(VolumeError::Truncated(VolumeField::HeaderCopy))
        } else if !header_bytes_valid(data.subrange(18, 78)) {
            Err(
                VolumeError::Header(
                    if data.subrange(18, 26) != crate::format::MAGIC@ {
                        FormatError::BadMagic
                    } else {
                        FormatError::HeaderChecksum
                    },
                ),
            )
        } else {
            match parse_segments(data, 78, n as nat, m as nat) {
                Ok((recs, p)) => match parse_index_section(data, p) {
                    Ok(idx) => Ok((k as nat, m as nat, data.subrange(18, 78), recs, idx)),
                    Err(e) => Err(e),
                },
                Err(e) => Err(e),
            }
        }
    }
}

/// Segment records keyed by id; a later record replaces an earlier one
/// with the same id.
pub open spec fn segment_map(recs: Seq<SegRec>) -> Map<u32, SegRec>
    decreases recs.len(),
{
    if recs.len() == 0 {
        Map::empty()
    } else {
        segment_map(recs.drop_last()).insert(recs.last().0, recs.last())
    }
}

/// The keys of `segment_map(recs)` are exactly the ids that occur in `recs`.
pub proof fn lemma_segment_map_keys(recs: Seq<SegRec>, id: u32)
    ensures
        segment_map(recs).dom().contains(id) <==> exists|j: int| 0 <= j < recs.len() && (#[trigger] recs[j]).0 == id,
    decreases recs.len(),
{
    if recs.len() > 0 {
        let init = recs.drop_last();
        lemma_segment_map_keys(init, id);
        if exists|j: int| 0 <= j < init.len() && (#[trigger] init[j]).0 == id {
            let j = choose|j: int| 0 <= j < init.len() && (#[trigger] init[j]).0 == id;
            assert(recs[j] == init[j]);
        }
        if exists|j: int| 0 <= j < recs.len() && (#[trigger] recs[j]).0 == id {
            let j = choose|j: int| 0 <= j < recs.len() && (#[trigger] recs[j]).0 == id;
            if j < init.len() {
                assert(init[j] == recs[j]);
            }
        }
    }
}

/// Under each id, `segment_map(recs)` holds the last record written with
/// that id: a record that no later record shares its id with is found
/// under its id.
pub proof fn lemma_segment_map_last(recs: Seq<SegRec>, i: int)
    requires
        0 <= i < recs.len(),
        forall|j: int| i < j < recs.len() ==> (#[trigger] recs[j]).0 != recs[i].0,
    ensures
        segment_map(recs).dom().contains(recs[i].0),
        segment_map(recs)[recs[i].0] == recs[i],
    decreases recs.len(),
{
    if i < recs.len() - 1 {
        let init = recs.drop_last();
        assert(recs[recs.len() - 1].0 != recs[i].0);
        assert forall|j: int| i < j < init.len() implies (#[trigger] init[j]).0 != init[i].0 by {
            assert(init[j] == recs[j]);
        }
        lemma_segment_map_last(init, i);
    }
}

/// `sp` holds the fields of segment record `rec`.
pub open spec fn matches_record(sp: SegmentParity, rec: SegRec) -> bool {
    &&& sp.seg_id == rec.0
    &&& sp.data_count == rec.1 as usize
    &&& sp.shard_size == rec.2 as usize
    &&& sp.parity.deep_view() == rec.3
}

/// A parsed recovery volume.
pub struct Volume {
    pub k: usize,
    pub m: usize,
    pub archive_header: ArchiveHeader,
    pub segments: std::collections::HashMap<u32, SegmentParity>,
    pub index_copy: Option<Vec<u8>>,
}

/// `v` holds what `spec` describes.
pub open spec fn volume_matches(v: Volume, spec: VolumeSpec) -> bool {
    &&& v.k == spec.0
    &&& v.m == spec.1
    &&& header_decodes(spec.2, v.archive_header)
    &&& v.segments@.dom() == segment_map(spec.3).dom()
    &&& forall|id: u32| #[trigger] v.segments@.contains_key(id) ==> matches_record(v.segments@[id], segment_map(spec.3)[id])
    &&& match (v.index_copy, spec.4) {
        (Some(x), Some(y)) => x@ == y,
        (None, None) => true,
        _ => false,
    }
}

/// What a parsed volume holds when its records carry distinct ids: its
/// `k` and `m`, the archive header decoded from the header copy, one entry
/// per id (and no other), each with the fields of the record written under
/// it, and the index copy.
pub proof fn lemma_volume_contents(v: Volume, k: nat, m: nat, header: Seq<u8>, recs: Seq<SegRec>, index: Seq<u8>)
    requires
        volume_matches(v, (k, m, header, recs, Some(index))),
        forall|i: int, j: int| 0 <= i < j < recs.len() ==> (#[trigger] recs[i]).0 != (#[trigger] recs[j]).0,
    ensures
        v.k == k,
        v.m == m,
        header_decodes(header, v.archive_header),
        forall|id: u32|
            v.segments@.contains_key(id) <==> exists|j: int| 0 <= j < recs.len() && (#[trigger] recs[j]).0 == id,
        forall|i: int| 0 <= i < recs.len() ==> matches_record(v.segments@[(#[trigger] recs[i]).0], recs[i]),
        v.index_copy matches Some(x) && x@ == index,
{
    assert forall|id: u32|
        v.segments@.contains_key(id) <==> exists|j: int| 0 <= j < recs.len() && (#[trigger] recs[j]).0 == id by {
        lemma_segment_map_keys(recs, id);
    }
    assert forall|i: int| 0 <= i < recs.len() implies matches_record(v.segments@[(#[trigger] recs[i]).0], recs[i]) by {
        assert forall|j: int| i < j < recs.len() implies (#[trigger] recs[j]).0 != recs[i].0 by {
            assert(recs[i].0 != recs[j].0);
        }
        lemma_segment_map_last(recs, i);
    }
}

/// Reads `n` bytes at `pos` if they are there.
fn take_bytes(data: &[u8], pos: usize, n: usize) -> (r: Option<usize>)
    requires
        pos <= data@.len(),
    ensures
        match r {
            Some(end) => end == pos + n && end <= data@.len(),
            None => pos + n > data@.len(),
        },
{
    if n > data.len() - pos {
        None
    } else {
        Some(pos + n)
    }
}

#[verifier::loop_isolation(false)]
fn read_segment(data: &[u8], pos: usize, m: usize) -> (r: Result<(SegmentParity, usize), VolumeError>)
    requires
        pos <= data@.len(),
    ensures
        match r {
            Ok((sp, q)) => parse_segment(data@, pos as int, m as nat) matches Ok((rec, p)) && p == q
                && matches_record(sp, rec) && q <= data@.len(),
            Err(e) => parse_segment(data@, pos as int, m as nat) == Err::<(SegRec, int), VolumeError>(e),
        },
{
    let p1 = match take_bytes(data, pos, 4) {
        Some(p) => p,
        None => return Err(VolumeError::Truncated(VolumeField::SegmentId)),
    };
    let p2 = match take_bytes(data, p1, 4) {
        Some(p) => p,
        None => return Err(VolumeError::Truncated(VolumeField::DataCount)),
    };
    let p3 = match take_bytes(data, p2, 4) {
        Some(p) => p,
        None => return Err(VolumeError::Truncated(VolumeField::ShardSize)),
    };
    let seg_id = u32_from_le_bytes(&data[pos..p1]);
    let dc = u32_from_le_bytes(&data[p1..p2]);
    let ss = u32_from_le_bytes(&data[p2..p3]);
    let shard_size = ss as usize;
    let mut parity: Vec<Vec<u8>> = Vec::new();
    let mut q = p3;
    let mut i: usize = 0;
    while i < m
        invariant
            i <= m,
            q <= data@.len(),
            shard_size == ss as usize,
            parse_shards(data@, p3 as int, i as nat, ss as int) == Some((parity.deep_view(), q as int)),
        decreases m - i,
    {
        let next = match take_bytes(data, q, shard_size) {
            Some(n) => n,
            None => {
                proof {
                    lemma_parse_shards_fail(data@, p3 as int, i as nat, (m - i) as nat, ss as int, q as int);
                    assert(i + (m - i) == m);
                    assert(parse_shards(data@, p3 as int, m as nat, ss as int) is None);
                }
                return Err(VolumeError::Truncated(VolumeField::ParityShard));
            },
        };
        let ghost old_parity = parity.deep_view();
        parity.push(vstd::slice::slice_to_vec(&data[q..next]));
        assert(parity.deep_view() =~= old_parity.push(data@.subrange(q as int, next as int)));
        q = next;
        i = i + 1;
    }
    Ok((SegmentParity { seg_id, data_count: dc as usize, shard_size, parity }, q))
}

proof fn lemma_parse_shards_fail(data: Seq<u8>, pos: int, i: nat, rest: nat, size: int, q: int)
    requires
        parse_shards(data, pos, i, size) matches Some((sh, p)) && p == q,
        q + size > data.len(),
        rest >= 1,
    ensures
        parse_shards(data, pos, i + rest, size) is None,
    decreases rest,
{
    if rest > 1 {
        lemma_parse_shards_fail(data, pos, i, (rest - 1) as nat, size, q);
    }
}

fn read_index_section(data: &[u8], pos: usize) -> (r: Result<Option<Vec<u8>>, VolumeError>)
    requires
        pos <= data@.len(),
    ensures
        match r {
            Ok(Some(v)) => parse_index_section(data@, pos as int) == Ok::<Option<Seq<u8>>, VolumeError>(Some(v@)),
            Ok(None) => parse_index_section(data@, pos as int) == Ok::<Option<Seq<u8>>, VolumeError>(None),
            Err(e) => parse_index_section(data@, pos as int) == Err::<Option<Seq<u8>>, VolumeError>(e),
        },
{
    let has_marker = match take_bytes(data, pos, 8) {
        Some(p) => crate::format::bytes_eq(&data[pos..p], crate::format::VOL_INDEX_MARKER.as_slice()),
        None => false,
    };
    if !has_marker {
        return Ok(None);
    }
    let p = pos + 8;
    let q = match take_bytes(data, p, 8) {
        Some(q) => q,
        None => return Err(VolumeError::Truncated(VolumeField::IndexLen)),
    };
    let ilen64 = u64_from_le_bytes(&data[p..q]);
    if ilen64 > (data.len() - q) as u64 {
        return Err(VolumeError::Truncated(VolumeField::IndexCopy));
    }
    let ilen = ilen64 as usize;
    let c = q + ilen;
    let e = match take_bytes(data, c, 4) {
        Some(e) => e,
        None => return Err(VolumeError::Truncated(VolumeField::IndexCrc)),
    };
    let ib = &data[q..c];
    let expected = u32_from_le_bytes(&data[c..e]);
    let bad_end = match take_bytes(data, e, 8) {
        Some(f) => !crate::format::bytes_eq(&data[e..f], crate::format::VOL_END.as_slice()),
        None => false,
    };
    if bad_end {
        return Err(VolumeError::MissingEndMarker);
    }
    let actual = crc32_of(ib);
    if expected == actual {
        Ok(Some(vstd::slice::slice_to_vec(ib)))
    } else {
        Ok(None)
    }
}

proof fn lemma_parse_segments_fail(data: Seq<u8>, pos: int, i: nat, rest: nat, m: nat, e: VolumeError)
    requires
        parse_segments(data, pos, i, m) matches Ok((recs, p)) && parse_segment(data, p, m) == Err::<(SegRec, int), VolumeError>(e),
        rest >= 1,
    ensures
        parse_segments(data, pos, i + rest, m) == Err::<(Seq<SegRec>, int), VolumeError>(e),
    decreases rest,
{
    if rest > 1 {
        lemma_parse_segments_fail(data, pos, i, (rest - 1) as nat, m, e);
    }
}

/// Parses a recovery volume file held in memory.
#[verifier::loop_isolation(false)]
pub fn read_volume_bytes(data: &[u8]) -> (r: Result<Volume, VolumeError>)
    ensures
        match r {
            Ok(v) => parse_volume(data@) matches Ok(spec) && volume_matches(v, spec),
            Err(e) => parse_volume(data@) == Err::<VolumeSpec, VolumeError>(e),
        },
{
    if data.len() < 8 {
        return Err(VolumeError::Truncated(VolumeField::Magic));
    }
    if !crate::format::bytes_eq(&data[0..8], crate::format::VOL_MAGIC.as_slice()) {
        return Err(VolumeError::BadMagic);
    }
    if data.len() < 10 {
        return Err(VolumeError::Truncated(VolumeField::Version));
    }
    let version = u16_from_le_bytes(&data[8..10]);
    if version != 1 {
        return Err(VolumeError::UnsupportedVersion(version));
    }
    if data.len() < 12 {
        return Err(VolumeError::Truncated(VolumeField::SegmentSize));
    }
    let k = u16_from_le_bytes(&data[10..12]) as usize;
    if data.len() < 14 {
        return Err(VolumeError::Truncated(VolumeField::Parity));
    }
    let m = u16_from_le_bytes(&data[12..14]) as usize;
    if data.len() < 18 {
        return Err(VolumeError::Truncated(VolumeField::SegmentCount));
    }
    let seg_count = u32_from_le_bytes(&data[14..18]);
    match validate_params(k, m) {
        Err(e) => return Err(VolumeError::Params(e)),
        Ok(()) => {},
    }
    if data.len() < 78 {
        return Err(VolumeError::Truncated(VolumeField::HeaderCopy));
    }
    let archive_header = match ArchiveHeader::from_bytes(&data[18..78]) {
        Ok(h) => h,
        Err(e) => {
            assert(data@.subrange(18, 78).subrange(0, 8) =~= data@.subrange(18, 26));
            return Err(VolumeError::Header(e));
        },
    };
    let mut segments: std::collections::HashMap<u32, SegmentParity> = std::collections::HashMap::new();
    let ghost mut recs: Seq<SegRec> = Seq::empty();
    let mut pos: usize = 78;
    let mut i: u32 = 0;
    while i < seg_count
        invariant
            i <= seg_count,
            pos <= data@.len(),
            parse_segments(data@, 78, i as nat, m as nat) == Ok::<(Seq<SegRec>, int), VolumeError>((recs, pos as int)),
            segments@.dom() == segment_map(recs).dom(),
            forall|id: u32| #[trigger] segments@.contains_key(id) ==> matches_record(segments@[id], segment_map(recs)[id]),
        decreases seg_count - i,
    {
        match read_segment(data, pos, m) {
            Ok((sp, q)) => {
                let ghost rec = parse_segment(data@, pos as int, m as nat)->Ok_0.0;
                proof {
                    recs = recs.push(rec);
                    assert(recs.drop_last() =~= recs.drop_last());
                }
                let id = sp.seg_id;
                segments.insert(id, sp);
                assert(recs.drop_last() == parse_segments(data@, 78, i as nat, m as nat)->Ok_0.0);
                assert(segments@.dom() =~= segment_map(recs).dom());
                pos = q;
            },
            Err(e) => {
                proof { lemma_parse_segments_fail(data@, 78, i as nat, (seg_count - i) as nat, m as nat, e); }
                return Err(e);
            },
        }
        i = i + 1;
    }
    let index_copy = match read_index_section(data, pos) {
        Ok(x) => x,
        Err(e) => return Err(e),
    };
    Ok(Volume { k, m, archive_header, segments, index_copy })
}

// ─────────────────────────── volume encoding ───────────────────────────

/// The 18-byte volume preamble: magic, version 1, `k`, `m`, segment count.
pub open spec fn volume_preamble(k: u16, m: u16, n: u32) -> Seq<u8> {
    crate::format::VOL_MAGIC@ + spec_u16_to_le_bytes(1) + spec_u16_to_le_bytes(k) + spec_u16_to_le_bytes(m)
        + spec_u32_to_le_bytes(n)
}

/// The on-disk record of one segment.
pub open spec fn segment_bytes(rec: SegRec) -> Seq<u8> {
    spec_u32_to_le_bytes(rec.0) + spec_u32_to_le_bytes(rec.1) + spec_u32_to_le_bytes(rec.2) + concat(rec.3)
}

/// The records of several segments, in order.
pub open spec fn segments_bytes(recs: Seq<SegRec>) -> Seq<u8>
    decreases recs.len(),
{
    if recs.len() == 0 {
        Seq::empty()
    } else {
        segments_bytes(recs.drop_last()) + segment_bytes(recs.last())
    }
}

/// The volume trailer: index marker, index length, index copy, its CRC,
/// and the end magic.
pub open spec fn volume_trailer(index: Seq<u8>) -> Seq<u8> {
    crate::format::VOL_INDEX_MARKER@ + spec_u64_to_le_bytes(index.len() as u64) + index
        + spec_u32_to_le_bytes(crc32(index)) + crate::format::VOL_END@
}

/// A complete volume file.
pub open spec fn volume_bytes(k: u16, m: u16, header: Seq<u8>, recs: Seq<SegRec>, index: Seq<u8>) -> Seq<u8> {
    volume_preamble(k, m, recs.len() as u32) + header + segments_bytes(recs) + volume_trailer(index)
}

/// A segment record as a volume stores it: `m` parity shards of its
/// shard size.
pub open spec fn record_well_formed(rec: SegRec, m: nat) -> bool {
    &&& rec.3.len() == m
    &&& forall|j: int| 0 <= j < m ==> (#[trigger] rec.3[j]).len() == rec.2
}

/// Every record in `recs` is well formed for parity `m`.
pub open spec fn records_well_formed(recs: Seq<SegRec>, m: nat) -> bool {
    forall|i: int| 0 <= i < recs.len() ==> record_well_formed(#[trigger] recs[i], m)
}

proof fn lemma_window_split(data: Seq<u8>, a: int, y: Seq<u8>, z: Seq<u8>)
    requires
        0 <= a,
        a + y.len() + z.len() <= data.len(),
        data.subrange(a, a + y.len() + z.len()) == y + z,
    ensures
        data.subrange(a, a + y.len()) == y,
        data.subrange(a + y.len(), a + y.len() + z.len()) == z,
{
    assert(data.subrange(a, a + y.len()) =~= (y + z).subrange(0, y.len() as int));
    assert((y + z).subrange(0, y.len() as int) =~= y);
    assert(data.subrange(a + y.len(), a + y.len() + z.len()) =~= (y + z).subrange(
        y.len() as int,
        (y.len() + z.len()) as int,
    ));
    assert((y + z).subrange(y.len() as int, (y.len() + z.len()) as int) =~= z);
}

proof fn lemma_parse_shards_concat(data: Seq<u8>, pos: int, shards: Seq<Seq<u8>>, size: int)
    requires
        0 <= pos,
        pos + concat(shards).len() <= data.len(),
        data.subrange(pos, pos + concat(shards).len()) == concat(shards),
        forall|j: int| 0 <= j < shards.len() ==> (#[trigger] shards[j]).len() == size,
    ensures
        parse_shards(data, pos, shards.len(), size) == Some((shards, pos + concat(shards).len())),
    decreases shards.len(),
{
    if shards.len() > 0 {
        let init = shards.drop_last();
        lemma_window_split(data, pos, concat(init), shards.last());
        assert forall|j: int| 0 <= j < init.len() implies (#[trigger] init[j]).len() == size by {
            assert(init[j] == shards[j]);
        }
        lemma_parse_shards_concat(data, pos, init, size);
        assert(init.push(shards.last()) =~= shards);
    } else {
        assert(shards =~= Seq::<Seq<u8>>::empty());
    }
}

proof fn lemma_parse_segment_bytes(data: Seq<u8>, pos: int, rec: SegRec, m: nat)
    requires
        0 <= pos,
        pos + segment_bytes(rec).len() <= data.len(),
        data.subrange(pos, pos + segment_bytes(rec).len()) == segment_bytes(rec),
        record_well_formed(rec, m),
    ensures
        parse_segment(data, pos, m) == Ok::<(SegRec, int), VolumeError>((rec, pos + segment_bytes(rec).len())),
{
    lemma_auto_spec_u32_to_from_le_bytes();
    let a = spec_u32_to_le_bytes(rec.0);
    let b = spec_u32_to_le_bytes(rec.1);
    let c = spec_u32_to_le_bytes(rec.2);
    let d = concat(rec.3);
    assert(segment_bytes(rec) == ((a + b) + c) + d);
    lemma_window_split(data, pos, (a + b) + c, d);
    lemma_window_split(data, pos, a + b, c);
    lemma_window_split(data, pos, a, b);
    lemma_parse_shards_concat(data, pos + 12, rec.3, rec.2 as int);
}

proof fn lemma_parse_segments_bytes(data: Seq<u8>, pos: int, recs: Seq<SegRec>, m: nat)
    requires
        0 <= pos,
        pos + segments_bytes(recs).len() <= data.len(),
        data.subrange(pos, pos + segments_bytes(recs).len()) == segments_bytes(recs),
        forall|i: int| 0 <= i < recs.len() ==> record_well_formed(#[trigger] recs[i], m),
    ensures
        parse_segments(data, pos, recs.len(), m) == Ok::<(Seq<SegRec>, int), VolumeError>(
            (recs, pos + segments_bytes(recs).len()),
        ),
    decreases recs.len(),
{
    if recs.len() > 0 {
        let init = recs.drop_last();
        lemma_window_split(data, pos, segments_bytes(init), segment_bytes(recs.last()));
        assert forall|i: int| 0 <= i < init.len() implies record_well_formed(#[trigger] init[i], m) by {
            assert(init[i] == recs[i]);
        }
        lemma_parse_segments_bytes(data, pos, init, m);
        assert(record_well_formed(recs[recs.len() - 1], m));
        lemma_parse_segment_bytes(data, pos + segments_bytes(init).len(), recs.last(), m);
        assert(init.push(recs.last()) =~= recs);
    } else {
        assert(recs =~= Seq::<SegRec>::empty());
    }
}

proof fn lemma_parse_trailer(data: Seq<u8>, pos: int, index: Seq<u8>)
    requires
        0 <= pos,
        index.len() <= u64::MAX,
        pos + volume_trailer(index).len() == data.len(),
        data.subrange(pos, data.len() as int) == volume_trailer(index),
    ensures
        parse_index_section(data, pos) == Ok::<Option<Seq<u8>>, VolumeError>(Some(index)),
{
    lemma_auto_spec_u32_to_from_le_bytes();
    lemma_auto_spec_u64_to_from_le_bytes();
    let mk = crate::format::VOL_INDEX_MARKER@;
    let l = spec_u64_to_le_bytes(index.len() as u64);
    let c = spec_u32_to_le_bytes(crc32(index));
    let e = crate::format::VOL_END@;
    assert(volume_trailer(index) == (((mk + l) + index) + c) + e);
    lemma_window_split(data, pos, ((mk + l) + index) + c, e);
    lemma_window_split(data, pos, (mk + l) + index, c);
    lemma_window_split(data, pos, mk + l, index);
    lemma_window_split(data, pos, mk, l);
}

/// Volume round trip: a volume written with a valid header copy, segment
/// records of `m` parity shards each, and an index copy parses back to
/// exactly the same `k`, `m`, header copy, segment records (in order) and
/// index copy.
#[verifier::spinoff_prover]
#[verifier::rlimit(40)]
pub proof fn lemma_volume_roundtrip(k: u16, m: u16, header: Seq<u8>, recs: Seq<SegRec>, index: Seq<u8>)
    requires
        params_valid(k as nat, m as nat),
        header.len() == 60,
        header_bytes_valid(header),
        recs.len() <= u32::MAX,
        forall|i: int| 0 <= i < recs.len() ==> record_well_formed(#[trigger] recs[i], m as nat),
        index.len() <= u64::MAX,
    ensures
        parse_volume(volume_bytes(k, m, header, recs, index)) == Ok::<VolumeSpec, VolumeError>(
            (k as nat, m as nat, header, recs, Some(index)),
        ),
{
    lemma_auto_spec_u16_to_from_le_bytes();
    lemma_auto_spec_u32_to_from_le_bytes();
    let data = volume_bytes(k, m, header, recs, index);
    let pre = volume_preamble(k, m, recs.len() as u32);
    let segs = segments_bytes(recs);
    let tr = volume_trailer(index);
    assert(pre.len() == 18);
    assert(data == ((pre + header) + segs) + tr);
    let n = data.len() as int;
    assert(data.subrange(0, n) =~= data);
    lemma_window_split(data, 0, (pre + header) + segs, tr);
    lemma_window_split(data, 0, pre + header, segs);
    lemma_window_split(data, 0, pre, header);
    assert(data.subrange(0, 8) =~= crate::format::VOL_MAGIC@);
    assert(data.subrange(8, 10) =~= spec_u16_to_le_bytes(1));
    assert(data.subrange(10, 12) =~= spec_u16_to_le_bytes(k));
    assert(data.subrange(12, 14) =~= spec_u16_to_le_bytes(m));
    assert(data.subrange(14, 18) =~= spec_u32_to_le_bytes(recs.len() as u32));
    lemma_parse_segments_bytes(data, 78, recs, m as nat);
    lemma_parse_trailer(data, (78 + segs.len()) as int, index);
}

// ─────────────────────────── volume writer ───────────────────────────

/// `b` with `p` written over it at offset `off`.
pub open spec fn patched(b: Seq<u8>, off: int, p: Seq<u8>) -> Seq<u8> {
    b.subrange(0, off) + p + b.subrange(off + p.len(), b.len() as int)
}

/// The segment record that `add_segment` writes for `seg`.
pub open spec fn record_of(seg: SegmentParity) -> SegRec {
    (seg.seg_id, seg.data_count as u32, seg.shard_size as u32, seg.parity.deep_view())
}

/// Streams a recovery volume: each method returns the bytes to append to
/// the volume file, and `finish` returns the trailer plus the segment count
/// to write over the placeholder at offset 14.
pub struct VolumeWriter {
    k: usize,
    m: usize,
    segments: u32,
    header: Option<Vec<u8>>,
    index: Option<Vec<u8>>,
    recs: Ghost<Seq<SegRec>>,
}

impl VolumeWriter {
    /// Segment size `k`.
    pub closed spec fn spec_k(&self) -> usize {
        self.k
    }

    /// Parity `m`.
    pub closed spec fn spec_m(&self) -> usize {
        self.m
    }

    /// The header copy, once set.
    pub closed spec fn spec_header(&self) -> Option<Seq<u8>> {
        match self.header {
            Some(h) => Some(h@),
            None => None,
        }
    }

    /// The index copy, once set.
    pub closed spec fn spec_index(&self) -> Option<Seq<u8>> {
        match self.index {
            Some(x) => Some(x@),
            None => None,
        }
    }

    /// The segment records written so far.
    pub closed spec fn spec_records(&self) -> Seq<SegRec> {
        self.recs@
    }

    /// All bytes handed out so far, in order.
    pub open spec fn written(&self) -> Seq<u8> {
        volume_preamble(self.spec_k() as u16, self.spec_m() as u16, 0) + match self.spec_header() {
            Some(h) => h,
            None => Seq::empty(),
        } + segments_bytes(self.spec_records())
    }

    /// The writer's parameters are valid, its counter matches its records,
    /// and a header copy once set is a valid 60-byte header encoding.
    pub closed spec fn wf(&self) -> bool {
        &&& params_valid(self.k as nat, self.m as nat)
        &&& self.segments == self.recs@.len()
        &&& (self.header is None ==> self.recs@.len() == 0)
        &&& (self.header matches Some(h) ==> h@.len() == 60 && header_bytes_valid(h@))
    }

    /// Segment size `k`.
    pub fn k(&self) -> (r: usize)
        ensures
            r == self.spec_k(),
    {
        self.k
    }

    /// Parity `m`.
    pub fn m(&self) -> (r: usize)
        ensures
            r == self.spec_m(),
    {
        self.m
    }

    /// Starts a volume for segment size `k` and parity `m`; returns the
    /// writer and the 18-byte preamble (segment count still zero).
    pub fn create(k: usize, m: usize) -> (r: Result<(Self, Vec<u8>), RecoveryError>)
        ensures
            match r {
                Ok((w, pre)) => params_error(k, m) is None && w.wf() && w.spec_k() == k && w.spec_m() == m
                    && w.spec_header() is None && w.spec_index() is None && w.spec_records().len() == 0
                    && pre@ == w.written(),
                Err(e) => params_error(k, m) == Some(e),
            },
    {
        match validate_params(k, m) {
            Err(e) => return Err(e),
            Ok(()) => {},
        }
        let mut pre: Vec<u8> = Vec::new();
        crate::bytes::push_all(&mut pre, crate::format::VOL_MAGIC.as_slice());
        crate::bytes::push_all(&mut pre, u16_to_le_bytes(1).as_slice());
        crate::bytes::push_all(&mut pre, u16_to_le_bytes(k as u16).as_slice());
        crate::bytes::push_all(&mut pre, u16_to_le_bytes(m as u16).as_slice());
        crate::bytes::push_all(&mut pre, u32_to_le_bytes(0).as_slice());
        let w = VolumeWriter { k, m, segments: 0, header: None, index: None, recs: Ghost(Seq::empty()) };
        assert(pre@ =~= w.written());
        Ok((w, pre))
    }

    /// Stores the archive header copy; returns its 60 bytes, written right
    /// after the preamble, before any segment.
    pub fn set_header(&mut self, header: &ArchiveHeader) -> (b: Vec<u8>)
        requires
            old(self).wf(),
            old(self).spec_header() is None,
        ensures
            final(self).wf(),
            b@ == crate::format::header_encoding(*header),
            final(self).spec_header() == Some(b@),
            final(self).spec_k() == old(self).spec_k(),
            final(self).spec_m() == old(self).spec_m(),
            final(self).spec_index() == old(self).spec_index(),
            final(self).spec_records() == old(self).spec_records(),
            final(self).written() == old(self).written() + b@,
    {
        let b = header.to_bytes();
        proof {
            crate::format::lemma_header_roundtrip(*header);
        }
        self.header = Some(b.clone());
        proof {
            assert(self.recs@.len() == 0);
            assert(segments_bytes(self.recs@) =~= Seq::<u8>::empty());
            assert(final(self).written() =~= old(self).written() + b@);
        }
        b
    }

    /// Records one segment's parity; returns the segment record to append.
    pub fn add_segment(&mut self, seg: &SegmentParity) -> (b: Vec<u8>)
        requires
            old(self).wf(),
            old(self).spec_header() is Some,
            old(self).spec_records().len() < u32::MAX,
        ensures
            final(self).wf(),
            b@ == segment_bytes(record_of(*seg)),
            final(self).spec_records() == old(self).spec_records().push(record_of(*seg)),
            final(self).spec_k() == old(self).spec_k(),
            final(self).spec_m() == old(self).spec_m(),
            final(self).spec_header() == old(self).spec_header(),
            final(self).spec_index() == old(self).spec_index(),
            final(self).written() == old(self).written() + b@,
    {
        let mut b: Vec<u8> = Vec::new();
        crate::bytes::push_all(&mut b, u32_to_le_bytes(seg.seg_id).as_slice());
        crate::bytes::push_all(&mut b, u32_to_le_bytes(seg.data_count as u32).as_slice());
        crate::bytes::push_all(&mut b, u32_to_le_bytes(seg.shard_size as u32).as_slice());
        let mut i: usize = 0;
        let ghost start = b@;
        while i < seg.parity.len()
            invariant
                i <= seg.parity@.len(),
                b@ == start + concat(seg.parity.deep_view().take(i as int)),
            decreases seg.parity@.len() - i,
        {
            crate::bytes::push_all(&mut b, seg.parity[i].as_slice());
            assert(seg.parity.deep_view().take(i + 1).drop_last() =~= seg.parity.deep_view().take(i as int));
            i = i + 1;
            assert(b@ =~= start + concat(seg.parity.deep_view().take(i as int)));
        }
        assert(seg.parity.deep_view().take(i as int) =~= seg.parity.deep_view());
        assert(b@ =~= segment_bytes(record_of(*seg)));
        self.segments = self.segments + 1;
        self.recs = Ghost(self.recs@.push(record_of(*seg)));
        proof {
            assert(self.recs@.drop_last() =~= old(self).recs@);
            assert(final(self).written() =~= old(self).written() + b@);
        }
        b
    }

    /// Stores the index copy (appended when the volume is finished).
    pub fn set_index(&mut self, index_bytes: &[u8])
        requires
            old(self).wf(),
        ensures
            final(self).wf(),
            final(self).spec_index() == Some(index_bytes@),
            final(self).spec_k() == old(self).spec_k(),
            final(self).spec_m() == old(self).spec_m(),
            final(self).spec_header() == old(self).spec_header(),
            final(self).spec_records() == old(self).spec_records(),
            final(self).written() == old(self).written(),
    {
        self.index = Some(vstd::slice::slice_to_vec(index_bytes));
    }

    /// Completes the volume: returns the trailer to append, and the offset
    /// and bytes of the segment count that replace the placeholder. Fails
    /// when the header copy or the index copy was never set.
    pub fn finish(self) -> (r: Result<(Vec<u8>, u64, Vec<u8>), VolumeError>)
        requires
            self.wf(),
        ensures
            match r {
                Ok((trailer, off, patch)) => {
                    &&& self.spec_header() is Some
                    &&& self.spec_index() is Some
                    &&& off == 14
                    &&& patch@ == spec_u32_to_le_bytes(self.spec_records().len() as u32)
                    &&& trailer@ == volume_trailer(self.spec_index()->0)
                    &&& patched(self.written() + trailer@, 14, patch@) == volume_bytes(
                        self.spec_k() as u16,
                        self.spec_m() as u16,
                        self.spec_header()->0,
                        self.spec_records(),
                        self.spec_index()->0,
                    )
                },
                Err(e) => (self.spec_header() is None && e == VolumeError::MissingHeaderCopy) || (
                self.spec_header() is Some && self.spec_index() is None && e
                    == VolumeError::MissingIndexCopy),
            },
            r matches Ok((trailer, off, patch)) ==> (records_well_formed(
                self.spec_records(),
                self.spec_m() as nat,
            ) ==> parse_volume(patched(self.written() + trailer@, off as int, patch@))
                == Ok::<VolumeSpec, VolumeError>(
                (
                    self.spec_k() as nat,
                    self.spec_m() as nat,
                    self.spec_header()->0,
                    self.spec_records(),
                    self.spec_index(),
                ),
            )),
    {
        let ghost w = self.written();
        let header = match &self.header {
            Some(h) => h,
            None => return Err(VolumeError::MissingHeaderCopy),
        };
        let index = match &self.index {
            Some(x) => x,
            None => return Err(VolumeError::MissingIndexCopy),
        };
        let mut t: Vec<u8> = Vec::new();
        crate::bytes::push_all(&mut t, crate::format::VOL_INDEX_MARKER.as_slice());
        crate::bytes::push_all(&mut t, u64_to_le_bytes(index.len() as u64).as_slice());
        crate::bytes::push_all(&mut t, index.as_slice());
        let crc = crc32_of(index.as_slice());
        crate::bytes::push_all(&mut t, u32_to_le_bytes(crc).as_slice());
        crate::bytes::push_all(&mut t, crate::format::VOL_END.as_slice());
        assert(t@ =~= volume_trailer(index@));
        let patch = u32_to_le_bytes(self.segments);
        proof {
            lemma_auto_spec_u16_to_from_le_bytes();
            lemma_auto_spec_u32_to_from_le_bytes();
            assert(crate::format::VOL_MAGIC@.len() == 8);
            let all = w + t@;
            let full = volume_bytes(self.k as u16, self.m as u16, header@, self.recs@, index@);
            let a = crate::format::VOL_MAGIC@ + spec_u16_to_le_bytes(1) + spec_u16_to_le_bytes(self.k as u16)
                + spec_u16_to_le_bytes(self.m as u16);
            let rest = header@ + segments_bytes(self.recs@) + t@;
            assert(a.len() == 14);
            assert(all =~= a + spec_u32_to_le_bytes(0) + rest);
            assert(full =~= a + patch@ + rest);
            assert(all.subrange(0, 14) =~= a);
            assert(all.subrange(18, all.len() as int) =~= rest);
            assert(patched(all, 14, patch@) =~= full);
            if records_well_formed(self.recs@, self.m as nat) {
                lemma_volume_roundtrip(self.k as u16, self.m as u16, header@, self.recs@, index@);
            }
        }
        Ok((t, 14, patch))
    }
}

// ─────────────────────────── block layout ───────────────────────────

/// Byte offset of block `i` when the first `i` blocks of the table are
/// stored back to back after the 60-byte header, each with its 28-byte
/// block header.
pub open spec fn block_offset(blocks: Seq<BlockEntry>, i: int) -> int
    decreases i,
{
    if i <= 0 {
        60
    } else {
        block_offset(blocks, i - 1) + 28 + blocks[i - 1].stored_len
    }
}

/// Block offsets grow with the index.
pub proof fn lemma_block_offset_mono(blocks: Seq<BlockEntry>, i: int, j: int)
    requires
        0 <= i <= j,
    ensures
        block_offset(blocks, i) <= block_offset(blocks, j),
    decreases j - i,
{
    if i < j {
        lemma_block_offset_mono(blocks, i, j - 1);
    }
}

/// Byte offset of every block of the table (blocks stored back to back
/// after the header, each behind its block header).
pub fn block_offsets(blocks: &[BlockEntry]) -> (offsets: Vec<u64>)
    requires
        block_offset(blocks@, blocks@.len() as int) <= u64::MAX,
    ensures
        offsets@.len() == blocks@.len(),
        forall|i: int| 0 <= i < blocks@.len() ==> #[trigger] offsets@[i] == block_offset(blocks@, i),
{
    let mut offsets: Vec<u64> = Vec::new();
    let mut off: u64 = crate::format::HEADER_LEN;
    let mut i: usize = 0;
    while i < blocks.len()
        invariant
            i <= blocks@.len(),
            off == block_offset(blocks@, i as int),
            block_offset(blocks@, blocks@.len() as int) <= u64::MAX,
            offsets@.len() == i,
            forall|j: int| 0 <= j < i ==> #[trigger] offsets@[j] == block_offset(blocks@, j),
        decreases blocks@.len() - i,
    {
        offsets.push(off);
        proof { lemma_block_offset_mono(blocks@, i + 1, blocks@.len() as int); }
        off = off + crate::format::BLOCK_HEADER_LEN + blocks[i].stored_len as u64;
        i = i + 1;
    }
    offsets
}

/// Where the block records of a table end (the index starts there in a
/// freshly written archive), if that offset fits in 64 bits.
pub fn block_table_end(blocks: &[BlockEntry]) -> (r: Option<u64>)
    ensures
        match r {
            Some(end) => end == block_offset(blocks@, blocks@.len() as int),
            None => block_offset(blocks@, blocks@.len() as int) > u64::MAX,
        },
{
    let mut off: u64 = crate::format::HEADER_LEN;
    let mut i: usize = 0;
    while i < blocks.len()
        invariant
            i <= blocks@.len(),
            off == block_offset(blocks@, i as int),
        decreases blocks@.len() - i,
    {
        let step: u64 = crate::format::BLOCK_HEADER_LEN + blocks[i].stored_len as u64;
        if off > u64::MAX - step {
            proof {
                lemma_block_offset_mono(blocks@, i + 1, blocks@.len() as int);
            }
            return None;
        }
        off = off + step;
        i = i + 1;
    }
    Some(off)
}

/// The offset of block `i` depends only on the blocks before it.
pub proof fn lemma_block_offset_prefix(a: Seq<BlockEntry>, b: Seq<BlockEntry>, i: int)
    requires
        0 <= i <= a.len(),
        i <= b.len(),
        forall|j: int| 0 <= j < i ==> a[j] == b[j],
    ensures
        block_offset(a, i) == block_offset(b, i),
    decreases i,
{
    if i > 0 {
        lemma_block_offset_prefix(a, b, i - 1);
    }
}

/// Why a volume does not belong to an archive.
#[derive(Clone, Copy, Debug, PartialEq, Eq)]
pub enum PairError {
    SegmentSizeMismatch { volume: usize, archive: u16 },
    ParityMismatch { volume: usize, archive: u16 },
}

/// Checks that a volume matches its archive header (segment size and parity).
pub fn validate_pair(header: &ArchiveHeader, volume: &Volume) -> (r: Result<(), PairError>)
    ensures
        r is Ok <==> volume.k == header.segment_size && volume.m == header.parity,
        r matches Err(e) ==> e == (if volume.k != header.segment_size {
            PairError::SegmentSizeMismatch { volume: volume.k, archive: header.segment_size }
        } else {
            PairError::ParityMismatch { volume: volume.m, archive: header.parity }
        }),
{
    if volume.k != header.segment_size as usize {
        return Err(PairError::SegmentSizeMismatch { volume: volume.k, archive: header.segment_size });
    }
    if volume.m != header.parity as usize {
        return Err(PairError::ParityMismatch { volume: volume.m, archive: header.parity });
    }
    Ok(())
}

// ─────────────────────────── repair law ───────────────────────────

proof fn lemma_max_present_le(s: Seq<Option<Seq<u8>>>, n: nat)
    requires
        forall|i: int| 0 <= i < s.len() && (#[trigger] s[i]) is Some ==> s[i]->0.len() <= n,
    ensures
        max_present_len(s) <= n,
    decreases s.len(),
{
    if s.len() > 0 {
        lemma_max_present_le(s.drop_last(), n);
    }
}

proof fn lemma_max_present_uniform(s: Seq<Option<Seq<u8>>>, n: nat)
    requires
        forall|i: int| 0 <= i < s.len() && (#[trigger] s[i]) is Some ==> s[i]->0.len() == n,
        count_present(s) > 0,
    ensures
        max_present_len(s) == n,
    decreases s.len(),
{
    if s.len() > 0 {
        if count_present(s.drop_last()) > 0 {
            lemma_max_present_uniform(s.drop_last(), n);
        } else {
            lemma_max_present_le(s.drop_last(), n);
        }
    }
}

proof fn lemma_max_len_uniform(s: Seq<Seq<u8>>, n: nat)
    requires
        s.len() > 0,
        forall|i: int| 0 <= i < s.len() ==> (#[trigger] s[i]).len() == n,
    ensures
        max_len(s) == n,
    decreases s.len(),
{
    if s.len() > 1 {
        lemma_max_len_uniform(s.drop_last(), n);
    } else {
        assert(s.drop_last().len() == 0);
        assert(max_len(s.drop_last()) == 0);
    }
}

proof fn lemma_count_concat(a: Seq<Option<Seq<u8>>>, b: Seq<Option<Seq<u8>>>)
    ensures
        count_present(a + b) == count_present(a) + count_present(b),
    decreases b.len(),
{
    if b.len() > 0 {
        lemma_count_concat(a, b.drop_last());
        assert((a + b).drop_last() =~= a + b.drop_last());
    } else {
        assert(a + b =~= a);
    }
}

proof fn lemma_count_all_present(s: Seq<Option<Seq<u8>>>)
    requires
        forall|i: int| 0 <= i < s.len() ==> (#[trigger] s[i]) is Some,
    ensures
        count_present(s) == s.len(),
    decreases s.len(),
{
    if s.len() > 0 {
        lemma_count_all_present(s.drop_last());
    }
}

proof fn lemma_count_same_shape(a: Seq<Option<Seq<u8>>>, b: Seq<Option<Seq<u8>>>)
    requires
        a.len() == b.len(),
        forall|i: int| 0 <= i < a.len() ==> ((#[trigger] a[i]) is Some <==> b[i] is Some),
    ensures
        count_present(a) == count_present(b),
    decreases a.len(),
{
    if a.len() > 0 {
        lemma_count_same_shape(a.drop_last(), b.drop_last());
    }
}

/// Repair law: the parity that `encode_segment` stores for a segment's
/// payloads lets `reconstruct_segment` rebuild any set of at most `m` lost
/// lanes. For every choice of intact lanes (each equal to its payload) with
/// at most `m` lanes missing, the shards handed to the codec are accepted
/// and agree with the segment's codeword, so (by `reconstruct_segment`'s
/// contract) each lost lane comes back as its payload padded to the
/// segment's shard size.
pub proof fn lemma_segment_repair(
    k: nat,
    m: nat,
    payloads: Seq<Seq<u8>>,
    lanes: Seq<Option<Seq<u8>>>,
    parity: Seq<Seq<u8>>,
)
    requires
        params_valid(k, m),
        payloads.len() <= k,
        max_len(payloads) > 0,
        parity == rs_parity(k, m, segment_data(payloads, k, max_len(payloads))),
        parity.len() == m,
        forall|j: int| 0 <= j < m ==> (#[trigger] parity[j]).len() == max_len(payloads),
        lanes.len() == payloads.len(),
        forall|i: int| 0 <= i < lanes.len() && (#[trigger] lanes[i]) is Some ==> lanes[i]->0 == payloads[i],
        lanes.len() <= count_present(lanes) + m,
    ensures
        lane_size(lanes, parity) == max_len(payloads),
        rs_reconstruct_accepts(k, m, received_shards(lanes, parity, k, max_len(payloads))),
        rs_consistent(
            k,
            m,
            received_shards(lanes, parity, k, max_len(payloads)),
            segment_data(payloads, k, max_len(payloads)),
        ),
{
    let size = max_len(payloads);
    let d = segment_data(payloads, k, size);
    let recv = received_shards(lanes, parity, k, size);
    let dc = lanes.len();
    // shard size
    assert forall|i: int| 0 <= i < lanes.len() && (#[trigger] lanes[i]) is Some implies lanes[i]->0.len() <= size by {
        lemma_max_len_bound(payloads, i);
    }
    lemma_max_present_le(lanes, size);
    lemma_max_len_uniform(parity, size);
    // every present shard has the common size
    assert forall|i: int| 0 <= i < recv.len() && (#[trigger] recv[i]) is Some implies recv[i]->0.len() == size by {
        if i < dc {
            lemma_max_len_bound(payloads, i);
        }
    }
    // count of present shards
    let a = recv.take(dc as int);
    let b = recv.skip(dc as int);
    assert(recv =~= a + b);
    lemma_count_concat(a, b);
    lemma_count_same_shape(a, lanes);
    lemma_count_all_present(b);
    assert(count_present(recv) >= k);
    assert(count_present(recv) > 0);
    lemma_max_present_uniform(recv, size);
    // agreement with the codeword
    assert forall|i: int| 0 <= i < k implies (#[trigger] d[i]).len() == d[0].len() by {
        if i < payloads.len() {
            lemma_max_len_bound(payloads, i);
        }
        if payloads.len() > 0 {
            lemma_max_len_bound(payloads, 0);
        }
    }
    assert forall|j: int| 0 <= j < m implies (#[trigger] rs_parity(k, m, d)[j]).len() == d[0].len() by {
        if payloads.len() > 0 {
            lemma_max_len_bound(payloads, 0);
        }
    }
}

} // verus!
