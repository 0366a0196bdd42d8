//! The decisions of the archive operations: password checking, the shared
//! root folder stripped by "extract here", zip-slip path validation, the
//! per-block verify verdict, the per-segment repair, and the summaries that
//! `info` and the operation reports print.

use vstd::prelude::*;

use crate::crypto::{Crypto, CryptoError};
use crate::format::{unhex_bytes, ArchiveHeader, BlockEntry, FileEntry, HexError, Index};
use crate::text::{chars_eq, chars_of, copy_str, str_eq, string_from_chars};
use vstd::string::StringSliceAdditionalSpecFns;

verus! {

/// Result of an extraction.
pub struct ExtractStats {
    pub files: usize,
    pub dirs: usize,
    pub symlinks: usize,
    pub bytes: u64,
}

/// Result of a verification.
pub struct VerifyStats {
    pub total: usize,
    pub good: usize,
    pub bad: usize,
}

/// Result of a repair.
pub struct RepairStats {
    pub total_blocks: usize,
    pub repaired: usize,
    pub out_size: u64,
}

/// Why an archive operation failed.
#[derive(Clone, Copy, Debug, PartialEq, Eq)]
pub enum ArchiveError {
    PasswordRequired,
    WrongPassword,
    Crypto(CryptoError),
    Hex(HexError),
}

// ─────────────────────────── password ───────────────────────────

/// The verdict `check_password` reaches for an encrypted archive with a
/// password, given the derived verifier key: `true` when the index carries
/// no verifier or the verifier decrypts to 32 zero bytes.
pub open spec fn verifier_accepts(vk: Seq<u8>, verifier_hex: Option<Seq<char>>) -> bool {
    match verifier_hex {
        None => true,
        Some(h) => match unhex_bytes(vstd::utf8::encode_utf8(h)) {
            Ok(v) => crate::crypto::aead_open(
                vk,
                crate::crypto::zero_bytes(24),
                crate::crypto::VERIFIER_AAD@,
                v,
            ) == Some(crate::crypto::zero_bytes(32)),
            Err(_) => false,
        },
    }
}

/// The index's verifier as characters.
pub open spec fn verifier_of(index: &Index) -> Option<Seq<char>> {
    match index.verifier_hex {
        Some(s) => Some(s@),
        None => None,
    }
}

/// Decides whether an archive can be opened with `password`: an archive
/// that is not encrypted needs none; an encrypted one needs a password
/// whose derived verifier key opens the stored verifier.
pub fn check_password(header: &ArchiveHeader, index: &Index, password: Option<&str>) -> (r: Result<Option<Crypto>, ArchiveError>)
    ensures
        r matches Ok(Some(_)) ==> password matches Some(p) && p@.len() > 0,
        header.flags & crate::format::FLAG_ENCRYPTED == 0 ==> (r matches Ok(c) && c is None),
        header.flags & crate::format::FLAG_ENCRYPTED != 0 && password is None ==> r == Err::<Option<Crypto>, ArchiveError>(
            ArchiveError::PasswordRequired,
        ),
        header.flags & crate::format::FLAG_ENCRYPTED != 0 && password is Some ==> match r {
            Ok(Some(c)) => c.key_view() == crate::crypto::derived_keys(password->0.spec_bytes(), header.salt@).subrange(0, 32)
                && c.verifier_key_view() == crate::crypto::derived_keys(password->0.spec_bytes(), header.salt@).subrange(32, 64)
                && verifier_accepts(c.verifier_key_view(), verifier_of(index)),
            Ok(None) => false,
            Err(ArchiveError::Crypto(e)) => (password->0@.len() == 0 && e == CryptoError::EmptyPassword) || (
            password->0@.len() > 0 && password->0.spec_bytes().len() > 0xFFFF_FFFF && e == CryptoError::KeyDerivation),
            Err(ArchiveError::Hex(e)) => verifier_of(index) matches Some(h) && unhex_bytes(vstd::utf8::encode_utf8(h)) == Err::<Seq<u8>, HexError>(e),
            Err(ArchiveError::WrongPassword) => verifier_of(index) matches Some(h) && unhex_bytes(vstd::utf8::encode_utf8(h)) is Ok
                && !verifier_accepts(
                crate::crypto::derived_keys(password->0.spec_bytes(), header.salt@).subrange(32, 64),
                verifier_of(index),
            ),
            Err(_) => false,
        },
        header.flags & crate::format::FLAG_ENCRYPTED != 0 && password is Some && password->0@.len() > 0
            && password->0.spec_bytes().len() <= 0xFFFF_FFFF && verifier_of(index) == Some(
            crate::format::hex_chars(
                crate::crypto::aead_seal(
                    crate::crypto::derived_keys(password->0.spec_bytes(), header.salt@).subrange(32, 64),
                    crate::crypto::zero_bytes(24),
                    crate::crypto::VERIFIER_AAD@,
                    crate::crypto::zero_bytes(32),
                ),
            ),
        ) ==> r is Ok,
{
    if !header.encrypted() {
        return Ok(None);
    }
    let p = match password {
        Some(p) => p,
        None => return Err(ArchiveError::PasswordRequired),
    };
    let crypto = match Crypto::derive(p, &header.salt) {
        Ok(c) => c,
        Err(e) => return Err(ArchiveError::Crypto(e)),
    };
    match &index.verifier_hex {
        Some(vh) => {
            proof {
                let vk = crate::crypto::derived_keys(p.spec_bytes(), header.salt@).subrange(32, 64);
                crate::format::lemma_hex_roundtrip(
                    crate::crypto::aead_seal(vk, crate::crypto::zero_bytes(24), crate::crypto::VERIFIER_AAD@, crate::crypto::zero_bytes(32)),
                );
            }
            let v = match crate::format::unhex(vh.as_str()) {
                Ok(v) => v,
                Err(e) => return Err(ArchiveError::Hex(e)),
            };
            if !crypto.check_verifier(v.as_slice()) {
                return Err(ArchiveError::WrongPassword);
            }
        },
        None => {},
    }
    Ok(Some(crypto))
}

// ─────────────────────────── walking inputs ───────────────────────────

/// The order of archive paths: lexicographic by character (the order of
/// their UTF-8 bytes, which `String` comparison uses).
pub open spec fn path_le(a: Seq<char>, b: Seq<char>) -> bool
    decreases a.len(),
{
    if a.len() == 0 {
        true
    } else if b.len() == 0 {
        false
    } else if a[0] != b[0] {
        (a[0] as int) < (b[0] as int)
    } else {
        path_le(a.drop_first(), b.drop_first())
    }
}

/// Any two paths are ordered one way or the other.
pub proof fn lemma_path_le_total(a: Seq<char>, b: Seq<char>)
    ensures
        path_le(a, b) || path_le(b, a),
    decreases a.len(),
{
    if a.len() > 0 && b.len() > 0 {
        if a[0] == b[0] {
            lemma_path_le_total(a.drop_first(), b.drop_first());
        } else {
            assert((a[0] as int) != (b[0] as int));
        }
    }
}

/// The path order is transitive.
pub proof fn lemma_path_le_trans(a: Seq<char>, b: Seq<char>, c: Seq<char>)
    requires
        path_le(a, b),
        path_le(b, c),
    ensures
        path_le(a, c),
    decreases a.len(),
{
    if a.len() > 0 && b.len() > 0 && c.len() > 0 && a[0] == b[0] && b[0] == c[0] {
        lemma_path_le_trans(a.drop_first(), b.drop_first(), c.drop_first());
    }
}

proof fn lemma_path_le_refl(a: Seq<char>)
    ensures
        path_le(a, a),
    decreases a.len(),
{
    if a.len() > 0 {
        lemma_path_le_refl(a.drop_first());
    }
}

proof fn lemma_path_le_skip(a: Seq<char>, b: Seq<char>, i: int)
    requires
        0 <= i <= a.len(),
        i <= b.len(),
        a.take(i) == b.take(i),
    ensures
        path_le(a, b) == path_le(a.skip(i), b.skip(i)),
    decreases i,
{
    if i > 0 {
        assert(a[0] == a.take(i)[0]);
        assert(b[0] == b.take(i)[0]);
        assert(a.drop_first().take(i - 1) =~= a.take(i).drop_first());
        assert(b.drop_first().take(i - 1) =~= b.take(i).drop_first());
        lemma_path_le_skip(a.drop_first(), b.drop_first(), i - 1);
        assert(a.drop_first().skip(i - 1) =~= a.skip(i));
        assert(b.drop_first().skip(i - 1) =~= b.skip(i));
    } else {
        assert(a.skip(0) =~= a);
        assert(b.skip(0) =~= b);
    }
}

/// Whether `a` comes no later than `b` in the path order.
pub fn path_le_exec(a: &str, b: &str) -> (r: bool)
    ensures
        r == path_le(a@, b@),
{
    let x = chars_of(a);
    let y = chars_of(b);
    let mut i: usize = 0;
    while i < x.len() && i < y.len() && x[i] == y[i]
        invariant
            i <= x@.len(),
            i <= y@.len(),
            x@ == a@,
            y@ == b@,
            x@.take(i as int) == y@.take(i as int),
        decreases x@.len() - i,
    {
        assert(x@.take(i + 1) =~= x@.take(i as int).push(x@[i as int]));
        assert(y@.take(i + 1) =~= y@.take(i as int).push(y@[i as int]));
        i = i + 1;
    }
    proof {
        lemma_path_le_skip(a@, b@, i as int);
    }
    if i == x.len() {
        true
    } else if i == y.len() {
        false
    } else {
        proof {
            assert(a@.skip(i as int)[0] == x@[i as int]);
            assert(b@.skip(i as int)[0] == y@[i as int]);
        }
        x[i] < y[i]
    }
}

/// Entries in path order.
pub open spec fn sorted_by_path(v: Seq<crate::pipeline::InputFile>) -> bool {
    forall|i: int, j: int| 0 <= i < j < v.len() ==> path_le(#[trigger] v[i].entry.path@, #[trigger] v[j].entry.path@)
}

/// The entries of `s` stored under path `p`, in their order in `s`.
pub open spec fn entries_at(s: Seq<crate::pipeline::InputFile>, p: Seq<char>) -> Seq<crate::pipeline::InputFile>
    decreases s.len(),
{
    if s.len() == 0 {
        s
    } else {
        entries_at(s.drop_last(), p) + if s.last().entry.path@ == p {
            seq![s.last()]
        } else {
            Seq::empty()
        }
    }
}

proof fn lemma_entries_at_add(a: Seq<crate::pipeline::InputFile>, b: Seq<crate::pipeline::InputFile>, p: Seq<char>)
    ensures
        entries_at(a + b, p) == entries_at(a, p) + entries_at(b, p),
    decreases b.len(),
{
    if b.len() == 0 {
        assert(a + b =~= a);
        assert(entries_at(a, p) + entries_at(b, p) =~= entries_at(a, p));
    } else {
        lemma_entries_at_add(a, b.drop_last(), p);
        assert((a + b).drop_last() =~= a + b.drop_last());
        assert((a + b).last() == b.last());
        assert(entries_at(a + b, p) =~= entries_at(a, p) + entries_at(b, p));
    }
}

proof fn lemma_entries_at_none(s: Seq<crate::pipeline::InputFile>, p: Seq<char>)
    requires
        forall|j: int| 0 <= j < s.len() ==> (#[trigger] s[j]).entry.path@ != p,
    ensures
        entries_at(s, p) == Seq::<crate::pipeline::InputFile>::empty(),
    decreases s.len(),
{
    if s.len() > 0 {
        assert forall|j: int| 0 <= j < s.drop_last().len() implies (#[trigger] s.drop_last()[j]).entry.path@ != p by {
            assert(s.drop_last()[j] == s[j]);
        }
        lemma_entries_at_none(s.drop_last(), p);
        assert(s.last() == s[s.len() - 1]);
        assert(entries_at(s, p) =~= Seq::<crate::pipeline::InputFile>::empty());
    }
}

/// The inputs in path order, as the archive's file list keeps them: the
/// same inputs, sorted by their stored path; inputs stored under the same
/// path keep their order (the sort is stable).
pub fn sort_inputs(v: Vec<crate::pipeline::InputFile>) -> (r: Vec<crate::pipeline::InputFile>)
    ensures
        sorted_by_path(r@),
        r@.to_multiset() == v@.to_multiset(),
        forall|p: Seq<char>| #[trigger] entries_at(r@, p) == entries_at(v@, p),
{
    broadcast use vstd::seq_lib::group_to_multiset_ensures;
    let ghost orig = v@;
    let mut rest = v;
    let mut out: Vec<crate::pipeline::InputFile> = Vec::new();
    let ghost mut k: int = 0;
    while rest.len() > 0
        invariant
            0 <= k <= orig.len(),
            rest@ == orig.skip(k),
            sorted_by_path(out@),
            out@.to_multiset() == orig.take(k).to_multiset(),
            forall|p: Seq<char>| #[trigger] entries_at(out@, p) == entries_at(orig.take(k), p),
        decreases rest@.len(),
    {
        let x = rest.remove(0);
        proof {
            assert(orig.skip(k)[0] == orig[k]);
            assert(rest@ =~= orig.skip(k + 1));
            assert(orig.take(k + 1) =~= orig.take(k).push(x));
            assert(orig.take(k + 1).drop_last() =~= orig.take(k));
            vstd::seq_lib::to_multiset_build(orig.take(k), x);
            k = k + 1;
        }
        let mut pos: usize = out.len();
        while pos > 0 && !path_le_exec(out[pos - 1].entry.path.as_str(), x.entry.path.as_str())
            invariant
                pos <= out@.len(),
                forall|j: int| pos <= j < out@.len() ==> !path_le(#[trigger] out@[j].entry.path@, x.entry.path@),
            decreases pos,
        {
            pos = pos - 1;
        }
        let ghost before = out@;
        proof {
            assert forall|j: int| pos <= j < before.len() implies path_le(x.entry.path@, #[trigger] before[j].entry.path@) by {
                lemma_path_le_total(before[j].entry.path@, x.entry.path@);
            }
            if pos > 0 {
                assert forall|j: int| 0 <= j < pos implies path_le(#[trigger] before[j].entry.path@, x.entry.path@) by {
                    if j < pos - 1 {
                        lemma_path_le_trans(before[j].entry.path@, before[pos - 1].entry.path@, x.entry.path@);
                    }
                }
            }
            vstd::seq_lib::to_multiset_insert(before, pos as int, x);
        }
        out.insert(pos, x);
        proof {
            let after = out@;
            assert(after =~= before.insert(pos as int, x));
            assert forall|i: int, j: int| 0 <= i < j < after.len() implies path_le(#[trigger] after[i].entry.path@, #[trigger] after[j].entry.path@) by {
                if j < pos {
                    assert(after[i] == before[i] && after[j] == before[j]);
                } else if j == pos {
                    assert(after[i] == before[i]);
                } else if i == pos {
                    assert(after[j] == before[j - 1]);
                } else if i < pos {
                    assert(after[i] == before[i] && after[j] == before[j - 1]);
                    lemma_path_le_trans(before[i].entry.path@, x.entry.path@, before[j - 1].entry.path@);
                } else {
                    assert(after[i] == before[i - 1] && after[j] == before[j - 1]);
                }
            }
            assert forall|p: Seq<char>| #[trigger] entries_at(after, p) == entries_at(orig.take(k), p) by {
                let head = before.take(pos as int);
                let tail = before.skip(pos as int);
                assert(before =~= head + tail);
                assert(after =~= head + seq![x] + tail);
                lemma_entries_at_add(head, tail, p);
                lemma_entries_at_add(head, seq![x], p);
                lemma_entries_at_add(head + seq![x], tail, p);
                assert(seq![x].drop_last() =~= Seq::<crate::pipeline::InputFile>::empty());
                assert(entries_at(Seq::<crate::pipeline::InputFile>::empty(), p) == Seq::<crate::pipeline::InputFile>::empty());
                assert(seq![x].last() == x);
                assert(entries_at(seq![x], p) =~= (if x.entry.path@ == p {
                    seq![x]
                } else {
                    Seq::<crate::pipeline::InputFile>::empty()
                }));
                assert(orig.take(k).drop_last() =~= orig.take(k - 1));
                assert(orig.take(k).last() == x);
                if p == x.entry.path@ {
                    assert forall|j: int| 0 <= j < tail.len() implies (#[trigger] tail[j]).entry.path@ != p by {
                        assert(tail[j] == before[pos + j]);
                        lemma_path_le_refl(p);
                    }
                    lemma_entries_at_none(tail, p);
                    assert(entries_at(head, p) + entries_at(seq![x], p) + entries_at(tail, p) =~= entries_at(head, p) + entries_at(tail, p) + seq![x]);
                } else {
                    assert(entries_at(head, p) + entries_at(seq![x], p) =~= entries_at(head, p));
                }
            }
        }
    }
    proof {
        assert(orig.take(k) =~= orig);
    }
    out
}

/// The path stored for an item found while walking a folder: the folder's
/// name, `/`, and the item's path relative to the folder with `\` turned
/// into `/`.
pub open spec fn stored_name_spec(top: Seq<char>, rel: Seq<char>) -> Seq<char> {
    top + seq!['/'] + Seq::new(rel.len(), |i: int| if rel[i] == '\\' { '/' } else { rel[i] })
}

/// The path stored for an item found while walking a folder.
pub fn stored_name(top: &str, rel: &str) -> (r: String)
    ensures
        r@ == stored_name_spec(top@, rel@),
{
    let mut out = copy_str(top);
    crate::text::push_char(&mut out, '/');
    let cs = chars_of(rel);
    let ghost start = out@;
    let mut i: usize = 0;
    while i < cs.len()
        invariant
            i <= cs@.len(),
            cs@ == rel@,
            start == top@ + seq!['/'],
            out@ == start + Seq::new(i as nat, |j: int| if rel@[j] == '\\' { '/' } else { rel@[j] }),
        decreases cs@.len() - i,
    {
        let c = if cs[i] == '\\' { '/' } else { cs[i] };
        crate::text::push_char(&mut out, c);
        i = i + 1;
        assert(out@ =~= start + Seq::new(i as nat, |j: int| if rel@[j] == '\\' { '/' } else { rel@[j] }));
    }
    assert(out@ =~= stored_name_spec(top@, rel@));
    out
}

// ─────────────────────────── paths ───────────────────────────

/// The first `/`-separated component of a path.
pub open spec fn first_component(p: Seq<char>) -> Seq<char>
    decreases p.len(),
{
    if p.len() == 0 || p[0] == '/' {
        Seq::empty()
    } else {
        seq![p[0]] + first_component(p.drop_first())
    }
}

proof fn lemma_first_component_prefix(p: Seq<char>)
    ensures
        first_component(p).len() <= p.len(),
        first_component(p) == p.take(first_component(p).len() as int),
        first_component(p).len() < p.len() ==> p[first_component(p).len() as int] == '/',
        forall|i: int| 0 <= i < first_component(p).len() ==> p[i] != '/',
    decreases p.len(),
{
    if p.len() > 0 && p[0] != '/' {
        lemma_first_component_prefix(p.drop_first());
        assert(first_component(p) =~= p.take(first_component(p).len() as int));
        assert forall|i: int| 0 <= i < first_component(p).len() implies p[i] != '/' by {
            if i > 0 {
                assert(p[i] == p.drop_first()[i - 1]);
            }
        }
    }
}

/// The paths of a list of entries.
pub open spec fn paths_of(files: Seq<FileEntry>) -> Seq<Seq<char>> {
    Seq::new(files.len(), |i: int| files[i].path@)
}

/// The shared top-level directory of an entry list: every path has the
/// first path's non-empty first component, and some path goes below it.
pub open spec fn common_root(paths: Seq<Seq<char>>) -> Option<Seq<char>> {
    if paths.len() == 0 {
        None
    } else {
        let top = first_component(paths[0]);
        if top.len() == 0 {
            None
        } else if (forall|i: int| 0 <= i < paths.len() ==> first_component(#[trigger] paths[i]) == top) && (exists|
            i: int,
        | 0 <= i < paths.len() && (#[trigger] paths[i]).len() > top.len()) {
            Some(top)
        } else {
            None
        }
    }
}

fn first_component_of(p: &str) -> (r: Vec<char>)
    ensures
        r@ == first_component(p@),
{
    let cs = chars_of(p);
    let mut out: Vec<char> = Vec::new();
    let mut i: usize = 0;
    proof { lemma_first_component_prefix(cs@); }
    while i < cs.len() && cs[i] != '/'
        invariant
            i <= cs@.len(),
            cs@ == p@,
            out@ == cs@.take(i as int),
            forall|j: int| 0 <= j < i ==> cs@[j] != '/',
        decreases cs@.len() - i,
    {
        out.push(cs[i]);
        i = i + 1;
        assert(out@ =~= cs@.take(i as int));
    }
    proof {
        lemma_first_component_prefix(cs@);
        let n = first_component(cs@).len() as int;
        if n < i {
            assert(cs@[n] == '/');
        }
        if i < n {
            assert(first_component(cs@) == cs@.take(n));
            assert(cs@.take(n)[i as int] == cs@[i as int]);
        }
        assert(n == i);
    }
    out
}

/// If every entry lives under one shared top-level directory (and there is
/// something inside it), returns that directory's name.
pub fn common_root_dir(files: &[FileEntry]) -> (r: Option<String>)
    ensures
        match r {
            Some(s) => common_root(paths_of(files@)) == Some(s@),
            None => common_root(paths_of(files@)) is None,
        },
{
    if files.len() == 0 {
        return None;
    }
    let top = first_component_of(files[0].path.as_str());
    if top.len() == 0 {
        return None;
    }
    let ghost paths = paths_of(files@);
    let mut has_children = false;
    let mut i: usize = 0;
    while i < files.len()
        invariant
            i <= files@.len(),
            paths == paths_of(files@),
            top@ == first_component(paths[0]),
            top@.len() > 0,
            forall|j: int| 0 <= j < i ==> first_component(#[trigger] paths[j]) == top@,
            has_children <==> exists|j: int| 0 <= j < i && (#[trigger] paths[j]).len() > top@.len(),
        decreases files@.len() - i,
    {
        assert(paths[i as int] == files@[i as int].path@);
        let c = first_component_of(files[i].path.as_str());
        if !chars_eq(c.as_slice(), top.as_slice()) {
            return None;
        }
        let n = chars_of(files[i].path.as_str()).len();
        if n > top.len() {
            has_children = true;
        }
        i = i + 1;
    }
    if has_children {
        Some(string_from_chars(top.as_slice()))
    } else {
        None
    }
}

/// A `..` component starts at position `i` of `p`.
pub open spec fn parent_component_at(p: Seq<char>, i: int) -> bool {
    0 <= i && i + 2 <= p.len() && p[i] == '.' && p[i + 1] == '.' && (i == 0 || p[i - 1] == '/') && (i + 2
        == p.len() || p[i + 2] == '/')
}

/// `p` holds no component that leaves the extraction directory: it is not
/// absolute (no leading `/`) and no `/`-separated component is `..`.
pub open spec fn path_is_safe(p: Seq<char>) -> bool {
    &&& !(p.len() > 0 && p[0] == '/')
    &&& !(exists|i: int| #[trigger] parent_component_at(p, i))
}

/// Zip-slip protection: whether an archive path may be joined under the
/// extraction directory (Unix path rules).
pub fn is_safe_path(rel: &str) -> (ok: bool)
    ensures
        ok == path_is_safe(rel@),
{
    let p = chars_of(rel);
    let n = p.len();
    if n > 0 && p[0] == '/' {
        return false;
    }
    let mut i: usize = 0;
    while n >= 2 && i <= n - 2
        invariant
            n == p@.len(),
            p@ == rel@,
            !(n > 0 && p@[0] == '/'),
            forall|j: int| 0 <= j < i ==> !#[trigger] parent_component_at(p@, j),
        decreases n - i,
    {
        if p[i] == '.' && p[i + 1] == '.' && (i == 0 || p[i - 1] == '/') && (i + 2 == n || p[i + 2] == '/') {
            assert(parent_component_at(p@, i as int));
            return false;
        }
        i = i + 1;
    }
    assert forall|j: int| !#[trigger] parent_component_at(p@, j) by {
        if 0 <= j < i {
        }
    }
    true
}

/// The recovery volume path of an archive: its path with `.nvol` appended
/// to the file name.
pub fn volume_path_for(archive: &str) -> (r: String)
    ensures
        r@ == archive@ + ".nvol"@,
{
    let mut r = copy_str(archive);
    crate::text::push_str(&mut r, ".nvol");
    r
}

/// The views of a list of entries.
pub open spec fn entry_views(files: Seq<FileEntry>) -> Seq<<FileEntry as View>::V> {
    Seq::new(files.len(), |i: int| files[i]@)
}

/// `p` without the prefix `pre`, if it starts with it.
pub open spec fn strip_prefix(p: Seq<char>, pre: Seq<char>) -> Seq<char> {
    if p.len() >= pre.len() && p.take(pre.len() as int) == pre {
        p.skip(pre.len() as int)
    } else {
        p
    }
}

/// The entries extracted "here" under a shared top-level directory `top`:
/// the directory's own entry is dropped and `top/` is removed from the
/// front of every other path.
pub open spec fn stripped_entries(files: Seq<FileEntry>, top: Seq<char>) -> Seq<<FileEntry as View>::V>
    decreases files.len(),
{
    if files.len() == 0 {
        Seq::empty()
    } else {
        let rest = stripped_entries(files.drop_last(), top);
        let e = files.last()@;
        if e.0 == top {
            rest
        } else {
            rest.push((strip_prefix(e.0, top.push('/')), e.1, e.2, e.3, e.4, e.5, e.6, e.7))
        }
    }
}

/// Whether an entry is anything but the shared top-level directory `top`
/// itself.
pub open spec fn not_top(top: Seq<char>) -> spec_fn(<FileEntry as View>::V) -> bool {
    |e: <FileEntry as View>::V| e.0 != top
}

/// `s` is `kept` with `pre` removed from the front of every path and all
/// other fields unchanged.
pub open spec fn prefix_removed(s: Seq<<FileEntry as View>::V>, kept: Seq<<FileEntry as View>::V>, pre: Seq<char>) -> bool {
    &&& s.len() == kept.len()
    &&& forall|i: int|
        0 <= i < s.len() ==> pre + (#[trigger] s[i]).0 == kept[i].0 && (s[i].1, s[i].2, s[i].3, s[i].4, s[i].5, s[i].6, s[i].7)
            == (kept[i].1, kept[i].2, kept[i].3, kept[i].4, kept[i].5, kept[i].6, kept[i].7)
}

proof fn lemma_stripped_filter(files: Seq<FileEntry>, top: Seq<char>)
    requires
        forall|i: int| 0 <= i < files.len() ==> first_component((#[trigger] files[i]).path@) == top,
    ensures
        prefix_removed(stripped_entries(files, top), entry_views(files).filter(not_top(top)), top.push('/')),
    decreases files.len(),
{
    if files.len() > 0 {
        let init = files.drop_last();
        assert forall|i: int| 0 <= i < init.len() implies first_component((#[trigger] init[i]).path@) == top by {
            assert(init[i] == files[i]);
        }
        lemma_stripped_filter(init, top);
        reveal(Seq::filter);
        let vs = entry_views(files);
        assert(vs.drop_last() =~= entry_views(init));
        assert(vs.last() == files.last()@);
        let e = files.last()@;
        assert(first_component(files[files.len() - 1].path@) == top);
        if e.0 != top {
            let p = files.last().path@;
            assert(p == e.0);
            assert(files.last() == files[files.len() - 1]);
            lemma_first_component_prefix(p);
            let n = top.len() as int;
            assert(p.take(n) == top);
            assert(p.len() > n) by {
                if p.len() == n {
                    assert(p =~= p.take(n));
                }
            }
            assert(p[n] == '/');
            assert(e.0.take(n + 1) =~= top.push('/'));
            assert(top.push('/') + e.0.skip(n + 1) =~= e.0);
            let st = stripped_entries(files, top);
            let kept = vs.filter(not_top(top));
            assert(not_top(top)(vs.last()));
            assert(kept == vs.drop_last().filter(not_top(top)).push(vs.last()));
            assert(kept == entry_views(init).filter(not_top(top)).push(vs.last()));
            assert(strip_prefix(e.0, top.push('/')) == e.0.skip(n + 1));
            assert forall|i: int| 0 <= i < st.len() implies top.push('/') + (#[trigger] st[i]).0 == kept[i].0 && (
            st[i].1, st[i].2, st[i].3, st[i].4, st[i].5, st[i].6, st[i].7) == (kept[i].1, kept[i].2, kept[i].3, kept[i].4,
            kept[i].5, kept[i].6, kept[i].7) by {
                if i < st.len() - 1 {
                    assert(st[i] == stripped_entries(init, top)[i]);
                    assert(kept[i] == entry_views(init).filter(not_top(top))[i]);
                }
            }
        }
    }
}

/// "Extract here" law: under a shared top-level directory `top`, the
/// extracted entries are, in order, every entry whose path is not exactly
/// `top` (no other entry is dropped), each with `top/` removed from the
/// front of its path and every other field unchanged.
pub proof fn lemma_extract_here(files: Seq<FileEntry>, top: Seq<char>)
    requires
        common_root(paths_of(files)) == Some(top),
    ensures
        prefix_removed(stripped_entries(files, top), entry_views(files).filter(not_top(top)), top.push('/')),
{
    assert forall|i: int| 0 <= i < files.len() implies first_component((#[trigger] files[i]).path@) == top by {
        assert(paths_of(files)[i] == files[i].path@);
    }
    lemma_stripped_filter(files, top);
}

/// The entry list an extraction writes: with `strip_root` and a shared
/// top-level directory, that directory is stripped from every path (7-Zip's
/// "extract here"); otherwise the entries as they are.
pub fn files_for_extract(files: &[FileEntry], strip_root: bool) -> (r: Vec<FileEntry>)
    ensures
        strip_root && common_root(paths_of(files@)) is Some ==> entry_views(r@) == stripped_entries(
            files@,
            common_root(paths_of(files@))->0,
        ),
        !(strip_root && common_root(paths_of(files@)) is Some) ==> entry_views(r@) == entry_views(files@),
        strip_root ==> (common_root(paths_of(files@)) matches Some(t) ==> prefix_removed(
            entry_views(r@),
            entry_views(files@).filter(not_top(t)),
            t.push('/'),
        )),
{
    let top = if strip_root {
        common_root_dir(files)
    } else {
        None
    };
    let mut out: Vec<FileEntry> = Vec::new();
    let mut i: usize = 0;
    match top {
        Some(t) => {
            let tc = chars_of(t.as_str());
            let mut pre = tc.clone();
            pre.push('/');
            assert(pre@ =~= t@.push('/'));
            while i < files.len()
                invariant
                    i <= files@.len(),
                    tc@ == t@,
                    pre@ == t@.push('/'),
                    entry_views(out@) == stripped_entries(files@.take(i as int), t@),
                decreases files@.len() - i,
            {
                let f = &files[i];
                let pc = chars_of(f.path.as_str());
                proof {
                    assert(files@.take(i + 1).drop_last() =~= files@.take(i as int));
                    assert(files@.take(i + 1).last() == files@[i as int]);
                }
                if chars_eq(pc.as_slice(), tc.as_slice()) {
                } else {
                    let np = strip_prefix_chars(pc.as_slice(), pre.as_slice());
                    let e = f.with_path(string_from_chars(np.as_slice()));
                    let ghost before = entry_views(out@);
                    out.push(e);
                    assert(entry_views(out@) =~= before.push(e@));
                }
                i = i + 1;
            }
        },
        None => {
            while i < files.len()
                invariant
                    i <= files@.len(),
                    entry_views(out@) == entry_views(files@.take(i as int)),
                decreases files@.len() - i,
            {
                let f = &files[i];
                let e = f.with_path(copy_str(f.path.as_str()));
                let ghost before = entry_views(out@);
                out.push(e);
                assert(e@ == files@[i as int]@);
                assert(entry_views(out@) =~= before.push(e@));
                assert(entry_views(files@.take(i + 1)) =~= entry_views(files@.take(i as int)).push(files@[i as int]@));
                i = i + 1;
            }
        },
    }
    assert(files@.take(i as int) =~= files@);
    proof {
        if strip_root && common_root(paths_of(files@)) is Some {
            lemma_extract_here(files@, common_root(paths_of(files@))->0);
        }
    }
    out
}

fn strip_prefix_chars(p: &[char], pre: &[char]) -> (r: Vec<char>)
    ensures
        r@ == strip_prefix(p@, pre@),
{
    if p.len() < pre.len() {
        return vstd::slice::slice_to_vec(p);
    }
    let head = vstd::slice::slice_subrange(p, 0, pre.len());
    if chars_eq(head, pre) {
        vstd::slice::slice_to_vec(vstd::slice::slice_subrange(p, pre.len(), p.len()))
    } else {
        vstd::slice::slice_to_vec(p)
    }
}

// ─────────────────────────── verify ───────────────────────────

/// The verify verdict for a block: its payload could be read with a
/// matching header, it matches its CRC, and (for an encrypted archive
/// checked with a password) it authenticates under the block's key, nonce
/// and AAD.
pub open spec fn block_verdict(crypto: Option<&Crypto>, salt: Seq<u8>, encrypted: bool, be: BlockEntry, payload: Option<Seq<u8>>) -> bool {
    payload matches Some(p) && crate::format::crc32(p) == be.crc && (encrypted && crypto is Some ==> crate::crypto::aead_open(
        crypto->0.key_view(),
        crate::crypto::nonce_of(salt, be.id),
        crate::crypto::aad_of(be.id, be.codec),
        p,
    ) is Some)
}

/// The key `verify` checks an archive with: none when no password is given
/// (the CRC checks need none, even for an encrypted archive); otherwise
/// what `check_password` decides.
pub fn verify_key(header: &ArchiveHeader, index: &Index, password: Option<&str>) -> (r: Result<Option<Crypto>, ArchiveError>)
    ensures
        r matches Ok(Some(_)) ==> password matches Some(p) && p@.len() > 0,
        password is None || header.flags & crate::format::FLAG_ENCRYPTED == 0 ==> (r matches Ok(c) && c is None),
        header.flags & crate::format::FLAG_ENCRYPTED != 0 && password is Some ==> match r {
            Ok(Some(c)) => c.key_view() == crate::crypto::derived_keys(password->0.spec_bytes(), header.salt@).subrange(0, 32)
                && c.verifier_key_view() == crate::crypto::derived_keys(password->0.spec_bytes(), header.salt@).subrange(32, 64)
                && verifier_accepts(c.verifier_key_view(), verifier_of(index)),
            Ok(None) => false,
            Err(ArchiveError::Crypto(e)) => (password->0@.len() == 0 && e == CryptoError::EmptyPassword) || (
            password->0@.len() > 0 && password->0.spec_bytes().len() > 0xFFFF_FFFF && e == CryptoError::KeyDerivation),
            Err(ArchiveError::Hex(e)) => verifier_of(index) matches Some(h) && unhex_bytes(vstd::utf8::encode_utf8(h)) == Err::<Seq<u8>, HexError>(e),
            Err(ArchiveError::WrongPassword) => verifier_of(index) matches Some(h) && unhex_bytes(vstd::utf8::encode_utf8(h)) is Ok
                && !verifier_accepts(
                crate::crypto::derived_keys(password->0.spec_bytes(), header.salt@).subrange(32, 64),
                verifier_of(index),
            ),
            Err(_) => false,
        },
        header.flags & crate::format::FLAG_ENCRYPTED != 0 && password is Some && password->0@.len() > 0
            && password->0.spec_bytes().len() <= 0xFFFF_FFFF && verifier_of(index) == Some(
            crate::format::hex_chars(
                crate::crypto::aead_seal(
                    crate::crypto::derived_keys(password->0.spec_bytes(), header.salt@).subrange(32, 64),
                    crate::crypto::zero_bytes(24),
                    crate::crypto::VERIFIER_AAD@,
                    crate::crypto::zero_bytes(32),
                ),
            ),
        ) ==> r is Ok,
{
    match password {
        None => Ok(None),
        Some(_) => check_password(header, index, password),
    }
}

/// Whether a block passes verification: its payload could be read with a
/// matching header, it matches its CRC, and (for an encrypted archive
/// checked with a password) it authenticates under the block's key, nonce
/// and AAD.
pub fn verify_block(crypto: Option<&Crypto>, salt: &[u8], encrypted: bool, be: &BlockEntry, payload: Option<&[u8]>) -> (ok: bool)
    ensures
        ok == block_verdict(crypto, salt@, encrypted, *be, match payload {
            Some(p) => Some(p@),
            None => None,
        }),
{
    match payload {
        Some(p) => {
            let crc_ok = crate::format::crc32_of(p) == be.crc;
            if crc_ok && encrypted {
                match crypto {
                    Some(c) => c.decrypt_block(salt, be.id, be.codec, p).is_ok(),
                    None => crc_ok,
                }
            } else {
                crc_ok
            }
        },
        None => false,
    }
}

/// The optional payloads as sequences.
pub open spec fn opt_views(v: Seq<Option<Vec<u8>>>) -> Seq<Option<Seq<u8>>> {
    Seq::new(
        v.len(),
        |i: int|
            match v[i] {
                Some(p) => Some(p@),
                None => None,
            },
    )
}

/// The ids of the blocks that fail verification, in table order.
pub open spec fn failing_ids(crypto: Option<&Crypto>, salt: Seq<u8>, encrypted: bool, blocks: Seq<BlockEntry>, payloads: Seq<Option<Seq<u8>>>) -> Seq<u64>
    decreases blocks.len(),
{
    if blocks.len() == 0 {
        Seq::empty()
    } else {
        let rest = failing_ids(crypto, salt, encrypted, blocks.drop_last(), payloads.take(blocks.len() - 1));
        if block_verdict(crypto, salt, encrypted, blocks.last(), payloads[blocks.len() - 1]) {
            rest
        } else {
            rest.push(blocks.last().id)
        }
    }
}

/// Verifies every block of an archive: `payloads[i]` is what was read for
/// row `i` of the block table (`None` when its header did not match or it
/// could not be read). Returns the counts and the ids of the failing
/// blocks, in table order.
pub fn verify_blocks(
    crypto: Option<&Crypto>,
    salt: &[u8],
    encrypted: bool,
    blocks: &[BlockEntry],
    payloads: &[Option<Vec<u8>>],
) -> (r: (VerifyStats, Vec<u64>))
    requires
        payloads@.len() == blocks@.len(),
    ensures
        r.0.total == blocks@.len(),
        r.1@ == failing_ids(crypto, salt@, encrypted, blocks@, opt_views(payloads@)),
        r.0.bad == r.1@.len(),
        r.0.good + r.0.bad == r.0.total,
{
    let ghost pv = opt_views(payloads@);
    let mut good: usize = 0;
    let mut bad_ids: Vec<u64> = Vec::new();
    let mut i: usize = 0;
    while i < blocks.len()
        invariant
            i <= blocks@.len(),
            payloads@.len() == blocks@.len(),
            pv == opt_views(payloads@),
            bad_ids@ == failing_ids(crypto, salt@, encrypted, blocks@.take(i as int), pv.take(i as int)),
            good + bad_ids@.len() == i,
        decreases blocks@.len() - i,
    {
        let ok = match &payloads[i] {
            Some(p) => verify_block(crypto, salt, encrypted, &blocks[i], Some(p.as_slice())),
            None => verify_block(crypto, salt, encrypted, &blocks[i], None),
        };
        proof {
            assert(blocks@.take(i + 1).drop_last() =~= blocks@.take(i as int));
            assert(pv.take(i + 1).take(i as int) =~= pv.take(i as int));
            assert(pv.take(i + 1)[i as int] == pv[i as int]);
        }
        if ok {
            good = good + 1;
        } else {
            bad_ids.push(blocks[i].id);
        }
        i = i + 1;
    }
    assert(blocks@.take(i as int) =~= blocks@);
    assert(pv.take(i as int) =~= pv);
    let bad = bad_ids.len();
    (VerifyStats { total: blocks.len(), good, bad }, bad_ids)
}

// ─────────────────────────── reading one file ───────────────────────────

/// Why a file could not be read from an archive.
#[derive(Clone, Copy, Debug, PartialEq, Eq)]
pub enum ReadError {
    /// No entry has the requested path.
    NoEntry,
    /// The entry is a directory or a symlink.
    NotAFile,
    /// A block of the file is corrupt or missing.
    CorruptBlock(u64),
    /// A block could not be decrypted or decompressed.
    Block(crate::pipeline::BlockError),
}

/// Position of the first entry with path `path`.
pub open spec fn first_with_path(files: Seq<FileEntry>, path: Seq<char>) -> Option<int>
    decreases files.len(),
{
    if files.len() == 0 {
        None
    } else if files[0].path@ == path {
        Some(0)
    } else {
        match first_with_path(files.drop_first(), path) {
            Some(i) => Some(i + 1),
            None => None,
        }
    }
}

proof fn lemma_first_with_path_found(files: Seq<FileEntry>, path: Seq<char>, i: int)
    requires
        0 <= i < files.len(),
        files[i].path@ == path,
        forall|j: int| 0 <= j < i ==> files[j].path@ != path,
    ensures
        first_with_path(files, path) == Some(i),
    decreases i,
{
    if i > 0 {
        assert(files[0].path@ != path);
        lemma_first_with_path_found(files.drop_first(), path, i - 1);
    }
}

proof fn lemma_first_with_path_absent(files: Seq<FileEntry>, path: Seq<char>)
    requires
        forall|j: int| 0 <= j < files.len() ==> files[j].path@ != path,
    ensures
        first_with_path(files, path) is None,
    decreases files.len(),
{
    if files.len() > 0 {
        assert(files[0].path@ != path);
        lemma_first_with_path_absent(files.drop_first(), path);
    }
}

/// Finds the regular file stored under `path`: the first entry with that
/// path, which must be of kind `file`.
pub fn find_file(files: &[FileEntry], path: &str) -> (r: Result<usize, ReadError>)
    ensures
        match r {
            Ok(i) => first_with_path(files@, path@) == Some(i as int) && files@[i as int].kind@ == "file"@,
            Err(ReadError::NoEntry) => first_with_path(files@, path@) is None,
            Err(ReadError::NotAFile) => first_with_path(files@, path@) matches Some(i) && files@[i].kind@ != "file"@,
            Err(_) => false,
        },
{
    let mut i: usize = 0;
    while i < files.len()
        invariant
            i <= files@.len(),
            forall|j: int| 0 <= j < i ==> files@[j].path@ != path@,
        decreases files@.len() - i,
    {
        if str_eq(files[i].path.as_str(), path) {
            proof {
                lemma_first_with_path_found(files@, path@, i as int);
            }
            if str_eq(files[i].kind.as_str(), "file") {
                return Ok(i);
            }
            return Err(ReadError::NotAFile);
        }
        i = i + 1;
    }
    proof {
        lemma_first_with_path_absent(files@, path@);
    }
    Err(ReadError::NoEntry)
}

/// Concatenation of a list of chunks.
pub open spec fn concat_chunks(chunks: Seq<Seq<u8>>) -> Seq<u8>
    decreases chunks.len(),
{
    if chunks.len() == 0 {
        Seq::empty()
    } else {
        concat_chunks(chunks.drop_last()) + chunks.last()
    }
}

/// Chunk `j` of a file was archived as block `ids[j]`: its payload (as read
/// back) encodes the chunk the way `process_chunk` produces it.
pub open spec fn chunks_stored(
    crypto: Option<&Crypto>,
    salt: Seq<u8>,
    blocks: Seq<BlockEntry>,
    ids: Seq<u64>,
    payloads: Seq<Option<Seq<u8>>>,
    level: i32,
    chunks: Seq<Seq<u8>>,
) -> bool {
    &&& chunks.len() == ids.len()
    &&& payloads.len() == ids.len()
    &&& forall|j: int|
        0 <= j < ids.len() ==> {
            let be = #[trigger] blocks[ids[j] as int];
            &&& payloads[j] is Some
            &&& chunks[j].len() <= be.orig_len
            &&& crate::pipeline::payload_encodes(be.codec, level, crate::pipeline::key_of(crypto), salt, be.id, chunks[j], payloads[j]->0)
        }
}

/// `ds[j]` is what block `ids[j]`'s payload decodes to: the payload was
/// read, it opens under the key (when there is one), and decompressing it
/// with the block's codec gives `ds[j]`.
pub open spec fn decoded_all(
    crypto: Option<&Crypto>,
    salt: Seq<u8>,
    blocks: Seq<BlockEntry>,
    ids: Seq<u64>,
    payloads: Seq<Option<Seq<u8>>>,
    ds: Seq<Seq<u8>>,
) -> bool {
    &&& ds.len() == ids.len()
    &&& forall|j: int|
        0 <= j < ids.len() ==> {
            let be = #[trigger] blocks[ids[j] as int];
            &&& payloads[j] is Some
            &&& match crate::pipeline::opened(crypto, salt, be, payloads[j]->0) {
                Some(plain) => crate::pipeline::decompressed(be.codec, plain, be.orig_len as nat, ds[j]),
                None => false,
            }
        }
}

/// The contents of a stored file: block `ids[j]`'s payload (as read, `None`
/// when corrupt or missing) is decrypted and decompressed in turn and the
/// chunks are concatenated.
/// Extraction law: when each payload encodes the file's chunk as the create
/// pipeline produced it, the contents are exactly the file's bytes.
pub fn file_contents(
    crypto: Option<&Crypto>,
    salt: &[u8],
    blocks: &[BlockEntry],
    ids: &[u64],
    payloads: &[Option<Vec<u8>>],
) -> (r: Result<Vec<u8>, ReadError>)
    requires
        payloads@.len() == ids@.len(),
        forall|j: int| 0 <= j < ids@.len() ==> #[trigger] ids@[j] < blocks@.len(),
    ensures
        r matches Err(ReadError::CorruptBlock(id)) ==> exists|j: int|
            0 <= j < ids@.len() && ids@[j] == id && #[trigger] payloads@[j] is None,
        r matches Err(e) ==> !(e is NoEntry) && !(e is NotAFile),
        r matches Ok(v) ==> exists|ds: Seq<Seq<u8>>|
            #[trigger] decoded_all(crypto, salt@, blocks@, ids@, opt_views(payloads@), ds) && v@ == concat_chunks(ds),
        forall|level: i32, chunks: Seq<Seq<u8>>|
            #[trigger] chunks_stored(crypto, salt@, blocks@, ids@, opt_views(payloads@), level, chunks) ==> r is Ok
                && r->Ok_0@ == concat_chunks(chunks),
{
    let ghost pv = opt_views(payloads@);
    let ghost mut ds: Seq<Seq<u8>> = Seq::empty();
    let mut out: Vec<u8> = Vec::new();
    let mut j: usize = 0;
    while j < ids.len()
        invariant
            j <= ids@.len(),
            payloads@.len() == ids@.len(),
            pv == opt_views(payloads@),
            forall|x: int| 0 <= x < ids@.len() ==> #[trigger] ids@[x] < blocks@.len(),
            ds.len() == j,
            out@ == concat_chunks(ds),
            forall|x: int|
                0 <= x < j ==> {
                    let be = #[trigger] blocks@[ids@[x] as int];
                    &&& pv[x] is Some
                    &&& match crate::pipeline::opened(crypto, salt@, be, pv[x]->0) {
                        Some(plain) => crate::pipeline::decompressed(be.codec, plain, be.orig_len as nat, ds[x]),
                        None => false,
                    }
                },
            forall|level: i32, chunks: Seq<Seq<u8>>|
                #[trigger] chunks_stored(crypto, salt@, blocks@, ids@, pv, level, chunks) ==> out@ == concat_chunks(
                    chunks.take(j as int),
                ),
        decreases ids@.len() - j,
    {
        let id = ids[j];
        let be = &blocks[id as usize];
        let payload = match &payloads[j] {
            Some(p) => p,
            None => {
                assert(payloads@[j as int] is None);
                proof {
                    assert forall|level: i32, chunks: Seq<Seq<u8>>| #[trigger] chunks_stored(crypto, salt@, blocks@, ids@, pv, level, chunks) implies false by {
                        assert(pv[j as int] is None);
                        let b = blocks@[ids@[j as int] as int];
                    }
                }
                return Err(ReadError::CorruptBlock(id));
            },
        };
        let data = match crate::pipeline::decode_block(crypto, salt, be, payload.as_slice()) {
            Ok(d) => d,
            Err(e) => {
                proof {
                    assert forall|level: i32, chunks: Seq<Seq<u8>>| #[trigger] chunks_stored(crypto, salt@, blocks@, ids@, pv, level, chunks) implies false by {
                        let b = blocks@[ids@[j as int] as int];
                        assert(pv[j as int] == Some(payload@));
                        assert(crate::pipeline::payload_encodes(b.codec, level, crate::pipeline::key_of(crypto), salt@, b.id, chunks[j as int], payload@));
                    }
                }
                return Err(ReadError::Block(e));
            },
        };
        proof {
            assert forall|level: i32, chunks: Seq<Seq<u8>>| #[trigger] chunks_stored(crypto, salt@, blocks@, ids@, pv, level, chunks) implies out@
                + data@ == concat_chunks(chunks.take(j + 1)) by {
                let b = blocks@[ids@[j as int] as int];
                assert(pv[j as int] == Some(payload@));
                assert(crate::pipeline::payload_encodes(b.codec, level, crate::pipeline::key_of(crypto), salt@, b.id, chunks[j as int], payload@));
                assert(chunks.take(j + 1).drop_last() =~= chunks.take(j as int));
            }
        }
        proof {
            assert(pv[j as int] == Some(payload@));
            let ds2 = ds.push(data@);
            assert(ds2.drop_last() =~= ds);
            ds = ds2;
        }
        crate::bytes::push_all(&mut out, data.as_slice());
        j = j + 1;
    }
    proof {
        assert forall|level: i32, chunks: Seq<Seq<u8>>| #[trigger] chunks_stored(crypto, salt@, blocks@, ids@, pv, level, chunks) implies out@
            == concat_chunks(chunks) by {
            assert(chunks.take(j as int) =~= chunks);
        }
        assert(decoded_all(crypto, salt@, blocks@, ids@, pv, ds));
    }
    Ok(out)
}

/// Create then extract, for one file: when each of its chunks became the
/// stored block with that id the way `process_chunk` makes one (under the
/// archive's key and salt), the block table is those blocks' rows, and the
/// reader gets their payloads back, then the chunks are stored as
/// `file_contents` expects, so the file reads back as its chunks joined.
pub proof fn lemma_create_then_extract(
    crypto: Option<&Crypto>,
    salt: Seq<u8>,
    level: i32,
    blocks: Seq<crate::pipeline::StoredBlock>,
    ids: Seq<u64>,
    chunks: Seq<Seq<u8>>,
)
    requires
        chunks.len() == ids.len(),
        forall|j: int|
            0 <= j < ids.len() ==> {
                let b = #[trigger] blocks[ids[j] as int];
                &&& ids[j] < blocks.len()
                &&& b.block_id == ids[j]
                &&& b.orig_len == chunks[j].len()
                &&& crate::pipeline::payload_encodes(
                    b.codec,
                    level,
                    crate::pipeline::key_of(crypto),
                    salt,
                    b.block_id,
                    chunks[j],
                    b.payload@,
                )
            },
    ensures
        chunks_stored(
            crypto,
            salt,
            Seq::new(blocks.len(), |i: int| crate::pipeline::entry_of(blocks[i])),
            ids,
            Seq::new(ids.len(), |j: int| Some(blocks[ids[j] as int].payload@)),
            level,
            chunks,
        ),
{
    let table = Seq::new(blocks.len(), |i: int| crate::pipeline::entry_of(blocks[i]));
    let pv = Seq::new(ids.len(), |j: int| Some(blocks[ids[j] as int].payload@));
    assert forall|j: int| 0 <= j < ids.len() implies {
        let be = #[trigger] table[ids[j] as int];
        &&& pv[j] is Some
        &&& chunks[j].len() <= be.orig_len
        &&& crate::pipeline::payload_encodes(be.codec, level, crate::pipeline::key_of(crypto), salt, be.id, chunks[j], pv[j]->0)
    } by {
        let b = blocks[ids[j] as int];
        assert(table[ids[j] as int] == crate::pipeline::entry_of(b));
    }
}

// ─────────────────────────── extraction tally ───────────────────────────

/// What extracting one entry of a kind adds to the statistics.
pub open spec fn tallied(st: ExtractStats, kind: Seq<char>, bytes: u64) -> ExtractStats {
    ExtractStats {
        files: if kind != "dir"@ && kind != "symlink"@ { (st.files + 1) as usize } else { st.files },
        dirs: if kind == "dir"@ { (st.dirs + 1) as usize } else { st.dirs },
        symlinks: if kind == "symlink"@ { (st.symlinks + 1) as usize } else { st.symlinks },
        bytes: (st.bytes + bytes) as u64,
    }
}

impl ExtractStats {
    /// Nothing extracted yet.
    pub fn new() -> (r: Self)
        ensures
            r == (ExtractStats { files: 0, dirs: 0, symlinks: 0, bytes: 0 }),
    {
        ExtractStats { files: 0, dirs: 0, symlinks: 0, bytes: 0 }
    }

    /// Counts one extracted entry of `kind` that wrote `bytes` bytes:
    /// directories and symlinks by kind, everything else as a file.
    pub fn tally(&mut self, kind: &str, bytes: u64)
        requires
            old(self).files < usize::MAX,
            old(self).dirs < usize::MAX,
            old(self).symlinks < usize::MAX,
            old(self).bytes + bytes <= u64::MAX,
        ensures
            *final(self) == tallied(*old(self), kind@, bytes),
    {
        proof {
            reveal_strlit("dir");
            reveal_strlit("symlink");
            assert("dir"@.len() != "symlink"@.len());
        }
        self.bytes = self.bytes + bytes;
        if str_eq(kind, "dir") {
            self.dirs = self.dirs + 1;
        } else if str_eq(kind, "symlink") {
            self.symlinks = self.symlinks + 1;
        } else {
            self.files = self.files + 1;
        }
    }
}

/// What an entry's kind asks extraction to do.
#[derive(Clone, Copy, Debug, PartialEq, Eq)]
pub enum EntryAction {
    MakeDir,
    MakeSymlink,
    WriteFile,
}

/// The extraction action for an entry kind; other kinds are refused.
pub fn entry_action(kind: &str) -> (r: Option<EntryAction>)
    ensures
        r == (if kind@ == "dir"@ {
            Some(EntryAction::MakeDir)
        } else if kind@ == "symlink"@ {
            Some(EntryAction::MakeSymlink)
        } else if kind@ == "file"@ {
            Some(EntryAction::WriteFile)
        } else {
            None
        }),
{
    if str_eq(kind, "dir") {
        Some(EntryAction::MakeDir)
    } else if str_eq(kind, "symlink") {
        Some(EntryAction::MakeSymlink)
    } else if str_eq(kind, "file") {
        Some(EntryAction::WriteFile)
    } else {
        None
    }
}

// ─────────────────────────── create checks ───────────────────────────

/// Why a create request was refused before any work.
#[derive(Clone, Copy, Debug, PartialEq, Eq)]
pub enum CreateCheckError {
    /// No input paths were given.
    NoInputs,
    /// Segment size plus parity exceeds the Reed-Solomon shard limit.
    TooManyShards { segment_size: usize, parity: usize },
}

/// Checks a create request and settles its thread count: refused without
/// inputs, or when recovery is on and segment size plus parity exceeds 256
/// shards; a thread count of 0 becomes `cpus`. Returns the recovery
/// volume's path when recovery is on.
pub fn check_create_with(n_inputs: usize, opts: &mut crate::pipeline::CreateOptions, out: &str, cpus: usize) -> (r: Result<
    Option<String>,
    CreateCheckError,
>)
    ensures
        match r {
            Ok(vol) => n_inputs > 0 && !(old(opts).parity > 0 && old(opts).segment_size + old(opts).parity
                > crate::recovery::MAX_TOTAL_SHARDS) && match vol {
                Some(v) => old(opts).parity > 0 && v@ == out@ + ".nvol"@,
                None => old(opts).parity == 0,
            },
            Err(CreateCheckError::NoInputs) => n_inputs == 0,
            Err(CreateCheckError::TooManyShards { segment_size, parity }) => n_inputs > 0 && old(opts).parity > 0
                && old(opts).segment_size + old(opts).parity > crate::recovery::MAX_TOTAL_SHARDS && segment_size
                == old(opts).segment_size && parity == old(opts).parity,
        },
        final(opts).codec == old(opts).codec,
        final(opts).level == old(opts).level,
        final(opts).block_size == old(opts).block_size,
        final(opts).password == old(opts).password,
        final(opts).segment_size == old(opts).segment_size,
        final(opts).parity == old(opts).parity,
        final(opts).quiet == old(opts).quiet,
        final(opts).threads == (if n_inputs > 0 && old(opts).threads == 0 { cpus } else { old(opts).threads }),
{
    if n_inputs == 0 {
        return Err(CreateCheckError::NoInputs);
    }
    if opts.threads == 0 {
        opts.threads = cpus;
    }
    if opts.parity > 0 && (opts.segment_size > crate::recovery::MAX_TOTAL_SHARDS
        || opts.parity > crate::recovery::MAX_TOTAL_SHARDS - opts.segment_size) {
        return Err(CreateCheckError::TooManyShards { segment_size: opts.segment_size, parity: opts.parity });
    }
    if opts.parity > 0 {
        Ok(Some(volume_path_for(out)))
    } else {
        Ok(None)
    }
}

/// `check_create_with` on this machine: a thread count of 0 becomes the
/// number of logical CPUs, which nothing here pins down.
pub fn check_create(n_inputs: usize, opts: &mut crate::pipeline::CreateOptions, out: &str) -> (r: Result<
    Option<String>,
    CreateCheckError,
>)
    ensures
        match r {
            Ok(vol) => n_inputs > 0 && !(old(opts).parity > 0 && old(opts).segment_size + old(opts).parity
                > crate::recovery::MAX_TOTAL_SHARDS) && match vol {
                Some(v) => old(opts).parity > 0 && v@ == out@ + ".nvol"@,
                None => old(opts).parity == 0,
            },
            Err(CreateCheckError::NoInputs) => n_inputs == 0,
            Err(CreateCheckError::TooManyShards { segment_size, parity }) => n_inputs > 0 && old(opts).parity > 0
                && old(opts).segment_size + old(opts).parity > crate::recovery::MAX_TOTAL_SHARDS && segment_size
                == old(opts).segment_size && parity == old(opts).parity,
        },
        final(opts).codec == old(opts).codec,
        final(opts).level == old(opts).level,
        final(opts).block_size == old(opts).block_size,
        final(opts).password == old(opts).password,
        final(opts).segment_size == old(opts).segment_size,
        final(opts).parity == old(opts).parity,
        final(opts).quiet == old(opts).quiet,
        old(opts).threads != 0 || n_inputs == 0 ==> final(opts).threads == old(opts).threads,
        n_inputs > 0 ==> final(opts).threads >= 1,
{
    let cpus = crate::desktop::logical_cpus();
    check_create_with(n_inputs, opts, out, cpus)
}

// ─────────────────────────── repair ───────────────────────────

/// Why a segment could not be repaired.
#[derive(Clone, Copy, Debug, PartialEq, Eq)]
pub enum RepairError {
    /// The volume's data count for the segment differs from the archive's.
    DataCountMismatch { seg: usize },
    /// The Reed-Solomon step failed.
    Recovery(crate::recovery::RecoveryError),
    /// A rebuilt block is shorter than its recorded length.
    RebuiltTooShort { block_id: u64 },
    /// A rebuilt block still fails its checksum.
    RebuiltChecksum { block_id: u64 },
    /// The volume has no parity for a segment of the archive.
    MissingSegment { seg: usize },
}

/// The block header the repair writes for a block-table row.
pub open spec fn repaired_header(be: BlockEntry, encrypted: bool) -> crate::format::BlockHeader {
    crate::format::BlockHeader {
        flags: if encrypted { crate::format::BLOCK_FLAG_ENCRYPTED } else { 0 },
        codec: be.codec,
        block_id: be.id,
        orig_len: be.orig_len,
        stored_len: be.stored_len,
        crc: be.crc,
    }
}

/// The block records (header then payload) of consecutive blocks.
pub open spec fn block_records(entries: Seq<BlockEntry>, payloads: Seq<Seq<u8>>, encrypted: bool) -> Seq<u8>
    decreases entries.len(),
{
    if entries.len() == 0 {
        Seq::empty()
    } else {
        block_records(entries.drop_last(), payloads.drop_last(), encrypted) + crate::format::block_header_encoding(
            repaired_header(entries.last(), encrypted),
        ) + payloads.last()
    }
}

/// The payloads a segment's repair writes: intact lanes as read, lost
/// lanes rebuilt; each matches its row's length and CRC.
pub open spec fn payloads_fit(entries: Seq<BlockEntry>, lanes: Seq<Option<Seq<u8>>>, payloads: Seq<Seq<u8>>) -> bool {
    &&& payloads.len() == entries.len()
    &&& forall|i: int| 0 <= i < entries.len() ==> (#[trigger] payloads[i]).len() == entries[i].stored_len
        && crate::format::crc32(payloads[i]) == entries[i].crc
    &&& forall|i: int| 0 <= i < entries.len() && (#[trigger] lanes[i]) is Some ==> payloads[i] == lanes[i]->0
}

/// Number of lost lanes.
pub open spec fn lost(lanes: Seq<Option<Seq<u8>>>) -> int {
    lanes.len() - crate::recovery::count_present(lanes)
}

/// The premise of the repair law for a segment: valid parameters, a
/// segment of at most `k` rows whose true payloads `p` fit the block table
/// and the intact lanes, volume parity computed over `p` (as
/// `encode_segment` computes it), and at most `m` lost lanes.
pub open spec fn repair_premise(
    k: nat,
    m: nat,
    entries: Seq<BlockEntry>,
    lanes: Seq<Option<Seq<u8>>>,
    parity: Seq<Seq<u8>>,
    p: Seq<Seq<u8>>,
) -> bool {
    &&& crate::recovery::params_valid(k, m)
    &&& entries.len() <= k
    &&& payloads_fit(entries, lanes, p)
    &&& lanes.len() == entries.len()
    &&& crate::recovery::max_len(p) > 0
    &&& parity == crate::recovery::rs_parity(k, m, crate::recovery::segment_data(p, k, crate::recovery::max_len(p)))
    &&& parity.len() == m
    &&& forall|j: int| 0 <= j < m ==> (#[trigger] parity[j]).len() == crate::recovery::max_len(p)
    &&& lost(lanes) <= m
}

proof fn lemma_pad_prefix(x: Seq<u8>, n: nat)
    requires
        x.len() <= n,
    ensures
        crate::recovery::pad(x, n).len() == n,
        crate::recovery::pad(x, n).take(x.len() as int) == x,
{
    assert(crate::recovery::pad(x, n).take(x.len() as int) =~= x);
}

/// Rebuilds one segment of an archive: `entries` are the segment's rows of
/// the block table, `lanes` the payloads read from the damaged archive
/// (`None` where a block is corrupt or missing), `seg` the volume's parity
/// for the segment. Returns the block records to write, in order.
/// Repair law: when the volume's parity was computed over the segment's
/// true payloads and at most `m` lanes are lost, the repair succeeds and
/// the records hold exactly those payloads.
#[verifier::loop_isolation(false)]
pub fn repair_segment(
    k: usize,
    m: usize,
    seg_index: usize,
    entries: &[BlockEntry],
    lanes: Vec<Option<Vec<u8>>>,
    seg: &crate::recovery::SegmentParity,
    encrypted: bool,
) -> (r: Result<Vec<u8>, RepairError>)
    requires
        lanes@.len() == entries@.len(),
        forall|i: int| 0 <= i < lanes@.len() && (#[trigger] lanes@[i]) is Some ==> lanes@[i]->0@.len() == entries@[i].stored_len,
    ensures
        seg.data_count != entries@.len() ==> r == Err::<Vec<u8>, RepairError>(RepairError::DataCountMismatch { seg: seg_index }),
        r matches Ok(out) ==> exists|payloads: Seq<Seq<u8>>|
            payloads_fit(entries@, lanes.deep_view(), payloads) && out@ == block_records(entries@, payloads, encrypted),
        forall|p: Seq<Seq<u8>>|
            seg.data_count == entries@.len() && #[trigger] repair_premise(
                k as nat,
                m as nat,
                entries@,
                lanes.deep_view(),
                seg.parity.deep_view(),
                p,
            ) ==> r is Ok && r->Ok_0@ == block_records(entries@, p, encrypted),
{
    if seg.data_count != entries.len() {
        return Err(RepairError::DataCountMismatch { seg: seg_index });
    }
    let ghost lanes_v = lanes.deep_view();
    let ghost parity_v = seg.parity.deep_view();
    let ghost premise = |p: Seq<Seq<u8>>| repair_premise(k as nat, m as nat, entries@, lanes_v, parity_v, p);
    let rebuilt = match crate::recovery::reconstruct_segment(k, m, lanes.clone(), seg.parity.as_slice()) {
        Ok(r) => r,
        Err(e) => {
            proof {
                assert forall|p: Seq<Seq<u8>>| #[trigger] repair_premise(k as nat, m as nat, entries@, lanes_v, parity_v, p) implies false by {
                    crate::recovery::lemma_segment_repair(k as nat, m as nat, p, lanes_v, parity_v);
                }
            }
            return Err(RepairError::Recovery(e));
        },
    };
    proof {
        assert forall|p: Seq<Seq<u8>>| #[trigger] repair_premise(k as nat, m as nat, entries@, lanes_v, parity_v, p) implies
            (forall|j: int| 0 <= j < lanes@.len() && (#[trigger] lanes@[j]) is None ==> rebuilt.deep_view()[j] == Some(
                crate::recovery::pad(p[j], crate::recovery::max_len(p)),
            )) by {
            crate::recovery::lemma_segment_repair(k as nat, m as nat, p, lanes_v, parity_v);
            let d = crate::recovery::segment_data(p, k as nat, crate::recovery::max_len(p));
            assert forall|j: int| 0 <= j < lanes@.len() && (#[trigger] lanes@[j]) is None implies rebuilt.deep_view()[j] == Some(
                crate::recovery::pad(p[j], crate::recovery::max_len(p)),
            ) by {
                assert(lanes_v[j] == lanes@[j].deep_view());
                assert(d[j] == crate::recovery::pad(p[j], crate::recovery::max_len(p)));
            }
        }
    }
    let mut out: Vec<u8> = Vec::new();
    let ghost mut chosen: Seq<Seq<u8>> = Seq::empty();
    let mut i: usize = 0;
    while i < entries.len()
        invariant
            i <= entries@.len(),
            chosen.len() == i,
            payloads_fit(entries@.take(i as int), lanes_v.take(i as int), chosen),
            forall|p: Seq<Seq<u8>>| #[trigger] repair_premise(k as nat, m as nat, entries@, lanes_v, parity_v, p) ==> chosen == p.take(i as int),
            out@ == block_records(entries@.take(i as int), chosen, encrypted),
        decreases entries@.len() - i,
    {
        let be = entries[i];
        proof {
            assert(lanes_v[i as int] == lanes@[i as int].deep_view());
        }
        let payload: Vec<u8> = match &lanes[i] {
            Some(p) => p.clone(),
            None => match &rebuilt[i] {
                Some(p) => {
                    if p.len() < be.stored_len as usize {
                        proof {
                            assert forall|q: Seq<Seq<u8>>| #[trigger] repair_premise(k as nat, m as nat, entries@, lanes_v, parity_v, q) implies false by {
                                assert(rebuilt.deep_view()[i as int] == rebuilt@[i as int].deep_view());
                                crate::recovery::lemma_max_len_bound(q, i as int);
                                lemma_pad_prefix(q[i as int], crate::recovery::max_len(q));
                            }
                        }
                        return Err(RepairError::RebuiltTooShort { block_id: be.id });
                    }
                    let mut v = p.clone();
                    v.truncate(be.stored_len as usize);
                    v
                },
                None => {
                    assert(false);
                    Vec::new()
                },
            },
        };
        proof {
            assert forall|q: Seq<Seq<u8>>| #[trigger] repair_premise(k as nat, m as nat, entries@, lanes_v, parity_v, q) implies payload@ == q[i as int] by {
                if lanes@[i as int] is None {
                    assert(rebuilt.deep_view()[i as int] == rebuilt@[i as int].deep_view());
                    crate::recovery::lemma_max_len_bound(q, i as int);
                    lemma_pad_prefix(q[i as int], crate::recovery::max_len(q));
                }
            }
        }
        if crate::format::crc32_of(payload.as_slice()) != be.crc {
            return Err(RepairError::RebuiltChecksum { block_id: be.id });
        }
        let hdr = crate::format::BlockHeader {
            flags: if encrypted { crate::format::BLOCK_FLAG_ENCRYPTED } else { 0 },
            codec: be.codec,
            block_id: be.id,
            orig_len: be.orig_len,
            stored_len: be.stored_len,
            crc: be.crc,
        };
        let hb = hdr.to_bytes();
        crate::bytes::push_all(&mut out, hb.as_slice());
        crate::bytes::push_all(&mut out, payload.as_slice());
        assert(payload@.len() == be.stored_len);
        assert(lanes@[i as int] is Some ==> payload@ == lanes_v[i as int]->0);
        proof {
            let old_chosen = chosen;
            chosen = chosen.push(payload@);
            let et = entries@.take(i + 1);
            let lt = lanes_v.take(i + 1);
            assert forall|j: int| 0 <= j < et.len() implies (#[trigger] chosen[j]).len() == et[j].stored_len
                && crate::format::crc32(chosen[j]) == et[j].crc by {
                if j < i {
                    assert(old_chosen[j] == chosen[j]);
                    assert(entries@.take(i as int)[j] == et[j]);
                }
            }
            assert forall|j: int| 0 <= j < et.len() && (#[trigger] lt[j]) is Some implies chosen[j] == lt[j]->0 by {
                if j < i {
                    assert(old_chosen[j] == chosen[j]);
                    assert(lanes_v.take(i as int)[j] == lt[j]);
                }
            }
            assert(entries@.take(i + 1).drop_last() =~= entries@.take(i as int));
            assert(chosen.drop_last() =~= old_chosen);
            assert(lanes_v.take(i + 1).drop_last() =~= lanes_v.take(i as int));
            assert forall|q: Seq<Seq<u8>>| #[trigger] repair_premise(k as nat, m as nat, entries@, lanes_v, parity_v, q) implies chosen == q.take(i + 1) by {
                assert(q.take(i + 1) =~= q.take(i as int).push(q[i as int]));
            }
        }
        i = i + 1;
    }
    proof {
        assert(entries@.take(i as int) =~= entries@);
        assert(lanes_v.take(i as int) =~= lanes_v);
        assert forall|q: Seq<Seq<u8>>| #[trigger] repair_premise(k as nat, m as nat, entries@, lanes_v, parity_v, q) implies chosen == q by {
            assert(q.take(i as int) =~= q);
        }
    }
    Ok(out)
}

// ─────────────────────────── whole-archive repair ───────────────────────────

proof fn lemma_block_records_append(a: Seq<BlockEntry>, pa: Seq<Seq<u8>>, b: Seq<BlockEntry>, pb: Seq<Seq<u8>>, encrypted: bool)
    requires
        a.len() == pa.len(),
        b.len() == pb.len(),
    ensures
        block_records(a + b, pa + pb, encrypted) == block_records(a, pa, encrypted) + block_records(b, pb, encrypted),
    decreases b.len(),
{
    if b.len() == 0 {
        assert(a + b =~= a);
        assert(pa + pb =~= pa);
    } else {
        lemma_block_records_append(a, pa, b.drop_last(), pb.drop_last(), encrypted);
        assert((a + b).drop_last() =~= a + b.drop_last());
        assert((pa + pb).drop_last() =~= pa + pb.drop_last());
        assert((a + b).last() == b.last());
        assert((pa + pb).last() == pb.last());
    }
}

/// The end (exclusive) of the segment that starts at `start`.
pub open spec fn seg_end(start: int, k: int, n: int) -> int {
    if start + k < n {
        start + k
    } else {
        n
    }
}

/// The premise of the repair law for the segments from number `s` on, the
/// first of them starting at row `start`: the volume has each segment,
/// with the archive's data count, and each segment meets `repair_premise`
/// for the true payloads `p`.
pub open spec fn segments_premise(
    k: nat,
    m: nat,
    blocks: Seq<BlockEntry>,
    lanes: Seq<Option<Seq<u8>>>,
    segments: Map<u32, crate::recovery::SegmentParity>,
    p: Seq<Seq<u8>>,
    s: int,
    start: int,
) -> bool
    decreases blocks.len() - start,
{
    if k == 0 || start < 0 {
        false
    } else if start >= blocks.len() {
        true
    } else {
        let end = seg_end(start, k as int, blocks.len() as int);
        &&& segments.contains_key(s as u32)
        &&& segments[s as u32].data_count == end - start
        &&& repair_premise(
            k,
            m,
            blocks.subrange(start, end),
            lanes.subrange(start, end),
            segments[s as u32].parity.deep_view(),
            p.subrange(start, end),
        )
        &&& segments_premise(k, m, blocks, lanes, segments, p, s + 1, end)
    }
}

/// The premise of the repair law for a whole archive.
pub open spec fn archive_repair_premise(
    k: nat,
    m: nat,
    blocks: Seq<BlockEntry>,
    lanes: Seq<Option<Seq<u8>>>,
    segments: Map<u32, crate::recovery::SegmentParity>,
    p: Seq<Seq<u8>>,
) -> bool {
    p.len() == blocks.len() && segments_premise(k, m, blocks, lanes, segments, p, 0, 0)
}

/// Number of missing lanes.
pub open spec fn missing_count(lanes: Seq<Option<Seq<u8>>>) -> nat
    decreases lanes.len(),
{
    if lanes.len() == 0 {
        0
    } else {
        missing_count(lanes.drop_last()) + if lanes.last() is None { 1nat } else { 0nat }
    }
}

proof fn lemma_missing_count_append(a: Seq<Option<Seq<u8>>>, b: Seq<Option<Seq<u8>>>)
    ensures
        missing_count(a + b) == missing_count(a) + missing_count(b),
    decreases b.len(),
{
    if b.len() == 0 {
        assert(a + b =~= a);
    } else {
        lemma_missing_count_append(a, b.drop_last());
        assert((a + b).drop_last() =~= a + b.drop_last());
    }
}

proof fn lemma_missing_count_le(a: Seq<Option<Seq<u8>>>)
    ensures
        missing_count(a) <= a.len(),
    decreases a.len(),
{
    if a.len() > 0 {
        lemma_missing_count_le(a.drop_last());
    }
}

proof fn lemma_payloads_fit_append(
    a: Seq<BlockEntry>,
    la: Seq<Option<Seq<u8>>>,
    pa: Seq<Seq<u8>>,
    b: Seq<BlockEntry>,
    lb: Seq<Option<Seq<u8>>>,
    pb: Seq<Seq<u8>>,
)
    requires
        payloads_fit(a, la, pa),
        payloads_fit(b, lb, pb),
        la.len() == a.len(),
        lb.len() == b.len(),
    ensures
        payloads_fit(a + b, la + lb, pa + pb),
{
    let e = a + b;
    let l = la + lb;
    let q = pa + pb;
    assert forall|i: int| 0 <= i < e.len() implies (#[trigger] q[i]).len() == e[i].stored_len && crate::format::crc32(q[i])
        == e[i].crc by {
        if i >= a.len() {
            assert(q[i] == pb[i - a.len()]);
            assert(e[i] == b[i - a.len()]);
        }
    }
    assert forall|i: int| 0 <= i < e.len() && (#[trigger] l[i]) is Some implies q[i] == l[i]->0 by {
        if i >= a.len() {
            assert(q[i] == pb[i - a.len()]);
            assert(l[i] == lb[i - a.len()]);
        } else {
            assert(q[i] == pa[i]);
            assert(l[i] == la[i]);
        }
    }
}

/// Rebuilds every block record of a damaged archive, segment by segment:
/// `blocks` is the block table, `lanes` the payloads read from the damaged
/// archive (`None` where a block is corrupt or missing), `segments` the
/// volume's parity by segment id. Returns the records to write, in order,
/// and how many blocks had to be rebuilt.
/// Repair law: when the volume holds, for every segment, parity computed
/// over the archive's true payloads and each segment lost at most `m`
/// blocks, the repair succeeds and the records hold exactly the true
/// payloads.
pub fn repair_blocks(
    k: usize,
    m: usize,
    blocks: &[BlockEntry],
    lanes: Vec<Option<Vec<u8>>>,
    segments: &std::collections::HashMap<u32, crate::recovery::SegmentParity>,
    encrypted: bool,
) -> (r: Result<(Vec<u8>, usize), RepairError>)
    requires
        k > 0,
        lanes@.len() == blocks@.len(),
        forall|i: int| 0 <= i < lanes@.len() && (#[trigger] lanes@[i]) is Some ==> lanes@[i]->0@.len() == blocks@[i].stored_len,
    ensures
        r matches Ok((out, n)) ==> n == missing_count(lanes.deep_view()) && exists|payloads: Seq<Seq<u8>>|
            payloads_fit(blocks@, lanes.deep_view(), payloads) && out@ == block_records(blocks@, payloads, encrypted),
        forall|p: Seq<Seq<u8>>|
            #[trigger] archive_repair_premise(k as nat, m as nat, blocks@, lanes.deep_view(), segments@, p) ==> r is Ok
                && r->Ok_0.0@ == block_records(blocks@, p, encrypted),
{
    broadcast use vstd::std_specs::hash::group_hash_axioms;
    let ghost lanes_v = lanes.deep_view();
    let ghost segs = segments@;
    let ghost prem = |p: Seq<Seq<u8>>| archive_repair_premise(k as nat, m as nat, blocks@, lanes_v, segs, p);
    let n = blocks.len();
    let mut out: Vec<u8> = Vec::new();
    let mut repaired: usize = 0;
    let ghost mut chosen: Seq<Seq<u8>> = Seq::empty();
    let mut start: usize = 0;
    let mut s: usize = 0;
    assert(blocks@.take(0) =~= Seq::<BlockEntry>::empty());
    assert(lanes_v.take(0) =~= Seq::<Option<Seq<u8>>>::empty());
    while start < n
        invariant
            k > 0,
            n == blocks@.len(),
            lanes@.len() == n,
            lanes_v == lanes.deep_view(),
            segs == segments@,
            forall|i: int| 0 <= i < lanes@.len() && (#[trigger] lanes@[i]) is Some ==> lanes@[i]->0@.len() == blocks@[i].stored_len,
            start <= n,
            s <= start,
            chosen.len() == start,
            payloads_fit(blocks@.take(start as int), lanes_v.take(start as int), chosen),
            out@ == block_records(blocks@.take(start as int), chosen, encrypted),
            repaired == missing_count(lanes_v.take(start as int)),
            forall|p: Seq<Seq<u8>>| #[trigger] archive_repair_premise(k as nat, m as nat, blocks@, lanes_v, segs, p) ==> chosen == p.take(start as int)
                && segments_premise(k as nat, m as nat, blocks@, lanes_v, segs, p, s as int, start as int),
        decreases n - start,
    {
        let end: usize = if n - start > k { start + k } else { n };
        assert(end == seg_end(start as int, k as int, n as int));
        let sid: u32 = #[verifier::truncate] (s as u32);
        let seg = match segments.get(&sid) {
            Some(sp) => sp,
            None => {
                proof {
                    assert forall|p: Seq<Seq<u8>>| #[trigger] archive_repair_premise(k as nat, m as nat, blocks@, lanes_v, segs, p) implies false by {
                        assert(segments_premise(k as nat, m as nat, blocks@, lanes_v, segs, p, s as int, start as int));
                    }
                }
                return Err(RepairError::MissingSegment { seg: s });
            },
        };
        let entries = vstd::slice::slice_subrange(blocks, start, end);
        let mut seg_lanes: Vec<Option<Vec<u8>>> = Vec::new();
        let mut j: usize = start;
        while j < end
            invariant
                start <= j <= end <= n,
                lanes@.len() == n,
                lanes_v == lanes.deep_view(),
                seg_lanes.deep_view() == lanes_v.subrange(start as int, j as int),
                seg_lanes@.len() == j - start,
                forall|i: int| 0 <= i < seg_lanes@.len() && (#[trigger] seg_lanes@[i]) is Some ==> seg_lanes@[i]->0@.len()
                    == blocks@[start + i].stored_len,
                forall|i: int| 0 <= i < lanes@.len() && (#[trigger] lanes@[i]) is Some ==> lanes@[i]->0@.len() == blocks@[i].stored_len,
            decreases end - j,
        {
            let l = lanes[j].clone();
            proof {
                assert(lanes_v[j as int] == lanes@[j as int].deep_view());
            }
            let ghost before = seg_lanes.deep_view();
            seg_lanes.push(l);
            proof {
                assert(seg_lanes.deep_view() =~= before.push(lanes_v[j as int]));
                assert(lanes_v.subrange(start as int, j + 1) =~= lanes_v.subrange(start as int, j as int).push(lanes_v[j as int]));
            }
            j = j + 1;
        }
        assert(entries@ =~= blocks@.subrange(start as int, end as int));
        let ghost seg_lanes_v = seg_lanes.deep_view();
        let ghost seg_missing = missing_count(seg_lanes_v);
        let recs = match repair_segment(k, m, s, entries, seg_lanes, seg, encrypted) {
            Ok(x) => x,
            Err(e) => {
                proof {
                    assert forall|p: Seq<Seq<u8>>| #[trigger] archive_repair_premise(k as nat, m as nat, blocks@, lanes_v, segs, p) implies false by {
                        assert(segments_premise(k as nat, m as nat, blocks@, lanes_v, segs, p, s as int, start as int));
                        assert(repair_premise(
                            k as nat,
                            m as nat,
                            entries@,
                            seg_lanes_v,
                            seg.parity.deep_view(),
                            p.subrange(start as int, end as int),
                        ));
                    }
                }
                return Err(e);
            },
        };
        let ghost seg_pay = choose|payloads: Seq<Seq<u8>>|
            payloads_fit(entries@, seg_lanes_v, payloads) && recs@ == block_records(entries@, payloads, encrypted);
        proof {
            lemma_missing_count_le(seg_lanes_v);
            lemma_missing_count_le(lanes_v.take(start as int));
            assert forall|p: Seq<Seq<u8>>| #[trigger] archive_repair_premise(k as nat, m as nat, blocks@, lanes_v, segs, p) implies seg_pay
                == p.subrange(start as int, end as int) by {
                assert(segments_premise(k as nat, m as nat, blocks@, lanes_v, segs, p, s as int, start as int));
                assert(repair_premise(
                    k as nat,
                    m as nat,
                    entries@,
                    seg_lanes_v,
                    seg.parity.deep_view(),
                    p.subrange(start as int, end as int),
                ));
                lemma_records_inject(entries@, seg_pay, p.subrange(start as int, end as int), encrypted);
            }
        }
        let mut cnt: usize = 0;
        let mut t: usize = start;
        while t < end
            invariant
                start <= t <= end <= n,
                lanes@.len() == n,
                lanes_v == lanes.deep_view(),
                cnt == missing_count(lanes_v.subrange(start as int, t as int)),
                cnt <= t - start,
            decreases end - t,
        {
            proof {
                assert(lanes_v.subrange(start as int, t + 1).drop_last() =~= lanes_v.subrange(start as int, t as int));
                assert(lanes_v[t as int] == lanes@[t as int].deep_view());
            }
            if lanes[t].is_none() {
                cnt = cnt + 1;
            }
            t = t + 1;
        }
        crate::bytes::push_all(&mut out, recs.as_slice());
        proof {
            lemma_block_records_append(blocks@.take(start as int), chosen, entries@, seg_pay, encrypted);
            lemma_payloads_fit_append(blocks@.take(start as int), lanes_v.take(start as int), chosen, entries@, seg_lanes_v, seg_pay);
            lemma_missing_count_append(lanes_v.take(start as int), lanes_v.subrange(start as int, end as int));
            assert(blocks@.take(start as int) + entries@ =~= blocks@.take(end as int));
            assert(lanes_v.take(start as int) + lanes_v.subrange(start as int, end as int) =~= lanes_v.take(end as int));
            assert(seg_lanes_v =~= lanes_v.subrange(start as int, end as int));
            chosen = chosen + seg_pay;
            assert forall|p: Seq<Seq<u8>>| #[trigger] archive_repair_premise(k as nat, m as nat, blocks@, lanes_v, segs, p) implies chosen
                == p.take(end as int) && segments_premise(k as nat, m as nat, blocks@, lanes_v, segs, p, s + 1, end as int) by {
                assert(segments_premise(k as nat, m as nat, blocks@, lanes_v, segs, p, s as int, start as int));
                assert(p.take(start as int) + p.subrange(start as int, end as int) =~= p.take(end as int));
            }
        }
        repaired = repaired + cnt;
        start = end;
        s = s + 1;
    }
    proof {
        assert(blocks@.take(n as int) =~= blocks@);
        assert(lanes_v.take(n as int) =~= lanes_v);
        assert forall|p: Seq<Seq<u8>>| #[trigger] archive_repair_premise(k as nat, m as nat, blocks@, lanes_v, segs, p) implies chosen == p by {
            assert(p.take(n as int) =~= p);
        }
    }
    Ok((out, repaired))
}

proof fn lemma_records_inject(entries: Seq<BlockEntry>, a: Seq<Seq<u8>>, b: Seq<Seq<u8>>, encrypted: bool)
    requires
        a.len() == entries.len(),
        b.len() == entries.len(),
        forall|i: int| 0 <= i < entries.len() ==> (#[trigger] a[i]).len() == entries[i].stored_len,
        forall|i: int| 0 <= i < entries.len() ==> (#[trigger] b[i]).len() == entries[i].stored_len,
        block_records(entries, a, encrypted) == block_records(entries, b, encrypted),
    ensures
        a == b,
    decreases entries.len(),
{
    if entries.len() > 0 {
        let n = entries.len() - 1;
        let pre_a = block_records(entries.drop_last(), a.drop_last(), encrypted);
        let pre_b = block_records(entries.drop_last(), b.drop_last(), encrypted);
        let h = crate::format::block_header_encoding(repaired_header(entries.last(), encrypted));
        lemma_records_len(entries.drop_last(), a.drop_last(), encrypted);
        lemma_records_len(entries.drop_last(), b.drop_last(), encrypted);
        assert(pre_a.len() == pre_b.len());
        let ra = block_records(entries, a, encrypted);
        assert(ra == pre_a + h + a.last());
        assert((pre_a + h + a.last()).subrange(0, pre_a.len() as int) =~= pre_a);
        assert((pre_b + h + b.last()).subrange(0, pre_b.len() as int) =~= pre_b);
        assert((pre_a + h + a.last()).subrange((pre_a.len() + h.len()) as int, ra.len() as int) =~= a.last());
        assert((pre_b + h + b.last()).subrange((pre_b.len() + h.len()) as int, ra.len() as int) =~= b.last());
        assert forall|i: int| 0 <= i < entries.drop_last().len() implies (#[trigger] a.drop_last()[i]).len() == entries.drop_last()[i].stored_len by {
            assert(a.drop_last()[i] == a[i]);
        }
        assert forall|i: int| 0 <= i < entries.drop_last().len() implies (#[trigger] b.drop_last()[i]).len() == entries.drop_last()[i].stored_len by {
            assert(b.drop_last()[i] == b[i]);
        }
        lemma_records_inject(entries.drop_last(), a.drop_last(), b.drop_last(), encrypted);
        assert(a =~= a.drop_last().push(a.last()));
        assert(b =~= b.drop_last().push(b.last()));
    } else {
        assert(a =~= b);
    }
}

proof fn lemma_records_len(entries: Seq<BlockEntry>, p: Seq<Seq<u8>>, encrypted: bool)
    requires
        p.len() == entries.len(),
        forall|i: int| 0 <= i < entries.len() ==> (#[trigger] p[i]).len() == entries[i].stored_len,
    ensures
        block_records(entries, p, encrypted).len() == records_len(entries),
        records_len(entries) + 60 == crate::recovery::block_offset(entries, entries.len() as int),
    decreases entries.len(),
{
    if entries.len() > 0 {
        assert forall|i: int| 0 <= i < entries.drop_last().len() implies (#[trigger] p.drop_last()[i]).len() == entries.drop_last()[i].stored_len by {
            assert(p.drop_last()[i] == p[i]);
        }
        lemma_records_len(entries.drop_last(), p.drop_last(), encrypted);
        crate::format::lemma_block_header_roundtrip(repaired_header(entries.last(), encrypted));
        crate::recovery::lemma_block_offset_prefix(entries.drop_last(), entries, entries.len() - 1);
    }
}

/// Total length of the records of `entries`: a 28-byte header plus the
/// stored payload each.
pub open spec fn records_len(entries: Seq<BlockEntry>) -> nat
    decreases entries.len(),
{
    if entries.len() == 0 {
        0
    } else {
        records_len(entries.drop_last()) + 28 + entries.last().stored_len as nat
    }
}

/// Repair writes the same record header that create wrote for a block:
/// the header `write_block` gives a stored block is the one the repair
/// rebuilds from the block's table row.
pub proof fn lemma_repair_header_matches_create(b: crate::pipeline::StoredBlock)
    ensures
        repaired_header(crate::pipeline::entry_of(b), b.encrypted) == crate::pipeline::header_of(b),
{
}

/// The reader finds every block where the writer put it: in the records of
/// a block table, written back to back after the 60-byte archive header,
/// block `i`'s header starts at `block_offset(i)` (what `block_offsets`
/// computes) and its payload follows it.
pub proof fn lemma_record_at_offset(entries: Seq<BlockEntry>, payloads: Seq<Seq<u8>>, encrypted: bool, i: int)
    requires
        payloads.len() == entries.len(),
        forall|j: int| 0 <= j < entries.len() ==> (#[trigger] payloads[j]).len() == entries[j].stored_len,
        0 <= i < entries.len(),
    ensures
        ({
            let recs = block_records(entries, payloads, encrypted);
            let off = crate::recovery::block_offset(entries, i) - 60;
            &&& 0 <= off
            &&& off + 28 + entries[i].stored_len <= recs.len()
            &&& recs.subrange(off, off + 28) == crate::format::block_header_encoding(repaired_header(entries[i], encrypted))
            &&& recs.subrange(off + 28, off + 28 + entries[i].stored_len) == payloads[i]
        }),
    decreases entries.len(),
{
    let n = entries.len() - 1;
    let pre_e = entries.drop_last();
    let pre_p = payloads.drop_last();
    assert forall|j: int| 0 <= j < pre_e.len() implies (#[trigger] pre_p[j]).len() == pre_e[j].stored_len by {
        assert(pre_p[j] == payloads[j]);
    }
    lemma_records_len(pre_e, pre_p, encrypted);
    lemma_records_len(entries, payloads, encrypted);
    crate::format::lemma_block_header_roundtrip(repaired_header(entries.last(), encrypted));
    let pre = block_records(pre_e, pre_p, encrypted);
    let h = crate::format::block_header_encoding(repaired_header(entries.last(), encrypted));
    let recs = block_records(entries, payloads, encrypted);
    assert(recs == pre + h + payloads.last());
    if i == n {
        crate::recovery::lemma_block_offset_prefix(pre_e, entries, n);
        let pl = pre.len() as int;
        assert(recs.subrange(pl, pl + 28) =~= h);
        assert(recs.subrange(pl + 28, pl + 28 + entries[i].stored_len) =~= payloads.last());
    } else {
        lemma_record_at_offset(pre_e, pre_p, encrypted, i);
        crate::recovery::lemma_block_offset_prefix(pre_e, entries, i);
        crate::recovery::lemma_block_offset_prefix(pre_e, entries, n);
        crate::recovery::lemma_block_offset_mono(entries, i + 1, n);
        let off = crate::recovery::block_offset(entries, i) - 60;
        assert(recs.subrange(off, off + 28) =~= pre.subrange(off, off + 28));
        assert(recs.subrange(off + 28, off + 28 + entries[i].stored_len) =~= pre.subrange(off + 28, off + 28 + entries[i].stored_len));
        assert(pre_e[i] == entries[i]);
        assert(pre_p[i] == payloads[i]);
    }
}

/// The header of a rebuilt archive: the input header with the index
/// placed right after `records` bytes of block records.
pub open spec fn patched_header(h: ArchiveHeader, records: nat, index_len: nat) -> ArchiveHeader {
    ArchiveHeader {
        version: h.version,
        flags: h.flags,
        codec: h.codec,
        level: h.level,
        block_size: h.block_size,
        segment_size: h.segment_size,
        parity: h.parity,
        salt: h.salt,
        index_offset: (60 + records) as u64,
        index_len: index_len as u64,
    }
}

/// The bytes of a rebuilt archive: the patched header, the block records,
/// and the index block copied as it was.
pub open spec fn rebuilt_archive(h: ArchiveHeader, blocks: Seq<BlockEntry>, payloads: Seq<Seq<u8>>, index_bytes: Seq<u8>) -> Seq<u8> {
    let records = block_records(blocks, payloads, h.flags & crate::format::FLAG_ENCRYPTED != 0);
    crate::format::header_encoding(patched_header(h, records.len(), index_bytes.len())) + records + index_bytes
}

/// The records `write_block` returns for `blocks`, one after another.
pub open spec fn written_records(blocks: Seq<crate::pipeline::StoredBlock>) -> Seq<u8>
    decreases blocks.len(),
{
    if blocks.len() == 0 {
        Seq::empty()
    } else {
        written_records(blocks.drop_last()) + crate::format::block_header_encoding(
            crate::pipeline::header_of(blocks.last()),
        ) + blocks.last().payload@
    }
}

/// An archive as `create` lays it out: the header with the index placed
/// after the block records, the records `write_block` returned in id
/// order, then the index block.
pub open spec fn created_archive(h: ArchiveHeader, blocks: Seq<crate::pipeline::StoredBlock>, index_bytes: Seq<u8>) -> Seq<u8> {
    let records = written_records(blocks);
    crate::format::header_encoding(patched_header(h, records.len(), index_bytes.len())) + records + index_bytes
}

/// The block-table rows of `blocks`.
pub open spec fn entries_of(blocks: Seq<crate::pipeline::StoredBlock>) -> Seq<BlockEntry> {
    Seq::new(blocks.len(), |i: int| crate::pipeline::entry_of(blocks[i]))
}

proof fn lemma_block_records_written(blocks: Seq<crate::pipeline::StoredBlock>, encrypted: bool)
    requires
        forall|i: int| 0 <= i < blocks.len() ==> (#[trigger] blocks[i]).encrypted == encrypted,
        forall|i: int| 0 <= i < blocks.len() ==> (#[trigger] blocks[i]).payload@.len() <= u32::MAX,
    ensures
        block_records(entries_of(blocks), crate::pipeline::payloads_of(blocks), encrypted) == written_records(blocks),
    decreases blocks.len(),
{
    if blocks.len() > 0 {
        let init = blocks.drop_last();
        assert forall|i: int| 0 <= i < init.len() implies (#[trigger] init[i]).encrypted == encrypted
            && init[i].payload@.len() <= u32::MAX by {
            assert(init[i] == blocks[i]);
        }
        lemma_block_records_written(init, encrypted);
        assert(entries_of(blocks).drop_last() =~= entries_of(init));
        assert(crate::pipeline::payloads_of(blocks).drop_last() =~= crate::pipeline::payloads_of(init));
        let b = blocks.last();
        assert(b == blocks[blocks.len() - 1]);
        assert(repaired_header(crate::pipeline::entry_of(b), encrypted) == crate::pipeline::header_of(b));
    }
}

/// Create then repair: the archive that the repair rebuilds from the block
/// table, the true payloads and the index block is byte for byte the
/// archive that `create` wrote, whatever index position the header copy
/// it starts from carries.
pub proof fn lemma_repair_rebuilds_created(h: ArchiveHeader, blocks: Seq<crate::pipeline::StoredBlock>, index_bytes: Seq<u8>)
    requires
        forall|i: int|
            0 <= i < blocks.len() ==> (#[trigger] blocks[i]).encrypted == (h.flags & crate::format::FLAG_ENCRYPTED != 0),
        forall|i: int| 0 <= i < blocks.len() ==> (#[trigger] blocks[i]).payload@.len() <= u32::MAX,
    ensures
        rebuilt_archive(h, entries_of(blocks), crate::pipeline::payloads_of(blocks), index_bytes) == created_archive(
            h,
            blocks,
            index_bytes,
        ),
{
    lemma_block_records_written(blocks, h.flags & crate::format::FLAG_ENCRYPTED != 0);
}

/// Rebuilds a damaged archive from its recovery volume: `header` and
/// `blocks` come from the archive (or from the volume's copies when the
/// archive's are unreadable), `index_bytes` is the index block written
/// back unchanged, `lanes` the payloads read from the damaged archive.
/// Returns the repaired archive's bytes and what the repair did.
/// Repair law: when the volume's parity was computed over the archive's
/// true payloads and no segment lost more than the volume's parity count,
/// the result is the archive with exactly those payloads.
pub fn repair_archive(
    header: &ArchiveHeader,
    blocks: &[BlockEntry],
    index_bytes: &[u8],
    volume: &crate::recovery::Volume,
    lanes: Vec<Option<Vec<u8>>>,
) -> (r: Result<(Vec<u8>, RepairStats), RepairError>)
    requires
        volume.k > 0,
        lanes@.len() == blocks@.len(),
        forall|i: int| 0 <= i < lanes@.len() && (#[trigger] lanes@[i]) is Some ==> lanes@[i]->0@.len() == blocks@[i].stored_len,
        crate::recovery::block_offset(blocks@, blocks@.len() as int) + index_bytes@.len() <= u64::MAX,
    ensures
        r matches Ok((out, st)) ==> {
            &&& st.total_blocks == blocks@.len()
            &&& st.repaired == missing_count(lanes.deep_view())
            &&& st.out_size == out@.len()
            &&& exists|payloads: Seq<Seq<u8>>|
                payloads_fit(blocks@, lanes.deep_view(), payloads) && out@ == rebuilt_archive(*header, blocks@, payloads, index_bytes@)
        },
        forall|p: Seq<Seq<u8>>|
            #[trigger] archive_repair_premise(volume.k as nat, volume.m as nat, blocks@, lanes.deep_view(), volume.segments@, p)
                ==> r is Ok && r->Ok_0.0@ == rebuilt_archive(*header, blocks@, p, index_bytes@),
{
    let ghost lanes_v = lanes.deep_view();
    let encrypted = header.encrypted();
    let (records, repaired) = match repair_blocks(volume.k, volume.m, blocks, lanes, &volume.segments, encrypted) {
        Ok(x) => x,
        Err(e) => return Err(e),
    };
    let ghost pay = choose|payloads: Seq<Seq<u8>>|
        payloads_fit(blocks@, lanes_v, payloads) && records@ == block_records(blocks@, payloads, encrypted);
    proof {
        lemma_records_len(blocks@, pay, encrypted);
    }
    let mut h = *header;
    h.index_offset = crate::format::HEADER_LEN + records.len() as u64;
    h.index_len = index_bytes.len() as u64;
    let mut out = h.to_bytes();
    crate::bytes::push_all(&mut out, records.as_slice());
    crate::bytes::push_all(&mut out, index_bytes);
    proof {
        assert(h == patched_header(*header, records@.len(), index_bytes@.len()));
        assert forall|p: Seq<Seq<u8>>| #[trigger] archive_repair_premise(volume.k as nat, volume.m as nat, blocks@, lanes_v, volume.segments@, p) implies out@
            == rebuilt_archive(*header, blocks@, p, index_bytes@) by {
            assert(block_records(blocks@, p, encrypted) == records@);
        }
    }
    let total_blocks = blocks.len();
    let out_size = out.len() as u64;
    Ok((out, RepairStats { total_blocks, repaired, out_size }))
}

// ─────────────────────────── summaries ───────────────────────────

/// Entries of a given kind.
pub open spec fn count_kind(files: Seq<FileEntry>, kind: Seq<char>) -> nat
    decreases files.len(),
{
    if files.len() == 0 {
        0
    } else {
        count_kind(files.drop_last(), kind) + if files.last().kind@ == kind {
            1nat
        } else {
            0nat
        }
    }
}

/// Total size of the regular files.
pub open spec fn file_bytes(files: Seq<FileEntry>) -> nat
    decreases files.len(),
{
    if files.len() == 0 {
        0
    } else {
        file_bytes(files.drop_last()) + if files.last().kind@ == "file"@ {
            files.last().size as nat
        } else {
            0nat
        }
    }
}

/// What `info` reports of an index.
pub struct IndexSummary {
    pub files: usize,
    pub dirs: usize,
    pub symlinks: usize,
    pub data_blocks: usize,
    pub logical_size: u64,
}

/// Counts the files, directories and symlinks of an index, its data
/// blocks, and the total size of its regular files.
pub fn summarize(index: &Index) -> (s: IndexSummary)
    requires
        file_bytes(index.files@) <= u64::MAX,
    ensures
        s.files == count_kind(index.files@, "file"@),
        s.dirs == count_kind(index.files@, "dir"@),
        s.symlinks == count_kind(index.files@, "symlink"@),
        s.data_blocks == index.blocks@.len(),
        s.logical_size == file_bytes(index.files@),
{
    let mut files: usize = 0;
    let mut dirs: usize = 0;
    let mut symlinks: usize = 0;
    let mut bytes: u64 = 0;
    let mut i: usize = 0;
    while i < index.files.len()
        invariant
            i <= index.files@.len(),
            file_bytes(index.files@) <= u64::MAX,
            files == count_kind(index.files@.take(i as int), "file"@),
            dirs == count_kind(index.files@.take(i as int), "dir"@),
            symlinks == count_kind(index.files@.take(i as int), "symlink"@),
            bytes == file_bytes(index.files@.take(i as int)),
            files <= i && dirs <= i && symlinks <= i,
        decreases index.files@.len() - i,
    {
        let f = &index.files[i];
        proof {
            assert(index.files@.take(i + 1).drop_last() =~= index.files@.take(i as int));
            assert(index.files@.take(i + 1).last() == index.files@[i as int]);
            lemma_file_bytes_prefix(index.files@, i + 1);
            reveal_strlit("file");
            reveal_strlit("dir");
            reveal_strlit("symlink");
            assert("file"@.len() == 4);
            assert("dir"@.len() == 3);
            assert("symlink"@.len() == 7);
        }
        if str_eq(f.kind.as_str(), "file") {
            files = files + 1;
            bytes = bytes + f.size;
        } else if str_eq(f.kind.as_str(), "dir") {
            dirs = dirs + 1;
        } else if str_eq(f.kind.as_str(), "symlink") {
            symlinks = symlinks + 1;
        }
        i = i + 1;
    }
    assert(index.files@.take(i as int) =~= index.files@);
    IndexSummary { files, dirs, symlinks, data_blocks: index.blocks.len(), logical_size: bytes }
}

proof fn lemma_file_bytes_prefix(files: Seq<FileEntry>, n: int)
    requires
        0 <= n <= files.len(),
    ensures
        file_bytes(files.take(n)) <= file_bytes(files),
    decreases files.len() - n,
{
    if n < files.len() {
        lemma_file_bytes_prefix(files, n + 1);
        assert(files.take(n + 1).drop_last() =~= files.take(n));
    } else {
        assert(files.take(n) =~= files);
    }
}

/// Total original and stored lengths of a block table.
pub open spec fn block_totals_spec(blocks: Seq<BlockEntry>) -> (nat, nat)
    decreases blocks.len(),
{
    if blocks.len() == 0 {
        (0, 0)
    } else {
        let t = block_totals_spec(blocks.drop_last());
        (t.0 + blocks.last().orig_len as nat, t.1 + blocks.last().stored_len as nat)
    }
}

proof fn lemma_block_totals_bound(blocks: Seq<BlockEntry>)
    ensures
        block_totals_spec(blocks).0 <= blocks.len() * 0xffff_ffff,
        block_totals_spec(blocks).1 <= blocks.len() * 0xffff_ffff,
    decreases blocks.len(),
{
    if blocks.len() > 0 {
        lemma_block_totals_bound(blocks.drop_last());
    }
}

/// Total original and stored lengths of a block table (the Inspect view
/// shows their ratio).
pub fn block_totals(blocks: &[BlockEntry]) -> (r: (u64, u64))
    requires
        blocks@.len() <= u32::MAX,
    ensures
        r.0 == block_totals_spec(blocks@).0,
        r.1 == block_totals_spec(blocks@).1,
{
    let mut orig: u64 = 0;
    let mut stored: u64 = 0;
    let mut i: usize = 0;
    while i < blocks.len()
        invariant
            i <= blocks@.len(),
            blocks@.len() <= u32::MAX,
            orig == block_totals_spec(blocks@.take(i as int)).0,
            stored == block_totals_spec(blocks@.take(i as int)).1,
        decreases blocks@.len() - i,
    {
        proof {
            assert(blocks@.take(i + 1).drop_last() =~= blocks@.take(i as int));
            lemma_block_totals_bound(blocks@.take(i + 1));
            assert((i + 1) * 0xffff_ffff <= 0xffff_ffff * 0xffff_ffff) by (nonlinear_arith)
                requires
                    i + 1 <= 0xffff_ffff,
            ;
        }
        orig = orig + blocks[i].orig_len as u64;
        stored = stored + blocks[i].stored_len as u64;
        i = i + 1;
    }
    assert(blocks@.take(i as int) =~= blocks@);
    (orig, stored)
}

/// How deep an index path sits (how many `/` it holds) and the name it
/// shows in the file tree (the text after its last `/`).
pub open spec fn tree_row_spec(p: Seq<char>) -> (nat, Seq<char>)
    decreases p.len(),
{
    if p.len() == 0 {
        (0, Seq::empty())
    } else if p.last() == '/' {
        (tree_row_spec(p.drop_last()).0 + 1, Seq::empty())
    } else {
        let t = tree_row_spec(p.drop_last());
        (t.0, t.1.push(p.last()))
    }
}

/// The depth and the shown name of an index path in the file tree.
pub fn tree_row(path: &str) -> (r: (usize, String))
    ensures
        r.0 == tree_row_spec(path@).0,
        r.1@ == tree_row_spec(path@).1,
{
    let cs = chars_of(path);
    let mut depth: usize = 0;
    let mut name: Vec<char> = Vec::new();
    let mut i: usize = 0;
    while i < cs.len()
        invariant
            i <= cs@.len(),
            cs@ == path@,
            depth == tree_row_spec(path@.take(i as int)).0,
            name@ == tree_row_spec(path@.take(i as int)).1,
            depth <= i,
        decreases cs@.len() - i,
    {
        assert(path@.take(i + 1).drop_last() =~= path@.take(i as int));
        if cs[i] == '/' {
            depth = depth + 1;
            name = Vec::new();
        } else {
            name.push(cs[i]);
        }
        i = i + 1;
    }
    assert(path@.take(i as int) =~= path@);
    (depth, string_from_chars(name.as_slice()))
}

/// The mode recorded for an item on Windows, where only the read-only
/// attribute stands for permission bits: 0o755 for a folder, 0o444 for a
/// read-only file, 0o644 otherwise.
pub fn windows_mode(is_dir: bool, readonly: bool) -> (r: u32)
    ensures
        r == (if is_dir { 0o755u32 } else if readonly { 0o444u32 } else { 0o644u32 }),
{
    if is_dir {
        0o755
    } else if readonly {
        0o444
    } else {
        0o644
    }
}

/// Whether extraction on Windows marks an item read-only: its mode grants
/// write permission to no one.
pub fn restores_readonly(mode: u32) -> (r: bool)
    ensures
        r == (mode & 0o222 == 0),
{
    mode & 0o222 == 0
}

} // verus!
