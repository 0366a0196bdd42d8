//! Path text read the way `std::path::Path` reads it: the last component
//! (trailing separators and `.` components aside), the parent, file stems
//! and extensions, and the names the program derives from an archive's
//! path. `/` separates components everywhere, `\` also on Windows (`win`),
//! where a drive `X:` may lead the path.

use vstd::prelude::*;

use crate::text::{chars_eq, chars_of, copy_str, push_str, string_from_chars};

verus! {

/// A path separator.
pub open spec fn is_sep(c: char, win: bool) -> bool {
    c == '/' || (win && c == '\\')
}

fn is_sep_exec(c: char, win: bool) -> (r: bool)
    ensures
        r == is_sep(c, win),
{
    c == '/' || (win && c == '\\')
}

/// Where the last component of `p` starts: just past its last separator
/// (0 when there is none).
pub open spec fn name_start(p: Seq<char>, win: bool) -> int
    decreases p.len(),
{
    if p.len() == 0 {
        0
    } else if is_sep(p.last(), win) {
        p.len() as int
    } else {
        name_start(p.drop_last(), win)
    }
}

proof fn lemma_name_start_of(p: Seq<char>, k: int, win: bool)
    requires
        0 <= k <= p.len(),
        forall|i: int| k <= i < p.len() ==> !is_sep(#[trigger] p[i], win),
        k > 0 ==> is_sep(p[k - 1], win),
    ensures
        name_start(p, win) == k,
    decreases p.len(),
{
    if p.len() > k {
        assert(!is_sep(p[p.len() - 1], win));
        lemma_name_start_of(p.drop_last(), k, win);
    }
}

/// Where the last component of `p` starts.
pub fn find_name_start(p: &[char], win: bool) -> (r: usize)
    ensures
        r == name_start(p@, win),
        r <= p@.len(),
{
    let mut k: usize = p.len();
    while k > 0 && !is_sep_exec(p[k - 1], win)
        invariant
            k <= p@.len(),
            forall|i: int| k <= i < p@.len() ==> !is_sep(#[trigger] p@[i], win),
        decreases k,
    {
        k = k - 1;
    }
    proof {
        lemma_name_start_of(p@, k as int, win);
    }
    k
}

/// An ASCII letter.
pub open spec fn is_ascii_letter(c: char) -> bool {
    ('a' <= c && c <= 'z') || ('A' <= c && c <= 'Z')
}

/// Length of the part of `p` that says where it is rooted: on Windows a
/// drive `X:` and then one separator if one follows; elsewhere a leading
/// separator. Trimming never cuts into it.
pub open spec fn root_len(p: Seq<char>, win: bool) -> int {
    let d: int = if win && p.len() >= 2 && p[1] == ':' && is_ascii_letter(p[0]) {
        2
    } else {
        0
    };
    if p.len() > d && is_sep(p[d], win) {
        d + 1
    } else {
        d
    }
}

/// Whether `p` ends, past its root, with a separator or a `.` component:
/// text that names no further component.
pub open spec fn trailing_noise(p: Seq<char>, win: bool) -> bool {
    &&& p.len() > root_len(p, win)
    &&& (is_sep(p.last(), win) || (p.last() == '.' && p.len() >= 2 && is_sep(p[p.len() - 2], win)))
}

/// Where `p` ends once trailing separators and `.` components are dropped.
pub open spec fn tail_end(p: Seq<char>, win: bool) -> int
    decreases p.len(),
{
    if trailing_noise(p, win) {
        tail_end(p.drop_last(), win)
    } else {
        p.len() as int
    }
}

proof fn lemma_root_len_take(p: Seq<char>, k: int, win: bool)
    requires
        root_len(p, win) <= k <= p.len(),
    ensures
        root_len(p.take(k), win) == root_len(p, win),
{
    let q = p.take(k);
    if k >= 1 {
        assert(q[0] == p[0]);
    }
    if k >= 2 {
        assert(q[1] == p[1]);
    }
    if k >= 3 {
        assert(q[2] == p[2]);
    }
}

proof fn lemma_root_len_bound(p: Seq<char>, win: bool)
    ensures
        0 <= root_len(p, win) <= p.len(),
{
}

proof fn lemma_tail_end_bounds(p: Seq<char>, win: bool)
    ensures
        root_len(p, win) <= tail_end(p, win) <= p.len(),
    decreases p.len(),
{
    lemma_root_len_bound(p, win);
    if trailing_noise(p, win) {
        lemma_root_len_take(p, p.len() - 1, win);
        assert(p.take(p.len() - 1) =~= p.drop_last());
        lemma_tail_end_bounds(p.drop_last(), win);
    }
}

/// The length of `p`'s root.
fn root_len_exec(p: &[char], win: bool) -> (r: usize)
    ensures
        r == root_len(p@, win),
{
    let d: usize = if win && p.len() >= 2 && p[1] == ':' && (('a' <= p[0] && p[0] <= 'z') || ('A' <= p[0] && p[0] <= 'Z')) {
        2
    } else {
        0
    };
    if p.len() > d && is_sep_exec(p[d], win) {
        d + 1
    } else {
        d
    }
}

/// Where the first `k` characters of `p` end once trailing separators and
/// `.` components are dropped.
fn tail_end_exec(p: &[char], k0: usize, win: bool) -> (r: usize)
    requires
        k0 <= p@.len(),
    ensures
        r == tail_end(p@.take(k0 as int), win),
        r <= k0,
        root_len(p@.take(k0 as int), win) <= r,
{
    let ghost q = p@.take(k0 as int);
    let pre = vstd::slice::slice_subrange(p, 0, k0);
    assert(pre@ =~= q);
    let rl = root_len_exec(pre, win);
    proof {
        lemma_root_len_bound(q, win);
    }
    let mut k: usize = k0;
    while k > rl && (is_sep_exec(p[k - 1], win) || (p[k - 1] == '.' && k >= 2 && is_sep_exec(p[k - 2], win)))
        invariant
            k0 <= p@.len(),
            q == p@.take(k0 as int),
            rl == root_len(q, win),
            rl <= k <= k0,
            tail_end(p@.take(k as int), win) == tail_end(q, win),
            root_len(p@.take(k as int), win) == rl,
        decreases k,
    {
        proof {
            let t = p@.take(k as int);
            assert(t.last() == p@[k - 1]);
            if k >= 2 {
                assert(t[t.len() - 2] == p@[k - 2]);
            }
            assert(trailing_noise(t, win));
            assert(t.drop_last() =~= p@.take(k - 1));
            assert(q.take(k - 1) =~= p@.take(k - 1));
            lemma_root_len_take(q, k - 1, win);
        }
        k = k - 1;
    }
    proof {
        let t = p@.take(k as int);
        if k > rl {
            assert(t.last() == p@[k - 1]);
            if k >= 2 {
                assert(t[t.len() - 2] == p@[k - 2]);
            }
        }
        assert(!trailing_noise(t, win));
    }
    k
}

/// `p` without trailing separators and `.` components.
pub open spec fn trimmed_path(p: Seq<char>, win: bool) -> Seq<char> {
    p.take(tail_end(p, win))
}

/// Where the last component of `p` starts (never inside its root).
pub open spec fn name_at(p: Seq<char>, win: bool) -> int {
    let s = name_start(trimmed_path(p, win), win);
    if s < root_len(p, win) {
        root_len(p, win)
    } else {
        s
    }
}

/// The last component of `p`, trailing separators and `.` components
/// aside (empty when `p` is only a root).
pub open spec fn name_part(p: Seq<char>, win: bool) -> Seq<char> {
    p.subrange(name_at(p, win), tail_end(p, win))
}

/// What is left of `p` before its last component, with separators and `.`
/// components at its end dropped (`Path::parent`).
pub open spec fn parent_part(p: Seq<char>, win: bool) -> Seq<char> {
    let h = p.take(name_at(p, win));
    h.take(tail_end(h, win))
}

/// Whether `p` has a component past its root (`Path::parent` is `Some`).
pub open spec fn has_parent(p: Seq<char>, win: bool) -> bool {
    tail_end(p, win) > root_len(p, win)
}

/// The bounds of `p`'s last component and the end of its parent.
pub(crate) fn name_bounds(p: &[char], win: bool) -> (r: (usize, usize, usize))
    ensures
        r.0 as int == name_at(p@, win),
        r.1 as int == tail_end(p@, win),
        r.2 as int == tail_end(p@.take(name_at(p@, win)), win),
        r.0 <= r.1 <= p@.len(),
        r.2 <= r.0,
{
    let te = tail_end_exec(p, p.len(), win);
    assert(p@.take(p@.len() as int) =~= p@);
    let t = vstd::slice::slice_subrange(p, 0, te);
    assert(t@ =~= trimmed_path(p@, win));
    let s = find_name_start(t, win);
    let rl = root_len_exec(p, win);
    proof {
        lemma_tail_end_bounds(p@, win);
    }
    let na = if s < rl { rl } else { s };
    let pe = tail_end_exec(p, na, win);
    (na, te, pe)
}

/// The path separator the system writes.
pub open spec fn main_sep(win: bool) -> Seq<char> {
    if win {
        "\\"@
    } else {
        "/"@
    }
}

/// Whether `p` is a bare Windows drive such as `C:`.
pub open spec fn bare_drive(p: Seq<char>, win: bool) -> bool {
    win && p.len() == 2 && p[1] == ':' && is_ascii_letter(p[0])
}

/// `p` with the relative name `x` appended (`PathBuf::push`): a separator
/// goes between them unless `p` is empty, already ends with one, or is a
/// bare drive.
pub open spec fn push_spec(p: Seq<char>, x: Seq<char>, win: bool) -> Seq<char> {
    if p.len() > 0 && !is_sep(p.last(), win) && !bare_drive(p, win) {
        p + main_sep(win) + x
    } else {
        p + x
    }
}

pub(crate) fn push_name(p: &[char], x: &str, win: bool) -> (r: String)
    ensures
        r@ == push_spec(p@, x@, win),
{
    let mut out = string_from_chars(p);
    let drive = win && p.len() == 2 && p[1] == ':' && (('a' <= p[0] && p[0] <= 'z') || ('A' <= p[0] && p[0] <= 'Z'));
    if p.len() > 0 && !is_sep_exec(p[p.len() - 1], win) && !drive {
        if win {
            push_str(&mut out, "\\");
        } else {
            push_str(&mut out, "/");
        }
    }
    push_str(&mut out, x);
    out
}

/// `p` with its last component replaced by `x` (`PathBuf::set_file_name`);
/// when it names no file, `x` is appended instead.
pub open spec fn with_file_name(p: Seq<char>, x: Seq<char>, win: bool) -> Seq<char> {
    if names_file(name_part(p, win)) {
        push_spec(parent_part(p, win), x, win)
    } else {
        push_spec(p, x, win)
    }
}

/// Splits a path into its parent (`Path::parent`, empty when there is
/// none) and its last component.
pub fn split_path(p: &str, win: bool) -> (r: (String, String))
    ensures
        r.0@ == (if has_parent(p@, win) { parent_part(p@, win) } else { Seq::empty() }),
        r.1@ == name_part(p@, win),
{
    let cs = chars_of(p);
    let (na, te, pe) = name_bounds(cs.as_slice(), win);
    let rl = root_len_exec(cs.as_slice(), win);
    let d = if te > rl {
        string_from_chars(vstd::slice::slice_subrange(cs.as_slice(), 0, pe))
    } else {
        String::new()
    };
    let n = string_from_chars(vstd::slice::slice_subrange(cs.as_slice(), na, te));
    proof {
        assert(cs@.subrange(na as int, te as int) =~= name_part(p@, win));
        let h = p@.take(name_at(p@, win));
        assert(cs@.subrange(0, pe as int) =~= h.take(tail_end(h, win)));
    }
    (d, n)
}

/// Index of the last `.` in `s`, or -1.
pub open spec fn last_dot(s: Seq<char>) -> int
    decreases s.len(),
{
    if s.len() == 0 {
        -1
    } else if s.last() == '.' {
        s.len() - 1
    } else {
        last_dot(s.drop_last())
    }
}

/// The file stem: the name without its extension. A leading dot does not
/// start an extension.
pub open spec fn file_stem(name: Seq<char>) -> Seq<char> {
    if last_dot(name) > 0 {
        name.take(last_dot(name))
    } else {
        name
    }
}

/// The extension with its dot (empty when there is none).
pub open spec fn dot_extension(name: Seq<char>) -> Seq<char> {
    if last_dot(name) > 0 {
        name.skip(last_dot(name))
    } else {
        Seq::empty()
    }
}

/// Whether a last component names a file (`Path::file_name` is `Some`):
/// it is not empty, `.` or `..`.
pub open spec fn names_file(name: Seq<char>) -> bool {
    name.len() > 0 && name != "."@ && name != ".."@
}

proof fn lemma_last_dot_of(s: Seq<char>, k: int)
    requires
        -1 <= k < s.len(),
        k >= 0 ==> s[k] == '.',
        forall|i: int| k < i < s.len() ==> #[trigger] s[i] != '.',
    ensures
        last_dot(s) == k,
    decreases s.len(),
{
    if s.len() > k + 1 {
        assert(s[s.len() - 1] != '.');
        lemma_last_dot_of(s.drop_last(), k);
    }
}

/// One past the last `.` in `s` (0 when there is none).
pub fn find_last_dot(s: &[char]) -> (r: usize)
    ensures
        r as int == last_dot(s@) + 1,
        r <= s@.len(),
{
    let mut d: usize = s.len();
    while d > 0 && s[d - 1] != '.'
        invariant
            d <= s@.len(),
            forall|i: int| d <= i < s@.len() ==> #[trigger] s@[i] != '.',
        decreases d,
    {
        d = d - 1;
    }
    proof {
        lemma_last_dot_of(s@, d - 1);
    }
    d
}

/// Whether a last component names a file.
pub fn is_file_name(n: &[char]) -> (r: bool)
    ensures
        r == names_file(n@),
{
    let dd = chars_of("..");
    let d = chars_of(".");
    n.len() > 0 && !chars_eq(n, d.as_slice()) && !chars_eq(n, dd.as_slice())
}

/// The default output of a repair: `<stem>.repaired<.ext>` in place of the
/// archive's name (`.repaired` alone when the path names no file).
pub open spec fn repaired_path_spec(p: Seq<char>, win: bool) -> Seq<char> {
    let name = name_part(p, win);
    if names_file(name) {
        with_file_name(p, file_stem(name) + ".repaired"@ + dot_extension(name), win)
    } else {
        with_file_name(p, ".repaired"@, win)
    }
}

/// `<name>.next` becomes `<name>.repaired.next`, in the same directory.
pub fn repaired_path_for(archive: &str, win: bool) -> (r: String)
    ensures
        r@ == repaired_path_spec(archive@, win),
{
    let cs = chars_of(archive);
    let (na, te, pe) = name_bounds(cs.as_slice(), win);
    let name = vstd::slice::slice_subrange(cs.as_slice(), na, te);
    assert(name@ =~= name_part(archive@, win));
    if !is_file_name(name) {
        return push_name(cs.as_slice(), ".repaired", win);
    }
    let d = find_last_dot(name);
    let stem_end: usize = if d >= 2 { d - 1 } else { name.len() };
    let mut x = string_from_chars(vstd::slice::slice_subrange(name, 0, stem_end));
    assert(name@.subrange(0, stem_end as int) =~= file_stem(name@));
    push_str(&mut x, ".repaired");
    let ext = string_from_chars(vstd::slice::slice_subrange(name, stem_end, name.len()));
    assert(name@.subrange(stem_end as int, name@.len() as int) =~= dot_extension(name@));
    push_str(&mut x, ext.as_str());
    let parent = vstd::slice::slice_subrange(cs.as_slice(), 0, pe);
    proof {
        let h = archive@.take(name_at(archive@, win));
        assert(parent@ =~= h.take(tail_end(h, win)));
    }
    push_name(parent, x.as_str(), win)
}

/// The folder "extract here" unpacks into: the archive's stem joined to its
/// parent (`.` when it has none); `extracted` when the path names no file.
pub open spec fn here_dir_spec(p: Seq<char>, win: bool) -> Seq<char> {
    let name = name_part(p, win);
    let parent = if has_parent(p, win) {
        parent_part(p, win)
    } else {
        "."@
    };
    push_spec(parent, if names_file(name) { file_stem(name) } else { "extracted"@ }, win)
}

/// The folder "extract here" unpacks an archive into.
pub fn extract_here_dir(archive: &str, win: bool) -> (r: String)
    ensures
        r@ == here_dir_spec(archive@, win),
{
    let cs = chars_of(archive);
    let (na, te, pe) = name_bounds(cs.as_slice(), win);
    let rl = root_len_exec(cs.as_slice(), win);
    let name = vstd::slice::slice_subrange(cs.as_slice(), na, te);
    assert(name@ =~= name_part(archive@, win));
    let stem = if is_file_name(name) {
        let d = find_last_dot(name);
        let stem_end: usize = if d >= 2 { d - 1 } else { name.len() };
        assert(name@.subrange(0, stem_end as int) =~= file_stem(name@));
        string_from_chars(vstd::slice::slice_subrange(name, 0, stem_end))
    } else {
        copy_str("extracted")
    };
    if te > rl {
        let parent = vstd::slice::slice_subrange(cs.as_slice(), 0, pe);
        proof {
            let h = archive@.take(name_at(archive@, win));
            assert(parent@ =~= h.take(tail_end(h, win)));
        }
        push_name(parent, stem.as_str(), win)
    } else {
        let dot = chars_of(".");
        push_name(dot.as_slice(), stem.as_str(), win)
    }
}

/// The archive name proposed for a selection: the first item's name with
/// `.next` added, next to it (`PathBuf::set_file_name`); `archive.next`
/// when nothing is selected.
pub open spec fn default_output_spec(inputs: Seq<Seq<char>>, win: bool) -> Seq<char> {
    if inputs.len() == 0 {
        "archive.next"@
    } else {
        let name = name_part(inputs[0], win);
        with_file_name(inputs[0], (if names_file(name) { name } else { Seq::empty() }) + ".next"@, win)
    }
}

/// The output archive proposed for the selected inputs.
pub fn default_output(inputs: &[String], win: bool) -> (r: String)
    ensures
        r@ == default_output_spec(crate::text::strs(inputs@), win),
{
    if inputs.len() == 0 {
        return copy_str("archive.next");
    }
    let first = inputs[0].as_str();
    assert(crate::text::strs(inputs@)[0] == first@);
    let cs = chars_of(first);
    let (na, te, pe) = name_bounds(cs.as_slice(), win);
    let name = vstd::slice::slice_subrange(cs.as_slice(), na, te);
    assert(name@ =~= name_part(first@, win));
    if is_file_name(name) {
        let mut x = string_from_chars(name);
        push_str(&mut x, ".next");
        let parent = vstd::slice::slice_subrange(cs.as_slice(), 0, pe);
        proof {
            let h = first@.take(name_at(first@, win));
            assert(parent@ =~= h.take(tail_end(h, win)));
        }
        push_name(parent, x.as_str(), win)
    } else {
        assert(Seq::<char>::empty() + ".next"@ =~= ".next"@);
        push_name(cs.as_slice(), ".next", win)
    }
}

} // verus!
