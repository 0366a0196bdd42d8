//! Decisions of the desktop app: the appearance precedence rule, the
//! persisted settings and their defaults, the recent-archives list, the
//! names it proposes for new archives and for settings backups, and the
//! Explorer shell-mode command line. Paths here are Windows paths: both
//! `\` and `/` separate components.

use vstd::prelude::*;

use crate::paths::{file_stem, find_last_dot, is_file_name, last_dot, name_at, name_bounds, name_part, names_file};
use crate::text::{lemma_strs_push, strs, ascii_lower_seq, chars_eq, chars_of, copy_str, decimal, lower_ascii, push_decimal, push_str, string_from_chars};

verus! {

/// User-pinned appearance. `Follow` tracks the OS theme; `Dark` and
/// `Light` pin the theme independent of the OS.
#[derive(Clone, Copy, Debug, PartialEq, Eq, Structural)]
pub enum ThemeOverride {
    Follow,
    Dark,
    Light,
}

impl Default for ThemeOverride {
    fn default() -> (r: Self)
        ensures
            r == ThemeOverride::Follow,
    {
        ThemeOverride::Follow
    }
}

/// Precedence of the appearance sources: an environment pin beats the
/// user's override, which beats the OS setting.
pub open spec fn dark_spec(env_pin: Option<bool>, over: ThemeOverride, registry: bool) -> bool {
    match env_pin {
        Some(p) => p,
        None => match over {
            ThemeOverride::Dark => true,
            ThemeOverride::Light => false,
            ThemeOverride::Follow => registry,
        },
    }
}

/// Whether the dark theme is in effect.
pub fn effective_dark(env_pin: Option<bool>, over: ThemeOverride, registry: bool) -> (r: bool)
    ensures
        r == dark_spec(env_pin, over, registry),
{
    if let Some(p) = env_pin {
        return p;
    }
    match over {
        ThemeOverride::Dark => true,
        ThemeOverride::Light => false,
        ThemeOverride::Follow => registry,
    }
}

/// The theme a `dark` / `light` pin selects, in any ASCII case.
pub open spec fn env_pin_spec(v: Seq<char>) -> Option<bool> {
    if ascii_lower_seq(v) == "dark"@ {
        Some(true)
    } else if ascii_lower_seq(v) == "light"@ {
        Some(false)
    } else {
        None
    }
}

/// Parses the theme pin of the environment (`dark` or `light`, any ASCII
/// case) into whether the dark theme is pinned.
pub fn env_pin(v: &str) -> (r: Option<bool>)
    ensures
        r == env_pin_spec(v@),
{
    let low = lower_ascii(v);
    let dark = chars_of("dark");
    let light = chars_of("light");
    if chars_eq(low.as_slice(), dark.as_slice()) {
        Some(true)
    } else if chars_eq(low.as_slice(), light.as_slice()) {
        Some(false)
    } else {
        None
    }
}

/// Whether a reduced-motion pin asks for fewer animations: `1`, or `true`
/// or `on` in any ASCII case.
pub open spec fn motion_pin_spec(v: Seq<char>) -> bool {
    v == "1"@ || ascii_lower_seq(v) == "true"@ || ascii_lower_seq(v) == "on"@
}

/// Whether the reduced-motion pin of the environment asks for fewer
/// animations.
pub fn motion_pin(v: &str) -> (r: bool)
    ensures
        r == motion_pin_spec(v@),
{
    let low = lower_ascii(v);
    let t = chars_of("true");
    let on = chars_of("on");
    crate::text::str_eq(v, "1") || chars_eq(low.as_slice(), t.as_slice()) || chars_eq(low.as_slice(), on.as_slice())
}

/// The persisted user settings. Unset fields fall back to the engine
/// defaults.
#[derive(Clone, Debug)]
pub struct Settings {
    /// Appearance override.
    pub appearance: ThemeOverride,
    /// Default codec for new archives (`zstd` | `lzma2` | `store`).
    pub codec: Option<String>,
    /// Default compression level.
    pub level: Option<i32>,
    /// Default block size text (`512K`, `1M`, ...).
    pub block: Option<String>,
    /// Default worker thread count.
    pub threads: Option<usize>,
    /// Default recovery parity count (0 = off).
    pub recovery: Option<u16>,
    /// Recently opened or created archives, most recent first.
    pub recent: Option<Vec<String>>,
}

/// The characters of an optional string.
pub open spec fn opt_str(o: Option<String>) -> Option<Seq<char>> {
    match o {
        Some(s) => Some(s@),
        None => None,
    }
}

/// The strings of an optional list.
pub open spec fn opt_strs(o: Option<Vec<String>>) -> Option<Seq<Seq<char>>> {
    match o {
        Some(v) => Some(strs(v@)),
        None => None,
    }
}

impl View for Settings {
    type V = (
        ThemeOverride,
        Option<Seq<char>>,
        Option<i32>,
        Option<Seq<char>>,
        Option<usize>,
        Option<u16>,
        Option<Seq<Seq<char>>>,
    );

    open spec fn view(&self) -> Self::V {
        (
            self.appearance,
            opt_str(self.codec),
            self.level,
            opt_str(self.block),
            self.threads,
            self.recovery,
            opt_strs(self.recent),
        )
    }
}

impl Default for Settings {
    fn default() -> (r: Self)
        ensures
            r@ == (ThemeOverride::Follow, None::<Seq<char>>, None::<i32>, None::<Seq<char>>, None::<usize>, None::<u16>, None::<Seq<Seq<char>>>),
    {
        Settings {
            appearance: ThemeOverride::Follow,
            codec: None,
            level: None,
            block: None,
            threads: None,
            recovery: None,
            recent: None,
        }
    }
}

/// How many archives the recent list keeps.
pub const RECENT_LIMIT: usize = 6;

/// `v` without any occurrence of `p`, order kept.
pub open spec fn without(v: Seq<Seq<char>>, p: Seq<char>) -> Seq<Seq<char>>
    decreases v.len(),
{
    if v.len() == 0 {
        v
    } else if v.last() == p {
        without(v.drop_last(), p)
    } else {
        without(v.drop_last(), p).push(v.last())
    }
}

/// The recent list after `p` was opened: `p` first, its older occurrence
/// dropped, at most six entries.
pub open spec fn recent_after(v: Seq<Seq<char>>, p: Seq<char>) -> Seq<Seq<char>> {
    let w = seq![p] + without(v, p);
    if w.len() > RECENT_LIMIT {
        w.take(RECENT_LIMIT as int)
    } else {
        w
    }
}

/// The list an optional recent list stands for.
pub open spec fn recent_or_empty(o: Option<Seq<Seq<char>>>) -> Seq<Seq<char>> {
    match o {
        Some(v) => v,
        None => Seq::empty(),
    }
}

fn copy_strings(v: &Vec<String>) -> (r: Vec<String>)
    ensures
        strs(r@) == strs(v@),
{
    let mut out: Vec<String> = Vec::new();
    let mut i: usize = 0;
    while i < v.len()
        invariant
            i <= v@.len(),
            strs(out@) == strs(v@).take(i as int),
        decreases v@.len() - i,
    {
        let c = copy_str(v[i].as_str());
        proof {
            lemma_strs_push(out@, c);
            assert(strs(v@).take(i + 1) =~= strs(v@).take(i as int).push(c@));
        }
        out.push(c);
        i = i + 1;
    }
    assert(strs(v@).take(v@.len() as int) =~= strs(v@));
    out
}

proof fn lemma_without_push(v: Seq<Seq<char>>, x: Seq<char>, p: Seq<char>)
    ensures
        without(v.push(x), p) == (if x == p { without(v, p) } else { without(v, p).push(x) }),
{
    assert(v.push(x).drop_last() =~= v);
}

/// No entry occurs twice.
pub open spec fn no_dups(v: Seq<Seq<char>>) -> bool {
    forall|i: int, j: int| 0 <= i < j < v.len() ==> v[i] != v[j]
}

proof fn lemma_without_props(v: Seq<Seq<char>>, p: Seq<char>)
    ensures
        without(v, p).len() <= v.len(),
        forall|i: int| 0 <= i < without(v, p).len() ==> #[trigger] without(v, p)[i] != p && v.contains(without(v, p)[i]),
        no_dups(v) ==> no_dups(without(v, p)),
    decreases v.len(),
{
    if v.len() > 0 {
        let q = v.drop_last();
        lemma_without_props(q, p);
        let w = without(q, p);
        assert forall|i: int| 0 <= i < w.len() implies v.contains(#[trigger] w[i]) by {
            let j = choose|j: int| 0 <= j < q.len() && q[j] == w[i];
            assert(v[j] == q[j]);
        }
        if v.last() != p {
            let w2 = w.push(v.last());
            assert(v[v.len() - 1] == v.last());
            assert forall|i: int| 0 <= i < w2.len() implies #[trigger] w2[i] != p && v.contains(w2[i]) by {
                if i < w.len() {
                    assert(w2[i] == w[i]);
                }
            }
            if no_dups(v) {
                assert(no_dups(q));
                assert forall|i: int, j: int| 0 <= i < j < w2.len() implies w2[i] != w2[j] by {
                    if j == w.len() {
                        assert(w2[i] == w[i]);
                        let k = choose|k: int| 0 <= k < q.len() && q[k] == w[i];
                        assert(v[k] == q[k]);
                    } else {
                        assert(w2[i] == w[i]);
                        assert(w2[j] == w[j]);
                    }
                }
            }
        } else {
            if no_dups(v) {
                assert(no_dups(q));
            }
        }
    }
}

/// The recent list after opening `path`: `path` comes first, it occurs
/// nowhere else, the list holds at most six archives, every other entry was
/// already in the list, and a list without repeats stays without repeats.
pub proof fn lemma_recent_after(v: Seq<Seq<char>>, p: Seq<char>)
    ensures
        ({
            let r = recent_after(v, p);
            &&& r.len() >= 1
            &&& r[0] == p
            &&& r.len() <= RECENT_LIMIT
            &&& forall|i: int| 1 <= i < r.len() ==> #[trigger] r[i] != p && v.contains(r[i])
            &&& no_dups(v) ==> no_dups(r)
        }),
{
    lemma_without_props(v, p);
    let w = seq![p] + without(v, p);
    let r = recent_after(v, p);
    assert(w[0] == p);
    assert forall|i: int| 1 <= i < w.len() implies #[trigger] w[i] != p && v.contains(w[i]) by {
        assert(w[i] == without(v, p)[i - 1]);
    }
    if no_dups(v) {
        assert forall|i: int, j: int| 0 <= i < j < w.len() implies w[i] != w[j] by {
            assert(w[j] == without(v, p)[j - 1]);
            if i > 0 {
                assert(w[i] == without(v, p)[i - 1]);
            }
        }
    }
    assert forall|i: int| 1 <= i < r.len() implies #[trigger] r[i] != p && v.contains(r[i]) by {
        assert(r[i] == w[i]);
    }
    if no_dups(v) {
        assert forall|i: int, j: int| 0 <= i < j < r.len() implies r[i] != r[j] by {
            assert(r[i] == w[i]);
            assert(r[j] == w[j]);
        }
    }
}

impl Settings {
    /// The appearance override.
    pub fn theme_override(&self) -> (r: ThemeOverride)
        ensures
            r == self.appearance,
    {
        self.appearance
    }

    /// Sets the appearance override; nothing else changes.
    pub fn set_theme_override(&mut self, o: ThemeOverride)
        ensures
            final(self)@ == (o, old(self)@.1, old(self)@.2, old(self)@.3, old(self)@.4, old(self)@.5, old(self)@.6),
    {
        self.appearance = o;
    }

    /// Default codec for new archives (`zstd` unless set).
    pub fn create_codec(&self) -> (r: String)
        ensures
            r@ == (match opt_str(self.codec) {
                Some(c) => c,
                None => "zstd"@,
            }),
    {
        match &self.codec {
            Some(c) => copy_str(c.as_str()),
            None => copy_str("zstd"),
        }
    }

    /// Default compression level (3 unless set).
    pub fn create_level(&self) -> (r: i32)
        ensures
            r == (match self.level {
                Some(l) => l,
                None => 3,
            }),
    {
        match self.level {
            Some(l) => l,
            None => 3,
        }
    }

    /// Default block size text (`1M` unless set).
    pub fn create_block(&self) -> (r: String)
        ensures
            r@ == (match opt_str(self.block) {
                Some(b) => b,
                None => "1M"@,
            }),
    {
        match &self.block {
            Some(b) => copy_str(b.as_str()),
            None => copy_str("1M"),
        }
    }

    /// Default worker thread count: the stored value, else the number of
    /// logical CPUs.
    pub fn create_threads(&self) -> (r: usize)
        ensures
            self.threads matches Some(t) ==> r == t,
            self.threads is None ==> r >= 1,
    {
        self.create_threads_with(logical_cpus())
    }

    /// Default worker threads on a machine with `cpus` logical CPUs: the
    /// stored count, else `cpus`.
    pub fn create_threads_with(&self, cpus: usize) -> (r: usize)
        ensures
            r == (match self.threads {
                Some(t) => t,
                None => cpus,
            }),
    {
        match self.threads {
            Some(t) => t,
            None => cpus,
        }
    }

    /// Default recovery parity count (0, off, unless set).
    pub fn create_recovery(&self) -> (r: u16)
        ensures
            r == (match self.recovery {
                Some(x) => x,
                None => 0,
            }),
    {
        match self.recovery {
            Some(x) => x,
            None => 0,
        }
    }

    /// Stores all the defaults for new archives; the appearance and the
    /// recent list stay.
    pub fn set_create_defaults(&mut self, codec: String, level: i32, block: String, threads: usize, recovery: u16)
        ensures
            final(self)@ == (old(self)@.0, Some(codec@), Some(level), Some(block@), Some(threads), Some(recovery), old(self)@.6),
    {
        self.codec = Some(codec);
        self.level = Some(level);
        self.block = Some(block);
        self.threads = Some(threads);
        self.recovery = Some(recovery);
    }

    /// The recent archives, most recent first (empty when none).
    pub fn recent_archives(&self) -> (r: Vec<String>)
        ensures
            strs(r@) == recent_or_empty(opt_strs(self.recent)),
    {
        match &self.recent {
            Some(v) => copy_strings(v),
            None => Vec::new(),
        }
    }

    /// Records that `path` was opened or produced: it moves to the front,
    /// its older occurrence goes, and the list keeps the newest six.
    pub fn push_recent_archive(&mut self, path: &str)
        ensures
            final(self)@ == (old(self)@.0, old(self)@.1, old(self)@.2, old(self)@.3, old(self)@.4, old(self)@.5, Some(recent_after(recent_or_empty(old(self)@.6), path@))),
    {
        let old_list = match &self.recent {
            Some(v) => copy_strings(v),
            None => Vec::new(),
        };
        let ghost before = strs(old_list@);
        let target = chars_of(path);
        let mut kept: Vec<String> = Vec::new();
        kept.push(copy_str(path));
        assert(strs(kept@) =~= seq![path@] + without(before.take(0), path@));
        let mut i: usize = 0;
        while i < old_list.len()
            invariant
                i <= old_list@.len(),
                before == strs(old_list@),
                target@ == path@,
                strs(kept@) == seq![path@] + without(before.take(i as int), path@),
            decreases old_list@.len() - i,
        {
            let x = chars_of(old_list[i].as_str());
            let same = chars_eq(x.as_slice(), target.as_slice());
            proof {
                assert(before.take(i + 1) =~= before.take(i as int).push(before[i as int]));
                lemma_without_push(before.take(i as int), before[i as int], path@);
            }
            if !same {
                let c = copy_str(old_list[i].as_str());
                proof {
                    lemma_strs_push(kept@, c);
                }
                kept.push(c);
            }
            i = i + 1;
        }
        assert(before.take(old_list@.len() as int) =~= before);
        if kept.len() > RECENT_LIMIT {
            kept.truncate(RECENT_LIMIT);
            assert(strs(kept@) =~= (seq![path@] + without(before, path@)).take(RECENT_LIMIT as int));
        }
        self.recent = Some(kept);
    }

    /// Forgets the recent-archives list.
    pub fn clear_recent(&mut self)
        ensures
            final(self)@ == (old(self)@.0, old(self)@.1, old(self)@.2, old(self)@.3, old(self)@.4, old(self)@.5, None::<Seq<Seq<char>>>),
    {
        self.recent = None;
    }
}

/// How a codec choice is shown in the Create and Settings views; a name
/// that is not a codec is shown as it is.
pub open spec fn codec_label_spec(codec: Seq<char>) -> Seq<char> {
    if codec == "zstd"@ {
        "zstd — fast (default)"@
    } else if codec == "lzma2"@ {
        "lzma2 — maximum compression"@
    } else if codec == "store"@ {
        "store — no compression"@
    } else {
        codec
    }
}

/// How a codec choice is shown in the Create and Settings views.
pub fn codec_label(codec: &str) -> (r: String)
    ensures
        r@ == codec_label_spec(codec@),
{
    if crate::text::str_eq(codec, "zstd") {
        copy_str("zstd — fast (default)")
    } else if crate::text::str_eq(codec, "lzma2") {
        copy_str("lzma2 — maximum compression")
    } else if crate::text::str_eq(codec, "store") {
        copy_str("store — no compression")
    } else {
        copy_str(codec)
    }
}

/// The highest level the Create and Settings views offer for a codec: 9
/// for lzma2, 22 otherwise.
pub fn level_cap(codec: &str) -> (r: i32)
    ensures
        r == (if codec@ == "lzma2"@ { 9i32 } else { 22i32 }),
{
    if crate::text::str_eq(codec, "lzma2") {
        9
    } else {
        22
    }
}

/// The stored default level once the default codec becomes `codec`:
/// lzma2 levels stop at 9, so a higher level comes down to 9.
pub fn level_for_codec(codec: &str, level: i32) -> (r: i32)
    ensures
        r == (if codec@ == "lzma2"@ && level > 9 { 9i32 } else { level }),
{
    if crate::text::str_eq(codec, "lzma2") && level > 9 {
        9
    } else {
        level
    }
}

/// The number of logical CPUs (`num_cpus::get`). The contract claims only
/// what the crate documents: it is at least 1. The count itself depends on
/// the machine and on the process's affinity.
#[verifier::external_body]
pub(crate) fn logical_cpus() -> (r: usize)
    ensures
        r >= 1,
{
    num_cpus::get()
}

/// The settings together with whether the settings file was unreadable,
/// as the desktop app keeps them while it runs.
#[derive(Clone, Debug)]
pub struct SettingsStore {
    /// The settings in effect.
    pub settings: Settings,
    /// Set when the settings file exists but could not be parsed.
    pub corrupt: bool,
}

impl SettingsStore {
    /// Fresh state: default settings, not corrupt.
    pub fn new() -> (r: Self)
        ensures
            r.settings@ == (ThemeOverride::Follow, None::<Seq<char>>, None::<i32>, None::<Seq<char>>, None::<usize>, None::<u16>, None::<Seq<Seq<char>>>),
            !r.corrupt,
    {
        SettingsStore { settings: Settings::default(), corrupt: false }
    }

    /// Takes in the outcome of reading the settings file: parsed settings
    /// replace the current ones; a file that exists but did not parse marks
    /// the state corrupt and keeps the current settings.
    pub fn load_settings(&mut self, parsed: Option<Settings>, file_exists: bool)
        ensures
            match parsed {
                Some(s) => final(self).settings@ == s@ && final(self).corrupt == old(self).corrupt,
                None => final(self).settings@ == old(self).settings@ && final(self).corrupt == (old(self).corrupt || file_exists),
            },
    {
        match parsed {
            Some(s) => {
                self.settings = s;
            },
            None => {
                if file_exists {
                    self.corrupt = true;
                }
            },
        }
    }

    /// The appearance override in effect.
    pub fn theme_override(&self) -> (r: ThemeOverride)
        ensures
            r == self.settings.appearance,
    {
        self.settings.appearance
    }

    /// Whether the settings file was found unreadable.
    pub fn settings_corrupt(&self) -> (r: bool)
        ensures
            r == self.corrupt,
    {
        self.corrupt
    }

    /// After the unreadable file was backed up and removed: defaults again,
    /// and no longer corrupt.
    pub fn reset_corrupt_settings(&mut self)
        ensures
            final(self).settings@ == (ThemeOverride::Follow, None::<Seq<char>>, None::<i32>, None::<Seq<char>>, None::<usize>, None::<u16>, None::<Seq<Seq<char>>>),
            !final(self).corrupt,
    {
        self.settings = Settings::default();
        self.corrupt = false;
    }
}

/// The backup name for a settings file at time `ts` (seconds since the
/// Unix epoch): same directory, extension replaced by
/// `json.corrupt-<ts>`.
pub open spec fn backup_path_spec(p: Seq<char>, ts: nat, win: bool) -> Seq<char> {
    if names_file(name_part(p, win)) {
        p.take(name_at(p, win)) + file_stem(name_part(p, win)) + ".json.corrupt-"@ + decimal(ts)
    } else {
        p
    }
}

/// The backup path for a settings file written at `ts` seconds since the
/// Unix epoch: it stays in the same directory and never takes the
/// settings file's own name.
pub fn corrupt_backup_path_at(p: &str, ts: u64, win: bool) -> (r: String)
    ensures
        r@ == backup_path_spec(p@, ts as nat, win),
{
    let cs = chars_of(p);
    let (k, te, _) = name_bounds(cs.as_slice(), win);
    let name = vstd::slice::slice_subrange(cs.as_slice(), k, te);
    proof {
        assert(name@ =~= name_part(p@, win));
    }
    if !is_file_name(name) {
        return copy_str(p);
    }
    let d = find_last_dot(name);
    let stem_end: usize = if d >= 2 { d - 1 } else { name.len() };
    let mut out = string_from_chars(vstd::slice::slice_subrange(cs.as_slice(), 0, k + stem_end));
    proof {
        assert(cs@.subrange(0, (k + stem_end) as int) =~= p@.take(name_at(p@, win)) + file_stem(name_part(p@, win)));
    }
    push_str(&mut out, ".json.corrupt-");
    push_decimal(&mut out, ts);
    out
}

/// Seconds since the Unix epoch (`SystemTime::now`), 0 when the clock is
/// before the epoch. Nothing is promised of the value: it is the clock's.
#[verifier::external_body]
fn unix_now() -> u64 {
    std::time::SystemTime::now().duration_since(std::time::UNIX_EPOCH).map(|d| d.as_secs()).unwrap_or(0)
}

/// The backup path for a settings file, timestamped with the current time.
pub fn corrupt_backup_path(p: &str, win: bool) -> (r: String)
    ensures
        exists|ts: u64| r@ == backup_path_spec(p@, ts as nat, win),
{
    let ts = unix_now();
    corrupt_backup_path_at(p, ts, win)
}

/// A job that Explorer's context menu starts the desktop app with.
#[derive(Clone, Debug)]
pub enum ShellJob {
    /// Archive the given items.
    Create(Vec<String>),
    /// Archive the given items, then hand the archive to the mail client.
    CreateEmail(Vec<String>),
    /// Extract an archive next to itself.
    ExtractHere(String),
    /// Extract an archive (chosen by the user) into a folder.
    ExtractInto { folder: String, archive: String },
    /// Repair an archive from its recovery volume.
    Repair(String),
    /// The command line was not understood; the message says how to call.
    Bad(String),
}

/// What a shell job stands for, over the characters of its paths.
pub enum ShellJobSpec {
    Create(Seq<Seq<char>>),
    CreateEmail(Seq<Seq<char>>),
    ExtractHere(Seq<char>),
    ExtractInto(Seq<char>, Seq<char>),
    Repair(Seq<char>),
    Bad(Seq<char>),
}

impl View for ShellJob {
    type V = ShellJobSpec;

    open spec fn view(&self) -> ShellJobSpec {
        match self {
            ShellJob::Create(v) => ShellJobSpec::Create(strs(v@)),
            ShellJob::CreateEmail(v) => ShellJobSpec::CreateEmail(strs(v@)),
            ShellJob::ExtractHere(a) => ShellJobSpec::ExtractHere(a@),
            ShellJob::ExtractInto { folder, archive } => ShellJobSpec::ExtractInto(folder@, archive@),
            ShellJob::Repair(a) => ShellJobSpec::Repair(a@),
            ShellJob::Bad(m) => ShellJobSpec::Bad(m@),
        }
    }
}

/// The job a shell-mode command line (the arguments after `--run`) asks for.
pub open spec fn shell_job_spec(a: Seq<Seq<char>>) -> ShellJobSpec {
    if a.len() > 0 && a[0] == "create"@ {
        if a.len() > 1 {
            ShellJobSpec::Create(a.skip(1))
        } else {
            ShellJobSpec::Bad("usage: --run create <path…>"@)
        }
    } else if a.len() > 0 && a[0] == "create-email"@ {
        if a.len() > 1 {
            ShellJobSpec::CreateEmail(a.skip(1))
        } else {
            ShellJobSpec::Bad("usage: --run create-email <path…>"@)
        }
    } else if a.len() > 0 && a[0] == "extract"@ {
        if a.len() > 2 && a[1] == "--here"@ {
            ShellJobSpec::ExtractHere(a[2])
        } else {
            ShellJobSpec::Bad("usage: --run extract --here <archive>"@)
        }
    } else if a.len() > 0 && a[0] == "extract-into"@ {
        if a.len() > 1 {
            ShellJobSpec::ExtractInto(a[1], Seq::empty())
        } else {
            ShellJobSpec::Bad("usage: --run extract-into <folder>"@)
        }
    } else if a.len() > 0 && a[0] == "repair"@ {
        if a.len() > 1 {
            ShellJobSpec::Repair(a[1])
        } else {
            ShellJobSpec::Bad("usage: --run repair <archive>"@)
        }
    } else {
        ShellJobSpec::Bad("usage: --run create|create-email|extract --here|extract-into|repair <path>"@)
    }
}

fn copy_tail(args: &[String], from: usize) -> (r: Vec<String>)
    requires
        from <= args@.len(),
    ensures
        strs(r@) == strs(args@).skip(from as int),
{
    let mut out: Vec<String> = Vec::new();
    let mut i: usize = from;
    while i < args.len()
        invariant
            from <= i <= args@.len(),
            strs(out@) == strs(args@).subrange(from as int, i as int),
        decreases args@.len() - i,
    {
        let c = copy_str(args[i].as_str());
        proof {
            lemma_strs_push(out@, c);
            assert(strs(args@).subrange(from as int, i + 1) =~= strs(args@).subrange(from as int, i as int).push(c@));
        }
        out.push(c);
        i = i + 1;
    }
    assert(strs(args@).subrange(from as int, args@.len() as int) =~= strs(args@).skip(from as int));
    out
}

/// Reads the shell-mode command line (the arguments after `--run`).
pub fn parse_shell_job(args: &[String]) -> (r: ShellJob)
    ensures
        r@ == shell_job_spec(strs(args@)),
{
    let ghost a = strs(args@);
    if args.len() == 0 {
        return ShellJob::Bad(copy_str("usage: --run create|create-email|extract --here|extract-into|repair <path>"));
    }
    let op = args[0].as_str();
    assert(a[0] == op@);
    if crate::text::str_eq(op, "create") {
        if args.len() > 1 {
            ShellJob::Create(copy_tail(args, 1))
        } else {
            ShellJob::Bad(copy_str("usage: --run create <path…>"))
        }
    } else if crate::text::str_eq(op, "create-email") {
        if args.len() > 1 {
            ShellJob::CreateEmail(copy_tail(args, 1))
        } else {
            ShellJob::Bad(copy_str("usage: --run create-email <path…>"))
        }
    } else if crate::text::str_eq(op, "extract") {
        if args.len() > 2 && crate::text::str_eq(args[1].as_str(), "--here") {
            assert(a[2] == args@[2]@);
            ShellJob::ExtractHere(copy_str(args[2].as_str()))
        } else {
            ShellJob::Bad(copy_str("usage: --run extract --here <archive>"))
        }
    } else if crate::text::str_eq(op, "extract-into") {
        if args.len() > 1 {
            assert(a[1] == args@[1]@);
            ShellJob::ExtractInto { folder: copy_str(args[1].as_str()), archive: String::new() }
        } else {
            ShellJob::Bad(copy_str("usage: --run extract-into <folder>"))
        }
    } else if crate::text::str_eq(op, "repair") {
        if args.len() > 1 {
            assert(a[1] == args@[1]@);
            ShellJob::Repair(copy_str(args[1].as_str()))
        } else {
            ShellJob::Bad(copy_str("usage: --run repair <archive>"))
        }
    } else {
        ShellJob::Bad(copy_str("usage: --run create|create-email|extract --here|extract-into|repair <path>"))
    }
}

// ─────────────────────────── views and dropped files ───────────────────────────

/// The views of the desktop app.
#[derive(Clone, Copy, Debug, PartialEq, Eq, Structural)]
pub enum AppView {
    Home,
    Create,
    Extract,
    Inspect,
    Repair,
    Settings,
}

/// Whether the last component of `p` has extension `ext` (the part after
/// its last dot, a leading dot starting none).
pub open spec fn has_extension(p: Seq<char>, ext: Seq<char>, win: bool) -> bool {
    let n = name_part(p, win);
    last_dot(n) > 0 && n.skip(last_dot(n) + 1) == ext
}

/// Whether a path names a `.ext` file.
pub fn is_extension(p: &str, ext: &str, win: bool) -> (r: bool)
    ensures
        r == has_extension(p@, ext@, win),
{
    let cs = chars_of(p);
    let (k, te, _) = name_bounds(cs.as_slice(), win);
    let name = vstd::slice::slice_subrange(cs.as_slice(), k, te);
    assert(name@ =~= name_part(p@, win));
    let d = find_last_dot(name);
    if d < 2 {
        return false;
    }
    let tail = vstd::slice::slice_subrange(name, d, name.len());
    assert(tail@ =~= name@.skip(last_dot(name@) + 1));
    let e = chars_of(ext);
    chars_eq(tail, e.as_slice())
}

/// Position of the first `.next` archive among dropped paths.
pub open spec fn first_archive(dropped: Seq<Seq<char>>, win: bool) -> Option<int>
    decreases dropped.len(),
{
    if dropped.len() == 0 {
        None
    } else if has_extension(dropped[0], "next"@, win) {
        Some(0)
    } else {
        match first_archive(dropped.drop_first(), win) {
            Some(i) => Some(i + 1),
            None => None,
        }
    }
}

/// `inputs` with every dropped path it does not hold yet appended, in order.
pub open spec fn added_inputs(inputs: Seq<Seq<char>>, dropped: Seq<Seq<char>>) -> Seq<Seq<char>>
    decreases dropped.len(),
{
    if dropped.len() == 0 {
        inputs
    } else {
        let before = added_inputs(inputs, dropped.drop_last());
        if before.contains(dropped.last()) {
            before
        } else {
            before.push(dropped.last())
        }
    }
}

/// The last dropped path that is (or is not) a `.nvol` volume.
pub open spec fn last_with_volume_ext(dropped: Seq<Seq<char>>, volume: bool, win: bool) -> Option<Seq<char>>
    decreases dropped.len(),
{
    if dropped.len() == 0 {
        None
    } else if has_extension(dropped.last(), "nvol"@, win) == volume {
        Some(dropped.last())
    } else {
        last_with_volume_ext(dropped.drop_last(), volume, win)
    }
}

/// What dropping files onto a view does.
#[derive(Clone, Debug)]
pub enum DropOutcome {
    /// Nothing was dropped, or the view takes no drops.
    Ignore,
    /// An archive was dropped on Home or Create: open it in Inspect (and
    /// prime Extract).
    OpenArchive(String),
    /// Items were added to the Create inputs (how many were dropped).
    AddedInputs(usize),
    /// The Extract view's archive is now this file.
    SetExtractArchive(String),
    /// The Inspect view's archive is now this file.
    SetInspectArchive(String),
    /// The Repair view's archive and volume (a `.nvol` file), where dropped.
    SetRepair { archive: Option<String>, volume: Option<String> },
}

/// What a drop does, over the characters of its paths.
pub open spec fn drop_spec(view: AppView, dropped: Seq<Seq<char>>, first_is_file: bool, win: bool) -> DropOutcomeSpec {
    if dropped.len() == 0 {
        DropOutcomeSpec::Ignore
    } else {
        match view {
            AppView::Home | AppView::Create => match first_archive(dropped, win) {
                Some(i) => DropOutcomeSpec::OpenArchive(dropped[i]),
                None => DropOutcomeSpec::AddedInputs(dropped.len()),
            },
            AppView::Extract => if first_is_file {
                DropOutcomeSpec::SetExtractArchive(dropped[0])
            } else {
                DropOutcomeSpec::Ignore
            },
            AppView::Inspect => if first_is_file {
                DropOutcomeSpec::SetInspectArchive(dropped[0])
            } else {
                DropOutcomeSpec::Ignore
            },
            AppView::Repair => DropOutcomeSpec::SetRepair(
                last_with_volume_ext(dropped, false, win),
                last_with_volume_ext(dropped, true, win),
            ),
            AppView::Settings => DropOutcomeSpec::Ignore,
        }
    }
}

/// What a drop outcome stands for.
pub enum DropOutcomeSpec {
    Ignore,
    OpenArchive(Seq<char>),
    AddedInputs(nat),
    SetExtractArchive(Seq<char>),
    SetInspectArchive(Seq<char>),
    SetRepair(Option<Seq<char>>, Option<Seq<char>>),
}

impl View for DropOutcome {
    type V = DropOutcomeSpec;

    open spec fn view(&self) -> DropOutcomeSpec {
        match self {
            DropOutcome::Ignore => DropOutcomeSpec::Ignore,
            DropOutcome::OpenArchive(a) => DropOutcomeSpec::OpenArchive(a@),
            DropOutcome::AddedInputs(n) => DropOutcomeSpec::AddedInputs(*n as nat),
            DropOutcome::SetExtractArchive(a) => DropOutcomeSpec::SetExtractArchive(a@),
            DropOutcome::SetInspectArchive(a) => DropOutcomeSpec::SetInspectArchive(a@),
            DropOutcome::SetRepair { archive, volume } => DropOutcomeSpec::SetRepair(opt_str(*archive), opt_str(*volume)),
        }
    }
}

proof fn lemma_first_archive_found(d: Seq<Seq<char>>, i: int, win: bool)
    requires
        0 <= i < d.len(),
        has_extension(d[i], "next"@, win),
        forall|j: int| 0 <= j < i ==> !has_extension(#[trigger] d[j], "next"@, win),
    ensures
        first_archive(d, win) == Some(i),
    decreases i,
{
    if i > 0 {
        assert(!has_extension(d[0], "next"@, win));
        assert forall|j: int| 0 <= j < i - 1 implies !has_extension(#[trigger] d.drop_first()[j], "next"@, win) by {
            assert(d.drop_first()[j] == d[j + 1]);
        }
        lemma_first_archive_found(d.drop_first(), i - 1, win);
    }
}

proof fn lemma_first_archive_absent(d: Seq<Seq<char>>, win: bool)
    requires
        forall|j: int| 0 <= j < d.len() ==> !has_extension(#[trigger] d[j], "next"@, win),
    ensures
        first_archive(d, win) is None,
    decreases d.len(),
{
    if d.len() > 0 {
        assert(!has_extension(d[0], "next"@, win));
        assert forall|j: int| 0 <= j < d.len() - 1 implies !has_extension(#[trigger] d.drop_first()[j], "next"@, win) by {
            assert(d.drop_first()[j] == d[j + 1]);
        }
        lemma_first_archive_absent(d.drop_first(), win);
    }
}

fn contains_str(v: &Vec<String>, p: &str) -> (r: bool)
    ensures
        r == strs(v@).contains(p@),
{
    let mut i: usize = 0;
    while i < v.len()
        invariant
            i <= v@.len(),
            forall|j: int| 0 <= j < i ==> strs(v@)[j] != p@,
        decreases v@.len() - i,
    {
        if crate::text::str_eq(v[i].as_str(), p) {
            assert(strs(v@)[i as int] == p@);
            return true;
        }
        i = i + 1;
    }
    false
}

/// Routes files dropped onto a view: on Home or Create, the first `.next`
/// archive opens in Inspect, or else every dropped path not yet among the
/// Create inputs is appended to them; on Extract and Inspect the first path
/// becomes the archive when it is a file; on Repair each `.nvol` file sets
/// the volume and anything else the archive (the last of each wins).
pub fn route_drop(view: AppView, dropped: &[String], first_is_file: bool, win: bool, create_inputs: &mut Vec<String>) -> (r: DropOutcome)
    ensures
        r@ == drop_spec(view, strs(dropped@), first_is_file, win),
        strs(final(create_inputs)@) == (if dropped@.len() > 0 && (view == AppView::Home || view == AppView::Create) && first_archive(
            strs(dropped@), win) is None {
            added_inputs(strs(old(create_inputs)@), strs(dropped@))
        } else {
            strs(old(create_inputs)@)
        }),
{
    let ghost d = strs(dropped@);
    if dropped.len() == 0 {
        return DropOutcome::Ignore;
    }
    match view {
        AppView::Home | AppView::Create => {
            let mut i: usize = 0;
            while i < dropped.len()
                invariant
                    i <= dropped@.len(),
                    d == strs(dropped@),
                    view == AppView::Home || view == AppView::Create,
                    strs(create_inputs@) == strs(old(create_inputs)@),
                    forall|j: int| 0 <= j < i ==> !has_extension(#[trigger] d[j], "next"@, win),
                decreases dropped@.len() - i,
            {
                assert(d[i as int] == dropped@[i as int]@);
                if is_extension(dropped[i].as_str(), "next", win) {
                    proof {
                        lemma_first_archive_found(d, i as int, win);
                    }
                    return DropOutcome::OpenArchive(copy_str(dropped[i].as_str()));
                }
                i = i + 1;
            }
            proof {
                lemma_first_archive_absent(d, win);
            }
            let ghost start = strs(create_inputs@);
            let mut k: usize = 0;
            while k < dropped.len()
                invariant
                    k <= dropped@.len(),
                    d == strs(dropped@),
                    strs(create_inputs@) == added_inputs(start, d.take(k as int)),
                decreases dropped@.len() - k,
            {
                proof {
                    assert(d.take(k + 1).drop_last() =~= d.take(k as int));
                    assert(d.take(k + 1).last() == dropped@[k as int]@);
                }
                if !contains_str(create_inputs, dropped[k].as_str()) {
                    let c = copy_str(dropped[k].as_str());
                    proof {
                        lemma_strs_push(create_inputs@, c);
                    }
                    create_inputs.push(c);
                }
                k = k + 1;
            }
            assert(d.take(k as int) =~= d);
            DropOutcome::AddedInputs(dropped.len())
        },
        AppView::Extract => {
            if first_is_file {
                DropOutcome::SetExtractArchive(copy_str(dropped[0].as_str()))
            } else {
                DropOutcome::Ignore
            }
        },
        AppView::Inspect => {
            if first_is_file {
                DropOutcome::SetInspectArchive(copy_str(dropped[0].as_str()))
            } else {
                DropOutcome::Ignore
            }
        },
        AppView::Repair => {
            let mut archive: Option<String> = None;
            let mut volume: Option<String> = None;
            let mut i: usize = 0;
            while i < dropped.len()
                invariant
                    i <= dropped@.len(),
                    d == strs(dropped@),
                    opt_str(archive) == last_with_volume_ext(d.take(i as int), false, win),
                    opt_str(volume) == last_with_volume_ext(d.take(i as int), true, win),
                decreases dropped@.len() - i,
            {
                proof {
                    assert(d.take(i + 1).drop_last() =~= d.take(i as int));
                    assert(d.take(i + 1).last() == dropped@[i as int]@);
                }
                if is_extension(dropped[i].as_str(), "nvol", win) {
                    volume = Some(copy_str(dropped[i].as_str()));
                } else {
                    archive = Some(copy_str(dropped[i].as_str()));
                }
                i = i + 1;
            }
            assert(d.take(i as int) =~= d);
            DropOutcome::SetRepair { archive, volume }
        },
        AppView::Settings => DropOutcome::Ignore,
    }
}

/// The view a key jumps to when no text field has focus: `1`–`6` pick the
/// views in sidebar order; with the command modifier held, `N`, `E` and
/// `R` open Create, Extract and Repair.
pub open spec fn shortcut_spec(key: char, command: bool) -> Option<AppView> {
    if !command {
        if key == '1' {
            Some(AppView::Home)
        } else if key == '2' {
            Some(AppView::Create)
        } else if key == '3' {
            Some(AppView::Extract)
        } else if key == '4' {
            Some(AppView::Inspect)
        } else if key == '5' {
            Some(AppView::Repair)
        } else if key == '6' {
            Some(AppView::Settings)
        } else {
            None
        }
    } else if key == 'N' {
        Some(AppView::Create)
    } else if key == 'E' {
        Some(AppView::Extract)
    } else if key == 'R' {
        Some(AppView::Repair)
    } else {
        None
    }
}

/// The view a key jumps to when no text field has focus.
pub fn shortcut_view(key: char, command: bool) -> (r: Option<AppView>)
    ensures
        r == shortcut_spec(key, command),
{
    if !command {
        match key {
            '1' => Some(AppView::Home),
            '2' => Some(AppView::Create),
            '3' => Some(AppView::Extract),
            '4' => Some(AppView::Inspect),
            '5' => Some(AppView::Repair),
            '6' => Some(AppView::Settings),
            _ => None,
        }
    } else {
        match key {
            'N' => Some(AppView::Create),
            'E' => Some(AppView::Extract),
            'R' => Some(AppView::Repair),
            _ => None,
        }
    }
}

/// The banner a drop shows, and the view its "Open" button leads to.
pub open spec fn drop_banner_spec(o: DropOutcomeSpec) -> Option<(Seq<char>, AppView)> {
    match o {
        DropOutcomeSpec::Ignore => None,
        DropOutcomeSpec::OpenArchive(_) => Some(("archive loaded — opened in Inspect"@, AppView::Inspect)),
        DropOutcomeSpec::AddedInputs(n) => Some((
            decimal(n) + (if n == 1 { " item"@ } else { " items"@ }) + " added — ready to create"@,
            AppView::Create,
        )),
        DropOutcomeSpec::SetExtractArchive(_) => Some(("archive set — ready to extract"@, AppView::Extract)),
        DropOutcomeSpec::SetInspectArchive(_) => Some(("archive loaded — opened in Inspect"@, AppView::Inspect)),
        DropOutcomeSpec::SetRepair(_, _) => Some(("archive / volume set — ready to repair"@, AppView::Repair)),
    }
}

/// The banner a drop shows, and the view its "Open" button leads to.
pub fn drop_banner(o: &DropOutcome) -> (r: Option<(String, AppView)>)
    ensures
        match r {
            Some((m, v)) => drop_banner_spec(o@) == Some((m@, v)),
            None => drop_banner_spec(o@) is None,
        },
{
    match o {
        DropOutcome::Ignore => None,
        DropOutcome::OpenArchive(_) => Some((copy_str("archive loaded — opened in Inspect"), AppView::Inspect)),
        DropOutcome::AddedInputs(n) => {
            let mut m = String::new();
            push_decimal(&mut m, *n as u64);
            push_str(&mut m, if *n == 1 { " item" } else { " items" });
            push_str(&mut m, " added — ready to create");
            Some((m, AppView::Create))
        },
        DropOutcome::SetExtractArchive(_) => Some((copy_str("archive set — ready to extract"), AppView::Extract)),
        DropOutcome::SetInspectArchive(_) => Some((copy_str("archive loaded — opened in Inspect"), AppView::Inspect)),
        DropOutcome::SetRepair { .. } => Some((copy_str("archive / volume set — ready to repair"), AppView::Repair)),
    }
}

// ─────────────────────────── create request ───────────────────────────

/// Why the Create view refused to start.
#[derive(Debug)]
pub enum CreateRequestError {
    /// The codec is not one of `zstd`, `lzma2`, `store`.
    UnknownCodec(String),
    /// The block size text was refused.
    Block(crate::units::SizeError),
}

/// The codec byte the Create view's codec choice names (exact names).
pub open spec fn gui_codec(name: Seq<char>) -> Option<u8> {
    if name == "zstd"@ {
        Some(crate::format::CODE_ZSTD)
    } else if name == "lzma2"@ {
        Some(crate::format::CODE_LZMA2)
    } else if name == "store"@ {
        Some(crate::format::CODE_STORE)
    } else {
        None
    }
}

/// The options the Create view starts a job with: codec by exact name,
/// level clamped to 0..=22, the block size checked as `parse_block` checks
/// it, no password when the field is empty, at least one thread, segments
/// of 128 blocks, `recovery` parity blocks, no terminal output.
pub fn create_request(codec: &str, level: i32, block: &str, password: &str, recovery: u16, threads: usize) -> (r: Result<
    crate::pipeline::CreateOptions,
    CreateRequestError,
>)
    ensures
        match r {
            Ok(o) => {
                &&& gui_codec(codec@) == Some(o.codec)
                &&& o.level == (if level < 0 { 0 } else if level > 22 { 22 } else { level })
                &&& crate::units::size_value(block@) == Some(o.block_size as nat)
                &&& crate::units::MIN_BLOCK_SIZE <= o.block_size <= crate::units::MAX_BLOCK_SIZE
                &&& opt_str(o.password) == (if password@.len() == 0 { None } else { Some(password@) })
                &&& o.threads == (if threads == 0 { 1 } else { threads })
                &&& o.segment_size == 128
                &&& o.parity == recovery
                &&& o.quiet
            },
            Err(CreateRequestError::UnknownCodec(n)) => gui_codec(codec@) is None && n@ == codec@,
            Err(CreateRequestError::Block(e)) => gui_codec(codec@) is Some && crate::units::parse_block_outcome(block@) == Err::<
                u32,
                crate::units::SizeError,
            >(e),
        },
{
    let c = if crate::text::str_eq(codec, "zstd") {
        crate::format::CODE_ZSTD
    } else if crate::text::str_eq(codec, "lzma2") {
        crate::format::CODE_LZMA2
    } else if crate::text::str_eq(codec, "store") {
        crate::format::CODE_STORE
    } else {
        return Err(CreateRequestError::UnknownCodec(copy_str(codec)));
    };
    let l: i32 = if level < 0 {
        0
    } else if level > 22 {
        22
    } else {
        level
    };
    let b = match crate::units::parse_block(block) {
        Ok(b) => b,
        Err(e) => return Err(CreateRequestError::Block(e)),
    };
    let pw = if password.unicode_len() == 0 {
        None
    } else {
        Some(copy_str(password))
    };
    Ok(crate::pipeline::CreateOptions {
        codec: c,
        level: l,
        block_size: b,
        password: pw,
        threads: if threads == 0 { 1 } else { threads },
        segment_size: 128,
        parity: recovery as usize,
        quiet: true,
    })
}

// ─────────────────────────── job forms ───────────────────────────

/// A form field's text without surrounding whitespace, or `default` when
/// nothing is left.
pub open spec fn field_or(field: Seq<char>, default: Seq<char>) -> Seq<char> {
    if crate::units::trim(field).len() == 0 {
        default
    } else {
        crate::units::trim(field)
    }
}

/// An extraction the Extract view starts.
pub struct ExtractRequest {
    pub archive: String,
    pub output: String,
    pub password: Option<String>,
}

/// The Extract view's job: the archive path without surrounding
/// whitespace (refused when nothing is left), the output folder likewise
/// or `.`, and no password when the field is empty.
pub fn extract_request(archive: &str, output: &str, password: &str) -> (r: Result<ExtractRequest, String>)
    ensures
        match r {
            Ok(q) => {
                &&& crate::units::trim(archive@).len() > 0
                &&& q.archive@ == crate::units::trim(archive@)
                &&& q.output@ == field_or(output@, "."@)
                &&& opt_str(q.password) == (if password@.len() == 0 { None } else { Some(password@) })
            },
            Err(m) => crate::units::trim(archive@).len() == 0 && m@ == "pick an archive to extract"@,
        },
{
    let a = crate::units::trimmed(archive);
    if a.unicode_len() == 0 {
        return Err(copy_str("pick an archive to extract"));
    }
    let o = crate::units::trimmed(output);
    let out = if o.unicode_len() == 0 {
        copy_str(".")
    } else {
        o
    };
    let pw = if password.unicode_len() == 0 {
        None
    } else {
        Some(copy_str(password))
    };
    Ok(ExtractRequest { archive: a, output: out, password: pw })
}

/// The Repair view's sources: the archive and the recovery volume paths
/// without surrounding whitespace; the archive is asked for first.
pub fn repair_sources(archive: &str, volume: &str) -> (r: Result<(String, String), String>)
    ensures
        match r {
            Ok((a, v)) => {
                &&& crate::units::trim(archive@).len() > 0
                &&& crate::units::trim(volume@).len() > 0
                &&& a@ == crate::units::trim(archive@)
                &&& v@ == crate::units::trim(volume@)
            },
            Err(m) => if crate::units::trim(archive@).len() == 0 {
                m@ == "pick the corrupted archive"@
            } else {
                crate::units::trim(volume@).len() == 0 && m@ == "pick the .nvol recovery volume"@
            },
        },
{
    let a = crate::units::trimmed(archive);
    if a.unicode_len() == 0 {
        return Err(copy_str("pick the corrupted archive"));
    }
    let v = crate::units::trimmed(volume);
    if v.unicode_len() == 0 {
        return Err(copy_str("pick the .nvol recovery volume"));
    }
    Ok((a, v))
}

/// Where the Repair view writes: the output field without surrounding
/// whitespace, or else the `.repaired` sibling of the archive path
/// without surrounding whitespace.
pub fn repair_output(archive: &str, output: &str, win: bool) -> (r: String)
    ensures
        r@ == field_or(output@, crate::paths::repaired_path_spec(crate::units::trim(archive@), win)),
{
    let o = crate::units::trimmed(output);
    if o.unicode_len() == 0 {
        let a = crate::units::trimmed(archive);
        crate::paths::repaired_path_for(a.as_str(), win)
    } else {
        o
    }
}

/// Where the Create view writes: refused without inputs; otherwise the
/// output field without surrounding whitespace, or else the archive
/// proposed for the inputs.
pub fn create_output(inputs: &[String], output: &str, win: bool) -> (r: Result<String, String>)
    ensures
        match r {
            Ok(o) => inputs@.len() > 0 && o@ == field_or(
                output@,
                crate::paths::default_output_spec(strs(inputs@), win),
            ),
            Err(m) => inputs@.len() == 0 && m@ == "add at least one file or folder"@,
        },
{
    if inputs.len() == 0 {
        return Err(copy_str("add at least one file or folder"));
    }
    let o = crate::units::trimmed(output);
    if o.unicode_len() == 0 {
        Ok(crate::paths::default_output(inputs, win))
    } else {
        Ok(o)
    }
}

/// Whether a job may write `output`: refused when it is already
/// `present` and overwriting was not ticked.
pub fn overwrite_gate(output: &str, present: bool, force: bool) -> (r: Result<(), String>)
    ensures
        r is Ok <==> (!present || force),
        r matches Err(m) ==> m@ == output@ + " already exists — tick “Overwrite” to replace it"@,
{
    if present && !force {
        let mut m = copy_str(output);
        push_str(&mut m, " already exists — tick “Overwrite” to replace it");
        return Err(m);
    }
    Ok(())
}

// ─────────────────────────── preview ───────────────────────────

/// How many bytes of a file the preview pane shows at most.
pub const PREVIEW_CAP: usize = 128 * 1024;

/// Why a file cannot be previewed.
#[derive(Clone, Copy, Debug, PartialEq, Eq)]
pub enum PreviewError {
    /// The file holds a zero byte.
    Binary,
}

/// What the preview pane shows of a file: nothing for a binary file (one
/// holding a zero byte); otherwise its first 128 KiB, and whether it was cut.
pub fn preview_window(bytes: &[u8]) -> (r: Result<(usize, bool), PreviewError>)
    ensures
        match r {
            Ok((n, cut)) => !bytes@.contains(0u8) && n == (if bytes@.len() > PREVIEW_CAP { PREVIEW_CAP as int } else { bytes@.len() as int })
                && cut == (bytes@.len() > PREVIEW_CAP),
            Err(_) => bytes@.contains(0u8),
        },
{
    let mut i: usize = 0;
    while i < bytes.len()
        invariant
            i <= bytes@.len(),
            forall|j: int| 0 <= j < i ==> bytes@[j] != 0u8,
        decreases bytes@.len() - i,
    {
        if bytes[i] == 0 {
            assert(bytes@[i as int] == 0u8);
            return Err(PreviewError::Binary);
        }
        i = i + 1;
    }
    let cut = bytes.len() > PREVIEW_CAP;
    Ok((if cut { PREVIEW_CAP } else { bytes.len() }, cut))
}

// ─────────────────────────── shell mode ───────────────────────────

/// The progress title a shell job shows.
pub open spec fn shell_label_spec(job: ShellJobSpec) -> Seq<char> {
    match job {
        ShellJobSpec::Create(_) | ShellJobSpec::CreateEmail(_) => "Compressing…"@,
        ShellJobSpec::ExtractHere(_) | ShellJobSpec::ExtractInto(_, _) => "Extracting…"@,
        ShellJobSpec::Repair(_) => "Repairing…"@,
        ShellJobSpec::Bad(_) => ""@,
    }
}

/// The progress title a shell job shows.
pub fn shell_label(job: &ShellJob) -> (r: &'static str)
    ensures
        r@ == shell_label_spec(job@),
{
    match job {
        ShellJob::Create(_) | ShellJob::CreateEmail(_) => "Compressing…",
        ShellJob::ExtractHere(_) | ShellJob::ExtractInto { .. } => "Extracting…",
        ShellJob::Repair(_) => "Repairing…",
        ShellJob::Bad(_) => "",
    }
}

/// The work a shell job performs.
#[derive(Clone, Debug)]
pub enum ShellPlan {
    /// Archive `inputs` into `output` (zstd level 3, 1 MiB blocks, no
    /// password, no recovery), then hand it to the mail client when `email`.
    Create { inputs: Vec<String>, output: String, email: bool },
    /// Extract `archive` into `out_dir`, dropping a shared top folder.
    Extract { archive: String, out_dir: String },
    /// Repair `archive` from `volume` into `output`.
    Repair { archive: String, volume: String, output: String },
    /// Nothing to do (the command line was not understood).
    Nothing,
}

/// What a shell plan stands for.
pub enum ShellPlanSpec {
    Create(Seq<Seq<char>>, Seq<char>, bool),
    Extract(Seq<char>, Seq<char>),
    Repair(Seq<char>, Seq<char>, Seq<char>),
    Nothing,
}

impl View for ShellPlan {
    type V = ShellPlanSpec;

    open spec fn view(&self) -> ShellPlanSpec {
        match self {
            ShellPlan::Create { inputs, output, email } => ShellPlanSpec::Create(strs(inputs@), output@, *email),
            ShellPlan::Extract { archive, out_dir } => ShellPlanSpec::Extract(archive@, out_dir@),
            ShellPlan::Repair { archive, volume, output } => ShellPlanSpec::Repair(archive@, volume@, output@),
            ShellPlan::Nothing => ShellPlanSpec::Nothing,
        }
    }
}

/// The plan of a shell job: archives are named after the first item and
/// sit next to it; "extract here" unpacks into a folder named after the
/// archive; repair reads `<archive>.nvol` and writes
/// `<stem>.repaired<.ext>`.
pub open spec fn shell_plan_spec(job: ShellJobSpec, win: bool) -> ShellPlanSpec {
    match job {
        ShellJobSpec::Create(v) => ShellPlanSpec::Create(v, crate::paths::default_output_spec(v, win), false),
        ShellJobSpec::CreateEmail(v) => ShellPlanSpec::Create(v, crate::paths::default_output_spec(v, win), true),
        ShellJobSpec::ExtractHere(a) => ShellPlanSpec::Extract(a, crate::paths::here_dir_spec(a, win)),
        ShellJobSpec::ExtractInto(folder, a) => ShellPlanSpec::Extract(a, folder),
        ShellJobSpec::Repair(a) => ShellPlanSpec::Repair(a, a + ".nvol"@, crate::paths::repaired_path_spec(a, win)),
        ShellJobSpec::Bad(_) => ShellPlanSpec::Nothing,
    }
}

/// The plan of a shell job.
pub fn shell_plan(job: &ShellJob, win: bool) -> (r: ShellPlan)
    ensures
        r@ == shell_plan_spec(job@, win),
{
    match job {
        ShellJob::Create(v) => ShellPlan::Create {
            inputs: copy_strings(v),
            output: crate::paths::default_output(v.as_slice(), win),
            email: false,
        },
        ShellJob::CreateEmail(v) => ShellPlan::Create {
            inputs: copy_strings(v),
            output: crate::paths::default_output(v.as_slice(), win),
            email: true,
        },
        ShellJob::ExtractHere(a) => ShellPlan::Extract {
            archive: copy_str(a.as_str()),
            out_dir: crate::paths::extract_here_dir(a.as_str(), win),
        },
        ShellJob::ExtractInto { folder, archive } => ShellPlan::Extract {
            archive: copy_str(archive.as_str()),
            out_dir: copy_str(folder.as_str()),
        },
        ShellJob::Repair(a) => ShellPlan::Repair {
            archive: copy_str(a.as_str()),
            volume: crate::archive::volume_path_for(a.as_str()),
            output: crate::paths::repaired_path_for(a.as_str(), win),
        },
        ShellJob::Bad(_) => ShellPlan::Nothing,
    }
}

/// The options shell-mode archives are made with: zstd level 3, 1 MiB
/// blocks, no password, no recovery, no terminal output.
pub fn shell_create_options(threads: usize) -> (r: crate::pipeline::CreateOptions)
    ensures
        r.codec == crate::format::CODE_ZSTD,
        r.level == 3,
        r.block_size == 1024 * 1024,
        r.password is None,
        r.threads == threads,
        r.segment_size == 128,
        r.parity == 0,
        r.quiet,
{
    crate::pipeline::CreateOptions {
        codec: crate::format::CODE_ZSTD,
        level: 3,
        block_size: 1024 * 1024,
        password: None,
        threads,
        segment_size: 128,
        parity: 0,
        quiet: true,
    }
}

// ─────────────────────────── mail client ───────────────────────────

/// ASCII uppercase of one character.
pub open spec fn ascii_upper(c: char) -> char {
    if 'a' <= c <= 'z' {
        ((c as u32) - 32) as char
    } else {
        c
    }
}

/// ASCII uppercase of a string.
pub open spec fn ascii_upper_seq(s: Seq<char>) -> Seq<char> {
    Seq::new(s.len(), |j: int| ascii_upper(s[j]))
}

/// Whether `needle` occurs in `s` at position `i`.
pub open spec fn occurs_at(s: Seq<char>, needle: Seq<char>, i: int) -> bool {
    0 <= i && i + needle.len() <= s.len() && s.subrange(i, i + needle.len()) == needle
}

/// Whether a browser stands in for the mail app: its ProgId holds `HTM` in
/// any ASCII case.
pub open spec fn browser_prog_id(prog_id: Seq<char>) -> bool {
    exists|i: int| #[trigger] occurs_at(ascii_upper_seq(prog_id), "HTM"@, i)
}

/// Whether a registry value names something (not only whitespace).
pub open spec fn names_something(v: Seq<char>) -> bool {
    exists|i: int| 0 <= i < v.len() && !crate::units::is_ws(#[trigger] v[i])
}

/// The mail client's name: the user's entry when it names something, else
/// the machine's.
pub open spec fn mail_name(user: Option<Seq<char>>, machine: Option<Seq<char>>) -> Option<Seq<char>> {
    if user is Some && names_something(user->0) {
        user
    } else if machine is Some && names_something(machine->0) {
        machine
    } else {
        None
    }
}

/// Whether a real default mail client is plausible: the `mailto` handler is
/// not a browser, and a mail client other than the legacy `Hotmail` stub is
/// registered.
pub open spec fn mail_client_spec(prog_id: Seq<char>, user: Option<Seq<char>>, machine: Option<Seq<char>>) -> bool {
    !browser_prog_id(prog_id) && match mail_name(user, machine) {
        Some(n) => crate::text::ascii_lower_seq(n) != "hotmail"@,
        None => false,
    }
}

fn upper_char(c: char) -> (r: char)
    ensures
        r == ascii_upper(c),
{
    if 'a' <= c && c <= 'z' {
        ((c as u8) - 32) as char
    } else {
        c
    }
}

fn has_htm(prog_id: &str) -> (r: bool)
    ensures
        r == browser_prog_id(prog_id@),
{
    let cs = chars_of(prog_id);
    let ghost up = ascii_upper_seq(prog_id@);
    let ghost htm: Seq<char> = seq!['H', 'T', 'M'];
    proof {
        reveal_strlit("HTM");
        assert("HTM"@ =~= htm);
    }
    let n = cs.len();
    let mut i: usize = 0;
    while n >= 3 && i < n - 2
        invariant
            cs@ == prog_id@,
            n == cs@.len(),
            "HTM"@ == htm,
            htm == seq!['H', 'T', 'M'],
            up == ascii_upper_seq(prog_id@),
            forall|j: int| 0 <= j < i ==> !#[trigger] occurs_at(up, "HTM"@, j),
        decreases n - i,
    {
        let a = upper_char(cs[i]);
        let b = upper_char(cs[i + 1]);
        let c = upper_char(cs[i + 2]);
        let ghost w = up.subrange(i as int, i + 3);
        assert(w.len() == 3);
        assert(htm.len() == 3 && htm[0] == 'H' && htm[1] == 'T' && htm[2] == 'M');
        assert(w[0] == a && w[1] == b && w[2] == c);
        if a == 'H' && b == 'T' && c == 'M' {
            assert(w =~= htm);
            assert(occurs_at(up, "HTM"@, i as int));
            return true;
        }
        assert(w[0] != htm[0] || w[1] != htm[1] || w[2] != htm[2]);
        assert(w != htm);
        i = i + 1;
    }
    assert forall|j: int| !#[trigger] occurs_at(up, "HTM"@, j) by {
        if 0 <= j && j + 3 <= up.len() {
            assert(j < i);
        }
    }
    false
}

fn names_something_exec(v: &str) -> (r: bool)
    ensures
        r == names_something(v@),
{
    let cs = chars_of(v);
    let mut i: usize = 0;
    while i < cs.len()
        invariant
            i <= cs@.len(),
            cs@ == v@,
            forall|j: int| 0 <= j < i ==> crate::units::is_ws(#[trigger] v@[j]),
        decreases cs@.len() - i,
    {
        if !crate::units::is_ws_exec(cs[i]) {
            return true;
        }
        i = i + 1;
    }
    false
}

/// Whether to hand an archive to the default mail client: the `mailto`
/// handler's ProgId, and the `Clients\Mail` registrations of the user and
/// of the machine (`None` where absent).
pub fn mail_client_plausible(prog_id: &str, user: Option<&str>, machine: Option<&str>) -> (r: bool)
    ensures
        r == mail_client_spec(
            prog_id@,
            match user {
                Some(u) => Some(u@),
                None => None,
            },
            match machine {
                Some(m) => Some(m@),
                None => None,
            },
        ),
{
    if has_htm(prog_id) {
        return false;
    }
    let name: Option<&str> = match user {
        Some(u) if names_something_exec(u) => Some(u),
        _ => match machine {
            Some(m) if names_something_exec(m) => Some(m),
            _ => None,
        },
    };
    match name {
        Some(n) => {
            let low = crate::text::lower_ascii(n);
            let hot = chars_of("hotmail");
            !chars_eq(low.as_slice(), hot.as_slice())
        },
        None => false,
    }
}

/// How handing an archive to the MAPI mail client went: no plausible
/// client is configured, the `MAPISendMailW` entry point could not be
/// loaded, the call returned a status code, or it was still running when
/// the grace window ended (a compose window is open).
#[derive(Clone, Copy, Debug, PartialEq, Eq, Structural)]
pub enum MailStep {
    NoClient,
    NoEntryPoint,
    Returned(u32),
    Pending,
}

/// The status line reported after a mail hand-off, and whether the
/// archive is revealed in Explorer so the user can attach it by hand.
pub open spec fn mail_report_spec(step: MailStep) -> (Seq<char>, bool) {
    match step {
        MailStep::NoClient => ("no mail client found — archive selected in Explorer"@, true),
        MailStep::NoEntryPoint => ("no mail client found — archive selected in Explorer"@, false),
        MailStep::Returned(code) => if code == 0 {
            ("email opened with the archive attached"@, false)
        } else if code == 1 {
            ("email cancelled"@, false)
        } else {
            ("mail client unavailable — archive selected in Explorer"@, true)
        },
        MailStep::Pending => ("email opened in your mail app"@, false),
    }
}

/// The status line after a mail hand-off (MAPI code 0 is success, 1 is
/// the user cancelling), and whether to reveal the archive in Explorer.
pub fn mail_report(step: MailStep) -> (r: (String, bool))
    ensures
        r.0@ == mail_report_spec(step).0,
        r.1 == mail_report_spec(step).1,
{
    match step {
        MailStep::NoClient => (copy_str("no mail client found — archive selected in Explorer"), true),
        MailStep::NoEntryPoint => (copy_str("no mail client found — archive selected in Explorer"), false),
        MailStep::Returned(code) => if code == 0 {
            (copy_str("email opened with the archive attached"), false)
        } else if code == 1 {
            (copy_str("email cancelled"), false)
        } else {
            (copy_str("mail client unavailable — archive selected in Explorer"), true)
        },
        MailStep::Pending => (copy_str("email opened in your mail app"), false),
    }
}

/// What the taskbar progress overlay shows for a window: a fill of
/// `done / total` while a job with a known size runs, nothing otherwise.
#[derive(Clone, Copy, Debug, PartialEq, Eq, Structural)]
pub struct TaskbarState {
    pub window: isize,
    pub active: bool,
    pub done: u64,
    pub total: u64,
}

/// The overlay state for a window, given the live job's `(done, total)`.
pub fn taskbar_state(window: isize, job: Option<(u64, u64)>) -> (r: TaskbarState)
    ensures
        r.window == window,
        match job {
            Some((done, total)) => if total > 0 {
                r.active && r.done == done && r.total == total
            } else {
                !r.active && r.done == 0 && r.total == 0
            },
            None => !r.active && r.done == 0 && r.total == 0,
        },
{
    match job {
        Some((done, total)) if total > 0 => TaskbarState { window, active: true, done, total },
        _ => TaskbarState { window, active: false, done: 0, total: 0 },
    }
}

/// Whether the OS must be told about `next`: only when it differs from
/// the state last sent, so idle frames send nothing.
pub fn taskbar_needs_update(last: Option<TaskbarState>, next: TaskbarState) -> (r: bool)
    ensures
        r <==> last != Some(next),
{
    match last {
        Some(l) => !(l == next),
        None => true,
    }
}

} // verus!
