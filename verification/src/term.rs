//! Terminal styling: the brand palette, ANSI truecolor helpers and the
//! gradient logo. Whether color is emitted is decided from what the program
//! observes (the `--no-color` flag, `NO_COLOR`, `CLICOLOR_FORCE`, whether
//! stdout and stderr are terminals) and handed to every helper; with color
//! off every helper returns its text unchanged. The gradient's color stops
//! are computed by the program (they are floating-point interpolations) and
//! handed in, one per painted character.

use vstd::prelude::*;

use crate::text::{chars_of, decimal, push_char, push_decimal, push_str};

verus! {

/// Brand accent (indigo, #6366f1).
pub const C_ACCENT: (u8, u8, u8) = (99, 102, 241);

/// Brand accent 2 (violet, #a855f7).
pub const C_ACCENT2: (u8, u8, u8) = (168, 85, 247);

/// Brand accent 3 (fuchsia, #ec4899).
pub const C_ACCENT3: (u8, u8, u8) = (236, 72, 153);

/// Success (#34d399).
pub const C_OK: (u8, u8, u8) = (52, 211, 153);

/// Warning (#fbbf24).
pub const C_WARN: (u8, u8, u8) = (251, 191, 36);

/// Error (#f87171).
pub const C_ERR: (u8, u8, u8) = (248, 113, 113);

/// Dimmed text.
pub const C_DIM: (u8, u8, u8) = (120, 127, 140);

/// Paths (#60a5fa).
pub const C_PATH: (u8, u8, u8) = (96, 165, 250);

/// The truecolor foreground escape for an RGB color.
pub open spec fn fg_escape(c: (u8, u8, u8)) -> Seq<char> {
    "\x1b[38;2;"@ + decimal(c.0 as nat) + ";"@ + decimal(c.1 as nat) + ";"@ + decimal(c.2 as nat) + "m"@
}

/// `s` wrapped in a foreground color escape and a reset, when color is on.
pub open spec fn painted(enabled: bool, c: (u8, u8, u8), s: Seq<char>) -> Seq<char> {
    if enabled {
        fg_escape(c) + s + "\x1b[0m"@
    } else {
        s
    }
}

/// The truecolor foreground escape `ESC[38;2;r;g;bm`.
pub fn rgb_fg(c: (u8, u8, u8)) -> (r: String)
    ensures
        r@ == fg_escape(c),
{
    let mut r = String::new();
    push_str(&mut r, "\x1b[38;2;");
    push_decimal(&mut r, c.0 as u64);
    push_str(&mut r, ";");
    push_decimal(&mut r, c.1 as u64);
    push_str(&mut r, ";");
    push_decimal(&mut r, c.2 as u64);
    push_str(&mut r, "m");
    r
}

/// Wraps `s` in a truecolor foreground escape (unchanged when color is off).
pub fn paint(enabled: bool, c: (u8, u8, u8), s: &str) -> (r: String)
    ensures
        r@ == painted(enabled, c, s@),
{
    if !enabled {
        return crate::text::copy_str(s);
    }
    let mut r = rgb_fg(c);
    push_str(&mut r, s);
    push_str(&mut r, "\x1b[0m");
    r
}

/// Bold text (unchanged when color is off).
pub fn bold(enabled: bool, s: &str) -> (r: String)
    ensures
        r@ == (if enabled { "\x1b[1m"@ + s@ + "\x1b[0m"@ } else { s@ }),
{
    if !enabled {
        return crate::text::copy_str(s);
    }
    let mut r = String::new();
    push_str(&mut r, "\x1b[1m");
    push_str(&mut r, s);
    push_str(&mut r, "\x1b[0m");
    r
}

/// Dimmed text.
pub fn dim(enabled: bool, s: &str) -> (r: String)
    ensures
        r@ == painted(enabled, C_DIM, s@),
{
    paint(enabled, C_DIM, s)
}

/// Success text.
pub fn ok(enabled: bool, s: &str) -> (r: String)
    ensures
        r@ == painted(enabled, C_OK, s@),
{
    paint(enabled, C_OK, s)
}

/// Error text.
pub fn err(enabled: bool, s: &str) -> (r: String)
    ensures
        r@ == painted(enabled, C_ERR, s@),
{
    paint(enabled, C_ERR, s)
}

/// Warning text.
pub fn warn(enabled: bool, s: &str) -> (r: String)
    ensures
        r@ == painted(enabled, C_WARN, s@),
{
    paint(enabled, C_WARN, s)
}

/// Path text.
pub fn path(enabled: bool, s: &str) -> (r: String)
    ensures
        r@ == painted(enabled, C_PATH, s@),
{
    paint(enabled, C_PATH, s)
}

/// Whether color is on when the terminal was probed: `NO_COLOR` turns it
/// off, `CLICOLOR_FORCE` on, and otherwise both stdout and stderr must be
/// terminals.
pub open spec fn detected_spec(no_color_env: bool, force_env: bool, stdout_tty: bool, stderr_tty: bool) -> bool {
    if no_color_env {
        false
    } else if force_env {
        true
    } else {
        stdout_tty && stderr_tty
    }
}

/// Decides color from the environment and the terminals.
pub fn detect_color(no_color_env: bool, force_env: bool, stdout_tty: bool, stderr_tty: bool) -> (r: bool)
    ensures
        r == detected_spec(no_color_env, force_env, stdout_tty, stderr_tty),
{
    if no_color_env {
        false
    } else if force_env {
        true
    } else {
        stdout_tty && stderr_tty
    }
}

/// Whether color is on: `--no-color` forces it off, else what detection
/// found.
pub fn init(no_color: bool, detected: bool) -> (r: bool)
    ensures
        r == (!no_color && detected),
{
    !no_color && detected
}

/// One character painted with a color.
pub open spec fn painted_char(c: (u8, u8, u8), ch: char) -> Seq<char> {
    fg_escape(c) + seq![ch] + "\x1b[0m"@
}

/// Each character of `s` painted with the stop of the same position.
pub open spec fn grad_spec(s: Seq<char>, stops: Seq<(u8, u8, u8)>) -> Seq<char>
    decreases s.len(),
{
    if s.len() == 0 {
        Seq::empty()
    } else {
        grad_spec(s.drop_last(), stops) + painted_char(stops[s.len() - 1], s.last())
    }
}

fn push_painted_char(out: &mut String, c: (u8, u8, u8), ch: char)
    ensures
        final(out)@ == old(out)@ + painted_char(c, ch),
{
    let e = rgb_fg(c);
    push_str(out, e.as_str());
    push_char(out, ch);
    push_str(out, "\x1b[0m");
    assert(final(out)@ =~= old(out)@ + painted_char(c, ch));
}

/// The brand gradient across `s`, one color stop per character (`s`
/// unchanged when color is off).
pub fn grad(enabled: bool, s: &str, stops: &[(u8, u8, u8)]) -> (r: String)
    requires
        enabled ==> stops@.len() >= s@.len(),
    ensures
        r@ == (if enabled { grad_spec(s@, stops@) } else { s@ }),
{
    if !enabled {
        return crate::text::copy_str(s);
    }
    let cs = chars_of(s);
    let mut out = String::new();
    let mut i: usize = 0;
    while i < cs.len()
        invariant
            i <= cs@.len(),
            cs@ == s@,
            stops@.len() >= s@.len(),
            out@ == grad_spec(cs@.take(i as int), stops@),
        decreases cs@.len() - i,
    {
        proof {
            assert(cs@.take(i + 1).drop_last() =~= cs@.take(i as int));
        }
        push_painted_char(&mut out, stops[i], cs[i]);
        i = i + 1;
    }
    assert(cs@.take(i as int) =~= cs@);
    out
}

/// Row `i` of the "NEXTAR" wordmark.
pub open spec fn logo_row_spec(i: int) -> Seq<char> {
    if i == 0 {
        " _   _  _____ __  __  _____     _     ____  "@
    } else if i == 1 {
        "| \\ | | | ____| \\ \\/ /  |_   _|    / \\    |  _ \\ "@
    } else if i == 2 {
        "|  \\| | |  _|    \\  /     | |     / _ \\   | |_) |"@
    } else if i == 3 {
        "| |\\  | | |___   /  \\     | |    / ___ \\  |  _ < "@
    } else {
        "|_| \\_| |_____| /_/\\_\\    |_|   /_/   \\_\\ |_| \\_\\"@
    }
}

/// Number of rows of the wordmark.
pub const LOGO_ROWS: usize = 5;

/// Row `i` of the "NEXTAR" wordmark.
fn logo_row(i: usize) -> (r: &'static str)
    requires
        i < LOGO_ROWS,
    ensures
        r@ == logo_row_spec(i as int),
{
    if i == 0 {
        " _   _  _____ __  __  _____     _     ____  "
    } else if i == 1 {
        "| \\ | | | ____| \\ \\/ /  |_   _|    / \\    |  _ \\ "
    } else if i == 2 {
        "|  \\| | |  _|    \\  /     | |     / _ \\   | |_) |"
    } else if i == 3 {
        "| |\\  | | |___   /  \\     | |    / ___ \\  |  _ < "
    } else {
        "|_| \\_| |_____| /_/\\_\\    |_|   /_/   \\_\\ |_| \\_\\"
    }
}

/// The banner's tagline.
pub open spec fn tagline_spec() -> Seq<char> {
    "  next-generation archiver  ·  zstd + lzma2  ·  argon2id + xchacha20-poly1305  ·  reed-solomon\n"@
}

/// Number of non-space characters of `s`.
pub open spec fn glyphs(s: Seq<char>) -> nat
    decreases s.len(),
{
    if s.len() == 0 {
        0
    } else {
        glyphs(s.drop_last()) + if s.last() == ' ' { 0nat } else { 1nat }
    }
}

/// Non-space characters of the first `n` rows.
pub open spec fn glyphs_before(n: int) -> nat
    decreases n,
{
    if n <= 0 {
        0
    } else {
        glyphs_before(n - 1) + glyphs(logo_row_spec(n - 1))
    }
}

/// A row with each non-space character painted with the next stop,
/// counting from `first`; spaces stay plain.
pub open spec fn paint_row(row: Seq<char>, stops: Seq<(u8, u8, u8)>, first: nat) -> Seq<char>
    decreases row.len(),
{
    if row.len() == 0 {
        Seq::empty()
    } else if row.last() == ' ' {
        paint_row(row.drop_last(), stops, first).push(' ')
    } else {
        paint_row(row.drop_last(), stops, first) + painted_char(stops[(first + glyphs(row.drop_last())) as int], row.last())
    }
}

/// The first `n` rows of the wordmark, each followed by a newline, painted
/// when color is on.
pub open spec fn logo_rows_spec(enabled: bool, stops: Seq<(u8, u8, u8)>, n: int) -> Seq<char>
    decreases n,
{
    if n <= 0 {
        Seq::empty()
    } else {
        logo_rows_spec(enabled, stops, n - 1) + (if enabled {
            paint_row(logo_row_spec(n - 1), stops, glyphs_before(n - 1))
        } else {
            logo_row_spec(n - 1)
        }) + "\n"@
    }
}

/// The full banner: the wordmark and the dimmed tagline.
pub open spec fn banner_spec(enabled: bool, stops: Seq<(u8, u8, u8)>) -> Seq<char> {
    logo_rows_spec(enabled, stops, LOGO_ROWS as int) + painted(enabled, C_DIM, tagline_spec())
}

proof fn lemma_glyphs_le(s: Seq<char>)
    ensures
        glyphs(s) <= s.len(),
    decreases s.len(),
{
    if s.len() > 0 {
        lemma_glyphs_le(s.drop_last());
    }
}

proof fn lemma_glyphs_before_mono(a: int, b: int)
    requires
        a <= b,
    ensures
        glyphs_before(a) <= glyphs_before(b),
    decreases b - a,
{
    if a < b {
        lemma_glyphs_before_mono(a, b - 1);
    }
}

proof fn lemma_glyph_total_bound()
    ensures
        glyphs_before(LOGO_ROWS as int) <= 300,
{
    reveal_strlit(" _   _  _____ __  __  _____     _     ____  ");
    reveal_strlit("| \\ | | | ____| \\ \\/ /  |_   _|    / \\    |  _ \\ ");
    reveal_strlit("|  \\| | |  _|    \\  /     | |     / _ \\   | |_) |");
    reveal_strlit("| |\\  | | |___   /  \\     | |    / ___ \\  |  _ < ");
    reveal_strlit("|_| \\_| |_____| /_/\\_\\    |_|   /_/   \\_\\ |_| \\_\\");
    lemma_glyphs_le(logo_row_spec(0));
    lemma_glyphs_le(logo_row_spec(1));
    lemma_glyphs_le(logo_row_spec(2));
    lemma_glyphs_le(logo_row_spec(3));
    lemma_glyphs_le(logo_row_spec(4));
    reveal_with_fuel(glyphs_before, 6);
}

/// How many gradient stops the banner paints: the non-space characters of
/// the wordmark.
pub fn logo_glyph_count() -> (r: usize)
    ensures
        r == glyphs_before(LOGO_ROWS as int),
{
    let mut total: usize = 0;
    let mut k: usize = 0;
    while k < LOGO_ROWS
        invariant
            k <= LOGO_ROWS,
            total == glyphs_before(k as int),
        decreases LOGO_ROWS - k,
    {
        let row = chars_of(logo_row(k));
        let mut i: usize = 0;
        let mut n: usize = 0;
        while i < row.len()
            invariant
                i <= row@.len(),
                n == glyphs(row@.take(i as int)),
            decreases row@.len() - i,
        {
            proof {
                assert(row@.take(i + 1).drop_last() =~= row@.take(i as int));
                lemma_glyphs_le(row@.take(i as int));
            }
            if row[i] != ' ' {
                n = n + 1;
            }
            i = i + 1;
        }
        assert(row@.take(i as int) =~= row@);
        proof {
            lemma_glyphs_le(row@);
            lemma_glyphs_before_mono(k as int + 1, LOGO_ROWS as int);
            lemma_glyph_total_bound();
        }
        total = total + n;
        k = k + 1;
    }
    total
}

fn push_row(out: &mut String, enabled: bool, row: &str, stops: &[(u8, u8, u8)], first: usize)
    requires
        enabled ==> first + glyphs(row@) <= stops@.len(),
    ensures
        final(out)@ == old(out)@ + (if enabled { paint_row(row@, stops@, first as nat) } else { row@ }),
{
    if !enabled {
        push_str(out, row);
        return;
    }
    let cs = chars_of(row);
    let ghost start = out@;
    let mut i: usize = 0;
    let mut idx: usize = first;
    while i < cs.len()
        invariant
            i <= cs@.len(),
            cs@ == row@,
            first + glyphs(row@) <= stops@.len(),
            idx == first + glyphs(cs@.take(i as int)),
            out@ == start + paint_row(cs@.take(i as int), stops@, first as nat),
        decreases cs@.len() - i,
    {
        let ghost pre = cs@.take(i as int);
        proof {
            assert(cs@.take(i + 1).drop_last() =~= pre);
            lemma_glyphs_prefix(cs@, i as int + 1);
        }
        if cs[i] == ' ' {
            push_char(out, ' ');
        } else {
            push_painted_char(out, stops[idx], cs[i]);
            idx = idx + 1;
        }
        i = i + 1;
        assert(out@ =~= start + paint_row(cs@.take(i as int), stops@, first as nat));
    }
    assert(cs@.take(i as int) =~= cs@);
}

proof fn lemma_glyphs_prefix(s: Seq<char>, n: int)
    requires
        0 <= n <= s.len(),
    ensures
        glyphs(s.take(n)) <= glyphs(s),
    decreases s.len() - n,
{
    if n < s.len() {
        lemma_glyphs_prefix(s, n + 1);
        assert(s.take(n + 1).drop_last() =~= s.take(n));
    } else {
        assert(s.take(n) =~= s);
    }
}

/// The logo banner: the gradient wordmark and the dimmed tagline (plain
/// text when color is off). `stops` holds one color per wordmark glyph.
pub fn banner(enabled: bool, stops: &[(u8, u8, u8)]) -> (r: String)
    requires
        enabled ==> stops@.len() >= glyphs_before(LOGO_ROWS as int),
    ensures
        r@ == banner_spec(enabled, stops@),
{
    let mut out = String::new();
    let mut k: usize = 0;
    let mut idx: usize = 0;
    let total = logo_glyph_count();
    while k < LOGO_ROWS
        invariant
            k <= LOGO_ROWS,
            total == glyphs_before(LOGO_ROWS as int),
            enabled ==> stops@.len() >= total,
            idx == glyphs_before(k as int),
            idx <= total,
            out@ == logo_rows_spec(enabled, stops@, k as int),
        decreases LOGO_ROWS - k,
    {
        let row = logo_row(k);
        proof {
            lemma_glyphs_before_mono(k as int + 1, LOGO_ROWS as int);
        }
        push_row(&mut out, enabled, row, stops, idx);
        push_str(&mut out, "\n");
        let n = {
            let cs = chars_of(row);
            let mut i: usize = 0;
            let mut n: usize = 0;
            while i < cs.len()
                invariant
                    i <= cs@.len(),
                    n == glyphs(cs@.take(i as int)),
                    glyphs(cs@) <= total,
                decreases cs@.len() - i,
            {
                proof {
                    assert(cs@.take(i + 1).drop_last() =~= cs@.take(i as int));
                    lemma_glyphs_prefix(cs@, i as int + 1);
                }
                if cs[i] != ' ' {
                    n = n + 1;
                }
                i = i + 1;
            }
            assert(cs@.take(i as int) =~= cs@);
            n
        };
        idx = idx + n;
        k = k + 1;
    }
    let tag = dim(enabled, "  next-generation archiver  ·  zstd + lzma2  ·  argon2id + xchacha20-poly1305  ·  reed-solomon\n");
    push_str(&mut out, tag.as_str());
    out
}

} // verus!
