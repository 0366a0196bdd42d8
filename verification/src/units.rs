//! Parsing of human-written sizes such as `512`, `256K`, `1M`, `2G`
//! (binary suffixes, either case), as the command line and the desktop
//! app accept them for the chunk size.

use vstd::prelude::*;

use crate::text::chars_of;

verus! {

/// Unicode `White_Space` (what `char::is_whitespace` and `str::trim` use).
pub open spec fn is_ws(c: char) -> bool {
    ||| '\u{9}' <= c <= '\u{d}'
    ||| c == ' '
    ||| c == '\u{85}'
    ||| c == '\u{a0}'
    ||| c == '\u{1680}'
    ||| '\u{2000}' <= c <= '\u{200a}'
    ||| c == '\u{2028}'
    ||| c == '\u{2029}'
    ||| c == '\u{202f}'
    ||| c == '\u{205f}'
    ||| c == '\u{3000}'
}

/// `s` without leading whitespace.
pub open spec fn trim_start(s: Seq<char>) -> Seq<char>
    decreases s.len(),
{
    if s.len() > 0 && is_ws(s[0]) {
        trim_start(s.drop_first())
    } else {
        s
    }
}

/// `s` without trailing whitespace.
pub open spec fn trim_end(s: Seq<char>) -> Seq<char>
    decreases s.len(),
{
    if s.len() > 0 && is_ws(s.last()) {
        trim_end(s.drop_last())
    } else {
        s
    }
}

/// `s` without leading or trailing whitespace.
pub open spec fn trim(s: Seq<char>) -> Seq<char> {
    trim_end(trim_start(s))
}

/// Value of a non-empty string of ASCII digits.
pub open spec fn digits_value(s: Seq<char>) -> nat
    decreases s.len(),
{
    if s.len() == 0 {
        0
    } else {
        digits_value(s.drop_last()) * 10 + ((s.last() as nat) - 48) as nat
    }
}

/// All characters are ASCII digits.
pub open spec fn all_digits(s: Seq<char>) -> bool {
    forall|i: int| 0 <= i < s.len() ==> '0' <= #[trigger] s[i] <= '9'
}

/// What `u64::from_str` accepts: an optional `+` and at least one ASCII
/// digit, with a value that fits in 64 bits.
pub open spec fn parse_u64_spec(s: Seq<char>) -> Option<nat> {
    let d = if s.len() > 0 && s[0] == '+' { s.drop_first() } else { s };
    if d.len() > 0 && all_digits(d) && digits_value(d) <= u64::MAX {
        Some(digits_value(d))
    } else {
        None
    }
}

/// The multiplier a size suffix selects, with the number part.
pub open spec fn split_suffix(s: Seq<char>) -> (Seq<char>, nat) {
    if s.len() > 0 && (s.last() == 'k' || s.last() == 'K') {
        (s.drop_last(), 1024)
    } else if s.len() > 0 && (s.last() == 'm' || s.last() == 'M') {
        (s.drop_last(), 1024 * 1024)
    } else if s.len() > 0 && (s.last() == 'g' || s.last() == 'G') {
        (s.drop_last(), 1024 * 1024 * 1024)
    } else {
        (s, 1)
    }
}

/// The byte count a size string denotes, if its number parses.
pub open spec fn size_value(s: Seq<char>) -> Option<nat> {
    let t = trim(s);
    let (num, mult) = split_suffix(t);
    match parse_u64_spec(trim(num)) {
        Some(n) => Some(n * mult),
        None => None,
    }
}

/// Why a size string was rejected.
#[derive(Clone, Copy, Debug, PartialEq, Eq)]
pub enum SizeError {
    /// The number part is not a valid unsigned integer.
    Invalid,
    /// The size does not fit in 32 bits.
    TooLarge,
    /// The chunk size is outside 512 bytes ..= 64 MiB.
    OutOfRange,
}

/// Whether a character is Unicode whitespace.
pub fn is_ws_exec(c: char) -> (r: bool)
    ensures
        r == is_ws(c),
{
    ('\u{9}' <= c && c <= '\u{d}') || c == ' ' || c == '\u{85}' || c == '\u{a0}' || c == '\u{1680}' || (
    '\u{2000}' <= c && c <= '\u{200a}') || c == '\u{2028}' || c == '\u{2029}' || c == '\u{202f}' || c
        == '\u{205f}' || c == '\u{3000}'
}

proof fn lemma_trim_start_skip(s: Seq<char>, i: int)
    requires
        0 <= i <= s.len(),
        forall|j: int| 0 <= j < i ==> is_ws(#[trigger] s[j]),
    ensures
        trim_start(s) == trim_start(s.skip(i)),
    decreases i,
{
    if i > 0 {
        assert(s.skip(1) =~= s.drop_first());
        lemma_trim_start_skip(s.drop_first(), i - 1);
        assert(s.drop_first().skip(i - 1) =~= s.skip(i));
    } else {
        assert(s.skip(0) =~= s);
    }
}

proof fn lemma_trim_end_take(s: Seq<char>, j: int)
    requires
        0 <= j <= s.len(),
        forall|x: int| j <= x < s.len() ==> is_ws(#[trigger] s[x]),
    ensures
        trim_end(s) == trim_end(s.take(j)),
    decreases s.len() - j,
{
    if j < s.len() {
        assert(s.drop_last().take(j) =~= s.take(j));
        lemma_trim_end_take(s.drop_last(), j);
    } else {
        assert(s.take(j) =~= s);
    }
}

/// `s` without surrounding whitespace.
pub(crate) fn trimmed(s: &str) -> (r: String)
    ensures
        r@ == trim(s@),
{
    let cs = crate::text::chars_of(s);
    let t = trim_chars(cs.as_slice());
    crate::text::string_from_chars(t.as_slice())
}

pub(crate) fn trim_chars(s: &[char]) -> (r: Vec<char>)
    ensures
        r@ == trim(s@),
{
    let mut a: usize = 0;
    while a < s.len() && is_ws_exec(s[a])
        invariant
            a <= s@.len(),
            forall|j: int| 0 <= j < a ==> is_ws(#[trigger] s@[j]),
        decreases s@.len() - a,
    {
        a = a + 1;
    }
    let mut b: usize = s.len();
    while b > a && is_ws_exec(s[b - 1])
        invariant
            a <= b <= s@.len(),
            forall|x: int| b <= x < s@.len() ==> is_ws(#[trigger] s@[x]),
        decreases b,
    {
        b = b - 1;
    }
    proof {
        lemma_trim_start_skip(s@, a as int);
        let t = s@.skip(a as int);
        assert(a == s@.len() || !is_ws(t[0]));
        assert(trim_start(t) == t);
        lemma_trim_end_take(t, (b - a) as int);
        assert(t.take((b - a) as int) =~= s@.subrange(a as int, b as int));
        let u = s@.subrange(a as int, b as int);
        assert(u.len() == 0 || !is_ws(u.last()));
    }
    vstd::slice::slice_to_vec(vstd::slice::slice_subrange(s, a, b))
}

proof fn lemma_digits_value_push(s: Seq<char>, c: char)
    ensures
        digits_value(s.push(c)) == digits_value(s) * 10 + ((c as nat) - 48) as nat,
{
    assert(s.push(c).drop_last() =~= s);
}

fn parse_u64(s: &[char]) -> (r: Option<u64>)
    ensures
        match r {
            Some(v) => parse_u64_spec(s@) == Some(v as nat),
            None => parse_u64_spec(s@) is None,
        },
{
    let start: usize = if s.len() > 0 && s[0] == '+' { 1 } else { 0 };
    let ghost d = if s@.len() > 0 && s@[0] == '+' { s@.drop_first() } else { s@ };
    assert(d =~= s@.skip(start as int));
    if start >= s.len() {
        return None;
    }
    let mut v: u64 = 0;
    let mut i: usize = start;
    while i < s.len()
        invariant
            start <= i <= s@.len(),
            d == s@.skip(start as int),
            d == (if s@.len() > 0 && s@[0] == '+' { s@.drop_first() } else { s@ }),
            all_digits(s@.subrange(start as int, i as int)),
            v as nat == digits_value(s@.subrange(start as int, i as int)),
        decreases s@.len() - i,
    {
        let c = s[i];
        if !('0' <= c && c <= '9') {
            assert(d[i - start] == c);
            assert(!all_digits(d));
            return None;
        }
        let ghost pre = s@.subrange(start as int, i as int);
        proof {
            assert(s@.subrange(start as int, i + 1) =~= pre.push(c));
            lemma_digits_value_push(pre, c);
            assert(d.take(i + 1 - start) =~= s@.subrange(start as int, i + 1));
        }
        let digit = (c as u32 - 48) as u64;
        let m = match v.checked_mul(10) {
            Some(m) => m,
            None => {
                proof {
                    if all_digits(d) {
                        lemma_digits_value_mono(d, i + 1 - start);
                    }
                }
                return None;
            },
        };
        v = match m.checked_add(digit) {
            Some(x) => x,
            None => {
                proof {
                    if all_digits(d) {
                        lemma_digits_value_mono(d, i + 1 - start);
                    }
                }
                return None;
            },
        };
        i = i + 1;
    }
    assert(s@.subrange(start as int, i as int) =~= d);
    Some(v)
}

proof fn lemma_digits_value_mono(s: Seq<char>, n: int)
    requires
        0 <= n <= s.len(),
        all_digits(s),
    ensures
        digits_value(s.take(n)) <= digits_value(s),
    decreases s.len() - n,
{
    if n < s.len() {
        lemma_digits_value_mono(s, n + 1);
        assert(s.take(n + 1).drop_last() =~= s.take(n));
    } else {
        assert(s.take(n) =~= s);
    }
}

/// The number part and multiplier of a trimmed size string.
fn split_size(t: &[char]) -> (r: (Vec<char>, u64))
    ensures
        r.0@ == split_suffix(t@).0,
        r.1 as nat == split_suffix(t@).1,
{
    let n = t.len();
    if n > 0 {
        let c = t[n - 1];
        let mult: u64 = if c == 'k' || c == 'K' {
            1024
        } else if c == 'm' || c == 'M' {
            1024 * 1024
        } else if c == 'g' || c == 'G' {
            1024 * 1024 * 1024
        } else {
            1
        };
        if mult != 1 {
            let num = vstd::slice::slice_to_vec(vstd::slice::slice_subrange(t, 0, n - 1));
            assert(num@ =~= t@.drop_last());
            return (num, mult);
        }
    }
    (vstd::slice::slice_to_vec(t), 1)
}

/// The byte count a size string denotes, before any range check.
fn size_of_text(s: &str) -> (r: Option<u128>)
    ensures
        match r {
            Some(v) => size_value(s@) == Some(v as nat),
            None => size_value(s@) is None,
        },
{
    let cs = crate::text::chars_of(s);
    let t = trim_chars(cs.as_slice());
    let (num, mult) = split_size(t.as_slice());
    let num_t = trim_chars(num.as_slice());
    match parse_u64(num_t.as_slice()) {
        Some(n) => {
            assert(mult <= 1024 * 1024 * 1024);
            assert((n as u128) * (mult as u128) <= 0xffff_ffff_ffff_ffff * (1024 * 1024 * 1024)) by (nonlinear_arith)
                requires
                    n <= 0xffff_ffff_ffff_ffffu64,
                    mult <= 1024 * 1024 * 1024,
            ;
            let v: u128 = (n as u128) * (mult as u128);
            Some(v)
        },
        None => None,
    }
}

/// Parses a size such as `512`, `256K`, `1M` or `2G` (binary suffixes,
/// either case, surrounding whitespace ignored) into a byte count.
pub fn parse_size(s: &str) -> (r: Result<u32, SizeError>)
    ensures
        match r {
            Ok(v) => size_value(s@) == Some(v as nat),
            Err(SizeError::Invalid) => size_value(s@) is None,
            Err(SizeError::TooLarge) => size_value(s@) is Some && size_value(s@)->0 > u32::MAX,
            Err(SizeError::OutOfRange) => false,
        },
{
    match size_of_text(s) {
        None => Err(SizeError::Invalid),
        Some(v) => {
            if v > 0xffff_ffffu128 {
                Err(SizeError::TooLarge)
            } else {
                Ok(v as u32)
            }
        },
    }
}

/// Smallest accepted block size (512 bytes).
pub const MIN_BLOCK_SIZE: u32 = 512;

/// Largest accepted block size (64 MiB).
pub const MAX_BLOCK_SIZE: u32 = 64 * 1024 * 1024;

/// The outcome `parse_block` reaches for a text.
pub open spec fn parse_block_outcome(s: Seq<char>) -> Result<u32, SizeError> {
    match size_value(s) {
        None => Err(SizeError::Invalid),
        Some(v) => if MIN_BLOCK_SIZE <= v <= MAX_BLOCK_SIZE {
            Ok(v as u32)
        } else {
            Err(SizeError::OutOfRange)
        },
    }
}

/// Parses a block size as [`parse_size`] does and checks that it lies in
/// 512 bytes ..= 64 MiB.
pub fn parse_block(s: &str) -> (r: Result<u32, SizeError>)
    ensures
        r == parse_block_outcome(s@),
        match r {
            Ok(v) => size_value(s@) == Some(v as nat) && MIN_BLOCK_SIZE <= v <= MAX_BLOCK_SIZE,
            Err(SizeError::Invalid) => size_value(s@) is None,
            Err(SizeError::OutOfRange) => size_value(s@) is Some && !(MIN_BLOCK_SIZE <= size_value(s@)->0 <= MAX_BLOCK_SIZE),
            Err(SizeError::TooLarge) => false,
        },
{
    match size_of_text(s) {
        None => Err(SizeError::Invalid),
        Some(v) => {
            if v < 512 || v > 64 * 1024 * 1024 {
                Err(SizeError::OutOfRange)
            } else {
                Ok(v as u32)
            }
        },
    }
}

} // verus!
