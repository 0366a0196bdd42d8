//! Decisions of the command-line program: the compression settings a
//! `create` request resolves to, and when the logo banner is shown.

use vstd::prelude::*;

use crate::format::{codec_for_name, CODE_LZMA2, CODE_ZSTD};
use crate::text::{ascii_lower_seq, str_eq, strs};
use crate::units::{size_value, SizeError, MAX_BLOCK_SIZE, MIN_BLOCK_SIZE};

verus! {

/// The level a codec is used at when none is given: 3 for zstd, 6 for
/// LZMA2, 0 otherwise.
pub open spec fn default_level_spec(codec: u8) -> i32 {
    if codec == CODE_ZSTD {
        3
    } else if codec == CODE_LZMA2 {
        6
    } else {
        0
    }
}

/// The level a codec is used at when none is given.
pub fn default_level(codec: u8) -> (r: i32)
    ensures
        r == default_level_spec(codec),
{
    if codec == CODE_ZSTD {
        3
    } else if codec == CODE_LZMA2 {
        6
    } else {
        0
    }
}

/// Why a `create` request's settings were refused.
#[derive(Debug)]
pub enum CliError {
    /// The codec name matches no codec (lowercased).
    UnknownCodec(String),
    /// The block size is not a size.
    Size(SizeError),
    /// The block size is outside 512 bytes ..= 64 MiB.
    BlockOutOfRange(u32),
}

/// The codec, level and block size a `create` request resolves to: the
/// codec by name (any ASCII case), the given level or the codec's default,
/// and the block size parsed with its suffix, which must lie in
/// 512 bytes ..= 64 MiB.
pub fn create_params(codec: &str, level: Option<i32>, block_size: &str) -> (r: Result<(u8, i32, u32), CliError>)
    ensures
        match r {
            Ok((c, l, b)) => {
                &&& codec_for_name(ascii_lower_seq(codec@)) == Some(c)
                &&& l == (match level {
                    Some(x) => x,
                    None => default_level_spec(c),
                })
                &&& size_value(block_size@) == Some(b as nat)
                &&& MIN_BLOCK_SIZE <= b <= MAX_BLOCK_SIZE
            },
            Err(CliError::UnknownCodec(n)) => codec_for_name(ascii_lower_seq(codec@)) is None && n@ == ascii_lower_seq(codec@),
            Err(CliError::Size(SizeError::Invalid)) => codec_for_name(ascii_lower_seq(codec@)) is Some && size_value(block_size@) is None,
            Err(CliError::Size(SizeError::TooLarge)) => codec_for_name(ascii_lower_seq(codec@)) is Some && size_value(block_size@) is Some
                && size_value(block_size@)->0 > u32::MAX,
            Err(CliError::Size(SizeError::OutOfRange)) => false,
            Err(CliError::BlockOutOfRange(b)) => codec_for_name(ascii_lower_seq(codec@)) is Some && size_value(block_size@) == Some(
                b as nat,
            ) && !(MIN_BLOCK_SIZE <= b <= MAX_BLOCK_SIZE),
        },
{
    let c = match crate::format::codec_from_name(codec) {
        Ok(c) => c,
        Err(e) => return Err(CliError::UnknownCodec(e.name)),
    };
    let l = match level {
        Some(x) => x,
        None => default_level(c),
    };
    let b = match crate::units::parse_size(block_size) {
        Ok(b) => b,
        Err(e) => return Err(CliError::Size(e)),
    };
    if b < MIN_BLOCK_SIZE || b > MAX_BLOCK_SIZE {
        return Err(CliError::BlockOutOfRange(b));
    }
    Ok((c, l, b))
}

/// Whether an argument asks for help or the version.
pub open spec fn is_help_flag(a: Seq<char>) -> bool {
    a == "-h"@ || a == "--help"@ || a == "-V"@ || a == "--version"@
}

/// The banner is shown above help and version output, and for a bare
/// invocation.
pub fn wants_banner(args: &[String]) -> (r: bool)
    ensures
        r == (args@.len() == 0 || exists|i: int| 0 <= i < args@.len() && #[trigger] is_help_flag(strs(args@)[i])),
{
    if args.len() == 0 {
        return true;
    }
    let mut i: usize = 0;
    while i < args.len()
        invariant
            i <= args@.len(),
            forall|j: int| 0 <= j < i ==> !#[trigger] is_help_flag(strs(args@)[j]),
        decreases args@.len() - i,
    {
        let a = args[i].as_str();
        assert(strs(args@)[i as int] == a@);
        if str_eq(a, "-h") || str_eq(a, "--help") || str_eq(a, "-V") || str_eq(a, "--version") {
            assert(is_help_flag(strs(args@)[i as int]));
            return true;
        }
        i = i + 1;
    }
    false
}

/// Whether `--no-color` is among the arguments.
pub fn no_color_requested(args: &[String]) -> (r: bool)
    ensures
        r == exists|i: int| 0 <= i < args@.len() && #[trigger] strs(args@)[i] == "--no-color"@,
{
    let mut i: usize = 0;
    while i < args.len()
        invariant
            i <= args@.len(),
            forall|j: int| 0 <= j < i ==> #[trigger] strs(args@)[j] != "--no-color"@,
        decreases args@.len() - i,
    {
        let a = args[i].as_str();
        assert(strs(args@)[i as int] == a@);
        if str_eq(a, "--no-color") {
            return true;
        }
        i = i + 1;
    }
    false
}

} // verus!
