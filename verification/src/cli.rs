//! The command-line options, and how a human size such as `1.5G` splits into
//! its number and its binary unit.

use vstd::prelude::*;

use crate::text::{chars_of, string_of, trim_chars, trimmed};

verus! {

/// The options the program is started with.
pub struct Cli {
    /// Directory to scan recursively.
    pub path: String,
    /// Don't delete anything; only show what would be reclaimed.
    pub dry_run: bool,
    /// Hide candidates smaller than this size, in bytes.
    pub min_size: u64,
    /// Directory names to skip entirely.
    pub exclude: Vec<String>,
    /// Path to a config file.
    pub config: Option<String>,
    /// Ignore the built-in rule catalog; use only rules from config.
    pub no_default_rules: bool,
    /// Follow symbolic links while scanning.
    pub follow_links: bool,
}

/// Why a size text has no number and unit.
#[derive(Clone, Copy, Debug, PartialEq, Eq, Structural)]
pub enum SizeError {
    /// Nothing but whitespace.
    Empty,
    /// It ends in this character (uppercased), which is neither a digit nor
    /// one of `K`, `M`, `G`, `T`, `B`.
    UnknownSuffix(char),
}

/// A size text split into the text of its number and the number of bytes
/// its unit stands for.
pub struct SizeParts {
    pub number: String,
    pub multiplier: u64,
}

/// `c` with ASCII lowercase letters made uppercase, as
/// `char::to_ascii_uppercase` returns it.
pub open spec fn ascii_upper(c: char) -> u32 {
    if 'a' <= c && c <= 'z' {
        (c as u32 - 32) as u32
    } else {
        c as u32
    }
}

/// `c` with an ASCII lowercase letter made uppercase, as
/// `char::to_ascii_uppercase` returns it.
fn to_ascii_uppercase(c: char) -> (r: char)
    ensures
        r as u32 == ascii_upper(c),
{
    if 'a' <= c && c <= 'z' {
        let b: u8 = c as u8;
        (b - 32) as char
    } else {
        c
    }
}

/// How a size text splits: trimmed, its last character (uppercased) names
/// the unit: `K`, `M`, `G`, `T` are powers of 1024, `B` and a final digit
/// mean bytes; the number is what precedes a unit letter, or all of it.
pub open spec fn size_split(s: Seq<char>) -> Result<(Seq<char>, u64), SizeError> {
    let t = trimmed(s);
    if t.len() == 0 {
        Err(SizeError::Empty)
    } else {
        let u = ascii_upper(t.last());
        if u == 'K' as u32 {
            Ok((t.drop_last(), 1024u64))
        } else if u == 'M' as u32 {
            Ok((t.drop_last(), 0x10_0000u64))
        } else if u == 'G' as u32 {
            Ok((t.drop_last(), 0x4000_0000u64))
        } else if u == 'T' as u32 {
            Ok((t.drop_last(), 0x100_0000_0000u64))
        } else if u == 'B' as u32 {
            Ok((t.drop_last(), 1u64))
        } else if '0' as u32 <= u && u <= '9' as u32 {
            Ok((t, 1u64))
        } else {
            Err(SizeError::UnknownSuffix(t.last()))
        }
    }
}

/// The unit of a size text is its last character once surrounding
/// whitespace is trimmed, read without regard to case: `k`/`K` is 1024 bytes,
/// `m`/`M` 1024², `g`/`G` 1024³, `t`/`T` 1024⁴ and `b`/`B` one byte, the
/// number being what precedes the letter; a final digit makes the whole text
/// the number, counted in bytes; any other final character is an unknown
/// unit, and nothing but whitespace is an empty size.
pub proof fn lemma_size_units(s: Seq<char>)
    ensures
        trimmed(s).len() == 0 ==> size_split(s) == Err::<(Seq<char>, u64), SizeError>(SizeError::Empty),
        trimmed(s).len() > 0 ==> ({
            let t = trimmed(s);
            let l = t[t.len() - 1];
            &&& (l == 'k' || l == 'K') ==> size_split(s) == Ok::<(Seq<char>, u64), SizeError>(
                (t.subrange(0, t.len() - 1), 1024u64),
            )
            &&& (l == 'm' || l == 'M') ==> size_split(s) == Ok::<(Seq<char>, u64), SizeError>(
                (t.subrange(0, t.len() - 1), 1048576u64),
            )
            &&& (l == 'g' || l == 'G') ==> size_split(s) == Ok::<(Seq<char>, u64), SizeError>(
                (t.subrange(0, t.len() - 1), 1073741824u64),
            )
            &&& (l == 't' || l == 'T') ==> size_split(s) == Ok::<(Seq<char>, u64), SizeError>(
                (t.subrange(0, t.len() - 1), 1099511627776u64),
            )
            &&& (l == 'b' || l == 'B') ==> size_split(s) == Ok::<(Seq<char>, u64), SizeError>(
                (t.subrange(0, t.len() - 1), 1u64),
            )
            &&& ('0' <= l && l <= '9') ==> size_split(s) == Ok::<(Seq<char>, u64), SizeError>((t, 1u64))
            &&& !(l == 'k' || l == 'K' || l == 'm' || l == 'M' || l == 'g' || l == 'G' || l == 't' || l == 'T'
                || l == 'b' || l == 'B' || ('0' <= l && l <= '9')) ==> size_split(s) == Err::<
                (Seq<char>, u64),
                SizeError,
            >(SizeError::UnknownSuffix(l))
        }),
{
    let t = trimmed(s);
    if t.len() > 0 {
        assert(t.drop_last() =~= t.subrange(0, t.len() - 1));
        let l = t.last();
        vstd::utf8::char_u32_cast(l, l as u32);
    }
}

/// Splits a human size like `100M`, `1.5G`, `512K`, `2T` (binary units) or a
/// plain byte count into the text of its number and its multiplier. The
/// error for an unknown unit carries the offending character uppercased.
pub fn split_size(s: &str) -> (r: Result<SizeParts, SizeError>)
    ensures
        match (r, size_split(s@)) {
            (Ok(p), Ok((number, multiplier))) => p.number@ == number && p.multiplier == multiplier,
            (Err(SizeError::UnknownSuffix(c)), Err(SizeError::UnknownSuffix(d))) => c as u32 == ascii_upper(d),
            (Err(SizeError::Empty), Err(SizeError::Empty)) => true,
            _ => false,
        },
{
    let t = trim_chars(&chars_of(s));
    let n = t.len();
    if n == 0 {
        return Err(SizeError::Empty);
    }
    let last = t[n - 1];
    let u = to_ascii_uppercase(last);
    let mult: u64 = if u == 'K' {
        1u64 << 10u64
    } else if u == 'M' {
        1u64 << 20u64
    } else if u == 'G' {
        1u64 << 30u64
    } else if u == 'T' {
        1u64 << 40u64
    } else if u == 'B' {
        1
    } else if '0' <= u && u <= '9' {
        return Ok(SizeParts { number: string_of(t.as_slice()), multiplier: 1 });
    } else {
        return Err(SizeError::UnknownSuffix(u));
    };
    assert(1u64 << 10u64 == 1024) by (bit_vector);
    assert(1u64 << 20u64 == 0x10_0000) by (bit_vector);
    assert(1u64 << 30u64 == 0x4000_0000) by (bit_vector);
    assert(1u64 << 40u64 == 0x100_0000_0000) by (bit_vector);
    let mut number_chars: Vec<char> = Vec::new();
    for i in 0..n - 1
        invariant
            n == t@.len(),
            n > 0,
            number_chars@ == t@.take(i as int),
    {
        number_chars.push(t[i]);
        assert(number_chars@ =~= t@.take(i + 1));
    }
    assert(t@.take(n - 1) =~= t@.drop_last());
    Ok(SizeParts { number: string_of(number_chars.as_slice()), multiplier: mult })
}

} // verus!
