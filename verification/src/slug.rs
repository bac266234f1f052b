//! Text slugification: each character maps to a lowercase ASCII letter or
//! digit where one is known (accented Latin letters fold to their base
//! letter) and to `-` otherwise; runs of `-` collapse to one, and a trailing
//! `-` is dropped unless it is the only character.

use vstd::prelude::*;
use vstd::string::StrSliceExecFns;
use crate::text::chars_to_string;

verus! {

/// The folding table: each accented lowercase letter's base ASCII letter.
pub open spec fn fold_sub(c: char) -> Option<char> {
    if c == '\u{e0}' || c == '\u{e1}' || c == '\u{e2}' || c == '\u{e4}' || c == '\u{e6}' || c == '\u{e3}' || c == '\u{e5}' || c == '\u{101}' || c == '\u{103}' || c == '\u{105}' {
        Some('a')
    } else if c == '\u{e7}' || c == '\u{107}' || c == '\u{10d}' {
        Some('c')
    } else if c == '\u{111}' || c == '\u{10f}' {
        Some('d')
    } else if c == '\u{e8}' || c == '\u{e9}' || c == '\u{ea}' || c == '\u{eb}' || c == '\u{113}' || c == '\u{117}' || c == '\u{119}' || c == '\u{11b}' {
        Some('e')
    } else if c == '\u{11f}' || c == '\u{1f5}' {
        Some('g')
    } else if c == '\u{1e27}' {
        Some('h')
    } else if c == '\u{ee}' || c == '\u{ef}' || c == '\u{ed}' || c == '\u{12b}' || c == '\u{12f}' || c == '\u{ec}' || c == '\u{131}' || c == '\u{130}' {
        Some('i')
    } else if c == '\u{142}' {
        Some('l')
    } else if c == '\u{1e3f}' {
        Some('m')
    } else if c == '\u{f1}' || c == '\u{144}' || c == '\u{1f9}' || c == '\u{148}' {
        Some('n')
    } else if c == '\u{f4}' || c == '\u{f6}' || c == '\u{f2}' || c == '\u{f3}' || c == '\u{153}' || c == '\u{f8}' || c == '\u{14d}' || c == '\u{f5}' || c == '\u{151}' {
        Some('o')
    } else if c == '\u{1e55}' {
        Some('p')
    } else if c == '\u{155}' || c == '\u{159}' {
        Some('r')
    } else if c == '\u{df}' || c == '\u{15b}' || c == '\u{161}' || c == '\u{15f}' || c == '\u{219}' {
        Some('s')
    } else if c == '\u{165}' || c == '\u{21b}' {
        Some('t')
    } else if c == '\u{fb}' || c == '\u{fc}' || c == '\u{f9}' || c == '\u{fa}' || c == '\u{16b}' || c == '\u{1d8}' || c == '\u{16f}' || c == '\u{171}' || c == '\u{173}' {
        Some('u')
    } else if c == '\u{1e83}' {
        Some('w')
    } else if c == '\u{1e8d}' {
        Some('x')
    } else if c == '\u{ff}' || c == '\u{fd}' {
        Some('y')
    } else if c == '\u{17e}' || c == '\u{17a}' || c == '\u{17c}' {
        Some('z')
    } else {
        None
    }
}

/// What `char::to_lowercase` yields for a character; a function of the
/// character alone.
pub uninterp spec fn lower_of(c: char) -> Seq<char>;

/// Whether `char::is_alphanumeric` holds of a character.
pub uninterp spec fn is_alphanumeric_of(c: char) -> bool;

/// Relies on `char::to_lowercase`: the characters of the lowercase mapping,
/// which depends on the character alone.
#[verifier::external_body]
fn lowercase_chars(c: char) -> (r: Vec<char>)
    ensures
        r@ == lower_of(c),
{
    c.to_lowercase().collect()
}

/// Relies on `char::is_alphanumeric`: a property of the character alone.
#[verifier::external_body]
fn char_is_alphanumeric(c: char) -> (r: bool)
    ensures
        r == is_alphanumeric_of(c),
{
    c.is_alphanumeric()
}

/// The folding table, evaluated in code.
#[verifier::rlimit(100)]
fn fold_sub_exec(c: char) -> (r: Option<char>)
    ensures
        r == fold_sub(c),
{
    if c == '\u{e0}' || c == '\u{e1}' || c == '\u{e2}' || c == '\u{e4}' || c == '\u{e6}' || c == '\u{e3}' || c == '\u{e5}' || c == '\u{101}' || c == '\u{103}' || c == '\u{105}' {
        Some('a')
    } else if c == '\u{e7}' || c == '\u{107}' || c == '\u{10d}' {
        Some('c')
    } else if c == '\u{111}' || c == '\u{10f}' {
        Some('d')
    } else if c == '\u{e8}' || c == '\u{e9}' || c == '\u{ea}' || c == '\u{eb}' || c == '\u{113}' || c == '\u{117}' || c == '\u{119}' || c == '\u{11b}' {
        Some('e')
    } else if c == '\u{11f}' || c == '\u{1f5}' {
        Some('g')
    } else if c == '\u{1e27}' {
        Some('h')
    } else if c == '\u{ee}' || c == '\u{ef}' || c == '\u{ed}' || c == '\u{12b}' || c == '\u{12f}' || c == '\u{ec}' || c == '\u{131}' || c == '\u{130}' {
        Some('i')
    } else if c == '\u{142}' {
        Some('l')
    } else if c == '\u{1e3f}' {
        Some('m')
    } else if c == '\u{f1}' || c == '\u{144}' || c == '\u{1f9}' || c == '\u{148}' {
        Some('n')
    } else if c == '\u{f4}' || c == '\u{f6}' || c == '\u{f2}' || c == '\u{f3}' || c == '\u{153}' || c == '\u{f8}' || c == '\u{14d}' || c == '\u{f5}' || c == '\u{151}' {
        Some('o')
    } else if c == '\u{1e55}' {
        Some('p')
    } else if c == '\u{155}' || c == '\u{159}' {
        Some('r')
    } else if c == '\u{df}' || c == '\u{15b}' || c == '\u{161}' || c == '\u{15f}' || c == '\u{219}' {
        Some('s')
    } else if c == '\u{165}' || c == '\u{21b}' {
        Some('t')
    } else if c == '\u{fb}' || c == '\u{fc}' || c == '\u{f9}' || c == '\u{fa}' || c == '\u{16b}' || c == '\u{1d8}' || c == '\u{16f}' || c == '\u{171}' || c == '\u{173}' {
        Some('u')
    } else if c == '\u{1e83}' {
        Some('w')
    } else if c == '\u{1e8d}' {
        Some('x')
    } else if c == '\u{ff}' || c == '\u{fd}' {
        Some('y')
    } else if c == '\u{17e}' || c == '\u{17a}' || c == '\u{17c}' {
        Some('z')
    } else {
        None
    }
}

/// The slug character for `c`: its lowercase mapping when that is a single
/// alphanumeric character, folded through the table and kept only if ASCII;
/// everything else becomes `-`.
pub open spec fn conv_spec(c: char) -> char {
    let low = lower_of(c);
    if low.len() == 1 && is_alphanumeric_of(low[0]) {
        let m = match fold_sub(low[0]) {
            Some(o) => o,
            None => low[0],
        };
        if (m as u32) < 128 {
            m
        } else {
            '-'
        }
    } else {
        '-'
    }
}

/// Converts one character to its slug character.
pub fn conv(c: char) -> (r: char)
    ensures
        r == conv_spec(c),
{
    let low = lowercase_chars(c);
    if low.len() == 1 {
        let lc = low[0];
        if char_is_alphanumeric(lc) {
            let m = match fold_sub_exec(lc) {
                Some(o) => o,
                None => lc,
            };
            if (m as u32) < 128 {
                m
            } else {
                '-'
            }
        } else {
            '-'
        }
    } else {
        '-'
    }
}

/// One step of slug building: `-` is appended only when the slug so far
/// does not already end in `-`; anything else is appended as it is.
pub open spec fn slug_append(acc: Seq<char>, c: char) -> Seq<char> {
    if c == '-' {
        if acc.len() > 0 && acc.last() == '-' {
            acc
        } else {
            acc.push('-')
        }
    } else {
        acc.push(c)
    }
}

/// The slug of `s` before the trailing-dash trim.
pub open spec fn slug_core(s: Seq<char>) -> Seq<char>
    decreases s.len(),
{
    if s.len() == 0 {
        Seq::empty()
    } else {
        slug_append(slug_core(s.drop_last()), conv_spec(s.last()))
    }
}

/// The slug of `s`: every character converted, dash runs collapsed, and a
/// trailing dash dropped unless it is the whole slug.
pub open spec fn slug_of(s: Seq<char>) -> Seq<char> {
    let r = slug_core(s);
    if r.len() > 1 && r.last() == '-' {
        r.drop_last()
    } else {
        r
    }
}

/// Slugifies a text.
pub fn slugfy(s: &str) -> (res: String)
    ensures
        res@ == slug_of(s@),
{
    let n = s.unicode_len();
    let mut acc: Vec<char> = Vec::new();
    let mut i: usize = 0;
    while i < n
        invariant
            i <= n,
            n == s@.len(),
            acc@ == slug_core(s@.subrange(0, i as int)),
        decreases n - i,
    {
        let c = conv(s.get_char(i));
        proof {
            assert(s@.subrange(0, i + 1).drop_last() =~= s@.subrange(0, i as int));
            assert(s@.subrange(0, i + 1).last() == s@[i as int]);
        }
        if c == '-' {
            if acc.len() == 0 {
                acc.push('-');
            } else if acc[acc.len() - 1] != '-' {
                acc.push('-');
            }
        } else {
            acc.push(c);
        }
        i += 1;
    }
    proof {
        assert(s@.subrange(0, n as int) =~= s@);
    }
    if acc.len() > 1 && acc[acc.len() - 1] == '-' {
        acc.pop();
        proof {
            assert(acc@ =~= slug_core(s@).drop_last());
        }
    }
    chars_to_string(acc)
}

} // verus!
