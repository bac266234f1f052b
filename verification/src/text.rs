//! Decimal text primitives shared by the board codec and the node printer:
//! rendering a non-negative number as decimal digits, parsing digit runs,
//! and the one conversion from a character buffer to an owned `String`.

use vstd::prelude::*;
use vstd::arithmetic::div_mod::lemma_fundamental_div_mod;

verus! {

/// A decimal digit character.
pub open spec fn is_digit(c: char) -> bool {
    48 <= c as int && c as int <= 57
}

/// Numeric value of a decimal digit character.
pub open spec fn digit_val(c: char) -> int {
    c as int - 48
}

/// The digit character for a value in 0..=9.
pub open spec fn digit_char(d: int) -> char {
    ((48 + d) as u8) as char
}

/// Decimal rendering of a non-negative number, most significant digit first.
pub open spec fn dec_of(n: int) -> Seq<char>
    decreases n,
{
    if n < 10 {
        seq![digit_char(n)]
    } else {
        dec_of(n / 10).push(digit_char(n % 10))
    }
}

/// Value of a run of decimal digit characters, most significant first.
pub open spec fn token_val(t: Seq<char>) -> int
    decreases t.len(),
{
    if t.len() == 0 {
        0
    } else {
        token_val(t.drop_last()) * 10 + digit_val(t.last())
    }
}

/// A parseable inventory counter: a non-empty digit run whose value fits in a byte.
pub open spec fn is_count_token(t: Seq<char>) -> bool {
    &&& t.len() >= 1
    &&& forall|i: int| 0 <= i < t.len() ==> is_digit(#[trigger] t[i])
    &&& token_val(t) <= 255
}

pub proof fn lemma_dec_of_digits(n: int)
    requires
        0 <= n,
    ensures
        dec_of(n).len() >= 1,
        forall|i: int| 0 <= i < dec_of(n).len() ==> is_digit(#[trigger] dec_of(n)[i]),
    decreases n,
{
    lemma_fundamental_div_mod(n, 10);
    if n >= 10 {
        lemma_dec_of_digits(n / 10);
    }
}

/// Printing then parsing a number gives the number back.
pub proof fn lemma_token_val_of_dec(n: int)
    requires
        0 <= n,
    ensures
        token_val(dec_of(n)) == n,
    decreases n,
{
    if n < 10 {
        assert(dec_of(n).drop_last() =~= Seq::<char>::empty());
        assert(token_val(Seq::<char>::empty()) == 0);
        assert(dec_of(n).last() == digit_char(n));
    } else {
        lemma_fundamental_div_mod(n, 10);
        lemma_token_val_of_dec(n / 10);
        assert(dec_of(n).drop_last() =~= dec_of(n / 10));
        assert(dec_of(n).last() == digit_char(n % 10));
    }
}

pub proof fn lemma_token_val_nonneg(t: Seq<char>)
    requires
        forall|i: int| 0 <= i < t.len() ==> is_digit(#[trigger] t[i]),
    ensures
        token_val(t) >= 0,
    decreases t.len(),
{
    if t.len() > 0 {
        lemma_token_val_nonneg(t.drop_last());
    }
}

/// A digit run's value only grows as digits are appended.
pub proof fn lemma_token_val_prefix_le(t: Seq<char>, k: int)
    requires
        forall|i: int| 0 <= i < t.len() ==> is_digit(#[trigger] t[i]),
        0 <= k <= t.len(),
    ensures
        token_val(t.take(k)) <= token_val(t),
    decreases t.len(),
{
    if k == t.len() {
        assert(t.take(k) =~= t);
    } else {
        lemma_token_val_nonneg(t.drop_last());
        assert(t.drop_last().take(k) =~= t.take(k));
        lemma_token_val_prefix_le(t.drop_last(), k);
    }
}

/// Appends the decimal rendering of `n` to `out`.
pub fn push_decimal(out: &mut Vec<char>, n: u32)
    ensures
        final(out)@ == old(out)@ + dec_of(n as int),
    decreases n,
{
    if n < 10 {
        let d: u8 = 48 + (n as u8);
        out.push(d as char);
        assert(final(out)@ =~= old(out)@ + dec_of(n as int));
    } else {
        proof {
            lemma_fundamental_div_mod(n as int, 10);
        }
        push_decimal(out, n / 10);
        let d: u8 = 48 + ((n % 10) as u8);
        out.push(d as char);
        assert(final(out)@ =~= old(out)@ + dec_of(n as int));
    }
}

/// Parses a run of decimal digits as a byte-sized counter.
pub fn parse_u8(s: &str, from: usize, to: usize) -> (r: u8)
    requires
        from < to <= s@.len(),
        forall|j: int| from <= j < to ==> is_digit(#[trigger] s@[j]),
        token_val(s@.subrange(from as int, to as int)) <= 255,
    ensures
        r as int == token_val(s@.subrange(from as int, to as int)),
{
    let ghost whole = s@.subrange(from as int, to as int);
    let mut acc: u32 = 0;
    let mut p = from;
    while p < to
        invariant
            from <= p <= to <= s@.len(),
            forall|j: int| from <= j < to ==> is_digit(#[trigger] s@[j]),
            token_val(whole) <= 255,
            whole == s@.subrange(from as int, to as int),
            acc as int == token_val(s@.subrange(from as int, p as int)),
            acc <= 255,
        decreases to - p,
    {
        let c = s.get_char(p);
        let d: u32 = (c as u32) - 48;
        proof {
            assert(s@.subrange(from as int, p as int + 1).drop_last() =~= s@.subrange(
                from as int,
                p as int,
            ));
            assert(s@.subrange(from as int, p as int + 1).last() == s@[p as int]);
            assert(s@.subrange(from as int, p as int + 1) =~= whole.take(p + 1 - from));
            lemma_token_val_prefix_le(whole, p + 1 - from);
        }
        acc = acc * 10 + d;
        p += 1;
    }
    proof {
        assert(s@.subrange(from as int, to as int) =~= whole);
    }
    acc as u8
}

/// Relies on `String`'s `FromIterator` over `char`: collecting characters
/// yields the string holding exactly those characters in order.
#[verifier::external_body]
pub fn chars_to_string(v: Vec<char>) -> (r: String)
    ensures
        r@ == v@,
{
    v.into_iter().collect()
}

} // verus!
