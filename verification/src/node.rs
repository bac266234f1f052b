//! A builder-style record with a rendered form, a checked multiplication,
//! and a text repeater.

use vstd::prelude::*;
use vstd::string::StringExecFns;
use crate::text::{chars_to_string, dec_of, push_decimal};

verus! {

/// Why a multiplication was refused.
#[derive(Debug, PartialEq, Eq, Structural, Clone, Copy)]
pub enum MulErr {
    Overflow,
    NegativeNumber,
}

/// Multiplies two non-negative numbers, rejecting negative factors and
/// products that do not fit in 32 unsigned bits.
pub fn mul(a: i32, b: i32) -> (res: Result<u32, MulErr>)
    ensures
        (a < 0 || b < 0) ==> res == Err::<u32, MulErr>(MulErr::NegativeNumber),
        a >= 0 && b >= 0 && a * b > u32::MAX ==> res == Err::<u32, MulErr>(MulErr::Overflow),
        a >= 0 && b >= 0 && a * b <= u32::MAX ==> res == Ok::<u32, MulErr>((a * b) as u32),
{
    if a < 0 || b < 0 {
        return Err(MulErr::NegativeNumber);
    }
    proof {
        assert((a as int) * (b as int) <= 0x7fffffff * 0x7fffffff) by (nonlinear_arith)
            requires
                0 <= a <= 0x7fffffff,
                0 <= b <= 0x7fffffff,
        ;
    }
    let wide: u64 = (a as u64) * (b as u64);
    if wide > u32::MAX as u64 {
        Err(MulErr::Overflow)
    } else {
        Ok(wide as u32)
    }
}

/// `s` repeated `n` times, end to end.
pub open spec fn repeated(s: Seq<char>, n: nat) -> Seq<char>
    decreases n,
{
    if n == 0 {
        Seq::empty()
    } else {
        repeated(s, (n - 1) as nat) + s
    }
}

/// Concatenates `times` copies of `s`.
pub fn repeat(s: &str, times: usize) -> (r: String)
    ensures
        r@ == repeated(s@, times as nat),
{
    let mut out = String::new();
    let mut i: usize = 0;
    while i < times
        invariant
            i <= times,
            out@ == repeated(s@, i as nat),
        decreases times - i,
    {
        out.append(s);
        i += 1;
    }
    out
}

/// A named record built up by chained setters.
pub struct Node {
    pub name: String,
    pub size: u32,
    pub count: u32,
}

impl Node {
    /// A fresh record: the given name, zero size and count.
    pub fn new(name: String) -> (r: Self)
        ensures
            r.name@ == name@,
            r.size == 0,
            r.count == 0,
    {
        Node { name, size: 0, count: 0 }
    }

    /// Replaces the size, keeping everything else.
    pub fn size(self, size: u32) -> (r: Self)
        ensures
            r.name@ == self.name@,
            r.size == size,
            r.count == self.count,
    {
        Node { size, ..self }
    }

    /// Replaces the count, keeping everything else.
    pub fn count(self, count: u32) -> (r: Self)
        ensures
            r.name@ == self.name@,
            r.size == self.size,
            r.count == count,
    {
        Node { count, ..self }
    }

    /// Appends to the name, keeping everything else.
    pub fn change_name(self, new_name: String) -> (r: Self)
        ensures
            r.name@ == self.name@ + new_name@,
            r.size == self.size,
            r.count == self.count,
    {
        let name = self.name.concat(new_name.as_str());
        Node { name, size: self.size, count: self.count }
    }

    /// Renders the record as `name:<name>, size:<size>, count:<count>`.
    pub fn to_string(&self) -> (r: String)
        ensures
            r@ == "name:"@ + self.name@ + ", size:"@ + dec_of(self.size as int) + ", count:"@
                + dec_of(self.count as int),
    {
        let mut out = String::new();
        out.append("name:");
        out.append(self.name.as_str());
        out.append(", size:");
        let mut digits: Vec<char> = Vec::new();
        push_decimal(&mut digits, self.size);
        let size_text = chars_to_string(digits);
        out.append(size_text.as_str());
        out.append(", count:");
        let mut digits2: Vec<char> = Vec::new();
        push_decimal(&mut digits2, self.count);
        let count_text = chars_to_string(digits2);
        out.append(count_text.as_str());
        assert(out@ =~= "name:"@ + self.name@ + ", size:"@ + dec_of(self.size as int) + ", count:"@
            + dec_of(self.count as int));
        out
    }

    /// Increments the size by one.
    pub fn grow(&mut self)
        requires
            old(self).size < u32::MAX,
        ensures
            final(self).size == old(self).size + 1,
            final(self).name@ == old(self).name@,
            final(self).count == old(self).count,
    {
        self.size = self.size + 1;
    }

    /// Increments the count by one.
    pub fn inc(&mut self)
        requires
            old(self).count < u32::MAX,
        ensures
            final(self).count == old(self).count + 1,
            final(self).name@ == old(self).name@,
            final(self).size == old(self).size,
    {
        self.count = self.count + 1;
    }
}

} // verus!
