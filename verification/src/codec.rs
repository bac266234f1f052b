//! Text codec for `Board`: the first line holds the four inventory counters
//! separated by single spaces; each following line is one grid row, a space
//! for an empty cell and `B` for an occupied one, every line ended by a line
//! break. Decoding is permissive about row characters (anything but a space
//! marks the cell occupied) but demands a structurally sound text: exactly
//! four byte-sized counters, no row wider than the grid, and nothing but
//! blank lines below the grid.

use vstd::prelude::*;
use vstd::string::StrSliceExecFns;
use crate::board::{Board, BSIZE};
use crate::text::{
    chars_to_string, dec_of, is_count_token, is_digit, lemma_dec_of_digits,
    lemma_token_val_of_dec, lemma_token_val_prefix_le, push_decimal, token_val,
};

verus! {

/// Rust-style split: the separators partition `s`; n separators give n + 1
/// pieces, so the result is never empty.
pub open spec fn split_on(s: Seq<char>, sep: char) -> Seq<Seq<char>>
    decreases s.len(),
{
    if s.len() == 0 {
        seq![Seq::<char>::empty()]
    } else if s[0] == sep {
        seq![Seq::<char>::empty()] + split_on(s.drop_first(), sep)
    } else {
        let rest = split_on(s.drop_first(), sep);
        seq![seq![s[0]] + rest[0]] + rest.drop_first()
    }
}

pub proof fn lemma_split_len(s: Seq<char>, sep: char)
    ensures
        split_on(s, sep).len() >= 1,
    decreases s.len(),
{
    if s.len() > 0 {
        lemma_split_len(s.drop_first(), sep);
    }
}

/// A text without the separator is one single piece.
pub proof fn lemma_split_no_sep(s: Seq<char>, sep: char)
    requires
        forall|j: int| 0 <= j < s.len() ==> s[j] != sep,
    ensures
        split_on(s, sep) =~= seq![s],
    decreases s.len(),
{
    if s.len() == 0 {
        assert(s =~= Seq::<char>::empty());
    } else {
        lemma_split_no_sep(s.drop_first(), sep);
        assert(seq![s[0]] + s.drop_first() =~= s);
    }
}

/// Splitting at the first separator: the piece before it, then the split of
/// what follows it.
pub proof fn lemma_split_first(s: Seq<char>, sep: char, i: int)
    requires
        0 <= i < s.len(),
        s[i] == sep,
        forall|j: int| 0 <= j < i ==> s[j] != sep,
    ensures
        split_on(s, sep) =~= seq![s.take(i)] + split_on(s.skip(i + 1), sep),
    decreases i,
{
    if i == 0 {
        assert(s.take(0) =~= Seq::<char>::empty());
        assert(s.drop_first() =~= s.skip(1));
    } else {
        lemma_split_first(s.drop_first(), sep, i - 1);
        lemma_split_len(s.drop_first().skip(i), sep);
        assert(seq![s[0]] + s.drop_first().take(i - 1) =~= s.take(i));
        assert(s.drop_first().skip(i) =~= s.skip(i + 1));
        assert(split_on(s, sep) =~= seq![s.take(i)] + split_on(s.skip(i + 1), sep));
    }
}

/// The k-th inventory counter a text decodes to.
pub open spec fn decoded_count(s: Seq<char>, k: int) -> int {
    token_val(split_on(split_on(s, '\n')[0], ' ')[k])
}

/// The occupancy a text decodes to at cell `(row, col)`: the cell is marked
/// occupied exactly when the row's line reaches the column and holds
/// anything but a space there.
pub open spec fn decoded_cell(s: Seq<char>, row: int, col: int) -> bool {
    let lines = split_on(s, '\n');
    &&& row + 1 < lines.len()
    &&& col < lines[row + 1].len()
    &&& lines[row + 1][col] != ' '
}

/// The first line splits into exactly four byte-sized counter tokens.
pub open spec fn counts_ok(s: Seq<char>) -> bool {
    let toks = split_on(split_on(s, '\n')[0], ' ');
    &&& toks.len() == 4
    &&& forall|k: int| 0 <= k < 4 ==> is_count_token(#[trigger] toks[k])
}

/// The rows fit the grid: none wider than it, only blank lines below it.
pub open spec fn rows_ok(s: Seq<char>) -> bool {
    let lines = split_on(s, '\n');
    forall|i: int|
        1 <= i < lines.len() ==> ((#[trigger] lines[i]).len() <= BSIZE && (i > BSIZE ==> lines[i].len() == 0))
}

/// A text `decode` accepts.
pub open spec fn decode_ok(s: Seq<char>) -> bool {
    counts_ok(s) && rows_ok(s)
}

/// The line of the four inventory counters, space-separated.
pub open spec fn counts_text(b: Board) -> Seq<char> {
    dec_of(b.boats@[0] as int) + seq![' '] + dec_of(b.boats@[1] as int) + seq![' '] + dec_of(
        b.boats@[2] as int,
    ) + seq![' '] + dec_of(b.boats@[3] as int)
}

/// One grid row as text: a space per empty cell, `B` per occupied one.
pub open spec fn row_text(b: Board, row: int) -> Seq<char> {
    Seq::new(BSIZE as nat, |col: int| if b.occupied(row, col) { 'B' } else { ' ' })
}

/// The grid rows from `row` on, each ended by a line break.
pub open spec fn rows_text(b: Board, row: int) -> Seq<char>
    decreases BSIZE as int - row,
{
    if row < 0 || row >= BSIZE {
        Seq::empty()
    } else {
        row_text(b, row) + seq!['\n'] + rows_text(b, row + 1)
    }
}

/// The canonical text for a board.
pub open spec fn encoded(b: Board) -> Seq<char> {
    counts_text(b) + seq!['\n'] + rows_text(b, 0)
}

/// Cell `(row, col)` of a row-major grid buffer.
pub open spec fn grid_at(d: Seq<bool>, row: int, col: int) -> bool {
    d[row * (BSIZE as int) + col]
}

/// First position of `sep` in `s` at or after `from` and before `to`, or
/// `to` when the range holds none.
fn find_char(s: &str, from: usize, to: usize, sep: char) -> (r: usize)
    requires
        from <= to <= s@.len(),
    ensures
        from <= r <= to,
        forall|j: int| from <= j < r ==> s@[j] != sep,
        r < to ==> s@[r as int] == sep,
{
    let mut i = from;
    while i < to
        invariant
            from <= i <= to <= s@.len(),
            forall|j: int| from <= j < i ==> s@[j] != sep,
        decreases to - i,
    {
        if s.get_char(i) == sep {
            return i;
        }
        i += 1;
    }
    i
}

/// Checks one counter token of the first line and parses its value.
fn check_count_token(s: &str, from: usize, to: usize) -> (r: Option<u8>)
    requires
        from <= to <= s@.len(),
    ensures
        r is Some <==> is_count_token(s@.subrange(from as int, to as int)),
        r matches Some(v) ==> v as int == token_val(s@.subrange(from as int, to as int)),
{
    let ghost whole = s@.subrange(from as int, to as int);
    if from == to {
        return None;
    }
    let mut acc: u32 = 0;
    let mut p = from;
    while p < to
        invariant
            from <= p <= to <= s@.len(),
            whole == s@.subrange(from as int, to as int),
            forall|j: int| from <= j < p ==> is_digit(#[trigger] s@[j]),
            acc as int == token_val(s@.subrange(from as int, p as int)),
            acc <= 255,
        decreases to - p,
    {
        let c = s.get_char(p);
        let u = c as u32;
        if u < 48 || u > 57 {
            proof {
                assert(whole[p - from] == s@[p as int]);
                assert(!is_digit(whole[p - from]));
            }
            return None;
        }
        let d = u - 48;
        proof {
            assert(s@.subrange(from as int, p as int + 1).drop_last() =~= s@.subrange(
                from as int,
                p as int,
            ));
            assert(s@.subrange(from as int, p as int + 1).last() == s@[p as int]);
        }
        if acc * 10 + d > 255 {
            proof {
                if forall|j: int| 0 <= j < whole.len() ==> is_digit(#[trigger] whole[j]) {
                    assert(forall|j: int|
                        from <= j < to ==> is_digit(#[trigger] s@[j]) == is_digit(
                            whole[j - from],
                        ));
                    assert(s@.subrange(from as int, p as int + 1) =~= whole.take(
                        p + 1 - from as int,
                    ));
                    lemma_token_val_prefix_le(whole, p + 1 - from as int);
                }
            }
            return None;
        }
        acc = acc * 10 + d;
        p += 1;
    }
    proof {
        assert(whole =~= s@.subrange(from as int, to as int));
        assert(forall|j: int|
            0 <= j < whole.len() ==> is_digit(#[trigger] whole[j]) == is_digit(s@[j + from]));
    }
    Some(acc as u8)
}

/// Reads the counters line, which ends at `e0` (the first line break, or the
/// text's end); `None` exactly when it is not four byte-sized tokens.
#[verifier::rlimit(100)]
fn parse_counts(s: &str, e0: usize) -> (r: Option<Vec<u8>>)
    requires
        e0 <= s@.len(),
        split_on(s@, '\n')[0] =~= s@.subrange(0, e0 as int),
    ensures
        r is Some <==> counts_ok(s@),
        r matches Some(v) ==> (v@.len() == 4 && forall|k: int|
            0 <= k < 4 ==> v@[k] as int == decoded_count(s@, k)),
{
    let ghost line0 = split_on(s@, '\n')[0];
    let ghost toks = split_on(line0, ' ');
    let sp1 = find_char(s, 0, e0, ' ');
    proof {
        assert(forall|j: int| 0 <= j < e0 ==> line0[j] == s@[j]);
    }
    if sp1 == e0 {
        proof {
            lemma_split_no_sep(line0, ' ');
        }
        return None;
    }
    let ghost rest1 = s@.subrange(sp1 + 1, e0 as int);
    proof {
        lemma_split_first(line0, ' ', sp1 as int);
        assert(line0.take(sp1 as int) =~= s@.subrange(0, sp1 as int));
        assert(line0.skip(sp1 + 1) =~= rest1);
        assert(toks == seq![s@.subrange(0, sp1 as int)] + split_on(rest1, ' '));
        lemma_split_len(rest1, ' ');
    }
    let sp2 = find_char(s, sp1 + 1, e0, ' ');
    proof {
        assert(forall|j: int| 0 <= j < rest1.len() ==> rest1[j] == s@[j + sp1 + 1]);
    }
    if sp2 == e0 {
        proof {
            lemma_split_no_sep(rest1, ' ');
        }
        return None;
    }
    let ghost rest2 = s@.subrange(sp2 + 1, e0 as int);
    proof {
        lemma_split_first(rest1, ' ', sp2 - sp1 - 1);
        assert(rest1.take(sp2 - sp1 - 1) =~= s@.subrange(sp1 + 1, sp2 as int));
        assert(rest1.skip(sp2 - sp1) =~= rest2);
        assert(split_on(rest1, ' ') == seq![s@.subrange(sp1 + 1, sp2 as int)] + split_on(
            rest2,
            ' ',
        ));
        lemma_split_len(rest2, ' ');
    }
    let sp3 = find_char(s, sp2 + 1, e0, ' ');
    proof {
        assert(forall|j: int| 0 <= j < rest2.len() ==> rest2[j] == s@[j + sp2 + 1]);
    }
    if sp3 == e0 {
        proof {
            lemma_split_no_sep(rest2, ' ');
        }
        return None;
    }
    let ghost rest3 = s@.subrange(sp3 + 1, e0 as int);
    proof {
        lemma_split_first(rest2, ' ', sp3 - sp2 - 1);
        assert(rest2.take(sp3 - sp2 - 1) =~= s@.subrange(sp2 + 1, sp3 as int));
        assert(rest2.skip(sp3 - sp2) =~= rest3);
        assert(split_on(rest2, ' ') == seq![s@.subrange(sp2 + 1, sp3 as int)] + split_on(
            rest3,
            ' ',
        ));
        lemma_split_len(rest3, ' ');
    }
    let sp4 = find_char(s, sp3 + 1, e0, ' ');
    proof {
        assert(forall|j: int| 0 <= j < rest3.len() ==> rest3[j] == s@[j + sp3 + 1]);
    }
    if sp4 < e0 {
        proof {
            lemma_split_first(rest3, ' ', sp4 - sp3 - 1);
        }
        return None;
    }
    proof {
        lemma_split_no_sep(rest3, ' ');
        assert(toks =~= seq![
            s@.subrange(0, sp1 as int),
            s@.subrange(sp1 + 1, sp2 as int),
            s@.subrange(sp2 + 1, sp3 as int),
            rest3,
        ]);
    }
    let c0 = match check_count_token(s, 0, sp1) {
        Some(v) => v,
        None => {
            return None;
        },
    };
    let c1 = match check_count_token(s, sp1 + 1, sp2) {
        Some(v) => v,
        None => {
            return None;
        },
    };
    let c2 = match check_count_token(s, sp2 + 1, sp3) {
        Some(v) => v,
        None => {
            return None;
        },
    };
    let c3 = match check_count_token(s, sp3 + 1, e0) {
        Some(v) => v,
        None => {
            return None;
        },
    };
    let mut boats: Vec<u8> = Vec::new();
    boats.push(c0);
    boats.push(c1);
    boats.push(c2);
    boats.push(c3);
    Some(boats)
}

/// Marks one row's cells from the text range `[from, to)`: anything but a
/// space occupies the cell; everything outside the row stays as it was.
fn fill_row(s: &str, from: usize, to: usize, row: usize, data: &mut Vec<bool>)
    requires
        from <= to <= s@.len(),
        to - from <= BSIZE,
        row < BSIZE,
        old(data)@.len() == (BSIZE * BSIZE) as int,
    ensures
        final(data)@.len() == (BSIZE * BSIZE) as int,
        forall|r: int, c2: int|
            0 <= r < BSIZE && 0 <= c2 < BSIZE ==> grid_at(final(data)@, r, c2) == (if r
                == row as int && from + c2 < to {
                s@[from + c2] != ' '
            } else {
                grid_at(old(data)@, r, c2)
            }),
{
    let mut c = from;
    while c < to
        invariant
            from <= c <= to <= s@.len(),
            to - from <= BSIZE,
            row < BSIZE,
            data@.len() == (BSIZE * BSIZE) as int,
            forall|r: int, c2: int|
                0 <= r < BSIZE && 0 <= c2 < BSIZE ==> grid_at(data@, r, c2) == (if r == row as int
                    && from + c2 < c {
                    s@[from + c2] != ' '
                } else {
                    grid_at(old(data)@, r, c2)
                }),
        decreases to - c,
    {
        let ch = s.get_char(c);
        let col = c - from;
        let ghost before = data@;
        data[row * BSIZE + col] = (ch != ' ');
        proof {
            assert forall|r: int, c2: int| 0 <= r < BSIZE && 0 <= c2 < BSIZE implies grid_at(
                data@,
                r,
                c2,
            ) == (if r == row as int && from + c2 < c + 1 {
                s@[from + c2] != ' '
            } else {
                grid_at(old(data)@, r, c2)
            }) by {
                if r == row as int && c2 == col as int {
                    assert(grid_at(data@, r, c2) == (s@[c as int] != ' '));
                } else {
                    assert(r * (BSIZE as int) + c2 != (row as int) * (BSIZE as int) + (
                    col as int)) by (nonlinear_arith)
                        requires
                            0 <= r < BSIZE,
                            0 <= c2 < BSIZE,
                            0 <= row < BSIZE,
                            0 <= col < BSIZE,
                            !(r == row as int && c2 == col as int),
                    ;
                    assert(grid_at(data@, r, c2) == grid_at(before, r, c2));
                }
            }
        }
        c += 1;
    }
}

/// Reads every grid row after the first line break, which stands at
/// `start - 1`; `None` exactly when some row breaks the grid's shape.
#[verifier::rlimit(100)]
fn fill_grid(s: &str, start: usize, n: usize) -> (r: Option<Vec<bool>>)
    requires
        1 <= start <= n,
        n == s@.len(),
        split_on(s@, '\n').len() >= 2,
        split_on(s@.subrange(start as int, n as int), '\n') =~= split_on(s@, '\n').subrange(
            1,
            split_on(s@, '\n').len() as int,
        ),
    ensures
        r is Some <==> rows_ok(s@),
        r matches Some(d) ==> (d@.len() == (BSIZE * BSIZE) as int && forall|row: int, col: int|
            0 <= row < BSIZE && 0 <= col < BSIZE ==> grid_at(d@, row, col) == decoded_cell(
                s@,
                row,
                col,
            )),
{
    let ghost lines = split_on(s@, '\n');
    let mut data: Vec<bool> = vec![false; BSIZE * BSIZE];
    let mut p = start;
    let mut row: usize = 0;
    let ghost mut li: int = 1;
    loop
        invariant_except_break
            n == s@.len(),
            lines == split_on(s@, '\n'),
            1 <= li < lines.len(),
            row as int == li - 1,
            row < p <= n,
            split_on(s@.subrange(p as int, n as int), '\n') =~= lines.subrange(
                li,
                lines.len() as int,
            ),
            data@.len() == (BSIZE * BSIZE) as int,
            forall|r: int, c2: int|
                0 <= r < BSIZE && 0 <= c2 < BSIZE ==> grid_at(data@, r, c2) == (r + 1 < li && c2
                    < lines[r + 1].len() && lines[r + 1][c2] != ' '),
            forall|i: int|
                1 <= i < li ==> ((#[trigger] lines[i]).len() <= BSIZE && (i > BSIZE ==> lines[i].len() == 0)),
        ensures
            rows_ok(s@),
            data@.len() == (BSIZE * BSIZE) as int,
            forall|r: int, c2: int|
                0 <= r < BSIZE && 0 <= c2 < BSIZE ==> grid_at(data@, r, c2) == decoded_cell(
                    s@,
                    r,
                    c2,
                ),
        decreases lines.len() - li,
    {
        let e = find_char(s, p, n, '\n');
        let ghost suffix = s@.subrange(p as int, n as int);
        proof {
            assert(forall|j: int| 0 <= j < suffix.len() ==> suffix[j] == s@[j + p]);
            if e == n {
                lemma_split_no_sep(suffix, '\n');
                assert(lines.subrange(li, lines.len() as int) =~= seq![suffix]);
                assert(li == lines.len() - 1);
            } else {
                lemma_split_first(suffix, '\n', e - p);
                assert(suffix.take(e - p) =~= s@.subrange(p as int, e as int));
                assert(suffix.skip(e - p + 1) =~= s@.subrange(e + 1, n as int));
                assert(lines.subrange(li, lines.len() as int) =~= seq![
                    s@.subrange(p as int, e as int),
                ] + split_on(s@.subrange(e + 1, n as int), '\n'));
            }
            assert(lines.subrange(li, lines.len() as int)[0] == lines[li]);
            assert(lines[li] =~= s@.subrange(p as int, e as int));
        }
        if e - p > BSIZE {
            proof {
                assert(lines[li].len() > BSIZE);
            }
            return None;
        }
        if p < e && row >= BSIZE {
            proof {
                assert(li > BSIZE && lines[li].len() != 0);
            }
            return None;
        }
        if p < e {
            fill_row(s, p, e, row, &mut data);
        }
        proof {
            assert forall|r: int, c2: int| 0 <= r < BSIZE && 0 <= c2 < BSIZE implies grid_at(
                data@,
                r,
                c2,
            ) == (r + 1 < li + 1 && c2 < lines[r + 1].len() && lines[r + 1][c2] != ' ') by {
                if r == row as int && 0 <= c2 < lines[li].len() {
                    assert(lines[li][c2] == s@[p + c2]);
                }
            }
        }
        if e == n {
            proof {
                assert forall|i: int| 1 <= i < lines.len() implies ((#[trigger] lines[i]).len()
                    <= BSIZE && (i > BSIZE ==> lines[i].len() == 0)) by {}
                assert forall|r: int, c2: int|
                    0 <= r < BSIZE && 0 <= c2 < BSIZE implies grid_at(data@, r, c2)
                    == decoded_cell(s@, r, c2) by {}
            }
            break ;
        }
        p = e + 1;
        row = row + 1;
        proof {
            let prev = lines.subrange(li, lines.len() as int);
            li = li + 1;
            assert(lines.subrange(li, lines.len() as int) =~= prev.subrange(1, prev.len() as int));
            assert(prev.subrange(1, prev.len() as int) =~= split_on(
                s@.subrange(p as int, n as int),
                '\n',
            ));
            lemma_split_len(s@.subrange(p as int, n as int), '\n');
        }
    }
    Some(data)
}

impl Board {
    /// Decodes a board from its text form; `None` exactly on texts that
    /// `decode_ok` refuses.
    pub fn decode(s: &str) -> (r: Option<Board>)
        ensures
            r is Some <==> decode_ok(s@),
            r matches Some(b) ==> {
                &&& b.wf()
                &&& forall|k: int| 0 <= k < 4 ==> b.boats@[k] as int == decoded_count(s@, k)
                &&& forall|row: int, col: int|
                    0 <= row < BSIZE && 0 <= col < BSIZE ==> b.occupied(row, col) == decoded_cell(
                        s@,
                        row,
                        col,
                    )
            },
    {
        let n = s.unicode_len();
        let ghost lines = split_on(s@, '\n');
        proof {
            lemma_split_len(s@, '\n');
        }
        let e0 = find_char(s, 0, n, '\n');
        proof {
            if e0 == n {
                lemma_split_no_sep(s@, '\n');
                assert(s@.subrange(0, e0 as int) =~= s@);
            } else {
                lemma_split_first(s@, '\n', e0 as int);
            }
            assert(lines[0] =~= s@.subrange(0, e0 as int));
        }
        let boats = match parse_counts(s, e0) {
            Some(v) => v,
            None => {
                return None;
            },
        };
        if e0 == n {
            let data: Vec<bool> = vec![false; BSIZE * BSIZE];
            proof {
                assert(lines.len() == 1);
            }
            let b = Board { boats, data };
            proof {
                assert forall|row: int, col: int|
                    0 <= row < BSIZE && 0 <= col < BSIZE implies b.occupied(row, col)
                    == decoded_cell(s@, row, col) by {
                    assert(!grid_at(b.data@, row, col));
                }
            }
            return Some(b);
        }
        proof {
            assert(lines.subrange(1, lines.len() as int) =~= split_on(
                s@.subrange(e0 + 1, n as int),
                '\n',
            ));
        }
        let data = match fill_grid(s, e0 + 1, n) {
            Some(d) => d,
            None => {
                return None;
            },
        };
        let b = Board { boats, data };
        proof {
            assert forall|row: int, col: int|
                0 <= row < BSIZE && 0 <= col < BSIZE implies b.occupied(row, col) == decoded_cell(
                s@,
                row,
                col,
            ) by {
                assert(grid_at(b.data@, row, col) == decoded_cell(s@, row, col));
            }
        }
        Some(b)
    }

    /// Builds a board from a well-formed persisted text.
    pub fn from(s: String) -> (r: Board)
        requires
            decode_ok(s@),
        ensures
            r.wf(),
            forall|k: int| 0 <= k < 4 ==> r.boats@[k] as int == decoded_count(s@, k),
            forall|row: int, col: int|
                0 <= row < BSIZE && 0 <= col < BSIZE ==> r.occupied(row, col) == decoded_cell(
                    s@,
                    row,
                    col,
                ),
    {
        match Board::decode(s.as_str()) {
            Some(b) => b,
            None => {
                proof {
                    assert(false);
                }
                Board { boats: Vec::new(), data: Vec::new() }
            },
        }
    }

    /// Renders the canonical text for this board.
    pub fn to_string(&self) -> (r: String)
        requires
            self.wf(),
        ensures
            r@ == encoded(*self),
    {
        let mut out: Vec<char> = Vec::new();
        push_decimal(&mut out, self.boats[0] as u32);
        out.push(' ');
        push_decimal(&mut out, self.boats[1] as u32);
        out.push(' ');
        push_decimal(&mut out, self.boats[2] as u32);
        out.push(' ');
        push_decimal(&mut out, self.boats[3] as u32);
        out.push('\n');
        proof {
            assert(out@ =~= counts_text(*self) + seq!['\n']);
            assert(out@ + rows_text(*self, 0) =~= encoded(*self));
        }
        let mut row: usize = 0;
        while row < BSIZE
            invariant
                self.wf(),
                row <= BSIZE,
                out@ + rows_text(*self, row as int) =~= encoded(*self),
            decreases BSIZE - row,
        {
            let ghost out0 = out@;
            let mut col: usize = 0;
            while col < BSIZE
                invariant
                    self.wf(),
                    row < BSIZE,
                    col <= BSIZE,
                    out@ =~= out0 + row_text(*self, row as int).take(col as int),
                decreases BSIZE - col,
            {
                if self.occupancy(row, col) {
                    out.push('B');
                } else {
                    out.push(' ');
                }
                proof {
                    assert(row_text(*self, row as int).take(col + 1) =~= row_text(
                        *self,
                        row as int,
                    ).take(col as int).push(row_text(*self, row as int)[col as int]));
                }
                col += 1;
            }
            out.push('\n');
            proof {
                assert(row_text(*self, row as int).take(BSIZE as int) =~= row_text(
                    *self,
                    row as int,
                ));
                assert(out@ =~= out0 + row_text(*self, row as int) + seq!['\n']);
                assert(rows_text(*self, row as int) == row_text(*self, row as int) + seq!['\n']
                    + rows_text(*self, row as int + 1));
                assert(out@ + rows_text(*self, row as int + 1) =~= encoded(*self));
            }
            row += 1;
        }
        proof {
            assert(rows_text(*self, BSIZE as int) =~= Seq::<char>::empty());
            assert(out@ =~= encoded(*self));
        }
        chars_to_string(out)
    }
}

/// The split of the row block from `row` on: one piece per remaining row,
/// then the empty piece after the last line break.
proof fn lemma_rows_split(b: Board, row: int)
    requires
        b.wf(),
        0 <= row <= BSIZE,
    ensures
        split_on(rows_text(b, row), '\n') =~= Seq::new(
            (BSIZE - row + 1) as nat,
            |i: int| if i < BSIZE - row { row_text(b, row + i) } else { Seq::<char>::empty() },
        ),
    decreases BSIZE as int - row,
{
    if row == BSIZE {
        assert(rows_text(b, row) =~= Seq::<char>::empty());
    } else {
        lemma_rows_split(b, row + 1);
        let s = rows_text(b, row);
        assert(s == row_text(b, row) + seq!['\n'] + rows_text(b, row + 1));
        assert(forall|j: int| 0 <= j < BSIZE ==> s[j] == row_text(b, row)[j]);
        assert(forall|j: int| 0 <= j < BSIZE ==> s[j] != '\n');
        assert(s[BSIZE as int] == '\n');
        lemma_split_first(s, '\n', BSIZE as int);
        assert(s.take(BSIZE as int) =~= row_text(b, row));
        assert(s.skip(BSIZE as int + 1) =~= rows_text(b, row + 1));
    }
}

/// The lines of a canonical text: the counters line, one piece per grid row,
/// and the empty trailing piece.
proof fn lemma_encoded_lines(b: Board)
    requires
        b.wf(),
    ensures
        split_on(encoded(b), '\n') =~= seq![counts_text(b)] + Seq::new(
            (BSIZE + 1) as nat,
            |i: int| if i < BSIZE { row_text(b, i) } else { Seq::<char>::empty() },
        ),
{
    let s = encoded(b);
    let cl = counts_text(b);
    lemma_dec_of_digits(b.boats@[0] as int);
    lemma_dec_of_digits(b.boats@[1] as int);
    lemma_dec_of_digits(b.boats@[2] as int);
    lemma_dec_of_digits(b.boats@[3] as int);
    assert(forall|j: int| 0 <= j < cl.len() ==> cl[j] != '\n');
    assert(s[cl.len() as int] == '\n');
    assert(forall|j: int| 0 <= j < cl.len() ==> s[j] == cl[j]);
    lemma_split_first(s, '\n', cl.len() as int);
    assert(s.take(cl.len() as int) =~= cl);
    assert(s.skip(cl.len() as int + 1) =~= rows_text(b, 0));
    lemma_rows_split(b, 0);
}

/// The counters line splits into the four rendered counters.
#[verifier::rlimit(100)]
proof fn lemma_counts_split(b: Board)
    requires
        b.wf(),
    ensures
        split_on(counts_text(b), ' ') =~= seq![
            dec_of(b.boats@[0] as int),
            dec_of(b.boats@[1] as int),
            dec_of(b.boats@[2] as int),
            dec_of(b.boats@[3] as int),
        ],
{
    let cl = counts_text(b);
    let d0 = dec_of(b.boats@[0] as int);
    let d1 = dec_of(b.boats@[1] as int);
    let d2 = dec_of(b.boats@[2] as int);
    let d3 = dec_of(b.boats@[3] as int);
    lemma_dec_of_digits(b.boats@[0] as int);
    lemma_dec_of_digits(b.boats@[1] as int);
    lemma_dec_of_digits(b.boats@[2] as int);
    lemma_dec_of_digits(b.boats@[3] as int);
    let p1 = d0.len() as int;
    assert(cl[p1] == ' ');
    assert(forall|j: int| 0 <= j < p1 ==> cl[j] == d0[j] && cl[j] != ' ');
    lemma_split_first(cl, ' ', p1);
    assert(cl.take(p1) =~= d0);
    let r1 = cl.skip(p1 + 1);
    assert(r1 =~= d1 + seq![' '] + d2 + seq![' '] + d3);
    assert(forall|j: int| 0 <= j < d1.len() ==> r1[j] == d1[j] && r1[j] != ' ');
    assert(r1[d1.len() as int] == ' ');
    lemma_split_first(r1, ' ', d1.len() as int);
    assert(r1.take(d1.len() as int) =~= d1);
    let r2 = r1.skip(d1.len() as int + 1);
    assert(r2 =~= d2 + seq![' '] + d3);
    assert(forall|j: int| 0 <= j < d2.len() ==> r2[j] == d2[j] && r2[j] != ' ');
    assert(r2[d2.len() as int] == ' ');
    lemma_split_first(r2, ' ', d2.len() as int);
    assert(r2.take(d2.len() as int) =~= d2);
    let r3 = r2.skip(d2.len() as int + 1);
    assert(r3 =~= d3);
    assert(forall|j: int| 0 <= j < r3.len() ==> r3[j] != ' ');
    lemma_split_no_sep(r3, ' ');
    assert(split_on(cl, ' ') =~= seq![d0, d1, d2, d3]);
}

/// Round trip: the canonical text of any well-formed board decodes, and the
/// decoded counters and cells are exactly the board's own.
#[verifier::rlimit(100)]
pub proof fn lemma_encode_decode(b: Board)
    requires
        b.wf(),
    ensures
        decode_ok(encoded(b)),
        forall|k: int| 0 <= k < 4 ==> decoded_count(encoded(b), k) == b.boats@[k] as int,
        forall|row: int, col: int|
            0 <= row < BSIZE && 0 <= col < BSIZE ==> decoded_cell(encoded(b), row, col)
                == b.occupied(row, col),
{
    let s = encoded(b);
    let cl = counts_text(b);
    lemma_encoded_lines(b);
    lemma_counts_split(b);
    lemma_dec_of_digits(b.boats@[0] as int);
    lemma_dec_of_digits(b.boats@[1] as int);
    lemma_dec_of_digits(b.boats@[2] as int);
    lemma_dec_of_digits(b.boats@[3] as int);
    lemma_token_val_of_dec(b.boats@[0] as int);
    lemma_token_val_of_dec(b.boats@[1] as int);
    lemma_token_val_of_dec(b.boats@[2] as int);
    lemma_token_val_of_dec(b.boats@[3] as int);
    let lines = split_on(s, '\n');
    assert(lines[0] == cl);
    let toks = split_on(cl, ' ');
    assert(toks.len() == 4);
    assert(forall|k: int| 0 <= k < 4 ==> is_count_token(#[trigger] toks[k]));
    assert(counts_ok(s));
    assert(lines.len() == BSIZE + 2);
    assert forall|i: int| 1 <= i < lines.len() implies ((#[trigger] lines[i]).len() <= BSIZE && (i
        > BSIZE ==> lines[i].len() == 0)) by {
        if i <= BSIZE {
            assert(lines[i] == row_text(b, i - 1));
        } else {
            assert(lines[i] == Seq::<char>::empty());
        }
    }
    assert(rows_ok(s));
    assert forall|row: int, col: int|
        0 <= row < BSIZE && 0 <= col < BSIZE implies decoded_cell(s, row, col) == b.occupied(
        row,
        col,
    ) by {
        assert(lines[row + 1] == row_text(b, row));
        assert(row_text(b, row)[col] == (if b.occupied(row, col) {
            'B'
        } else {
            ' '
        }));
    }
}

} // verus!
