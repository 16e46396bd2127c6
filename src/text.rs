//! Lines of a text and decimal numerals, as byte sequences.

use vstd::prelude::*;

verus! {

pub const NEWLINE: u8 = 10;
pub const CARRIAGE_RETURN: u8 = 13;
pub const DIGIT_ZERO: u8 = 48;

/// Index of the first newline in `s`, or `s.len()` when there is none.
pub open spec fn first_newline(s: Seq<u8>) -> int
    decreases s.len(),
{
    if s.len() == 0 {
        0
    } else if s[0] == NEWLINE {
        0
    } else {
        1 + first_newline(s.drop_first())
    }
}

/// A line without its trailing carriage return, if it has one.
pub open spec fn strip_cr(line: Seq<u8>) -> Seq<u8> {
    if line.len() > 0 && line.last() == CARRIAGE_RETURN {
        line.drop_last()
    } else {
        line
    }
}

/// The lines of a text: split at each newline, a carriage return before the
/// newline dropped, and no empty line after a final newline.
pub open spec fn split_lines(s: Seq<u8>) -> Seq<Seq<u8>>
    decreases s.len(),
{
    if s.len() == 0 {
        Seq::empty()
    } else {
        let j = first_newline(s);
        let rest = if 0 <= j < s.len() {
            s.skip(j + 1)
        } else {
            Seq::empty()
        };
        seq![strip_cr(s.subrange(0, j))] + split_lines(rest)
    }
}

pub proof fn lemma_first_newline(t: Seq<u8>, m: int)
    requires
        0 <= m <= t.len(),
        forall|k: int| 0 <= k < m ==> t[k] != NEWLINE,
        m == t.len() || t[m] == NEWLINE,
    ensures
        first_newline(t) == m,
    decreases m,
{
    if m > 0 {
        lemma_first_newline(t.drop_first(), m - 1);
    }
}

/// End of the line that starts at `pos`: the index of the next newline, or
/// the length of `s`.
pub fn line_end(s: &[u8], pos: usize) -> (j: usize)
    requires
        pos <= s@.len(),
    ensures
        pos <= j <= s@.len(),
        forall|k: int| pos <= k < j ==> s@[k] != NEWLINE,
        j == s@.len() || s@[j as int] == NEWLINE,
{
    let mut j = pos;
    while j < s.len() && s[j] != NEWLINE
        invariant
            pos <= j <= s@.len(),
            forall|k: int| pos <= k < j ==> s@[k] != NEWLINE,
        decreases s.len() - j,
    {
        j = j + 1;
    }
    j
}

/// Where the line that starts at `pos` and ends at `j` is followed by the next one.
pub open spec fn next_start(s: Seq<u8>, j: int) -> int {
    if j < s.len() {
        j + 1
    } else {
        s.len() as int
    }
}

/// One step of the line split: the lines from `pos` on are the line up to `j`,
/// then the lines after it.
pub proof fn lemma_split_step(s: Seq<u8>, pos: int, j: int)
    requires
        0 <= pos < s.len(),
        pos <= j <= s.len(),
        forall|k: int| pos <= k < j ==> s[k] != NEWLINE,
        j == s.len() || s[j] == NEWLINE,
    ensures
        split_lines(s.skip(pos)) == seq![strip_cr(s.subrange(pos, j))] + split_lines(
            s.skip(next_start(s, j)),
        ),
{
    let t = s.skip(pos);
    lemma_first_newline(t, j - pos);
    assert(t.subrange(0, j - pos) =~= s.subrange(pos, j));
    if j < s.len() {
        assert(t.skip(j - pos + 1) =~= s.skip(j + 1));
    } else {
        assert(s.skip(s.len() as int) =~= Seq::<u8>::empty());
    }
}

/// The decimal numeral of `n`, most significant digit first.
pub open spec fn decimal(n: nat) -> Seq<u8>
    decreases n,
{
    if n < 10 {
        seq![(DIGIT_ZERO + n) as u8]
    } else {
        decimal(n / 10).push((DIGIT_ZERO + n % 10) as u8)
    }
}

/// Renders `n` in decimal.
pub fn decimal_of(n: u64) -> (r: Vec<u8>)
    ensures
        r@ == decimal(n as nat),
{
    let mut m = n;
    let mut acc: Vec<u8> = Vec::new();
    loop
        invariant_except_break
            decimal(n as nat) == decimal(m as nat) + acc@,
        ensures
            decimal(n as nat) == acc@,
        decreases m,
    {
        let ghost prev = acc@;
        if m < 10 {
            acc.insert(0, DIGIT_ZERO + m as u8);
            assert(acc@ =~= decimal(m as nat) + prev);
            break;
        }
        let d = DIGIT_ZERO + (m % 10) as u8;
        acc.insert(0, d);
        assert(decimal(m as nat) == decimal((m / 10) as nat).push(d));
        assert(decimal((m / 10) as nat).push(d) + prev =~= decimal((m / 10) as nat) + acc@);
        m = m / 10;
    }
    acc
}

} // verus!
