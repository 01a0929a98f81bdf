//! The answer as text: one `row,col,distance` line for each neighbor pair.

use vstd::prelude::*;
use crate::hits::SparseDistMatrix;

verus! {

/// The byte of the digit `0`.
pub const DIGIT_ZERO: u8 = 48;

/// The byte that separates the fields of a line.
pub const COMMA: u8 = 44;

/// The byte that ends a line.
pub const LINE_END: u8 = 10;

/// A number in decimal digits, without leading zeros.
pub open spec fn decimal(n: nat) -> Seq<u8>
    decreases n,
{
    if n < 10 {
        seq![(DIGIT_ZERO + n) as u8]
    } else {
        decimal(n / 10).push((DIGIT_ZERO + n % 10) as u8)
    }
}

/// The line of one entry.
pub open spec fn line_of(row: nat, col: nat, dist: nat) -> Seq<u8> {
    decimal(row) + seq![COMMA] + decimal(col) + seq![COMMA] + decimal(dist) + seq![LINE_END]
}

/// The number that a position is written as: the position itself where
/// lines are counted from zero, and one more where they are counted from one.
pub open spec fn line_number(position: u32, zero_index: bool) -> nat {
    if zero_index {
        position as nat
    } else {
        (position + 1) as nat
    }
}

/// The lines of the first `n` entries, one after the other.
pub open spec fn lines_of_entries(m: SparseDistMatrix, zero_index: bool, n: nat) -> Seq<u8>
    decreases n,
{
    if n == 0 {
        Seq::empty()
    } else {
        lines_of_entries(m, zero_index, (n - 1) as nat) + line_of(
            line_number(m.row[n - 1], zero_index),
            line_number(m.col[n - 1], zero_index),
            m.dists[n - 1] as nat,
        )
    }
}

/// Appends the decimal digits of `n`.
pub fn push_decimal(out: &mut Vec<u8>, n: u64)
    ensures
        final(out)@ == old(out)@ + decimal(n as nat),
{
    let ghost before = out@;
    // the digits from the last to the first
    let mut digits: Vec<u8> = Vec::with_capacity(20);
    let mut rest: u64 = n;
    let ghost mut tail: Seq<u8> = Seq::empty();
    while rest >= 10
        invariant
            digits@.len() == tail.len(),
            forall|i: int| 0 <= i < tail.len() ==> digits[i] == tail[tail.len() - 1 - i],
            decimal(n as nat) == decimal(rest as nat) + tail,
        decreases rest,
    {
        let digit = DIGIT_ZERO + (rest % 10) as u8;
        proof {
            let grown = seq![digit] + tail;
            assert(decimal(rest as nat) == decimal((rest / 10) as nat).push(digit));
            assert(decimal((rest / 10) as nat).push(digit) + tail =~= decimal((rest / 10) as nat)
                + grown);
            assert forall|i: int| 0 <= i < grown.len() implies digits@.push(digit)[i]
                == grown[grown.len() - 1 - i] by {
                if i < tail.len() {
                    assert(grown[grown.len() - 1 - i] == tail[tail.len() - 1 - i]);
                }
            }
            tail = grown;
        }
        digits.push(digit);
        rest = rest / 10;
    }
    out.push(DIGIT_ZERO + rest as u8);
    assert(decimal(rest as nat) =~= seq![(DIGIT_ZERO + rest) as u8]);
    let mut i: usize = digits.len();
    while i > 0
        invariant
            0 <= i <= digits.len(),
            digits@.len() == tail.len(),
            forall|t: int| 0 <= t < tail.len() ==> digits[t] == tail[tail.len() - 1 - t],
            out@ == before + decimal(rest as nat) + tail.take(digits.len() - i),
        decreases i,
    {
        i = i - 1;
        out.push(digits[i]);
        assert(tail.take(digits.len() - i) =~= tail.take(digits.len() - i - 1).push(
            tail[digits.len() - i - 1],
        ));
    }
    assert(tail.take(digits.len() as int) == tail);
    assert(before + decimal(rest as nat) + tail =~= before + (decimal(rest as nat) + tail));
}

/// The number of entries that all three arrays hold.
pub open spec fn num_entries(m: SparseDistMatrix) -> nat {
    let rows_and_cols = if m.row@.len() <= m.col@.len() {
        m.row@.len()
    } else {
        m.col@.len()
    };
    if rows_and_cols <= m.dists@.len() {
        rows_and_cols
    } else {
        m.dists@.len()
    }
}

/// The answer as text: for each entry, in order, the row, the column and the
/// distance in decimal digits, separated by commas and ended by a line feed.
/// Rows and columns are written as positions where `zero_index` is set, and
/// as line numbers counted from one where it is not.
pub fn write_true_results(m: &SparseDistMatrix, zero_index: bool) -> (text: Vec<u8>)
    ensures
        text@ == lines_of_entries(*m, zero_index, num_entries(*m)),
{
    let mut text: Vec<u8> = Vec::new();
    let rows_and_cols = if m.row.len() <= m.col.len() {
        m.row.len()
    } else {
        m.col.len()
    };
    let n = if rows_and_cols <= m.dists.len() {
        rows_and_cols
    } else {
        m.dists.len()
    };
    let first: u64 = if zero_index {
        0
    } else {
        1
    };
    let mut t: usize = 0;
    while t < n
        invariant
            n == num_entries(*m),
            first == if zero_index {
                0u64
            } else {
                1u64
            },
            0 <= t <= n,
            text@ == lines_of_entries(*m, zero_index, t as nat),
        decreases n - t,
    {
        let ghost before = text@;
        let ghost row = line_number(m.row[t as int], zero_index);
        let ghost col = line_number(m.col[t as int], zero_index);
        let ghost dist = m.dists[t as int] as nat;
        push_decimal(&mut text, m.row[t] as u64 + first);
        text.push(COMMA);
        push_decimal(&mut text, m.col[t] as u64 + first);
        text.push(COMMA);
        push_decimal(&mut text, m.dists[t] as u64);
        text.push(LINE_END);
        assert(text@ =~= before + line_of(row, col, dist));
        t = t + 1;
    }
    text
}

} // verus!
