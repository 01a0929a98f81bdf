//! Input as it arrives: text cut into lines, and the check that every string
//! is ASCII.

use vstd::prelude::*;
use crate::error::Error;
use crate::parallel::views_of;

verus! {

/// The byte that ends a line.
pub const LINE_FEED: u8 = 10;

/// The byte that may stand before a line feed and is then part of the line's
/// end.
pub const CARRIAGE_RETURN: u8 = 13;

/// Every byte is in `0x00..=0x7F`.
pub open spec fn is_ascii(s: Seq<u8>) -> bool {
    forall|j: int| 0 <= j < s.len() ==> #[trigger] s[j] <= 0x7f
}

/// The position of the first line feed, or the length where there is none.
pub open spec fn first_line_end(bytes: Seq<u8>) -> nat
    decreases bytes.len(),
{
    if bytes.len() == 0 || bytes[0] == LINE_FEED {
        0
    } else {
        1 + first_line_end(bytes.drop_first())
    }
}

/// The line without the carriage return at its end, if it has one.
pub open spec fn trim_carriage_return(line: Seq<u8>) -> Seq<u8> {
    if line.len() > 0 && line.last() == CARRIAGE_RETURN {
        line.drop_last()
    } else {
        line
    }
}

/// The lines of a text. A line ends at a line feed, or at a carriage return
/// and a line feed, neither of which belongs to it; what follows the last
/// line feed is a line too unless it is empty.
pub open spec fn lines_of(bytes: Seq<u8>) -> Seq<Seq<u8>>
    decreases bytes.len(),
{
    if bytes.len() == 0 {
        Seq::empty()
    } else {
        let end = first_line_end(bytes);
        if end >= bytes.len() {
            seq![bytes]
        } else {
            seq![trim_carriage_return(bytes.take(end as int))] + lines_of(bytes.skip(end as int + 1))
        }
    }
}

/// Where the first line ends: at the first line feed, and at the end of the
/// text if there is none.
pub proof fn lemma_first_line_end(bytes: Seq<u8>, end: int)
    requires
        0 <= end <= bytes.len(),
        forall|j: int| 0 <= j < end ==> bytes[j] != LINE_FEED,
        end == bytes.len() || bytes[end] == LINE_FEED,
    ensures
        first_line_end(bytes) == end,
    decreases end,
{
    if end > 0 {
        let rest = bytes.drop_first();
        assert forall|j: int| 0 <= j < end - 1 implies rest[j] != LINE_FEED by {
            assert(rest[j] == bytes[j + 1]);
        }
        lemma_first_line_end(rest, end - 1);
    }
}

/// A copy of the bytes from `from` up to `to`.
fn copy_range(bytes: &Vec<u8>, from: usize, to: usize) -> (out: Vec<u8>)
    requires
        from <= to <= bytes.len(),
    ensures
        out@ == bytes@.subrange(from as int, to as int),
{
    let mut out: Vec<u8> = Vec::with_capacity(to - from);
    let mut p: usize = from;
    while p < to
        invariant
            from <= p <= to <= bytes.len(),
            out@ == bytes@.subrange(from as int, p as int),
        decreases to - p,
    {
        out.push(bytes[p]);
        assert(bytes@.subrange(from as int, p + 1) =~= bytes@.subrange(from as int, p as int).push(
            bytes@[p as int],
        ));
        p = p + 1;
    }
    out
}

/// Cuts a text into its lines.
pub fn split_lines(bytes: &Vec<u8>) -> (lines: Vec<Vec<u8>>)
    ensures
        views_of(lines@) == lines_of(bytes@),
{
    let n = bytes.len();
    let mut lines: Vec<Vec<u8>> = Vec::new();
    let mut start: usize = 0;
    assert(bytes@.skip(0) =~= bytes@);
    assert(views_of(lines@) + lines_of(bytes@) =~= lines_of(bytes@));
    while start < n
        invariant
            n == bytes.len(),
            0 <= start <= n,
            views_of(lines@) + lines_of(bytes@.skip(start as int)) == lines_of(bytes@),
        decreases n - start,
    {
        let ghost rest = bytes@.skip(start as int);
        let ghost before = views_of(lines@);
        let mut end: usize = start;
        while end < n && bytes[end] != LINE_FEED
            invariant
                n == bytes.len(),
                start <= end <= n,
                forall|j: int| start <= j < end ==> bytes[j] != LINE_FEED,
            decreases n - end,
        {
            end = end + 1;
        }
        proof {
            assert forall|j: int| 0 <= j < end - start implies rest[j] != LINE_FEED by {
                assert(rest[j] == bytes[start + j]);
            }
            lemma_first_line_end(rest, end - start);
        }
        if end == n {
            let line = copy_range(bytes, start, n);
            assert(line@ =~= rest);
            lines.push(line);
            assert(views_of(lines@) =~= before.push(rest));
            assert(bytes@.skip(n as int) =~= Seq::<u8>::empty());
            assert(before.push(rest) + Seq::<Seq<u8>>::empty() =~= before + seq![rest]);
            start = n;
        } else {
            let mut stop: usize = end;
            if stop > start && bytes[stop - 1] == CARRIAGE_RETURN {
                stop = stop - 1;
            }
            let line = copy_range(bytes, start, stop);
            let ghost whole = rest.take(end - start);
            assert(whole =~= bytes@.subrange(start as int, end as int));
            assert(line@ =~= trim_carriage_return(whole));
            lines.push(line);
            assert(views_of(lines@) =~= before.push(trim_carriage_return(whole)));
            assert(rest.skip(end - start + 1) =~= bytes@.skip(end + 1));
            assert(before.push(trim_carriage_return(whole)) + lines_of(bytes@.skip(end + 1)) =~= before
                + (seq![trim_carriage_return(whole)] + lines_of(rest.skip(end - start + 1))));
            start = end + 1;
        }
    }
    assert(bytes@.skip(n as int) =~= Seq::<u8>::empty());
    assert(views_of(lines@) + Seq::<Seq<u8>>::empty() =~= views_of(lines@));
    lines
}

/// Whether every byte of the string is ASCII.
pub fn string_is_ascii(s: &Vec<u8>) -> (yes: bool)
    ensures
        yes == is_ascii(s@),
{
    let mut j: usize = 0;
    while j < s.len()
        invariant
            0 <= j <= s.len(),
            forall|i: int| 0 <= i < j ==> #[trigger] s[i] <= 0x7f,
        decreases s.len() - j,
    {
        if s[j] > 0x7f {
            return false;
        }
        j = j + 1;
    }
    true
}

/// Accepts a collection in which every string is ASCII, and names the first
/// string that is not.
pub fn check_strings_ascii(strings: &Vec<Vec<u8>>) -> (r: Result<(), Error>)
    ensures
        match r {
            Ok(_) => forall|i: int| 0 <= i < strings.len() ==> is_ascii(#[trigger] strings[i]@),
            Err(Error::NonAsciiInput { row_num, offending_string }) => {
                &&& row_num < strings.len()
                &&& !is_ascii(strings[row_num as int]@)
                &&& forall|i: int| 0 <= i < row_num ==> is_ascii(#[trigger] strings[i]@)
                &&& offending_string@ == strings[row_num as int]@
            },
            Err(_) => false,
        },
{
    let mut i: usize = 0;
    while i < strings.len()
        invariant
            0 <= i <= strings.len(),
            forall|t: int| 0 <= t < i ==> is_ascii(#[trigger] strings[t]@),
        decreases strings.len() - i,
    {
        if !string_is_ascii(&strings[i]) {
            let offending_string = copy_range(&strings[i], 0, strings[i].len());
            assert(offending_string@ =~= strings[i as int]@);
            return Err(Error::NonAsciiInput { row_num: i, offending_string });
        }
        i = i + 1;
    }
    Ok(())
}

/// Cuts a text into its lines and accepts them as a collection if every line
/// is ASCII; otherwise names the first line that is not.
pub fn get_input_lines_as_ascii(bytes: &Vec<u8>) -> (r: Result<Vec<Vec<u8>>, Error>)
    ensures
        match r {
            Ok(lines) => {
                &&& views_of(lines@) == lines_of(bytes@)
                &&& forall|i: int|
                    0 <= i < lines_of(bytes@).len() ==> is_ascii(#[trigger] lines_of(bytes@)[i])
            },
            Err(Error::NonAsciiInput { row_num, offending_string }) => {
                &&& row_num < lines_of(bytes@).len()
                &&& !is_ascii(lines_of(bytes@)[row_num as int])
                &&& forall|i: int| 0 <= i < row_num ==> is_ascii(#[trigger] lines_of(bytes@)[i])
                &&& offending_string@ == lines_of(bytes@)[row_num as int]
            },
            Err(_) => false,
        },
{
    let lines = split_lines(bytes);
    let ghost all = lines_of(bytes@);
    assert forall|i: int| 0 <= i < lines.len() implies #[trigger] all[i] == lines[i]@ by {
        assert(views_of(lines@)[i] == lines[i]@);
    }
    match check_strings_ascii(&lines) {
        Ok(_) => {
            assert forall|i: int| 0 <= i < all.len() implies is_ascii(#[trigger] all[i]) by {
                assert(is_ascii(lines[i]@));
            }
            Ok(lines)
        },
        Err(Error::NonAsciiInput { row_num, offending_string }) => {
            assert forall|i: int| 0 <= i < row_num implies is_ascii(#[trigger] all[i]) by {
                assert(is_ascii(lines[i]@));
            }
            Err(Error::NonAsciiInput { row_num, offending_string })
        },
        Err(e) => Err(e),
    }
}

} // verus!
