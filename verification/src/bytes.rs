//! Byte-level helpers shared by the table loader and the record parser:
//! locating line breaks, copying ranges, and comparing byte strings.

use vstd::prelude::*;

verus! {

/// A byte that occurs nowhere is never found.
pub proof fn lemma_find_from_absent(data: Seq<u8>, pos: int, b: u8)
    requires
        0 <= pos <= data.len(),
        !data.contains(b),
    ensures
        find_from(data, pos, b) == data.len(),
    decreases data.len() - pos,
{
    if pos < data.len() {
        assert(data[pos] != b);
        lemma_find_from_absent(data, pos + 1, b);
    }
}

/// Index of the first occurrence of `b` in `data` at or after `pos`, or
/// `data.len()` when there is none (or `pos` is out of range).
pub open spec fn find_from(data: Seq<u8>, pos: int, b: u8) -> int
    decreases data.len() - pos,
{
    if pos < 0 || pos >= data.len() {
        data.len() as int
    } else if data[pos] == b {
        pos
    } else {
        find_from(data, pos + 1, b)
    }
}

pub proof fn lemma_find_from_range(data: Seq<u8>, pos: int, b: u8)
    requires
        0 <= pos <= data.len(),
    ensures
        pos <= find_from(data, pos, b) <= data.len(),
        find_from(data, pos, b) < data.len() ==> data[find_from(data, pos, b)] == b,
    decreases data.len() - pos,
{
    if pos < data.len() && data[pos] != b {
        lemma_find_from_range(data, pos + 1, b);
    }
}

/// Finds the first occurrence of `b` at or after `pos`, or `data.len()`.
pub fn find_byte(data: &Vec<u8>, pos: usize, b: u8) -> (r: usize)
    requires
        pos <= data.len(),
    ensures
        r == find_from(data@, pos as int, b),
        pos <= r <= data.len(),
{
    let mut i: usize = pos;
    while i < data.len() && data[i] != b
        invariant
            pos <= i <= data.len(),
            find_from(data@, pos as int, b) == find_from(data@, i as int, b),
        decreases data.len() - i,
    {
        i = i + 1;
    }
    i
}

/// Copies `data[start..end]` into a fresh vector.
pub fn copy_range(data: &Vec<u8>, start: usize, end: usize) -> (r: Vec<u8>)
    requires
        start <= end <= data.len(),
    ensures
        r@ == data@.subrange(start as int, end as int),
{
    let mut out: Vec<u8> = Vec::new();
    let mut i: usize = start;
    while i < end
        invariant
            start <= i <= end <= data.len(),
            out@ == data@.subrange(start as int, i as int),
        decreases end - i,
    {
        out.push(data[i]);
        i = i + 1;
        assert(out@ =~= data@.subrange(start as int, i as int));
    }
    out
}

/// Appends `data[start..end]` to `out`.
pub fn append_range(out: &mut Vec<u8>, data: &Vec<u8>, start: usize, end: usize)
    requires
        start <= end <= data.len(),
    ensures
        final(out)@ == old(out)@ + data@.subrange(start as int, end as int),
{
    let mut i: usize = start;
    while i < end
        invariant
            start <= i <= end <= data.len(),
            out@ == old(out)@ + data@.subrange(start as int, i as int),
        decreases end - i,
    {
        out.push(data[i]);
        i = i + 1;
        assert(out@ =~= old(out)@ + data@.subrange(start as int, i as int));
    }
    assert(out@ =~= old(out)@ + data@.subrange(start as int, end as int));
}

/// Byte-exact comparison of two byte strings.
pub fn bytes_eq(a: &Vec<u8>, b: &Vec<u8>) -> (r: bool)
    ensures
        r == (a@ == b@),
{
    if a.len() != b.len() {
        return false;
    }
    let mut i: usize = 0;
    while i < a.len()
        invariant
            i <= a.len(),
            a.len() == b.len(),
            forall|j: int| 0 <= j < i ==> a@[j] == b@[j],
        decreases a.len() - i,
    {
        if a[i] != b[i] {
            return false;
        }
        i = i + 1;
    }
    proof {
        assert(a@ =~= b@);
    }
    true
}

/// End of the line that starts at `pos`: the index of the next newline byte,
/// or `data.len()` when the final line is unterminated.
pub open spec fn line_end(data: Seq<u8>, pos: int) -> int {
    find_from(data, pos, 10u8)
}

/// Position of the first byte after the line that starts at `pos`.
pub open spec fn after_line(data: Seq<u8>, pos: int) -> int {
    if line_end(data, pos) < data.len() {
        line_end(data, pos) + 1
    } else {
        data.len() as int
    }
}

/// Content of the line that starts at `pos`, without the newline terminator
/// and without one trailing carriage return, if present.
pub open spec fn line_at(data: Seq<u8>, pos: int) -> Seq<u8> {
    strip_cr(data.subrange(pos, line_end(data, pos)))
}

pub open spec fn strip_cr(line: Seq<u8>) -> Seq<u8> {
    if line.len() > 0 && line[line.len() - 1] == 13u8 {
        line.drop_last()
    } else {
        line
    }
}

pub proof fn lemma_after_line_range(data: Seq<u8>, pos: int)
    requires
        0 <= pos <= data.len(),
    ensures
        pos <= line_end(data, pos) <= data.len(),
        pos <= after_line(data, pos) <= data.len(),
        pos < data.len() ==> pos < after_line(data, pos),
{
    lemma_find_from_range(data, pos, 10u8);
}

/// Reads one line: returns its content (newline and trailing carriage return
/// stripped) and the position of the first byte after it.
pub fn read_line(data: &Vec<u8>, pos: usize) -> (r: (Vec<u8>, usize))
    requires
        pos <= data.len(),
    ensures
        r.0@ == line_at(data@, pos as int),
        r.1 == after_line(data@, pos as int),
        pos <= r.1 <= data.len(),
        pos < data.len() ==> pos < r.1,
{
    let e = find_byte(data, pos, 10u8);
    let next = if e < data.len() {
        e + 1
    } else {
        data.len()
    };
    let mut line = copy_range(data, pos, e);
    if line.len() > 0 && line[line.len() - 1] == 13u8 {
        let _ = line.pop();
    }
    (line, next)
}

} // verus!
