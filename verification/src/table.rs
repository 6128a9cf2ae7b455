//! The barcode reference table: a whitespace-delimited text file is parsed
//! into an exact-match lookup structure from barcode sequence to
//! (barcode name, auxiliary code).
//!
//! Each non-empty line holds `<name> <barcode>` or `<name> <barcode> <aux>`;
//! when the third field is missing the auxiliary code is the literal `"0"`.
//! A duplicate barcode keeps the last line's values. A line with exactly one
//! field aborts loading with a clear error; lines with no fields are skipped.

use crate::bytes::after_line;
use crate::bytes::line_at;
use crate::bytes::lemma_after_line_range;
use crate::bytes::copy_range;
use crate::bytes::bytes_eq;
use crate::bytes::read_line;
use crate::ScanError;
use vstd::prelude::*;

verus! {

/// ASCII whitespace that separates fields within a line.
pub open spec fn is_ws(b: u8) -> bool {
    b == 32u8 || b == 9u8 || b == 13u8 || b == 11u8 || b == 12u8
}

fn is_ws_byte(b: u8) -> (r: bool)
    ensures
        r == is_ws(b),
{
    b == 32u8 || b == 9u8 || b == 13u8 || b == 11u8 || b == 12u8
}

/// Index of the first non-whitespace byte at or after `pos`, or `line.len()`.
pub open spec fn skip_ws_from(line: Seq<u8>, pos: int) -> int
    decreases line.len() - pos,
{
    if pos < 0 || pos >= line.len() {
        line.len() as int
    } else if is_ws(line[pos]) {
        skip_ws_from(line, pos + 1)
    } else {
        pos
    }
}

/// Index of the first whitespace byte at or after `pos`, or `line.len()`.
pub open spec fn token_end_from(line: Seq<u8>, pos: int) -> int
    decreases line.len() - pos,
{
    if pos < 0 || pos >= line.len() {
        line.len() as int
    } else if is_ws(line[pos]) {
        pos
    } else {
        token_end_from(line, pos + 1)
    }
}

pub proof fn lemma_skip_ws_range(line: Seq<u8>, pos: int)
    requires
        0 <= pos <= line.len(),
    ensures
        pos <= skip_ws_from(line, pos) <= line.len(),
        skip_ws_from(line, pos) < line.len() ==> !is_ws(line[skip_ws_from(line, pos)]),
    decreases line.len() - pos,
{
    if pos < line.len() && is_ws(line[pos]) {
        lemma_skip_ws_range(line, pos + 1);
    }
}

pub proof fn lemma_token_end_range(line: Seq<u8>, pos: int)
    requires
        0 <= pos <= line.len(),
    ensures
        pos <= token_end_from(line, pos) <= line.len(),
    decreases line.len() - pos,
{
    if pos < line.len() && !is_ws(line[pos]) {
        lemma_token_end_range(line, pos + 1);
    }
}

/// The whitespace-separated fields of `line`, from `pos` on.
pub open spec fn tokens_from(line: Seq<u8>, pos: int) -> Seq<Seq<u8>>
    decreases line.len() - pos,
{
    let s = skip_ws_from(line, pos);
    if s >= line.len() {
        Seq::empty()
    } else {
        let e = token_end_from(line, s);
        if pos <= s && s < e <= line.len() {
            tokens_from(line, e).insert(0, line.subrange(s, e))
        } else {
            Seq::empty()
        }
    }
}

/// The fields of a whole line.
pub open spec fn tokens_of(line: Seq<u8>) -> Seq<Seq<u8>> {
    tokens_from(line, 0)
}

/// The byte sequences that a list of `(start, end)` spans picks out of `line`.
pub open spec fn spans_views(spans: Seq<(usize, usize)>, line: Seq<u8>) -> Seq<Seq<u8>> {
    spans.map_values(|p: (usize, usize)| line.subrange(p.0 as int, p.1 as int))
}

fn skip_ws(line: &Vec<u8>, pos: usize) -> (r: usize)
    requires
        pos <= line.len(),
    ensures
        r == skip_ws_from(line@, pos as int),
        pos <= r <= line.len(),
{
    let mut i: usize = pos;
    while i < line.len() && is_ws_byte(line[i])
        invariant
            pos <= i <= line.len(),
            skip_ws_from(line@, pos as int) == skip_ws_from(line@, i as int),
        decreases line.len() - i,
    {
        i = i + 1;
    }
    i
}

fn token_end(line: &Vec<u8>, pos: usize) -> (r: usize)
    requires
        pos <= line.len(),
    ensures
        r == token_end_from(line@, pos as int),
        pos <= r <= line.len(),
{
    let mut i: usize = pos;
    while i < line.len() && !is_ws_byte(line[i])
        invariant
            pos <= i <= line.len(),
            token_end_from(line@, pos as int) == token_end_from(line@, i as int),
        decreases line.len() - i,
    {
        i = i + 1;
    }
    i
}

/// Finds the `(start, end)` span of every whitespace-separated field of
/// `line`, in order.
pub fn token_spans(line: &Vec<u8>) -> (r: Vec<(usize, usize)>)
    ensures
        spans_views(r@, line@) == tokens_of(line@),
        forall|i: int| 0 <= i < r@.len() ==> (#[trigger] r@[i]).0 <= r@[i].1 <= line@.len(),
{
    let mut r: Vec<(usize, usize)> = Vec::new();
    let mut pos: usize = 0;
    loop
        invariant
            pos <= line.len(),
            tokens_of(line@) == spans_views(r@, line@) + tokens_from(line@, pos as int),
            forall|i: int| 0 <= i < r@.len() ==> (#[trigger] r@[i]).0 <= r@[i].1 <= line@.len(),
        ensures
            spans_views(r@, line@) == tokens_of(line@),
            forall|i: int| 0 <= i < r@.len() ==> (#[trigger] r@[i]).0 <= r@[i].1 <= line@.len(),
        decreases line.len() - pos,
    {
        let s = skip_ws(line, pos);
        if s >= line.len() {
            assert(tokens_from(line@, pos as int) =~= Seq::<Seq<u8>>::empty());
            assert(spans_views(r@, line@) + Seq::<Seq<u8>>::empty() =~= spans_views(r@, line@));
            return r;
        }
        let e = token_end(line, s);
        proof {
            lemma_skip_ws_range(line@, pos as int);
            lemma_token_end_range(line@, s as int);
            // the first byte of the token is not whitespace, so the token is
            // non-empty
            assert(token_end_from(line@, s as int) == token_end_from(line@, s as int + 1));
            lemma_token_end_range(line@, s as int + 1);
        }
        let ghost old_r = r@;
        r.push((s, e));
        proof {
            assert(tokens_from(line@, pos as int) == tokens_from(line@, e as int).insert(
                0,
                line@.subrange(s as int, e as int),
            ));
            assert(spans_views(r@, line@) =~= spans_views(old_r, line@).push(
                line@.subrange(s as int, e as int),
            ));
            assert(spans_views(old_r, line@) + tokens_from(line@, pos as int) =~= spans_views(
                r@,
                line@,
            ) + tokens_from(line@, e as int));
        }
        pos = e;
    }
}

/// One line of the table, as loaded.
pub struct TableEntry {
    pub key: Vec<u8>,
    pub name: Vec<u8>,
    pub aux: Vec<u8>,
}

/// The mapping that a list of entries denotes: a later entry with the same
/// key overrides an earlier one.
pub open spec fn map_of(entries: Seq<TableEntry>) -> Map<Seq<u8>, (Seq<u8>, Seq<u8>)>
    decreases entries.len(),
{
    if entries.len() == 0 {
        Map::empty()
    } else {
        map_of(entries.drop_last()).insert(
            entries.last().key@,
            (entries.last().name@, entries.last().aux@),
        )
    }
}

/// The auxiliary code that a two-field line gets: the literal `"0"`.
pub open spec fn default_aux() -> Seq<u8> {
    seq![48u8]
}

/// The table that the file bytes denote, read line by line, or `None` when
/// some non-empty line has only one field.
pub open spec fn table_of_from(
    data: Seq<u8>,
    pos: int,
    acc: Map<Seq<u8>, (Seq<u8>, Seq<u8>)>,
) -> Option<Map<Seq<u8>, (Seq<u8>, Seq<u8>)>>
    decreases data.len() - pos,
{
    if pos < 0 || pos >= data.len() {
        Some(acc)
    } else {
        let toks = tokens_of(line_at(data, pos));
        let np = after_line(data, pos);
        if !(pos < np <= data.len()) {
            None
        } else if toks.len() == 0 {
            table_of_from(data, np, acc)
        } else if toks.len() == 1 {
            None
        } else {
            let aux = if toks.len() >= 3 {
                toks[2]
            } else {
                default_aux()
            };
            table_of_from(data, np, acc.insert(toks[1], (toks[0], aux)))
        }
    }
}

/// The table that the whole file denotes.
pub open spec fn table_of(data: Seq<u8>) -> Option<Map<Seq<u8>, (Seq<u8>, Seq<u8>)>> {
    table_of_from(data, 0, Map::empty())
}

/// The loaded barcode table: an exact-match map from barcode sequence to
/// (name, auxiliary code).
pub struct BarcodeTable {
    entries: Vec<TableEntry>,
}

impl View for BarcodeTable {
    type V = Map<Seq<u8>, (Seq<u8>, Seq<u8>)>;

    closed spec fn view(&self) -> Map<Seq<u8>, (Seq<u8>, Seq<u8>)> {
        map_of(self.entries@)
    }
}

impl BarcodeTable {
    /// Parses the bytes of a barcode reference file. Returns the table whose
    /// mapping is exactly `table_of(data)`, or the table error when some
    /// non-empty line has a single field.
    pub fn load(data: &Vec<u8>) -> (r: Result<BarcodeTable, ScanError>)
        ensures
            match table_of(data@) {
                Some(m) => r is Ok && r->Ok_0@ == m,
                None => r == Err::<BarcodeTable, ScanError>(ScanError::MalformedTableLine),
            },
    {
        let mut entries: Vec<TableEntry> = Vec::new();
        let mut pos: usize = 0;
        while pos < data.len()
            invariant
                pos <= data.len(),
                table_of(data@) == table_of_from(data@, pos as int, map_of(entries@)),
            decreases data.len() - pos,
        {
            proof {
                lemma_after_line_range(data@, pos as int);
            }
            let (line, next) = read_line(data, pos);
            let toks = token_spans(&line);
            if toks.len() == 1 {
                return Err(ScanError::MalformedTableLine);
            }
            if toks.len() >= 2 {
                let name_span = toks[0];
                let key_span = toks[1];
                let name = copy_range(&line, name_span.0, name_span.1);
                let key = copy_range(&line, key_span.0, key_span.1);
                let aux = if toks.len() >= 3 {
                    let aux_span = toks[2];
                    copy_range(&line, aux_span.0, aux_span.1)
                } else {
                    let mut z: Vec<u8> = Vec::new();
                    z.push(48u8);
                    proof {
                        assert(z@ =~= default_aux());
                    }
                    z
                };
                proof {
                    assert(name@ == tokens_of(line@)[0]);
                    assert(key@ == tokens_of(line@)[1]);
                    assert(toks@.len() >= 3 ==> aux@ == tokens_of(line@)[2]);
                }
                let ghost old_entries = entries@;
                entries.push(TableEntry { key, name, aux });
                proof {
                    assert(entries@.drop_last() =~= old_entries);
                    assert(map_of(entries@) == map_of(old_entries).insert(
                        entries@.last().key@,
                        (entries@.last().name@, entries@.last().aux@),
                    ));
                }
            }
            pos = next;
        }
        Ok(BarcodeTable { entries })
    }

    /// Exact byte-wise lookup of a barcode sequence.
    pub fn lookup(&self, key: &Vec<u8>) -> (r: Option<(Vec<u8>, Vec<u8>)>)
        ensures
            match r {
                Some(p) => self@.contains_key(key@) && self@[key@] == (p.0@, p.1@),
                None => !self@.contains_key(key@),
            },
    {
        let mut i: usize = self.entries.len();
        proof {
            assert(self.entries@.take(i as int) =~= self.entries@);
        }
        while i > 0
            invariant
                i <= self.entries.len(),
                self@.contains_key(key@) == map_of(self.entries@.take(i as int)).contains_key(
                    key@,
                ),
                map_of(self.entries@.take(i as int)).contains_key(key@) ==> self@[key@] == map_of(
                    self.entries@.take(i as int),
                )[key@],
            decreases i,
        {
            i = i - 1;
            proof {
                assert(self.entries@.take(i as int + 1).drop_last() =~= self.entries@.take(
                    i as int,
                ));
                assert(self.entries@.take(i as int + 1).last() == self.entries@[i as int]);
            }
            let e = &self.entries[i];
            if bytes_eq(&e.key, key) {
                let name = copy_range(&e.name, 0, e.name.len());
                let aux = copy_range(&e.aux, 0, e.aux.len());
                proof {
                    assert(name@ =~= e.name@);
                    assert(aux@ =~= e.aux@);
                }
                return Some((name, aux));
            }
        }
        proof {
            assert(self.entries@.take(0) =~= Seq::<TableEntry>::empty());
        }
        None
    }
}

/// A table line with two or three fields loads to exactly one entry: the
/// second field maps to the first field together with the third, and a
/// two-field line gets the default auxiliary code `"0"`. (A line holds no
/// line-terminator bytes.)
pub proof fn lemma_table_line(line: Seq<u8>)
    requires
        !line.contains(10u8),
        !line.contains(13u8),
        2 <= tokens_of(line).len() <= 3,
    ensures
        table_of(line) == Some(
            Map::<Seq<u8>, (Seq<u8>, Seq<u8>)>::empty().insert(
                tokens_of(line)[1],
                (
                    tokens_of(line)[0],
                    if tokens_of(line).len() == 3 {
                        tokens_of(line)[2]
                    } else {
                        default_aux()
                    },
                ),
            ),
        ),
{
    if line.len() == 0 {
        assert(tokens_of(line) =~= Seq::<Seq<u8>>::empty());
    }
    assert(line.len() > 0);
    assert(line[line.len() - 1] != 13u8);
    crate::bytes::lemma_find_from_absent(line, 0, 10u8);
    assert(line.subrange(0, line.len() as int) =~= line);
    assert(line_at(line, 0) == line);
    assert(after_line(line, 0) == line.len() as int);
    let aux = if tokens_of(line).len() >= 3 {
        tokens_of(line)[2]
    } else {
        default_aux()
    };
    let acc = Map::<Seq<u8>, (Seq<u8>, Seq<u8>)>::empty().insert(
        tokens_of(line)[1],
        (tokens_of(line)[0], aux),
    );
    assert(table_of_from(line, line.len() as int, acc) == Some(acc));
    assert(table_of_from(line, 0, Map::empty()) == table_of_from(line, line.len() as int, acc));
}

} // verus!
