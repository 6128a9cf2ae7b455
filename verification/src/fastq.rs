//! Sequencing-read records and their byte-level grammar.
//!
//! A record is multi-line text: an identifier line opened by `@`, one or
//! more sequence lines, a separator line opened by `+`, and quality lines
//! that together are exactly as long as the sequence. Sequences wrapped
//! across several lines are accepted. A stream is a concatenation of such
//! records; reading past the last one signals exhaustion.

use crate::bytes::after_line;
use crate::bytes::find_byte;
use crate::bytes::find_from;
use crate::bytes::lemma_after_line_range;
use crate::bytes::line_at;
use crate::bytes::copy_range;
use crate::bytes::read_line;
use vstd::prelude::*;

verus! {

/// The mathematical content of one record.
pub struct RecView {
    pub id: Seq<u8>,
    pub desc: Option<Seq<u8>>,
    pub seq: Seq<u8>,
    pub qual: Seq<u8>,
}

/// What one parsing step at a given position yields.
pub enum Step {
    Rec { rec: RecView, next: int },
    End,
    Fail,
}

/// Index of the first space in the header, which separates the identifier
/// from the optional description.
pub open spec fn header_space(h: Seq<u8>) -> int {
    find_from(h, 1, 32u8)
}

/// The identifier: the header bytes after `@`, up to the first space.
pub open spec fn id_of_header(h: Seq<u8>) -> Seq<u8> {
    h.subrange(1, header_space(h))
}

/// The description: the header bytes after the first space, if there is one.
pub open spec fn desc_of_header(h: Seq<u8>) -> Option<Seq<u8>> {
    if header_space(h) < h.len() {
        Some(h.subrange(header_space(h) + 1, h.len() as int))
    } else {
        None
    }
}

/// Collects sequence lines from `pos` until a separator line opened by `+`;
/// yields the accumulated sequence and the position after the separator, or
/// `None` when the input ends first.
pub open spec fn parse_body(data: Seq<u8>, pos: int, acc: Seq<u8>) -> Option<(Seq<u8>, int)>
    decreases data.len() - pos,
{
    if pos < 0 || pos >= data.len() {
        None
    } else {
        let l = line_at(data, pos);
        let np = after_line(data, pos);
        if !(pos < np <= data.len()) {
            None
        } else if l.len() > 0 && l[0] == 43u8 {
            Some((acc, np))
        } else {
            parse_body(data, np, acc + l)
        }
    }
}

/// Collects quality lines from `pos` until they reach the sequence length
/// `need`; yields the quality string and the next position, or `None` when
/// the input ends first or the lengths do not match exactly.
pub open spec fn parse_qual(data: Seq<u8>, pos: int, need: int, acc: Seq<u8>) -> Option<
    (Seq<u8>, int),
>
    decreases data.len() - pos,
{
    if acc.len() > need {
        None
    } else if acc.len() == need {
        Some((acc, pos))
    } else if pos < 0 || pos >= data.len() {
        None
    } else {
        let l = line_at(data, pos);
        let np = after_line(data, pos);
        if !(pos < np <= data.len()) {
            None
        } else {
            parse_qual(data, np, need, acc + l)
        }
    }
}

/// One parsing step: the record that starts at `pos`, exhaustion at the end
/// of the input, or failure on malformed bytes.
pub open spec fn parse_record_at(data: Seq<u8>, pos: int) -> Step {
    if pos >= data.len() {
        Step::End
    } else if pos < 0 {
        Step::Fail
    } else {
        let h = line_at(data, pos);
        let p1 = after_line(data, pos);
        if h.len() == 0 || h[0] != 64u8 {
            Step::Fail
        } else if !(pos < p1 <= data.len()) {
            Step::Fail
        } else {
            match parse_body(data, p1, Seq::empty()) {
                None => Step::Fail,
                Some((sq, p2)) => match parse_qual(data, p2, sq.len() as int, Seq::empty()) {
                    None => Step::Fail,
                    Some((ql, p3)) => Step::Rec {
                        rec: RecView {
                            id: id_of_header(h),
                            desc: desc_of_header(h),
                            seq: sq,
                            qual: ql,
                        },
                        next: p3,
                    },
                },
            }
        }
    }
}

pub proof fn lemma_parse_body_advance(data: Seq<u8>, pos: int, acc: Seq<u8>)
    requires
        0 <= pos,
    ensures
        parse_body(data, pos, acc) matches Some(r) ==> pos < r.1 <= data.len(),
    decreases data.len() - pos,
{
    if 0 <= pos < data.len() {
        let np = after_line(data, pos);
        if pos < np <= data.len() {
            lemma_parse_body_advance(data, np, acc + line_at(data, pos));
        }
    }
}

pub proof fn lemma_parse_qual_bounds(data: Seq<u8>, pos: int, need: int, acc: Seq<u8>)
    requires
        0 <= pos <= data.len(),
    ensures
        parse_qual(data, pos, need, acc) matches Some(r) ==> pos <= r.1 <= data.len(),
    decreases data.len() - pos,
{
    if acc.len() < need && 0 <= pos < data.len() {
        let np = after_line(data, pos);
        if pos < np <= data.len() {
            lemma_parse_qual_bounds(data, np, need, acc + line_at(data, pos));
        }
    }
}

/// A successful step always moves forward and stays inside the input.
pub proof fn lemma_record_advances(data: Seq<u8>, pos: int)
    requires
        0 <= pos,
    ensures
        parse_record_at(data, pos) matches Step::Rec { rec, next } ==> pos < next <= data.len(),
{
    if pos < data.len() {
        let p1 = after_line(data, pos);
        if 0 <= pos < p1 <= data.len() {
            lemma_parse_body_advance(data, p1, Seq::empty());
            match parse_body(data, p1, Seq::empty()) {
                Some((sq, p2)) => {
                    lemma_parse_qual_bounds(data, p2, sq.len() as int, Seq::empty());
                },
                None => {},
            }
        }
    }
}

/// All records from `pos` to the end of the input, or `None` when a
/// malformed record is reached.
pub open spec fn records_from(data: Seq<u8>, pos: int) -> Option<Seq<RecView>>
    decreases data.len() - pos,
{
    match parse_record_at(data, pos) {
        Step::End => Some(Seq::empty()),
        Step::Fail => None,
        Step::Rec { rec, next } => if pos < next <= data.len() {
            match records_from(data, next) {
                None => None,
                Some(rs) => Some(rs.insert(0, rec)),
            }
        } else {
            None
        },
    }
}

/// All records of a whole stream.
pub open spec fn records_of(data: Seq<u8>) -> Option<Seq<RecView>> {
    records_from(data, 0)
}

/// One record, as read: identifier, optional description, sequence bytes,
/// quality bytes.
pub struct FastqRecord {
    pub id: Vec<u8>,
    pub desc: Option<Vec<u8>>,
    pub seq: Vec<u8>,
    pub qual: Vec<u8>,
}

impl View for FastqRecord {
    type V = RecView;

    open spec fn view(&self) -> RecView {
        RecView {
            id: self.id@,
            desc: match self.desc {
                Some(d) => Some(d@),
                None => None,
            },
            seq: self.seq@,
            qual: self.qual@,
        }
    }
}

/// The outcome of asking a source for its next record.
pub enum ReadStep {
    Record(FastqRecord),
    Done,
    Malformed,
}

/// A record stream over an already-decoded byte buffer, read one record at
/// a time.
pub struct FastqSource {
    data: Vec<u8>,
    pos: usize,
}

impl FastqSource {
    pub closed spec fn data_view(&self) -> Seq<u8> {
        self.data@
    }

    pub closed spec fn cursor(&self) -> int {
        self.pos as int
    }

    pub open spec fn wf(&self) -> bool {
        0 <= self.cursor() <= self.data_view().len()
    }

    pub fn new(data: Vec<u8>) -> (r: FastqSource)
        ensures
            r.data_view() == data@,
            r.cursor() == 0,
            r.wf(),
    {
        FastqSource { data, pos: 0 }
    }

    /// Reads the next record, advancing the cursor past it; reports
    /// exhaustion at the end of the stream and failure on malformed bytes.
    #[verifier::loop_isolation(false)]
    pub fn next(&mut self) -> (r: ReadStep)
        requires
            old(self).wf(),
        ensures
            final(self).data_view() == old(self).data_view(),
            final(self).wf(),
            match parse_record_at(old(self).data_view(), old(self).cursor()) {
                Step::End => r is Done && final(self).cursor() == old(self).cursor(),
                Step::Fail => r is Malformed,
                Step::Rec { rec, next } => (r matches ReadStep::Record(fr) && fr@ == rec)
                    && final(self).cursor() == next,
            },
    {
        let ghost d = self.data@;
        let ghost p0 = self.pos as int;
        if self.pos >= self.data.len() {
            return ReadStep::Done;
        }
        proof {
            lemma_after_line_range(d, p0);
        }
        let (header, p1) = read_line(&self.data, self.pos);
        if header.len() == 0 || header[0] != 64u8 {
            return ReadStep::Malformed;
        }
        let hsp = find_byte(&header, 1, 32u8);
        let id = copy_range(&header, 1, hsp);
        let desc = if hsp < header.len() {
            Some(copy_range(&header, hsp + 1, header.len()))
        } else {
            None
        };
        let mut sq: Vec<u8> = Vec::new();
        let mut p: usize = p1;
        let mut body_done = false;
        while !body_done
            invariant
                p1 <= p <= self.data.len(),
                !body_done ==> parse_body(d, p1 as int, Seq::empty()) == parse_body(
                    d,
                    p as int,
                    sq@,
                ),
                body_done ==> parse_body(d, p1 as int, Seq::empty()) == Some((sq@, p as int)),
            decreases self.data.len() - p,
        {
            if p >= self.data.len() {
                assert(parse_body(d, p as int, sq@) is None);
                return ReadStep::Malformed;
            }
            proof {
                lemma_after_line_range(d, p as int);
            }
            let (mut l, np) = read_line(&self.data, p);
            if l.len() > 0 && l[0] == 43u8 {
                assert(parse_body(d, p as int, sq@) == Some((sq@, np as int)));
                body_done = true;
            } else {
                let ghost old_sq = sq@;
                sq.append(&mut l);
                proof {
                    assert(parse_body(d, p as int, old_sq) == parse_body(
                        d,
                        np as int,
                        old_sq + line_at(d, p as int),
                    ));
                    assert(sq@ == old_sq + line_at(d, p as int));
                }
            }
            p = np;
        }
        let need = sq.len();
        let ghost p2 = p as int;
        let mut ql: Vec<u8> = Vec::new();
        while ql.len() < need
            invariant
                p2 <= p <= self.data.len(),
                parse_qual(d, p2, need as int, Seq::empty()) == parse_qual(
                    d,
                    p as int,
                    need as int,
                    ql@,
                ),
            decreases self.data.len() - p,
        {
            if p >= self.data.len() {
                assert(parse_qual(d, p as int, need as int, ql@) is None);
                return ReadStep::Malformed;
            }
            proof {
                lemma_after_line_range(d, p as int);
            }
            let (mut l, np) = read_line(&self.data, p);
            let ghost old_ql = ql@;
            ql.append(&mut l);
            proof {
                assert(parse_qual(d, p as int, need as int, old_ql) == parse_qual(
                    d,
                    np as int,
                    need as int,
                    old_ql + line_at(d, p as int),
                ));
            }
            p = np;
        }
        if ql.len() > need {
            assert(parse_qual(d, p as int, need as int, ql@) is None);
            return ReadStep::Malformed;
        }
        assert(parse_qual(d, p as int, need as int, ql@) == Some((ql@, p as int)));
        self.pos = p;
        let rec = FastqRecord { id, desc, seq: sq, qual: ql };
        proof {
            let h = line_at(d, p0);
            assert(rec@.id == id_of_header(h));
            assert(rec@.desc == desc_of_header(h));
            assert(parse_record_at(d, p0) == Step::Rec { rec: rec@, next: p as int });
        }
        ReadStep::Record(rec)
    }
}

} // verus!
