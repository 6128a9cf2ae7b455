//! The match-and-emit loop: both record streams advance in strict
//! lock-step; each aligned pair is tested against the barcode table, and a
//! hit emits one tab-separated output row built from the read-1 record and
//! the table entry.

use crate::bytes::append_range;
use crate::bytes::copy_range;
use crate::fastq::FastqRecord;
use crate::fastq::FastqSource;
use crate::fastq::ReadStep;
use crate::fastq::RecView;
use crate::fastq::Step;
use crate::fastq::lemma_record_advances;
use crate::fastq::parse_record_at;
use crate::fastq::records_from;
use crate::fastq::records_of;
use crate::gzip::gunzip_all;
use crate::gzip::multi_gunzip_of;
use crate::table::BarcodeTable;
use crate::table::table_of;
use crate::ScanError;
use vstd::prelude::*;

verus! {

/// The constant first field of every output row.
pub open spec fn spec_tag() -> Seq<u8> {
    seq![115u8, 99u8, 105u8, 80u8, 108u8, 101u8, 120u8, 65u8, 84u8, 65u8, 67u8]
}

/// Index of the last colon in `s`, or -1 when there is none.
pub open spec fn rfind_colon_in(s: Seq<u8>) -> int
    decreases s.len(),
{
    if s.len() == 0 {
        -1
    } else if s[s.len() - 1] == 58u8 {
        s.len() - 1
    } else {
        rfind_colon_in(s.drop_last())
    }
}

pub proof fn lemma_rfind_colon_range(s: Seq<u8>)
    ensures
        -1 <= rfind_colon_in(s) < s.len(),
    decreases s.len(),
{
    if s.len() > 0 && s[s.len() - 1] != 58u8 {
        lemma_rfind_colon_range(s.drop_last());
    }
}

/// The well identifier derived from a read-1 identifier: everything before
/// the last colon, or the whole identifier when it has no colon.
pub open spec fn well_id_of(id: Seq<u8>) -> Seq<u8> {
    if rfind_colon_in(id) >= 0 {
        id.take(rfind_colon_in(id))
    } else {
        id
    }
}

/// One output row: tag, well identifier, first 8 bases of read 1, barcode
/// name, auxiliary code — tab-separated and newline-terminated.
pub open spec fn out_line(well: Seq<u8>, pre: Seq<u8>, name: Seq<u8>, aux: Seq<u8>) -> Seq<u8> {
    spec_tag() + seq![9u8] + well + seq![9u8] + pre + seq![9u8] + name + seq![9u8] + aux
        + seq![10u8]
}

/// What one aligned pair contributes to the output: one row when read 2 has
/// at least 10 bases whose prefix is in the table and read 1 has at least 8
/// bases; nothing otherwise.
pub open spec fn emit_for_pair(
    tbl: Map<Seq<u8>, (Seq<u8>, Seq<u8>)>,
    r1: RecView,
    r2: RecView,
) -> Seq<u8> {
    if r2.seq.len() >= 10 && tbl.contains_key(r2.seq.take(10)) && r1.seq.len() >= 8 {
        out_line(
            well_id_of(r1.id),
            r1.seq.take(8),
            tbl[r2.seq.take(10)].0,
            tbl[r2.seq.take(10)].1,
        )
    } else {
        Seq::empty()
    }
}

/// A pair whose read-2 prefix hits the table and whose read 1 is long
/// enough yields exactly the row built from read 1 and the table entry.
pub proof fn lemma_pair_hit(tbl: Map<Seq<u8>, (Seq<u8>, Seq<u8>)>, r1: RecView, r2: RecView)
    requires
        r2.seq.len() >= 10,
        tbl.contains_key(r2.seq.take(10)),
        r1.seq.len() >= 8,
    ensures
        emit_for_pair(tbl, r1, r2) == out_line(
            well_id_of(r1.id),
            r1.seq.take(8),
            tbl[r2.seq.take(10)].0,
            tbl[r2.seq.take(10)].1,
        ),
{
}

/// A pair whose read-2 prefix is absent from the table yields no output.
pub proof fn lemma_pair_miss(tbl: Map<Seq<u8>, (Seq<u8>, Seq<u8>)>, r1: RecView, r2: RecView)
    requires
        !tbl.contains_key(r2.seq.take(10)),
    ensures
        emit_for_pair(tbl, r1, r2) == Seq::<u8>::empty(),
{
}

/// A pair with a short read — read 2 under 10 bases or read 1 under 8 — is
/// skipped silently: no output, no error.
pub proof fn lemma_pair_short(tbl: Map<Seq<u8>, (Seq<u8>, Seq<u8>)>, r1: RecView, r2: RecView)
    requires
        r2.seq.len() < 10 || r1.seq.len() < 8,
    ensures
        emit_for_pair(tbl, r1, r2) == Seq::<u8>::empty(),
{
}

/// The output of the lock-step scan from a pair of positions on: stepping
/// both streams, stopping as soon as either is exhausted, failing (`None`)
/// as soon as either yields malformed bytes.
pub open spec fn spec_scan_from(
    tbl: Map<Seq<u8>, (Seq<u8>, Seq<u8>)>,
    d1: Seq<u8>,
    p1: int,
    d2: Seq<u8>,
    p2: int,
) -> Option<Seq<u8>>
    decreases d1.len() - p1,
{
    match (parse_record_at(d1, p1), parse_record_at(d2, p2)) {
        (Step::Fail, _) => None,
        (_, Step::Fail) => None,
        (Step::End, _) => Some(Seq::empty()),
        (_, Step::End) => Some(Seq::empty()),
        (Step::Rec { rec: r1, next: n1 }, Step::Rec { rec: r2, next: n2 }) => if p1 < n1
            <= d1.len() {
            match spec_scan_from(tbl, d1, n1, d2, n2) {
                None => None,
                Some(rest) => Some(emit_for_pair(tbl, r1, r2) + rest),
            }
        } else {
            None
        },
    }
}

/// The output of the scan over two fully parsed record lists: pairs are
/// taken in order until the shorter list runs out.
pub open spec fn spec_scan_pairs(
    tbl: Map<Seq<u8>, (Seq<u8>, Seq<u8>)>,
    rs1: Seq<RecView>,
    rs2: Seq<RecView>,
) -> Seq<u8>
    decreases rs1.len(),
{
    if rs1.len() == 0 || rs2.len() == 0 {
        Seq::empty()
    } else {
        emit_for_pair(tbl, rs1[0], rs2[0]) + spec_scan_pairs(tbl, rs1.skip(1), rs2.skip(1))
    }
}

/// When both streams parse cleanly, the lock-step scan succeeds and its
/// output is the pairwise scan of the two record lists: with mismatched
/// record counts it stops at the shorter list's exhaustion, and never
/// fails.
pub proof fn lemma_scan_stops_at_shorter(
    tbl: Map<Seq<u8>, (Seq<u8>, Seq<u8>)>,
    d1: Seq<u8>,
    p1: int,
    d2: Seq<u8>,
    p2: int,
    rs1: Seq<RecView>,
    rs2: Seq<RecView>,
)
    requires
        0 <= p1 <= d1.len(),
        0 <= p2 <= d2.len(),
        records_from(d1, p1) == Some(rs1),
        records_from(d2, p2) == Some(rs2),
    ensures
        spec_scan_from(tbl, d1, p1, d2, p2) == Some(spec_scan_pairs(tbl, rs1, rs2)),
    decreases d1.len() - p1,
{
    lemma_record_advances(d1, p1);
    lemma_record_advances(d2, p2);
    match (parse_record_at(d1, p1), parse_record_at(d2, p2)) {
        (Step::Rec { rec: r1, next: n1 }, Step::Rec { rec: r2, next: n2 }) => {
            let rest1 = records_from(d1, n1)->Some_0;
            let rest2 = records_from(d2, n2)->Some_0;
            lemma_scan_stops_at_shorter(tbl, d1, n1, d2, n2, rest1, rest2);
            assert(rs1 == rest1.insert(0, r1));
            assert(rs2 == rest2.insert(0, r2));
            assert(rs1.skip(1) =~= rest1);
            assert(rs2.skip(1) =~= rest2);
            assert(rs1[0] == r1);
            assert(rs2[0] == r2);
        },
        _ => {},
    }
}

/// Two well-formed streams with different total record counts scan without
/// failure, and the output is the pairwise scan, which stops at the shorter
/// stream's exhaustion.
pub proof fn lemma_whole_streams_scan(
    tbl: Map<Seq<u8>, (Seq<u8>, Seq<u8>)>,
    d1: Seq<u8>,
    d2: Seq<u8>,
    rs1: Seq<RecView>,
    rs2: Seq<RecView>,
)
    requires
        records_of(d1) == Some(rs1),
        records_of(d2) == Some(rs2),
    ensures
        spec_scan_from(tbl, d1, 0, d2, 0) == Some(spec_scan_pairs(tbl, rs1, rs2)),
{
    lemma_scan_stops_at_shorter(tbl, d1, 0, d2, 0, rs1, rs2);
}

/// Appends the constant tag field.
fn append_tag(out: &mut Vec<u8>)
    ensures
        final(out)@ == old(out)@ + spec_tag(),
{
    out.push(115u8);
    out.push(99u8);
    out.push(105u8);
    out.push(80u8);
    out.push(108u8);
    out.push(101u8);
    out.push(120u8);
    out.push(65u8);
    out.push(84u8);
    out.push(65u8);
    out.push(67u8);
    proof {
        assert(out@ =~= old(out)@ + spec_tag());
    }
}

/// Finds the last colon of a read identifier, if any.
fn rfind_colon(id: &Vec<u8>) -> (r: Option<usize>)
    ensures
        match r {
            Some(c) => c == rfind_colon_in(id@) && c < id@.len(),
            None => rfind_colon_in(id@) == -1,
        },
{
    let mut i: usize = id.len();
    proof {
        assert(id@.take(i as int) =~= id@);
    }
    while i > 0
        invariant
            i <= id.len(),
            rfind_colon_in(id@) == rfind_colon_in(id@.take(i as int)),
        decreases i,
    {
        i = i - 1;
        proof {
            assert(id@.take(i as int + 1).drop_last() =~= id@.take(i as int));
            assert(id@.take(i as int + 1).last() == id@[i as int]);
        }
        if id[i] == 58u8 {
            return Some(i);
        }
    }
    proof {
        assert(id@.take(0) =~= Seq::<u8>::empty());
    }
    None
}

/// Tests one aligned pair against the table and appends its output row, if
/// any, to `out`: exactly `emit_for_pair` of the two records.
pub fn match_pair(table: &BarcodeTable, r1: &FastqRecord, r2: &FastqRecord, out: &mut Vec<u8>)
    ensures
        final(out)@ == old(out)@ + emit_for_pair(table@, r1@, r2@),
{
    if r2.seq.len() < 10 {
        proof {
            assert(old(out)@ + emit_for_pair(table@, r1@, r2@) =~= old(out)@);
        }
        return ;
    }
    let key = copy_range(&r2.seq, 0, 10);
    proof {
        assert(key@ =~= r2@.seq.take(10));
    }
    match table.lookup(&key) {
        None => {
            proof {
                assert(old(out)@ + emit_for_pair(table@, r1@, r2@) =~= old(out)@);
            }
        },
        Some(val) => {
            if r1.seq.len() < 8 {
                proof {
                    assert(old(out)@ + emit_for_pair(table@, r1@, r2@) =~= old(out)@);
                }
                return ;
            }
            let ghost base = out@;
            append_tag(out);
            out.push(9u8);
            proof {
                lemma_rfind_colon_range(r1.id@);
            }
            match rfind_colon(&r1.id) {
                Some(c) => {
                    append_range(out, &r1.id, 0, c);
                    proof {
                        assert(r1.id@.subrange(0, c as int) =~= well_id_of(r1@.id));
                    }
                },
                None => {
                    append_range(out, &r1.id, 0, r1.id.len());
                    proof {
                        assert(r1.id@.subrange(0, r1.id@.len() as int) =~= well_id_of(r1@.id));
                    }
                },
            }
            out.push(9u8);
            append_range(out, &r1.seq, 0, 8);
            proof {
                assert(r1.seq@.subrange(0, 8) =~= r1@.seq.take(8));
            }
            out.push(9u8);
            append_range(out, &val.0, 0, val.0.len());
            proof {
                assert(val.0@.subrange(0, val.0@.len() as int) =~= val.0@);
            }
            out.push(9u8);
            append_range(out, &val.1, 0, val.1.len());
            proof {
                assert(val.1@.subrange(0, val.1@.len() as int) =~= val.1@);
            }
            out.push(10u8);
            proof {
                assert(out@ =~= base + emit_for_pair(table@, r1@, r2@));
            }
        },
    }
}

/// Drives the two record streams in strict lock-step from their current
/// positions, appending one row per matching pair. Stops with success as
/// soon as either stream is exhausted; fails as soon as either stream
/// yields malformed bytes.
#[verifier::loop_isolation(false)]
pub fn scan_streams(table: &BarcodeTable, src1: &mut FastqSource, src2: &mut FastqSource) -> (r:
    Result<Vec<u8>, ScanError>)
    requires
        old(src1).wf(),
        old(src2).wf(),
    ensures
        match spec_scan_from(
            table@,
            old(src1).data_view(),
            old(src1).cursor(),
            old(src2).data_view(),
            old(src2).cursor(),
        ) {
            Some(o) => r is Ok && r->Ok_0@ == o,
            None => r == Err::<Vec<u8>, ScanError>(ScanError::MalformedRecord),
        },
{
    let ghost tbl = table@;
    let ghost d1 = old(src1).data_view();
    let ghost d2 = old(src2).data_view();
    let mut out: Vec<u8> = Vec::new();
    loop
        invariant
            src1.wf(),
            src2.wf(),
            src1.data_view() == d1,
            src2.data_view() == d2,
            match spec_scan_from(tbl, d1, src1.cursor(), d2, src2.cursor()) {
                Some(rest) => spec_scan_from(
                    tbl,
                    d1,
                    old(src1).cursor(),
                    d2,
                    old(src2).cursor(),
                ) == Some(out@ + rest),
                None => spec_scan_from(
                    tbl,
                    d1,
                    old(src1).cursor(),
                    d2,
                    old(src2).cursor(),
                ) is None,
            },
        decreases d1.len() - src1.cursor(),
    {
        let ghost c1 = src1.cursor();
        let ghost c2 = src2.cursor();
        proof {
            lemma_record_advances(d1, c1);
        }
        let s1 = src1.next();
        let s2 = src2.next();
        match (s1, s2) {
            (ReadStep::Malformed, _) => {
                return Err(ScanError::MalformedRecord);
            },
            (_, ReadStep::Malformed) => {
                return Err(ScanError::MalformedRecord);
            },
            (ReadStep::Done, _) => {
                proof {
                    assert(out@ + Seq::<u8>::empty() =~= out@);
                }
                return Ok(out);
            },
            (_, ReadStep::Done) => {
                proof {
                    assert(out@ + Seq::<u8>::empty() =~= out@);
                }
                return Ok(out);
            },
            (ReadStep::Record(fr1), ReadStep::Record(fr2)) => {
                let ghost old_out = out@;
                match_pair(table, &fr1, &fr2, &mut out);
                proof {
                    assert(spec_scan_from(tbl, d1, c1, d2, c2) matches Some(rest) ==> (out@
                        + spec_scan_from(tbl, d1, src1.cursor(), d2, src2.cursor())->Some_0)
                        =~= old_out + rest);
                }
            },
        }
    }
}

/// What decoding one input file yields: the raw bytes when the name does
/// not mark compression, the decoded stream otherwise.
pub open spec fn decoded_input(data: Seq<u8>, gz: bool) -> Option<Seq<u8>> {
    if gz {
        multi_gunzip_of(data)
    } else {
        Some(data)
    }
}

/// The whole run on in-memory inputs: table bytes, the two read files (each
/// flagged compressed or plain), and the produced output bytes or the first
/// fatal error.
pub open spec fn spec_run(
    t: Seq<u8>,
    d1: Seq<u8>,
    g1: bool,
    d2: Seq<u8>,
    g2: bool,
) -> Result<Seq<u8>, ScanError> {
    match table_of(t) {
        None => Err(ScanError::MalformedTableLine),
        Some(tbl) => match decoded_input(d1, g1) {
            None => Err(ScanError::BadCompressedInput),
            Some(x1) => match decoded_input(d2, g2) {
                None => Err(ScanError::BadCompressedInput),
                Some(x2) => match spec_scan_from(tbl, x1, 0, x2, 0) {
                    None => Err(ScanError::MalformedRecord),
                    Some(o) => Ok(o),
                },
            },
        },
    }
}

/// Loads the table, decodes each read file that is flagged compressed, and
/// runs the lock-step scan, yielding the full output text.
pub fn run_scan(
    table_data: &Vec<u8>,
    r1_data: Vec<u8>,
    r1_gz: bool,
    r2_data: Vec<u8>,
    r2_gz: bool,
) -> (r: Result<Vec<u8>, ScanError>)
    ensures
        match spec_run(table_data@, r1_data@, r1_gz, r2_data@, r2_gz) {
            Ok(o) => r is Ok && r->Ok_0@ == o,
            Err(e) => r == Err::<Vec<u8>, ScanError>(e),
        },
{
    let table = match BarcodeTable::load(table_data) {
        Ok(t) => t,
        Err(e) => {
            return Err(e);
        },
    };
    let d1 = if r1_gz {
        match gunzip_all(&r1_data) {
            Some(v) => v,
            None => {
                return Err(ScanError::BadCompressedInput);
            },
        }
    } else {
        r1_data
    };
    let d2 = if r2_gz {
        match gunzip_all(&r2_data) {
            Some(v) => v,
            None => {
                return Err(ScanError::BadCompressedInput);
            },
        }
    } else {
        r2_data
    };
    let mut s1 = FastqSource::new(d1);
    let mut s2 = FastqSource::new(d2);
    scan_streams(&table, &mut s1, &mut s2)
}

} // verus!
