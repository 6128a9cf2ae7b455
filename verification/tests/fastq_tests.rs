use sciatac_find_hash_reads::fastq::FastqSource;
use sciatac_find_hash_reads::fastq::ReadStep;

fn v(s: &str) -> Vec<u8> {
    s.as_bytes().to_vec()
}

#[test]
fn reads_records_in_order_then_signals_done() {
    let data = "@first:1 left mate\nACGT\n+\nIIII\n@second:1\nGGCC\n+first copy\nJJJJ\n";
    let mut src = FastqSource::new(v(data));

    match src.next() {
        ReadStep::Record(rec) => {
            assert_eq!(rec.id, v("first:1"));
            assert_eq!(rec.desc, Some(v("left mate")));
            assert_eq!(rec.seq, v("ACGT"));
            assert_eq!(rec.qual, v("IIII"));
        },
        _ => panic!("expected a record"),
    }
    match src.next() {
        ReadStep::Record(rec) => {
            assert_eq!(rec.id, v("second:1"));
            assert_eq!(rec.desc, None);
            assert_eq!(rec.seq, v("GGCC"));
            assert_eq!(rec.qual, v("JJJJ"));
        },
        _ => panic!("expected a record"),
    }
    assert!(matches!(src.next(), ReadStep::Done));
    assert!(matches!(src.next(), ReadStep::Done));
}

#[test]
fn joins_wrapped_sequence_and_quality_lines() {
    let data = "@w:1\nAAA\nCCC\nGG\n+\nIII\nIIII\nI\n";
    let mut src = FastqSource::new(v(data));
    match src.next() {
        ReadStep::Record(rec) => {
            assert_eq!(rec.seq, v("AAACCCGG"));
            assert_eq!(rec.qual, v("IIIIIIII"));
        },
        _ => panic!("expected a record"),
    }
    assert!(matches!(src.next(), ReadStep::Done));
}

#[test]
fn crlf_line_endings_are_accepted() {
    let data = "@w:1\r\nACGT\r\n+\r\nIIII\r\n";
    let mut src = FastqSource::new(v(data));
    match src.next() {
        ReadStep::Record(rec) => {
            assert_eq!(rec.id, v("w:1"));
            assert_eq!(rec.seq, v("ACGT"));
        },
        _ => panic!("expected a record"),
    }
    assert!(matches!(src.next(), ReadStep::Done));
}

#[test]
fn missing_header_marker_is_malformed() {
    let mut src = FastqSource::new(v("w:1\nACGT\n+\nIIII\n"));
    assert!(matches!(src.next(), ReadStep::Malformed));
}

#[test]
fn missing_separator_is_malformed() {
    let mut src = FastqSource::new(v("@w:1\nACGT\nIIII\n"));
    assert!(matches!(src.next(), ReadStep::Malformed));
}

#[test]
fn overlong_quality_is_malformed() {
    let mut src = FastqSource::new(v("@w:1\nACGT\n+\nIIIII\n"));
    assert!(matches!(src.next(), ReadStep::Malformed));
}

#[test]
fn empty_stream_is_done_at_once() {
    let mut src = FastqSource::new(Vec::new());
    assert!(matches!(src.next(), ReadStep::Done));
}
