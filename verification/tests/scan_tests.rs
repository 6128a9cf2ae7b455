use sciatac_find_hash_reads::scan::run_scan;
use sciatac_find_hash_reads::ScanError;

fn v(s: &str) -> Vec<u8> {
    s.as_bytes().to_vec()
}

fn out_text(r: Result<Vec<u8>, ScanError>) -> String {
    String::from_utf8(r.unwrap()).unwrap()
}

const TABLE: &str = "BC01\tAAAAACCCCC\n";

#[test]
fn matching_pair_emits_one_row() {
    let r1 = "@run:lane:tile:x:y:1\nGGGGTTTTCCCC\n+\nIIIIIIIIIIII\n";
    let r2 = "@run:lane:tile:x:y:2\nAAAAACCCCCTTTT\n+\nIIIIIIIIIIIIII\n";
    let out = run_scan(&v(TABLE), v(r1), false, v(r2), false);
    assert_eq!(out_text(out), "sciPlexATAC\trun:lane:tile:x:y\tGGGGTTTT\tBC01\t0\n");
}

#[test]
fn aux_code_is_carried_through() {
    let table = "BC05\tAAAAACCCCC\tP9\n";
    let r1 = "@a:1\nGGGGTTTTCC\n+\nIIIIIIIIII\n";
    let r2 = "@a:2\nAAAAACCCCC\n+\nIIIIIIIIII\n";
    let out = run_scan(&v(table), v(r1), false, v(r2), false);
    assert_eq!(out_text(out), "sciPlexATAC\ta\tGGGGTTTT\tBC05\tP9\n");
}

#[test]
fn absent_prefix_emits_nothing() {
    let r1 = "@a:1\nGGGGTTTTCCCC\n+\nIIIIIIIIIIII\n";
    let r2 = "@a:2\nTTTTTGGGGGAAAA\n+\nIIIIIIIIIIIIII\n";
    let out = run_scan(&v(TABLE), v(r1), false, v(r2), false);
    assert_eq!(out_text(out), "");
}

#[test]
fn short_read2_is_skipped_silently() {
    let r1 = "@a:1\nGGGGTTTTCCCC\n+\nIIIIIIIIIIII\n";
    let r2 = "@a:2\nAAAAACCCC\n+\nIIIIIIIII\n";
    let out = run_scan(&v(TABLE), v(r1), false, v(r2), false);
    assert_eq!(out_text(out), "");
}

#[test]
fn short_read1_is_skipped_silently() {
    let r1 = "@a:1\nGGGGTTT\n+\nIIIIIII\n";
    let r2 = "@a:2\nAAAAACCCCCTT\n+\nIIIIIIIIIIII\n";
    let out = run_scan(&v(TABLE), v(r1), false, v(r2), false);
    assert_eq!(out_text(out), "");
}

#[test]
fn read1_with_exactly_eight_bases_is_emitted() {
    let r1 = "@a:1\nGGGGTTTT\n+\nIIIIIIII\n";
    let r2 = "@a:2\nAAAAACCCCC\n+\nIIIIIIIIII\n";
    let out = run_scan(&v(TABLE), v(r1), false, v(r2), false);
    assert_eq!(out_text(out), "sciPlexATAC\ta\tGGGGTTTT\tBC01\t0\n");
}

#[test]
fn identifier_without_colon_is_kept_whole() {
    let r1 = "@plainid\nGGGGTTTTCC\n+\nIIIIIIIIII\n";
    let r2 = "@mate\nAAAAACCCCC\n+\nIIIIIIIIII\n";
    let out = run_scan(&v(TABLE), v(r1), false, v(r2), false);
    assert_eq!(out_text(out), "sciPlexATAC\tplainid\tGGGGTTTT\tBC01\t0\n");
}

#[test]
fn identifier_stops_at_first_space() {
    let r1 = "@read:7 left mate\nGGGGTTTTCC\n+\nIIIIIIIIII\n";
    let r2 = "@mate:7\nAAAAACCCCC\n+\nIIIIIIIIII\n";
    let out = run_scan(&v(TABLE), v(r1), false, v(r2), false);
    assert_eq!(out_text(out), "sciPlexATAC\tread\tGGGGTTTT\tBC01\t0\n");
}

#[test]
fn wrapped_sequence_lines_are_joined() {
    let r1 = "@a:1\nGGGG\nTTTT\nCC\n+\nIIIIIIIIII\n";
    let r2 = "@a:2\nAAAAA\nCCCCC\n+\nIIIII\nIIIII\n";
    let out = run_scan(&v(TABLE), v(r1), false, v(r2), false);
    assert_eq!(out_text(out), "sciPlexATAC\ta\tGGGGTTTT\tBC01\t0\n");
}

#[test]
fn scan_stops_at_shorter_stream() {
    // read-1 file has two records, read-2 file has one: only the first pair
    // is considered, and the run still succeeds.
    let r1 = "@a:1\nGGGGTTTTCC\n+\nIIIIIIIIII\n@b:1\nGGGGTTTTCC\n+\nIIIIIIIIII\n";
    let r2 = "@a:2\nAAAAACCCCC\n+\nIIIIIIIIII\n";
    let out = run_scan(&v(TABLE), v(r1), false, v(r2), false);
    assert_eq!(out_text(out), "sciPlexATAC\ta\tGGGGTTTT\tBC01\t0\n");

    // and the other way round
    let r1 = "@a:1\nGGGGTTTTCC\n+\nIIIIIIIIII\n";
    let r2 = "@a:2\nAAAAACCCCC\n+\nIIIIIIIIII\n@b:2\nAAAAACCCCC\n+\nIIIIIIIIII\n";
    let out = run_scan(&v(TABLE), v(r1), false, v(r2), false);
    assert_eq!(out_text(out), "sciPlexATAC\ta\tGGGGTTTT\tBC01\t0\n");
}

#[test]
fn several_pairs_emit_in_order() {
    let r1 = "@a:1\nAAAATTTTCC\n+\nIIIIIIIIII\n@b:1\nCCCCGGGGTT\n+\nIIIIIIIIII\n";
    let r2 = "@a:2\nAAAAACCCCC\n+\nIIIIIIIIII\n@b:2\nAAAAACCCCC\n+\nIIIIIIIIII\n";
    let out = run_scan(&v(TABLE), v(r1), false, v(r2), false);
    assert_eq!(
        out_text(out),
        "sciPlexATAC\ta\tAAAATTTT\tBC01\t0\nsciPlexATAC\tb\tCCCCGGGG\tBC01\t0\n"
    );
}

#[test]
fn malformed_record_is_an_error() {
    let r1 = "no header marker\n";
    let r2 = "@a:2\nAAAAACCCCC\n+\nIIIIIIIIII\n";
    let out = run_scan(&v(TABLE), v(r1), false, v(r2), false);
    assert!(matches!(out, Err(ScanError::MalformedRecord)));
}

#[test]
fn quality_shorter_than_sequence_is_an_error() {
    let r1 = "@a:1\nGGGGTTTTCC\n+\nIIIII";
    let r2 = "@a:2\nAAAAACCCCC\n+\nIIIIIIIIII\n";
    let out = run_scan(&v(TABLE), v(r1), false, v(r2), false);
    assert!(matches!(out, Err(ScanError::MalformedRecord)));
}

#[test]
fn every_match_appears_in_a_long_run() {
    let mut r1 = String::new();
    let mut r2 = String::new();
    let mut expected = String::new();
    for i in 0..5000 {
        r1.push_str(&format!("@w{i}:1\nGGGGTTTTCC\n+\nIIIIIIIIII\n"));
        r2.push_str(&format!("@w{i}:2\nAAAAACCCCC\n+\nIIIIIIIIII\n"));
        expected.push_str(&format!("sciPlexATAC\tw{i}\tGGGGTTTT\tBC01\t0\n"));
    }
    let out = run_scan(&v(TABLE), v(&r1), false, v(&r2), false);
    assert_eq!(out_text(out), expected);
}

#[test]
fn empty_inputs_give_empty_output() {
    let out = run_scan(&v(TABLE), Vec::new(), false, Vec::new(), false);
    assert_eq!(out_text(out), "");
}
