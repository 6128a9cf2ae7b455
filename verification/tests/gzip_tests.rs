use flate2::write::GzEncoder;
use flate2::Compression;
use sciatac_find_hash_reads::name_is_gz;
use sciatac_find_hash_reads::scan::run_scan;
use sciatac_find_hash_reads::ScanError;
use std::io::Write;

fn v(s: &str) -> Vec<u8> {
    s.as_bytes().to_vec()
}

fn gz_member(data: &[u8]) -> Vec<u8> {
    let mut enc = GzEncoder::new(Vec::new(), Compression::default());
    enc.write_all(data).unwrap();
    enc.finish().unwrap()
}

const TABLE: &str = "BC01\tAAAAACCCCC\n";

fn rec1(well: &str, seq: &str) -> String {
    let qual: String = "I".repeat(seq.len());
    format!("@{well}:1\n{seq}\n+\n{qual}\n")
}

fn rec2(well: &str, seq: &str) -> String {
    let qual: String = "I".repeat(seq.len());
    format!("@{well}:2\n{seq}\n+\n{qual}\n")
}

#[test]
fn gzipped_input_matches_plain_input() {
    let r1 = rec1("a", "GGGGTTTTCC") + &rec1("b", "CCCCGGGGTT");
    let r2 = rec2("a", "AAAAACCCCC") + &rec2("b", "AAAAACCCCC");
    let plain = run_scan(&v(TABLE), v(&r1), false, v(&r2), false).unwrap();
    let zipped = run_scan(&v(TABLE), gz_member(r1.as_bytes()), true, gz_member(r2.as_bytes()), true)
        .unwrap();
    assert_eq!(plain, zipped);
    assert!(!plain.is_empty());
}

#[test]
fn concatenated_members_match_one_plain_file() {
    // two compressed members, each holding two records, concatenated into
    // one stream: the output equals that of a single plain file holding all
    // four records in order
    let r1_first = rec1("a", "GGGGTTTTCC") + &rec1("b", "CCCCGGGGTT");
    let r1_second = rec1("c", "TTTTCCCCGG") + &rec1("d", "AACCGGTTAA");
    let r2_first = rec2("a", "AAAAACCCCC") + &rec2("b", "TTTTTGGGGG");
    let r2_second = rec2("c", "AAAAACCCCC") + &rec2("d", "AAAAACCCCC");

    let mut r1_gz = gz_member(r1_first.as_bytes());
    r1_gz.extend_from_slice(&gz_member(r1_second.as_bytes()));
    let mut r2_gz = gz_member(r2_first.as_bytes());
    r2_gz.extend_from_slice(&gz_member(r2_second.as_bytes()));

    let r1_all = r1_first + &r1_second;
    let r2_all = r2_first + &r2_second;

    let plain = run_scan(&v(TABLE), v(&r1_all), false, v(&r2_all), false).unwrap();
    let zipped = run_scan(&v(TABLE), r1_gz, true, r2_gz, true).unwrap();
    assert_eq!(plain, zipped);
    assert_eq!(
        String::from_utf8(plain).unwrap(),
        "sciPlexATAC\ta\tGGGGTTTT\tBC01\t0\nsciPlexATAC\tc\tTTTTCCCC\tBC01\t0\nsciPlexATAC\td\tAACCGGTT\tBC01\t0\n"
    );
}

#[test]
fn bad_compressed_bytes_are_an_error() {
    let r2 = rec2("a", "AAAAACCCCC");
    let out = run_scan(&v(TABLE), v("this is not a gzip stream"), true, v(&r2), false);
    assert!(matches!(out, Err(ScanError::BadCompressedInput)));
}

#[test]
fn gz_suffix_detection() {
    assert!(name_is_gz(&v("reads_R1.fastq.gz")));
    assert!(!name_is_gz(&v("reads_R1.fastq")));
    assert!(!name_is_gz(&v("gz")));
    assert!(name_is_gz(&v(".gz")));
    assert!(!name_is_gz(&v("reads.gz.fastq")));
}
