//! Paired-end barcode read scanner: loads a barcode reference table, walks
//! two synchronized FASTQ record streams in lock-step, and emits one
//! tab-separated row for every pair whose read-2 prefix matches a barcode.

pub mod bytes;
pub mod fastq;
pub mod gzip;
pub mod scan;
pub mod table;

use vstd::prelude::*;

verus! {

/// The ways a run can fail once the input bytes are in hand. Configuration
/// and I/O failures belong to the caller that opens the files.
#[derive(Clone, Copy, Debug, PartialEq, Eq, Structural)]
pub enum ScanError {
    /// A non-empty barcode-table line held only one field.
    MalformedTableLine,
    /// A compressed read file could not be decoded.
    BadCompressedInput,
    /// A read file held bytes that do not form a valid record.
    MalformedRecord,
}

/// True when the file name carries the suffix that marks compressed input.
pub open spec fn is_gz_name(name: Seq<u8>) -> bool {
    name.len() >= 3 && name[name.len() - 3] == 46u8 && name[name.len() - 2] == 103u8
        && name[name.len() - 1] == 122u8
}

/// Decides from a file name whether the stream must be decompressed:
/// a name ending in `.gz` marks a compressed file.
pub fn name_is_gz(name: &Vec<u8>) -> (r: bool)
    ensures
        r == is_gz_name(name@),
{
    let n = name.len();
    n >= 3 && name[n - 3] == 46u8 && name[n - 2] == 103u8 && name[n - 1] == 122u8
}

} // verus!
