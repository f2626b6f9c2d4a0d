//! What a front end shows after each operation: a pack summary with the
//! integrity hash in hex, and the outcome of verifying an archive.

use vstd::prelude::*;
use vstd::string::StrSliceExecFns;
use crate::archive::{parse_archive, read_archive, ArchiveView};
use crate::generation::GenError;
use crate::pack::PackSummary;
use crate::verify::{blob_check, hashes_parallel, verify_blob_hashes};

verus! {

/// The lower-case hexadecimal digit for `n` (below 16).
pub open spec fn hex_digit(n: u8) -> char {
    if n < 10 {
        (48 + n) as char
    } else {
        (87 + n) as char
    }
}

/// `bytes` in lower-case hexadecimal, two digits per byte.
pub open spec fn hex_of(bytes: Seq<u8>) -> Seq<char>
    decreases bytes.len(),
{
    if bytes.len() == 0 {
        Seq::empty()
    } else {
        hex_of(bytes.drop_last()) + seq![hex_digit(bytes.last() / 16), hex_digit(bytes.last() % 16)]
    }
}

/// `bytes` in lower-case hexadecimal, two digits per byte.
pub fn to_hex(bytes: &[u8]) -> (s: String)
    ensures
        s@ == hex_of(bytes@),
{
    let digits = "0123456789abcdef";
    proof {
        reveal_strlit("0123456789abcdef");
    }
    let mut out = String::new();
    let mut i: usize = 0;
    proof {
        assert(bytes@.take(0) =~= Seq::<u8>::empty());
        assert(out@ =~= Seq::<char>::empty());
    }
    while i < bytes.len()
        invariant
            i <= bytes@.len(),
            digits@ == "0123456789abcdef"@,
            digits@.len() == 16,
            forall|k: int| 0 <= k < 16 ==> #[trigger] digits@[k] == hex_digit(k as u8),
            out@ == hex_of(bytes@.take(i as int)),
        decreases bytes@.len() - i,
    {
        let b = bytes[i];
        let hi = (b / 16) as usize;
        let lo = (b % 16) as usize;
        let ghost before = out@;
        out.append(digits.substring_char(hi, hi + 1));
        out.append(digits.substring_char(lo, lo + 1));
        proof {
            assert(digits@.subrange(hi as int, hi + 1) =~= seq![hex_digit(b / 16)]);
            assert(digits@.subrange(lo as int, lo + 1) =~= seq![hex_digit(b % 16)]);
            assert(bytes@.take(i + 1).drop_last() =~= bytes@.take(i as int));
            assert(out@ =~= hex_of(bytes@.take(i + 1)));
        }
        i += 1;
    }
    proof {
        assert(bytes@.take(i as int) =~= bytes@);
    }
    out
}

/// What a pack reports: the generation written, its counts, the bytes of
/// new data and its integrity hash in hex.
pub struct PackSummaryDto {
    pub generation_idx: u32,
    pub file_count: usize,
    pub dir_count: usize,
    pub blob_count: usize,
    pub new_blob_bytes: u64,
    pub integrity_hash: String,
}

impl PackSummaryDto {
    pub fn from_summary(generation_idx: u32, summary: &PackSummary) -> (d: PackSummaryDto)
        ensures
            d.generation_idx == generation_idx,
            d.file_count == summary.file_count,
            d.dir_count == summary.dir_count,
            d.blob_count == summary.blob_count,
            d.new_blob_bytes == summary.new_blob_bytes,
            d.integrity_hash@ == hex_of(summary.integrity_hash@),
    {
        PackSummaryDto {
            generation_idx,
            file_count: summary.file_count,
            dir_count: summary.dir_count,
            blob_count: summary.blob_count,
            new_blob_bytes: summary.new_blob_bytes,
            integrity_hash: to_hex(&summary.integrity_hash),
        }
    }
}

/// The outcome of verifying an archive: how many generations it has (0
/// when it does not open), whether every check passed, and a message.
pub struct VerifyResultDto {
    pub generations: usize,
    pub ok: bool,
    pub message: String,
}

/// Opens the archive held in `data` and, when `deep`, checks every blob's
/// content hash; reports the outcome instead of failing. An archive that
/// does not open reports 0 generations and the error's message.
pub fn verify_report(data: &[u8], deep: bool) -> (r: VerifyResultDto)
    ensures
        parse_archive(data@) is Err ==> r.generations == 0 && !r.ok,
        parse_archive(data@) matches Ok(a) ==> {
            &&& r.generations == a.generations.len()
            &&& r.ok == (!deep || (hashes_parallel(a) && forall|gi: int, i: int|
                0 <= gi < a.generations.len() && 0 <= i < a.generations[gi].blobs.len()
                    ==> #[trigger] blob_check(a, gi, i) is None))
        },
        r.ok ==> r.message@ == "OK"@,
{
    let archive = match read_archive(data) {
        Ok(a) => a,
        Err(e) => {
            return VerifyResultDto { generations: 0, ok: false, message: e.to_string() };
        },
    };
    let n = archive.generations.len();
    proof {
        assert(parse_archive(data@) == Ok::<ArchiveView, GenError>(archive.view()));
        assert(archive.view().generations.len() == n);
    }
    if deep {
        let mut gi: usize = 0;
        while gi < n
            invariant
                n == archive.generations@.len(),
                archive.view().generations.len() == n,
                deep,
                parse_archive(data@) == Ok::<ArchiveView, GenError>(archive.view()),
                gi <= n,
                forall|k: int|
                    0 <= k < gi ==> #[trigger] archive.view().generations[k].blob_hashes.len()
                        == archive.view().generations[k].blobs.len(),
            decreases n - gi,
        {
            let g = &archive.generations[gi];
            proof {
                assert(archive.view().generations[gi as int] == g.view());
            }
            if g.blob_hashes.len() != g.blobs.len() {
                proof {
                    assert(archive.view().generations[gi as int].blob_hashes.len()
                        != archive.view().generations[gi as int].blobs.len());
                    assert(!hashes_parallel(archive.view()));
                }
                return VerifyResultDto {
                    generations: n,
                    ok: false,
                    message: String::from_str("blob hash table size mismatch"),
                };
            }
            gi += 1;
        }
        if let Err(e) = verify_blob_hashes(&archive) {
            return VerifyResultDto { generations: n, ok: false, message: e.to_string() };
        }
    }
    VerifyResultDto { generations: n, ok: true, message: String::from_str("OK") }
}

} // verus!
