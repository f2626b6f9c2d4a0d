//! Checks beyond those run while opening an archive: every stored blob's
//! content hash, and the generations' signatures.

use vstd::prelude::*;
use crate::archive::{blob_bytes, Archive, ArchiveView};
use crate::codec::{sha256, sha256_digest};
use crate::errors::ArchiveError;
use crate::generation::{error_matches, generation_written, GenError, GenerationInputView, GenerationView};
use crate::generation_roundtrip::written_view;
use crate::signing::{ed25519_accepts, ed25519_public_key, verify_integrity_hash};
use crate::strsection::hash_eq;

verus! {

/// What checking blob `i` of generation `gi` finds wrong, if anything. A
/// blob stored by another generation is checked there and skipped here.
pub open spec fn blob_check(a: ArchiveView, gi: int, i: int) -> Option<GenError> {
    let gen = a.generations[gi];
    let b = gen.blobs[i];
    if b.generation_idx != gi {
        None
    } else {
        match blob_bytes(a, b) {
            Err(g) => Some(g),
            Ok(bytes) => if sha256_digest(bytes) != gen.blob_hashes[i] {
                Some(GenError::HashMismatch("blob content hash"@))
            } else {
                None
            },
        }
    }
}

/// Every generation's own blobs hold the bytes their recorded hashes name:
/// each blob that generation `gi` stores reads back, and its SHA-256 is the
/// hash recorded beside it.
pub open spec fn own_blobs_match(a: ArchiveView) -> bool {
    forall|gi: int, i: int|
        0 <= gi < a.generations.len() && 0 <= i < a.generations[gi].blobs.len()
            && #[trigger] a.generations[gi].blobs[i].generation_idx == gi ==> (blob_bytes(
            a,
            a.generations[gi].blobs[i],
        ) matches Ok(b) && sha256_digest(b) == a.generations[gi].blob_hashes[i])
}

/// Checking a blob that generation `gi` stores finds nothing wrong exactly
/// when its bytes read back and hash to the recorded hash, whichever
/// generation it is; a blob stored by another generation is not checked
/// here.
pub proof fn lemma_blob_check_is_rehash(a: ArchiveView, gi: int, i: int)
    requires
        0 <= gi < a.generations.len(),
        0 <= i < a.generations[gi].blobs.len(),
    ensures
        a.generations[gi].blobs[i].generation_idx == gi ==> (blob_check(a, gi, i) is None <==> (
        blob_bytes(a, a.generations[gi].blobs[i]) matches Ok(b) && sha256_digest(b)
            == a.generations[gi].blob_hashes[i])),
        a.generations[gi].blobs[i].generation_idx != gi ==> blob_check(a, gi, i) is None,
{
}

/// A check that passes every blob means every generation's own blobs match.
proof fn lemma_all_checks_pass(a: ArchiveView)
    requires
        forall|gi: int, i: int|
            0 <= gi < a.generations.len() && 0 <= i < a.generations[gi].blobs.len()
                ==> #[trigger] blob_check(a, gi, i) is None,
    ensures
        own_blobs_match(a),
{
    assert forall|gi: int, i: int|
        0 <= gi < a.generations.len() && 0 <= i < a.generations[gi].blobs.len()
            && #[trigger] a.generations[gi].blobs[i].generation_idx == gi implies (blob_bytes(
            a,
            a.generations[gi].blobs[i],
        ) matches Ok(b) && sha256_digest(b) == a.generations[gi].blob_hashes[i]) by {
        assert(blob_check(a, gi, i) is None);
        lemma_blob_check_is_rehash(a, gi, i);
    }
}

/// `(gj, j)` comes before `(gi, i)`, generations first.
pub open spec fn earlier(gj: int, j: int, gi: int, i: int) -> bool {
    gj < gi || (gj == gi && j < i)
}

/// Each generation has one recorded hash per blob.
pub open spec fn hashes_parallel(a: ArchiveView) -> bool {
    forall|gi: int|
        0 <= gi < a.generations.len() ==> #[trigger] a.generations[gi].blob_hashes.len()
            == a.generations[gi].blobs.len()
}

/// `e` is the error of the first blob (by generation, then by index) that
/// fails its check.
pub open spec fn first_blob_failure(a: ArchiveView, e: ArchiveError) -> bool {
    exists|gi: int, i: int|
        0 <= gi < a.generations.len() && 0 <= i < a.generations[gi].blobs.len() && (
        #[trigger] blob_check(a, gi, i)) is Some && error_matches(e, blob_check(a, gi, i)->Some_0)
            && forall|gj: int, j: int|
            0 <= gj < a.generations.len() && 0 <= j < a.generations[gj].blobs.len() && earlier(
                gj,
                j,
                gi,
                i,
            ) ==> #[trigger] blob_check(a, gj, j) is None
}

/// `e` is the error for the first generation of `gens` whose signature does
/// not verify under `key`.
pub open spec fn first_signature_failure(gens: Seq<GenerationView>, key: Seq<u8>, e: ArchiveError) -> bool {
    exists|i: int|
        0 <= i < gens.len() && !#[trigger] signature_ok(gens[i], key) && signature_error(e, gens[i])
            && forall|j: int| 0 <= j < i ==> signature_ok(#[trigger] gens[j], key)
}

/// Recomputes the SHA-256 of every blob's bytes, in the generation that
/// stores them, and compares it with the hash recorded when it was written.
/// The first blob (by generation, then by index) that cannot be read or does
/// not match decides the error; a mismatch is `HashMismatch`.
pub fn verify_blob_hashes(archive: &Archive) -> (r: Result<(), ArchiveError>)
    requires
        hashes_parallel(archive.view()),
    ensures
        ({
            let a = archive.view();
            &&& r is Ok <==> forall|gi: int, i: int|
                0 <= gi < a.generations.len() && 0 <= i < a.generations[gi].blobs.len()
                    ==> #[trigger] blob_check(a, gi, i) is None
            &&& r is Ok ==> own_blobs_match(a)
            &&& r is Err ==> first_blob_failure(a, r->Err_0)
        }),
{
    let ghost a = archive.view();
    let mut gi: usize = 0;
    while gi < archive.generations.len()
        invariant
            a == archive.view(),
            hashes_parallel(a),
            gi <= a.generations.len(),
            forall|gj: int, j: int|
                0 <= gj < gi && 0 <= j < a.generations[gj].blobs.len() ==> #[trigger] blob_check(
                    a,
                    gj,
                    j,
                ) is None,
        decreases a.generations.len() - gi,
    {
        let gen = &archive.generations[gi];
        proof {
            assert(a.generations[gi as int] == gen.view());
            assert(gen.blob_hashes@.len() == gen.blobs@.len()) by {
                assert(a.generations[gi as int].blob_hashes.len() == a.generations[gi as int].blobs.len());
            }
        }
        let mut i: usize = 0;
        while i < gen.blobs.len()
            invariant
                a == archive.view(),
                hashes_parallel(a),
                gi < a.generations.len(),
                a.generations[gi as int] == gen.view(),
                gen.blob_hashes@.len() == gen.blobs@.len(),
                i <= gen.blobs@.len(),
                forall|gj: int, j: int|
                    0 <= gj < gi && 0 <= j < a.generations[gj].blobs.len() ==> #[trigger] blob_check(
                        a,
                        gj,
                        j,
                    ) is None,
                forall|j: int| 0 <= j < i ==> #[trigger] blob_check(a, gi as int, j) is None,
            decreases gen.blobs@.len() - i,
        {
            let blob = &gen.blobs[i];
            if blob.generation_idx as usize == gi {
                let bytes = match archive.read_blob(blob) {
                    Ok(b) => b,
                    Err(e) => {
                        assert(blob_check(a, gi as int, i as int) is Some);
                        return Err(e);
                    },
                };
                let actual = sha256(bytes.as_slice());
                if !hash_eq(&actual, &gen.blob_hashes[i]) {
                    assert(blob_check(a, gi as int, i as int) is Some);
                    return Err(ArchiveError::HashMismatch("blob content hash"));
                }
            }
            i += 1;
        }
        gi += 1;
    }
    proof {
        lemma_all_checks_pass(a);
    }
    Ok(())
}

/// A generation's signature holds up under the verifying key `key`: it is
/// unsigned, or it carries a 64-byte Ed25519 signature of its integrity hash
/// that verifies.
pub open spec fn signature_ok(g: GenerationView, key: Seq<u8>) -> bool {
    g.signature_type == 0 || (g.signature_type == 1 && g.signature.len() == 64 && ed25519_accepts(
        key,
        g.integrity_hash,
        g.signature,
    ))
}

/// `e` is the error reported for a generation whose signature does not hold
/// up: an Ed25519 signature that fails, or a signature type not supported.
pub open spec fn signature_error(e: ArchiveError, g: GenerationView) -> bool {
    if g.signature_type == 1 {
        e is InvalidSignature
    } else {
        e matches ArchiveError::UnsupportedSignature(t) && t == g.signature_type
    }
}

/// Verifies every signed generation's signature against the verifying key
/// encoded as `key`; unsigned generations are skipped. The first generation
/// that fails decides the error.
pub fn verify_signatures(archive: &Archive, key: &[u8; 32]) -> (r: Result<(), ArchiveError>)
    ensures
        ({
            let gens = archive.view().generations;
            &&& r is Ok <==> forall|i: int| 0 <= i < gens.len() ==> #[trigger] signature_ok(gens[i], key@)
            &&& r is Err ==> first_signature_failure(gens, key@, r->Err_0)
        }),
{
    let ghost gens = archive.view().generations;
    let mut i: usize = 0;
    while i < archive.generations.len()
        invariant
            gens == archive.view().generations,
            i <= gens.len(),
            forall|j: int| 0 <= j < i ==> #[trigger] signature_ok(gens[j], key@),
        decreases gens.len() - i,
    {
        let gen = &archive.generations[i];
        proof {
            assert(gens[i as int] == gen.view());
        }
        if gen.signature_type == 0 {
        } else if gen.signature_type == 1 {
            if !verify_integrity_hash(key, &gen.integrity_hash, gen.signature.as_slice()) {
                assert(!signature_ok(gens[i as int], key@));
                return Err(ArchiveError::InvalidSignature);
            }
        } else {
            assert(!signature_ok(gens[i as int], key@));
            return Err(ArchiveError::UnsupportedSignature(gen.signature_type));
        }
        i += 1;
    }
    Ok(())
}

/// Runs every check beyond those made while opening: per-blob content
/// hashes, then signatures if `key` is given. The first blob that fails
/// decides the error; when every blob passes, the first generation whose
/// signature does not verify does.
pub fn verify_deep(archive: &Archive, key: Option<&[u8; 32]>) -> (r: Result<(), ArchiveError>)
    requires
        hashes_parallel(archive.view()),
    ensures
        ({
            let a = archive.view();
            let blobs_ok = forall|gi: int, i: int|
                0 <= gi < a.generations.len() && 0 <= i < a.generations[gi].blobs.len()
                    ==> #[trigger] blob_check(a, gi, i) is None;
            let sigs_ok = match key {
                Some(k) => forall|i: int|
                    0 <= i < a.generations.len() ==> #[trigger] signature_ok(a.generations[i], k@),
                None => true,
            };
            &&& r is Ok <==> blobs_ok && sigs_ok
            &&& r is Ok ==> own_blobs_match(a)
            &&& r is Err ==> if blobs_ok {
                key matches Some(k) && first_signature_failure(a.generations, k@, r->Err_0)
            } else {
                first_blob_failure(a, r->Err_0)
            }
        }),
{
    verify_blob_hashes(archive)?;
    if let Some(k) = key {
        verify_signatures(archive, k)?;
    }
    Ok(())
}

/// A generation written with a signing key verifies under that key's
/// verifying key, and one written without a key passes the signature check
/// under any key.
pub proof fn lemma_written_signature_verifies(g: GenerationInputView, key: Seq<u8>)
    requires
        generation_written(g),
    ensures
        g.signing_key matches Some(k) ==> signature_ok(written_view(g), ed25519_public_key(k)),
        g.signing_key is None ==> signature_ok(written_view(g), key),
{
}

} // verus!
