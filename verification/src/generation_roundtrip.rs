//! A generation record reads back as what it was written from.

use vstd::prelude::*;
use crate::codec::sha256_digest;
use crate::constants::GENERATION_SUFFIX;
use crate::datasection::{lemma_data_section_roundtrip, DataSectionView};
use crate::entries::{
    blob_entries_bytes, directory_entries_bytes, file_entries_bytes, lemma_blob_entries_roundtrip,
    lemma_directory_entries_roundtrip, lemma_file_entries_roundtrip,
};
use crate::errors::IoErrorKind;
use crate::generation::{
    data_section_bytes, generation_bytes, hashes_bytes, sections_bytes, generation_prefix, generation_written, hashes_at,
    parse_body, parse_data_sections, parse_generation, parse_tables, signature_block,
    string_section_bytes, GenerationInputView, GenerationView, PendingView, GenError,
    MAX_SIGNATURE_SIZE,
};
use crate::layout::{flat, lemma_flat_fixed, lemma_flat_push};
use crate::le::{le32, le64, lemma_le_roundtrip, u32_at, u64_at};
use crate::signing::{ed25519_signature, SIGNATURE_SIZE};
use crate::strsection::lemma_string_section_roundtrip;
use crate::validate::{directory_tree_valid, file_refs_valid};

verus! {

/// The data section `p` stands for once read back.
pub open spec fn section_read_back(p: PendingView) -> DataSectionView {
    DataSectionView { name_stridx: p.name_stridx, compression: p.compression, data: p.raw }
}

/// What reading back the record written for `g` gives.
pub open spec fn written_view(g: GenerationInputView) -> GenerationView {
    let h = sha256_digest(generation_prefix(g));
    GenerationView {
        created_at: g.created_at,
        strings: g.strings,
        blobs: g.blobs,
        dirs: g.dirs,
        files: g.files,
        data_sections: g.data_sections.map_values(|p: PendingView| section_read_back(p)),
        blob_hashes: g.blob_hashes,
        previous_integrity_hash: g.previous_integrity_hash,
        integrity_hash: h,
        signature_type: if g.signing_key is Some {
            1
        } else {
            0
        },
        signature: match g.signing_key {
            Some(k) => ed25519_signature(k, h),
            None => Seq::empty(),
        },
    }
}

proof fn lemma_split(x: Seq<u8>, y: Seq<u8>)
    ensures
        (x + y).subrange(x.len() as int, (x + y).len() as int) == y,
        (x + y).subrange(0, x.len() as int) == x,
{
    assert((x + y).subrange(x.len() as int, (x + y).len() as int) =~= y);
    assert((x + y).subrange(0, x.len() as int) =~= x);
}

/// Data sections as written parse back, whatever follows them.
proof fn lemma_data_sections_roundtrip(secs: Seq<PendingView>, rest: Seq<u8>)
    requires
        forall|i: int|
            0 <= i < secs.len() ==> crate::datasection::data_section_encoding(
                secs[i].name_stridx,
                secs[i].compression,
                secs[i].raw,
                #[trigger] data_section_bytes(secs[i]),
            ),
    ensures
        parse_data_sections(
            sections_bytes(secs) + rest,
            secs.len(),
        ) == Ok::<(Seq<DataSectionView>, int), IoErrorKind>(
            (
                secs.map_values(|p: PendingView| section_read_back(p)),
                sections_bytes(secs).len() as int,
            ),
        ),
    decreases secs.len(),
{
    let f = |p: PendingView| data_section_bytes(p);
    if secs.len() > 0 {
        let pre = secs.drop_last();
        let x = secs.last();
        let fp = sections_bytes(pre);
        let tail = f(x) + rest;
        assert forall|i: int| 0 <= i < pre.len() implies crate::datasection::data_section_encoding(
            pre[i].name_stridx,
            pre[i].compression,
            pre[i].raw,
            #[trigger] data_section_bytes(pre[i]),
        ) by {
            assert(pre[i] == secs[i]);
        }
        lemma_data_sections_roundtrip(pre, tail);
        let s = sections_bytes(secs) + rest;
        assert(sections_bytes(secs) == fp + f(x));
        assert(s =~= fp + tail);
        lemma_split(fp, tail);
        assert(data_section_bytes(secs[secs.len() - 1]) == f(x));
        lemma_data_section_roundtrip(x.name_stridx, x.compression, x.raw, f(x), rest);
        assert(pre.map_values(|p: PendingView| section_read_back(p)).push(section_read_back(x))
            =~= secs.map_values(|p: PendingView| section_read_back(p)));
    } else {
        assert(secs.map_values(|p: PendingView| section_read_back(p)) =~= Seq::<DataSectionView>::empty());
    }
}

/// Hashes as written read back, whatever follows them.
proof fn lemma_hashes_roundtrip(hs: Seq<Seq<u8>>, rest: Seq<u8>)
    requires
        forall|i: int| 0 <= i < hs.len() ==> #[trigger] hs[i].len() == 32,
    ensures
        hashes_bytes(hs).len() == hs.len() * 32,
        hashes_at(hashes_bytes(hs) + rest, hs.len() as int) == hs,
{
    let f = |h: Seq<u8>| h;
    lemma_hashes_len(hs);
    lemma_flat_fixed_on(hs);
    let s = hashes_bytes(hs) + rest;
    assert forall|i: int| 0 <= i < hs.len() implies #[trigger] hashes_at(s, hs.len() as int)[i]
        == hs[i] by {
        lemma_index_bound(i, hs.len() as int);
        assert(hashes_bytes(hs).subrange(i * 32, i * 32 + 32) == hs[i]);
        assert(s.subrange(32 * i, 32 * i + 32) =~= hashes_bytes(hs).subrange(i * 32, i * 32 + 32));
    }
    assert(hashes_at(s, hs.len() as int) =~= hs);
}

proof fn lemma_index_bound(i: int, n: int)
    requires
        0 <= i < n,
    ensures
        0 <= i * 32,
        i * 32 + 32 <= n * 32,
{
    assert(i * 32 + 32 <= n * 32) by (nonlinear_arith)
        requires
            0 <= i < n,
    ;
}

proof fn lemma_hashes_len(hs: Seq<Seq<u8>>)
    requires
        forall|i: int| 0 <= i < hs.len() ==> #[trigger] hs[i].len() == 32,
    ensures
        hashes_bytes(hs).len() == hs.len() * 32,
    decreases hs.len(),
{
    if hs.len() > 0 {
        let pre = hs.drop_last();
        assert forall|i: int| 0 <= i < pre.len() implies #[trigger] pre[i].len() == 32 by {
            assert(pre[i] == hs[i]);
        }
        lemma_hashes_len(pre);
        assert(hs.last() == hs[hs.len() - 1]);
    }
}

proof fn lemma_flat_fixed_on(hs: Seq<Seq<u8>>)
    requires
        forall|i: int| 0 <= i < hs.len() ==> #[trigger] hs[i].len() == 32,
    ensures
        forall|i: int|
            0 <= i < hs.len() ==> #[trigger] hashes_bytes(hs).subrange(i * 32, i * 32 + 32)
                == hs[i],
    decreases hs.len(),
{
    let f = |h: Seq<u8>| h;
    if hs.len() > 0 {
        let pre = hs.drop_last();
        assert forall|i: int| 0 <= i < pre.len() implies #[trigger] pre[i].len() == 32 by {
            assert(pre[i] == hs[i]);
        }
        lemma_flat_fixed_on(pre);
        lemma_hashes_len(pre);
        let n = hs.len() as int;
        assert(hashes_bytes(hs) == hashes_bytes(pre) + hs.last());
        assert forall|i: int| 0 <= i < hs.len() implies #[trigger] hashes_bytes(hs).subrange(
            i * 32,
            i * 32 + 32,
        ) == hs[i] by {
            lemma_index_bound(i, n);
            if i < n - 1 {
                lemma_index_bound(i, n - 1);
                assert(hashes_bytes(hs).subrange(i * 32, i * 32 + 32) =~= hashes_bytes(pre).subrange(
                    i * 32,
                    i * 32 + 32,
                ));
            } else {
                assert(i * 32 == (n - 1) * 32);
                assert(hashes_bytes(hs).subrange(i * 32, i * 32 + 32) =~= hs.last());
            }
        }
    }
}

/// The counts, strings and tables of a written record parse back.
proof fn lemma_tables_roundtrip(g: GenerationInputView, tail: Seq<u8>)
    requires
        string_section_encoding_of(g),
        g.files.len() <= u32::MAX,
        g.dirs.len() <= u32::MAX,
        g.blobs.len() <= u32::MAX,
    ensures
        ({
            let s = le64(g.created_at) + le32(g.files.len() as u32) + le32(g.dirs.len() as u32)
                + le32(g.blobs.len() as u32) + (string_section_bytes(g.strings) + (
            blob_entries_bytes(g.blobs) + (directory_entries_bytes(g.dirs) + (
            file_entries_bytes(g.files) + tail))));
            let t = parse_tables(s);
            &&& t is Ok
            &&& t->Ok_0.created_at == g.created_at
            &&& t->Ok_0.strings == g.strings
            &&& t->Ok_0.blobs == g.blobs
            &&& t->Ok_0.dirs == g.dirs
            &&& t->Ok_0.files == g.files
            &&& t->Ok_0.end == 20 + string_section_bytes(g.strings).len() + blob_entries_bytes(
                g.blobs,
            ).len() + directory_entries_bytes(g.dirs).len() + file_entries_bytes(g.files).len()
        }),
{
    lemma_le_roundtrip();
    let a0 = le64(g.created_at);
    let a1 = le32(g.files.len() as u32);
    let a2 = le32(g.dirs.len() as u32);
    let a3 = le32(g.blobs.len() as u32);
    let sb = string_section_bytes(g.strings);
    let eb = blob_entries_bytes(g.blobs);
    let ed = directory_entries_bytes(g.dirs);
    let ef = file_entries_bytes(g.files);
    let t_ef = ef + tail;
    let t_ed = ed + t_ef;
    let t_eb = eb + t_ed;
    let t_s = sb + t_eb;
    let s = a0 + a1 + a2 + a3 + t_s;
    assert(s.subrange(0, 8) =~= a0);
    assert(a0.subrange(0, 8) =~= a0);
    assert(s.subrange(8, 12) =~= a1);
    assert(a1.subrange(0, 4) =~= a1);
    assert(s.subrange(12, 16) =~= a2);
    assert(a2.subrange(0, 4) =~= a2);
    assert(s.subrange(16, 20) =~= a3);
    assert(a3.subrange(0, 4) =~= a3);
    assert(s.subrange(20, s.len() as int) =~= t_s);
    lemma_string_section_roundtrip(g.strings, sb, t_eb);
    lemma_blob_entries_roundtrip(g.blobs, t_ed);
    lemma_directory_entries_roundtrip(g.dirs, t_ef);
    lemma_file_entries_roundtrip(g.files, tail);
    let p1: int = 20 + sb.len() as int;
    let p2: int = p1 + eb.len();
    let p3: int = p2 + ed.len();
    assert(s.subrange(p1, s.len() as int) =~= t_eb);
    assert(s.subrange(p2, s.len() as int) =~= t_ed);
    assert(s.subrange(p3, s.len() as int) =~= t_ef);
}

/// The string section of `g` encodes as written.
pub open spec fn string_section_encoding_of(g: GenerationInputView) -> bool {
    crate::strsection::string_section_encoding(g.strings, string_section_bytes(g.strings))
}

/// The data sections, hashes and previous hash of a written record parse back.
proof fn lemma_body_roundtrip(g: GenerationInputView, tail: Seq<u8>)
    requires
        generation_written(g),
        g.data_sections.len() <= u32::MAX,
        forall|i: int| 0 <= i < g.blob_hashes.len() ==> #[trigger] g.blob_hashes[i].len() == 32,
        g.previous_integrity_hash.len() == 32,
    ensures
        ({
            let d = sections_bytes(g.data_sections);
            let h = hashes_bytes(g.blob_hashes);
            let s = le32(g.data_sections.len() as u32) + (d + (h + (g.previous_integrity_hash
                + tail)));
            let b = parse_body(s, g.blob_hashes.len() as int);
            &&& b is Ok
            &&& b->Ok_0.data_sections == g.data_sections.map_values(
                |p: PendingView| section_read_back(p),
            )
            &&& b->Ok_0.blob_hashes == g.blob_hashes
            &&& b->Ok_0.previous_integrity_hash == g.previous_integrity_hash
            &&& b->Ok_0.end == 4 + d.len() + h.len() + 32
        }),
{
    lemma_le_roundtrip();
    let d = sections_bytes(g.data_sections);
    let h = hashes_bytes(g.blob_hashes);
    let pv = g.previous_integrity_hash;
    let t_pv = pv + tail;
    let t_h = h + t_pv;
    let t_d = d + t_h;
    let n = le32(g.data_sections.len() as u32);
    let s = n + t_d;
    assert(s.subrange(0, 4) =~= n);
    assert(n.subrange(0, 4) =~= n);
    assert(s.subrange(4, s.len() as int) =~= t_d);
    lemma_data_sections_roundtrip(g.data_sections, t_h);
    lemma_hashes_roundtrip(g.blob_hashes, t_pv);
    let p6: int = 4 + d.len() as int;
    assert(s.subrange(p6, s.len() as int) =~= t_h);
    let p7: int = p6 + 32 * g.blob_hashes.len();
    assert(s.subrange(p7, p7 + 32) =~= pv);
}

proof fn lemma_concat_assoc(x: Seq<u8>, y: Seq<u8>, z: Seq<u8>)
    ensures
        x + y + z == x + (y + z),
{
    assert(x + y + z =~= x + (y + z));
}

/// The record's prefix followed by `u`, regrouped from the right.
proof fn lemma_reassociate(
    a: Seq<u8>,
    sb: Seq<u8>,
    eb: Seq<u8>,
    ed: Seq<u8>,
    ef: Seq<u8>,
    n: Seq<u8>,
    d: Seq<u8>,
    h: Seq<u8>,
    pv: Seq<u8>,
    u: Seq<u8>,
)
    ensures
        a + sb + eb + ed + ef + n + d + h + pv + u == a + (sb + (eb + (ed + (ef + (n + (d + (h
            + (pv + u)))))))),
{
    let x8 = pv + u;
    lemma_concat_assoc(a + sb + eb + ed + ef + n + d + h, pv, u);
    lemma_concat_assoc(a + sb + eb + ed + ef + n + d, h, x8);
    let x7 = h + x8;
    lemma_concat_assoc(a + sb + eb + ed + ef + n, d, x7);
    let x6 = d + x7;
    lemma_concat_assoc(a + sb + eb + ed + ef, n, x6);
    let x5 = n + x6;
    lemma_concat_assoc(a + sb + eb + ed, ef, x5);
    let x4 = ef + x5;
    lemma_concat_assoc(a + sb + eb, ed, x4);
    let x3 = ed + x4;
    lemma_concat_assoc(a + sb, eb, x3);
    let x2 = eb + x3;
    lemma_concat_assoc(a, sb, x2);
}

/// What reading the record written for `g` back gives: the same strings,
/// tables, sections and hashes, its integrity hash and its signature, and
/// the record's length. This holds whatever bytes follow the record, for
/// every generation whose directory and file tables pass the read-side
/// checks (a record with a dangling reference is written, but refused when
/// read).
#[verifier::rlimit(40)]
pub proof fn lemma_generation_roundtrip(g: GenerationInputView, rest: Seq<u8>)
    requires
        generation_written(g),
        g.blobs.len() == g.blob_hashes.len(),
        forall|i: int| 0 <= i < g.blob_hashes.len() ==> #[trigger] g.blob_hashes[i].len() == 32,
        g.previous_integrity_hash.len() == 32,
        g.files.len() <= u32::MAX,
        g.dirs.len() <= u32::MAX,
        g.blobs.len() <= u32::MAX,
        g.data_sections.len() <= u32::MAX,
        directory_tree_valid(g.dirs),
        file_refs_valid(g.files, g.dirs.len() as int, g.blobs.len() as int),
    ensures
        parse_generation(generation_bytes(g) + rest) matches Ok((v, len)) && v == written_view(g)
            && len == generation_bytes(g).len(),
{
    lemma_le_roundtrip();
    let a = le64(g.created_at) + le32(g.files.len() as u32) + le32(g.dirs.len() as u32) + le32(
        g.blobs.len() as u32,
    );
    let sb = string_section_bytes(g.strings);
    let eb = blob_entries_bytes(g.blobs);
    let ed = directory_entries_bytes(g.dirs);
    let ef = file_entries_bytes(g.files);
    let n = le32(g.data_sections.len() as u32);
    let d = sections_bytes(g.data_sections);
    let h = hashes_bytes(g.blob_hashes);
    let pv = g.previous_integrity_hash;
    let p = generation_prefix(g);
    let hsh = sha256_digest(p);
    let sig = signature_block(g.signing_key, hsh);
    let suf = le32(GENERATION_SUFFIX);
    let u = hsh + (sig + (suf + rest));
    let body_tail = n + (d + (h + (pv + u)));
    let s = generation_bytes(g) + rest;
    lemma_reassociate(a, sb, eb, ed, ef, n, d, h, pv, u);
    assert(s == p + u) by {
        lemma_concat_assoc(p + hsh + sig, suf, rest);
        lemma_concat_assoc(p + hsh, sig, suf + rest);
        lemma_concat_assoc(p, hsh, sig + (suf + rest));
    }
    lemma_tables_roundtrip(g, body_tail);
    let t = parse_tables(s)->Ok_0;
    assert(s.subrange(t.end, s.len() as int) =~= body_tail);
    lemma_body_roundtrip(g, u);
    let b = parse_body(body_tail, g.blobs.len() as int)->Ok_0;
    let p8 = t.end + b.end;
    assert(p8 == p.len());
    assert(s.subrange(0, p8) =~= p);
    assert(s.subrange(p8, p8 + 32) =~= hsh);
    let q = p8 + 32;
    let sig_len: int = match g.signing_key {
        Some(k) => 64,
        None => 0,
    };
    let sigb = match g.signing_key {
        Some(k) => ed25519_signature(k, hsh),
        None => Seq::<u8>::empty(),
    };
    let ty: u32 = if g.signing_key is Some {
        1
    } else {
        0
    };
    assert(sig =~= le32(ty) + le32(sig_len as u32) + sigb);
    assert(s.subrange(q, q + 4) =~= le32(ty));
    assert(le32(ty).subrange(0, 4) =~= le32(ty));
    assert(s.subrange(q + 4, q + 8) =~= le32(sig_len as u32));
    assert(le32(sig_len as u32).subrange(0, 4) =~= le32(sig_len as u32));
    assert(s.subrange(q + 8, q + 8 + sig_len) =~= sigb);
    assert(s.subrange(q + 8 + sig_len, q + 8 + sig_len + 4) =~= suf);
    assert(suf.subrange(0, 4) =~= suf);
    assert(parse_generation(s) matches Ok((v, len)) && v == written_view(g) && len
        == generation_bytes(g).len());
}

} // verus!
