//! Parsing reads only what it parses: whatever follows a record does not
//! change how the record parses. This is what lets a generation be appended
//! to any archive.

use vstd::prelude::*;
use crate::datasection::parse_data_section;
use crate::entries::{
    blob_entries_at, blob_entry_at, directory_entries_at, directory_entry_at, file_entries_at,
    file_entry_at,
};
use crate::generation::{lemma_data_sections_bounds, parse_body, parse_data_sections, parse_generation, parse_tables};
use crate::le::{u32_at, u64_at};
use crate::strsection::{parse_string_section, string_entry_at};

verus! {

/// `z` starts with `x`.
pub open spec fn extends(x: Seq<u8>, z: Seq<u8>) -> bool {
    x.len() <= z.len() && z.subrange(0, x.len() as int) == x
}

proof fn lemma_sub(x: Seq<u8>, z: Seq<u8>, a: int, b: int)
    requires
        extends(x, z),
        0 <= a <= b <= x.len(),
    ensures
        z.subrange(a, b) == x.subrange(a, b),
{
    assert forall|i: int| 0 <= i < b - a implies z.subrange(a, b)[i] == x.subrange(a, b)[i] by {
        assert(z.subrange(0, x.len() as int)[a + i] == z[a + i]);
    }
    assert(z.subrange(a, b) =~= x.subrange(a, b));
}

proof fn lemma_u32(x: Seq<u8>, z: Seq<u8>, a: int)
    requires
        extends(x, z),
        0 <= a,
        a + 4 <= x.len(),
    ensures
        u32_at(z, a) == u32_at(x, a),
{
    lemma_sub(x, z, a, a + 4);
}

proof fn lemma_u64(x: Seq<u8>, z: Seq<u8>, a: int)
    requires
        extends(x, z),
        0 <= a,
        a + 8 <= x.len(),
    ensures
        u64_at(z, a) == u64_at(x, a),
{
    lemma_sub(x, z, a, a + 8);
}

proof fn lemma_tail(x: Seq<u8>, z: Seq<u8>, a: int)
    requires
        extends(x, z),
        0 <= a <= x.len(),
    ensures
        extends(x.subrange(a, x.len() as int), z.subrange(a, z.len() as int)),
{
    lemma_sub(x, z, a, x.len() as int);
    assert(z.subrange(a, z.len() as int).subrange(0, x.len() - a) =~= z.subrange(a, x.len() as int));
}

/// A string section parses the same with anything after it.
pub proof fn lemma_string_section_prefix(x: Seq<u8>, z: Seq<u8>)
    requires
        extends(x, z),
        parse_string_section(x) is Ok,
    ensures
        parse_string_section(z) == parse_string_section(x),
        0 <= parse_string_section(x)->Ok_0.1 <= x.len(),
{
    let n = u32_at(x, 0) as int;
    let l_end = 4 + 8 * n;
    lemma_u32(x, z, 0);
    lemma_u32(x, z, l_end);
    lemma_u32(x, z, l_end + 4);
    let stored = u32_at(x, l_end + 4) as int;
    let b_end = l_end + 8 + stored;
    lemma_sub(x, z, 0, b_end);
    lemma_sub(x, z, b_end, b_end + 32);
    lemma_sub(x, z, l_end + 8, b_end);
    assert forall|i: int| 0 <= i < n implies #[trigger] string_entry_at(z, 4 + 8 * i) == string_entry_at(
        x,
        4 + 8 * i,
    ) by {
        lemma_u32(x, z, 4 + 8 * i);
        lemma_u32(x, z, 4 + 8 * i + 4);
    }
    assert(Seq::new(n as nat, |i: int| string_entry_at(z, 4 + 8 * i)) =~= Seq::new(
        n as nat,
        |i: int| string_entry_at(x, 4 + 8 * i),
    ));
}

/// A data section parses the same with anything after it.
pub proof fn lemma_data_section_prefix(x: Seq<u8>, z: Seq<u8>)
    requires
        extends(x, z),
        parse_data_section(x) is Ok,
    ensures
        parse_data_section(z) == parse_data_section(x),
        parse_data_section(x)->Ok_0.1 <= x.len(),
{
    lemma_u64(x, z, 8);
    lemma_u32(x, z, 0);
    let size = u64_at(x, 8) as int;
    lemma_sub(x, z, 0, 16 + size);
    lemma_sub(x, z, 16 + size, 16 + size + 32);
    lemma_sub(x, z, 16, 16 + size);
    assert(z[4] == x[4]) by {
        assert(z.subrange(0, x.len() as int)[4] == z[4]);
    }
}

/// `n` data sections parse the same with anything after them.
pub proof fn lemma_data_sections_prefix(x: Seq<u8>, z: Seq<u8>, n: nat)
    requires
        extends(x, z),
        parse_data_sections(x, n) is Ok,
    ensures
        parse_data_sections(z, n) == parse_data_sections(x, n),
    decreases n,
{
    if n > 0 {
        let m = (n - 1) as nat;
        assert(parse_data_sections(x, m) is Ok);
        lemma_data_sections_prefix(x, z, m);
        lemma_data_sections_bounds(x, m);
        let len = parse_data_sections(x, m)->Ok_0.1;
        lemma_tail(x, z, len);
        lemma_data_section_prefix(x.subrange(len, x.len() as int), z.subrange(len, z.len() as int));
    }
}

proof fn lemma_entries_prefix(x: Seq<u8>, z: Seq<u8>, bc: int, dc: int, fc: int)
    requires
        extends(x, z),
        bc >= 0,
        dc >= 0,
        fc >= 0,
    ensures
        20 * bc <= x.len() ==> blob_entries_at(z, bc) == blob_entries_at(x, bc),
        24 * dc <= x.len() ==> directory_entries_at(z, dc) == directory_entries_at(x, dc),
        28 * fc <= x.len() ==> file_entries_at(z, fc) == file_entries_at(x, fc),
{
    if 20 * bc <= x.len() {
        assert forall|i: int| 0 <= i < bc implies #[trigger] blob_entry_at(z, 20 * i) == blob_entry_at(
            x,
            20 * i,
        ) by {
            lemma_u64(x, z, 20 * i);
            lemma_u32(x, z, 20 * i + 8);
            lemma_u32(x, z, 20 * i + 12);
            lemma_u32(x, z, 20 * i + 16);
        }
        assert(blob_entries_at(z, bc) =~= blob_entries_at(x, bc));
    }
    if 24 * dc <= x.len() {
        assert forall|i: int| 0 <= i < dc implies #[trigger] directory_entry_at(z, 24 * i)
            == directory_entry_at(x, 24 * i) by {
            lemma_u32(x, z, 24 * i);
            lemma_u32(x, z, 24 * i + 4);
            lemma_u64(x, z, 24 * i + 8);
            lemma_u64(x, z, 24 * i + 16);
        }
        assert(directory_entries_at(z, dc) =~= directory_entries_at(x, dc));
    }
    if 28 * fc <= x.len() {
        assert forall|i: int| 0 <= i < fc implies #[trigger] file_entry_at(z, 28 * i) == file_entry_at(
            x,
            28 * i,
        ) by {
            lemma_u32(x, z, 28 * i);
            lemma_u32(x, z, 28 * i + 4);
            lemma_u32(x, z, 28 * i + 8);
            lemma_u64(x, z, 28 * i + 12);
            lemma_u64(x, z, 28 * i + 20);
        }
        assert(file_entries_at(z, fc) =~= file_entries_at(x, fc));
    }
}

/// The counts, strings and tables of a generation parse the same with
/// anything after them.
pub proof fn lemma_tables_prefix(x: Seq<u8>, z: Seq<u8>)
    requires
        extends(x, z),
        parse_tables(x) is Ok,
    ensures
        parse_tables(z) == parse_tables(x),
        0 <= parse_tables(x)->Ok_0.end <= x.len(),
{
    lemma_u32(x, z, 8);
    lemma_u32(x, z, 12);
    lemma_u32(x, z, 16);
    lemma_u64(x, z, 0);
    lemma_tail(x, z, 20);
    let xs = x.subrange(20, x.len() as int);
    let zs = z.subrange(20, z.len() as int);
    lemma_string_section_prefix(xs, zs);
    let fc = u32_at(x, 8) as int;
    let dc = u32_at(x, 12) as int;
    let bc = u32_at(x, 16) as int;
    let sl = parse_string_section(xs)->Ok_0.1;
    let p1 = 20 + sl;
    let p2 = p1 + 20 * bc;
    let p3 = p2 + 24 * dc;
    lemma_tail(x, z, p1);
    lemma_tail(x, z, p2);
    lemma_tail(x, z, p3);
    lemma_entries_prefix(x.subrange(p1, x.len() as int), z.subrange(p1, z.len() as int), bc, 0, 0);
    lemma_entries_prefix(x.subrange(p2, x.len() as int), z.subrange(p2, z.len() as int), 0, dc, 0);
    lemma_entries_prefix(x.subrange(p3, x.len() as int), z.subrange(p3, z.len() as int), 0, 0, fc);
}

/// The data sections, blob hashes and previous hash of a generation parse
/// the same with anything after them.
pub proof fn lemma_body_prefix(x: Seq<u8>, z: Seq<u8>, blob_count: int)
    requires
        extends(x, z),
        blob_count >= 0,
        parse_body(x, blob_count) is Ok,
    ensures
        parse_body(z, blob_count) == parse_body(x, blob_count),
        0 <= parse_body(x, blob_count)->Ok_0.end <= x.len(),
{
    lemma_u32(x, z, 0);
    let ns = u32_at(x, 0) as nat;
    lemma_tail(x, z, 4);
    let xs = x.subrange(4, x.len() as int);
    let zs = z.subrange(4, z.len() as int);
    lemma_data_sections_prefix(xs, zs, ns);
    lemma_data_sections_bounds(xs, ns);
    let sl = parse_data_sections(xs, ns)->Ok_0.1;
    let p6 = 4 + sl;
    let p7 = p6 + 32 * blob_count;
    lemma_sub(x, z, p7, p7 + 32);
    lemma_tail(x, z, p6);
    let xh = x.subrange(p6, x.len() as int);
    let zh = z.subrange(p6, z.len() as int);
    assert forall|i: int| 0 <= i < blob_count implies #[trigger] zh.subrange(32 * i, 32 * i + 32)
        == xh.subrange(32 * i, 32 * i + 32) by {
        lemma_sub(xh, zh, 32 * i, 32 * i + 32);
    }
    assert(crate::generation::hashes_at(zh, blob_count) =~= crate::generation::hashes_at(xh, blob_count));
}

/// A generation parses the same with anything after it.
#[verifier::rlimit(40)]
pub proof fn lemma_generation_prefix(x: Seq<u8>, z: Seq<u8>)
    requires
        extends(x, z),
        parse_generation(x) is Ok,
    ensures
        parse_generation(z) == parse_generation(x),
{
    lemma_tables_prefix(x, z);
    let t = parse_tables(x)->Ok_0;
    lemma_tail(x, z, t.end);
    let xb = x.subrange(t.end, x.len() as int);
    let zb = z.subrange(t.end, z.len() as int);
    lemma_body_prefix(xb, zb, t.blobs.len() as int);
    let b = parse_body(xb, t.blobs.len() as int)->Ok_0;
    let p8 = t.end + b.end;
    lemma_sub(x, z, 0, p8);
    lemma_sub(x, z, p8, p8 + 32);
    lemma_u32(x, z, p8 + 32);
    lemma_u32(x, z, p8 + 36);
    let sig_size = u32_at(x, p8 + 36) as int;
    lemma_sub(x, z, p8 + 40, p8 + 40 + sig_size);
    lemma_u32(x, z, p8 + 40 + sig_size);
}

} // verus!
