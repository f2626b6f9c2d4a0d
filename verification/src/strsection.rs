//! The string section of a generation: a lookup table of `(offset, length)`
//! pairs into a Brotli-compressed heap holding every string back to back,
//! followed by the SHA-256 of everything before it.

use vstd::prelude::*;
use vstd::utf8::*;
use vstd::string::StringSliceAdditionalSpecFns;
use crate::codec::{brotli_compress, brotli_compressed, brotli_decompress, brotli_decompressed, sha256, sha256_digest};
use crate::errors::{IoError, IoErrorKind};
use crate::layout::{flat, lemma_flat_fixed, lemma_flat_push};
use crate::le::{le32, lemma_le_roundtrip, u32_at, write_all, ByteReader, ReadLeExt, WriteLeExt};
use crate::packed::StringEntry;
use crate::text::str_from_utf8;

verus! {

broadcast use {vstd::utf8::encode_utf8_valid_utf8, vstd::utf8::encode_utf8_decode_utf8};

/// All strings' UTF-8 bytes, back to back.
pub open spec fn heap_of(strs: Seq<Seq<char>>) -> Seq<u8> {
    flat(strs, |s: Seq<char>| encode_utf8(s))
}

/// Where string `i` lies in the heap.
pub open spec fn string_entry_of(strs: Seq<Seq<char>>, i: int) -> StringEntry {
    StringEntry {
        offset: heap_of(strs.subrange(0, i)).len() as u32,
        length: encode_utf8(strs[i]).len() as u32,
    }
}

pub open spec fn string_entries(strs: Seq<Seq<char>>) -> Seq<StringEntry> {
    Seq::new(strs.len(), |i: int| string_entry_of(strs, i))
}

pub open spec fn string_entry_bytes(e: StringEntry) -> Seq<u8> {
    le32(e.offset) + le32(e.length)
}

pub open spec fn string_entry_at(s: Seq<u8>, at: int) -> StringEntry {
    StringEntry { offset: u32_at(s, at), length: u32_at(s, at + 4) }
}

/// The section up to its hash, given the compressed heap `c`.
pub open spec fn string_section_body(strs: Seq<Seq<char>>, c: Seq<u8>) -> Seq<u8> {
    le32(strs.len() as u32) + flat(string_entries(strs), |e: StringEntry| string_entry_bytes(e))
        + le32(heap_of(strs).len() as u32) + le32(c.len() as u32) + c
}

/// The string table fits the format's 32-bit counts and sizes.
pub open spec fn strings_encodable(strs: Seq<Seq<char>>) -> bool {
    strs.len() <= u32::MAX && heap_of(strs).len() <= u32::MAX
}

/// `bytes` is a string section that `write_string_section` writes for `strs`.
pub open spec fn string_section_encoding(strs: Seq<Seq<char>>, bytes: Seq<u8>) -> bool {
    exists|c: Seq<u8>|
        {
            &&& strings_encodable(strs)
            &&& c.len() <= u32::MAX
            &&& brotli_compressed(heap_of(strs)) == Some(c)
            &&& brotli_decompressed(c) == Some(heap_of(strs))
            &&& sha256_digest(string_section_body(strs, c)).len() == 32
            &&& #[trigger] string_section_body(strs, c) + sha256_digest(string_section_body(strs, c))
                == bytes
        }
}

/// The string an entry names in a decompressed heap.
pub open spec fn decode_string(heap: Seq<u8>, e: StringEntry) -> Result<Seq<char>, IoErrorKind> {
    let end = e.offset + e.length;
    if end > usize::MAX {
        Err(IoErrorKind::InvalidData)
    } else if end > heap.len() {
        Err(IoErrorKind::UnexpectedEof)
    } else if !valid_utf8(heap.subrange(e.offset as int, end)) {
        Err(IoErrorKind::InvalidData)
    } else {
        Ok(decode_utf8(heap.subrange(e.offset as int, end)))
    }
}

/// The strings the entries name, or the error of the first that fails.
pub open spec fn decode_strings(heap: Seq<u8>, es: Seq<StringEntry>) -> Result<
    Seq<Seq<char>>,
    IoErrorKind,
>
    decreases es.len(),
{
    if es.len() == 0 {
        Ok(Seq::empty())
    } else {
        match decode_strings(heap, es.drop_last()) {
            Err(k) => Err(k),
            Ok(p) => match decode_string(heap, es.last()) {
                Err(k) => Err(k),
                Ok(x) => Ok(p.push(x)),
            },
        }
    }
}

/// Parsing a string section from the front of `s`: the strings and the
/// number of bytes the section takes, or the kind of error.
pub open spec fn parse_string_section(s: Seq<u8>) -> Result<(Seq<Seq<char>>, int), IoErrorKind> {
    if s.len() < 4 {
        Err(IoErrorKind::UnexpectedEof)
    } else {
        let n = u32_at(s, 0) as int;
        let l_end = 4 + 8 * n;
        if s.len() < l_end + 8 {
            Err(IoErrorKind::UnexpectedEof)
        } else {
            let unc = u32_at(s, l_end);
            let stored = u32_at(s, l_end + 4) as int;
            let b_end = l_end + 8 + stored;
            if s.len() < b_end + 32 {
                Err(IoErrorKind::UnexpectedEof)
            } else if sha256_digest(s.subrange(0, b_end)) != s.subrange(b_end, b_end + 32) {
                Err(IoErrorKind::InvalidData)
            } else {
                match brotli_decompressed(s.subrange(l_end + 8, b_end)) {
                    None => Err(IoErrorKind::InvalidData),
                    Some(heap) => if heap.len() != unc {
                        Err(IoErrorKind::InvalidData)
                    } else {
                        match decode_strings(
                            heap,
                            Seq::new(n as nat, |i: int| string_entry_at(s, 4 + 8 * i)),
                        ) {
                            Err(k) => Err(k),
                            Ok(strs) => Ok((strs, b_end + 32)),
                        }
                    },
                }
            }
        }
    }
}

proof fn lemma_heap_push(strs: Seq<Seq<char>>, x: Seq<char>)
    ensures
        heap_of(strs.push(x)) == heap_of(strs) + encode_utf8(x),
{
    lemma_flat_push(strs, x, |s: Seq<char>| encode_utf8(s));
}

proof fn lemma_heap_prefix(strs: Seq<Seq<char>>, i: int)
    requires
        0 <= i <= strs.len(),
    ensures
        heap_of(strs.subrange(0, i)).len() <= heap_of(strs).len(),
        heap_of(strs) .subrange(0, heap_of(strs.subrange(0, i)).len() as int) == heap_of(strs.subrange(0, i)),
    decreases strs.len() - i,
{
    if i < strs.len() {
        lemma_heap_prefix(strs, i + 1);
        let a = strs.subrange(0, i);
        let b = strs.subrange(0, i + 1);
        assert(b =~= a.push(strs[i]));
        lemma_heap_push(a, strs[i]);
        assert(heap_of(strs).subrange(0, heap_of(a).len() as int) =~= heap_of(b).subrange(
            0,
            heap_of(a).len() as int,
        ));
    } else {
        assert(strs.subrange(0, i) =~= strs);
    }
}

/// The entries of `strs` decode back to `strs` from any heap that starts
/// with `strs`' heap.
proof fn lemma_decode_strings(strs: Seq<Seq<char>>, h: Seq<u8>)
    requires
        heap_of(strs).len() <= u32::MAX,
        heap_of(strs).len() <= h.len(),
        h.subrange(0, heap_of(strs).len() as int) == heap_of(strs),
    ensures
        decode_strings(h, string_entries(strs)) == Ok::<Seq<Seq<char>>, IoErrorKind>(strs),
    decreases strs.len(),
{
    if strs.len() > 0 {
        let p = strs.drop_last();
        let x = strs.last();
        assert(strs =~= p.push(x));
        lemma_heap_push(p, x);
        assert(h.subrange(0, heap_of(p).len() as int) =~= heap_of(strs).subrange(
            0,
            heap_of(p).len() as int,
        ));
        assert(heap_of(strs).subrange(0, heap_of(p).len() as int) =~= heap_of(p));
        assert(h.subrange(0, heap_of(p).len() as int) =~= h.subrange(0, heap_of(strs).len() as int).subrange(0, heap_of(p).len() as int));
        lemma_decode_strings(p, h);
        assert(string_entries(strs).drop_last() =~= string_entries(p)) by {
            assert forall|i: int| 0 <= i < p.len() implies string_entries(strs).drop_last()[i]
                == string_entries(p)[i] by {
                assert(strs.subrange(0, i) =~= p.subrange(0, i));
            }
        }
        let e = string_entries(strs).last();
        assert(strs.subrange(0, strs.len() - 1) =~= p);
        assert(e.offset == heap_of(p).len());
        assert(e.length == encode_utf8(x).len());
        assert(h.subrange(e.offset as int, e.offset + e.length) =~= encode_utf8(x)) by {
            assert(heap_of(strs).subrange(heap_of(p).len() as int, heap_of(strs).len() as int)
                =~= encode_utf8(x));
            assert(h.subrange(e.offset as int, e.offset + e.length) =~= h.subrange(0, heap_of(strs).len() as int).subrange(e.offset as int, e.offset + e.length));
        }
        assert(valid_utf8(encode_utf8(x)));
        assert(decode_utf8(encode_utf8(x)) == x);
        assert(decode_string(h, e) == Ok::<Seq<char>, IoErrorKind>(x));
        assert(string_entries(strs).len() > 0);
        assert(decode_strings(h, string_entries(strs).drop_last()) == Ok::<Seq<Seq<char>>, IoErrorKind>(p));
    } else {
        assert(string_entries(strs) =~= Seq::<StringEntry>::empty());
        assert(strs =~= Seq::<Seq<char>>::empty());
    }
}

proof fn lemma_string_entries_roundtrip(es: Seq<StringEntry>, s: Seq<u8>, at: int)
    requires
        0 <= at,
        at + es.len() * 8 <= s.len(),
        s.subrange(at, at + es.len() * 8) == flat(es, |e: StringEntry| string_entry_bytes(e)),
    ensures
        Seq::new(es.len(), |i: int| string_entry_at(s, at + 8 * i)) == es,
{
    let f = |e: StringEntry| string_entry_bytes(e);
    lemma_le_roundtrip();
    assert forall|e: StringEntry| #[trigger] f(e).len() == 8 by {
        assert(le32(e.offset).len() == 4);
        assert(le32(e.length).len() == 4);
    }
    lemma_flat_fixed(es, f, 8);
    assert forall|i: int| 0 <= i < es.len() implies #[trigger] string_entry_at(s, at + 8 * i)
        == es[i] by {
        let e = es[i];
        assert(flat(es, f).subrange(i * 8, i * 8 + 8) == f(e));
        assert(s.subrange(at + 8 * i, at + 8 * i + 8) =~= f(e)) by {
            assert(s.subrange(at + 8 * i, at + 8 * i + 8) =~= s.subrange(at, at + es.len() * 8).subrange(i * 8, i * 8 + 8));
        }
        assert(le32(e.offset).len() == 4);
        assert(le32(e.length).len() == 4);
        assert(f(e).subrange(0, 4) =~= le32(e.offset));
        assert(f(e).subrange(4, 8) =~= le32(e.length));
        assert(s.subrange(at + 8 * i, at + 8 * i + 4) =~= f(e).subrange(0, 4));
        assert(s.subrange(at + 8 * i + 4, at + 8 * i + 8) =~= f(e).subrange(4, 8));
        assert(le32(e.offset).subrange(0, 4) =~= le32(e.offset));
        assert(le32(e.length).subrange(0, 4) =~= le32(e.length));
    }
    assert(Seq::new(es.len(), |i: int| string_entry_at(s, at + 8 * i)) =~= es);
}

/// A string section as written parses back to the same strings, whatever
/// bytes follow it.
pub proof fn lemma_string_section_roundtrip(strs: Seq<Seq<char>>, bytes: Seq<u8>, rest: Seq<u8>)
    requires
        string_section_encoding(strs, bytes),
    ensures
        parse_string_section(bytes + rest) == Ok::<(Seq<Seq<char>>, int), IoErrorKind>(
            (strs, bytes.len() as int),
        ),
{
    let c = choose|c: Seq<u8>|
        {
            &&& strings_encodable(strs)
            &&& c.len() <= u32::MAX
            &&& brotli_compressed(heap_of(strs)) == Some(c)
            &&& brotli_decompressed(c) == Some(heap_of(strs))
            &&& sha256_digest(string_section_body(strs, c)).len() == 32
            &&& #[trigger] string_section_body(strs, c) + sha256_digest(string_section_body(strs, c))
                == bytes
        };
    lemma_le_roundtrip();
    let f = |e: StringEntry| string_entry_bytes(e);
    let es = string_entries(strs);
    assert forall|e: StringEntry| #[trigger] f(e).len() == 8 by {
        assert(le32(e.offset).len() == 4);
        assert(le32(e.length).len() == 4);
    }
    lemma_flat_fixed(es, f, 8);
    let n = strs.len() as int;
    let heap = heap_of(strs);
    let body = string_section_body(strs, c);
    let s = bytes + rest;
    let l_end = 4 + 8 * n;
    let a = le32(n as u32);
    let lk = flat(es, f);
    let b1 = le32(heap.len() as u32);
    let b2 = le32(c.len() as u32);
    assert(a.len() == 4 && b1.len() == 4 && b2.len() == 4);
    assert(lk.len() == 8 * n);
    assert(body.len() == l_end + 8 + c.len());
    assert(s.subrange(0, 4) =~= a);
    assert(a.subrange(0, 4) =~= a);
    assert(u32_at(s, 0) == n);
    assert(s.subrange(l_end, l_end + 4) =~= b1);
    assert(b1.subrange(0, 4) =~= b1);
    assert(s.subrange(l_end + 4, l_end + 8) =~= b2);
    assert(b2.subrange(0, 4) =~= b2);
    let b_end = l_end + 8 + c.len();
    assert(s.subrange(0, b_end) =~= body);
    assert(s.subrange(b_end, b_end + 32) =~= sha256_digest(body));
    assert(s.subrange(l_end + 8, b_end) =~= c);
    assert(s.subrange(4, 4 + (es.len() as int) * 8) =~= lk);
    lemma_string_entries_roundtrip(es, s, 4);
    assert(heap.subrange(0, heap.len() as int) =~= heap);
    lemma_decode_strings(strs, heap);
}

/// Writes a string section for `strings`. Fails with `InvalidInput` when
/// the count or the heap does not fit 32 bits, or when the compressed heap
/// does not, and with `Other` when the compressor fails. On failure nothing
/// is written.
pub fn write_string_section(writer: &mut Vec<u8>, strings: &[&str]) -> (r: Result<(), IoError>)
    ensures
        ({
            let strs = strings@.map_values(|s: &str| s@);
            &&& !strings_encodable(strs) ==> r is Err && r->Err_0.kind == IoErrorKind::InvalidInput
            &&& strings_encodable(strs) && brotli_compressed(heap_of(strs)) is None ==> r is Err
                && r->Err_0.kind == IoErrorKind::Other
            &&& strings_encodable(strs) && brotli_compressed(heap_of(strs)) is Some
                && brotli_compressed(heap_of(strs))->Some_0.len() > u32::MAX ==> r is Err
                && r->Err_0.kind == IoErrorKind::InvalidInput
            &&& r is Ok <==> (strings_encodable(strs) && brotli_compressed(heap_of(strs)) is Some
                && brotli_compressed(heap_of(strs))->Some_0.len() <= u32::MAX)
            &&& r is Ok ==> final(writer)@.len() >= old(writer)@.len() && string_section_encoding(
                strs,
                final(writer)@.subrange(old(writer)@.len() as int, final(writer)@.len() as int),
            ) && final(writer)@.subrange(0, old(writer)@.len() as int) == old(writer)@
            &&& r is Err ==> final(writer)@ == old(writer)@
        }),
{
    let ghost strs = strings@.map_values(|s: &str| s@);
    if strings.len() > 0xFFFF_FFFFusize {
        return Err(IoError::new(IoErrorKind::InvalidInput, "too many strings"));
    }
    let count = strings.len() as u32;
    let mut heap: Vec<u8> = Vec::new();
    let mut lookup: Vec<u8> = Vec::new();
    let mut i: usize = 0;
    while i < strings.len()
        invariant
            i <= strings@.len(),
            strs == strings@.map_values(|s: &str| s@),
            strs.len() == strings@.len(),
            strings@.len() <= u32::MAX,
            heap@ == heap_of(strs.subrange(0, i as int)),
            heap@.len() <= u32::MAX,
            lookup@ == flat(
                string_entries(strs).subrange(0, i as int),
                |e: StringEntry| string_entry_bytes(e),
            ),
        decreases strings@.len() - i,
    {
        let s = strings[i];
        let bytes = s.as_bytes();
        proof {
            lemma_heap_push(strs.subrange(0, i as int), strs[i as int]);
            assert(strs.subrange(0, i + 1) =~= strs.subrange(0, i as int).push(strs[i as int]));
            assert(bytes@ == encode_utf8(strs[i as int]));
        }
        if bytes.len() > 0xFFFF_FFFFusize || heap.len() > 0xFFFF_FFFFusize - bytes.len() {
            proof {
                lemma_heap_prefix(strs, i + 1);
            }
            return Err(IoError::new(IoErrorKind::InvalidInput, "string heap too large"));
        }
        let offset = heap.len() as u32;
        let length = bytes.len() as u32;
        proof {
            lemma_flat_push(
                string_entries(strs).subrange(0, i as int),
                string_entries(strs)[i as int],
                |e: StringEntry| string_entry_bytes(e),
            );
            assert(string_entries(strs).subrange(0, i + 1) =~= string_entries(strs).subrange(
                0,
                i as int,
            ).push(string_entries(strs)[i as int]));
            assert(string_entries(strs)[i as int] == (StringEntry { offset, length }));
        }
        lookup.write_u32_le(offset);
        lookup.write_u32_le(length);
        write_all(&mut heap, bytes);
        i += 1;
    }
    proof {
        assert(strs.subrange(0, strs.len() as int) =~= strs);
        assert(string_entries(strs).subrange(0, strs.len() as int) =~= string_entries(strs));
    }
    let compressed = match brotli_compress(heap.as_slice()) {
        Some(c) => c,
        None => {
            return Err(IoError::new(IoErrorKind::Other, "compression failed"));
        },
    };
    if compressed.len() > 0xFFFF_FFFFusize {
        return Err(IoError::new(IoErrorKind::InvalidInput, "compressed string heap too large"));
    }
    let stored_size = compressed.len() as u32;
    let uncompressed_size = heap.len() as u32;
    let mut body: Vec<u8> = Vec::new();
    body.write_u32_le(count);
    write_all(&mut body, lookup.as_slice());
    body.write_u32_le(uncompressed_size);
    body.write_u32_le(stored_size);
    write_all(&mut body, compressed.as_slice());
    let digest = sha256(body.as_slice());
    let ghost start = writer@;
    write_all(writer, body.as_slice());
    write_all(writer, &digest);
    proof {
        let c = compressed@;
        assert(body@ =~= string_section_body(strs, c));
        let added = writer@.subrange(start.len() as int, writer@.len() as int);
        assert(added =~= string_section_body(strs, c) + sha256_digest(string_section_body(strs, c)));
        assert(string_section_encoding(strs, added));
        assert(writer@.subrange(0, start.len() as int) =~= start);
    }
    Ok(())
}

/// Once a prefix of the entries fails to decode, all of them fail the same way.
proof fn lemma_decode_strings_err(h: Seq<u8>, es: Seq<StringEntry>, j: int)
    requires
        0 <= j <= es.len(),
        decode_strings(h, es.subrange(0, j)) is Err,
    ensures
        decode_strings(h, es) == decode_strings(h, es.subrange(0, j)),
    decreases es.len() - j,
{
    if j < es.len() {
        assert(es.subrange(0, j + 1).drop_last() =~= es.subrange(0, j));
        lemma_decode_strings_err(h, es, j + 1);
    } else {
        assert(es.subrange(0, j) =~= es);
    }
}

/// Decodes `count` lookup entries from `lookup` against `heap`, in order;
/// the first entry that fails decides the error.
fn decode_heap_strings(heap: &[u8], lookup: &[u8], count: u32, Ghost(es): Ghost<Seq<StringEntry>>) -> (r: Result<Vec<String>, IoError>)
    requires
        lookup@.len() == count * 8,
        count * 8 <= usize::MAX,
        es == Seq::new(count as nat, |i: int| string_entry_at(lookup@, 8 * i)),
    ensures
        match decode_strings(heap@, es) {
            Ok(strs) => r is Ok && r->Ok_0@.map_values(|s: String| s@) == strs,
            Err(k) => r is Err && r->Err_0.kind == k,
        },
{
    let mut strings: Vec<String> = Vec::new();
    let mut i: usize = 0;
    proof {
        assert(es.subrange(0, 0) =~= Seq::<StringEntry>::empty());
        assert(strings@.map_values(|x: String| x@) =~= Seq::<Seq<char>>::empty());
    }
    while i < count as usize
        invariant
            i <= count,
            lookup@.len() == count * 8,
            count * 8 <= usize::MAX,
            es == Seq::new(count as nat, |i: int| string_entry_at(lookup@, 8 * i)),
            decode_strings(heap@, es.subrange(0, i as int)) == Ok::<Seq<Seq<char>>, IoErrorKind>(
                strings@.map_values(|x: String| x@),
            ),
        decreases count - i,
    {
        let offset = vstd::bytes::u32_from_le_bytes(&lookup[8 * i..8 * i + 4]);
        let length = vstd::bytes::u32_from_le_bytes(&lookup[8 * i + 4..8 * i + 8]);
        proof {
            assert(es[i as int] == (StringEntry { offset, length }));
            assert(es.subrange(0, i + 1).drop_last() =~= es.subrange(0, i as int));
            assert(es.subrange(0, i + 1).last() == es[i as int]);
        }
        let start_idx = offset as usize;
        let end = match start_idx.checked_add(length as usize) {
            Some(e) => e,
            None => {
                proof {
                    lemma_decode_strings_err(heap@, es, i + 1);
                }
                return Err(IoError::new(IoErrorKind::InvalidData, "string range overflow"));
            },
        };
        if end > heap.len() {
            proof {
                lemma_decode_strings_err(heap@, es, i + 1);
            }
            return Err(IoError::new(IoErrorKind::UnexpectedEof, "string data out of range"));
        }
        let piece = &heap[start_idx..end];
        let text = match str_from_utf8(piece) {
            Some(t) => t,
            None => {
                proof {
                    lemma_decode_strings_err(heap@, es, i + 1);
                }
                return Err(IoError::new(IoErrorKind::InvalidData, "invalid UTF-8 in string heap"));
            },
        };
        let owned = text.to_owned();
        let ghost prev = strings@.map_values(|x: String| x@);
        strings.push(owned);
        proof {
            assert(strings@.map_values(|x: String| x@) =~= prev.push(owned@));
        }
        i += 1;
    }
    proof {
        assert(es.subrange(0, count as int) =~= es);
    }
    Ok(strings)
}

/// Compares two 32-byte hashes.
pub fn hash_eq(a: &[u8], b: &[u8]) -> (r: bool)
    ensures
        r == (a@ == b@),
{
    crate::hash_table::bytes_eq(a, b)
}

/// Reads a string section, checking its hash. Errors: `UnexpectedEof` when
/// the input ends early or an entry points past the heap; `InvalidData` on a
/// hash mismatch, a bad Brotli stream, a heap of the wrong size or a string
/// that is not UTF-8.
pub fn read_string_section(reader: &mut ByteReader) -> (r: Result<Vec<String>, IoError>)
    requires
        old(reader).wf(),
    ensures
        final(reader).wf(),
        final(reader).data() == old(reader).data(),
        match parse_string_section(old(reader).rest()) {
            Ok((strs, len)) => r is Ok && r->Ok_0@.map_values(|s: String| s@) == strs
                && final(reader).rest() == old(reader).rest().subrange(len, old(reader).rest().len() as int),
            Err(k) => r is Err && r->Err_0.kind == k,
        },
{
    let ghost s = old(reader).rest();
    let ghost data = old(reader).data();
    let start = reader.position();
    let count = reader.read_u32_le()?;
    let ghost n = count as int;
    let ghost l_end = 4 + 8 * n;
    proof {
        assert(u32_at(s, 0) == count);
        assert(reader.pos() == start + 4);
    }
    let lookup_len: u64 = (count as u64) * 8;
    if lookup_len > reader.remaining() as u64 {
        return Err(IoError::new(IoErrorKind::UnexpectedEof, "failed to fill whole buffer"));
    }
    let lookup = reader.read_bytes(lookup_len as usize)?;
    proof {
        assert(reader.pos() == start + l_end);
        assert(lookup@ =~= s.subrange(4, l_end));
    }
    let ghost r1 = reader.rest();
    proof {
        assert(r1 =~= s.subrange(l_end, s.len() as int));
    }
    let uncompressed_size = reader.read_u32_le()?;
    proof {
        assert(reader.rest() =~= s.subrange(l_end + 4, s.len() as int));
        assert(s.subrange(l_end, l_end + 4) =~= r1.subrange(0, 4));
        assert(u32_at(s, l_end) == uncompressed_size);
    }
    let ghost r2 = reader.rest();
    let stored_size = reader.read_u32_le()?;
    let ghost b_end = l_end + 8 + stored_size;
    proof {
        assert(reader.rest() =~= s.subrange(l_end + 8, s.len() as int));
        assert(s.subrange(l_end + 4, l_end + 8) =~= r2.subrange(0, 4));
        assert(u32_at(s, l_end + 4) == stored_size);
        assert(reader.pos() == start + l_end + 8);
    }
    let chunk = reader.read_bytes(stored_size as usize)?;
    proof {
        assert(reader.pos() == start + b_end);
        assert(chunk@ =~= s.subrange(l_end + 8, b_end));
        assert(reader.rest() =~= s.subrange(b_end, s.len() as int));
    }
    let body = reader.since(start);
    proof {
        assert(reader.data() == data);
        assert(s == data.subrange(start as int, data.len() as int));
        assert(body@ == data.subrange(start as int, start + b_end));
        assert(body@ =~= s.subrange(0, b_end));
    }
    let expected_hash = reader.read_bytes(32)?;
    proof {
        assert(s.len() >= b_end + 32);
        assert(expected_hash@ =~= s.subrange(b_end, b_end + 32));
        assert(reader.rest() =~= s.subrange(b_end + 32, s.len() as int));
    }
    let actual_hash = sha256(body);
    if !hash_eq(&actual_hash, expected_hash) {
        return Err(IoError::new(IoErrorKind::InvalidData, "StringSection checksum mismatch"));
    }
    let heap = match brotli_decompress(chunk) {
        Some(h) => h,
        None => {
            return Err(IoError::new(IoErrorKind::InvalidData, "invalid Brotli stream"));
        },
    };
    if heap.len() != uncompressed_size as usize {
        return Err(IoError::new(IoErrorKind::InvalidData, "string heap size mismatch"));
    }
    let ghost es = Seq::new(count as nat, |i: int| string_entry_at(lookup@, 8 * i));
    proof {
        assert(lookup@ =~= s.subrange(4, 4 + 8 * n));
        assert(es =~= Seq::new(count as nat, |i: int| string_entry_at(s, 4 + 8 * i))) by {
            assert forall|i: int| 0 <= i < n implies es[i] == string_entry_at(s, 4 + 8 * i) by {
                assert(lookup@.subrange(8 * i, 8 * i + 4) =~= s.subrange(4 + 8 * i, 4 + 8 * i + 4));
                assert(lookup@.subrange(8 * i + 4, 8 * i + 8) =~= s.subrange(4 + 8 * i + 4, 4 + 8 * i + 8));
            }
        }
    }
    decode_heap_strings(heap.as_slice(), lookup, count, Ghost(es))
}

} // verus!
