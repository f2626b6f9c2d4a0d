//! Packing one generation from a scanned tree: the plan (which blobs are
//! new and where they go, the directory, file and blob tables, the string
//! table), the data sections built from the contents read for the new
//! blobs, and the record written from both. Reading and hashing the files
//! is left to the caller.

use vstd::prelude::*;
use vstd::string::StrSliceExecFns;
use crate::blobs::{covered, in_group, partitions, BlobGroup};
use crate::enums::{CompressionType, SectionKind};
use crate::errors::ArchiveError;
use crate::interner::{bytes_total, StringInterner};
use crate::packed::{BlobEntry, DirectoryEntry, FileEntry, NO_PARENT};
use crate::scan::FileCollector;
use crate::sort::{blob_before, category_of, extension_category, sort_blobs, sorted_by, SortKey};
use crate::text::{ascii_lowercase, chars_of, lower_ascii};
use crate::hash_table::MAX_TABLE_KEYS;
use crate::codec::{sha256, sha256_digest, ContentHasher};
use crate::layout::concat;
use crate::errors::{IoError, IoErrorKind};
use crate::generation::{
    generation_bytes, generation_error, generation_prefix, generation_written, write_generation,
    GenerationInput, GenerationInputView, PendingDataSection, PendingView,
};

verus! {

/// The index of the last `c` in `s`, or -1.
pub open spec fn last_index_of(s: Seq<char>, c: char) -> int
    decreases s.len(),
{
    if s.len() == 0 {
        -1
    } else if s.last() == c {
        s.len() - 1
    } else {
        last_index_of(s.drop_last(), c)
    }
}

/// The last component of an archive path.
pub open spec fn file_name_of(p: Seq<char>) -> Seq<char> {
    p.subrange(last_index_of(p, '/') + 1, p.len() as int)
}

/// A file name's extension: what follows its last `.`, unless that dot
/// starts the name (or there is none, or the name is `..`).
pub open spec fn extension_chars(name: Seq<char>) -> Seq<char> {
    let k = last_index_of(name, '.');
    if name == seq!['.', '.'] || k <= 0 {
        Seq::empty()
    } else {
        name.subrange(k + 1, name.len() as int)
    }
}

/// The lower-cased extension of the last component of archive path `p`.
pub open spec fn extension_of_path(p: Seq<char>) -> Seq<char> {
    lower_ascii(extension_chars(file_name_of(p)))
}

proof fn lemma_last_index_bounds(s: Seq<char>, c: char)
    ensures
        -1 <= last_index_of(s, c) < s.len(),
        last_index_of(s, c) >= 0 ==> s[last_index_of(s, c)] == c,
    decreases s.len(),
{
    if s.len() > 0 {
        lemma_last_index_bounds(s.drop_last(), c);
    }
}

/// Finds the last `c` in `v` at or after `from`.
fn last_index(v: &Vec<char>, from: usize, c: char) -> (r: Option<usize>)
    requires
        from <= v@.len(),
    ensures
        r == if last_index_of(v@.subrange(from as int, v@.len() as int), c) >= 0 {
            Some((from + last_index_of(v@.subrange(from as int, v@.len() as int), c)) as usize)
        } else {
            None::<usize>
        },
{
    let ghost t = v@.subrange(from as int, v@.len() as int);
    let mut i: usize = v.len();
    while i > from
        invariant
            from <= i <= v@.len(),
            t == v@.subrange(from as int, v@.len() as int),
            last_index_of(t, c) == last_index_of(v@.subrange(from as int, i as int), c),
        decreases i,
    {
        let ghost u = v@.subrange(from as int, i as int);
        assert(u.drop_last() =~= v@.subrange(from as int, i - 1));
        if v[i - 1] == c {
            return Some(i - 1);
        }
        i -= 1;
    }
    assert(v@.subrange(from as int, i as int) =~= Seq::<char>::empty());
    None
}

/// The lower-cased extension of an archive path's last component (empty
/// when there is none).
pub fn extension_of(path: &str) -> (e: String)
    ensures
        e@ == extension_of_path(path@),
{
    let v = chars_of(path);
    let n = v.len();
    proof {
        assert(v@.subrange(0, v@.len() as int) =~= v@);
        lemma_last_index_bounds(v@, '/');
    }
    let start = match last_index(&v, 0, '/') {
        Some(k) => k + 1,
        None => 0,
    };
    let ghost name = v@.subrange(start as int, v@.len() as int);
    proof {
        lemma_last_index_bounds(name, '.');
    }
    let dot = last_index(&v, start, '.');
    let is_dotdot = v.len() - start == 2 && v[start] == '.' && v[start + 1] == '.';
    proof {
        if v@.len() - start == 2 {
            assert(name[0] == v@[start as int]);
            assert(name[1] == v@[start + 1]);
            if v@[start as int] == '.' && v@[start + 1] == '.' {
                assert(name =~= seq!['.', '.']);
            }
        }
    }
    let d = match dot {
        Some(d) => d,
        None => {
            proof {
                assert(extension_chars(name) =~= Seq::<char>::empty());
                assert(lower_ascii(Seq::<char>::empty()) =~= Seq::<char>::empty());
            }
            return String::new();
        },
    };
    if is_dotdot || d <= start {
        proof {
            assert(extension_chars(name) =~= Seq::<char>::empty());
            assert(lower_ascii(Seq::<char>::empty()) =~= Seq::<char>::empty());
        }
        return String::new();
    }
    let ext = path.substring_char(d + 1, v.len());
    proof {
        assert(ext@ =~= name.subrange(last_index_of(name, '.') + 1, name.len() as int));
    }
    ascii_lowercase(ext)
}


/// A blob already stored by an earlier generation of the archive being
/// appended to.
#[derive(Clone, Copy, Debug)]
pub struct ExistingBlob {
    pub generation_idx: u32,
    pub section_idx: u32,
    pub section_blob_idx: u32,
}

/// Finds a blob of an earlier generation by its content hash.
pub trait ExistingBlobLookup {
    fn find(&self, hash: &[u8; 32]) -> Option<ExistingBlob>;
}

/// No earlier generations: every blob is new. Used for a fresh archive.
pub struct NoExistingBlobs;

impl ExistingBlobLookup for NoExistingBlobs {
    fn find(&self, hash: &[u8; 32]) -> (r: Option<ExistingBlob>)
        ensures
            r is None,
    {
        None
    }
}

/// Asks `lookup` about each group's hash, in group order: entry `k` is
/// what `find` answered for group `k`'s hash.
pub fn lookup_existing<L: ExistingBlobLookup>(groups: &[BlobGroup], lookup: &L) -> (r: Vec<
    Option<ExistingBlob>,
>)
    ensures
        r@.len() == groups@.len(),
        forall|k: int|
            0 <= k < groups@.len() ==> call_ensures(L::find, (lookup, &groups@[k].hash), #[trigger] r@[k]),
{
    let mut r: Vec<Option<ExistingBlob>> = Vec::new();
    let mut i: usize = 0;
    while i < groups.len()
        invariant
            i <= groups@.len(),
            r@.len() == i,
            forall|k: int|
                0 <= k < i ==> call_ensures(L::find, (lookup, &groups@[k].hash), #[trigger] r@[k]),
        decreases groups@.len() - i,
    {
        r.push(lookup.find(&groups[i].hash));
        i += 1;
    }
    r
}

/// What a pack wrote.
pub struct PackSummary {
    pub integrity_hash: [u8; 32],
    pub file_count: usize,
    pub dir_count: usize,
    pub blob_count: usize,
    pub new_blob_bytes: u64,
    pub bytes_written: usize,
}

/// `s` without repeats, each string at its first place.
pub open spec fn dedup(s: Seq<Seq<char>>) -> Seq<Seq<char>>
    decreases s.len(),
{
    if s.len() == 0 {
        Seq::empty()
    } else {
        let d = dedup(s.drop_last());
        if d.contains(s.last()) {
            d
        } else {
            d.push(s.last())
        }
    }
}

/// The names interned for a generation, in order: the two section names,
/// then the directories', then the files'.
pub open spec fn names_of<P>(c: &FileCollector<P>) -> Seq<Seq<char>> {
    seq!["stored"@, "compressed"@] + c.directories@.map_values(
        |d: crate::scan::DirectoryEntry<P>| d.name@,
    ) + c.files@.map_values(|f: crate::scan::FileEntry<P>| f.name@)
}

proof fn lemma_dedup_prefix(s: Seq<Seq<char>>, i: int)
    requires
        0 <= i <= s.len(),
    ensures
        dedup(s.subrange(0, i)).len() <= dedup(s).len(),
        bytes_total(dedup(s.subrange(0, i))) <= bytes_total(dedup(s)),
        dedup(s) == dedup(s.subrange(0, i)) + dedup(s).subrange(
            dedup(s.subrange(0, i)).len() as int,
            dedup(s).len() as int,
        ),
    decreases s.len() - i,
{
    if i == s.len() {
        assert(s.subrange(0, i) =~= s);
        assert(dedup(s) =~= dedup(s) + dedup(s).subrange(dedup(s).len() as int, dedup(s).len() as int));
    } else {
        lemma_dedup_prefix(s, i + 1);
        let a = s.subrange(0, i);
        let b = s.subrange(0, i + 1);
        assert(b.drop_last() =~= a);
        let da = dedup(a);
        let db = dedup(b);
        let d = dedup(s);
        if !da.contains(s[i]) {
            assert(db == da.push(s[i]));
            assert(bytes_total(db) == bytes_total(da) + vstd::utf8::encode_utf8(s[i]).len()) by {
                assert(db.drop_last() =~= da);
            }
        }
        assert(d =~= da + d.subrange(da.len() as int, d.len() as int));
        lemma_bytes_total_prefix(d, da.len() as int);
        lemma_bytes_total_prefix(d, db.len() as int);
        assert(d.subrange(0, da.len() as int) =~= da);
        assert(d.subrange(0, db.len() as int) =~= db) by {
            assert(d =~= db + d.subrange(db.len() as int, d.len() as int));
        }
    }
}

proof fn lemma_bytes_total_prefix(v: Seq<Seq<char>>, k: int)
    requires
        0 <= k <= v.len(),
    ensures
        bytes_total(v.subrange(0, k)) <= bytes_total(v),
    decreases v.len() - k,
{
    if k < v.len() {
        lemma_bytes_total_prefix(v, k + 1);
        assert(v.subrange(0, k + 1).drop_last() =~= v.subrange(0, k));
    } else {
        assert(v.subrange(0, k) =~= v);
    }
}


proof fn lemma_prefix_index(a: Seq<Seq<char>>, b: Seq<Seq<char>>, k: int)
    requires
        a.len() <= b.len(),
        a == b.subrange(0, a.len() as int),
        0 <= k < a.len(),
    ensures
        b[k] == a[k],
{
    assert(b.subrange(0, a.len() as int)[k] == b[k]);
}

/// Interns `name`, the next of `names`, keeping the interner equal to the
/// names seen so far without repeats.
fn intern_next(strings: &mut StringInterner, name: &str, Ghost(names): Ghost<Seq<Seq<char>>>, Ghost(k): Ghost<int>) -> (idx: u32)
    requires
        old(strings).wf(),
        0 <= k < names.len(),
        names[k] == name@,
        old(strings)@ == dedup(names.subrange(0, k)),
        bytes_total(dedup(names)) <= u32::MAX,
        dedup(names).len() <= MAX_TABLE_KEYS,
        dedup(names).len() <= u32::MAX,
    ensures
        final(strings).wf(),
        final(strings)@ == dedup(names.subrange(0, k + 1)),
        old(strings)@.len() <= final(strings)@.len(),
        old(strings)@ == final(strings)@.subrange(0, old(strings)@.len() as int),
        idx < final(strings)@.len(),
        final(strings)@[idx as int] == name@,
{
    proof {
        lemma_dedup_prefix(names, k + 1);
        assert(names.subrange(0, k + 1).drop_last() =~= names.subrange(0, k));
        let d = dedup(names.subrange(0, k));
        if !d.contains(name@) {
            assert(dedup(names.subrange(0, k + 1)).drop_last() =~= d);
        }
    }
    let idx = strings.intern(name);
    proof {
        assert(old(strings)@ =~= strings@.subrange(0, old(strings)@.len() as int));
    }
    idx
}

/// The string table of a generation: the two section names, then each
/// directory's and each file's name, each distinct string once, in order
/// of first use; with the index of every name.
fn intern_names<P>(c: &FileCollector<P>) -> (r: (StringInterner, u32, u32, Vec<u32>, Vec<u32>))
    requires
        bytes_total(dedup(names_of(c))) <= u32::MAX,
        dedup(names_of(c)).len() <= MAX_TABLE_KEYS,
        dedup(names_of(c)).len() <= u32::MAX,
    ensures
        r.0.wf(),
        r.0@ == dedup(names_of(c)),
        r.1 < r.0@.len() && r.0@[r.1 as int] == "stored"@,
        r.2 < r.0@.len() && r.0@[r.2 as int] == "compressed"@,
        r.3@.len() == c.directories@.len(),
        forall|i: int|
            0 <= i < c.directories@.len() ==> (#[trigger] r.3@[i]) < r.0@.len() && r.0@[r.3@[i] as int]
                == c.directories@[i].name@,
        r.4@.len() == c.files@.len(),
        forall|i: int|
            0 <= i < c.files@.len() ==> (#[trigger] r.4@[i]) < r.0@.len() && r.0@[r.4@[i] as int]
                == c.files@[i].name@,
{
    let ghost names = names_of(c);
    let ghost nd = c.directories@.len() as int;
    let mut strings = StringInterner::new();
    proof {
        assert(names.subrange(0, 0) =~= Seq::<Seq<char>>::empty());
        reveal_strlit("stored");
        reveal_strlit("compressed");
    }
    let stored = SectionKind::Stored.name();
    let compressed = SectionKind::Compressed.name();
    let stored_idx = intern_next(&mut strings, stored, Ghost(names), Ghost(0));
    let ghost s1 = strings@;
    let compressed_idx = intern_next(&mut strings, compressed, Ghost(names), Ghost(1));
    proof {
        lemma_prefix_index(s1, strings@, stored_idx as int);
    }
    let mut dir_names: Vec<u32> = Vec::new();
    let mut i: usize = 0;
    while i < c.directories.len()
        invariant
            names == names_of(c),
            nd == c.directories@.len(),
            bytes_total(dedup(names)) <= u32::MAX,
            dedup(names).len() <= MAX_TABLE_KEYS,
            dedup(names).len() <= u32::MAX,
        dedup(names).len() <= u32::MAX,
            strings.wf(),
            i <= nd,
            strings@ == dedup(names.subrange(0, 2 + i)),
            stored_idx < strings@.len() && strings@[stored_idx as int] == "stored"@,
            compressed_idx < strings@.len() && strings@[compressed_idx as int] == "compressed"@,
            dir_names@.len() == i,
            forall|j: int|
                0 <= j < i ==> (#[trigger] dir_names@[j]) < strings@.len() && strings@[dir_names@[j] as int]
                    == c.directories@[j].name@,
        decreases nd - i,
    {
        let ghost before = strings@;
        proof {
            assert(names[2 + i] == c.directories@[i as int].name@);
        }
        let idx = intern_next(&mut strings, c.directories[i].name.as_str(), Ghost(names), Ghost(2 + i));
        dir_names.push(idx);
        proof {
            assert forall|j: int| 0 <= j < i + 1 implies (#[trigger] dir_names@[j]) < strings@.len()
                && strings@[dir_names@[j] as int] == c.directories@[j].name@ by {
                if j < i {
                    lemma_prefix_index(before, strings@, dir_names@[j] as int);
                }
            }
            lemma_prefix_index(before, strings@, stored_idx as int);
            lemma_prefix_index(before, strings@, compressed_idx as int);
        }
        i += 1;
    }
    let mut file_names: Vec<u32> = Vec::new();
    let mut i: usize = 0;
    while i < c.files.len()
        invariant
            names == names_of(c),
            nd == c.directories@.len(),
            bytes_total(dedup(names)) <= u32::MAX,
            dedup(names).len() <= MAX_TABLE_KEYS,
            dedup(names).len() <= u32::MAX,
        dedup(names).len() <= u32::MAX,
            strings.wf(),
            i <= c.files@.len(),
            strings@ == dedup(names.subrange(0, 2 + nd + i)),
            stored_idx < strings@.len() && strings@[stored_idx as int] == "stored"@,
            compressed_idx < strings@.len() && strings@[compressed_idx as int] == "compressed"@,
            dir_names@.len() == nd,
            forall|j: int|
                0 <= j < nd ==> (#[trigger] dir_names@[j]) < strings@.len() && strings@[dir_names@[j] as int]
                    == c.directories@[j].name@,
            file_names@.len() == i,
            forall|j: int|
                0 <= j < i ==> (#[trigger] file_names@[j]) < strings@.len() && strings@[file_names@[j] as int]
                    == c.files@[j].name@,
        decreases c.files@.len() - i,
    {
        let ghost before = strings@;
        proof {
            assert(names[2 + nd + i] == c.files@[i as int].name@);
        }
        let idx = intern_next(&mut strings, c.files[i].name.as_str(), Ghost(names), Ghost(2 + nd + i));
        file_names.push(idx);
        proof {
            assert forall|j: int| 0 <= j < i + 1 implies (#[trigger] file_names@[j]) < strings@.len()
                && strings@[file_names@[j] as int] == c.files@[j].name@ by {
                if j < i {
                    lemma_prefix_index(before, strings@, file_names@[j] as int);
                }
            }
            assert forall|j: int| 0 <= j < nd implies (#[trigger] dir_names@[j]) < strings@.len()
                && strings@[dir_names@[j] as int] == c.directories@[j].name@ by {
                lemma_prefix_index(before, strings@, dir_names@[j] as int);
            }
            lemma_prefix_index(before, strings@, stored_idx as int);
            lemma_prefix_index(before, strings@, compressed_idx as int);
        }
        i += 1;
    }
    proof {
        assert(names.subrange(0, 2 + nd + c.files@.len()) =~= names);
    }
    (strings, stored_idx, compressed_idx, dir_names, file_names)
}


/// For each file, the group it belongs to.
fn file_groups(groups: &[BlobGroup], n: usize) -> (r: Vec<usize>)
    requires
        partitions(groups@, n as nat),
    ensures
        r@.len() == n,
        forall|i: int| 0 <= i < n ==> (#[trigger] r@[i]) < groups@.len() && in_group(groups@, r@[i] as int, i as usize),
{
    let mut r: Vec<usize> = vec![0usize; n];
    let mut g: usize = 0;
    while g < groups.len()
        invariant
            partitions(groups@, n as nat),
            g <= groups@.len(),
            r@.len() == n,
            forall|i: usize|
                i < n && #[trigger] covered(groups@, g as int, i) ==> r@[i as int] < g
                    && in_group(groups@, r@[i as int] as int, i),
        decreases groups@.len() - g,
    {
        let members = &groups[g].indices;
        let mut k: usize = 0;
        while k < members.len()
            invariant
                partitions(groups@, n as nat),
                g < groups@.len(),
                members@ == groups@[g as int].indices@,
                k <= members@.len(),
                r@.len() == n,
                forall|j: int| 0 <= j < k ==> r@[members@[j] as int] == g,
                forall|i: usize|
                    i < n && #[trigger] covered(groups@, g as int, i) ==> r@[i as int] < g
                        && in_group(groups@, r@[i as int] as int, i) || (r@[i as int] == g && in_group(groups@, g as int, i)),
            decreases members@.len() - k,
        {
            let f = members[k];
            proof {
                assert(groups@[g as int].indices@[k as int] < n);
                assert(in_group(groups@, g as int, f)) by {
                    assert(members@[k as int] == f);
                }
            }
            r[f] = g;
            k += 1;
        }
        proof {
            assert forall|i: usize|
                i < n && #[trigger] covered(groups@, g + 1, i) implies r@[i as int]
                < g + 1 && in_group(groups@, r@[i as int] as int, i) by {
                let h = choose|h: int| 0 <= h < g + 1 && #[trigger] in_group(groups@, h, i);
                if h == g {
                    let j = choose|j: int| 0 <= j < members@.len() && members@[j] == i;
                    assert(r@[members@[j] as int] == g);
                } else {
                    assert(covered(groups@, g as int, i));
                }
            }
        }
        g += 1;
    }
    proof {
        assert forall|i: int| 0 <= i < n implies (#[trigger] r@[i]) < groups@.len() && in_group(groups@, r@[i] as int, i as usize) by {
            assert(covered(groups@, groups@.len() as int, i as usize));
            let h = choose|h: int| 0 <= h < groups@.len() && #[trigger] in_group(groups@, h, i as usize);
        }
    }
    r
}


/// The table parent of a scanned parent: its index, or `NO_PARENT`.
pub open spec fn parent_id_of(p: Option<usize>) -> u32 {
    match p {
        Some(x) => x as u32,
        None => NO_PARENT,
    }
}

/// The directory records: each scanned directory's parent, name and times.
fn plan_dirs<P>(c: &FileCollector<P>, names: &Vec<u32>) -> (dirs: Vec<DirectoryEntry>)
    requires
        names@.len() == c.directories@.len(),
    ensures
        dirs@.len() == c.directories@.len(),
        forall|i: int|
            0 <= i < dirs@.len() ==> #[trigger] dirs@[i] == (DirectoryEntry {
                parent_id: parent_id_of(c.directories@[i].parent),
                name_stridx: names@[i],
                created_at: c.directories@[i].filetimes.created as u64,
                modified_at: c.directories@[i].filetimes.modified as u64,
            }),
{
    let mut dirs: Vec<DirectoryEntry> = Vec::new();
    let mut i: usize = 0;
    while i < c.directories.len()
        invariant
            names@.len() == c.directories@.len(),
            i <= c.directories@.len(),
            dirs@.len() == i,
            forall|j: int|
                0 <= j < i ==> #[trigger] dirs@[j] == (DirectoryEntry {
                    parent_id: parent_id_of(c.directories@[j].parent),
                    name_stridx: names@[j],
                    created_at: c.directories@[j].filetimes.created as u64,
                    modified_at: c.directories@[j].filetimes.modified as u64,
                }),
        decreases c.directories@.len() - i,
    {
        let d = &c.directories[i];
        let parent_id = match d.parent {
            Some(p) => p as u32,
            None => NO_PARENT,
        };
        dirs.push(
            DirectoryEntry {
                parent_id,
                name_stridx: names[i],
                created_at: d.filetimes.created as u64,
                modified_at: d.filetimes.modified as u64,
            },
        );
        i += 1;
    }
    dirs
}

/// The file records: each scanned file's blob, directory, name and times.
/// A file without a parent directory is a `Format` error (the first one
/// decides).
fn plan_files<P>(c: &FileCollector<P>, names: &Vec<u32>, group_of: &Vec<usize>) -> (r: Result<
    Vec<FileEntry>,
    ArchiveError,
>)
    requires
        names@.len() == c.files@.len(),
        group_of@.len() == c.files@.len(),
    ensures
        r is Ok <==> forall|i: int| 0 <= i < c.files@.len() ==> (#[trigger] c.files@[i]).parent is Some,
        r matches Err(e) ==> e is Format,
        r matches Ok(files) ==> files@.len() == c.files@.len() && forall|i: int|
            0 <= i < files@.len() ==> #[trigger] files@[i] == (FileEntry {
                blob_idx: group_of@[i] as u32,
                dir_idx: c.files@[i].parent->Some_0 as u32,
                name_stridx: names@[i],
                created_at: c.files@[i].filetimes.created as u64,
                modified_at: c.files@[i].filetimes.modified as u64,
            }),
{
    let mut files: Vec<FileEntry> = Vec::new();
    let mut i: usize = 0;
    while i < c.files.len()
        invariant
            names@.len() == c.files@.len(),
            group_of@.len() == c.files@.len(),
            i <= c.files@.len(),
            files@.len() == i,
            forall|j: int| 0 <= j < i ==> (#[trigger] c.files@[j]).parent is Some,
            forall|j: int|
                0 <= j < i ==> #[trigger] files@[j] == (FileEntry {
                    blob_idx: group_of@[j] as u32,
                    dir_idx: c.files@[j].parent->Some_0 as u32,
                    name_stridx: names@[j],
                    created_at: c.files@[j].filetimes.created as u64,
                    modified_at: c.files@[j].filetimes.modified as u64,
                }),
        decreases c.files@.len() - i,
    {
        let f = &c.files[i];
        let dir_idx = match f.parent {
            Some(p) => p as u32,
            None => {
                let msg = String::from_str("no parent directory recorded for ").concat(f.archive_path.as_str());
                return Err(ArchiveError::Format(msg));
            },
        };
        files.push(
            FileEntry {
                blob_idx: group_of[i] as u32,
                dir_idx,
                name_stridx: names[i],
                created_at: f.filetimes.created as u64,
                modified_at: f.filetimes.modified as u64,
            },
        );
        i += 1;
    }
    Ok(files)
}


/// The extension a blob is ordered by: that of its first file.
pub open spec fn group_ext<P>(c: &FileCollector<P>, groups: Seq<BlobGroup>, g: int) -> Seq<char> {
    if groups[g].indices@.len() > 0 {
        extension_of_path(c.files@[groups[g].indices@[0] as int].archive_path@)
    } else {
        Seq::empty()
    }
}

/// The section a new blob goes to: the compressed one when the archive
/// compresses and the policy says this blob is worth compressing.
pub open spec fn section_for(compression: CompressionType, compress: bool) -> SectionKind {
    if compression != CompressionType::Stored && compress {
        SectionKind::Compressed
    } else {
        SectionKind::Stored
    }
}

/// Within a section, blob `a` is written before blob `b`: by the category
/// of its extension, then the lower-cased extension, then its size, then by
/// index.
pub open spec fn plan_before<P>(c: &FileCollector<P>, groups: Seq<BlobGroup>, a: usize, b: usize) -> bool {
    let (ea, eb) = (group_ext(c, groups, a as int), group_ext(c, groups, b as int));
    let (ca, cb) = (category_of(ea), category_of(eb));
    let (la, lb) = (lower_ascii(ea), lower_ascii(eb));
    let (sa, sb) = (groups[a as int].size, groups[b as int].size);
    ||| ca < cb
    ||| ca == cb && crate::sort::chars_lt(la, lb)
    ||| ca == cb && la == lb && sa < sb
    ||| ca == cb && la == lb && sa == sb && a < b
}

/// Blob `x` is new and goes to section `s`.
pub open spec fn new_in(
    existing: Seq<Option<ExistingBlob>>,
    compress: Seq<bool>,
    compression: CompressionType,
    s: SectionKind,
    x: int,
) -> bool {
    0 <= x < existing.len() && existing[x] is None && section_for(compression, compress[x]) == s
}

/// The sizes of the new blobs among the first `n` that go to section `s`
/// (or to any section when `s` is `None`), added up.
pub open spec fn new_bytes(
    groups: Seq<BlobGroup>,
    existing: Seq<Option<ExistingBlob>>,
    compress: Seq<bool>,
    compression: CompressionType,
    s: Option<SectionKind>,
    n: int,
) -> int
    decreases n,
{
    if n <= 0 {
        0
    } else {
        new_bytes(groups, existing, compress, compression, s, n - 1) + if existing[n - 1] is None && (
        s is None || section_for(compression, compress[n - 1]) == s->Some_0) {
            groups[n - 1].size as int
        } else {
            0
        }
    }
}

proof fn lemma_new_bytes_grows(
    groups: Seq<BlobGroup>,
    existing: Seq<Option<ExistingBlob>>,
    compress: Seq<bool>,
    compression: CompressionType,
    s: Option<SectionKind>,
    i: int,
    n: int,
)
    requires
        0 <= i <= n,
    ensures
        0 <= new_bytes(groups, existing, compress, compression, s, i) <= new_bytes(
            groups,
            existing,
            compress,
            compression,
            s,
            n,
        ),
    decreases n - i,
{
    if i < n {
        lemma_new_bytes_grows(groups, existing, compress, compression, s, i, n - 1);
    } else {
        lemma_new_bytes_nonneg(groups, existing, compress, compression, s, n);
    }
}

proof fn lemma_new_bytes_nonneg(
    groups: Seq<BlobGroup>,
    existing: Seq<Option<ExistingBlob>>,
    compress: Seq<bool>,
    compression: CompressionType,
    s: Option<SectionKind>,
    n: int,
)
    ensures
        0 <= new_bytes(groups, existing, compress, compression, s, n),
    decreases n,
{
    if n > 0 {
        lemma_new_bytes_nonneg(groups, existing, compress, compression, s, n - 1);
    }
}

proof fn lemma_section_bytes_bounded(
    groups: Seq<BlobGroup>,
    existing: Seq<Option<ExistingBlob>>,
    compress: Seq<bool>,
    compression: CompressionType,
    s: SectionKind,
    n: int,
)
    ensures
        new_bytes(groups, existing, compress, compression, Some(s), n) <= new_bytes(
            groups,
            existing,
            compress,
            compression,
            None,
            n,
        ),
    decreases n,
{
    if n > 0 {
        lemma_section_bytes_bounded(groups, existing, compress, compression, s, n - 1);
    }
}

/// How many of the first `n` blobs already exist in the archive.
pub open spec fn reused_count(existing: Seq<Option<ExistingBlob>>, n: int) -> int
    decreases n,
{
    if n <= 0 {
        0
    } else {
        reused_count(existing, n - 1) + if existing[n - 1] is Some {
            1int
        } else {
            0
        }
    }
}

/// The blob table and where new blobs go.
pub struct BlobPlan {
    pub blobs: Vec<BlobEntry>,
    pub blob_hashes: Vec<[u8; 32]>,
    /// The new blobs of the stored section, in writing order.
    pub stored_order: Vec<usize>,
    /// The new blobs of the compressed section, in writing order.
    pub compressed_order: Vec<usize>,
    pub new_blob_bytes: u64,
    pub stored_bytes: u64,
    pub compressed_bytes: u64,
    pub reused: usize,
}

/// `order` lists exactly the new blobs of section `s`, in writing order.
pub open spec fn section_order_ok<P>(
    c: &FileCollector<P>,
    groups: Seq<BlobGroup>,
    existing: Seq<Option<ExistingBlob>>,
    compress: Seq<bool>,
    compression: CompressionType,
    s: SectionKind,
    order: Seq<usize>,
) -> bool {
    &&& forall|x: usize| order.contains(x) <==> new_in(existing, compress, compression, s, x as int)
    &&& forall|i: int, j: int|
        0 <= i < j < order.len() ==> plan_before(c, groups, #[trigger] order[i], #[trigger] order[j])
}

/// The order of section `s` in `p`.
pub open spec fn order_of(p: &BlobPlan, s: SectionKind) -> Seq<usize> {
    match s {
        SectionKind::Stored => p.stored_order@,
        SectionKind::Compressed => p.compressed_order@,
    }
}


/// `entry` is the blob record planned for group `g`: where an earlier
/// generation stores it, or, for a new blob, this generation, its section and
/// its place in that section's order.
pub open spec fn blob_planned(
    entry: BlobEntry,
    g: int,
    groups: Seq<BlobGroup>,
    existing: Seq<Option<ExistingBlob>>,
    compress: Seq<bool>,
    compression: CompressionType,
    generation_idx: u32,
    order: Seq<usize>,
) -> bool {
    match existing[g] {
        Some(e) => entry == BlobEntry {
            raw_size: groups[g].size,
            generation_idx: e.generation_idx,
            section_idx: e.section_idx,
            section_blob_idx: e.section_blob_idx,
        },
        None => {
            &&& entry.raw_size == groups[g].size
            &&& entry.generation_idx == generation_idx
            &&& entry.section_idx == section_for(compression, compress[g]).spec_index()
            &&& entry.section_blob_idx < order.len()
            &&& order[entry.section_blob_idx as int] == g
        },
    }
}

/// `k` is the ordering key of group `g`.
pub open spec fn key_matches<P>(c: &FileCollector<P>, groups: Seq<BlobGroup>, k: SortKey, g: int) -> bool {
    &&& k.category == category_of(group_ext(c, groups, g))
    &&& k.ext@ == lower_ascii(group_ext(c, groups, g))
    &&& k.size == groups[g].size
}

/// Sorts one section's new blobs and records each one's position.
fn order_section<P>(
    Ghost(c): Ghost<&FileCollector<P>>,
    Ghost(groups): Ghost<Seq<BlobGroup>>,
    keys: &Vec<SortKey>,
    members: &Vec<usize>,
) -> (order: Vec<usize>)
    requires
        forall|x: int| 0 <= x < keys@.len() ==> #[trigger] key_matches(c, groups, keys@[x], x),
        forall|i: int| 0 <= i < members@.len() ==> (#[trigger] members@[i]) < keys@.len(),
        forall|i: int, j: int| 0 <= i < j < members@.len() ==> members@[i] < members@[j],
    ensures
        order@.len() == members@.len(),
        forall|x: usize| order@.contains(x) <==> members@.contains(x),
        forall|i: int, j: int|
            0 <= i < j < order@.len() ==> plan_before(c, groups, #[trigger] order@[i], #[trigger] order@[j]),
{
    proof {
        assert forall|i: int, j: int| 0 <= i < j < members@.len() implies #[trigger] members@[i]
            != #[trigger] members@[j] by {}
    }
    let order = sort_blobs(keys, members.as_slice());
    proof {
        assert forall|i: int, j: int| 0 <= i < j < order@.len() implies plan_before(
            c,
            groups,
            #[trigger] order@[i],
            #[trigger] order@[j],
        ) by {
            assert(order@.contains(order@[i]));
            assert(order@.contains(order@[j]));
            let a = choose|a: int| 0 <= a < members@.len() && members@[a] == order@[i];
            let b = choose|b: int| 0 <= b < members@.len() && members@[b] == order@[j];
            assert(key_matches(c, groups, keys@[order@[i] as int], order@[i] as int));
            assert(key_matches(c, groups, keys@[order@[j] as int], order@[j] as int));
            assert(blob_before(keys@, order@[i], order@[j]));
        }
    }
    order
}

/// Sets `pos[order[p]] = p` for every position of `order`.
fn record_positions(pos: &mut Vec<u32>, order: &Vec<usize>)
    requires
        forall|i: int| 0 <= i < order@.len() ==> (#[trigger] order@[i]) < old(pos)@.len(),
        forall|i: int, j: int| 0 <= i < j < order@.len() ==> #[trigger] order@[i] != #[trigger] order@[j],
        order@.len() <= u32::MAX,
    ensures
        final(pos)@.len() == old(pos)@.len(),
        forall|q: int| 0 <= q < order@.len() ==> final(pos)@[#[trigger] order@[q] as int] == q,
        forall|x: int| 0 <= x < old(pos)@.len() && !order@.contains(x as usize) ==> final(pos)@[x] == old(pos)@[x],
{
    let mut p: usize = 0;
    while p < order.len()
        invariant
            forall|i: int| 0 <= i < order@.len() ==> (#[trigger] order@[i]) < old(pos)@.len(),
            forall|i: int, j: int| 0 <= i < j < order@.len() ==> #[trigger] order@[i] != #[trigger] order@[j],
            order@.len() <= u32::MAX,
            p <= order@.len(),
            pos@.len() == old(pos)@.len(),
            forall|q: int| 0 <= q < p ==> pos@[#[trigger] order@[q] as int] == q,
            forall|x: int|
                0 <= x < old(pos)@.len() && !order@.subrange(0, p as int).contains(x as usize) ==> pos@[x] == old(pos)@[x],
        decreases order@.len() - p,
    {
        let x = order[p];
        let ghost before = pos@;
        pos[x] = p as u32;
        proof {
            assert forall|q: int| 0 <= q < p + 1 implies pos@[#[trigger] order@[q] as int] == q by {
                if q < p {
                    assert(order@[q] != order@[p as int]);
                }
            }
            assert forall|y: int|
                0 <= y < old(pos)@.len() && !order@.subrange(0, p + 1).contains(y as usize) implies pos@[y]
                == old(pos)@[y] by {
                assert(order@.subrange(0, p + 1)[p as int] == x);
                if order@.subrange(0, p as int).contains(y as usize) {
                    let k = choose|k: int| 0 <= k < p && order@.subrange(0, p as int)[k] == y as usize;
                    assert(order@.subrange(0, p + 1)[k] == y as usize);
                }
            }
        }
        p += 1;
    }
    proof {
        assert(order@.subrange(0, order@.len() as int) =~= order@);
    }
}


/// Decides, for each blob, whether it is new and where it goes: blobs that
/// already exist are referenced where they are; new ones are counted and
/// split between the stored and the compressed section, each section then
/// ordered by `plan_before`.
fn plan_blobs<P>(
    c: &FileCollector<P>,
    groups: &[BlobGroup],
    existing: &[Option<ExistingBlob>],
    compress: &[bool],
    compression: CompressionType,
    generation_idx: u32,
) -> (r: BlobPlan)
    requires
        existing@.len() == groups@.len(),
        compress@.len() == groups@.len(),
        groups@.len() <= u32::MAX,
        partitions(groups@, c.files@.len()),
        new_bytes(groups@, existing@, compress@, compression, None, groups@.len() as int) <= u64::MAX,
    ensures
        ({
            let n = groups@.len() as int;
            &&& r.blobs@.len() == n
            &&& r.blob_hashes@.len() == n
            &&& forall|g: int| 0 <= g < n ==> #[trigger] r.blob_hashes@[g] == groups@[g].hash
            &&& forall|g: int|
                0 <= g < n ==> blob_planned(
                    #[trigger] r.blobs@[g],
                    g,
                    groups@,
                    existing@,
                    compress@,
                    compression,
                    generation_idx,
                    order_of(&r, section_for(compression, compress@[g])),
                )
            &&& section_order_ok(c, groups@, existing@, compress@, compression, SectionKind::Stored, r.stored_order@)
            &&& section_order_ok(c, groups@, existing@, compress@, compression, SectionKind::Compressed, r.compressed_order@)
            &&& r.new_blob_bytes == new_bytes(groups@, existing@, compress@, compression, None, n)
            &&& r.stored_bytes == new_bytes(groups@, existing@, compress@, compression, Some(SectionKind::Stored), n)
            &&& r.compressed_bytes == new_bytes(groups@, existing@, compress@, compression, Some(SectionKind::Compressed), n)
            &&& r.reused == reused_count(existing@, n)
        }),
{
    let n = groups.len();
    let ghost gs = groups@;
    let ghost ex = existing@;
    let ghost cp = compress@;
    let mut keys: Vec<SortKey> = Vec::new();
    let mut stored_new: Vec<usize> = Vec::new();
    let mut compressed_new: Vec<usize> = Vec::new();
    let mut new_blob_bytes: u64 = 0;
    let mut stored_bytes: u64 = 0;
    let mut compressed_bytes: u64 = 0;
    let mut reused: usize = 0;
    let mut g: usize = 0;
    while g < n
        invariant
            n == gs.len(),
            gs == groups@,
            ex == existing@,
            cp == compress@,
            ex.len() == n,
            cp.len() == n,
            n <= u32::MAX,
            partitions(gs, c.files@.len()),
            new_bytes(gs, ex, cp, compression, None, n as int) <= u64::MAX,
            g <= n,
            keys@.len() == g,
            forall|x: int| 0 <= x < g ==> #[trigger] key_matches(c, gs, keys@[x], x),
            forall|i: int| 0 <= i < stored_new@.len() ==> (#[trigger] stored_new@[i]) < g,
            forall|i: int, j: int| 0 <= i < j < stored_new@.len() ==> stored_new@[i] < stored_new@[j],
            forall|x: usize| stored_new@.contains(x) <==> x < g && new_in(ex, cp, compression, SectionKind::Stored, x as int),
            forall|i: int| 0 <= i < compressed_new@.len() ==> (#[trigger] compressed_new@[i]) < g,
            forall|i: int, j: int| 0 <= i < j < compressed_new@.len() ==> compressed_new@[i] < compressed_new@[j],
            forall|x: usize| compressed_new@.contains(x) <==> x < g && new_in(ex, cp, compression, SectionKind::Compressed, x as int),
            new_blob_bytes == new_bytes(gs, ex, cp, compression, None, g as int),
            stored_bytes == new_bytes(gs, ex, cp, compression, Some(SectionKind::Stored), g as int),
            compressed_bytes == new_bytes(gs, ex, cp, compression, Some(SectionKind::Compressed), g as int),
            reused == reused_count(ex, g as int),
            reused <= g,
        decreases n - g,
    {
        let group = &groups[g];
        let ext = if group.indices.len() > 0 {
            let f = group.indices[0];
            proof {
                assert(gs[g as int].indices@[0] < c.files@.len());
            }
            extension_of(c.files[f].archive_path.as_str())
        } else {
            String::new()
        };
        let k = crate::sort::sort_key(ext.as_str(), group.size);
        let key = SortKey { category: k.0, ext: chars_of(k.1.as_str()), size: k.2 };
        keys.push(key);
        proof {
            lemma_new_bytes_grows(gs, ex, cp, compression, None, g + 1, n as int);
            lemma_section_bytes_bounded(gs, ex, cp, compression, SectionKind::Stored, g + 1);
            lemma_section_bytes_bounded(gs, ex, cp, compression, SectionKind::Compressed, g + 1);
            assert(key_matches(c, gs, keys@[g as int], g as int));
        }
        let ghost old_stored = stored_new@;
        let ghost old_compressed = compressed_new@;
        match existing[g] {
            Some(_) => {
                reused = reused + 1;
            },
            None => {
                new_blob_bytes = new_blob_bytes + group.size;
                if compression != CompressionType::Stored && compress[g] {
                    compressed_bytes = compressed_bytes + group.size;
                    compressed_new.push(g);
                } else {
                    stored_bytes = stored_bytes + group.size;
                    stored_new.push(g);
                }
            },
        }
        proof {
            assert forall|x: usize| stored_new@.contains(x) <==> x < g + 1 && new_in(ex, cp, compression, SectionKind::Stored, x as int) by {
                if stored_new@.len() > old_stored.len() {
                    crate::sort::lemma_push_contains(old_stored, g, x);
                }
            }
            assert forall|x: usize| compressed_new@.contains(x) <==> x < g + 1 && new_in(ex, cp, compression, SectionKind::Compressed, x as int) by {
                if compressed_new@.len() > old_compressed.len() {
                    crate::sort::lemma_push_contains(old_compressed, g, x);
                }
            }
        }
        g += 1;
    }
    let stored_order = order_section::<P>(Ghost(c), Ghost(gs), &keys, &stored_new);
    let compressed_order = order_section::<P>(Ghost(c), Ghost(gs), &keys, &compressed_new);
    let mut pos: Vec<u32> = vec![0u32; n];
    proof {
        assert forall|i: int| 0 <= i < stored_order@.len() implies (#[trigger] stored_order@[i]) < pos@.len() by {
            assert(stored_order@.contains(stored_order@[i]));
        }
        assert forall|i: int| 0 <= i < compressed_order@.len() implies (#[trigger] compressed_order@[i]) < pos@.len() by {
            assert(compressed_order@.contains(compressed_order@[i]));
        }
        assert forall|i: int, j: int| 0 <= i < j < stored_order@.len() implies #[trigger] stored_order@[i] != #[trigger] stored_order@[j] by {
            lemma_strict_distinct(c, gs, stored_order@, i, j);
        }
        assert forall|i: int, j: int| 0 <= i < j < compressed_order@.len() implies #[trigger] compressed_order@[i] != #[trigger] compressed_order@[j] by {
            lemma_strict_distinct(c, gs, compressed_order@, i, j);
        }
        lemma_increasing_len(stored_new@, n as int);
        lemma_increasing_len(compressed_new@, n as int);
    }
    record_positions(&mut pos, &stored_order);
    let ghost pos1 = pos@;
    record_positions(&mut pos, &compressed_order);
    proof {
        assert forall|q: int| 0 <= q < stored_order@.len() implies pos@[#[trigger] stored_order@[q] as int] == q by {
            let x = stored_order@[q];
            assert(stored_order@.contains(x));
            assert(new_in(ex, cp, compression, SectionKind::Stored, x as int));
            assert(!compressed_order@.contains(x));
            assert(x < pos1.len());
            assert(pos1[x as int] == q);
        }
    }
    let mut blobs: Vec<BlobEntry> = Vec::new();
    let mut blob_hashes: Vec<[u8; 32]> = Vec::new();
    let mut g: usize = 0;
    while g < n
        invariant
            n == gs.len(),
            gs == groups@,
            ex == existing@,
            cp == compress@,
            ex.len() == n,
            cp.len() == n,
            g <= n,
            pos@.len() == n,
            forall|q: int| 0 <= q < compressed_order@.len() ==> pos@[#[trigger] compressed_order@[q] as int] == q,
            forall|q: int| 0 <= q < stored_order@.len() ==> pos@[#[trigger] stored_order@[q] as int] == q,
            forall|x: usize| stored_order@.contains(x) <==> new_in(ex, cp, compression, SectionKind::Stored, x as int),
            forall|x: usize| compressed_order@.contains(x) <==> new_in(ex, cp, compression, SectionKind::Compressed, x as int),
            blobs@.len() == g,
            blob_hashes@.len() == g,
            forall|x: int| 0 <= x < g ==> #[trigger] blob_hashes@[x] == gs[x].hash,
            forall|x: int|
                0 <= x < g ==> blob_planned(
                    #[trigger] blobs@[x],
                    x,
                    gs,
                    ex,
                    cp,
                    compression,
                    generation_idx,
                    match section_for(compression, cp[x]) {
                        SectionKind::Stored => stored_order@,
                        SectionKind::Compressed => compressed_order@,
                    },
                ),
        decreases n - g,
    {
        let group = &groups[g];
        let entry = match existing[g] {
            Some(e) => BlobEntry {
                raw_size: group.size,
                generation_idx: e.generation_idx,
                section_idx: e.section_idx,
                section_blob_idx: e.section_blob_idx,
            },
            None => {
                let section = if compression != CompressionType::Stored && compress[g] {
                    SectionKind::Compressed
                } else {
                    SectionKind::Stored
                };
                proof {
                    let order = match section {
                        SectionKind::Stored => stored_order@,
                        SectionKind::Compressed => compressed_order@,
                    };
                    assert(new_in(ex, cp, compression, section, g as int));
                    assert(order.contains(g));
                    let q = choose|q: int| 0 <= q < order.len() && order[q] == g;
                    assert(pos@[order[q] as int] == q);
                }
                BlobEntry {
                    raw_size: group.size,
                    generation_idx,
                    section_idx: section.index(),
                    section_blob_idx: pos[g],
                }
            },
        };
        blobs.push(entry);
        blob_hashes.push(group.hash);
        g += 1;
    }
    BlobPlan {
        blobs,
        blob_hashes,
        stored_order,
        compressed_order,
        new_blob_bytes,
        stored_bytes,
        compressed_bytes,
        reused,
    }
}

/// Entries of a list ordered by `plan_before` are distinct.
pub proof fn lemma_strict_distinct<P>(c: &FileCollector<P>, groups: Seq<BlobGroup>, order: Seq<usize>, i: int, j: int)
    requires
        0 <= i < j < order.len(),
        forall|a: int, b: int| 0 <= a < b < order.len() ==> plan_before(c, groups, #[trigger] order[a], #[trigger] order[b]),
    ensures
        order[i] != order[j],
{
    assert(plan_before(c, groups, order[i], order[j]));
    if order[i] == order[j] {
        crate::sort::lemma_chars_lt_irreflexive(lower_ascii(group_ext(c, groups, order[i] as int)));
    }
}

/// A strictly increasing list of numbers below `n` has at most `n` entries.
proof fn lemma_increasing_len(v: Seq<usize>, n: int)
    requires
        n >= 0,
        forall|i: int| 0 <= i < v.len() ==> (#[trigger] v[i]) < n,
        forall|i: int, j: int| 0 <= i < j < v.len() ==> v[i] < v[j],
    ensures
        v.len() <= n,
{
    if v.len() > 0 {
        lemma_increasing_at_least_index(v, v.len() - 1);
        assert(v[v.len() - 1] < n);
    }
}

proof fn lemma_increasing_at_least_index(v: Seq<usize>, k: int)
    requires
        0 <= k < v.len(),
        forall|i: int, j: int| 0 <= i < j < v.len() ==> v[i] < v[j],
    ensures
        v[k] >= k,
    decreases k,
{
    if k > 0 {
        lemma_increasing_at_least_index(v, k - 1);
    }
}


/// The codecs a pack can be asked for.
pub open spec fn pack_codec_supported(c: CompressionType) -> bool {
    c == CompressionType::Stored || c == CompressionType::Brotli || c == CompressionType::Zstd
}

/// `b` is the blob table planned for `groups`: one record and hash per
/// group, each record as `blob_planned` says, each section's new blobs in
/// writing order, and the byte counts and reuse count of the plan.
pub open spec fn blobs_planned<P>(
    c: &FileCollector<P>,
    groups: Seq<BlobGroup>,
    existing: Seq<Option<ExistingBlob>>,
    compress: Seq<bool>,
    compression: CompressionType,
    generation_idx: u32,
    b: BlobPlan,
) -> bool {
    let n = groups.len() as int;
    &&& b.blobs@.len() == n
    &&& b.blob_hashes@.len() == n
    &&& forall|g: int| 0 <= g < n ==> #[trigger] b.blob_hashes@[g] == groups[g].hash
    &&& forall|g: int|
        0 <= g < n ==> blob_planned(
            #[trigger] b.blobs@[g],
            g,
            groups,
            existing,
            compress,
            compression,
            generation_idx,
            order_of(&b, section_for(compression, compress[g])),
        )
    &&& section_order_ok(c, groups, existing, compress, compression, SectionKind::Stored, b.stored_order@)
    &&& section_order_ok(c, groups, existing, compress, compression, SectionKind::Compressed, b.compressed_order@)
    &&& b.new_blob_bytes == new_bytes(groups, existing, compress, compression, None, n)
    &&& b.stored_bytes == new_bytes(groups, existing, compress, compression, Some(SectionKind::Stored), n)
    &&& b.compressed_bytes == new_bytes(groups, existing, compress, compression, Some(SectionKind::Compressed), n)
    &&& b.reused == reused_count(existing, n)
}

/// Whether a pack can be asked for codec `c`: stored, Brotli or Zstd.
pub fn supports_codec(c: CompressionType) -> (r: bool)
    ensures
        r == pack_codec_supported(c),
{
    c == CompressionType::Stored || c == CompressionType::Brotli || c == CompressionType::Zstd
}

/// Everything a generation is written from, apart from the data itself.
pub struct PackPlan {
    pub strings: StringInterner,
    pub stored_name: u32,
    pub compressed_name: u32,
    pub dirs: Vec<DirectoryEntry>,
    pub files: Vec<FileEntry>,
    pub blobs: BlobPlan,
}

/// Plans a generation from a scan, its blobs (`groups`, which split the
/// scanned files between them), what the archive already holds of each
/// blob (`existing`) and whether the compression policy would compress it
/// (`compress`). Errors: a codec other than stored, Brotli or Zstd
/// (`UnsupportedCompression`), then a scanned file without a parent
/// directory (`Format`).
pub fn plan_generation<P>(
    c: &FileCollector<P>,
    groups: &[BlobGroup],
    existing: &[Option<ExistingBlob>],
    compress: &[bool],
    compression: CompressionType,
    generation_idx: u32,
) -> (r: Result<PackPlan, ArchiveError>)
    requires
        c.wf(),
        partitions(groups@, c.files@.len()),
        existing@.len() == groups@.len(),
        compress@.len() == groups@.len(),
        groups@.len() <= u32::MAX,
        c.directories@.len() <= u32::MAX,
        new_bytes(groups@, existing@, compress@, compression, None, groups@.len() as int) <= u64::MAX,
        bytes_total(dedup(names_of(c))) <= u32::MAX,
        dedup(names_of(c)).len() <= MAX_TABLE_KEYS,
        dedup(names_of(c)).len() <= u32::MAX,
    ensures
        !pack_codec_supported(compression) ==> r is Err && r->Err_0 is UnsupportedCompression
            && r->Err_0->UnsupportedCompression_0 == compression.spec_code(),
        pack_codec_supported(compression) ==> (r is Ok <==> forall|i: int|
            0 <= i < c.files@.len() ==> (#[trigger] c.files@[i]).parent is Some),
        pack_codec_supported(compression) && r is Err ==> r->Err_0 is Format,
        r matches Ok(p) ==> {
            let n = groups@.len() as int;
            &&& p.strings.wf()
            &&& p.strings@ == dedup(names_of(c))
            &&& p.stored_name < p.strings@.len() && p.strings@[p.stored_name as int] == "stored"@
            &&& p.compressed_name < p.strings@.len() && p.strings@[p.compressed_name as int] == "compressed"@
            &&& p.dirs@.len() == c.directories@.len()
            &&& forall|i: int|
                0 <= i < p.dirs@.len() ==> {
                    let d = #[trigger] p.dirs@[i];
                    let sd = c.directories@[i];
                    &&& d.parent_id == parent_id_of(sd.parent)
                    &&& d.name_stridx < p.strings@.len() && p.strings@[d.name_stridx as int] == sd.name@
                    &&& d.created_at == sd.filetimes.created as u64
                    &&& d.modified_at == sd.filetimes.modified as u64
                }
            &&& p.files@.len() == c.files@.len()
            &&& forall|i: int|
                0 <= i < p.files@.len() ==> {
                    let f = #[trigger] p.files@[i];
                    let sf = c.files@[i];
                    &&& f.blob_idx < n && in_group(groups@, f.blob_idx as int, i as usize)
                    &&& f.dir_idx == sf.parent->Some_0 as u32
                    &&& f.name_stridx < p.strings@.len() && p.strings@[f.name_stridx as int] == sf.name@
                    &&& f.created_at == sf.filetimes.created as u64
                    &&& f.modified_at == sf.filetimes.modified as u64
                }
            &&& blobs_planned(c, groups@, existing@, compress@, compression, generation_idx, p.blobs)
            &&& crate::validate::directory_tree_valid(p.dirs@)
            &&& crate::validate::file_refs_valid(p.files@, p.dirs@.len() as int, p.blobs.blobs@.len() as int)
        },
{
    if !supports_codec(compression) {
        return Err(ArchiveError::UnsupportedCompression(compression.to_u8()));
    }
    let group_of = file_groups(groups, c.files.len());
    let blobs = plan_blobs(c, groups, existing, compress, compression, generation_idx);
    let (strings, stored_name, compressed_name, dir_names, file_names) = intern_names(c);
    let dirs = plan_dirs(c, &dir_names);
    let files = plan_files(c, &file_names, &group_of)?;
    proof {
        c.lemma_wf();
        assert forall|i: int| 0 <= i < dirs@.len() implies #[trigger] crate::validate::dir_parent_ok(dirs@, i) by {
            assert(crate::scan::parent_below(c.directories@[i].parent, i));
        }
        assert forall|i: int| 0 <= i < files@.len() implies #[trigger] crate::validate::file_refs_ok(
            files@,
            i,
            dirs@.len() as int,
            blobs.blobs@.len() as int,
        ) by {
            assert(crate::scan::parent_below(c.files@[i].parent, c.directories@.len() as int));
        }
    }
    Ok(PackPlan { strings, stored_name, compressed_name, dirs, files, blobs })
}


/// Appends one new blob's content to the raw bytes of its data section,
/// after checking that it still has the size and SHA-256 it was grouped
/// with. A file that changed since it was hashed gives `InvalidData` and
/// leaves the section as it was.
pub fn append_blob_content(section: &mut Vec<u8>, content: &[u8], size: u64, hash: &[u8; 32]) -> (r:
    Result<(), IoError>)
    ensures
        content@.len() == size && sha256_digest(content@) == hash@ ==> r is Ok && final(section)@
            == old(section)@ + content@,
        !(content@.len() == size && sha256_digest(content@) == hash@) ==> r is Err
            && r->Err_0.kind == IoErrorKind::InvalidData && final(section)@ == old(section)@,
{
    if content.len() as u64 != size {
        return Err(IoError::new(IoErrorKind::InvalidData, "file changed during the backup"));
    }
    let digest = sha256(content);
    let same = crate::strsection::hash_eq(&digest, hash);
    if !same {
        return Err(IoError::new(IoErrorKind::InvalidData, "file changed during the backup"));
    }
    let mut j: usize = 0;
    let ghost start = section@;
    while j < content.len()
        invariant
            j <= content@.len(),
            section@ == start + content@.subrange(0, j as int),
        decreases content@.len() - j,
    {
        section.push(content[j]);
        proof {
            assert(content@.subrange(0, j + 1) == content@.subrange(0, j as int).push(content@[j as int]));
        }
        j += 1;
    }
    proof {
        assert(content@.subrange(0, content@.len() as int) == content@);
    }
    Ok(())
}

/// The input a planned generation is written from: the plan's strings and
/// tables, a stored section and a section with the chosen codec, named
/// after them.
pub open spec fn planned_input(
    p: PackPlan,
    stored: Seq<u8>,
    compressed: Seq<u8>,
    compression: CompressionType,
    created_at: u64,
    previous_integrity_hash: Seq<u8>,
    signing_key: Option<Seq<u8>>,
) -> GenerationInputView {
    GenerationInputView {
        created_at,
        strings: p.strings@,
        blobs: p.blobs.blobs@,
        blob_hashes: p.blobs.blob_hashes@.map_values(|h: [u8; 32]| h@),
        dirs: p.dirs@,
        files: p.files@,
        data_sections: seq![
            PendingView { name_stridx: p.stored_name, compression: CompressionType::Stored, raw: stored },
            PendingView { name_stridx: p.compressed_name, compression, raw: compressed },
        ],
        previous_integrity_hash,
        signing_key,
    }
}

/// Writes the generation that `plan` describes, with `stored` and
/// `compressed` as the raw bytes of its two data sections (the new blobs of
/// each, in the plan's order), and reports what was written. Fails, writing
/// nothing, when a section cannot be encoded.
pub fn write_planned_generation(
    writer: &mut Vec<u8>,
    plan: &PackPlan,
    stored: Vec<u8>,
    compressed: Vec<u8>,
    compression: CompressionType,
    created_at: u64,
    previous_integrity_hash: [u8; 32],
    signing_key: Option<&[u8; 32]>,
) -> (r: Result<PackSummary, ArchiveError>)
    requires
        plan.strings.wf(),
        plan.blobs.blobs@.len() == plan.blobs.blob_hashes@.len(),
        plan.files@.len() <= u32::MAX,
        plan.dirs@.len() <= u32::MAX,
        plan.blobs.blobs@.len() <= u32::MAX,
    ensures
        ({
            let g = planned_input(
                *plan,
                stored@,
                compressed@,
                compression,
                created_at,
                previous_integrity_hash@,
                match signing_key {
                    Some(k) => Some(k@),
                    None => None,
                },
            );
            match generation_error(g) {
                Some(k) => r is Err && r->Err_0 is Io && r->Err_0->Io_0.kind == k && final(writer)@
                    == old(writer)@,
                None => r is Ok && final(writer)@ == old(writer)@ + generation_bytes(g)
                    && generation_written(g) && r->Ok_0.integrity_hash@ == sha256_digest(
                    generation_prefix(g),
                ) && r->Ok_0.bytes_written == generation_bytes(g).len() && r->Ok_0.file_count
                    == plan.files@.len() && r->Ok_0.dir_count == plan.dirs@.len()
                    && r->Ok_0.blob_count == plan.blobs.blobs@.len() && r->Ok_0.new_blob_bytes
                    == plan.blobs.new_blob_bytes,
            }
        }),
{
    let strings = plan.strings.as_strs();
    let sections = vec![
        PendingDataSection {
            name_stridx: plan.stored_name,
            compression: CompressionType::Stored,
            raw: stored,
        },
        PendingDataSection { name_stridx: plan.compressed_name, compression, raw: compressed },
    ];
    let input = GenerationInput {
        created_at,
        strings: strings.as_slice(),
        blobs: plan.blobs.blobs.as_slice(),
        blob_hashes: plan.blobs.blob_hashes.as_slice(),
        dirs: plan.dirs.as_slice(),
        files: plan.files.as_slice(),
        data_sections: sections.as_slice(),
        previous_integrity_hash,
        signing_key,
    };
    proof {
        let g = planned_input(
            *plan,
            stored@,
            compressed@,
            compression,
            created_at,
            previous_integrity_hash@,
            match signing_key {
                Some(k) => Some(k@),
                None => None,
            },
        );
        assert(input@.data_sections == g.data_sections);
        assert(input@ == g);
    }
    match write_generation(writer, &input) {
        Ok(out) => Ok(PackSummary {
            integrity_hash: out.integrity_hash,
            file_count: plan.files.len(),
            dir_count: plan.dirs.len(),
            blob_count: plan.blobs.blobs.len(),
            new_blob_bytes: plan.blobs.new_blob_bytes,
            bytes_written: out.bytes_written,
        }),
        Err(e) => Err(ArchiveError::Io(e)),
    }
}

/// Content `c` still has the size and SHA-256 that `group` was formed with.
pub open spec fn content_unchanged(c: Seq<u8>, group: BlobGroup) -> bool {
    c.len() == group.size && sha256_digest(c) == group.hash@
}

/// The raw bytes of a data section: the contents read for its new blobs,
/// listed in writing order by `order`, one after another. Each content must
/// still have the size and SHA-256 its blob was grouped with; otherwise the
/// position (in `order`) of the first that does not is returned, so that the
/// caller can name the file that changed during the backup.
pub fn build_section(order: &[usize], groups: &[BlobGroup], contents: &[Vec<u8>]) -> (r: Result<
    Vec<u8>,
    usize,
>)
    requires
        contents@.len() == order@.len(),
        forall|q: int| 0 <= q < order@.len() ==> #[trigger] order@[q] < groups@.len(),
    ensures
        r is Ok <==> forall|q: int|
            0 <= q < order@.len() ==> content_unchanged(
                (#[trigger] contents@[q])@,
                groups@[order@[q] as int],
            ),
        r matches Ok(v) ==> v@ == concat(contents@.map_values(|c: Vec<u8>| c@)),
        r matches Err(q) ==> q < order@.len() && !content_unchanged(
            contents@[q as int]@,
            groups@[order@[q as int] as int],
        ) && forall|k: int|
            0 <= k < q ==> content_unchanged(
                (#[trigger] contents@[k])@,
                groups@[order@[k] as int],
            ),
{
    let ghost cs = contents@.map_values(|c: Vec<u8>| c@);
    let mut out: Vec<u8> = Vec::new();
    let mut q: usize = 0;
    while q < order.len()
        invariant
            contents@.len() == order@.len(),
            forall|q: int| 0 <= q < order@.len() ==> #[trigger] order@[q] < groups@.len(),
            cs == contents@.map_values(|c: Vec<u8>| c@),
            q <= order@.len(),
            out@ == concat(cs.take(q as int)),
            forall|k: int|
                0 <= k < q ==> content_unchanged(
                    (#[trigger] contents@[k])@,
                    groups@[order@[k] as int],
                ),
        decreases order@.len() - q,
    {
        let group = &groups[order[q]];
        match append_blob_content(&mut out, &contents[q], group.size, &group.hash) {
            Ok(()) => {},
            Err(_) => {
                return Err(q);
            },
        }
        proof {
            assert(cs.take(q + 1) =~= cs.take(q as int).push(cs[q as int]));
            crate::layout::lemma_flat_push(cs.take(q as int), cs[q as int], |c: Seq<u8>| c);
        }
        q += 1;
    }
    proof {
        assert(cs.take(q as int) =~= cs);
    }
    Ok(out)
}

/// A data section assembled while its files are read piece by piece: each
/// new blob's bytes are appended as they arrive and hashed on the way, and
/// checked against the size and SHA-256 the blob was grouped with when its
/// file ends.
pub struct SectionStream {
    out: Vec<u8>,
    hasher: ContentHasher,
    item_len: u64,
}

impl SectionStream {
    /// The section's bytes so far, the current file's included.
    pub closed spec fn bytes(&self) -> Seq<u8> {
        self.out@
    }

    /// The bytes read so far from the current file.
    pub closed spec fn current(&self) -> Seq<u8> {
        self.hasher.consumed()
    }

    pub closed spec fn wf(&self) -> bool {
        &&& self.item_len == self.hasher.consumed().len()
        &&& self.hasher.consumed().len() <= self.out@.len()
        &&& self.out@.subrange(self.out@.len() - self.hasher.consumed().len(), self.out@.len() as int)
            == self.hasher.consumed()
    }

    pub fn new() -> (s: SectionStream)
        ensures
            s.wf(),
            s.bytes() == Seq::<u8>::empty(),
            s.current() == Seq::<u8>::empty(),
    {
        let s = SectionStream { out: Vec::new(), hasher: ContentHasher::new(), item_len: 0 };
        assert(s.out@.subrange(0, 0) =~= Seq::<u8>::empty());
        s
    }

    /// Appends the next piece of the current file, unless the file would
    /// then be longer than the `size` its blob was grouped with: the file
    /// changed, and nothing is appended.
    pub fn feed(&mut self, chunk: &[u8], size: u64) -> (ok: bool)
        requires
            old(self).wf(),
        ensures
            final(self).wf(),
            ok == (old(self).current().len() + chunk@.len() <= size),
            ok ==> final(self).bytes() == old(self).bytes() + chunk@ && final(self).current()
                == old(self).current() + chunk@,
            !ok ==> final(self).bytes() == old(self).bytes() && final(self).current() == old(
                self,
            ).current(),
    {
        if chunk.len() as u64 > size || self.item_len > size - chunk.len() as u64 {
            return false;
        }
        let ghost before = self.out@;
        self.hasher.update(chunk);
        self.item_len = self.item_len + chunk.len() as u64;
        crate::le::write_all(&mut self.out, chunk);
        proof {
            let c = self.hasher.consumed();
            let n = self.out@.len();
            assert(self.out@ == before + chunk@);
            assert(self.out@.subrange(n - c.len(), n as int) =~= c);
        }
        true
    }

    /// Ends the current file: whether it still has the size and SHA-256
    /// `group` was formed with. The next file starts empty either way.
    pub fn finish_item(&mut self, group: &BlobGroup) -> (same: bool)
        requires
            old(self).wf(),
        ensures
            final(self).wf(),
            same == content_unchanged(old(self).current(), *group),
            final(self).bytes() == old(self).bytes(),
            final(self).current() == Seq::<u8>::empty(),
    {
        let len = self.item_len;
        let mut hasher = ContentHasher::new();
        std::mem::swap(&mut hasher, &mut self.hasher);
        self.item_len = 0;
        let digest = hasher.finalize();
        let same_hash = crate::strsection::hash_eq(&digest, &group.hash);
        proof {
            let n = self.out@.len();
            assert(self.out@.subrange(n as int, n as int) =~= Seq::<u8>::empty());
        }
        len == group.size && same_hash
    }

    /// The section's bytes.
    pub fn into_bytes(self) -> (v: Vec<u8>)
        ensures
            v@ == self.bytes(),
    {
        self.out
    }
}

} // verus!
