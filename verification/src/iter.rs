//! Resolving a generation's files to their archive-relative paths and bytes.
//!
//! Paths are written with `/` between components; the root directory's
//! empty name contributes no component.

use vstd::prelude::*;
use crate::archive::{blob_bytes, Archive};
use crate::errors::ArchiveError;
use crate::generation::{error_matches, GenError, Generation, GenerationView};
use crate::packed::{BlobEntry, DirectoryEntry, FileEntry, NO_PARENT};
use crate::text::chars_of;
use crate::sort::{chars_lt, sort_blobs, SortKey};

verus! {

/// The names of the directories from `idx` up to its root, nearest first,
/// skipping empty names; `steps` directories were visited before `idx`.
pub open spec fn dir_names(dirs: Seq<DirectoryEntry>, strs: Seq<Seq<char>>, idx: u32, steps: nat) -> Result<
    Seq<Seq<char>>,
    GenError,
>
    decreases dirs.len() + 1 - steps,
{
    if steps + 1 > dirs.len() + 1 {
        Err(GenError::Format("directory parent chain cycle detected"@))
    } else if idx >= dirs.len() {
        Err(GenError::IndexOutOfBounds("DirectoryEntry.parent_id"@))
    } else {
        let d = dirs[idx as int];
        if d.name_stridx >= strs.len() {
            Err(GenError::IndexOutOfBounds("StringTable index"@))
        } else {
            let name = strs[d.name_stridx as int];
            let here = if name.len() == 0 {
                Seq::<Seq<char>>::empty()
            } else {
                seq![name]
            };
            if d.parent_id == NO_PARENT {
                Ok(here)
            } else {
                match dir_names(dirs, strs, d.parent_id, steps + 1) {
                    Ok(up) => Ok(here + up),
                    Err(e) => Err(e),
                }
            }
        }
    }
}

/// `parts` joined with `/`.
pub open spec fn join_parts(parts: Seq<Seq<char>>) -> Seq<char>
    decreases parts.len(),
{
    if parts.len() == 0 {
        Seq::empty()
    } else if parts.len() == 1 {
        parts[0]
    } else {
        join_parts(parts.drop_last()) + seq!['/'] + parts.last()
    }
}

/// `name` under the directory path `dir`.
pub open spec fn join_path(dir: Seq<char>, name: Seq<char>) -> Seq<char> {
    if dir.len() == 0 {
        name
    } else {
        dir + seq!['/'] + name
    }
}

/// The full path of directory `idx`: its ancestors' names from the root
/// down, joined with `/`.
pub open spec fn dir_path(dirs: Seq<DirectoryEntry>, strs: Seq<Seq<char>>, idx: u32) -> Result<
    Seq<char>,
    GenError,
> {
    match dir_names(dirs, strs, idx, 0) {
        Ok(names) => Ok(join_parts(names.reverse())),
        Err(e) => Err(e),
    }
}

/// A longer walk budget gives the same names whenever the shorter one
/// succeeds.
proof fn lemma_dir_names_budget(dirs: Seq<DirectoryEntry>, strs: Seq<Seq<char>>, idx: u32, k: nat)
    requires
        dir_names(dirs, strs, idx, k + 1) is Ok,
    ensures
        dir_names(dirs, strs, idx, k) == dir_names(dirs, strs, idx, k + 1),
    decreases dirs.len() + 1 - k,
{
    let d = dirs[idx as int];
    if d.parent_id != NO_PARENT {
        lemma_dir_names_budget(dirs, strs, d.parent_id, k + 1);
    }
}

/// The names a walk collects are never empty.
proof fn lemma_dir_names_nonempty(dirs: Seq<DirectoryEntry>, strs: Seq<Seq<char>>, idx: u32, k: nat)
    requires
        dir_names(dirs, strs, idx, k) is Ok,
    ensures
        forall|i: int|
            0 <= i < dir_names(dirs, strs, idx, k)->Ok_0.len() ==> #[trigger] dir_names(
                dirs,
                strs,
                idx,
                k,
            )->Ok_0[i].len() > 0,
    decreases dirs.len() + 1 - k,
{
    let d = dirs[idx as int];
    if d.parent_id != NO_PARENT {
        lemma_dir_names_nonempty(dirs, strs, d.parent_id, k + 1);
    }
}

/// Joining nonempty names gives an empty path only for no names.
proof fn lemma_join_parts_empty(parts: Seq<Seq<char>>)
    requires
        forall|i: int| 0 <= i < parts.len() ==> #[trigger] parts[i].len() > 0,
    ensures
        join_parts(parts).len() == 0 <==> parts.len() == 0,
    decreases parts.len(),
{
    if parts.len() > 1 {
        lemma_join_parts_empty(parts.drop_last());
    }
}

/// The path of a root directory is its own name (empty for an unnamed
/// root); the path of any other directory is its name under its parent's
/// path (or the parent's path itself when its name is empty). So a path runs
/// from the top-level ancestor down to the directory.
pub proof fn lemma_dir_path_extends_parent(dirs: Seq<DirectoryEntry>, strs: Seq<Seq<char>>, idx: u32)
    requires
        dir_path(dirs, strs, idx) is Ok,
    ensures
        idx < dirs.len() && dirs[idx as int].name_stridx < strs.len(),
        ({
            let d = dirs[idx as int];
            let name = strs[d.name_stridx as int];
            if d.parent_id == NO_PARENT {
                dir_path(dirs, strs, idx) == Ok::<Seq<char>, GenError>(name)
            } else {
                &&& dir_path(dirs, strs, d.parent_id) is Ok
                &&& dir_path(dirs, strs, idx) == Ok::<Seq<char>, GenError>(
                    if name.len() == 0 {
                        dir_path(dirs, strs, d.parent_id)->Ok_0
                    } else {
                        join_path(dir_path(dirs, strs, d.parent_id)->Ok_0, name)
                    },
                )
            }
        }),
{
    let d = dirs[idx as int];
    let name = strs[d.name_stridx as int];
    let here = if name.len() == 0 {
        Seq::<Seq<char>>::empty()
    } else {
        seq![name]
    };
    assert(idx < dirs.len());
    assert(d.name_stridx < strs.len());
    if d.parent_id == NO_PARENT {
        assert(dir_names(dirs, strs, idx, 0) == Ok::<Seq<Seq<char>>, GenError>(here));
        if name.len() == 0 {
            assert(here.reverse() =~= Seq::<Seq<char>>::empty());
            assert(join_parts(here.reverse()) =~= name);
        } else {
            assert(here.reverse() =~= seq![name]);
            assert(join_parts(here.reverse()) == name);
        }
    } else {
        let p = d.parent_id;
        assert(dir_names(dirs, strs, p, 1) is Ok);
        lemma_dir_names_budget(dirs, strs, p, 0);
        let up = dir_names(dirs, strs, p, 0)->Ok_0;
        assert(dir_names(dirs, strs, idx, 0) == Ok::<Seq<Seq<char>>, GenError>(here + up));
        assert(dir_path(dirs, strs, p) == Ok::<Seq<char>, GenError>(join_parts(up.reverse())));
        lemma_dir_names_nonempty(dirs, strs, p, 0);
        lemma_join_parts_empty(up.reverse());
        assert forall|i: int| 0 <= i < up.reverse().len() implies #[trigger] up.reverse()[i].len() > 0 by {
            assert(up.reverse()[i] == up[up.len() - 1 - i]);
        }
        assert((here + up).reverse() =~= up.reverse() + here.reverse());
        if name.len() == 0 {
            assert(up.reverse() + here.reverse() =~= up.reverse());
        } else {
            let r = up.reverse().push(name);
            assert(here.reverse() =~= seq![name]);
            assert(up.reverse() + here.reverse() =~= r);
            assert(r.drop_last() =~= up.reverse());
            assert(r.last() == name);
            if up.len() == 0 {
                assert(r =~= seq![name]);
                assert(join_parts(up.reverse()) =~= Seq::<char>::empty());
            } else {
                assert(join_parts(r) == join_parts(up.reverse()) + seq!['/'] + name);
                assert(join_parts(up.reverse()).len() > 0);
            }
            assert(join_parts(r) == join_path(join_parts(up.reverse()), name));
        }
    }
}

fn join_all(parts: &Vec<String>) -> (p: String)
    ensures
        p@ == join_parts(parts@.map_values(|s: String| s@)),
{
    let ghost v = parts@.map_values(|s: String| s@);
    let mut out = String::new();
    let mut i: usize = 0;
    while i < parts.len()
        invariant
            i <= parts@.len(),
            v == parts@.map_values(|s: String| s@),
            out@ == join_parts(v.subrange(0, i as int)),
        decreases parts@.len() - i,
    {
        proof {
            assert(v.subrange(0, i + 1).drop_last() =~= v.subrange(0, i as int));
        }
        if i > 0 {
            out.append("/");
            proof {
                reveal_strlit("/");
                assert(("/")@ =~= seq!['/']);
            }
        } else {
            proof {
                assert(v.subrange(0, 0) =~= Seq::<Seq<char>>::empty());
                assert(out@ =~= Seq::<char>::empty());
            }
        }
        out.append(parts[i].as_str());
        proof {
            if i == 0 {
                assert(out@ =~= v.subrange(0, 1)[0]);
            }
        }
        i += 1;
    }
    proof {
        assert(v.subrange(0, parts@.len() as int) =~= v);
    }
    out
}

/// Reconstructs a directory's full path by walking its `parent_id` chain.
/// Errors: `IndexOutOfBounds("DirectoryEntry.parent_id")` for a parent past
/// the table, `IndexOutOfBounds("StringTable index")` for a name past the
/// string table, `Format` ("directory parent chain cycle detected") when the
/// chain runs longer than the table.
pub fn resolve_dir_path(gen: &Generation, dir_idx: u32) -> (r: Result<String, ArchiveError>)
    ensures
        match dir_path(gen.dirs@, gen.strings@, dir_idx) {
            Ok(p) => r is Ok && r->Ok_0@ == p,
            Err(g) => r is Err && error_matches(r->Err_0, g),
        },
{
    let ghost dirs = gen.dirs@;
    let ghost strs = gen.strings@;
    let mut parts: Vec<String> = Vec::new();
    let mut cur = dir_idx;
    let mut steps: u128 = 0;
    let ghost mut acc: Seq<Seq<char>> = Seq::empty();
    loop
        invariant_except_break
            dir_names(dirs, strs, dir_idx, 0) == match dir_names(dirs, strs, cur, steps as nat) {
                Ok(up) => Ok(acc + up),
                Err(e) => Err::<Seq<Seq<char>>, GenError>(e),
            },
        invariant
            dirs == gen.dirs@,
            strs == gen.strings@,
            steps <= dirs.len() + 1,
            parts@.map_values(|s: String| s@) == acc.reverse(),
        ensures
            dir_names(dirs, strs, dir_idx, 0) == Ok::<Seq<Seq<char>>, GenError>(acc),
            parts@.map_values(|s: String| s@) == acc.reverse(),
        decreases dirs.len() + 1 - steps,
    {
        if steps > gen.dirs.len() as u128 {
            return Err(ArchiveError::Format(String::from_str("directory parent chain cycle detected")));
        }
        steps += 1;
        if cur as usize >= gen.dirs.len() {
            return Err(ArchiveError::IndexOutOfBounds("DirectoryEntry.parent_id"));
        }
        let d = &gen.dirs[cur as usize];
        let name = match gen.strings.get(d.name_stridx) {
            Ok(n) => n,
            Err(e) => {
                return Err(e);
            },
        };
        let ghost here = if name@.len() == 0 {
            Seq::<Seq<char>>::empty()
        } else {
            seq![name@]
        };
        let ghost before = parts@.map_values(|s: String| s@);
        if !name.is_empty() {
            parts.insert(0, String::from_str(name));
        }
        proof {
            assert((acc + here).reverse() =~= here.reverse() + acc.reverse());
            assert(parts@.map_values(|s: String| s@) =~= (acc + here).reverse());
            assert(acc + here + Seq::<Seq<char>>::empty() =~= acc + here);
        }
        if d.parent_id == NO_PARENT {
            proof {
                acc = acc + here;
            }
            break;
        }
        proof {
            let ghost next = dir_names(dirs, strs, d.parent_id, steps as nat);
            if next is Ok {
                assert(acc + (here + next->Ok_0) =~= (acc + here) + next->Ok_0);
            }
            acc = acc + here;
        }
        cur = d.parent_id;
    }
    let p = join_all(&parts);
    Ok(p)
}


/// The archive-relative path of file `i` of a generation.
pub open spec fn file_path(
    dirs: Seq<DirectoryEntry>,
    strs: Seq<Seq<char>>,
    files: Seq<FileEntry>,
    i: int,
) -> Result<Seq<char>, GenError> {
    match dir_path(dirs, strs, files[i].dir_idx) {
        Err(e) => Err(e),
        Ok(d) => if files[i].name_stridx >= strs.len() {
            Err(GenError::IndexOutOfBounds("StringTable index"@))
        } else {
            Ok(join_path(d, strs[files[i].name_stridx as int]))
        },
    }
}

/// A file of a generation with its full archive-relative path.
#[derive(Debug, Clone)]
pub struct ResolvedFile {
    pub path: String,
    pub file_idx: usize,
}

/// Resolves every file in `gen` to its full archive-relative path, in file
/// order. Since every pack writes a complete snapshot, the newest generation
/// is the current state of the backed-up tree. The first file whose path
/// cannot be resolved decides the error.
#[verifier::spinoff_prover]
pub fn current_files(gen: &Generation) -> (r: Result<Vec<ResolvedFile>, ArchiveError>)
    ensures
        ({
            let p = |i: int| file_path(gen.dirs@, gen.strings@, gen.files@, i);
            &&& r is Ok <==> forall|i: int| 0 <= i < gen.files@.len() ==> #[trigger] p(i) is Ok
            &&& r matches Ok(v) ==> v@.len() == gen.files@.len() && forall|i: int|
                0 <= i < v@.len() ==> #[trigger] v@[i].path@ == p(i)->Ok_0 && v@[i].file_idx == i
            &&& r matches Err(e) ==> exists|i: int|
                0 <= i < gen.files@.len() && (forall|j: int| 0 <= j < i ==> #[trigger] p(j) is Ok)
                    && #[trigger] p(i) is Err && error_matches(e, p(i)->Err_0)
        }),
{
    let ghost p = |i: int| file_path(gen.dirs@, gen.strings@, gen.files@, i);
    let mut out: Vec<ResolvedFile> = Vec::new();
    let mut idx: usize = 0;
    while idx < gen.files.len()
        invariant
            p == (|i: int| file_path(gen.dirs@, gen.strings@, gen.files@, i)),
            idx <= gen.files@.len(),
            out@.len() == idx,
            forall|i: int| 0 <= i < idx ==> #[trigger] p(i) is Ok,
            forall|i: int|
                0 <= i < idx ==> #[trigger] out@[i].path@ == p(i)->Ok_0 && out@[i].file_idx == i,
        decreases gen.files@.len() - idx,
    {
        let f = &gen.files[idx];
        let dir_path = match resolve_dir_path(gen, f.dir_idx) {
            Ok(d) => d,
            Err(e) => {
                assert(p(idx as int) is Err);
                return Err(e);
            },
        };
        let name = match gen.strings.get(f.name_stridx) {
            Ok(n) => n,
            Err(e) => {
                assert(p(idx as int) is Err);
                return Err(e);
            },
        };
        let path = if dir_path.as_str().is_empty() {
            String::from_str(name)
        } else {
            let with_sep = dir_path.concat("/");
            proof {
                reveal_strlit("/");
            }
            with_sep.concat(name)
        };
        proof {
            assert(path@ =~= p(idx as int)->Ok_0);
        }
        let ghost before = out@;
        out.push(ResolvedFile { path, file_idx: idx });
        proof {
            assert(out@[idx as int].path@ == p(idx as int)->Ok_0);
            assert(p(idx as int) is Ok);
            assert forall|i: int| 0 <= i < idx + 1 implies #[trigger] out@[i].path@ == p(i)->Ok_0
                && out@[i].file_idx == i by {
                if i < idx {
                    assert(out@[i] == before[i]);
                }
            }
        }
        idx += 1;
    }
    Ok(out)
}

/// Reads one resolved file's bytes into memory. Errors: `IndexOutOfBounds`
/// for a file or blob index past its table, then whatever reading the blob
/// reports.
pub fn extract_file_bytes(archive: &Archive, gen: &Generation, resolved: &ResolvedFile) -> (r: Result<
    Vec<u8>,
    ArchiveError,
>)
    ensures
        resolved.file_idx >= gen.files@.len() ==> r is Err && r->Err_0
            == ArchiveError::IndexOutOfBounds("ResolvedFile.file_idx"),
        resolved.file_idx < gen.files@.len() ==> {
            let f = gen.files@[resolved.file_idx as int];
            &&& f.blob_idx >= gen.blobs@.len() ==> r is Err && r->Err_0
                == ArchiveError::IndexOutOfBounds("FileEntry.blob_idx")
            &&& f.blob_idx < gen.blobs@.len() ==> match blob_bytes(
                archive.view(),
                gen.blobs@[f.blob_idx as int],
            ) {
                Ok(b) => r is Ok && r->Ok_0@ == b,
                Err(g) => r is Err && error_matches(r->Err_0, g),
            }
        },
{
    if resolved.file_idx >= gen.files.len() {
        return Err(ArchiveError::IndexOutOfBounds("ResolvedFile.file_idx"));
    }
    let file = &gen.files[resolved.file_idx];
    if file.blob_idx as usize >= gen.blobs.len() {
        return Err(ArchiveError::IndexOutOfBounds("FileEntry.blob_idx"));
    }
    archive.read_blob(&gen.blobs[file.blob_idx as usize])
}

/// `p`, read as a path, has a first component that is `.` or `..`-free
/// components only: it is not empty, not absolute, does not start with a
/// `.` component and has no `..` component.
pub open spec fn safe_relative(p: Seq<char>) -> bool {
    &&& p.len() > 0
    &&& p[0] != '/'
    &&& !(p[0] == '.' && (p.len() == 1 || p[1] == '/'))
    &&& forall|i: int|
        0 <= i && i + 1 < p.len() && #[trigger] p[i] == '.' && p[i + 1] == '.' ==> !((i == 0 || p[i
            - 1] == '/') && (i + 2 == p.len() || p[i + 2] == '/'))
}

/// Rejects archive paths that could escape the destination directory: an
/// empty or absolute path, or one whose components are not all plain names
/// (a leading `.` or any `..`).
pub fn check_relative(path: &str) -> (r: Result<(), ArchiveError>)
    ensures
        r is Ok <==> safe_relative(path@),
        r matches Err(e) ==> e is Format,
{
    let p = chars_of(path);
    let n = p.len();
    let bad = n == 0 || p[0] == '/' || (p[0] == '.' && (n == 1 || p[1] == '/'));
    let mut ok = !bad;
    let last = if n > 0 {
        n - 1
    } else {
        0
    };
    let mut i: usize = 0;
    while ok && i < last
        invariant
            last == if n > 0 {
                n - 1
            } else {
                0
            },
            n == p@.len(),
            p@ == path@,
            ok ==> !bad,
            !bad ==> n > 0,
            ok ==> forall|j: int|
                0 <= j < i && j + 1 < n && #[trigger] p@[j] == '.' && p@[j + 1] == '.' ==> !((j == 0
                    || p@[j - 1] == '/') && (j + 2 == n || p@[j + 2] == '/')),
            !ok ==> !safe_relative(path@),
        decreases n - i,
    {
        if p[i] == '.' && p[i + 1] == '.' && (i == 0 || p[i - 1] == '/') && (i + 2 == n || p[i + 2]
            == '/') {
            ok = false;
        }
        i += 1;
    }
    if ok {
        Ok(())
    } else {
        Err(ArchiveError::Format(String::from_str("unsafe path in archive: ").concat(path)))
    }
}

/// What an extraction wrote.
pub struct ExtractSummary {
    pub files: usize,
    pub bytes: u64,
}

/// Checks a list of files before anything is extracted and returns how many
/// bytes they hold: every path must be safe to join under a destination
/// (`check_relative`) and every file index must name a file of `gen`. The
/// first file that fails decides the error. The total saturates at
/// `u64::MAX`.
pub fn extraction_total(gen: &Generation, files: &[ResolvedFile]) -> (r: Result<u64, ArchiveError>)
    requires
        crate::validate::file_refs_valid(gen.files@, gen.dirs@.len() as int, gen.blobs@.len() as int),
    ensures
        r is Ok <==> forall|i: int|
            0 <= i < files@.len() ==> safe_relative(#[trigger] files@[i].path@) && files@[i].file_idx
                < gen.files@.len(),
        r matches Err(e) ==> e is Format || e is IndexOutOfBounds,
        r matches Ok(t) ==> t == min_total(bytes_to_extract(gen.files@, gen.blobs@, files@)),
{
    let mut total: u64 = 0;
    let mut i: usize = 0;
    while i < files.len()
        invariant
            crate::validate::file_refs_valid(gen.files@, gen.dirs@.len() as int, gen.blobs@.len() as int),
            i <= files@.len(),
            forall|j: int|
                0 <= j < i ==> safe_relative(#[trigger] files@[j].path@) && files@[j].file_idx
                    < gen.files@.len(),
            total == min_total(bytes_to_extract(gen.files@, gen.blobs@, files@.subrange(0, i as int))),
        decreases files@.len() - i,
    {
        let r = &files[i];
        check_relative(r.path.as_str())?;
        if r.file_idx >= gen.files.len() {
            return Err(ArchiveError::IndexOutOfBounds("ResolvedFile.file_idx"));
        }
        let file = &gen.files[r.file_idx];
        proof {
            assert(safe_relative(files@[i as int].path@));
            assert(crate::validate::file_refs_ok(gen.files@, r.file_idx as int, gen.dirs@.len() as int, gen.blobs@.len() as int));
            assert(files@.subrange(0, i + 1).drop_last() =~= files@.subrange(0, i as int));
        }
        total = total.saturating_add(gen.blobs[file.blob_idx as usize].raw_size);
        proof {
            assert forall|j: int| 0 <= j < i + 1 implies safe_relative(#[trigger] files@[j].path@)
                && files@[j].file_idx < gen.files@.len() by {
                if j == i {
                    assert(files@[j] == *r);
                }
            }
        }
        i += 1;
    }
    proof {
        assert(files@.subrange(0, files@.len() as int) =~= files@);
    }
    Ok(total)
}

/// The sizes of the blobs of the files `rs` names, added up.
pub open spec fn bytes_to_extract(files: Seq<FileEntry>, blobs: Seq<BlobEntry>, rs: Seq<ResolvedFile>) -> int
    decreases rs.len(),
{
    if rs.len() == 0 {
        0
    } else {
        bytes_to_extract(files, blobs, rs.drop_last()) + blobs[files[rs.last().file_idx as int].blob_idx as int].raw_size
    }
}

/// `t`, capped at `u64::MAX`.
pub open spec fn min_total(t: int) -> int {
    if t > u64::MAX {
        u64::MAX as int
    } else {
        t
    }
}

/// `path` is `prefix` or lies inside it, component by component; every
/// path lies inside the empty prefix.
pub open spec fn spec_path_under(path: Seq<char>, prefix: Seq<char>) -> bool {
    ||| prefix.len() == 0
    ||| path == prefix
    ||| path.len() > prefix.len() && path.subrange(0, prefix.len() as int) == prefix
        && path[prefix.len() as int] == '/'
}

/// Whether the archive path `path` is selected by `prefix`: equal to it, or
/// below it (`a/b` is below `a`, `ab` is not).
pub fn path_under(path: &str, prefix: &str) -> (r: bool)
    ensures
        r == spec_path_under(path@, prefix@),
{
    let p = chars_of(path);
    let q = chars_of(prefix);
    if q.len() == 0 {
        return true;
    }
    if p.len() < q.len() {
        return false;
    }
    let mut i: usize = 0;
    while i < q.len()
        invariant
            p@ == path@,
            q@ == prefix@,
            q@.len() <= p@.len(),
            i <= q@.len(),
            forall|j: int| 0 <= j < i ==> p@[j] == q@[j],
        decreases q@.len() - i,
    {
        if p[i] != q[i] {
            proof {
                assert(p@.subrange(0, q@.len() as int)[i as int] != q@[i as int]);
            }
            return false;
        }
        i += 1;
    }
    proof {
        assert(p@.subrange(0, q@.len() as int) =~= q@);
    }
    if p.len() == q.len() {
        proof {
            assert(p@ =~= q@);
        }
        true
    } else {
        p[q.len()] == '/'
    }
}

/// One line of a file listing: a file's path and its size.
pub struct FileEntryDto {
    pub path: String,
    pub size: u64,
}

/// The size of file `i` of `gen`.
pub open spec fn file_size(gen: GenerationView, i: int) -> u64 {
    gen.blobs[gen.files[i].blob_idx as int].raw_size
}

/// The paths of `gen`'s files, in file order.
pub open spec fn file_paths(gen: GenerationView) -> Seq<Seq<char>> {
    Seq::new(gen.files.len(), |i: int| file_path(gen.dirs, gen.strings, gen.files, i)->Ok_0)
}

/// `order` lists the files `0..n` once each, by path in code-point order,
/// files with the same path in file order.
pub open spec fn listing_order(paths: Seq<Seq<char>>, order: Seq<usize>) -> bool {
    &&& order.len() == paths.len()
    &&& forall|x: usize| order.contains(x) <==> x < paths.len()
    &&& forall|a: int, b: int|
        0 <= a < b < order.len() ==> {
            let (i, j) = (#[trigger] order[a] as int, #[trigger] order[b] as int);
            chars_lt(paths[i], paths[j]) || (paths[i] == paths[j] && i < j)
        }
}

/// The newest state's files with their sizes, sorted by path (files with
/// the same path keep their order). Fails as `current_files` does.
pub fn list_files(gen: &Generation) -> (r: Result<Vec<FileEntryDto>, ArchiveError>)
    requires
        crate::validate::file_refs_valid(gen.files@, gen.dirs@.len() as int, gen.blobs@.len() as int),
    ensures
        ({
            let p = |i: int| file_path(gen.dirs@, gen.strings@, gen.files@, i);
            &&& r is Ok <==> forall|i: int| 0 <= i < gen.files@.len() ==> #[trigger] p(i) is Ok
            &&& r matches Ok(v) ==> exists|order: Seq<usize>|
                #[trigger] listing_order(file_paths(gen.view()), order) && v@.len()
                    == order.len() && forall|k: int|
                    0 <= k < v@.len() ==> #[trigger] v@[k].path@ == p(order[k] as int)->Ok_0
                        && v@[k].size == file_size(gen.view(), order[k] as int)
            &&& r matches Err(e) ==> exists|i: int|
                0 <= i < gen.files@.len() && (forall|j: int| 0 <= j < i ==> #[trigger] p(j) is Ok)
                    && #[trigger] p(i) is Err && error_matches(e, p(i)->Err_0)
        }),
{
    let resolved = current_files(gen)?;
    let ghost p = |i: int| file_path(gen.dirs@, gen.strings@, gen.files@, i);
    let ghost paths = file_paths(gen.view());
    let n = resolved.len();
    let mut keys: Vec<SortKey> = Vec::new();
    let mut idx: Vec<usize> = Vec::new();
    let mut i: usize = 0;
    while i < n
        invariant
            n == resolved@.len(),
            n == gen.files@.len(),
            paths == file_paths(gen.view()),
            p == (|i: int| file_path(gen.dirs@, gen.strings@, gen.files@, i)),
            forall|k: int| 0 <= k < n ==> #[trigger] resolved@[k].path@ == p(k)->Ok_0,
            i <= n,
            keys@.len() == i,
            idx@.len() == i,
            forall|k: int| 0 <= k < i ==> #[trigger] idx@[k] == k,
            forall|k: int|
                0 <= k < i ==> (#[trigger] keys@[k]).category == 0 && keys@[k].ext@ == paths[k]
                    && keys@[k].size == 0,
        decreases n - i,
    {
        keys.push(SortKey { category: 0, ext: chars_of(resolved[i].path.as_str()), size: 0 });
        idx.push(i);
        i += 1;
    }
    let order = sort_blobs(&keys, idx.as_slice());
    let mut out: Vec<FileEntryDto> = Vec::new();
    let mut k: usize = 0;
    while k < n
        invariant
            n == resolved@.len(),
            n == gen.files@.len(),
            paths == file_paths(gen.view()),
            p == (|i: int| file_path(gen.dirs@, gen.strings@, gen.files@, i)),
            forall|q: int| 0 <= q < n ==> #[trigger] resolved@[q].path@ == p(q)->Ok_0,
            crate::validate::file_refs_valid(gen.files@, gen.dirs@.len() as int, gen.blobs@.len() as int),
            order@.len() == n,
            forall|x: usize| order@.contains(x) <==> idx@.contains(x),
            forall|q: int| 0 <= q < n ==> #[trigger] idx@[q] == q,
            idx@.len() == n,
            k <= n,
            out@.len() == k,
            forall|q: int|
                0 <= q < k ==> #[trigger] out@[q].path@ == p(order@[q] as int)->Ok_0 && out@[q].size
                    == file_size(gen.view(), order@[q] as int),
        decreases n - k,
    {
        let f = order[k];
        proof {
            assert(order@.contains(f));
            let q = choose|q: int| 0 <= q < idx@.len() && idx@[q] == f;
            assert(f < n);
            assert(crate::validate::file_refs_ok(gen.files@, f as int, gen.dirs@.len() as int, gen.blobs@.len() as int));
        }
        let entry = &gen.files[f];
        let size = gen.blobs[entry.blob_idx as usize].raw_size;
        out.push(FileEntryDto { path: resolved[f].path.clone(), size });
        k += 1;
    }
    proof {
        assert forall|x: usize| order@.contains(x) <==> x < paths.len() by {
            if x < paths.len() {
                assert(idx@[x as int] == x);
                assert(idx@.contains(x));
            }
            if idx@.contains(x) {
                let q = choose|q: int| 0 <= q < idx@.len() && idx@[q] == x;
            }
        }
        assert forall|a: int, b: int| 0 <= a < b < order@.len() implies {
            let (i, j) = (#[trigger] order@[a] as int, #[trigger] order@[b] as int);
            chars_lt(paths[i], paths[j]) || (paths[i] == paths[j] && i < j)
        } by {
            assert(crate::sort::blob_before(keys@, order@[a], order@[b]));
            assert(order@.contains(order@[a]));
            assert(order@.contains(order@[b]));
            assert(order@[a] < paths.len());
            assert(order@[b] < paths.len());
        }
        assert(listing_order(paths, order@));
    }
    Ok(out)
}

} // verus!
