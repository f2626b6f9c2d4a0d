//! Walking a source tree: the decisions of a depth-first scan, one entry at
//! a time. The caller examines each path on the filesystem (its kind, size,
//! times, symlink target and directory listing) and hands the outcome back;
//! the collector records entries, rejects an archive path seen twice, limits
//! symlink chains and queues directory children.
//!
//! Archive paths are written with `/` between components. `P` is the
//! caller's filesystem path type, carried through untouched.

use vstd::prelude::*;
use crate::errors::{IoError, IoErrorKind};
use crate::filetimes::FileTimes;
use crate::hash_table::MAX_TABLE_KEYS;
use crate::interner::StringSet;
use crate::iter::join_path;
use vstd::std_specs::iter::IteratorSpec;

verus! {

/// A directory found by a scan. `parent` is the index of the directory
/// whose listing found it (`None` for a scan root).
pub struct DirectoryEntry<P> {
    pub fs_path: P,
    pub archive_path: String,
    pub name: String,
    pub parent: Option<usize>,
    pub filetimes: FileTimes,
}

/// A regular file found by a scan.
pub struct FileEntry<P> {
    pub fs_path: P,
    pub archive_path: String,
    pub name: String,
    pub parent: Option<usize>,
    pub size_hint: u64,
    pub filetimes: FileTimes,
}

/// A symbolic link recorded as such (not followed).
pub struct SymlinkEntry<P> {
    pub fs_path: P,
    pub archive_path: String,
    pub fs_target_path: P,
    pub filetimes: FileTimes,
}

/// Symlink chains longer than this are refused.
pub const MAX_SYMLINK_DEPTH: u32 = 10;

/// Everything a scan has recorded.
pub struct FileCollector<P> {
    pub directories: Vec<DirectoryEntry<P>>,
    pub files: Vec<FileEntry<P>>,
    pub symlinks: Vec<SymlinkEntry<P>>,
    pub entries: StringSet,
}

/// A path waiting to be examined.
pub struct EntryTask<P> {
    pub fs_path: P,
    pub archive_path: String,
    pub name: String,
    pub parent: Option<usize>,
    pub symlink_depth: u32,
    pub dereference_symlinks: bool,
}

/// One item of scan work.
pub enum Task<P> {
    Entry(EntryTask<P>),
    /// Marks that a directory's children have all been queued.
    DirDone,
}

/// What the filesystem says about a path.
pub enum Probe<P> {
    /// Reading the path's metadata failed.
    Failed(IoError),
    /// A regular file of `size` bytes.
    File { size: u64, filetimes: FileTimes },
    /// A symbolic link and what reading its target gave.
    Symlink { target: Result<P, IoError>, filetimes: FileTimes },
    /// A directory and what listing it gave: an error, or its entries (each
    /// a path and a file name, or an error) in listing order.
    Directory { filetimes: FileTimes, listing: Result<Vec<Result<(P, String), IoError>>, IoError> },
    /// Anything else (a device, a socket, ...).
    Other,
}

/// What to do next.
pub enum Advance<P> {
    /// Examine this path and report with `examined`.
    Examine(EntryTask<P>),
    /// A directory has been fully crawled; the scan has recorded this many files.
    Yield(usize),
    /// No work is left.
    Finished,
}

/// The pending work of one `add_path`.
pub struct FileCollectorIter<P> {
    pub tasks: Vec<Task<P>>,
}

impl<P> FileCollector<P> {
    /// The archive paths of every recorded entry.
    pub open spec fn paths(&self) -> Set<Seq<char>> {
        Set::new(
            |p: Seq<char>|
                (exists|i: int| 0 <= i < self.directories@.len() && #[trigger] self.directories@[i].archive_path@ == p)
                    || (exists|i: int| 0 <= i < self.files@.len() && #[trigger] self.files@[i].archive_path@ == p)
                    || (exists|i: int| 0 <= i < self.symlinks@.len() && #[trigger] self.symlinks@[i].archive_path@ == p),
        )
    }

    /// How many entries have been recorded.
    pub open spec fn count(&self) -> nat {
        self.directories@.len() + self.files@.len() + self.symlinks@.len()
    }

    /// The set of seen paths matches the recorded entries, no archive path
    /// is recorded twice, and every parent is a directory recorded earlier.
    pub closed spec fn wf(&self) -> bool {
        &&& self.entries.wf()
        &&& self.entries.contents() == self.paths()
        &&& self.entries.size() == self.count()
        &&& self.parents_ok()
    }

    /// Every directory's parent precedes it; every file's parent is recorded.
    pub open spec fn parents_ok(&self) -> bool {
        &&& forall|i: int|
            0 <= i < self.directories@.len() ==> parent_below((#[trigger] self.directories@[i]).parent, i)
        &&& forall|i: int|
            0 <= i < self.files@.len() ==> parent_below((#[trigger] self.files@[i]).parent, self.directories@.len() as int)
    }

    /// The archive paths of every recorded entry: directories, then files,
    /// then symlinks, each in the order recorded.
    pub open spec fn path_list(&self) -> Seq<Seq<char>> {
        self.directories@.map_values(|d: DirectoryEntry<P>| d.archive_path@) + self.files@.map_values(
            |f: FileEntry<P>| f.archive_path@,
        ) + self.symlinks@.map_values(|l: SymlinkEntry<P>| l.archive_path@)
    }

    /// However many scans ran into it, a collector records no archive path
    /// twice, and every directory's parent was recorded before it.
    pub proof fn lemma_paths_distinct(&self)
        requires
            self.wf(),
        ensures
            self.path_list().no_duplicates(),
            self.parents_ok(),
    {
        self.lemma_wf();
        let ds = self.directories@.map_values(|d: DirectoryEntry<P>| d.archive_path@);
        let fs = self.files@.map_values(|f: FileEntry<P>| f.archive_path@);
        let ls = self.symlinks@.map_values(|l: SymlinkEntry<P>| l.archive_path@);
        let l = self.path_list();
        assert(l == ds + fs + ls);
        let dn = ds.len() as int;
        let fnn = fs.len() as int;
        assert forall|p: Seq<char>| self.paths().contains(p) implies l.to_set().contains(p) by {
            if exists|i: int| 0 <= i < self.directories@.len() && #[trigger] self.directories@[i].archive_path@ == p {
                let i = choose|i: int| 0 <= i < self.directories@.len() && #[trigger] self.directories@[i].archive_path@ == p;
                assert(l[i] == ds[i]);
                assert(l.contains(p));
            } else if exists|i: int| 0 <= i < self.files@.len() && #[trigger] self.files@[i].archive_path@ == p {
                let i = choose|i: int| 0 <= i < self.files@.len() && #[trigger] self.files@[i].archive_path@ == p;
                assert(l[dn + i] == fs[i]);
                assert(l.contains(p));
            } else {
                let i = choose|i: int| 0 <= i < self.symlinks@.len() && #[trigger] self.symlinks@[i].archive_path@ == p;
                assert(l[dn + fnn + i] == ls[i]);
                assert(l.contains(p));
            }
        }
        assert forall|p: Seq<char>| l.to_set().contains(p) implies self.paths().contains(p) by {
            let k = choose|k: int| 0 <= k < l.len() && l[k] == p;
            if k < dn {
                assert(self.directories@[k].archive_path@ == p);
            } else if k < dn + fnn {
                assert(self.files@[k - dn].archive_path@ == p);
            } else {
                assert(self.symlinks@[k - dn - fnn].archive_path@ == p);
            }
        }
        assert(l.to_set() =~= self.paths());
        l.lemma_no_dup_set_cardinality();
    }

    pub proof fn lemma_wf(&self)
        requires
            self.wf(),
        ensures
            self.parents_ok(),
            self.paths().finite(),
            self.paths().len() == self.count(),
    {
        self.entries.lemma_size();
    }

    pub fn new() -> (c: FileCollector<P>)
        ensures
            c.wf(),
            c.directories@.len() == 0,
            c.files@.len() == 0,
            c.symlinks@.len() == 0,
    {
        let c = FileCollector {
            directories: Vec::new(),
            files: Vec::new(),
            symlinks: Vec::new(),
            entries: StringSet::new(),
        };
        assert(c.paths() =~= Set::<Seq<char>>::empty());
        c
    }

    /// Starts scanning `fs_path`, recorded at `archive_path` (whose last
    /// component names it). Run the returned work to completion with
    /// `advance` and `examined`.
    pub fn add_path(&self, fs_path: P, archive_path: String, name: String, dereference_symlinks: bool) -> (it:
        FileCollectorIter<P>)
        ensures
            it.tasks@.len() == 1,
            it.tasks@[0] matches Task::Entry(e) && e.fs_path == fs_path && e.archive_path
                == archive_path && e.name == name && e.parent is None && e.symlink_depth == 0
                && e.dereference_symlinks == dereference_symlinks,
    {
        let mut tasks: Vec<Task<P>> = Vec::new();
        tasks.push(
            Task::Entry(
                EntryTask {
                    fs_path,
                    archive_path,
                    name,
                    parent: None,
                    symlink_depth: 0,
                    dereference_symlinks,
                },
            ),
        );
        FileCollectorIter { tasks }
    }
}

/// `t` is the task queued for listing entry `(fs_path, name)` of the
/// directory at `dir_path`, recorded at index `dir`.
pub open spec fn is_child_task<P>(
    t: Task<P>,
    fs_path: P,
    name: Seq<char>,
    dir_path: Seq<char>,
    dir: usize,
    depth: u32,
    deref: bool,
) -> bool {
    t matches Task::Entry(e) && e.fs_path == fs_path && e.name@ == name && e.archive_path@
        == join_path(dir_path, name) && e.parent == Some(dir) && e.symlink_depth == depth
        && e.dereference_symlinks == deref
}

/// `p` names no parent, or one below `bound`.
pub open spec fn parent_below(p: Option<usize>, bound: int) -> bool {
    match p {
        Some(x) => x < bound,
        None => true,
    }
}

/// `t` is not an entry, or one whose parent is below `bound`.
pub open spec fn task_parent_below<P>(t: Task<P>, bound: int) -> bool {
    match t {
        Task::Entry(e) => parent_below(e.parent, bound),
        Task::DirDone => true,
    }
}

/// `t` is not an entry, or one whose parent is `dir`.
pub open spec fn task_parent_is<P>(t: Task<P>, dir: usize) -> bool {
    match t {
        Task::Entry(e) => e.parent == Some(dir),
        Task::DirDone => true,
    }
}

/// `r` is an error of kind `k`.
pub open spec fn fails_with(r: Option<IoError>, k: IoErrorKind) -> bool {
    r matches Some(e) && e.kind == k
}

/// Every queued entry names a recorded directory as its parent.
pub open spec fn tasks_ok<P>(tasks: Seq<Task<P>>, dir_count: nat) -> bool {
    forall|i: int|
        0 <= i < tasks.len() ==> task_parent_below(#[trigger] tasks[i], dir_count as int)
}

impl<P> FileCollectorIter<P> {
    /// Takes the next piece of work: a path to examine, a finished
    /// directory (with the number of files recorded so far), or the end.
    pub fn advance(&mut self, collector: &FileCollector<P>) -> (r: Advance<P>)
        requires
            collector.wf(),
        ensures
            old(self).tasks@.len() == 0 ==> r is Finished && final(self).tasks@ == old(self).tasks@,
            old(self).tasks@.len() > 0 ==> final(self).tasks@ == old(self).tasks@.drop_last() && match old(self).tasks@.last() {
                Task::DirDone => r matches Advance::Yield(n) && n == collector.files@.len(),
                Task::Entry(e) => r matches Advance::Examine(x) && x == e,
            },
    {
        match self.tasks.pop() {
            None => Advance::Finished,
            Some(Task::DirDone) => Advance::Yield(collector.files.len()),
            Some(Task::Entry(e)) => Advance::Examine(e),
        }
    }

    /// Applies what the filesystem said about `task`'s path. Returns the
    /// error the scan reports for this step, if any:
    /// - a failed metadata read, its error;
    /// - a regular file, recorded unless its archive path was seen
    ///   (`AlreadyExists`);
    /// - a symlink: past the depth limit `InvalidData`; otherwise the error
    ///   reading its target, or, when following links, its target queued at
    ///   the same archive path one level deeper, or else the link recorded
    ///   unless its path was seen (`AlreadyExists`);
    /// - a directory: `AlreadyExists` if its path was seen; otherwise it is
    ///   recorded, then the listing error if listing failed, or its entries
    ///   queued in listing order up to the first failed one (whose error is
    ///   returned), followed by a directory-done marker;
    /// - anything else, `InvalidData`.
    /// Once `MAX_TABLE_KEYS` entries are recorded, a new one is refused with
    /// `Other`.
    pub fn examined(&mut self, collector: &mut FileCollector<P>, task: EntryTask<P>, probe: Probe<P>) -> (r:
        Option<IoError>)
        requires
            old(collector).wf(),
            tasks_ok(old(self).tasks@, old(collector).directories@.len()),
            task.parent matches Some(p) ==> p < old(collector).directories@.len(),
        ensures
            final(collector).wf(),
            tasks_ok(final(self).tasks@, final(collector).directories@.len()),
            ({
                let ap = task.archive_path@;
                let seen = old(collector).paths().contains(ap);
                let full = old(collector).count() >= MAX_TABLE_KEYS;
                let same = final(collector).directories@ == old(collector).directories@
                    && final(collector).files@ == old(collector).files@ && final(collector).symlinks@
                    == old(collector).symlinks@;
                match probe {
                    Probe::Failed(e) => r == Some(e) && same && final(self).tasks@ == old(self).tasks@,
                    Probe::Other => fails_with(r, IoErrorKind::InvalidData) && same
                        && final(self).tasks@ == old(self).tasks@,
                    Probe::File { size, filetimes } => final(self).tasks@ == old(self).tasks@ && if seen {
                        fails_with(r, IoErrorKind::AlreadyExists) && same
                    } else if full {
                        fails_with(r, IoErrorKind::Other) && same
                    } else {
                        r is None && final(collector).directories@ == old(collector).directories@
                            && final(collector).symlinks@ == old(collector).symlinks@ && final(collector).files@ == old(collector).files@.push(
                            FileEntry {
                                fs_path: task.fs_path,
                                archive_path: task.archive_path,
                                name: task.name,
                                parent: task.parent,
                                size_hint: size,
                                filetimes,
                            },
                        )
                    },
                    Probe::Symlink { target, filetimes } => if task.symlink_depth >= MAX_SYMLINK_DEPTH {
                        fails_with(r, IoErrorKind::InvalidData) && same && final(self).tasks@ == old(self).tasks@
                    } else {
                        match target {
                            Err(e) => r == Some(e) && same && final(self).tasks@ == old(self).tasks@,
                            Ok(tp) => if task.dereference_symlinks {
                                r is None && same && final(self).tasks@ == old(self).tasks@.push(
                                    Task::Entry(
                                        EntryTask {
                                            fs_path: tp,
                                            archive_path: task.archive_path,
                                            name: task.name,
                                            parent: task.parent,
                                            symlink_depth: (task.symlink_depth + 1) as u32,
                                            dereference_symlinks: true,
                                        },
                                    ),
                                )
                            } else {
                                final(self).tasks@ == old(self).tasks@ && if seen {
                                    fails_with(r, IoErrorKind::AlreadyExists) && same
                                } else if full {
                                    fails_with(r, IoErrorKind::Other) && same
                                } else {
                                    r is None && final(collector).directories@ == old(collector).directories@ && final(collector).files@ == old(collector).files@
                                        && final(collector).symlinks@ == old(collector).symlinks@.push(
                                        SymlinkEntry {
                                            fs_path: task.fs_path,
                                            archive_path: task.archive_path,
                                            fs_target_path: tp,
                                            filetimes,
                                        },
                                    )
                                }
                            },
                        }
                    },
                    Probe::Directory { filetimes, listing } => if seen {
                        fails_with(r, IoErrorKind::AlreadyExists) && same && final(self).tasks@ == old(self).tasks@
                    } else if full {
                        fails_with(r, IoErrorKind::Other) && same && final(self).tasks@ == old(self).tasks@
                    } else {
                        let d = old(collector).directories@.len() as usize;
                        let n0 = old(self).tasks@.len();
                        &&& final(collector).files@ == old(collector).files@
                        &&& final(collector).symlinks@ == old(collector).symlinks@
                        &&& final(collector).directories@ == old(collector).directories@.push(
                            DirectoryEntry {
                                fs_path: task.fs_path,
                                archive_path: task.archive_path,
                                name: task.name,
                                parent: task.parent,
                                filetimes,
                            },
                        )
                        &&& match listing {
                            Err(e) => r == Some(e) && final(self).tasks@ == old(self).tasks@,
                            Ok(items) => {
                                let k = final(self).tasks@.len() - n0;
                                &&& final(self).tasks@.subrange(0, n0 as int) == old(self).tasks@
                                &&& (forall|j: int|
                                    0 <= j < items@.len() && j < k ==> #[trigger] items@[j] is Ok)
                                &&& (forall|j: int|
                                    0 <= j < items@.len() && j < k ==> is_child_task(
                                        #[trigger] final(self).tasks@[n0 + j],
                                        items@[j]->Ok_0.0,
                                        items@[j]->Ok_0.1@,
                                        ap,
                                        d,
                                        task.symlink_depth,
                                        task.dereference_symlinks,
                                    ))
                                &&& match r {
                                    None => k == items@.len() + 1 && final(self).tasks@.last() is DirDone,
                                    Some(e) => 0 <= k < items@.len() && items@[k] == Err::<
                                        (P, String),
                                        IoError,
                                    >(e),
                                }
                            },
                        }
                    },
                }
            }),
    {
        let ghost old_c = *collector;
        let ghost old_tasks = self.tasks@;
        match probe {
            Probe::Failed(e) => Some(e),
            Probe::Other => Some(IoError::new(IoErrorKind::InvalidData, "Unsupported file type")),
            Probe::File { size, filetimes } => {
                match collector.record(task.archive_path.as_str()) {
                    Some(e) => Some(e),
                    None => {
                        collector.files.push(
                            FileEntry {
                                fs_path: task.fs_path,
                                archive_path: task.archive_path,
                                name: task.name,
                                parent: task.parent,
                                size_hint: size,
                                filetimes,
                            },
                        );
                        proof {
                            assert(collector.files@.drop_last() =~= old_c.files@);
                            collector.lemma_pushed_file(&old_c);
                        }
                        None
                    },
                }
            },
            Probe::Symlink { target, filetimes } => {
                if task.symlink_depth >= MAX_SYMLINK_DEPTH {
                    return Some(IoError::new(IoErrorKind::InvalidData, "Symlink depth exceeded"));
                }
                match target {
                    Err(e) => Some(e),
                    Ok(tp) => {
                        if task.dereference_symlinks {
                            self.tasks.push(
                                Task::Entry(
                                    EntryTask {
                                        fs_path: tp,
                                        archive_path: task.archive_path,
                                        name: task.name,
                                        parent: task.parent,
                                        symlink_depth: task.symlink_depth + 1,
                                        dereference_symlinks: true,
                                    },
                                ),
                            );
                            None
                        } else {
                            match collector.record(task.archive_path.as_str()) {
                                Some(e) => Some(e),
                                None => {
                                    collector.symlinks.push(
                                        SymlinkEntry {
                                            fs_path: task.fs_path,
                                            archive_path: task.archive_path,
                                            fs_target_path: tp,
                                            filetimes,
                                        },
                                    );
                                    proof {
                                        assert(collector.symlinks@.drop_last() =~= old_c.symlinks@);
                                        collector.lemma_pushed_symlink(&old_c);
                                    }
                                    None
                                },
                            }
                        }
                    },
                }
            },
            Probe::Directory { filetimes, listing } => {
                match collector.record(task.archive_path.as_str()) {
                    Some(e) => {
                        return Some(e);
                    },
                    None => {},
                }
                let dir_idx = collector.directories.len();
                let dir_path = task.archive_path.clone();
                let ghost ap = task.archive_path@;
                collector.directories.push(
                    DirectoryEntry {
                        fs_path: task.fs_path,
                        archive_path: task.archive_path,
                        name: task.name,
                        parent: task.parent,
                        filetimes,
                    },
                );
                proof {
                    assert(collector.directories@.drop_last() =~= old_c.directories@);
                    collector.lemma_pushed_dir(&old_c);
                }
                let items = match listing {
                    Err(e) => {
                        return Some(e);
                    },
                    Ok(items) => items,
                };
                let r = self.queue_children(items, &dir_path, dir_idx, task.symlink_depth, task.dereference_symlinks);
                proof {
                    assert forall|i: int| 0 <= i < self.tasks@.len() implies task_parent_below(
                        #[trigger] self.tasks@[i],
                        collector.directories@.len() as int,
                    ) by {
                        if i < old_tasks.len() {
                            assert(self.tasks@.subrange(0, old_tasks.len() as int)[i] == self.tasks@[i]);
                            assert(task_parent_below(old_tasks[i], old_c.directories@.len() as int));
                        } else {
                            assert(task_parent_is(self.tasks@[i], dir_idx));
                        }
                    }
                }
                r
            },
        }
    }
}


impl<P> FileCollector<P> {
    /// Notes `path` as seen, unless it was seen before (`AlreadyExists`) or
    /// the scan is full (`Other`).
    fn record(&mut self, path: &str) -> (r: Option<IoError>)
        requires
            old(self).wf(),
        ensures
            final(self).directories@ == old(self).directories@,
            final(self).files@ == old(self).files@,
            final(self).symlinks@ == old(self).symlinks@,
            final(self).entries.wf(),
            old(self).paths().contains(path@) ==> fails_with(r, IoErrorKind::AlreadyExists) && final(self).wf(),
            !old(self).paths().contains(path@) && old(self).count() >= MAX_TABLE_KEYS ==> fails_with(r, IoErrorKind::Other) && final(self).wf(),
            !old(self).paths().contains(path@) && old(self).count() < MAX_TABLE_KEYS ==> r is None
                && final(self).entries.contents() == old(self).paths().insert(path@)
                && final(self).entries.size() == old(self).count() + 1,
    {
        if self.entries.contains(path) {
            return Some(IoError::new(IoErrorKind::AlreadyExists, "Entry already added"));
        }
        if self.entries.len() >= MAX_TABLE_KEYS {
            return Some(IoError::new(IoErrorKind::Other, "too many entries"));
        }
        self.entries.insert(path);
        None
    }

    proof fn lemma_pushed_file(&self, old: &Self)
        requires
            old.wf(),
            self.entries.wf(),
            self.directories@ == old.directories@,
            self.symlinks@ == old.symlinks@,
            self.files@.len() == old.files@.len() + 1,
            self.files@.drop_last() == old.files@,
            !old.paths().contains(self.files@.last().archive_path@),
            self.entries.contents() == old.paths().insert(self.files@.last().archive_path@),
            self.entries.size() == old.count() + 1,
            self.files@.last().parent matches Some(p) ==> p < self.directories@.len(),
        ensures
            self.wf(),
    {
        let f = self.files@.last();
        assert forall|p: Seq<char>| #[trigger] self.paths().contains(p) == old.paths().insert(
            f.archive_path@,
        ).contains(p) by {
            if exists|i: int| 0 <= i < self.files@.len() && #[trigger] self.files@[i].archive_path@ == p {
                let i = choose|i: int| 0 <= i < self.files@.len() && #[trigger] self.files@[i].archive_path@ == p;
                if i < old.files@.len() {
                    assert(old.files@[i] == self.files@[i]);
                }
            }
            if exists|i: int| 0 <= i < old.files@.len() && #[trigger] old.files@[i].archive_path@ == p {
                let i = choose|i: int| 0 <= i < old.files@.len() && #[trigger] old.files@[i].archive_path@ == p;
                assert(old.files@[i] == self.files@[i]);
            }
        }
        assert(self.paths() =~= old.paths().insert(f.archive_path@));
        assert forall|i: int| 0 <= i < self.files@.len() implies parent_below((#[trigger] self.files@[i]).parent, self.directories@.len() as int) by {
            if i < old.files@.len() {
                assert(old.files@[i] == self.files@[i]);
            }
        }
    }

    proof fn lemma_pushed_symlink(&self, old: &Self)
        requires
            old.wf(),
            self.entries.wf(),
            self.directories@ == old.directories@,
            self.files@ == old.files@,
            self.symlinks@.len() == old.symlinks@.len() + 1,
            self.symlinks@.drop_last() == old.symlinks@,
            !old.paths().contains(self.symlinks@.last().archive_path@),
            self.entries.contents() == old.paths().insert(self.symlinks@.last().archive_path@),
            self.entries.size() == old.count() + 1,
        ensures
            self.wf(),
    {
        let f = self.symlinks@.last();
        assert forall|p: Seq<char>| #[trigger] self.paths().contains(p) == old.paths().insert(
            f.archive_path@,
        ).contains(p) by {
            if exists|i: int| 0 <= i < self.symlinks@.len() && #[trigger] self.symlinks@[i].archive_path@ == p {
                let i = choose|i: int| 0 <= i < self.symlinks@.len() && #[trigger] self.symlinks@[i].archive_path@ == p;
                if i < old.symlinks@.len() {
                    assert(old.symlinks@[i] == self.symlinks@[i]);
                }
            }
            if exists|i: int| 0 <= i < old.symlinks@.len() && #[trigger] old.symlinks@[i].archive_path@ == p {
                let i = choose|i: int| 0 <= i < old.symlinks@.len() && #[trigger] old.symlinks@[i].archive_path@ == p;
                assert(old.symlinks@[i] == self.symlinks@[i]);
            }
        }
        assert(self.paths() =~= old.paths().insert(f.archive_path@));
    }

    proof fn lemma_pushed_dir(&self, old: &Self)
        requires
            old.wf(),
            self.entries.wf(),
            self.files@ == old.files@,
            self.symlinks@ == old.symlinks@,
            self.directories@.len() == old.directories@.len() + 1,
            self.directories@.drop_last() == old.directories@,
            !old.paths().contains(self.directories@.last().archive_path@),
            self.entries.contents() == old.paths().insert(self.directories@.last().archive_path@),
            self.entries.size() == old.count() + 1,
            self.directories@.last().parent matches Some(p) ==> p < old.directories@.len(),
        ensures
            self.wf(),
    {
        let f = self.directories@.last();
        assert forall|p: Seq<char>| #[trigger] self.paths().contains(p) == old.paths().insert(
            f.archive_path@,
        ).contains(p) by {
            if exists|i: int| 0 <= i < self.directories@.len() && #[trigger] self.directories@[i].archive_path@ == p {
                let i = choose|i: int| 0 <= i < self.directories@.len() && #[trigger] self.directories@[i].archive_path@ == p;
                if i < old.directories@.len() {
                    assert(old.directories@[i] == self.directories@[i]);
                }
            }
            if exists|i: int| 0 <= i < old.directories@.len() && #[trigger] old.directories@[i].archive_path@ == p {
                let i = choose|i: int| 0 <= i < old.directories@.len() && #[trigger] old.directories@[i].archive_path@ == p;
                assert(old.directories@[i] == self.directories@[i]);
            }
        }
        assert(self.paths() =~= old.paths().insert(f.archive_path@));
        assert forall|i: int| 0 <= i < self.directories@.len() implies parent_below((#[trigger] self.directories@[i]).parent, i) by {
            if i < old.directories@.len() {
                assert(old.directories@[i] == self.directories@[i]);
            }
        }
        assert forall|i: int| 0 <= i < self.files@.len() implies parent_below((#[trigger] self.files@[i]).parent, self.directories@.len() as int) by {
            assert(old.files@[i] == self.files@[i]);
        }
    }
}

impl<P> FileCollectorIter<P> {
    /// Queues a listed directory's entries, in listing order, up to the
    /// first that failed; then a directory-done marker.
    fn queue_children(
        &mut self,
        items: Vec<Result<(P, String), IoError>>,
        dir_path: &String,
        dir: usize,
        depth: u32,
        deref: bool,
    ) -> (r: Option<IoError>)
        ensures
            ({
                let n0 = old(self).tasks@.len();
                let k = final(self).tasks@.len() - n0;
                &&& final(self).tasks@.subrange(0, n0 as int) == old(self).tasks@
                &&& (forall|j: int| 0 <= j < items@.len() && j < k ==> #[trigger] items@[j] is Ok)
                &&& (forall|j: int|
                    0 <= j < items@.len() && j < k ==> is_child_task(
                        #[trigger] final(self).tasks@[n0 + j],
                        items@[j]->Ok_0.0,
                        items@[j]->Ok_0.1@,
                        dir_path@,
                        dir,
                        depth,
                        deref,
                    ))
                &&& match r {
                    None => k == items@.len() + 1 && final(self).tasks@.last() is DirDone,
                    Some(e) => 0 <= k < items@.len() && items@[k] == Err::<(P, String), IoError>(e),
                }
                &&& forall|j: int|
                    n0 <= j < final(self).tasks@.len() ==> task_parent_is(#[trigger] final(self).tasks@[j], dir)
            }),
    {
        let ghost n0 = self.tasks@.len();
        let ghost all = items@;
        let total = items.len();
        let mut pending = items;
        let mut rev: Vec<Result<(P, String), IoError>> = Vec::new();
        while pending.len() > 0
            invariant
                pending@ + rev@.reverse() == all,
            decreases pending@.len(),
        {
            let ghost before_items = pending@;
            let ghost before_rev = rev@;
            let x = pending.pop().unwrap();
            rev.push(x);
            proof {
                assert(rev@.reverse() =~= seq![x] + before_rev.reverse());
                assert(pending@ + rev@.reverse() =~= before_items + before_rev.reverse());
            }
        }
        proof {
            assert(rev@.reverse() =~= all);
        }
        let mut k: usize = 0;
        loop
            invariant
                all == items@,
                all.len() >= k,
                all.len() == total,
                rev@.reverse() == all.subrange(k as int, all.len() as int),
                self.tasks@.len() == n0 + k,
                self.tasks@.subrange(0, n0 as int) == old(self).tasks@,
                forall|j: int| 0 <= j < k ==> #[trigger] all[j] is Ok,
                forall|j: int|
                    0 <= j < k ==> is_child_task(
                        #[trigger] self.tasks@[n0 + j],
                        all[j]->Ok_0.0,
                        all[j]->Ok_0.1@,
                        dir_path@,
                        dir,
                        depth,
                        deref,
                    ),
                forall|j: int|
                    n0 <= j < self.tasks@.len() ==> task_parent_is(#[trigger] self.tasks@[j], dir),
            ensures
                all.len() == k,
                self.tasks@.len() == n0 + k,
                self.tasks@.subrange(0, n0 as int) == old(self).tasks@,
                forall|j: int| 0 <= j < k ==> #[trigger] all[j] is Ok,
                forall|j: int|
                    0 <= j < k ==> is_child_task(
                        #[trigger] self.tasks@[n0 + j],
                        all[j]->Ok_0.0,
                        all[j]->Ok_0.1@,
                        dir_path@,
                        dir,
                        depth,
                        deref,
                    ),
                forall|j: int|
                    n0 <= j < self.tasks@.len() ==> task_parent_is(#[trigger] self.tasks@[j], dir),
            decreases rev@.len(),
        {
            let ghost before = self.tasks@;
            let ghost before_rev = rev@;
            proof {
                if rev@.len() > 0 {
                    assert(rev@.reverse().len() == rev@.len());
                    assert(all.subrange(k as int, all.len() as int)[0] == all[k as int]);
                    assert(all[k as int] == rev@.reverse()[0]);
                    assert(rev@.reverse()[0] == rev@.last());
                }
            }
            match rev.pop() {
                None => {
                    proof {
                        assert(rev@.reverse().len() == 0);
                    }
                    break;
                },
                Some(Err(e)) => {
                    assert(all[k as int] == Err::<(P, String), IoError>(e));
                    assert(self.tasks@.len() == n0 + k);
                    return Some(e);
                },
                Some(Ok((fs_path, name))) => {
                    let archive_path = if dir_path.as_str().is_empty() {
                        name.clone()
                    } else {
                        let with_sep = dir_path.clone().concat("/");
                        proof {
                            reveal_strlit("/");
                        }
                        with_sep.concat(name.as_str())
                    };
                    proof {
                        assert(archive_path@ =~= join_path(dir_path@, name@));
                    }
                    self.tasks.push(
                        Task::Entry(
                            EntryTask {
                                fs_path,
                                archive_path,
                                name,
                                parent: Some(dir),
                                symlink_depth: depth,
                                dereference_symlinks: deref,
                            },
                        ),
                    );
                    proof {
                        assert forall|j: int|
                            0 <= j < k + 1 implies is_child_task(
                            #[trigger] self.tasks@[n0 + j],
                            all[j]->Ok_0.0,
                            all[j]->Ok_0.1@,
                            dir_path@,
                            dir,
                            depth,
                            deref,
                        ) by {
                            if j < k {
                                assert(self.tasks@[n0 + j] == before[n0 + j]);
                            }
                        }
                        assert(self.tasks@.subrange(0, n0 as int) =~= before.subrange(0, n0 as int));
                    }
                    proof {
                        assert(rev@.reverse() =~= before_rev.reverse().drop_first());
                        assert(all.subrange(k + 1, all.len() as int) =~= all.subrange(k as int, all.len() as int).drop_first());
                    }
                    k += 1;
                },
            }
        }
        self.tasks.push(Task::DirDone);
        proof {
            assert(self.tasks@.subrange(0, n0 as int) =~= old(self).tasks@);
        }
        None
    }
}

} // verus!
