//! Timestamps in 100-nanosecond intervals since the UNIX epoch.

use vstd::prelude::*;

verus! {

/// A path's timestamps, in 100-nanosecond intervals since the UNIX epoch.
#[derive(Clone, Copy, Debug, PartialEq, Eq, Structural)]
pub struct FileTimes {
    pub created: i64,
    pub modified: i64,
    pub accessed: i64,
}

pub open spec fn max_i64(a: i64, b: i64) -> i64 {
    if a >= b {
        a
    } else {
        b
    }
}

/// The archive time of an instant given as whole seconds and nanoseconds
/// since the UNIX epoch.
pub open spec fn spec_archive_time(unix_seconds: i64, nanoseconds: u32) -> int {
    unix_seconds * 10_000_000 + nanoseconds / 100
}

/// Converts seconds and nanoseconds since the UNIX epoch into 100-nanosecond
/// intervals, the unit of Windows FILETIME.
pub fn to_archive_time(unix_seconds: i64, nanoseconds: u32) -> (t: i64)
    requires
        nanoseconds < 1_000_000_000,
        i64::MIN <= spec_archive_time(unix_seconds, nanoseconds) <= i64::MAX,
        i64::MIN <= unix_seconds * 10_000_000 <= i64::MAX,
    ensures
        t == spec_archive_time(unix_seconds, nanoseconds),
{
    let frac: i64 = (nanoseconds / 100) as i64;
    unix_seconds * 10_000_000 + frac
}

impl FileTimes {
    /// Keeps, field by field, the later of the two timestamps.
    pub fn merge_max(&mut self, other: &FileTimes)
        ensures
            final(self).created == max_i64(old(self).created, other.created),
            final(self).modified == max_i64(old(self).modified, other.modified),
            final(self).accessed == max_i64(old(self).accessed, other.accessed),
    {
        if other.created > self.created {
            self.created = other.created;
        }
        if other.modified > self.modified {
            self.modified = other.modified;
        }
        if other.accessed > self.accessed {
            self.accessed = other.accessed;
        }
    }
}

/// Merging a value into itself changes nothing, and merging is commutative.
pub proof fn lemma_merge_max_laws(a: FileTimes, b: FileTimes)
    ensures
        max_i64(a.created, a.created) == a.created,
        max_i64(a.created, b.created) == max_i64(b.created, a.created),
        max_i64(a.created, b.created) >= a.created,
        max_i64(a.created, b.created) >= b.created,
{
}

} // verus!
