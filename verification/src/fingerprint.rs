//! Planning a quick fingerprint of a large file: evenly spaced windows whose
//! bytes are hashed together, sampling about a tenth of the file.

use vstd::prelude::*;
use crate::codec::{sha256_digest, ContentHasher};
use crate::layout::{concat, lemma_flat_push};

verus! {

/// Files smaller than this are not sampled.
pub const MIN_SIZE_BYTES: u64 = 262144;

/// At most this many bytes are sampled from one file.
pub const MAX_BUDGET_BYTES: u64 = 33554432;

/// At most this many windows are sampled from one file.
pub const MAX_WINDOWS: u64 = 1024;

/// The windows to read: `windows` windows of `window_bytes` bytes, `stride_bytes` apart.
#[derive(Debug, Clone, Copy)]
pub struct SamplePlan {
    pub window_bytes: usize,
    pub windows: u64,
    pub stride_bytes: u64,
}

/// The window size for a file of `size` bytes: 16 KiB below 64 MiB, 32 KiB
/// below 256 MiB, 48 KiB below 512 MiB, 64 KiB from there on.
pub open spec fn window_for(size: u64) -> int {
    if size < 67108864 {
        16384
    } else if size < 268435456 {
        32768
    } else if size < 536870912 {
        49152
    } else {
        65536
    }
}

pub fn window_bytes_for_size(size: u64) -> (w: usize)
    ensures
        w == window_for(size),
{
    if size < 64 * 1024 * 1024 {
        16 * 1024
    } else if size < 256 * 1024 * 1024 {
        32 * 1024
    } else if size < 512 * 1024 * 1024 {
        48 * 1024
    } else {
        64 * 1024
    }
}

/// The sampling budget: a tenth of the file, rounded to the nearest byte
/// (halves up), at most `MAX_BUDGET_BYTES` and at most the file.
pub open spec fn budget_for(size: u64) -> int {
    let tenth = (size + 5) / 10;
    let capped = if tenth > MAX_BUDGET_BYTES {
        MAX_BUDGET_BYTES as int
    } else {
        tenth as int
    };
    if capped > size {
        size as int
    } else {
        capped
    }
}

pub fn compute_budget(size: u64) -> (b: u64)
    ensures
        b == budget_for(size),
{
    let tenth = size / 10 + if size % 10 >= 5 {
        1
    } else {
        0
    };
    assert(tenth == (size + 5) / 10) by (nonlinear_arith)
        requires
            tenth == size / 10 + if size % 10 >= 5 {
                1int
            } else {
                0int
            },
    ;
    let mut budget = tenth;
    if budget > MAX_BUDGET_BYTES {
        budget = MAX_BUDGET_BYTES;
    }
    if budget > size {
        budget = size;
    }
    budget
}

/// `n` divided by `d`, rounded up.
pub open spec fn ceil_div(n: int, d: int) -> int {
    (n + d - 1) / d
}

/// The number of windows aimed for before checking that they fit: enough
/// for the budget (at least one, at most `MAX_WINDOWS`), and no more than
/// keep the stride at least two windows wide, when the file allows that.
pub open spec fn windows_aimed(size: u64) -> int {
    let wb = window_for(size);
    let by_budget = ceil_div(budget_for(size), wb);
    let w0 = if by_budget < 1 {
        1
    } else if by_budget > MAX_WINDOWS {
        MAX_WINDOWS as int
    } else {
        by_budget
    };
    if size < 2 * wb {
        1
    } else {
        let by_stride = if (size as int) / (2 * wb) < 1 {
            1
        } else {
            (size as int) / (2 * wb)
        };
        if w0 > by_stride {
            by_stride
        } else {
            w0
        }
    }
}

/// `(w - 1) * stride + window` fits in the file, with the stride `size / w`
/// (at least 1).
pub open spec fn plan_fits(size: u64, w: int) -> bool {
    let stride = if (size as int) / w < 1 {
        1
    } else {
        (size as int) / w
    };
    (w - 1) * stride + window_for(size) <= size
}

/// The plan for a file of `size` bytes. No budget: no windows. Otherwise
/// the aimed-for windows, spaced `size / windows` apart; if even one window
/// does not fit, none.
pub open spec fn sample_plan(size: u64) -> (int, int, int) {
    if budget_for(size) == 0 {
        (1, 0, 1)
    } else {
        let w = windows_aimed(size);
        let stride = if (size as int) / w < 1 {
            1
        } else {
            (size as int) / w
        };
        if plan_fits(size, w) {
            (window_for(size), w, stride)
        } else {
            (window_for(size), 0, stride)
        }
    }
}

proof fn lemma_aimed_fits(size: u64)
    requires
        budget_for(size) > 0,
    ensures
        1 <= windows_aimed(size) <= MAX_WINDOWS,
        windows_aimed(size) > 1 ==> plan_fits(size, windows_aimed(size)),
        windows_aimed(size) == 1 ==> (plan_fits(size, 1) <==> window_for(size) <= size),
{
    let wb = window_for(size);
    let w = windows_aimed(size);
    assert(ceil_div(budget_for(size), wb) >= 1) by (nonlinear_arith)
        requires
            budget_for(size) > 0,
            wb >= 16384,
    ;
    if w > 1 {
        assert(size >= 2 * wb);
        assert(w <= (size as int) / (2 * wb));
        let stride = (size as int) / w;
        assert(w * (2 * wb) <= size) by (nonlinear_arith)
            requires
                w <= (size as int) / (2 * wb),
                wb > 0,
                w > 0,
        ;
        assert(stride >= 2 * wb) by (nonlinear_arith)
            requires
                w * (2 * wb) <= size,
                stride == (size as int) / w,
                w > 0,
        ;
        assert((w - 1) * stride + stride <= size) by (nonlinear_arith)
            requires
                stride == (size as int) / w,
                w > 0,
                size >= 0,
        ;
    }
}

/// Builds a plan that guarantees that every window fits:
/// `(windows - 1) * stride + window_bytes <= size`.
pub fn make_sample_plan(size: u64) -> (p: SamplePlan)
    ensures
        (p.window_bytes as int, p.windows as int, p.stride_bytes as int) == sample_plan(size),
{
    let budget = compute_budget(size);
    if budget == 0 {
        return SamplePlan { window_bytes: 1, windows: 0, stride_bytes: 1 };
    }
    let window_bytes = window_bytes_for_size(size) as u64;
    let mut windows = budget / window_bytes + if budget % window_bytes > 0 {
        1
    } else {
        0
    };
    assert(windows == ceil_div(budget as int, window_bytes as int)) by (nonlinear_arith)
        requires
            window_bytes > 0,
            windows == budget / window_bytes + if budget % window_bytes > 0 {
                1int
            } else {
                0int
            },
    ;
    if windows < 1 {
        windows = 1;
    }
    if windows > MAX_WINDOWS {
        windows = MAX_WINDOWS;
    }
    let min_stride = 2 * window_bytes;
    if size < min_stride {
        windows = 1;
    } else {
        let by_stride = if size / min_stride < 1 {
            1
        } else {
            size / min_stride
        };
        if windows > by_stride {
            windows = by_stride;
        }
    }
    assert(windows == windows_aimed(size));
    proof {
        lemma_aimed_fits(size);
    }
    let mut stride = if size / windows < 1 {
        1
    } else {
        size / windows
    };
    let ghost aimed = windows as int;
    let ghost aimed_stride = stride as int;
    while windows > 0
        invariant_except_break
            windows == aimed,
        invariant
            1 <= aimed <= MAX_WINDOWS,
            aimed == windows_aimed(size),
            aimed > 1 ==> plan_fits(size, aimed),
            aimed == 1 ==> (plan_fits(size, 1) <==> window_bytes <= size),
            window_bytes == window_for(size),
            stride == aimed_stride,
            aimed_stride == if (size as int) / aimed < 1 {
                1
            } else {
                (size as int) / aimed
            },
        ensures
            windows == aimed && plan_fits(size, aimed) || windows == 0 && !plan_fits(size, aimed),
        decreases windows,
    {
        let last_start = match (windows - 1).checked_mul(stride) {
            Some(x) => x,
            None => u64::MAX,
        };
        proof {
            if plan_fits(size, aimed) {
                assert((windows - 1) * stride <= size);
            }
        }
        if last_start.saturating_add(window_bytes) <= size {
            proof {
                if aimed == 1 {
                    assert(last_start == 0);
                }
            }
            break;
        }
        windows = windows - 1;
        if windows == 0 {
            break;
        }
        stride = if size / windows < 1 {
            1
        } else {
            size / windows
        };
    }
    SamplePlan { window_bytes: window_bytes as usize, windows, stride_bytes: stride }
}


/// Every window of a plan lies inside the file: with `windows` windows of
/// `window_bytes` bytes, `stride` apart, the last one ends by `size`; there
/// are at most `MAX_WINDOWS` windows and the stride is at least 1.
pub proof fn lemma_plan_fits(size: u64)
    ensures
        sample_plan(size).1 <= MAX_WINDOWS,
        sample_plan(size).2 >= 1,
        sample_plan(size).0 >= 1,
        sample_plan(size).1 > 0 ==> (sample_plan(size).1 - 1) * sample_plan(size).2 + sample_plan(
            size,
        ).0 <= size,
{
    if budget_for(size) > 0 {
        lemma_aimed_fits(size);
    }
}

/// The windows a quick fingerprint reads, as `(start, length)`: one per
/// window of the plan, `stride` apart; the last is shortened to the rest of
/// the budget when the budget is not a whole number of windows. `None` for a
/// file below `MIN_SIZE_BYTES` or whose plan has no window.
pub fn sample_windows(size: u64) -> (r: Option<Vec<(u64, u64)>>)
    ensures
        (size < MIN_SIZE_BYTES || sample_plan(size).1 == 0) <==> r is None,
        r matches Some(ws) ==> {
            let (wb, n, stride) = sample_plan(size);
            let rem = budget_for(size) % wb;
            &&& ws@.len() == n
            &&& forall|i: int|
                0 <= i < n ==> (#[trigger] ws@[i]).0 == i * stride && ws@[i].1 == if i == n - 1
                    && rem > 0 {
                    rem
                } else {
                    wb
                }
            &&& forall|i: int| 0 <= i < n ==> (#[trigger] ws@[i]).0 + ws@[i].1 <= size
        },
{
    if size < MIN_SIZE_BYTES {
        return None;
    }
    let plan = make_sample_plan(size);
    if plan.windows == 0 {
        return None;
    }
    proof {
        lemma_plan_fits(size);
    }
    let budget = compute_budget(size);
    let wb = plan.window_bytes as u64;
    let last_rem = budget % wb;
    let ghost n = plan.windows as int;
    let ghost stride = plan.stride_bytes as int;
    let mut ws: Vec<(u64, u64)> = Vec::new();
    let mut i: u64 = 0;
    while i < plan.windows
        invariant
            n == plan.windows,
            stride == plan.stride_bytes,
            wb == plan.window_bytes,
            wb >= 1,
            n > 0,
            (n - 1) * stride + wb <= size,
            last_rem == budget_for(size) % (wb as int),
            last_rem < wb,
            i <= n,
            ws@.len() == i,
            forall|j: int|
                0 <= j < i ==> (#[trigger] ws@[j]).0 == j * stride && ws@[j].1 == if j == n - 1
                    && last_rem > 0 {
                    last_rem as int
                } else {
                    wb as int
                },
            forall|j: int| 0 <= j < i ==> (#[trigger] ws@[j]).0 + ws@[j].1 <= size,
        decreases n - i,
    {
        assert(i * stride <= (n - 1) * stride) by (nonlinear_arith)
            requires
                i <= n - 1,
                stride >= 0,
        ;
        let start = i * plan.stride_bytes;
        let is_last = i + 1 == plan.windows;
        let want = if is_last && last_rem > 0 {
            last_rem
        } else {
            wb
        };
        ws.push((start, want));
        i += 1;
    }
    Some(ws)
}

/// The quick fingerprint of a `size`-byte file, given the bytes read from
/// its sampled windows (those `sample_windows(size)` lists, in that order):
/// the SHA-256 of the windows one after another, or `None` for a file that
/// is not sampled.
pub fn fingerprint_windows(size: u64, windows: &[Vec<u8>]) -> (r: Option<[u8; 32]>)
    ensures
        r is None <==> (size < MIN_SIZE_BYTES || sample_plan(size).1 == 0),
        r matches Some(h) ==> h@ == sha256_digest(concat(windows@.map_values(|w: Vec<u8>| w@))),
{
    if sample_windows(size).is_none() {
        return None;
    }
    let ghost ws = windows@.map_values(|w: Vec<u8>| w@);
    let mut hasher = ContentHasher::new();
    let mut i: usize = 0;
    while i < windows.len()
        invariant
            ws == windows@.map_values(|w: Vec<u8>| w@),
            i <= windows@.len(),
            hasher.consumed() == concat(ws.take(i as int)),
        decreases windows@.len() - i,
    {
        hasher.update(windows[i].as_slice());
        proof {
            assert(ws.take(i + 1) =~= ws.take(i as int).push(ws[i as int]));
            lemma_flat_push(ws.take(i as int), ws[i as int], |c: Seq<u8>| c);
        }
        i += 1;
    }
    proof {
        assert(ws.take(i as int) =~= ws);
    }
    Some(hasher.finalize())
}

} // verus!
