//! Ordering blobs before they are written into a generation's data
//! sections, so that similar file types end up adjacent: this improves the
//! ratio of whichever compressor runs over the concatenated section.

use vstd::prelude::*;
use crate::text::{ascii_lowercase, chars_eq, chars_of, lower_ascii};

verus! {

/// Plain text and configuration formats, which compress well together.
pub open spec fn is_text_ext(l: Seq<char>) -> bool {
    ||| l == seq!['t', 'x', 't']
    ||| l == seq!['m', 'd']
    ||| l == seq!['c', 's', 'v']
    ||| l == seq!['l', 'o', 'g']
    ||| l == seq!['i', 'n', 'i']
    ||| l == seq!['c', 'f', 'g']
    ||| l == seq!['c', 'o', 'n', 'f']
    ||| l == seq!['t', 'o', 'm', 'l']
    ||| l == seq!['y', 'a', 'm', 'l']
    ||| l == seq!['y', 'm', 'l']
}

/// Markup and structured data.
pub open spec fn is_markup_ext(l: Seq<char>) -> bool {
    ||| l == seq!['j', 's', 'o', 'n']
    ||| l == seq!['x', 'm', 'l']
    ||| l == seq!['h', 't', 'm', 'l']
    ||| l == seq!['h', 't', 'm']
    ||| l == seq!['c', 's', 's']
    ||| l == seq!['s', 'v', 'g']
}

/// Source code.
pub open spec fn is_code_ext(l: Seq<char>) -> bool {
    ||| l == seq!['c']
    ||| l == seq!['h']
    ||| l == seq!['c', 'p', 'p']
    ||| l == seq!['h', 'p', 'p']
    ||| l == seq!['c', 'c']
    ||| l == seq!['r', 's']
    ||| l == seq!['p', 'y']
    ||| l == seq!['j', 's']
    ||| l == seq!['t', 's']
    ||| l == seq!['j', 'a', 'v', 'a']
    ||| l == seq!['c', 's']
    ||| l == seq!['g', 'o']
    ||| l == seq!['r', 'b']
    ||| l == seq!['s', 'h']
    ||| l == seq!['p', 's', '1']
    ||| l == seq!['l', 'u', 'a']
}

/// Which group an extension sorts in, whatever its ASCII case: plain text
/// first (0), then markup and data (1), then source code (2); any other
/// extension after those (5), and no extension at all last (9). Lowering the
/// case of an extension never changes its group.
pub proof fn lemma_extension_groups(ext: Seq<char>)
    ensures
        ({
            let l = lower_ascii(ext);
            &&& (l == seq!['t', 'x', 't'] || l == seq!['m', 'd'] || l == seq!['c', 's', 'v'] || l
                == seq!['l', 'o', 'g'] || l == seq!['i', 'n', 'i'] || l == seq!['c', 'f', 'g'] || l
                == seq!['c', 'o', 'n', 'f'] || l == seq!['t', 'o', 'm', 'l'] || l == seq![
                'y',
                'a',
                'm',
                'l',
            ] || l == seq!['y', 'm', 'l']) ==> category_of(ext) == 0
            &&& (l == seq!['j', 's', 'o', 'n'] || l == seq!['x', 'm', 'l'] || l == seq![
                'h',
                't',
                'm',
                'l',
            ] || l == seq!['h', 't', 'm'] || l == seq!['c', 's', 's'] || l == seq!['s', 'v', 'g'])
                ==> category_of(ext) == 1
            &&& (l == seq!['c'] || l == seq!['h'] || l == seq!['c', 'p', 'p'] || l == seq![
                'h',
                'p',
                'p',
            ] || l == seq!['c', 'c'] || l == seq!['r', 's'] || l == seq!['p', 'y'] || l == seq![
                'j',
                's',
            ] || l == seq!['t', 's'] || l == seq!['j', 'a', 'v', 'a'] || l == seq!['c', 's'] || l
                == seq!['g', 'o'] || l == seq!['r', 'b'] || l == seq!['s', 'h'] || l == seq![
                'p',
                's',
                '1',
            ] || l == seq!['l', 'u', 'a']) ==> category_of(ext) == 2
            &&& ext.len() == 0 ==> category_of(ext) == 9
            &&& ext.len() > 0 ==> category_of(ext) != 9
            &&& category_of(ext) == 0 || category_of(ext) == 1 || category_of(ext) == 2
                || category_of(ext) == 5 || category_of(ext) == 9
            &&& category_of(lower_ascii(ext)) == category_of(ext)
        }),
{
    assert(lower_ascii(ext).len() == ext.len());
    assert forall|i: int| 0 <= i < ext.len() implies #[trigger] crate::text::lower_char(crate::text::lower_char(ext[i]))
        == crate::text::lower_char(ext[i]) by {
        let c = ext[i];
        if 'A' <= c <= 'Z' {
            assert((c as u32) + 32 >= 'a' as u32);
        }
    }
    assert(lower_ascii(lower_ascii(ext)) =~= lower_ascii(ext));
}

/// The category of an extension, compared without regard to ASCII case:
/// text 0, markup 1, code 2, any other extension 5, none at all 9.
pub open spec fn category_of(ext: Seq<char>) -> u8 {
    let l = lower_ascii(ext);
    if is_text_ext(l) {
        0
    } else if is_markup_ext(l) {
        1
    } else if is_code_ext(l) {
        2
    } else if l.len() == 0 {
        9
    } else {
        5
    }
}

fn text_ext(l: &[char]) -> (r: bool)
    ensures
        r == is_text_ext(l@),
{
    chars_eq(l, &['t', 'x', 't']) || chars_eq(l, &['m', 'd']) || chars_eq(l, &['c', 's', 'v'])
        || chars_eq(l, &['l', 'o', 'g']) || chars_eq(l, &['i', 'n', 'i']) || chars_eq(
        l,
        &['c', 'f', 'g'],
    ) || chars_eq(l, &['c', 'o', 'n', 'f']) || chars_eq(l, &['t', 'o', 'm', 'l']) || chars_eq(
        l,
        &['y', 'a', 'm', 'l'],
    ) || chars_eq(l, &['y', 'm', 'l'])
}

fn markup_ext(l: &[char]) -> (r: bool)
    ensures
        r == is_markup_ext(l@),
{
    chars_eq(l, &['j', 's', 'o', 'n']) || chars_eq(l, &['x', 'm', 'l']) || chars_eq(
        l,
        &['h', 't', 'm', 'l'],
    ) || chars_eq(l, &['h', 't', 'm']) || chars_eq(l, &['c', 's', 's']) || chars_eq(
        l,
        &['s', 'v', 'g'],
    )
}

fn code_ext(l: &[char]) -> (r: bool)
    ensures
        r == is_code_ext(l@),
{
    let single = l.len() == 1 && (l[0] == 'c' || l[0] == 'h');
    proof {
        if l@.len() == 1 {
            assert(l@ == seq!['c'] <==> l@[0] == 'c') by {
                if l@[0] == 'c' {
                    assert(l@ =~= seq!['c']);
                }
            }
            assert(l@ == seq!['h'] <==> l@[0] == 'h') by {
                if l@[0] == 'h' {
                    assert(l@ =~= seq!['h']);
                }
            }
        }
    }
    let a = single || chars_eq(l, &['c', 'p', 'p'])
        || chars_eq(l, &['h', 'p', 'p']) || chars_eq(l, &['c', 'c']) || chars_eq(l, &['r', 's'])
        || chars_eq(l, &['p', 'y']) || chars_eq(l, &['j', 's']);
    let b = chars_eq(l, &['t', 's']) || chars_eq(l, &['j', 'a', 'v', 'a']) || chars_eq(
        l,
        &['c', 's'],
    ) || chars_eq(l, &['g', 'o']) || chars_eq(l, &['r', 'b']) || chars_eq(l, &['s', 'h'])
        || chars_eq(l, &['p', 's', '1']) || chars_eq(l, &['l', 'u', 'a']);
    a || b
}

/// Extension-based category; lower sorts first. Plain-text formats that
/// compress well together come first; extensionless blobs come last.
pub fn extension_category(ext: &str) -> (c: u8)
    ensures
        c == category_of(ext@),
{
    let lower = ascii_lowercase(ext);
    let l = chars_of(lower.as_str());
    if text_ext(l.as_slice()) {
        0
    } else if markup_ext(l.as_slice()) {
        1
    } else if code_ext(l.as_slice()) {
        2
    } else if l.len() == 0 {
        9
    } else {
        5
    }
}

/// Ordering key for one blob: `(category, lower-cased extension, size)`.
/// Grouping by category, then extension, then smallest first keeps small
/// text-like files contiguous.
pub fn sort_key(ext: &str, size: u64) -> (k: (u8, String, u64))
    ensures
        k.0 == category_of(ext@),
        k.1@ == lower_ascii(ext@),
        k.2 == size,
{
    (extension_category(ext), ascii_lowercase(ext), size)
}


/// `a` comes before `b` in code-point order (for UTF-8 text, the same as
/// comparing the bytes): at the first difference, or by being a prefix.
pub open spec fn chars_lt(a: Seq<char>, b: Seq<char>) -> bool
    decreases a.len(),
{
    if a.len() == 0 {
        b.len() > 0
    } else if b.len() == 0 {
        false
    } else if a[0] != b[0] {
        a[0] < b[0]
    } else {
        chars_lt(a.drop_first(), b.drop_first())
    }
}

pub proof fn lemma_chars_lt_irreflexive(a: Seq<char>)
    ensures
        !chars_lt(a, a),
    decreases a.len(),
{
    if a.len() > 0 {
        lemma_chars_lt_irreflexive(a.drop_first());
    }
}

proof fn lemma_chars_lt_transitive(a: Seq<char>, b: Seq<char>, c: Seq<char>)
    requires
        chars_lt(a, b),
        chars_lt(b, c),
    ensures
        chars_lt(a, c),
    decreases a.len(),
{
    if a.len() > 0 && b.len() > 0 && c.len() > 0 {
        if a[0] == b[0] && b[0] == c[0] {
            lemma_chars_lt_transitive(a.drop_first(), b.drop_first(), c.drop_first());
        }
    }
}

proof fn lemma_chars_lt_total(a: Seq<char>, b: Seq<char>)
    ensures
        a == b || chars_lt(a, b) || chars_lt(b, a),
    decreases a.len(),
{
    if a.len() > 0 && b.len() > 0 {
        if a[0] == b[0] {
            lemma_chars_lt_total(a.drop_first(), b.drop_first());
            if a.drop_first() == b.drop_first() {
                assert(a =~= seq![a[0]] + a.drop_first());
                assert(b =~= seq![b[0]] + b.drop_first());
            }
        }
    } else if a.len() == 0 && b.len() == 0 {
        assert(a =~= b);
    }
}

/// What a blob is ordered by within its section.
pub struct SortKey {
    pub category: u8,
    pub ext: Vec<char>,
    pub size: u64,
}

/// Blob `a` comes before blob `b`: by category, then extension, then size,
/// then by index (which keeps equal keys in their original order).
pub open spec fn blob_before(keys: Seq<SortKey>, a: usize, b: usize) -> bool {
    let x = keys[a as int];
    let y = keys[b as int];
    ||| x.category < y.category
    ||| x.category == y.category && chars_lt(x.ext@, y.ext@)
    ||| x.category == y.category && x.ext@ == y.ext@ && x.size < y.size
    ||| x.category == y.category && x.ext@ == y.ext@ && x.size == y.size && a < b
}

proof fn lemma_blob_before_order(keys: Seq<SortKey>)
    ensures
        forall|a: usize| !#[trigger] blob_before(keys, a, a),
        forall|a: usize, b: usize, c: usize|
            #[trigger] blob_before(keys, a, b) && #[trigger] blob_before(keys, b, c) ==> blob_before(
                keys,
                a,
                c,
            ),
        forall|a: usize, b: usize|
            a != b ==> #[trigger] blob_before(keys, a, b) || #[trigger] blob_before(keys, b, a),
{
    assert forall|a: usize| !#[trigger] blob_before(keys, a, a) by {
        lemma_chars_lt_irreflexive(keys[a as int].ext@);
    }
    assert forall|a: usize, b: usize, c: usize|
        #[trigger] blob_before(keys, a, b) && #[trigger] blob_before(keys, b, c) implies blob_before(
        keys,
        a,
        c,
    ) by {
        let (x, y, z) = (keys[a as int].ext@, keys[b as int].ext@, keys[c as int].ext@);
        if chars_lt(x, y) && chars_lt(y, z) {
            lemma_chars_lt_transitive(x, y, z);
        }
    }
    assert forall|a: usize, b: usize|
        a != b implies #[trigger] blob_before(keys, a, b) || #[trigger] blob_before(keys, b, a) by {
        lemma_chars_lt_total(keys[a as int].ext@, keys[b as int].ext@);
    }
}

fn chars_less(a: &Vec<char>, b: &Vec<char>) -> (r: bool)
    ensures
        r == chars_lt(a@, b@),
{
    let mut i: usize = 0;
    assert(a@.subrange(0, a@.len() as int) =~= a@);
    assert(b@.subrange(0, b@.len() as int) =~= b@);
    assert(a@.subrange(0, 0) =~= b@.subrange(0, 0));
    while i < a.len() && i < b.len()
        invariant
            i <= a@.len(),
            i <= b@.len(),
            a@.subrange(0, i as int) == b@.subrange(0, i as int),
            chars_lt(a@, b@) == chars_lt(a@.subrange(i as int, a@.len() as int), b@.subrange(i as int, b@.len() as int)),
        decreases a@.len() - i,
    {
        let ghost sa = a@.subrange(i as int, a@.len() as int);
        let ghost sb = b@.subrange(i as int, b@.len() as int);
        if a[i] != b[i] {
            proof {
                assert(sa[0] == a@[i as int]);
                assert(sb[0] == b@[i as int]);
            }
            return a[i] < b[i];
        }
        proof {
            assert(sa.drop_first() =~= a@.subrange(i + 1, a@.len() as int));
            assert(sb.drop_first() =~= b@.subrange(i + 1, b@.len() as int));
            assert(a@.subrange(0, i + 1) =~= a@.subrange(0, i as int).push(a@[i as int]));
            assert(b@.subrange(0, i + 1) =~= b@.subrange(0, i as int).push(b@[i as int]));
        }
        i += 1;
    }
    i < b.len()
}

/// Whether blob `a` comes before blob `b`.
fn before(keys: &Vec<SortKey>, a: usize, b: usize) -> (r: bool)
    requires
        a < keys@.len(),
        b < keys@.len(),
    ensures
        r == blob_before(keys@, a, b),
{
    let x = &keys[a];
    let y = &keys[b];
    if x.category != y.category {
        return x.category < y.category;
    }
    if chars_less(&x.ext, &y.ext) {
        return true;
    }
    if chars_less(&y.ext, &x.ext) {
        return false;
    }
    proof {
        lemma_chars_lt_total(x.ext@, y.ext@);
    }
    if x.size != y.size {
        return x.size < y.size;
    }
    a < b
}

/// `v` lists blobs in strictly increasing order.
pub open spec fn sorted_by(keys: Seq<SortKey>, v: Seq<usize>) -> bool {
    forall|i: int, j: int| 0 <= i < j < v.len() ==> blob_before(keys, #[trigger] v[i], #[trigger] v[j])
}

pub proof fn lemma_push_contains(s: Seq<usize>, x: usize, y: usize)
    ensures
        s.push(x).contains(y) <==> s.contains(y) || y == x,
{
    if s.contains(y) {
        let k = choose|k: int| 0 <= k < s.len() && s[k] == y;
        assert(s.push(x)[k] == y);
    }
    if y == x {
        assert(s.push(x)[s.len() as int] == y);
    }
    if s.push(x).contains(y) {
        let k = choose|k: int| 0 <= k < s.push(x).len() && s.push(x)[k] == y;
        if k < s.len() {
            assert(s[k] == y);
        }
    }
}

fn merge(keys: &Vec<SortKey>, left: Vec<usize>, right: Vec<usize>) -> (out: Vec<usize>)
    requires
        forall|i: int| 0 <= i < left@.len() ==> (#[trigger] left@[i]) < keys@.len(),
        forall|i: int| 0 <= i < right@.len() ==> (#[trigger] right@[i]) < keys@.len(),
        sorted_by(keys@, left@),
        sorted_by(keys@, right@),
        forall|i: int, j: int|
            0 <= i < left@.len() && 0 <= j < right@.len() ==> #[trigger] left@[i] != #[trigger] right@[j],
    ensures
        out@.len() == left@.len() + right@.len(),
        forall|x: usize| out@.contains(x) <==> left@.contains(x) || right@.contains(x),
        sorted_by(keys@, out@),
{
    proof {
        lemma_blob_before_order(keys@);
    }
    let mut out: Vec<usize> = Vec::new();
    let mut i: usize = 0;
    let mut j: usize = 0;
    while i < left.len() || j < right.len()
        invariant
            forall|a: usize| !#[trigger] blob_before(keys@, a, a),
            forall|a: usize, b: usize, c: usize|
                #[trigger] blob_before(keys@, a, b) && #[trigger] blob_before(keys@, b, c)
                    ==> blob_before(keys@, a, c),
            forall|a: usize, b: usize|
                a != b ==> #[trigger] blob_before(keys@, a, b) || #[trigger] blob_before(keys@, b, a),
            forall|k: int| 0 <= k < left@.len() ==> (#[trigger] left@[k]) < keys@.len(),
            forall|k: int| 0 <= k < right@.len() ==> (#[trigger] right@[k]) < keys@.len(),
            sorted_by(keys@, left@),
            sorted_by(keys@, right@),
            forall|a: int, b: int|
                0 <= a < left@.len() && 0 <= b < right@.len() ==> #[trigger] left@[a] != #[trigger] right@[b],
            i <= left@.len(),
            j <= right@.len(),
            out@.len() == i + j,
            forall|x: usize|
                out@.contains(x) <==> left@.subrange(0, i as int).contains(x) || right@.subrange(
                    0,
                    j as int,
                ).contains(x),
            sorted_by(keys@, out@),
            forall|a: int, b: int|
                0 <= a < out@.len() && i <= b < left@.len() ==> blob_before(keys@, #[trigger] out@[a], #[trigger] left@[b]),
            forall|a: int, b: int|
                0 <= a < out@.len() && j <= b < right@.len() ==> blob_before(keys@, #[trigger] out@[a], #[trigger] right@[b]),
        decreases left@.len() + right@.len() - i - j,
    {
        let take_left = if i >= left.len() {
            false
        } else if j >= right.len() {
            true
        } else {
            before(keys, left[i], right[j])
        };
        let ghost before_out = out@;
        if take_left {
            let x = left[i];
            proof {
                if j < right@.len() {
                    assert(left@[i as int] != right@[j as int]);
                }
                assert forall|b: int| j <= b < right@.len() implies blob_before(keys@, x, #[trigger] right@[b]) by {
                    if b > j {
                        assert(blob_before(keys@, right@[j as int], right@[b]));
                    }
                }
            }
            out.push(x);
            proof {
                assert(left@.subrange(0, i + 1) =~= left@.subrange(0, i as int).push(x));
                assert forall|y: usize| out@.contains(y) <==> left@.subrange(0, i + 1).contains(y)
                    || right@.subrange(0, j as int).contains(y) by {
                    lemma_push_contains(before_out, x, y);
                    lemma_push_contains(left@.subrange(0, i as int), x, y);
                }
            }
            i += 1;
        } else {
            let y = right[j];
            proof {
                if i < left@.len() {
                    assert(left@[i as int] != right@[j as int]);
                    assert(blob_before(keys@, y, left@[i as int]));
                }
                assert forall|b: int| i <= b < left@.len() implies blob_before(keys@, y, #[trigger] left@[b]) by {
                    if b > i {
                        assert(blob_before(keys@, left@[i as int], left@[b]));
                    }
                }
            }
            out.push(y);
            proof {
                assert(right@.subrange(0, j + 1) =~= right@.subrange(0, j as int).push(y));
                assert forall|z: usize| out@.contains(z) <==> left@.subrange(0, i as int).contains(z)
                    || right@.subrange(0, j + 1).contains(z) by {
                    lemma_push_contains(before_out, y, z);
                    lemma_push_contains(right@.subrange(0, j as int), y, z);
                }
            }
            j += 1;
        }
    }
    proof {
        assert(left@.subrange(0, left@.len() as int) =~= left@);
        assert(right@.subrange(0, right@.len() as int) =~= right@);
    }
    out
}


/// Sorts distinct blob indices into blob order (`blob_before`): merge sort.
pub fn sort_blobs(keys: &Vec<SortKey>, v: &[usize]) -> (out: Vec<usize>)
    requires
        forall|i: int| 0 <= i < v@.len() ==> (#[trigger] v@[i]) < keys@.len(),
        forall|i: int, j: int| 0 <= i < j < v@.len() ==> #[trigger] v@[i] != #[trigger] v@[j],
    ensures
        out@.len() == v@.len(),
        forall|x: usize| out@.contains(x) <==> v@.contains(x),
        sorted_by(keys@, out@),
    decreases v@.len(),
{
    if v.len() <= 1 {
        let mut out: Vec<usize> = Vec::new();
        if v.len() == 1 {
            out.push(v[0]);
        }
        proof {
            assert(out@ =~= v@);
        }
        return out;
    }
    let mid = v.len() / 2;
    let lv = &v[0..mid];
    let rv = &v[mid..v.len()];
    proof {
        assert(lv@ =~= v@.subrange(0, mid as int));
        assert(rv@ =~= v@.subrange(mid as int, v@.len() as int));
    }
    let left = sort_blobs(keys, lv);
    let right = sort_blobs(keys, rv);
    proof {
        assert forall|i: int| 0 <= i < left@.len() implies (#[trigger] left@[i]) < keys@.len() by {
            assert(left@.contains(left@[i]));
            let k = choose|k: int| 0 <= k < lv@.len() && lv@[k] == left@[i];
        }
        assert forall|i: int| 0 <= i < right@.len() implies (#[trigger] right@[i]) < keys@.len() by {
            assert(right@.contains(right@[i]));
            let k = choose|k: int| 0 <= k < rv@.len() && rv@[k] == right@[i];
        }
        assert forall|i: int, j: int| 0 <= i < left@.len() && 0 <= j < right@.len() implies #[trigger] left@[i]
            != #[trigger] right@[j] by {
            assert(left@.contains(left@[i]));
            assert(right@.contains(right@[j]));
            let a = choose|a: int| 0 <= a < lv@.len() && lv@[a] == left@[i];
            let b = choose|b: int| 0 <= b < rv@.len() && rv@[b] == right@[j];
            assert(v@[a] == lv@[a]);
            assert(v@[mid + b] == rv@[b]);
        }
    }
    let out = merge(keys, left, right);
    proof {
        assert forall|x: usize| out@.contains(x) <==> v@.contains(x) by {
            if v@.contains(x) {
                let k = choose|k: int| 0 <= k < v@.len() && v@[k] == x;
                if k < mid {
                    assert(lv@[k] == x);
                } else {
                    assert(rv@[k - mid] == x);
                }
            }
            if lv@.contains(x) {
                let k = choose|k: int| 0 <= k < lv@.len() && lv@[k] == x;
                assert(v@[k] == x);
            }
            if rv@.contains(x) {
                let k = choose|k: int| 0 <= k < rv@.len() && rv@[k] == x;
                assert(v@[mid + k] == x);
            }
        }
    }
    out
}

} // verus!
