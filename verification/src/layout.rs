//! Byte layout of sequences of fixed-size records.

use vstd::prelude::*;

verus! {

/// The records of `s`, each encoded by `f`, one after another.
pub open spec fn flat<T>(s: Seq<T>, f: spec_fn(T) -> Seq<u8>) -> Seq<u8>
    decreases s.len(),
{
    if s.len() == 0 {
        Seq::empty()
    } else {
        flat(s.drop_last(), f) + f(s.last())
    }
}

/// Byte strings one after another.
pub open spec fn concat(contents: Seq<Seq<u8>>) -> Seq<u8> {
    flat(contents, |c: Seq<u8>| c)
}

pub proof fn lemma_flat_push<T>(s: Seq<T>, x: T, f: spec_fn(T) -> Seq<u8>)
    ensures
        flat(s.push(x), f) == flat(s, f) + f(x),
{
    assert(s.push(x).drop_last() =~= s);
}

proof fn lemma_mul_step(i: int, n: int, k: int)
    requires
        0 <= i < n,
        k >= 0,
    ensures
        i * k + k <= n * k,
        (n - 1) * k + k == n * k,
        0 <= i * k,
{
    assert(i * k + k <= n * k) by (nonlinear_arith)
        requires
            0 <= i < n,
            k >= 0,
    ;
    assert((n - 1) * k + k == n * k) by (nonlinear_arith);
    assert(0 <= i * k) by (nonlinear_arith)
        requires
            0 <= i,
            k >= 0,
    ;
}

/// When every record has `k` bytes, record `i` sits at `i * k`.
pub proof fn lemma_flat_fixed<T>(s: Seq<T>, f: spec_fn(T) -> Seq<u8>, k: int)
    requires
        k >= 0,
        forall|x: T| #[trigger] f(x).len() == k,
    ensures
        flat(s, f).len() == s.len() * k,
        forall|i: int|
            0 <= i < s.len() ==> #[trigger] flat(s, f).subrange(i * k, i * k + k) == f(s[i]),
    decreases s.len(),
{
    if s.len() > 0 {
        let p = s.drop_last();
        let n = s.len() as int;
        lemma_flat_fixed(p, f, k);
        lemma_mul_step(n - 1, n, k);
        assert forall|i: int| 0 <= i < s.len() implies #[trigger] flat(s, f).subrange(
            i * k,
            i * k + k,
        ) == f(s[i]) by {
            lemma_mul_step(i, n, k);
            if i < n - 1 {
                lemma_mul_step(i, n - 1, k);
                assert(flat(p, f).subrange(i * k, i * k + k) == f(p[i]));
                assert(flat(s, f).subrange(i * k, i * k + k) =~= flat(p, f).subrange(
                    i * k,
                    i * k + k,
                ));
            } else {
                assert(flat(s, f).subrange(i * k, i * k + k) =~= f(s.last()));
            }
        }
    }
}

} // verus!
