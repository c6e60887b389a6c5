//! In-place ascending merge sort, bottom-up.
//!
//! The sort works in passes. A pass at run width `w` walks the source
//! buffer left to right and merges each adjacent pair of sorted runs
//! of width `w` into one sorted run of width `2w` in the destination
//! buffer; the two buffers then swap roles (ping-pong), so no pass
//! needs a copy-back of its own. When the width reaches the length,
//! the buffer written last holds the sorted sequence; if that is the
//! scratch buffer, one final copy puts the result where the caller
//! looks for it.

use crate::order::Sortable;
use vstd::arithmetic::div_mod::lemma_div_is_ordered;
use vstd::arithmetic::div_mod::lemma_div_by_multiple_is_strongly_ordered;
use vstd::arithmetic::div_mod::lemma_fundamental_div_mod;
use vstd::arithmetic::div_mod::lemma_fundamental_div_mod_converse_div;
use vstd::arithmetic::div_mod::lemma_mod_add_multiples_vanish;
use vstd::arithmetic::div_mod::lemma_mod_multiples_basic;
use vstd::prelude::*;
use vstd::seq_lib::group_to_multiset_ensures;
use vstd::seq_lib::lemma_multiset_commutative;

verus! {

/// The range `[lo, hi)` of `s` is in ascending order.
pub open spec fn sorted_range<T: Sortable>(s: Seq<T>, lo: int, hi: int) -> bool {
    forall|i: int, j: int| lo <= i < j < hi && 0 <= i && j < s.len() ==> #[trigger] s[i].le(s[j])
}

/// The whole of `s` is in ascending order.
pub open spec fn sorted<T: Sortable>(s: Seq<T>) -> bool {
    sorted_range(s, 0, s.len() as int)
}

/// Positions below `end` that fall in the same aligned block of width
/// `w` (same quotient by `w`) are in ascending order.
spec fn runs_sorted_below<T: Sortable>(s: Seq<T>, w: int, end: int) -> bool {
    forall|i: int, j: int| 0 <= i < j < end && j < s.len() && i / w == j / w ==> #[trigger] s[i].le(
        s[j],
    )
}

/// Every aligned block of width `w` is in ascending order: the state
/// of a buffer between two passes.
spec fn runs_sorted<T: Sortable>(s: Seq<T>, w: int) -> bool {
    runs_sorted_below(s, w, s.len() as int)
}

/// The order cannot tell `a` and `b` apart: each may stand no later
/// than the other.
pub open spec fn tied<T: Sortable>(a: T, b: T) -> bool {
    a.le(b) && b.le(a)
}

/// The test for being tied with `k`, as a function on elements.
pub open spec fn tie_pred<T: Sortable>(k: T) -> spec_fn(T) -> bool {
    |e: T| tied(e, k)
}

/// The elements of `s` that are tied with `k`, in their order of
/// appearance in `s`.
pub open spec fn tied_with<T: Sortable>(s: Seq<T>, k: T) -> Seq<T> {
    s.filter(tie_pred(k))
}

/// A sequence none of whose elements passes the test filters to
/// nothing.
proof fn lemma_filter_none<T>(s: Seq<T>, pred: spec_fn(T) -> bool)
    requires
        forall|t: int| 0 <= t < s.len() ==> !pred(#[trigger] s[t]),
    ensures
        s.filter(pred) == Seq::<T>::empty(),
    decreases s.len(),
{
    reveal(Seq::filter);
    if s.len() != 0 {
        lemma_filter_none(s.drop_last(), pred);
    }
    assert(s.filter(pred) =~= Seq::<T>::empty());
}

/// Positions of one aligned block share their quotient by the width.
proof fn lemma_same_block(w: int, base: int, p: int)
    requires
        w >= 1,
        base >= 0,
        base % w == 0,
        base <= p < base + w,
    ensures
        p / w == base / w,
{
    lemma_fundamental_div_mod(base, w);
    assert(w * (base / w) == (base / w) * w) by (nonlinear_arith);
    lemma_fundamental_div_mod_converse_div(p, w, base / w, p - base);
}

/// Positions on either side of an aligned block boundary have
/// distinct quotients by the width.
proof fn lemma_distinct_blocks(w: int, base: int, a: int, b: int)
    requires
        w >= 1,
        0 <= a < base <= b,
        base % w == 0,
    ensures
        a / w != b / w,
{
    lemma_fundamental_div_mod(base, w);
    assert(w * (base / w) == (base / w) * w) by (nonlinear_arith);
    lemma_div_by_multiple_is_strongly_ordered(a, base, base / w, w);
    lemma_div_is_ordered(base, b, w);
}

/// An aligned boundary at a doubled width is aligned at the width.
proof fn lemma_aligned_halves(i: int, w: int)
    requires
        w >= 1,
        i >= 0,
        i % (2 * w) == 0,
    ensures
        i % w == 0,
{
    lemma_fundamental_div_mod(i, 2 * w);
    let q = i / (2 * w);
    assert((2 * w) * q == (2 * q) * w) by (nonlinear_arith);
    lemma_mod_multiples_basic(2 * q, w);
}

/// Copies `src[lo..hi]` into the same positions of `dst`, leaving the
/// rest of `dst` as it was.
fn copy_range<T: Sortable>(src: &Vec<T>, dst: &mut Vec<T>, lo: usize, hi: usize)
    requires
        old(dst).len() == src.len(),
        lo <= hi <= src.len(),
    ensures
        final(dst).len() == src.len(),
        forall|p: int| lo <= p < hi ==> final(dst)@[p] == src@[p],
        forall|p: int| 0 <= p < src.len() && !(lo <= p < hi) ==> final(dst)@[p] == old(dst)@[p],
{
    let mut k = lo;
    while k < hi
        invariant
            lo <= k <= hi <= src.len(),
            dst.len() == src.len(),
            forall|p: int| lo <= p < k ==> dst@[p] == src@[p],
            forall|p: int| 0 <= p < src.len() && !(lo <= p < k) ==> dst@[p] == old(dst)@[p],
        decreases hi - k,
    {
        dst.set(k, src[k]);
        k = k + 1;
    }
}

/// Merges the two adjacent sorted runs `src[lo..mid]` and
/// `src[mid..hi]` into `dst[lo..hi]`, which afterwards holds the same
/// elements in ascending order. On ties the element of the left run
/// is written first, which keeps the sort stable. The rest of `dst`
/// is left as it was.
#[verifier::loop_isolation(false)]
fn merge_runs<T: Sortable>(src: &Vec<T>, dst: &mut Vec<T>, lo: usize, mid: usize, hi: usize)
    requires
        old(dst).len() == src.len(),
        lo <= mid <= hi <= src.len(),
        sorted_range(src@, lo as int, mid as int),
        sorted_range(src@, mid as int, hi as int),
    ensures
        final(dst).len() == src.len(),
        forall|p: int| 0 <= p < src.len() && !(lo <= p < hi) ==> final(dst)@[p] == old(dst)@[p],
        sorted_range(final(dst)@, lo as int, hi as int),
        final(dst)@.subrange(lo as int, hi as int).to_multiset() == src@.subrange(
            lo as int,
            hi as int,
        ).to_multiset(),
        forall|key: T| #[trigger] tied_with(final(dst)@.subrange(lo as int, hi as int), key)
            == tied_with(src@.subrange(lo as int, mid as int), key) + tied_with(
            src@.subrange(mid as int, hi as int),
            key,
        ),
{
    broadcast use group_to_multiset_ensures;

    let mut i = lo;
    let mut j = mid;
    let mut k = lo;
    proof {
        assert forall|key: T| #[trigger] tied_with(dst@.subrange(lo as int, lo as int), key)
            == tied_with(src@.subrange(lo as int, lo as int), key) + tied_with(
            src@.subrange(mid as int, mid as int),
            key,
        ) by {
            lemma_filter_none(dst@.subrange(lo as int, lo as int), tie_pred::<T>(key));
            lemma_filter_none(src@.subrange(lo as int, lo as int), tie_pred::<T>(key));
            lemma_filter_none(src@.subrange(mid as int, mid as int), tie_pred::<T>(key));
            assert(Seq::<T>::empty() + Seq::<T>::empty() =~= Seq::<T>::empty());
        }
    }
    while k < hi
        invariant
            lo <= i <= mid,
            mid <= j <= hi,
            k - lo == (i - lo) + (j - mid),
            dst.len() == src.len(),
            forall|p: int| 0 <= p < src.len() && !(lo <= p < k) ==> dst@[p] == old(dst)@[p],
            sorted_range(dst@, lo as int, k as int),
            i < mid ==> forall|p: int|
                lo <= p < k ==> #[trigger] dst@[p].le(src@[i as int]),
            j < hi ==> forall|p: int|
                lo <= p < k ==> #[trigger] dst@[p].le(src@[j as int]),
            dst@.subrange(lo as int, k as int).to_multiset() == src@.subrange(
                lo as int,
                i as int,
            ).to_multiset().add(src@.subrange(mid as int, j as int).to_multiset()),
            forall|p: int, q: int|
                #![trigger src@[p], src@[q]]
                mid <= p < j && i <= q < mid ==> src@[p].le(src@[q]) && !src@[q].le(src@[p]),
            forall|key: T| #[trigger] tied_with(dst@.subrange(lo as int, k as int), key)
                == tied_with(src@.subrange(lo as int, i as int), key) + tied_with(
                src@.subrange(mid as int, j as int),
                key,
            ),
        decreases hi - k,
    {
        let take_left: bool = if i >= mid {
            false
        } else if j >= hi {
            true
        } else {
            src[i].leq(&src[j])
        };
        let ghost pre = dst@;
        if take_left {
            let e = src[i];
            dst.set(k, e);
            proof {
                assert forall|a: int, b: int|
                    lo <= a < b < k + 1 && 0 <= a && b < dst@.len() implies #[trigger] dst@[a].le(
                    dst@[b],
                ) by {
                    if b < k {
                        assert(pre[a].le(pre[b]));
                    } else {
                        assert(pre[a].le(src@[i as int]));
                    }
                }
                assert forall|p: int| lo <= p < k + 1 && i + 1 < mid implies #[trigger] dst@[p].le(
                    src@[i + 1],
                ) by {
                    assert(src@[i as int].le(src@[i + 1]));
                    if p < k {
                        T::lemma_transitive(dst@[p], src@[i as int], src@[i + 1]);
                    }
                }
                assert forall|p: int| lo <= p < k + 1 && j < hi implies #[trigger] dst@[p].le(
                    src@[j as int],
                ) by {
                    if p < k {
                        assert(pre[p].le(src@[j as int]));
                    }
                }
                assert(dst@.subrange(lo as int, k + 1) =~= pre.subrange(lo as int, k as int).push(
                    e,
                ));
                assert(src@.subrange(lo as int, i + 1) =~= src@.subrange(lo as int, i as int).push(
                    e,
                ));
                assert(dst@.subrange(lo as int, k + 1).to_multiset() =~= src@.subrange(
                    lo as int,
                    i + 1,
                ).to_multiset().add(src@.subrange(mid as int, j as int).to_multiset()));
                assert forall|key: T| #[trigger] tied_with(dst@.subrange(lo as int, k + 1), key)
                    == tied_with(src@.subrange(lo as int, i + 1), key) + tied_with(
                    src@.subrange(mid as int, j as int),
                    key,
                ) by {
                    let pred = tie_pred::<T>(key);
                    let left = src@.subrange(lo as int, i as int);
                    let right = src@.subrange(mid as int, j as int);
                    let done = pre.subrange(lo as int, k as int);
                    assert(tied_with(done, key) == tied_with(left, key) + tied_with(right, key));
                    assert(dst@.subrange(lo as int, k + 1) == done.push(e));
                    assert(src@.subrange(lo as int, i + 1) == left.push(e));
                    done.lemma_filter_push(e, pred);
                    left.lemma_filter_push(e, pred);
                    if pred(e) {
                        assert forall|t: int| 0 <= t < right.len() implies !pred(
                            #[trigger] right[t],
                        ) by {
                            if pred(right[t]) {
                                assert(right[t] == src@[mid + t]);
                                assert(!src@[i as int].le(src@[mid + t]));
                                T::lemma_transitive(e, key, right[t]);
                            }
                        }
                        lemma_filter_none(right, pred);
                        assert(left.filter(pred) + right.filter(pred) =~= left.filter(pred));
                        assert(left.filter(pred).push(e) + right.filter(pred) =~= left.filter(
                            pred,
                        ).push(e));
                    }
                }
            }
            i = i + 1;
        } else {
            let e = src[j];
            dst.set(k, e);
            proof {
                if i < mid {
                    T::lemma_total(src@[i as int], src@[j as int]);
                }
                assert forall|a: int, b: int|
                    lo <= a < b < k + 1 && 0 <= a && b < dst@.len() implies #[trigger] dst@[a].le(
                    dst@[b],
                ) by {
                    if b < k {
                        assert(pre[a].le(pre[b]));
                    } else {
                        assert(pre[a].le(src@[j as int]));
                    }
                }
                assert forall|p: int| lo <= p < k + 1 && i < mid implies #[trigger] dst@[p].le(
                    src@[i as int],
                ) by {
                    if p < k {
                        assert(pre[p].le(src@[i as int]));
                    }
                }
                assert forall|p: int| lo <= p < k + 1 && j + 1 < hi implies #[trigger] dst@[p].le(
                    src@[j + 1],
                ) by {
                    assert(src@[j as int].le(src@[j + 1]));
                    if p < k {
                        T::lemma_transitive(dst@[p], src@[j as int], src@[j + 1]);
                    }
                }
                assert(dst@.subrange(lo as int, k + 1) =~= pre.subrange(lo as int, k as int).push(
                    e,
                ));
                assert(src@.subrange(mid as int, j + 1) =~= src@.subrange(
                    mid as int,
                    j as int,
                ).push(e));
                assert(dst@.subrange(lo as int, k + 1).to_multiset() =~= src@.subrange(
                    lo as int,
                    i as int,
                ).to_multiset().add(src@.subrange(mid as int, j + 1).to_multiset()));
                assert forall|p: int, q: int|
                    #![trigger src@[p], src@[q]]
                    mid <= p < j + 1 && i <= q < mid implies src@[p].le(src@[q]) && !src@[q].le(
                    src@[p],
                ) by {
                    if p == j && i < mid {
                        assert(!src@[i as int].le(src@[j as int]));
                        assert(src@[j as int].le(src@[i as int]));
                        if q > i {
                            assert(src@[i as int].le(src@[q]));
                            T::lemma_transitive(src@[p], src@[i as int], src@[q]);
                            if src@[q].le(src@[p]) {
                                T::lemma_transitive(src@[i as int], src@[q], src@[p]);
                            }
                        }
                    }
                }
                assert forall|key: T| #[trigger] tied_with(dst@.subrange(lo as int, k + 1), key)
                    == tied_with(src@.subrange(lo as int, i as int), key) + tied_with(
                    src@.subrange(mid as int, j + 1),
                    key,
                ) by {
                    let pred = tie_pred::<T>(key);
                    let left = src@.subrange(lo as int, i as int);
                    let right = src@.subrange(mid as int, j as int);
                    let done = pre.subrange(lo as int, k as int);
                    assert(tied_with(done, key) == tied_with(left, key) + tied_with(right, key));
                    assert(dst@.subrange(lo as int, k + 1) == done.push(e));
                    assert(src@.subrange(mid as int, j + 1) == right.push(e));
                    done.lemma_filter_push(e, pred);
                    right.lemma_filter_push(e, pred);
                    if pred(e) {
                        assert(done.filter(pred).push(e) =~= left.filter(pred) + right.filter(
                            pred,
                        ).push(e));
                    }
                }
            }
            j = j + 1;
        }
        k = k + 1;
    }
    proof {
        assert(src@.subrange(lo as int, hi as int) =~= src@.subrange(lo as int, mid as int)
            + src@.subrange(mid as int, hi as int));
        lemma_multiset_commutative(
            src@.subrange(lo as int, mid as int),
            src@.subrange(mid as int, hi as int),
        );
    }
}

/// Runs of width one are single elements, each sorted on its own:
/// the state of the caller's buffer before the first pass.
proof fn lemma_narrow_runs<T: Sortable>(s: Seq<T>)
    ensures
        runs_sorted(s, 1),
{
    assert forall|i: int, j: int| 0 <= i < j < s.len() && i / 1 == j / 1 implies #[trigger] s[i].le(
        s[j],
    ) by {
        assert(i / 1 == i);
        assert(j / 1 == j);
    }
}

/// Once the width reaches the length, the one remaining run is the
/// whole sequence, so the buffer is sorted.
proof fn lemma_wide_runs<T: Sortable>(s: Seq<T>, w: int)
    requires
        w >= 1,
        w >= s.len(),
        runs_sorted(s, w),
    ensures
        sorted(s),
{
    assert forall|i: int, j: int| 0 <= i < j < s.len() implies #[trigger] s[i].le(s[j]) by {
        lemma_same_block(w, 0, i);
        lemma_same_block(w, 0, j);
    }
}

/// One pass: merges each adjacent pair of aligned sorted runs of
/// width `w` from `src` into `dst`, whose aligned runs of width `2w`
/// are then sorted, on the same elements. A lone short run at the
/// right end is copied verbatim; a short right half is merged as it
/// stands.
#[verifier::loop_isolation(false)]
fn do_pass<T: Sortable>(src: &Vec<T>, dst: &mut Vec<T>, w: usize)
    requires
        old(dst).len() == src.len(),
        1 <= w < src.len(),
        runs_sorted(src@, w as int),
    ensures
        final(dst).len() == src.len(),
        runs_sorted(final(dst)@, 2 * (w as int)),
        final(dst)@.to_multiset() == src@.to_multiset(),
        forall|key: T| #[trigger] tied_with(final(dst)@, key) == tied_with(src@, key),
{
    let n = src.len();
    let ghost ww = w as int;
    let ghost big = 2 * ww;
    let mut i: usize = 0;
    proof {
        assert(dst@.subrange(0, 0) =~= src@.subrange(0, 0));
    }
    while i < n
        invariant
            dst.len() == n,
            i <= n,
            i == n || (i as int) % big == 0,
            runs_sorted_below(dst@, big, i as int),
            dst@.subrange(0, i as int).to_multiset() == src@.subrange(0, i as int).to_multiset(),
            forall|key: T| #[trigger] tied_with(dst@.subrange(0, i as int), key) == tied_with(
                src@.subrange(0, i as int),
                key,
            ),
        decreases n - i,
    {
        proof {
            lemma_aligned_halves(i as int, ww);
        }
        let ghost dpre = dst@;
        let rem = n - i;
        let hi: usize;
        if rem <= w {
            copy_range(src, dst, i, n);
            hi = n;
            proof {
                assert forall|a: int, b: int|
                    i <= a < b < n implies #[trigger] dst@[a].le(dst@[b]) by {
                    lemma_same_block(ww, i as int, a);
                    lemma_same_block(ww, i as int, b);
                    assert(src@[a].le(src@[b]));
                }
                assert(sorted_range(dst@, i as int, hi as int));
                assert(dst@.subrange(i as int, hi as int) =~= src@.subrange(i as int, hi as int));
                assert forall|key: T| #[trigger] tied_with(dst@.subrange(i as int, hi as int), key)
                    == tied_with(src@.subrange(i as int, hi as int), key) by {
                }
            }
        } else {
            let mid = i + w;
            hi = if rem - w <= w {
                n
            } else {
                mid + w
            };
            proof {
                assert forall|a: int, b: int|
                    i <= a < b < mid implies #[trigger] src@[a].le(src@[b]) by {
                    lemma_same_block(ww, i as int, a);
                    lemma_same_block(ww, i as int, b);
                }
                assert(sorted_range(src@, i as int, mid as int));
                lemma_mod_add_multiples_vanish(i as int, ww);
                assert forall|a: int, b: int|
                    mid <= a < b < hi implies #[trigger] src@[a].le(src@[b]) by {
                    lemma_same_block(ww, mid as int, a);
                    lemma_same_block(ww, mid as int, b);
                }
                assert(sorted_range(src@, mid as int, hi as int));
            }
            merge_runs(src, dst, i, mid, hi);
            proof {
                assert forall|key: T| #[trigger] tied_with(dst@.subrange(i as int, hi as int), key)
                    == tied_with(src@.subrange(i as int, hi as int), key) by {
                    let pred = tie_pred::<T>(key);
                    assert(tied_with(dst@.subrange(i as int, hi as int), key) == tied_with(
                        src@.subrange(i as int, mid as int),
                        key,
                    ) + tied_with(src@.subrange(mid as int, hi as int), key));
                    assert(src@.subrange(i as int, hi as int) =~= src@.subrange(i as int, mid as int)
                        + src@.subrange(mid as int, hi as int));
                    Seq::<T>::filter_distributes_over_add(
                        src@.subrange(i as int, mid as int),
                        src@.subrange(mid as int, hi as int),
                        pred,
                    );
                }
            }
        }
        proof {
            assert forall|a: int, b: int|
                0 <= a < b < hi && b < n && a / big == b / big implies #[trigger] dst@[a].le(
                dst@[b],
            ) by {
                if b < i as int {
                    assert(dst@[a] == dpre[a]);
                    assert(dst@[b] == dpre[b]);
                    assert(dpre[a].le(dpre[b]));
                } else if a >= i as int {
                    assert(sorted_range(dst@, i as int, hi as int));
                } else {
                    lemma_distinct_blocks(big, i as int, a, b);
                }
            }
            assert(dst@.subrange(0, i as int) =~= dpre.subrange(0, i as int));
            assert(dst@.subrange(0, hi as int) =~= dst@.subrange(0, i as int) + dst@.subrange(
                i as int,
                hi as int,
            ));
            assert(src@.subrange(0, hi as int) =~= src@.subrange(0, i as int) + src@.subrange(
                i as int,
                hi as int,
            ));
            lemma_multiset_commutative(
                dst@.subrange(0, i as int),
                dst@.subrange(i as int, hi as int),
            );
            lemma_multiset_commutative(
                src@.subrange(0, i as int),
                src@.subrange(i as int, hi as int),
            );
            assert forall|key: T| #[trigger] tied_with(dst@.subrange(0, hi as int), key)
                == tied_with(src@.subrange(0, hi as int), key) by {
                let pred = tie_pred::<T>(key);
                assert(tied_with(dst@.subrange(i as int, hi as int), key) == tied_with(
                    src@.subrange(i as int, hi as int),
                    key,
                ));
                assert(tied_with(dpre.subrange(0, i as int), key) == tied_with(
                    src@.subrange(0, i as int),
                    key,
                ));
                Seq::<T>::filter_distributes_over_add(
                    dst@.subrange(0, i as int),
                    dst@.subrange(i as int, hi as int),
                    pred,
                );
                Seq::<T>::filter_distributes_over_add(
                    src@.subrange(0, i as int),
                    src@.subrange(i as int, hi as int),
                    pred,
                );
            }
            if hi < n {
                lemma_mod_add_multiples_vanish(i as int, big);
            }
        }
        i = hi;
    }
    proof {
        assert(dst@.subrange(0, n as int) =~= dst@);
        assert(src@.subrange(0, n as int) =~= src@);
        assert forall|key: T| #[trigger] tied_with(dst@, key) == tied_with(src@, key) by {
            assert(tied_with(dst@.subrange(0, n as int), key) == tied_with(
                src@.subrange(0, n as int),
                key,
            ));
        }
    }
}

/// Sorts the sequence in place into ascending order.
///
/// The result is sorted and holds exactly the elements it started
/// with; a sequence of at most one element is returned unchanged. The
/// sort is stable: for every element `key`, the elements tied with
/// `key` keep their original left-to-right order.
#[verifier::loop_isolation(false)]
pub fn merge_sort<T: Sortable>(x: &mut Vec<T>)
    ensures
        sorted(final(x)@),
        final(x)@.to_multiset() == old(x)@.to_multiset(),
        final(x)@.len() == old(x)@.len(),
        old(x)@.len() <= 1 ==> final(x)@ == old(x)@,
        forall|key: T| #[trigger] tied_with(final(x)@, key) == tied_with(old(x)@, key),
{
    let n = x.len();
    if n <= 1 {
        return;
    }
    let mut scratch: Vec<T> = Vec::new();
    let mut t: usize = 0;
    while t < n
        invariant
            t <= n,
            scratch.len() == t,
            x@ == old(x)@,
        decreases n - t,
    {
        scratch.push(x[t]);
        t = t + 1;
    }
    proof {
        lemma_narrow_runs(x@);
    }
    let mut w: usize = 1;
    while w < n
        invariant
            n == x.len(),
            scratch.len() == n,
            1 <= w,
            runs_sorted(x@, w as int),
            x@.to_multiset() == old(x)@.to_multiset(),
            forall|key: T| #[trigger] tied_with(x@, key) == tied_with(old(x)@, key),
        decreases n - w,
    {
        do_pass(x, &mut scratch, w);
        let ghost xmid = x@;
        if n - w <= w {
            copy_range(&scratch, x, 0, n);
            proof {
                assert(x@ =~= scratch@);
                lemma_wide_runs(scratch@, 2 * (w as int));
                assert forall|key: T| #[trigger] tied_with(x@, key) == tied_with(old(x)@, key) by {
                    assert(tied_with(scratch@, key) == tied_with(xmid, key));
                    assert(tied_with(xmid, key) == tied_with(old(x)@, key));
                }
            }
            return;
        }
        let w2 = w + w;
        do_pass(&scratch, x, w2);
        proof {
            assert forall|key: T| #[trigger] tied_with(x@, key) == tied_with(old(x)@, key) by {
                assert(tied_with(x@, key) == tied_with(scratch@, key));
                assert(tied_with(scratch@, key) == tied_with(xmid, key));
                assert(tied_with(xmid, key) == tied_with(old(x)@, key));
            }
        }
        if n - w2 <= w2 {
            proof {
                lemma_wide_runs(x@, 2 * (w2 as int));
            }
            return;
        }
        w = w2 + w2;
    }
    proof {
        lemma_wide_runs(x@, w as int);
    }
}

/// A multiset has exactly one sorted arrangement when the order tells
/// any two distinct elements apart (antisymmetry): two sorted
/// sequences holding the same elements are equal. With `merge_sort`'s
/// contract this makes the sort idempotent — sorting an
/// already-sorted sequence leaves it unchanged.
pub proof fn lemma_sorted_arrangement_unique<T: Sortable>(a: Seq<T>, b: Seq<T>)
    requires
        sorted(a),
        sorted(b),
        a.to_multiset() == b.to_multiset(),
        forall|p: T, q: T| #[trigger] p.le(q) && #[trigger] q.le(p) ==> p == q,
    ensures
        a == b,
{
    let leq = |p: T, q: T| p.le(q);
    assert(vstd::relations::reflexive(leq)) by {
        assert forall|p: T| #[trigger] leq(p, p) by {
            T::lemma_total(p, p);
        }
    }
    assert(vstd::relations::antisymmetric(leq)) by {
        assert forall|p: T, q: T| #[trigger] leq(p, q) && #[trigger] leq(q, p) implies p == q by {
            assert(p.le(q) && q.le(p));
        }
    }
    assert(vstd::relations::transitive(leq)) by {
        assert forall|p: T, q: T, r: T| #[trigger] leq(p, q) && #[trigger] leq(q, r) implies leq(
            p,
            r,
        ) by {
            T::lemma_transitive(p, q, r);
        }
    }
    assert(vstd::relations::strongly_connected(leq)) by {
        assert forall|p: T, q: T| #[trigger] leq(p, q) || #[trigger] leq(q, p) by {
            T::lemma_total(p, q);
        }
    }
    assert(vstd::relations::sorted_by(a, leq));
    assert(vstd::relations::sorted_by(b, leq));
    vstd::seq_lib::lemma_sorted_unique(a, b, leq);
    assert(a =~= b);
}

/// A stable sort's result is fully determined even when the order
/// cannot tell some elements apart: two sorted sequences that hold
/// the same elements, with the elements tied with every `key` in the
/// same order, are equal. With `merge_sort`'s contract, sorting an
/// already-sorted sequence therefore leaves it unchanged, whatever
/// the element type.
pub proof fn lemma_stable_sorted_arrangement_unique<T: Sortable>(a: Seq<T>, b: Seq<T>)
    requires
        sorted(a),
        sorted(b),
        a.to_multiset() == b.to_multiset(),
        forall|key: T| #[trigger] tied_with(a, key) == tied_with(b, key),
    ensures
        a == b,
    decreases a.len(),
{
    broadcast use group_to_multiset_ensures;

    if a.len() == 0 {
        assert(b.len() == b.to_multiset().len());
        assert(a =~= b);
    } else {
        assert(a.len() == a.to_multiset().len());
        assert(b.len() == b.to_multiset().len());
        let a0 = a[0];
        let b0 = b[0];
        assert(b.contains(b0));
        assert(b.to_multiset().count(b0) > 0);
        assert(a.to_multiset().count(b0) > 0);
        assert(a.contains(b0));
        let ia = choose|t: int| 0 <= t < a.len() && a[t] == b0;
        assert(a.contains(a0));
        assert(a.to_multiset().count(a0) > 0);
        assert(b.to_multiset().count(a0) > 0);
        assert(b.contains(a0));
        let ib = choose|t: int| 0 <= t < b.len() && b[t] == a0;
        T::lemma_total(a0, a0);
        T::lemma_total(b0, b0);
        assert(a0.le(b0)) by {
            if ia > 0 {
                assert(a[0].le(a[ia]));
            }
        }
        assert(b0.le(a0)) by {
            if ib > 0 {
                assert(b[0].le(b[ib]));
            }
        }
        let at = a.drop_first();
        let bt = b.drop_first();
        assert(a =~= seq![a0] + at);
        assert(b =~= seq![b0] + bt);
        assert(a0 == b0) by {
            let pred = tie_pred::<T>(a0);
            at.lemma_filter_prepend(a0, pred);
            bt.lemma_filter_prepend(b0, pred);
            assert(tied_with(a, a0) == tied_with(b, a0));
            assert(tied_with(a, a0)[0] == a0);
            assert(tied_with(b, a0)[0] == b0);
        }
        assert forall|key: T| #[trigger] tied_with(at, key) == tied_with(bt, key) by {
            let pk = tie_pred::<T>(key);
            at.lemma_filter_prepend(a0, pk);
            bt.lemma_filter_prepend(b0, pk);
            assert(tied_with(a, key) == tied_with(b, key));
            if pk(a0) {
                assert(at.filter(pk) =~= (seq![a0] + at.filter(pk)).drop_first());
                assert(bt.filter(pk) =~= (seq![a0] + bt.filter(pk)).drop_first());
            } else {
                assert(Seq::<T>::empty() + at.filter(pk) =~= at.filter(pk));
                assert(Seq::<T>::empty() + bt.filter(pk) =~= bt.filter(pk));
            }
        }
        assert forall|i: int, j: int| 0 <= i < j < at.len() implies #[trigger] at[i].le(at[j]) by {
            assert(a[i + 1].le(a[j + 1]));
        }
        assert(sorted(at));
        assert forall|i: int, j: int| 0 <= i < j < bt.len() implies #[trigger] bt[i].le(bt[j]) by {
            assert(b[i + 1].le(b[j + 1]));
        }
        assert(sorted(bt));
        assert(at =~= a.remove(0));
        assert(bt =~= b.remove(0));
        assert(at.to_multiset() =~= a.to_multiset().remove(a0));
        assert(bt.to_multiset() =~= b.to_multiset().remove(b0));
        lemma_stable_sorted_arrangement_unique(at, bt);
        assert(a =~= b);
    }
}

} // verus!
