//! The bitonic sorting network as functions on sequences, and what holds of
//! its result: it is in order, and it holds the elements that went in.
//!
//! The network compares and exchanges at positions that depend on the length
//! alone. A comparator looks at its two elements through a strict order `lt`
//! and leaves the lower one at the lower position when the direction `up` is
//! set, the higher one when it is not.

use vstd::prelude::*;
use vstd::relations::{sorted_by, total_ordering};
use vstd::seq_lib::{lemma_multiset_commutative, lemma_sorted_unique};
use crate::ops::swap::lemma_layer_keeps_elements;
use crate::order::{strict_total_order, strict_weak_order};
use crate::pow2::{is_pow2, lemma_pow2_double, lemma_pow2_half};
use crate::sort::zero_one::{
    above, bool_less, is_block, lemma_marks_in_order, lemma_merged_bool, lemma_merged_map,
    lemma_sorted_bool, lemma_sorted_map,
};

verus! {

/// `s` is in order: non-decreasing when `up` is set, non-increasing when it
/// is not.
pub open spec fn in_order<T>(s: Seq<T>, up: bool, lt: spec_fn(T, T) -> bool) -> bool {
    forall|i: int, j: int|
        #![trigger s[i], s[j]]
        0 <= i < j < s.len() ==> if up {
            !lt(s[j], s[i])
        } else {
            !lt(s[i], s[j])
        }
}

/// The left block after one pass of comparators between `l` and `r`.
pub open spec fn pass_left<T>(l: Seq<T>, r: Seq<T>, up: bool, lt: spec_fn(T, T) -> bool) -> Seq<T> {
    Seq::new(
        l.len(),
        |i: int|
            if lt(l[i], r[i]) != up {
                r[i]
            } else {
                l[i]
            },
    )
}

/// The right block after one pass of comparators between `l` and `r`.
pub open spec fn pass_right<T>(l: Seq<T>, r: Seq<T>, up: bool, lt: spec_fn(T, T) -> bool) -> Seq<T> {
    Seq::new(
        l.len(),
        |i: int|
            if lt(l[i], r[i]) != up {
                l[i]
            } else {
                r[i]
            },
    )
}

/// The bitonic merge of `s`: one pass between its halves, then the merge of
/// each half.
pub open spec fn merged<T>(s: Seq<T>, up: bool, lt: spec_fn(T, T) -> bool) -> Seq<T>
    decreases s.len(),
{
    let n = s.len() as int;
    if n < 2 {
        s
    } else {
        let l = s.subrange(0, n / 2);
        let r = s.subrange(n / 2, n);
        merged(pass_left(l, r, up, lt), up, lt) + merged(pass_right(l, r, up, lt), up, lt)
    }
}

/// The bitonic sort of `s`: its first half sorted in the direction `up`, its
/// second half against it, and the two merged.
pub open spec fn bitonic_sorted<T>(s: Seq<T>, up: bool, lt: spec_fn(T, T) -> bool) -> Seq<T>
    decreases s.len(),
{
    let n = s.len() as int;
    if n < 2 {
        s
    } else {
        let l = s.subrange(0, n / 2);
        let r = s.subrange(n / 2, n);
        merged(bitonic_sorted(l, up, lt) + bitonic_sorted(r, !up, lt), up, lt)
    }
}

/// One pass keeps the elements of the two blocks taken together.
pub proof fn lemma_pass_keeps_elements<T>(l: Seq<T>, r: Seq<T>, up: bool, lt: spec_fn(T, T) -> bool)
    requires
        l.len() == r.len(),
    ensures
        (pass_left(l, r, up, lt) + pass_right(l, r, up, lt)).to_multiset() == (l + r).to_multiset(),
{
    let x = pass_left(l, r, up, lt);
    let y = pass_right(l, r, up, lt);
    lemma_layer_keeps_elements(l, r, x, y);
    lemma_multiset_commutative(x, y);
    lemma_multiset_commutative(l, r);
}

/// The merge keeps the length and the elements.
pub proof fn lemma_merged_keeps_elements<T>(s: Seq<T>, up: bool, lt: spec_fn(T, T) -> bool)
    requires
        s.len() == 0 || is_pow2(s.len() as int),
    ensures
        merged(s, up, lt).len() == s.len(),
        merged(s, up, lt).to_multiset() == s.to_multiset(),
    decreases s.len(),
{
    let n = s.len() as int;
    if n >= 2 {
        lemma_pow2_half(n);
        let l = s.subrange(0, n / 2);
        let r = s.subrange(n / 2, n);
        let x = pass_left(l, r, up, lt);
        let y = pass_right(l, r, up, lt);
        lemma_merged_keeps_elements(x, up, lt);
        lemma_merged_keeps_elements(y, up, lt);
        lemma_pass_keeps_elements(l, r, up, lt);
        lemma_multiset_commutative(merged(x, up, lt), merged(y, up, lt));
        lemma_multiset_commutative(x, y);
        assert(s =~= l + r);
    }
}

/// The sort keeps the length and the elements.
pub proof fn lemma_sorted_keeps_elements<T>(s: Seq<T>, up: bool, lt: spec_fn(T, T) -> bool)
    requires
        s.len() == 0 || is_pow2(s.len() as int),
    ensures
        bitonic_sorted(s, up, lt).len() == s.len(),
        bitonic_sorted(s, up, lt).to_multiset() == s.to_multiset(),
    decreases s.len(),
{
    let n = s.len() as int;
    if n >= 2 {
        lemma_pow2_half(n);
        let l = s.subrange(0, n / 2);
        let r = s.subrange(n / 2, n);
        lemma_sorted_keeps_elements(l, up, lt);
        lemma_sorted_keeps_elements(r, !up, lt);
        let x = bitonic_sorted(l, up, lt);
        let y = bitonic_sorted(r, !up, lt);
        lemma_merged_keeps_elements(x + y, up, lt);
        lemma_multiset_commutative(x, y);
        lemma_multiset_commutative(l, r);
        assert(s =~= l + r);
    }
}

/// The merge of a block that is in order and a block that is in order
/// against it, of equal lengths that are a power of two, is in order.
pub proof fn lemma_merged_in_order<T>(l: Seq<T>, r: Seq<T>, up: bool, lt: spec_fn(T, T) -> bool)
    requires
        l.len() == r.len(),
        l.len() == 0 || is_pow2(l.len() as int),
        strict_weak_order(lt),
        in_order(l, up, lt),
        in_order(r, !up, lt),
    ensures
        in_order(merged(l + r, up, lt), up, lt),
{
    let s = l + r;
    let h = l.len() as int;
    let out = merged(s, up, lt);
    if h > 0 {
        lemma_pow2_double(h);
        lemma_merged_keeps_elements(s, up, lt);
        assert forall|i: int, j: int|
            #![trigger out[i], out[j]]
            0 <= i < j < out.len() implies if up {
            !lt(out[j], out[i])
        } else {
            !lt(out[i], out[j])
        } by {
            let t = if up {
                out[j]
            } else {
                out[i]
            };
            let f = above(lt, t);
            lemma_merged_map(s, up, lt, t);
            let a = lemma_marks_in_order(l, up, lt, t);
            let b = lemma_marks_in_order(r, !up, lt, t);
            let marks = s.map_values(f);
            assert(marks =~= l.map_values(f) + r.map_values(f));
            assert(is_block(marks, a, h + b, up));
            let k = lemma_merged_bool(marks, a, h + b, up, up);
            let merged_marks = merged(marks, up, bool_less());
            assert(merged_marks == out.map_values(f));
            assert(merged_marks[i] == f(out[i]));
            assert(merged_marks[j] == f(out[j]));
        }
    }
}

/// The bitonic sort of a sequence whose length is a power of two is in
/// order, whatever the sequence holds.
pub proof fn lemma_sorted_in_order<T>(s: Seq<T>, up: bool, lt: spec_fn(T, T) -> bool)
    requires
        s.len() == 0 || is_pow2(s.len() as int),
        strict_weak_order(lt),
    ensures
        in_order(bitonic_sorted(s, up, lt), up, lt),
{
    let out = bitonic_sorted(s, up, lt);
    lemma_sorted_keeps_elements(s, up, lt);
    assert forall|i: int, j: int| #![trigger out[i], out[j]] 0 <= i < j < out.len() implies if up {
        !lt(out[j], out[i])
    } else {
        !lt(out[i], out[j])
    } by {
        let t = if up {
            out[j]
        } else {
            out[i]
        };
        let f = above(lt, t);
        lemma_sorted_map(s, up, lt, t);
        let marks = s.map_values(f);
        let k = lemma_sorted_bool(marks, up);
        let sorted_marks = bitonic_sorted(marks, up, bool_less());
        assert(sorted_marks == out.map_values(f));
        assert(sorted_marks[i] == f(out[i]));
        assert(sorted_marks[j] == f(out[j]));
    }
}

/// The order relation of a direction: `a` may stand before `b` when `b` is
/// not below `a`, sorting up, and when `a` is not below `b`, sorting down.
pub open spec fn direction<T>(lt: spec_fn(T, T) -> bool, up: bool) -> spec_fn(T, T) -> bool {
    |a: T, b: T|
        if up {
            !lt(b, a)
        } else {
            !lt(a, b)
        }
}

/// The order relation of a direction is a total order, and a sequence is in
/// order exactly when it is sorted by it.
pub proof fn lemma_direction<T>(s: Seq<T>, up: bool, lt: spec_fn(T, T) -> bool)
    requires
        strict_total_order(lt),
    ensures
        total_ordering(direction(lt, up)),
        in_order(s, up, lt) <==> sorted_by(s, direction(lt, up)),
{
    let leq = direction(lt, up);
    assert(total_ordering(leq));
    if in_order(s, up, lt) {
        assert(sorted_by(s, leq));
    }
    if sorted_by(s, leq) {
        assert forall|i: int, j: int| #![trigger s[i], s[j]] 0 <= i < j < s.len() implies if up {
            !lt(s[j], s[i])
        } else {
            !lt(s[i], s[j])
        } by {
            assert(leq(s[i], s[j]));
        }
    }
}

/// Under a strict total order, the bitonic sort of a sequence is the one
/// arrangement of its elements that is in order.
pub proof fn lemma_sorted_is_arrangement<T>(s: Seq<T>, up: bool, lt: spec_fn(T, T) -> bool)
    requires
        s.len() == 0 || is_pow2(s.len() as int),
        strict_total_order(lt),
    ensures
        bitonic_sorted(s, up, lt) == s.sort_by(direction(lt, up)),
{
    let out = bitonic_sorted(s, up, lt);
    let leq = direction(lt, up);
    lemma_sorted_in_order(s, up, lt);
    lemma_sorted_keeps_elements(s, up, lt);
    lemma_direction(out, up, lt);
    s.lemma_sort_by_ensures(leq);
    lemma_sorted_unique(out, s.sort_by(leq), leq);
}

/// Sorting a sequence that is in order already, in the same direction,
/// gives the sequence back.
pub proof fn lemma_sorted_is_fixed<T>(s: Seq<T>, up: bool, lt: spec_fn(T, T) -> bool)
    requires
        s.len() == 0 || is_pow2(s.len() as int),
        strict_total_order(lt),
        in_order(s, up, lt),
    ensures
        bitonic_sorted(s, up, lt) == s,
{
    let out = bitonic_sorted(s, up, lt);
    lemma_sorted_in_order(s, up, lt);
    lemma_sorted_keeps_elements(s, up, lt);
    lemma_direction(s, up, lt);
    lemma_direction(out, up, lt);
    lemma_sorted_unique(out, s, direction(lt, up));
}

} // verus!
