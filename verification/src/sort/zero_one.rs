//! The zero-one argument: a comparator network that sorts every sequence of
//! truth values sorts every sequence.
//!
//! A sequence is marked by the values that lie above a threshold. Marking
//! commutes with the network, and on marks the network is followed block by
//! block: a bitonic sequence of marks is one run of equal marks inside a
//! sequence of the opposite mark.

use vstd::prelude::*;
use crate::order::strict_weak_order;
use crate::pow2::{is_pow2, lemma_pow2_half};
use crate::sort::network::{bitonic_sorted, in_order, merged, pass_left, pass_right};

verus! {

/// The strict order of truth values: false is below true.
pub open spec fn bool_less() -> spec_fn(bool, bool) -> bool {
    |a: bool, b: bool| !a && b
}

/// The mark of the values above `t`.
pub open spec fn above<T>(lt: spec_fn(T, T) -> bool, t: T) -> spec_fn(T) -> bool {
    |x: T| lt(t, x)
}

/// `s` holds `v` from `p` up to `q` and the opposite mark elsewhere.
pub open spec fn is_block(s: Seq<bool>, p: int, q: int, v: bool) -> bool {
    &&& 0 <= p <= q <= s.len()
    &&& forall|i: int| 0 <= i < s.len() ==> #[trigger] s[i] == (if p <= i < q { v } else { !v })
}

/// Marking commutes with one pass of comparators.
proof fn lemma_pass_map<T>(l: Seq<T>, r: Seq<T>, up: bool, lt: spec_fn(T, T) -> bool, t: T)
    requires
        l.len() == r.len(),
        strict_weak_order(lt),
    ensures
        pass_left(l, r, up, lt).map_values(above(lt, t)) == pass_left(
            l.map_values(above(lt, t)),
            r.map_values(above(lt, t)),
            up,
            bool_less(),
        ),
        pass_right(l, r, up, lt).map_values(above(lt, t)) == pass_right(
            l.map_values(above(lt, t)),
            r.map_values(above(lt, t)),
            up,
            bool_less(),
        ),
{
    let f = above(lt, t);
    let lb = l.map_values(f);
    let rb = r.map_values(f);
    assert forall|i: int| 0 <= i < l.len() implies pass_left(l, r, up, lt).map_values(f)[i]
        == pass_left(lb, rb, up, bool_less())[i] && pass_right(l, r, up, lt).map_values(f)[i]
        == pass_right(lb, rb, up, bool_less())[i] by {
        let a = l[i];
        let b = r[i];
        assert(lb[i] == lt(t, a));
        assert(rb[i] == lt(t, b));
        if lt(a, b) {
            assert(!lt(b, a));
            // what is above t and not above a is not above b
            if lt(t, a) && !lt(t, b) {
                assert(!lt(t, b) && !lt(b, a));
            }
        } else {
            if lt(t, b) && !lt(t, a) {
                assert(!lt(t, a) && !lt(a, b));
            }
        }
    }
    assert(pass_left(l, r, up, lt).map_values(f) =~= pass_left(lb, rb, up, bool_less()));
    assert(pass_right(l, r, up, lt).map_values(f) =~= pass_right(lb, rb, up, bool_less()));
}

/// Marking commutes with the merge.
pub proof fn lemma_merged_map<T>(s: Seq<T>, up: bool, lt: spec_fn(T, T) -> bool, t: T)
    requires
        s.len() == 0 || is_pow2(s.len() as int),
        strict_weak_order(lt),
    ensures
        merged(s, up, lt).map_values(above(lt, t)) == merged(
            s.map_values(above(lt, t)),
            up,
            bool_less(),
        ),
    decreases s.len(),
{
    let f = above(lt, t);
    let n = s.len() as int;
    if n >= 2 {
        lemma_pow2_half(n);
        let l = s.subrange(0, n / 2);
        let r = s.subrange(n / 2, n);
        let x = pass_left(l, r, up, lt);
        let y = pass_right(l, r, up, lt);
        lemma_pass_map(l, r, up, lt, t);
        lemma_merged_map(x, up, lt, t);
        lemma_merged_map(y, up, lt, t);
        let sb = s.map_values(f);
        assert(sb.subrange(0, n / 2) =~= l.map_values(f));
        assert(sb.subrange(n / 2, n) =~= r.map_values(f));
        assert((merged(x, up, lt) + merged(y, up, lt)).map_values(f) =~= merged(x, up, lt).map_values(
            f,
        ) + merged(y, up, lt).map_values(f));
    }
}

/// Marking commutes with the sort.
pub proof fn lemma_sorted_map<T>(s: Seq<T>, up: bool, lt: spec_fn(T, T) -> bool, t: T)
    requires
        s.len() == 0 || is_pow2(s.len() as int),
        strict_weak_order(lt),
    ensures
        bitonic_sorted(s, up, lt).map_values(above(lt, t)) == bitonic_sorted(
            s.map_values(above(lt, t)),
            up,
            bool_less(),
        ),
    decreases s.len(),
{
    let f = above(lt, t);
    let n = s.len() as int;
    if n >= 2 {
        lemma_pow2_half(n);
        let l = s.subrange(0, n / 2);
        let r = s.subrange(n / 2, n);
        lemma_sorted_map(l, up, lt, t);
        lemma_sorted_map(r, !up, lt, t);
        let x = bitonic_sorted(l, up, lt);
        let y = bitonic_sorted(r, !up, lt);
        crate::sort::network::lemma_sorted_keeps_elements(l, up, lt);
        crate::sort::network::lemma_sorted_keeps_elements(r, !up, lt);
        lemma_merged_map(x + y, up, lt, t);
        let sb = s.map_values(f);
        assert(sb.subrange(0, n / 2) =~= l.map_values(f));
        assert(sb.subrange(n / 2, n) =~= r.map_values(f));
        assert((x + y).map_values(f) =~= x.map_values(f) + y.map_values(f));
    }
}

/// The merge leaves a sequence of equal marks as it is.
proof fn lemma_merged_constant(s: Seq<bool>, c: bool, up: bool)
    requires
        s.len() == 0 || is_pow2(s.len() as int),
        forall|i: int| 0 <= i < s.len() ==> s[i] == c,
    ensures
        merged(s, up, bool_less()) == s,
    decreases s.len(),
{
    let n = s.len() as int;
    if n >= 2 {
        lemma_pow2_half(n);
        let l = s.subrange(0, n / 2);
        let r = s.subrange(n / 2, n);
        assert(pass_left(l, r, up, bool_less()) =~= l);
        assert(pass_right(l, r, up, bool_less()) =~= r);
        lemma_merged_constant(l, c, up);
        lemma_merged_constant(r, c, up);
        assert(s =~= l + r);
    }
}

/// One pass over a block sequence of marks leaves one half with equal marks
/// and the other half a block sequence again. Returns whether the left half
/// is the one with equal marks, and the block of the other half.
proof fn lemma_half_clean(s: Seq<bool>, p: int, q: int, v: bool, up: bool) -> (w: (
    bool,
    int,
    int,
    bool,
))
    requires
        s.len() >= 2,
        s.len() % 2 == 0,
        is_block(s, p, q, v),
    ensures
        ({
            let n = s.len() as int;
            let l = s.subrange(0, n / 2);
            let r = s.subrange(n / 2, n);
            let x = pass_left(l, r, up, bool_less());
            let y = pass_right(l, r, up, bool_less());
            &&& w.0 ==> (forall|i: int| 0 <= i < n / 2 ==> x[i] == !up) && is_block(y, w.1, w.2, w.3)
            &&& !w.0 ==> (forall|i: int| 0 <= i < n / 2 ==> y[i] == up) && is_block(x, w.1, w.2, w.3)
        }),
{
    let n = s.len() as int;
    let h = n / 2;
    let l = s.subrange(0, h);
    let r = s.subrange(h, n);
    let x = pass_left(l, r, up, bool_less());
    let y = pass_right(l, r, up, bool_less());
    assert forall|i: int| 0 <= i < h implies l[i] == s[i] && r[i] == s[i + h] by {}
    // the half that takes the conjunction of the two marks, and the other
    let both = if up { x } else { y };
    let either = if up { y } else { x };
    assert forall|i: int| 0 <= i < h implies both[i] == (s[i] && s[i + h]) && either[i] == (s[i]
        || s[i + h]) by {
        assert(l[i] == s[i] && r[i] == s[i + h]);
    }
    let short = q - p <= h;
    // the block of the half that is not left with equal marks
    let (from, to, mark) = if short {
        if q <= h {
            (p, q, v)
        } else if p >= h {
            (p - h, q - h, v)
        } else {
            (q - h, p, !v)
        }
    } else {
        (p, q - h, v)
    };
    // with a short block of true marks, or a long block of false ones, no
    // position holds two true marks
    let both_clean = (short && v) || (!short && !v);
    if both_clean {
        assert forall|i: int| 0 <= i < h implies both[i] == false by {
            assert(s[i] == (if p <= i < q { v } else { !v }));
            assert(s[i + h] == (if p <= i + h < q { v } else { !v }));
        }
        assert forall|i: int| 0 <= i < h implies #[trigger] either[i] == (if from <= i < to {
            mark
        } else {
            !mark
        }) by {
            assert(s[i] == (if p <= i < q { v } else { !v }));
            assert(s[i + h] == (if p <= i + h < q { v } else { !v }));
        }
        assert(is_block(either, from, to, mark));
    } else {
        assert forall|i: int| 0 <= i < h implies either[i] == true by {
            assert(s[i] == (if p <= i < q { v } else { !v }));
            assert(s[i + h] == (if p <= i + h < q { v } else { !v }));
        }
        assert forall|i: int| 0 <= i < h implies #[trigger] both[i] == (if from <= i < to {
            mark
        } else {
            !mark
        }) by {
            assert(s[i] == (if p <= i < q { v } else { !v }));
            assert(s[i + h] == (if p <= i + h < q { v } else { !v }));
        }
        assert(is_block(both, from, to, mark));
    }
    // the left half holds the conjunctions when sorting up
    (both_clean == up, from, to, mark)
}

/// The merge of a block sequence of marks is in order: the marks equal to
/// `up` stand from the returned position to the end.
pub proof fn lemma_merged_bool(s: Seq<bool>, p: int, q: int, v: bool, up: bool) -> (k: int)
    requires
        is_pow2(s.len() as int),
        is_block(s, p, q, v),
    ensures
        merged(s, up, bool_less()).len() == s.len(),
        is_block(merged(s, up, bool_less()), k, s.len() as int, up),
    decreases s.len(),
{
    let n = s.len() as int;
    let out = merged(s, up, bool_less());
    if n == 1 {
        if s[0] == up {
            0
        } else {
            1
        }
    } else {
        lemma_pow2_half(n);
        let h = n / 2;
        let l = s.subrange(0, h);
        let r = s.subrange(h, n);
        let x = pass_left(l, r, up, bool_less());
        let y = pass_right(l, r, up, bool_less());
        let w = lemma_half_clean(s, p, q, v, up);
        assert(out == merged(x, up, bool_less()) + merged(y, up, bool_less()));
        if w.0 {
            lemma_merged_constant(x, !up, up);
            let k2 = lemma_merged_bool(y, w.1, w.2, w.3, up);
            assert(is_block(out, h + k2, n, up));
            h + k2
        } else {
            lemma_merged_constant(y, up, up);
            let k1 = lemma_merged_bool(x, w.1, w.2, w.3, up);
            assert(is_block(out, k1, n, up));
            k1
        }
    }
}

/// The sort of any sequence of marks is in order: the marks equal to `up`
/// stand from the returned position to the end.
pub proof fn lemma_sorted_bool(s: Seq<bool>, up: bool) -> (k: int)
    requires
        s.len() == 0 || is_pow2(s.len() as int),
    ensures
        bitonic_sorted(s, up, bool_less()).len() == s.len(),
        is_block(bitonic_sorted(s, up, bool_less()), k, s.len() as int, up),
    decreases s.len(),
{
    let n = s.len() as int;
    if n == 0 {
        0
    } else if n == 1 {
        if s[0] == up {
            0
        } else {
            1
        }
    } else {
        lemma_pow2_half(n);
        let h = n / 2;
        let l = s.subrange(0, h);
        let r = s.subrange(h, n);
        let k1 = lemma_sorted_bool(l, up);
        let k2 = lemma_sorted_bool(r, !up);
        let x = bitonic_sorted(l, up, bool_less());
        let y = bitonic_sorted(r, !up, bool_less());
        assert(is_block(x + y, k1, h + k2, up));
        lemma_merged_bool(x + y, k1, h + k2, up, up)
    }
}

/// Marks that stay `v` once they are `v` are a run of the opposite mark and
/// then a run of `v`. Returns where the run of `v` starts.
pub proof fn lemma_monotone_marks(b: Seq<bool>, v: bool) -> (k: int)
    requires
        forall|i: int, j: int| #![trigger b[i], b[j]] 0 <= i < j < b.len() && b[i] == v ==> b[j] == v,
    ensures
        is_block(b, k, b.len() as int, v),
    decreases b.len(),
{
    if b.len() == 0 {
        0
    } else {
        let rest = b.drop_last();
        let n = b.len() as int;
        assert forall|i: int, j: int|
            #![trigger rest[i], rest[j]]
            0 <= i < j < rest.len() && rest[i] == v implies rest[j] == v by {
            assert(b[i] == rest[i] && b[j] == rest[j]);
        }
        let start = lemma_monotone_marks(rest, v);
        assert forall|i: int| 0 <= i < n - 1 implies b[i] == rest[i] by {}
        if b.last() == v {
            start
        } else {
            if start < n - 1 {
                assert(rest[start] == v);
                assert(b[start] == v && b[n - 1] == v);
            }
            n
        }
    }
}

/// The marks of a sequence that is in order are a run of one mark and then a
/// run of the other: the marks that equal the direction come last. Returns
/// where they start.
pub proof fn lemma_marks_in_order<T>(x: Seq<T>, up: bool, lt: spec_fn(T, T) -> bool, t: T) -> (k:
    int)
    requires
        strict_weak_order(lt),
        in_order(x, up, lt),
    ensures
        is_block(x.map_values(above(lt, t)), k, x.len() as int, up),
{
    let marks = x.map_values(above(lt, t));
    assert forall|i: int, j: int|
        #![trigger marks[i], marks[j]]
        0 <= i < j < marks.len() && marks[i] == up implies marks[j] == up by {
        assert(marks[i] == lt(t, x[i]) && marks[j] == lt(t, x[j]));
        if up {
            // x[i] is above t and x[j] is not below x[i]
            assert(!lt(x[j], x[i]));
            if !lt(t, x[j]) {
                assert(!lt(t, x[j]) && !lt(x[j], x[i]));
            }
        } else {
            // x[i] is not above t and x[j] is not above x[i]
            assert(!lt(x[i], x[j]));
            assert(!lt(t, x[i]) && !lt(x[i], x[j]));
        }
    }
    lemma_monotone_marks(marks, up)
}

} // verus!
