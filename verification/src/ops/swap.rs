//! The conditional exchange that the compaction, sorting and shuffling
//! routines are built from.

use vstd::prelude::*;
use vstd::seq_lib::to_multiset_build;
use crate::ops::select::ObliviousSelect;

verus! {

/// Exchanges `a` and `b` when `cond` holds and leaves both as they are
/// otherwise. The exchange is two selections: the same operations are made
/// whatever `cond` and the operands are.
pub fn swap<T: ObliviousSelect>(cond: bool, a: &mut T, b: &mut T)
    ensures
        *final(a) == if cond { *old(b) } else { *old(a) },
        *final(b) == if cond { *old(a) } else { *old(b) },
{
    let tmp = *a;
    *a = T::oselect(cond, *b, *a);
    *b = T::oselect(cond, tmp, *b);
}

/// A layer of exchanges between two blocks keeps the elements of the two
/// blocks taken together: if at every position `x` and `y` hold what `l` and
/// `r` held there, either way round, then `x` and `y` together hold what `l`
/// and `r` held together.
pub proof fn lemma_layer_keeps_elements<T>(l: Seq<T>, r: Seq<T>, x: Seq<T>, y: Seq<T>)
    requires
        l.len() == r.len(),
        x.len() == l.len(),
        y.len() == l.len(),
        forall|i: int|
            0 <= i < l.len() ==> (x[i] == l[i] && y[i] == r[i]) || (x[i] == r[i] && y[i] == l[i]),
    ensures
        x.to_multiset().add(y.to_multiset()) == l.to_multiset().add(r.to_multiset()),
    decreases l.len(),
{
    broadcast use vstd::multiset::group_multiset_axioms;

    if l.len() == 0 {
        assert(x =~= l);
        assert(y =~= r);
    } else {
        let l0 = l.drop_last();
        let r0 = r.drop_last();
        let x0 = x.drop_last();
        let y0 = y.drop_last();
        lemma_layer_keeps_elements(l0, r0, x0, y0);
        assert(x =~= x0.push(x.last()));
        assert(y =~= y0.push(y.last()));
        assert(l =~= l0.push(l.last()));
        assert(r =~= r0.push(r.last()));
        to_multiset_build(x0, x.last());
        to_multiset_build(y0, y.last());
        to_multiset_build(l0, l.last());
        to_multiset_build(r0, r.last());
        let i = l.len() - 1;
        assert(x.last() == x[i] && y.last() == y[i]);
        assert forall|v: T|
            x.to_multiset().add(y.to_multiset()).count(v) == l.to_multiset().add(
                r.to_multiset(),
            ).count(v) by {
            assert(x0.to_multiset().add(y0.to_multiset()).count(v) == l0.to_multiset().add(
                r0.to_multiset(),
            ).count(v));
        }
        assert(x.to_multiset().add(y.to_multiset()) =~= l.to_multiset().add(r.to_multiset()));
    }
}

} // verus!
