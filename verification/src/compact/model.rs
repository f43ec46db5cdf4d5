//! What compaction computes, as functions on sequences, and the proofs that
//! the kept elements come out first, in their original order, and that nothing
//! is lost or duplicated.

use vstd::prelude::*;
use vstd::seq_lib::lemma_multiset_commutative;
use crate::ops::swap::lemma_layer_keeps_elements;
use crate::pow2::{is_pow2, lemma_pow2_floor, lemma_pow2_half, pow2_floor};

verus! {

/// The number of tags that are set.
pub open spec fn count_set(bits: Seq<bool>) -> nat
    decreases bits.len(),
{
    if bits.len() == 0 {
        0
    } else {
        count_set(bits.drop_last()) + if bits.last() {
            1nat
        } else {
            0nat
        }
    }
}

/// The elements of `data` whose tag is set, in their original order.
pub open spec fn kept<T>(data: Seq<T>, bits: Seq<bool>) -> Seq<T>
    decreases data.len(),
{
    if data.len() == 0 {
        Seq::empty()
    } else {
        let rest = kept(data.drop_last(), bits.drop_last());
        if bits.last() {
            rest.push(data.last())
        } else {
            rest
        }
    }
}

/// The tags with each one turned over.
pub open spec fn negated(bits: Seq<bool>) -> Seq<bool> {
    Seq::new(bits.len(), |i: int| !bits[i])
}

/// The elements of `data` whose tag is not set, in their original order.
pub open spec fn dropped<T>(data: Seq<T>, bits: Seq<bool>) -> Seq<T> {
    kept(data, negated(bits))
}

/// One side of a layer of exchanges between two blocks: position `i` holds
/// the element of `second` where `flip != (i >= edge)`, that of `first`
/// elsewhere.
pub open spec fn exchange<T>(first: Seq<T>, second: Seq<T>, flip: bool, edge: int) -> Seq<T> {
    Seq::new(
        first.len(),
        |i: int|
            if flip != (i >= edge) {
                second[i]
            } else {
                first[i]
            },
    )
}

/// `x` taken around a block of length `n`, for `0 <= x < 2 * n`.
pub open spec fn wrap(x: int, n: int) -> int {
    if x >= n {
        x - n
    } else {
        x
    }
}

/// The compaction of a block whose length is a power of two, rotated by
/// `offset`: the kept elements stand consecutively from position `offset`,
/// running around the end of the block.
pub open spec fn off_compacted<T>(data: Seq<T>, bits: Seq<bool>, offset: int) -> Seq<T>
    decreases data.len(),
{
    let n = data.len() as int;
    if n < 2 {
        data
    } else if n == 2 {
        if (!bits[0] && bits[1]) != (offset != 0) {
            seq![data[1], data[0]]
        } else {
            data
        }
    } else {
        let h = n / 2;
        let m = count_set(bits.subrange(0, h)) as int;
        let l = off_compacted(data.subrange(0, h), bits.subrange(0, h), offset % h);
        let r = off_compacted(data.subrange(h, n), bits.subrange(h, n), (offset + m) % h);
        let flip = ((offset % h) + m >= h) != (offset >= h);
        let edge = (offset + m) % h;
        exchange(l, r, flip, edge) + exchange(r, l, flip, edge)
    }
}

/// The compaction of `data` by `bits`: the kept elements first, in their
/// original order; behind them the dropped ones, in the order that the
/// exchanges leave them in.
pub open spec fn compacted<T>(data: Seq<T>, bits: Seq<bool>) -> Seq<T>
    decreases data.len(),
    via compacted_decreases::<T>
{
    let n = data.len() as int;
    if n == 0 {
        data
    } else {
        let n1 = pow2_floor(n);
        let n2 = n - n1;
        let gap = n1 - n2;
        let m = count_set(bits.subrange(0, n2)) as int;
        let l = compacted(data.subrange(0, n2), bits.subrange(0, n2));
        let r = off_compacted(data.subrange(n2, n), bits.subrange(n2, n), (gap + m) % n1);
        exchange(l, r.subrange(gap, n1), false, m) + r.subrange(0, gap) + exchange(
            r.subrange(gap, n1),
            l,
            false,
            m,
        )
    }
}

/// The front block of a sequence that is not empty is shorter than the
/// sequence.
#[via_fn]
proof fn compacted_decreases<T>(data: Seq<T>, bits: Seq<bool>) {
    if data.len() > 0 {
        lemma_pow2_floor(data.len() as int);
    }
}

/// No more tags are set than there are tags.
pub proof fn lemma_count_bound(bits: Seq<bool>)
    ensures
        count_set(bits) <= bits.len(),
    decreases bits.len(),
{
    if bits.len() > 0 {
        lemma_count_bound(bits.drop_last());
    }
}

/// The set tags of a concatenation are those of its parts.
pub proof fn lemma_count_concat(s: Seq<bool>, t: Seq<bool>)
    ensures
        count_set(s + t) == count_set(s) + count_set(t),
    decreases t.len(),
{
    if t.len() == 0 {
        assert(s + t =~= s);
    } else {
        lemma_count_concat(s, t.drop_last());
        assert((s + t).drop_last() =~= s + t.drop_last());
    }
}

/// As many elements are kept as tags are set.
pub proof fn lemma_kept_len<T>(data: Seq<T>, bits: Seq<bool>)
    requires
        data.len() == bits.len(),
    ensures
        kept(data, bits).len() == count_set(bits),
    decreases data.len(),
{
    if data.len() > 0 {
        lemma_kept_len(data.drop_last(), bits.drop_last());
    }
}

/// The kept elements of a concatenation are those of its parts, in turn.
pub proof fn lemma_kept_concat<T>(a: Seq<T>, s: Seq<bool>, b: Seq<T>, t: Seq<bool>)
    requires
        a.len() == s.len(),
        b.len() == t.len(),
    ensures
        kept(a + b, s + t) == kept(a, s) + kept(b, t),
    decreases b.len(),
{
    if b.len() == 0 {
        assert(a + b =~= a);
        assert(s + t =~= s);
        assert(kept(a, s) + kept(b, t) =~= kept(a, s));
    } else {
        lemma_kept_concat(a, s, b.drop_last(), t.drop_last());
        assert((a + b).drop_last() =~= a + b.drop_last());
        assert((s + t).drop_last() =~= s + t.drop_last());
        assert(kept(a + b, s + t) =~= kept(a, s) + kept(b, t));
    }
}

/// Where the tags are the results of a predicate on the elements, the kept
/// elements are those that the predicate holds of.
pub proof fn lemma_kept_is_filter<T>(data: Seq<T>, bits: Seq<bool>, pred: spec_fn(T) -> bool)
    requires
        bits.len() == data.len(),
        forall|i: int| 0 <= i < data.len() ==> bits[i] == pred(data[i]),
    ensures
        kept(data, bits) == data.filter(pred),
        count_set(bits) == data.filter(pred).len(),
    decreases data.len(),
{
    reveal(Seq::filter);
    lemma_kept_len(data, bits);
    if data.len() > 0 {
        lemma_kept_is_filter(data.drop_last(), bits.drop_last(), pred);
    }
}

/// Every element is either kept or dropped.
pub proof fn lemma_kept_and_dropped<T>(data: Seq<T>, bits: Seq<bool>)
    requires
        bits.len() == data.len(),
    ensures
        kept(data, bits).to_multiset().add(dropped(data, bits).to_multiset()) == data.to_multiset(),
    decreases data.len(),
{
    broadcast use vstd::multiset::group_multiset_axioms;
    broadcast use vstd::seq_lib::group_to_multiset_ensures;

    if data.len() == 0 {
        assert(kept(data, bits).len() == 0 && dropped(data, bits).len() == 0);
        assert(kept(data, bits).to_multiset().add(dropped(data, bits).to_multiset())
            =~= data.to_multiset());
    } else {
        let d0 = data.drop_last();
        let b0 = bits.drop_last();
        let x = data.last();
        lemma_kept_and_dropped(d0, b0);
        assert(negated(bits).drop_last() =~= negated(b0));
        assert(data =~= d0.push(x));
        vstd::seq_lib::to_multiset_build(d0, x);
        vstd::seq_lib::to_multiset_build(kept(d0, b0), x);
        vstd::seq_lib::to_multiset_build(dropped(d0, b0), x);
        assert forall|v: T|
            kept(data, bits).to_multiset().add(dropped(data, bits).to_multiset()).count(v)
                == data.to_multiset().count(v) by {
            assert(kept(d0, b0).to_multiset().add(dropped(d0, b0).to_multiset()).count(v)
                == d0.to_multiset().count(v));
        }
        assert(kept(data, bits).to_multiset().add(dropped(data, bits).to_multiset())
            =~= data.to_multiset());
    }
}

/// A layer of exchanges between two blocks keeps the elements of the two
/// blocks taken together.
pub proof fn lemma_exchange_multiset<T>(l: Seq<T>, r: Seq<T>, flip: bool, edge: int)
    requires
        l.len() == r.len(),
    ensures
        exchange(l, r, flip, edge).to_multiset().add(exchange(r, l, flip, edge).to_multiset())
            == l.to_multiset().add(r.to_multiset()),
{
    lemma_layer_keeps_elements(l, r, exchange(l, r, flip, edge), exchange(r, l, flip, edge));
}

/// Remainders of numbers below three times the modulus.
pub proof fn lemma_mod_cases(x: int, h: int)
    requires
        0 < h,
        0 <= x < 3 * h,
    ensures
        x % h == if x < h {
            x
        } else if x < 2 * h {
            x - h
        } else {
            x - 2 * h
        },
{
    if x < h {
        vstd::arithmetic::div_mod::lemma_fundamental_div_mod_converse(x, h, 0, x);
    } else if x < 2 * h {
        vstd::arithmetic::div_mod::lemma_fundamental_div_mod_converse(x, h, 1, x - h);
    } else {
        vstd::arithmetic::div_mod::lemma_fundamental_div_mod_converse(x, h, 2, x - 2 * h);
    }
}

/// `out` holds the kept elements of `data` consecutively from position
/// `offset`, running around its end.
pub open spec fn placed_from<T>(out: Seq<T>, data: Seq<T>, bits: Seq<bool>, offset: int) -> bool {
    let k = kept(data, bits);
    &&& out.len() == data.len()
    &&& forall|j: int| 0 <= j < k.len() ==> out[wrap(offset + j, out.len() as int)] == #[trigger] k[j]
}

/// A block of one element is compacted as it stands.
proof fn lemma_off_compacted_one<T>(data: Seq<T>, bits: Seq<bool>)
    requires
        data.len() == 1,
        bits.len() == 1,
    ensures
        placed_from(off_compacted(data, bits, 0), data, bits, 0),
{
    let k = kept(data, bits);
    assert(data.drop_last() =~= Seq::<T>::empty());
    assert(kept(data.drop_last(), bits.drop_last()) =~= Seq::<T>::empty());
    assert(k =~= if bits[0] { seq![data[0]] } else { Seq::<T>::empty() });
}

/// A block of two elements: one exchange puts it right for either offset.
proof fn lemma_off_compacted_two<T>(data: Seq<T>, bits: Seq<bool>, offset: int)
    requires
        data.len() == 2,
        bits.len() == 2,
        0 <= offset < 2,
    ensures
        placed_from(off_compacted(data, bits, offset), data, bits, offset),
        off_compacted(data, bits, offset).to_multiset() == data.to_multiset(),
{
    broadcast use vstd::multiset::group_multiset_axioms;

    let k = kept(data, bits);
    let d1 = data.drop_last();
    let b1 = bits.drop_last();
    lemma_off_compacted_one(d1, b1);
    assert(d1.drop_last() =~= Seq::<T>::empty());
    assert(kept(d1.drop_last(), b1.drop_last()) =~= Seq::<T>::empty());
    assert(kept(d1, b1) =~= if bits[0] { seq![data[0]] } else { Seq::<T>::empty() });
    assert(k =~= kept(d1, b1) + if bits[1] { seq![data[1]] } else { Seq::<T>::empty() });
    let swapped = seq![data[1], data[0]];
    assert(data =~= seq![data[0]] + seq![data[1]]);
    assert(swapped =~= seq![data[1]] + seq![data[0]]);
    lemma_multiset_commutative(seq![data[0]], seq![data[1]]);
    lemma_multiset_commutative(seq![data[1]], seq![data[0]]);
    assert(swapped.to_multiset() =~= data.to_multiset());
}

/// A longer block: where the two halves are placed as their offsets say,
/// the layer of exchanges between them places the whole.
proof fn lemma_off_compacted_step<T>(data: Seq<T>, bits: Seq<bool>, offset: int)
    requires
        is_pow2(data.len() as int),
        data.len() > 2,
        bits.len() == data.len(),
        0 <= offset < data.len(),
        ({
            let n = data.len() as int;
            let h = n / 2;
            let m = count_set(bits.subrange(0, h)) as int;
            let dl = data.subrange(0, h);
            let bl = bits.subrange(0, h);
            let dr = data.subrange(h, n);
            let br = bits.subrange(h, n);
            &&& placed_from(off_compacted(dl, bl, offset % h), dl, bl, offset % h)
            &&& placed_from(off_compacted(dr, br, (offset + m) % h), dr, br, (offset + m) % h)
        }),
    ensures
        placed_from(off_compacted(data, bits, offset), data, bits, offset),
{
    let n = data.len() as int;
    let out = off_compacted(data, bits, offset);
    let k = kept(data, bits);
    lemma_pow2_half(n);
    let h = n / 2;
    let dl = data.subrange(0, h);
    let dr = data.subrange(h, n);
    let bl = bits.subrange(0, h);
    let br = bits.subrange(h, n);
    let m = count_set(bl) as int;
    lemma_count_bound(bl);
    lemma_count_bound(br);
    lemma_mod_cases(offset, h);
    lemma_mod_cases(offset + m, h);
    let z0 = offset % h;
    let edge = (offset + m) % h;
    let flip = (z0 + m >= h) != (offset >= h);
    let l = off_compacted(dl, bl, z0);
    let r = off_compacted(dr, br, edge);
    let kl = kept(dl, bl);
    let kr = kept(dr, br);
    lemma_kept_len(dl, bl);
    lemma_kept_len(dr, br);
    assert(data =~= dl + dr);
    assert(bits =~= bl + br);
    lemma_kept_concat(dl, bl, dr, br);
    assert(k == kl + kr);
    let x = exchange(l, r, flip, edge);
    let y = exchange(r, l, flip, edge);
    assert(out == x + y);
    assert forall|j: int| 0 <= j < k.len() implies out[wrap(offset + j, n)] == #[trigger] k[j] by {
        let p = wrap(offset + j, n);
        if j < m {
            let i = wrap(z0 + j, h);
            assert(k[j] == kl[j]);
            assert(l[i] == kl[j]);
            if p < h {
                assert(p == i);
                assert(out[p] == x[i]);
                assert(x[i] == l[i]);
            } else {
                assert(p == i + h);
                assert(out[p] == y[i]);
                assert(y[i] == l[i]);
            }
        } else {
            let i = wrap(edge + (j - m), h);
            assert(k[j] == kr[j - m]);
            assert(r[i] == kr[j - m]);
            if p < h {
                assert(p == i);
                assert(out[p] == x[i]);
                assert(x[i] == r[i]);
            } else {
                assert(p == i + h);
                assert(out[p] == y[i]);
                assert(y[i] == r[i]);
            }
        }
    }
}

/// A longer block: where the two halves keep their elements, the whole
/// does.
proof fn lemma_off_compacted_step_multiset<T>(data: Seq<T>, bits: Seq<bool>, offset: int)
    requires
        data.len() > 2,
        data.len() % 2 == 0,
        ({
            let n = data.len() as int;
            let h = n / 2;
            let m = count_set(bits.subrange(0, h)) as int;
            let dl = data.subrange(0, h);
            let bl = bits.subrange(0, h);
            let dr = data.subrange(h, n);
            let br = bits.subrange(h, n);
            let l = off_compacted(dl, bl, offset % h);
            let r = off_compacted(dr, br, (offset + m) % h);
            &&& l.len() == h
            &&& r.len() == h
            &&& l.to_multiset() == dl.to_multiset()
            &&& r.to_multiset() == dr.to_multiset()
        }),
    ensures
        off_compacted(data, bits, offset).to_multiset() == data.to_multiset(),
{
    let n = data.len() as int;
    let h = n / 2;
    let m = count_set(bits.subrange(0, h)) as int;
    let dl = data.subrange(0, h);
    let dr = data.subrange(h, n);
    let l = off_compacted(dl, bits.subrange(0, h), offset % h);
    let r = off_compacted(dr, bits.subrange(h, n), (offset + m) % h);
    let flip = ((offset % h) + m >= h) != (offset >= h);
    let edge = (offset + m) % h;
    let x = exchange(l, r, flip, edge);
    let y = exchange(r, l, flip, edge);
    assert(off_compacted(data, bits, offset) == x + y);
    assert(data =~= dl + dr);
    lemma_exchange_multiset(l, r, flip, edge);
    lemma_multiset_commutative(x, y);
    lemma_multiset_commutative(dl, dr);
}

/// The rotated compaction of a block puts the kept elements where its
/// offset says, and keeps every element of the block.
pub proof fn lemma_off_compacted<T>(data: Seq<T>, bits: Seq<bool>, offset: int)
    requires
        is_pow2(data.len() as int),
        bits.len() == data.len(),
        0 <= offset < data.len(),
    ensures
        placed_from(off_compacted(data, bits, offset), data, bits, offset),
        off_compacted(data, bits, offset).to_multiset() == data.to_multiset(),
    decreases data.len(),
{
    let n = data.len() as int;
    if n == 1 {
        lemma_off_compacted_one(data, bits);
    } else if n == 2 {
        lemma_off_compacted_two(data, bits, offset);
    } else {
        lemma_pow2_half(n);
        let h = n / 2;
        let bl = bits.subrange(0, h);
        let m = count_set(bl) as int;
        lemma_count_bound(bl);
        lemma_mod_cases(offset, h);
        lemma_mod_cases(offset + m, h);
        lemma_off_compacted(data.subrange(0, h), bl, offset % h);
        lemma_off_compacted(data.subrange(h, n), bits.subrange(h, n), (offset + m) % h);
        lemma_off_compacted_step(data, bits, offset);
        lemma_off_compacted_step_multiset(data, bits, offset);
    }
}

/// The front block of `data`, what is before its largest power of two,
/// compacted.
pub open spec fn front_part<T>(data: Seq<T>, bits: Seq<bool>) -> Seq<T> {
    let n2 = data.len() - pow2_floor(data.len() as int);
    compacted(data.subrange(0, n2), bits.subrange(0, n2))
}

/// The back block of `data`, a power of two long, compacted and rotated so
/// that its kept elements start where those of the front block end.
pub open spec fn back_part<T>(data: Seq<T>, bits: Seq<bool>) -> Seq<T> {
    let n = data.len() as int;
    let n1 = pow2_floor(n);
    let n2 = n - n1;
    let m = count_set(bits.subrange(0, n2)) as int;
    off_compacted(data.subrange(n2, n), bits.subrange(n2, n), (n1 - n2 + m) % n1)
}

/// Where the front block is compacted and the back block is placed as its
/// offset says, the last layer of exchanges puts the kept elements of the
/// whole first.
proof fn lemma_compacted_prefix<T>(data: Seq<T>, bits: Seq<bool>)
    requires
        bits.len() == data.len(),
        data.len() > 0,
        ({
            let n2 = data.len() - pow2_floor(data.len() as int);
            let dl = data.subrange(0, n2);
            let bl = bits.subrange(0, n2);
            &&& compacted(dl, bl).len() == n2
            &&& compacted(dl, bl).subrange(0, count_set(bl) as int) == kept(dl, bl)
        }),
        ({
            let n = data.len() as int;
            let n1 = pow2_floor(n);
            let n2 = n - n1;
            let m = count_set(bits.subrange(0, n2)) as int;
            placed_from(
                back_part(data, bits),
                data.subrange(n2, n),
                bits.subrange(n2, n),
                (n1 - n2 + m) % n1,
            )
        }),
    ensures
        compacted(data, bits).len() == data.len(),
        compacted(data, bits).subrange(0, count_set(bits) as int) == kept(data, bits),
{
    let n = data.len() as int;
    let out = compacted(data, bits);
    let k = kept(data, bits);
    lemma_kept_len(data, bits);
    lemma_count_bound(bits);
    lemma_pow2_floor(n);
    let n1 = pow2_floor(n);
    let n2 = n - n1;
    let gap = n1 - n2;
    let dl = data.subrange(0, n2);
    let dr = data.subrange(n2, n);
    let bl = bits.subrange(0, n2);
    let br = bits.subrange(n2, n);
    let m = count_set(bl) as int;
    lemma_count_bound(bl);
    lemma_count_bound(br);
    lemma_mod_cases(gap + m, n1);
    let offset = (gap + m) % n1;
    let l = compacted(dl, bl);
    let r = off_compacted(dr, br, offset);
    let kl = kept(dl, bl);
    let kr = kept(dr, br);
    lemma_kept_len(dl, bl);
    lemma_kept_len(dr, br);
    assert(data =~= dl + dr);
    assert(bits =~= bl + br);
    lemma_kept_concat(dl, bl, dr, br);
    lemma_count_concat(bl, br);
    assert(k == kl + kr);
    let tail = r.subrange(gap, n1);
    let head = r.subrange(0, gap);
    let x = exchange(l, tail, false, m);
    let y = exchange(tail, l, false, m);
    assert(out == x + head + y);
    assert(out.len() == n);
    assert forall|j: int| 0 <= j < k.len() implies out[j] == #[trigger] k[j] by {
        if j < m {
            assert(k[j] == kl[j]);
            assert(l.subrange(0, m)[j] == l[j]);
            assert(out[j] == x[j]);
        } else {
            let i = j - m;
            assert(k[j] == kr[i]);
            assert(r[wrap(offset + i, n1)] == kr[i]);
            if j < n2 {
                assert(out[j] == x[j]);
                assert(x[j] == tail[j]);
                assert(tail[j] == r[gap + j]);
            } else if j < n1 {
                assert(out[j] == head[j - n2]);
            } else {
                assert(out[j] == y[j - n1]);
                assert(y[j - n1] == tail[j - n1]);
            }
        }
    }
    assert(out.subrange(0, count_set(bits) as int) =~= k);
}

/// Where the two blocks keep their elements, the whole does.
proof fn lemma_compacted_multiset<T>(data: Seq<T>, bits: Seq<bool>)
    requires
        bits.len() == data.len(),
        data.len() > 0,
        ({
            let n2 = data.len() - pow2_floor(data.len() as int);
            let dl = data.subrange(0, n2);
            &&& front_part(data, bits).len() == n2
            &&& front_part(data, bits).to_multiset() == dl.to_multiset()
        }),
        ({
            let n = data.len() as int;
            let n2 = n - pow2_floor(n);
            &&& back_part(data, bits).len() == n - n2
            &&& back_part(data, bits).to_multiset() == data.subrange(n2, n).to_multiset()
        }),
    ensures
        compacted(data, bits).to_multiset() == data.to_multiset(),
{
    broadcast use vstd::multiset::group_multiset_axioms;

    let n = data.len() as int;
    let out = compacted(data, bits);
    lemma_pow2_floor(n);
    let n1 = pow2_floor(n);
    let n2 = n - n1;
    let gap = n1 - n2;
    let dl = data.subrange(0, n2);
    let dr = data.subrange(n2, n);
    let m = count_set(bits.subrange(0, n2)) as int;
    let l = front_part(data, bits);
    let r = back_part(data, bits);
    let tail = r.subrange(gap, n1);
    let head = r.subrange(0, gap);
    let x = exchange(l, tail, false, m);
    let y = exchange(tail, l, false, m);
    assert(out == x + head + y);
    assert(data =~= dl + dr);
    lemma_exchange_multiset(l, tail, false, m);
    lemma_multiset_commutative(x + head, y);
    lemma_multiset_commutative(x, head);
    lemma_multiset_commutative(head, tail);
    assert(r =~= head + tail);
    lemma_multiset_commutative(dl, dr);
    assert forall|v: T| out.to_multiset().count(v) == data.to_multiset().count(v) by {
        assert(x.to_multiset().add(y.to_multiset()).count(v) == l.to_multiset().add(
            tail.to_multiset(),
        ).count(v));
    }
    assert(out.to_multiset() =~= data.to_multiset());
}

/// Behind the kept elements, compaction leaves the dropped ones, in some
/// order.
pub proof fn lemma_compacted_rest<T>(data: Seq<T>, bits: Seq<bool>)
    requires
        bits.len() == data.len(),
    ensures
        count_set(bits) <= data.len(),
        compacted(data, bits).subrange(count_set(bits) as int, data.len() as int).to_multiset()
            == dropped(data, bits).to_multiset(),
{
    broadcast use vstd::multiset::group_multiset_axioms;

    lemma_compacted(data, bits);
    lemma_count_bound(bits);
    lemma_kept_and_dropped(data, bits);
    let out = compacted(data, bits);
    let c = count_set(bits) as int;
    let front = out.subrange(0, c);
    let rest = out.subrange(c, data.len() as int);
    assert(out =~= front + rest);
    lemma_multiset_commutative(front, rest);
    assert forall|v: T| rest.to_multiset().count(v) == dropped(data, bits).to_multiset().count(
        v,
    ) by {
        assert(front.to_multiset().add(rest.to_multiset()).count(v) == kept(
            data,
            bits,
        ).to_multiset().add(dropped(data, bits).to_multiset()).count(v));
    }
    assert(rest.to_multiset() =~= dropped(data, bits).to_multiset());
}

/// Compaction puts the kept elements first, in their original order, and
/// keeps every element.
pub proof fn lemma_compacted<T>(data: Seq<T>, bits: Seq<bool>)
    requires
        bits.len() == data.len(),
    ensures
        compacted(data, bits).len() == data.len(),
        compacted(data, bits).subrange(0, count_set(bits) as int) == kept(data, bits),
        compacted(data, bits).to_multiset() == data.to_multiset(),
    decreases data.len(),
{
    let n = data.len() as int;
    if n == 0 {
        assert(compacted(data, bits).subrange(0, 0) =~= kept(data, bits));
    } else {
        lemma_pow2_floor(n);
        let n1 = pow2_floor(n);
        let n2 = n - n1;
        let bl = bits.subrange(0, n2);
        let m = count_set(bl) as int;
        lemma_count_bound(bl);
        lemma_mod_cases(n1 - n2 + m, n1);
        lemma_compacted(data.subrange(0, n2), bl);
        lemma_off_compacted(data.subrange(n2, n), bits.subrange(n2, n), (n1 - n2 + m) % n1);
        lemma_compacted_prefix(data, bits);
        lemma_compacted_multiset(data, bits);
    }
}

} // verus!
