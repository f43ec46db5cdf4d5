//! Shuffling by random halving: mark a random half of the elements, compact
//! by the marks, and shuffle the two parts.

use vstd::prelude::*;
use vstd::multiset::Multiset;
use vstd::arithmetic::div_mod::{lemma_add_mod_noop, lemma_mod_bound, lemma_small_mod};
use crate::compact::model::{compacted, count_set, kept, lemma_compacted, lemma_kept_len};
use crate::compact::or_compact::{or_compact, parallel_or_compact};
use crate::ops::swap::swap;
use crate::ops::select::ObliviousSelect;
use crate::pool::{run_both, split_budget};
use crate::shuffle::NoEntropy;
use rand::rngs::OsRng;
use rand::TryRngCore;
use rayon::ThreadPool;

verus! {

/// Draws 32 bits from the operating system's generator with
/// `OsRng::try_next_u32`.
///
/// Trusted, and nothing is claimed of the value: `None` stands for the
/// generator's error, when the system has no randomness to give.
#[verifier::external_body]
fn draw_u32() -> (drawn: Option<u32>) {
    OsRng.try_next_u32().ok()
}

/// Draws 64 bits from the operating system's generator with
/// `OsRng::try_next_u64`.
///
/// Trusted, and nothing is claimed of the value: `None` stands for the
/// generator's error, when the system has no randomness to give.
#[verifier::external_body]
fn draw_u64() -> (drawn: Option<u64>) {
    OsRng.try_next_u64().ok()
}

/// The number of values that 64 bits take.
pub open spec fn draw_range() -> int {
    0x1_0000_0000_0000_0000
}

/// Whether a draw is taken for a value below `bound`: it is, when it lies
/// below the greatest multiple of `bound` within the range of the draws. The
/// draws that are taken fall on every value below `bound` equally often.
pub open spec fn accepted(draw: u64, bound: usize) -> bool {
    draw < draw_range() - draw_range() % (bound as int)
}

/// The value below `bound` that a draw stands for, or nothing where the
/// draw is not taken.
pub fn reduce(draw: u64, bound: usize) -> (value: Option<usize>)
    requires
        bound >= 1,
    ensures
        value == if accepted(draw, bound) {
            Some((draw as int % bound as int) as usize)
        } else {
            None::<usize>
        },
        value matches Some(v) ==> v < bound,
{
    let b = bound as u64;
    proof {
        lemma_add_mod_noop(u64::MAX as int, 1, b as int);
        lemma_mod_bound(u64::MAX as int, b as int);
        lemma_mod_bound(draw as int, b as int);
        if b >= 2 {
            lemma_small_mod(1, b as nat);
        }
    }
    let spare = (u64::MAX % b + 1) % b;
    if draw <= u64::MAX - spare {
        Some((draw % b) as usize)
    } else {
        None
    }
}

/// How many draws `uniform_below` makes for one value before it gives up.
/// A draw is taken with a chance above one half, so that it gives up only
/// when the generator does not work.
pub const ATTEMPTS: usize = 128;

/// What follows from one draw for a value below a bound.
#[derive(Clone, Copy, Debug, PartialEq, Eq)]
pub enum Attempt {
    /// The draw is taken and stands for this value.
    Taken(usize),
    /// The draw is rejected and another one is made.
    Retry,
    /// The draw is rejected and it was the last that is made.
    GiveUp,
}

/// What follows from the draw of attempt number `attempt`, counted from
/// zero: a draw that is accepted gives its value; one that is not is followed
/// by another, but for the last of the `ATTEMPTS`.
pub open spec fn judged(attempt: usize, draw: u64, bound: usize) -> Attempt {
    if accepted(draw, bound) {
        Attempt::Taken((draw as int % bound as int) as usize)
    } else if attempt + 1 < ATTEMPTS {
        Attempt::Retry
    } else {
        Attempt::GiveUp
    }
}

/// Decides what follows from the draw of attempt number `attempt`.
pub fn judge(attempt: usize, draw: u64, bound: usize) -> (next: Attempt)
    requires
        bound >= 1,
    ensures
        next == judged(attempt, draw, bound),
        next matches Attempt::Taken(v) ==> v < bound,
{
    match reduce(draw, bound) {
        Some(v) => Attempt::Taken(v),
        None => {
            if attempt < ATTEMPTS - 1 {
                Attempt::Retry
            } else {
                Attempt::GiveUp
            }
        },
    }
}

/// A value below `bound`, each with the same chance, from the operating
/// system's generator: draws are made and judged until one is taken. It fails
/// where the generator fails and where `judge` gives up.
pub fn uniform_below(bound: usize) -> (value: Result<usize, NoEntropy>)
    requires
        bound >= 1,
    ensures
        value matches Ok(v) ==> v < bound,
{
    let mut attempt: usize = 0;
    while attempt < ATTEMPTS
        invariant
            bound >= 1,
        decreases ATTEMPTS - attempt,
    {
        let draw = match draw_u64() {
            Some(draw) => draw,
            None => {
                return Err(NoEntropy);
            },
        };
        match judge(attempt, draw, bound) {
            Attempt::Taken(v) => {
                return Ok(v);
            },
            Attempt::Retry => {
                attempt = attempt + 1;
            },
            Attempt::GiveUp => {
                return Err(NoEntropy);
            },
        }
    }
    Err(NoEntropy)
}

/// How many of the positions from `i` on are still to be marked, after the
/// first `i` draws have been used: `(n + 1) / 2` at the start, one less for
/// each mark made.
pub open spec fn quota_left(draws: Seq<usize>, i: int) -> int
    decreases i,
{
    if i <= 0 {
        (draws.len() + 1) as int / 2
    } else {
        let q = quota_left(draws, i - 1);
        if draws[i - 1] as int % (draws.len() - (i - 1)) < q {
            q - 1
        } else {
            q
        }
    }
}

/// The marks that a sequence of draws gives: position `i` is marked when its
/// draw, reduced to the number of positions that are left, falls below the
/// number of marks that are left to make.
pub open spec fn marks_of(draws: Seq<usize>) -> Seq<bool> {
    Seq::new(draws.len(), |i: int| draws[i] as int % (draws.len() - i) < quota_left(draws, i))
}

/// After `i` draws, the marks still to make are no more than the positions
/// left, and together with the marks made they are `(n + 1) / 2`.
proof fn lemma_quota(draws: Seq<usize>, i: int)
    requires
        0 <= i <= draws.len(),
    ensures
        0 <= quota_left(draws, i) <= draws.len() - i,
        count_set(marks_of(draws).subrange(0, i)) + quota_left(draws, i) == (draws.len() + 1) / 2,
    decreases i,
{
    if i > 0 {
        lemma_quota(draws, i - 1);
        assert(marks_of(draws).subrange(0, i).drop_last() =~= marks_of(draws).subrange(0, i - 1));
        lemma_mod_bound(draws[i - 1] as int, draws.len() - (i - 1));
    }
}

/// Exactly `(n + 1) / 2` of the `n` marks are set, whatever was drawn.
pub proof fn lemma_marks_count(draws: Seq<usize>)
    ensures
        marks_of(draws).len() == draws.len(),
        count_set(marks_of(draws)) == (draws.len() + 1) / 2,
{
    let n = draws.len() as int;
    lemma_quota(draws, n);
    assert(marks_of(draws).subrange(0, n) =~= marks_of(draws));
}

/// Marks half of the positions, rounded up, by one draw for each position.
/// With each draw uniform among the positions that are left, every choice of
/// that many positions is as likely as every other.
pub fn mark_from_draws(draws: &[usize]) -> (bits: Vec<bool>)
    ensures
        bits@ == marks_of(draws@),
        bits@.len() == draws@.len(),
        count_set(bits@) == (draws@.len() + 1) / 2,
{
    let n = draws.len();
    let mut bits: Vec<bool> = Vec::new();
    let mut ell = n / 2 + n % 2;

    for i in 0..n
        invariant
            n == draws@.len(),
            bits@.len() == i,
            ell == quota_left(draws@, i as int),
            forall|j: int| 0 <= j < i ==> bits@[j] == marks_of(draws@)[j],
    {
        proof {
            lemma_quota(draws@, i as int);
        }
        let remaining = n - i;

        let r = draws[i] % remaining;
        let take = r < ell;

        bits.push(take);
        ell -= take as usize;
    }
    proof {
        lemma_marks_count(draws@);
        assert(bits@ =~= marks_of(draws@));
    }
    bits
}

/// Marks half of `n` positions, rounded up, at random: every position gets
/// a value from the operating system's generator, uniform among the positions
/// that are left.
pub fn mark_half(n: usize) -> (marks: Result<Vec<bool>, NoEntropy>)
    ensures
        marks matches Ok(bits) ==> bits@.len() == n && count_set(bits@) == (n + 1) / 2,
        n == 0 ==> marks is Ok,
{
    let mut draws: Vec<usize> = Vec::new();
    for i in 0..n
        invariant
            draws@.len() == i,
    {
        match uniform_below(n - i) {
            Ok(r) => draws.push(r),
            Err(e) => {
                return Err(e);
            },
        }
    }
    Ok(mark_from_draws(draws.as_slice()))
}

/// What a shuffle chose at random, as far as its result depends on it.
pub enum Choices {
    /// Fewer than two elements: nothing was chosen.
    Still,
    /// Two elements: whether they were exchanged.
    Flip(bool),
    /// More than two elements: the marks of the half that went to the front,
    /// and what the shuffles of the front part and of the back part chose.
    Halve(Seq<bool>, Box<Choices>, Box<Choices>),
}

/// `c` is what a shuffle of `n` elements can choose: nothing, one exchange,
/// or marks for `n` elements of which half, rounded up, are set, with choices
/// that fit the marked half and the rest.
pub open spec fn fits(c: Choices, n: nat) -> bool
    decreases c,
{
    match c {
        Choices::Still => n < 2,
        Choices::Flip(_) => n == 2,
        Choices::Halve(bits, l, r) => {
            &&& n > 2
            &&& bits.len() == n
            &&& count_set(bits) == (n + 1) / 2
            &&& fits(*l, (n + 1) / 2)
            &&& fits(*r, n / 2)
        },
    }
}

/// The shuffle of `data` by the choices `c`: `data` is compacted by the
/// marks, cut behind the marked half, and each part is shuffled by its own
/// choices.
pub open spec fn shuffled<T>(data: Seq<T>, c: Choices) -> Seq<T>
    decreases c,
{
    match c {
        Choices::Still => data,
        Choices::Flip(exchange) => if exchange {
            seq![data[1], data[0]]
        } else {
            data
        },
        Choices::Halve(bits, l, r) => {
            let n = data.len() as int;
            let cut = (n + 1) / 2;
            let moved = compacted(data, bits);
            shuffled(moved.subrange(0, cut), *l) + shuffled(moved.subrange(cut, n), *r)
        },
    }
}

/// Whatever is chosen, the shuffle gives a permutation of what it was given.
pub proof fn lemma_shuffled_is_permutation<T>(data: Seq<T>, c: Choices)
    requires
        fits(c, data.len()),
    ensures
        shuffled(data, c).len() == data.len(),
        shuffled(data, c).to_multiset() == data.to_multiset(),
    decreases c,
{
    match c {
        Choices::Still => {},
        Choices::Flip(exchange) => {
            lemma_pair_keeps_elements(data, shuffled(data, c));
        },
        Choices::Halve(bits, l, r) => {
            let n = data.len() as int;
            let moved = compacted(data, bits);
            lemma_compacted(data, bits);
            let cut = (n + 1) / 2;
            let front = moved.subrange(0, cut);
            let back = moved.subrange(cut, n);
            lemma_shuffled_is_permutation(front, *l);
            lemma_shuffled_is_permutation(back, *r);
            lemma_parts_keep_elements(moved, cut, shuffled(front, *l), shuffled(back, *r));
        },
    }
}

/// Marks that keep a given part of the elements of `data`: for a multiset
/// `part` within that of `data`, the marks returned keep just `part`.
proof fn lemma_marks_for<T>(data: Seq<T>, part: Multiset<T>) -> (bits: Seq<bool>)
    requires
        part.subset_of(data.to_multiset()),
    ensures
        bits.len() == data.len(),
        kept(data, bits).to_multiset() == part,
    decreases data.len(),
{
    broadcast use vstd::multiset::group_multiset_axioms;
    broadcast use vstd::seq_lib::group_to_multiset_ensures;

    if data.len() == 0 {
        let bits = Seq::<bool>::empty();
        assert(kept(data, bits).len() == 0);
        assert forall|v: T| part.count(v) == 0 by {
            assert(part.count(v) <= data.to_multiset().count(v));
        }
        assert(kept(data, bits).to_multiset() =~= part);
        bits
    } else {
        let rest = data.drop_last();
        let x = data.last();
        assert(data =~= rest.push(x));
        vstd::seq_lib::to_multiset_build(rest, x);
        if part.count(x) > 0 {
            let smaller = part.remove(x);
            assert forall|v: T| smaller.count(v) <= rest.to_multiset().count(v) by {
                assert(part.count(v) <= data.to_multiset().count(v));
            }
            let marks = lemma_marks_for(rest, smaller);
            let bits = marks.push(true);
            assert(bits.drop_last() =~= marks);
            vstd::seq_lib::to_multiset_build(kept(rest, marks), x);
            assert(kept(data, bits).to_multiset() =~= part);
            bits
        } else {
            assert forall|v: T| part.count(v) <= rest.to_multiset().count(v) by {
                assert(part.count(v) <= data.to_multiset().count(v));
            }
            let marks = lemma_marks_for(rest, part);
            let bits = marks.push(false);
            assert(bits.drop_last() =~= marks);
            bits
        }
    }
}

/// How often a value stands in a sequence of two elements.
proof fn lemma_pair_count<T>(d: Seq<T>, v: T)
    requires
        d.len() == 2,
    ensures
        d.to_multiset().count(v) == (if v == d[0] { 1nat } else { 0nat }) + (if v == d[1] {
            1nat
        } else {
            0nat
        }),
{
    broadcast use vstd::multiset::group_multiset_axioms;
    broadcast use vstd::seq_lib::group_to_multiset_ensures;

    let none = Seq::<T>::empty();
    let one = none.push(d[0]);
    assert(d =~= one.push(d[1]));
    vstd::seq_lib::to_multiset_build(none, d[0]);
    vstd::seq_lib::to_multiset_build(one, d[1]);
    vstd::seq_lib::to_multiset_len(none);
    assert(none.to_multiset().count(v) == 0) by {
        if none.to_multiset().count(v) > 0 {
            assert(none.to_multiset().contains(v));
            assert(none.contains(v));
        }
    }
    assert(one.to_multiset().count(v) == if v == d[0] { 1nat } else { 0nat });
}

/// Two sequences of two elements that hold the same elements are the same
/// or each other's exchange.
proof fn lemma_pair_orders<T>(d: Seq<T>, e: Seq<T>)
    requires
        d.len() == 2,
        e.to_multiset() == d.to_multiset(),
    ensures
        e == d || e == seq![d[1], d[0]],
{
    vstd::seq_lib::to_multiset_len(d);
    vstd::seq_lib::to_multiset_len(e);
    lemma_pair_count(d, d[0]);
    lemma_pair_count(d, d[1]);
    lemma_pair_count(e, d[0]);
    lemma_pair_count(e, d[1]);
    lemma_pair_count(d, e[0]);
    lemma_pair_count(d, e[1]);
    lemma_pair_count(e, e[0]);
    lemma_pair_count(e, e[1]);
    if e[0] == d[0] {
        assert(e[1] == d[1]);
        assert(e =~= d);
    } else {
        assert(e[0] == d[1]);
        assert(e[1] == d[0]);
        assert(e =~= seq![d[1], d[0]]);
    }
}

/// Every order of the elements is the shuffle by some choices: for `target`
/// with the elements of `data`, the choices returned fit `data` and shuffle
/// it into `target`. No element is kept from any position.
pub proof fn lemma_every_order_is_reached<T>(data: Seq<T>, target: Seq<T>) -> (c: Choices)
    requires
        target.to_multiset() == data.to_multiset(),
    ensures
        fits(c, data.len()),
        shuffled(data, c) == target,
    decreases data.len(),
{
    broadcast use vstd::multiset::group_multiset_axioms;
    broadcast use vstd::seq_lib::group_to_multiset_ensures;

    let n = data.len() as int;
    vstd::seq_lib::to_multiset_len(data);
    vstd::seq_lib::to_multiset_len(target);
    assert(target.len() == n);
    if n < 2 {
        if n == 1 {
            assert(data.to_multiset().count(data[0]) > 0);
            assert(target.contains(data[0]));
        }
        assert(target =~= data);
        Choices::Still
    } else if n == 2 {
        lemma_pair_orders(data, target);
        if target == data {
            Choices::Flip(false)
        } else {
            Choices::Flip(true)
        }
    } else {
        let cut = (n + 1) / 2;
        let t_front = target.subrange(0, cut);
        let t_back = target.subrange(cut, n);
        assert(target =~= t_front + t_back);
        vstd::seq_lib::lemma_multiset_commutative(t_front, t_back);
        let part = t_front.to_multiset();
        assert forall|v: T| part.count(v) <= data.to_multiset().count(v) by {
            assert(target.to_multiset().count(v) == part.count(v) + t_back.to_multiset().count(v));
        }
        let bits = lemma_marks_for(data, part);
        lemma_kept_len(data, bits);
        vstd::seq_lib::to_multiset_len(kept(data, bits));
        vstd::seq_lib::to_multiset_len(t_front);
        assert(count_set(bits) == cut);
        let moved = compacted(data, bits);
        lemma_compacted(data, bits);
        let front = moved.subrange(0, cut);
        let back = moved.subrange(cut, n);
        assert(moved =~= front + back);
        vstd::seq_lib::lemma_multiset_commutative(front, back);
        assert forall|v: T| back.to_multiset().count(v) == t_back.to_multiset().count(v) by {
            assert(moved.to_multiset().count(v) == front.to_multiset().count(v)
                + back.to_multiset().count(v));
            assert(target.to_multiset().count(v) == part.count(v) + t_back.to_multiset().count(v));
        }
        assert(back.to_multiset() =~= t_back.to_multiset());
        let cl = lemma_every_order_is_reached(front, t_front);
        let cr = lemma_every_order_is_reached(back, t_back);
        let c = Choices::Halve(bits, Box::new(cl), Box::new(cr));
        assert(fits(c, data.len()));
        assert(shuffled(data, c) == t_front + t_back);
        c
    }
}

/// What a shuffle chose at random, as a value that a shuffle is run by. Its
/// view is the choices that it holds.
#[derive(Debug, PartialEq, Eq)]
pub enum Plan {
    /// Fewer than two elements: nothing is chosen.
    Still,
    /// Two elements: whether they are exchanged.
    Flip(bool),
    /// More than two elements: the marks of the half that goes to the front,
    /// and the plans for the marked half and for the rest.
    Halve(Vec<bool>, Box<Plan>, Box<Plan>),
}

impl View for Plan {
    type V = Choices;

    open spec fn view(&self) -> Choices
        decreases self,
    {
        match self {
            Plan::Still => Choices::Still,
            Plan::Flip(exchange) => Choices::Flip(*exchange),
            Plan::Halve(bits, l, r) => Choices::Halve(
                bits@,
                Box::new((**l).view()),
                Box::new((**r).view()),
            ),
        }
    }
}

/// Draws a plan for the shuffle of `n` elements from the operating system's
/// generator: one bit for two elements; for more, marks of half of them,
/// rounded up, then a plan for the marked half and one for the rest.
pub fn draw_plan(n: usize) -> (plan: Result<Plan, NoEntropy>)
    ensures
        plan matches Ok(p) ==> fits(p@, n as nat),
        n < 2 ==> plan is Ok,
    decreases n,
{
    if n < 2 {
        return Ok(Plan::Still);
    } else if n == 2 {
        let cond = match draw_u32() {
            Some(r) => (r & 1) != 0,
            None => {
                return Err(NoEntropy);
            },
        };
        return Ok(Plan::Flip(cond));
    }

    let bits = match mark_half(n) {
        Ok(bits) => bits,
        Err(e) => {
            return Err(e);
        },
    };
    let cut = n / 2 + n % 2;
    let l = match draw_plan(cut) {
        Ok(l) => l,
        Err(e) => {
            return Err(e);
        },
    };
    let r = match draw_plan(n - cut) {
        Ok(r) => r,
        Err(e) => {
            return Err(e);
        },
    };
    Ok(Plan::Halve(bits, Box::new(l), Box::new(r)))
}

/// Shuffles `data` in place by a plan: two elements are exchanged or not;
/// more are compacted by the marks, and the marked half and the rest are
/// shuffled by their own plans.
pub fn shuffle_by<T: ObliviousSelect>(data: &mut [T], plan: &Plan)
    requires
        fits(plan@, old(data)@.len()),
    ensures
        final(data)@ == shuffled(old(data)@, plan@),
        final(data)@.len() == old(data)@.len(),
        final(data)@.to_multiset() == old(data)@.to_multiset(),
    decreases plan,
{
    proof {
        lemma_shuffled_is_permutation(data@, plan@);
    }
    match plan {
        Plan::Still => {},
        Plan::Flip(exchange) => {
            let ghost d = data@;
            let (l_data, r_data) = data.split_at_mut(1);
            swap(*exchange, &mut l_data[0], &mut r_data[0]);
            proof {
                assert(l_data@ + r_data@ =~= shuffled(d, plan@));
            }
        },
        Plan::Halve(bits, l, r) => {
            let n = data.len();
            or_compact(data, bits.as_slice());

            let cut = n / 2 + n % 2;
            let (l_data, r_data) = data.split_at_mut(cut);
            shuffle_by(l_data, l);
            shuffle_by(r_data, r);
        },
    }
}

/// Shuffles `data` in place: draws a plan, and shuffles by it. Where the
/// generator worked, the result is the shuffle of `data` by what was drawn;
/// where it failed, `data` is as it was.
pub fn or_shuffle<T: ObliviousSelect>(data: &mut [T]) -> (done: Result<(), NoEntropy>)
    ensures
        final(data)@.len() == old(data)@.len(),
        final(data)@.to_multiset() == old(data)@.to_multiset(),
        old(data)@.len() < 2 ==> done is Ok && final(data)@ == old(data)@,
        done is Ok ==> exists|c: Choices|
            #[trigger] fits(c, old(data)@.len()) && final(data)@ == shuffled(old(data)@, c),
        done is Err ==> final(data)@ == old(data)@,
{
    match draw_plan(data.len()) {
        Ok(plan) => {
            shuffle_by(data, &plan);
            Ok(())
        },
        Err(e) => Err(e),
    }
}

/// Two elements, exchanged or not, are the same two elements.
proof fn lemma_pair_keeps_elements<T>(d: Seq<T>, e: Seq<T>)
    requires
        d.len() == 2,
        e.len() == 2,
        (e[0] == d[0] && e[1] == d[1]) || (e[0] == d[1] && e[1] == d[0]),
    ensures
        e.to_multiset() == d.to_multiset(),
{
    crate::ops::swap::lemma_layer_keeps_elements(
        d.subrange(0, 1),
        d.subrange(1, 2),
        e.subrange(0, 1),
        e.subrange(1, 2),
    );
    vstd::seq_lib::lemma_multiset_commutative(d.subrange(0, 1), d.subrange(1, 2));
    vstd::seq_lib::lemma_multiset_commutative(e.subrange(0, 1), e.subrange(1, 2));
    assert(d =~= d.subrange(0, 1) + d.subrange(1, 2));
    assert(e =~= e.subrange(0, 1) + e.subrange(1, 2));
}

/// Two parts that each keep their elements keep the elements of the whole.
proof fn lemma_parts_keep_elements<T>(c: Seq<T>, mid: int, l: Seq<T>, r: Seq<T>)
    requires
        0 <= mid <= c.len(),
        l.to_multiset() == c.subrange(0, mid).to_multiset(),
        r.to_multiset() == c.subrange(mid, c.len() as int).to_multiset(),
    ensures
        (l + r).to_multiset() == c.to_multiset(),
{
    vstd::seq_lib::lemma_multiset_commutative(l, r);
    vstd::seq_lib::lemma_multiset_commutative(c.subrange(0, mid), c.subrange(mid, c.len() as int));
    assert(c =~= c.subrange(0, mid) + c.subrange(mid, c.len() as int));
}

/// `shuffle_by` with a budget of `threads`: with more than one thread and
/// more than two elements, the compaction and the shuffles of the two parts
/// run on `pool`, each part with its share of the budget. The result does not
/// depend on `threads`.
pub fn parallel_shuffle_by<T: ObliviousSelect + Send>(
    data: &mut [T],
    plan: &Plan,
    pool: &ThreadPool,
    threads: usize,
)
    requires
        fits(plan@, old(data)@.len()),
    ensures
        final(data)@ == shuffled(old(data)@, plan@),
        final(data)@.len() == old(data)@.len(),
        final(data)@.to_multiset() == old(data)@.to_multiset(),
    decreases plan,
{
    if threads <= 1 {
        shuffle_by(data, plan);
        return;
    }
    proof {
        lemma_shuffled_is_permutation(data@, plan@);
    }
    match plan {
        Plan::Still => {},
        Plan::Flip(_) => {
            shuffle_by(data, plan);
        },
        Plan::Halve(bits, l, r) => {
            let n = data.len();
            parallel_or_compact(data, bits.as_slice(), pool, threads);

            let cut = n / 2 + n % 2;
            let (l_data, r_data) = data.split_at_mut(cut);
            let (l_threads, r_threads) = split_budget(threads);
            let l_plan: &Plan = l;
            let r_plan: &Plan = r;

            let left = |d: &mut [T]|
                requires
                    fits(l_plan@, d@.len()),
                ensures
                    final(d)@ == shuffled(old(d)@, l_plan@),
                {
                    parallel_shuffle_by(d, l_plan, pool, l_threads)
                };
            let right = |d: &mut [T]|
                requires
                    fits(r_plan@, d@.len()),
                ensures
                    final(d)@ == shuffled(old(d)@, r_plan@),
                {
                    parallel_shuffle_by(d, r_plan, pool, r_threads)
                };
            run_both(pool, left, l_data, right, r_data);
        },
    }
}

/// `or_shuffle` with a budget of `threads` on `pool`: draws a plan, and
/// shuffles by it with the budget. What is drawn decides the result as it does
/// for `or_shuffle`, whatever the budget.
pub fn parallel_or_shuffle<T: ObliviousSelect + Send>(
    data: &mut [T],
    pool: &ThreadPool,
    threads: usize,
) -> (done: Result<(), NoEntropy>)
    ensures
        final(data)@.len() == old(data)@.len(),
        final(data)@.to_multiset() == old(data)@.to_multiset(),
        old(data)@.len() < 2 ==> done is Ok && final(data)@ == old(data)@,
        done is Ok ==> exists|c: Choices|
            #[trigger] fits(c, old(data)@.len()) && final(data)@ == shuffled(old(data)@, c),
        done is Err ==> final(data)@ == old(data)@,
{
    match draw_plan(data.len()) {
        Ok(plan) => {
            parallel_shuffle_by(data, &plan, pool, threads);
            Ok(())
        },
        Err(e) => Err(e),
    }
}

} // verus!
