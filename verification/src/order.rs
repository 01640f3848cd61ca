//! Stable ordering by symbol name, and removal of adjacent repeats: the two
//! steps that give compiler output a fixed order.
use vstd::prelude::*;

use std::collections::VecDeque;

use crate::bytes::{bytes_less, bytes_lt, lemma_lt_irreflexive, lemma_lt_transitive};

verus! {

broadcast use vstd::seq_lib::to_multiset_insert;

/// An item ordered by a byte string (its symbol name).
pub trait Ranked: Sized {
    /// The bytes by which the item is ordered.
    spec fn rank(&self) -> Seq<u8>;

    /// The bytes by which the item is ordered.
    fn rank_bytes(&self) -> (r: &Vec<u8>)
        ensures
            r@ == self.rank(),
    ;
}

/// An item that can stand for the same thing as another.
pub trait Identified: Sized {
    /// Both items stand for the same thing.
    spec fn same_as(&self, other: &Self) -> bool;

    /// Tells whether both items stand for the same thing.
    fn is_same(&self, other: &Self) -> (r: bool)
        ensures
            r == self.same_as(other),
    ;
}

/// `x` placed into `s` after every item that does not rank above it.
pub open spec fn insert_ranked<T: Ranked>(s: Seq<T>, x: T) -> Seq<T>
    decreases s.len(),
{
    if s.len() == 0 {
        seq![x]
    } else if bytes_lt(x.rank(), s[0].rank()) {
        seq![x] + s
    } else {
        seq![s[0]] + insert_ranked(s.drop_first(), x)
    }
}

/// The stable sort of `s` by rank: items with equal ranks keep their order.
pub open spec fn sort_ranked<T: Ranked>(s: Seq<T>) -> Seq<T>
    decreases s.len(),
{
    if s.len() == 0 {
        s
    } else {
        insert_ranked(sort_ranked(s.drop_last()), s.last())
    }
}

/// No item ranks below an earlier one.
pub open spec fn is_rank_sorted<T: Ranked>(s: Seq<T>) -> bool {
    forall|i: int, j: int| 0 <= i < j < s.len() ==> !bytes_lt(#[trigger] s[j].rank(), #[trigger] s[i].rank())
}

/// `s` with every item dropped that stands for the same thing as the last
/// item kept before it.
pub open spec fn dedup_same<T: Identified>(s: Seq<T>) -> Seq<T>
    decreases s.len(),
{
    if s.len() == 0 {
        s
    } else {
        let d = dedup_same(s.drop_last());
        if d.len() > 0 && d.last().same_as(&s.last()) {
            d
        } else {
            d.push(s.last())
        }
    }
}

/// `y` is `x`, or stands for the same thing as `x`.
pub open spec fn stands_for<T: Identified>(y: T, x: T) -> bool {
    y == x || y.same_as(&x)
}

/// Some item of `d` is `x` or stands for the same thing as `x`.
pub open spec fn represented_in<T: Identified>(d: Seq<T>, x: T) -> bool {
    exists|k: int| 0 <= k < d.len() && stands_for(#[trigger] d[k], x)
}

/// Placing `x` before the first item that ranks above it is `insert_ranked`.
pub(crate) proof fn lemma_insert_at<T: Ranked>(s: Seq<T>, x: T, p: int)
    requires
        0 <= p <= s.len(),
        forall|j: int| 0 <= j < p ==> !bytes_lt(x.rank(), #[trigger] s[j].rank()),
        p < s.len() ==> bytes_lt(x.rank(), s[p].rank()),
    ensures
        insert_ranked(s, x) == s.insert(p, x),
    decreases s.len(),
{
    if s.len() == 0 {
        assert(seq![x] =~= s.insert(p, x));
    } else if p == 0 {
        assert(seq![x] + s =~= s.insert(0, x));
    } else {
        assert(!bytes_lt(x.rank(), s[0].rank()));
        let r = s.drop_first();
        assert forall|j: int| 0 <= j < p - 1 implies !bytes_lt(x.rank(), #[trigger] r[j].rank()) by {
            assert(r[j] == s[j + 1]);
        }
        lemma_insert_at(r, x, p - 1);
        assert(seq![s[0]] + r.insert(p - 1, x) =~= s.insert(p, x));
    }
}

/// `s` and `t` merged by rank: the front item of lower rank comes first,
/// and of two fronts with equal ranks the one of `s`.
pub open spec fn merge_ranked<T: Ranked>(s: Seq<T>, t: Seq<T>) -> Seq<T>
    decreases s.len() + t.len(),
{
    if s.len() == 0 {
        t
    } else if t.len() == 0 {
        s
    } else if bytes_lt(t[0].rank(), s[0].rank()) {
        seq![t[0]] + merge_ranked(s, t.drop_first())
    } else {
        seq![s[0]] + merge_ranked(s.drop_first(), t)
    }
}

/// Inserting into a merge is merging with the insertion into the second
/// sequence: both place `x` after every item that does not rank above it.
proof fn lemma_insert_merge<T: Ranked>(s: Seq<T>, t: Seq<T>, x: T)
    ensures
        insert_ranked(merge_ranked(s, t), x) == merge_ranked(s, insert_ranked(t, x)),
    decreases s.len() + t.len(),
{
    let u = insert_ranked(t, x);
    if s.len() == 0 {
    } else if t.len() == 0 {
        assert(u =~= seq![x]);
        assert(merge_ranked(s, t) == s);
        if bytes_lt(x.rank(), s[0].rank()) {
            assert(u.drop_first() =~= t);
            assert(merge_ranked(s, u) == seq![x] + merge_ranked(s, t));
        } else {
            lemma_insert_merge(s.drop_first(), t, x);
            assert(merge_ranked(s.drop_first(), t) == s.drop_first());
            assert(s =~= seq![s[0]] + s.drop_first());
            assert(insert_ranked(s, x) == seq![s[0]] + insert_ranked(s.drop_first(), x));
            assert(merge_ranked(s, u) == seq![s[0]] + merge_ranked(s.drop_first(), u));
        }
    } else {
        let s0 = s[0];
        let t0 = t[0];
        let m = merge_ranked(s, t);
        if bytes_lt(t0.rank(), s0.rank()) {
            assert(m == seq![t0] + merge_ranked(s, t.drop_first()));
            assert(m[0] == t0);
            if bytes_lt(x.rank(), t0.rank()) {
                lemma_lt_transitive(x.rank(), t0.rank(), s0.rank());
                assert(u == seq![x] + t);
                assert(u[0] == x);
                assert(u.drop_first() =~= t);
                assert(merge_ranked(s, u) == seq![x] + merge_ranked(s, t));
                assert(insert_ranked(m, x) == seq![x] + m);
            } else {
                lemma_insert_merge(s, t.drop_first(), x);
                let v = insert_ranked(t.drop_first(), x);
                assert(u == seq![t0] + v);
                assert(u[0] == t0);
                assert(u.drop_first() =~= v);
                assert(merge_ranked(s, u) == seq![t0] + merge_ranked(s, v));
                assert(m.drop_first() =~= merge_ranked(s, t.drop_first()));
                assert(insert_ranked(m, x) == seq![t0] + insert_ranked(m.drop_first(), x));
            }
        } else {
            assert(m == seq![s0] + merge_ranked(s.drop_first(), t));
            assert(m[0] == s0);
            assert(m.drop_first() =~= merge_ranked(s.drop_first(), t));
            if bytes_lt(x.rank(), s0.rank()) {
                crate::bytes::lemma_lt_total(s0.rank(), t0.rank());
                if bytes_lt(s0.rank(), t0.rank()) {
                    lemma_lt_transitive(x.rank(), s0.rank(), t0.rank());
                }
                assert(u == seq![x] + t);
                assert(u[0] == x);
                assert(u.drop_first() =~= t);
                assert(merge_ranked(s, u) == seq![x] + merge_ranked(s, t));
                assert(insert_ranked(m, x) == seq![x] + m);
            } else {
                lemma_insert_merge(s.drop_first(), t, x);
                assert(u.len() > 0);
                assert(!bytes_lt(u[0].rank(), s0.rank()));
                assert(merge_ranked(s, u) == seq![s0] + merge_ranked(s.drop_first(), u));
                assert(insert_ranked(m, x) == seq![s0] + insert_ranked(m.drop_first(), x));
            }
        }
    }
}

/// Sorting a concatenation is merging the sorted parts.
proof fn lemma_sort_concat<T: Ranked>(a: Seq<T>, b: Seq<T>)
    ensures
        sort_ranked(a + b) == merge_ranked(sort_ranked(a), sort_ranked(b)),
    decreases b.len(),
{
    if b.len() == 0 {
        assert(a + b =~= a);
    } else {
        lemma_sort_concat(a, b.drop_last());
        assert((a + b).drop_last() =~= a + b.drop_last());
        assert((a + b).last() == b.last());
        lemma_insert_merge(sort_ranked(a), sort_ranked(b.drop_last()), b.last());
    }
}

/// Merges two queues by rank, taking from `s` on equal ranks.
fn merge_by_rank<T: Ranked>(s: VecDeque<T>, t: VecDeque<T>) -> (r: VecDeque<T>)
    ensures
        r@ == merge_ranked(s@, t@),
{
    broadcast use vstd::std_specs::vecdeque::group_vec_dequeue_axioms;

    let ghost goal = merge_ranked(s@, t@);
    let mut s = s;
    let mut t = t;
    let mut out: VecDeque<T> = VecDeque::new();
    assert(out@ + merge_ranked(s@, t@) =~= goal);
    while s.len() > 0 && t.len() > 0
        invariant
            out@ + merge_ranked(s@, t@) == goal,
        decreases s@.len() + t@.len(),
    {
        let ghost before = out@;
        let ghost rest = merge_ranked(s@, t@);
        let take_second = bytes_less(t[0].rank_bytes(), s[0].rank_bytes());
        if take_second {
            let x = t.pop_front().unwrap();
            out.push_back(x);
            proof {
                assert(rest == seq![x] + merge_ranked(s@, t@));
            }
        } else {
            let x = s.pop_front().unwrap();
            out.push_back(x);
            proof {
                assert(rest == seq![x] + merge_ranked(s@, t@));
            }
        }
        assert(out@ + merge_ranked(s@, t@) =~= before + rest);
    }
    assert(merge_ranked(s@, t@) =~= s@ + t@);
    out.append(&mut s);
    out.append(&mut t);
    out
}

/// Sorts a queue stably by rank, by halves.
fn sort_queue<T: Ranked>(d: VecDeque<T>) -> (r: VecDeque<T>)
    ensures
        r@ == sort_ranked(d@),
    decreases d@.len(),
{
    broadcast use vstd::std_specs::vecdeque::group_vec_dequeue_axioms;

    if d.len() <= 1 {
        proof {
            if d@.len() == 1 {
                let e = d@.drop_last();
                assert(e =~= Seq::<T>::empty());
                assert(sort_ranked(e) == e);
                assert(insert_ranked(e, d@.last()) == seq![d@.last()]);
                assert(d@ =~= seq![d@.last()]);
            } else {
                assert(d@.len() == 0);
            }
        }
        return d;
    }
    let mut front = d;
    let ghost whole = front@;
    let mid = front.len() / 2;
    let back = front.split_off(mid);
    proof {
        assert(whole =~= front@ + back@);
        lemma_sort_concat(front@, back@);
    }
    let a = sort_queue(front);
    let b = sort_queue(back);
    merge_by_rank(a, b)
}

/// Sorts `items` stably by rank.
pub fn sort_by_rank<T: Ranked>(items: Vec<T>) -> (r: Vec<T>)
    ensures
        r@ == sort_ranked(items@),
{
    broadcast use vstd::std_specs::vec::axiom_spec_into_iter;
    broadcast use vstd::std_specs::vecdeque::group_vec_dequeue_axioms;

    let ghost orig = items@;
    let mut queue: VecDeque<T> = VecDeque::new();
    assert(orig.take(0) =~= Seq::<T>::empty());
    for x in it: items.into_iter()
        invariant
            it.seq() == orig,
            queue@ == orig.take(it.index() as int),
    {
        proof {
            let i = it.index();
            assert(orig.take(i + 1) =~= orig.take(i as int).push(x));
        }
        queue.push_back(x);
    }
    assert(orig.take(orig.len() as int) =~= orig);
    let mut sorted = sort_queue(queue);
    let ghost all = sorted@;
    let mut out: Vec<T> = Vec::new();
    assert(out@ + sorted@ =~= all);
    while sorted.len() > 0
        invariant
            out@ + sorted@ == all,
        decreases sorted@.len(),
    {
        let ghost before = out@ + sorted@;
        let x = sorted.pop_front().unwrap();
        out.push(x);
        assert(out@ + sorted@ =~= before);
    }
    assert(out@ =~= all);
    out
}

/// Drops every item that stands for the same thing as the last item kept
/// before it.
pub fn dedup_by_same<T: Identified>(items: Vec<T>) -> (r: Vec<T>)
    ensures
        r@ == dedup_same(items@),
{
    broadcast use vstd::std_specs::vec::axiom_spec_into_iter;

    let ghost orig = items@;
    let mut out: Vec<T> = Vec::new();
    assert(orig.take(0) =~= Seq::<T>::empty());
    for x in it: items.into_iter()
        invariant
            it.seq() == orig,
            out@ == dedup_same(orig.take(it.index() as int)),
    {
        proof {
            let i = it.index();
            assert(orig.take(i + 1).drop_last() =~= orig.take(i as int));
            assert(orig.take(i + 1).last() == x);
        }
        let repeated = out.len() > 0 && out[out.len() - 1].is_same(&x);
        if !repeated {
            out.push(x);
        }
    }
    assert(orig.take(orig.len() as int) =~= orig);
    out
}

/// Inserting keeps every item at or above a bound that all of them are at
/// or above.
proof fn lemma_insert_lower_bound<T: Ranked>(s: Seq<T>, x: T, b: Seq<u8>)
    requires
        forall|j: int| 0 <= j < s.len() ==> !bytes_lt(#[trigger] s[j].rank(), b),
        !bytes_lt(x.rank(), b),
    ensures
        forall|k: int|
            0 <= k < insert_ranked(s, x).len() ==> !bytes_lt(
                #[trigger] insert_ranked(s, x)[k].rank(),
                b,
            ),
        insert_ranked(s, x).len() == s.len() + 1,
    decreases s.len(),
{
    if s.len() > 0 && !bytes_lt(x.rank(), s[0].rank()) {
        let r = s.drop_first();
        assert forall|j: int| 0 <= j < r.len() implies !bytes_lt(#[trigger] r[j].rank(), b) by {
            assert(r[j] == s[j + 1]);
        }
        lemma_insert_lower_bound(r, x, b);
        let t = insert_ranked(r, x);
        assert forall|k: int| 0 <= k < (seq![s[0]] + t).len() implies !bytes_lt(
            #[trigger] (seq![s[0]] + t)[k].rank(),
            b,
        ) by {
            if k > 0 {
                assert((seq![s[0]] + t)[k] == t[k - 1]);
            }
        }
    }
}

/// Inserting into a sorted sequence keeps it sorted.
proof fn lemma_insert_sorted<T: Ranked>(s: Seq<T>, x: T)
    requires
        is_rank_sorted(s),
    ensures
        is_rank_sorted(insert_ranked(s, x)),
        insert_ranked(s, x).len() == s.len() + 1,
    decreases s.len(),
{
    if s.len() == 0 {
    } else if bytes_lt(x.rank(), s[0].rank()) {
        let t = seq![x] + s;
        assert forall|i: int, j: int| 0 <= i < j < t.len() implies !bytes_lt(
            #[trigger] t[j].rank(),
            #[trigger] t[i].rank(),
        ) by {
            if i == 0 {
                assert(t[j] == s[j - 1]);
                if bytes_lt(s[j - 1].rank(), x.rank()) {
                    lemma_lt_transitive(s[j - 1].rank(), x.rank(), s[0].rank());
                    if j - 1 == 0 {
                        lemma_lt_irreflexive(s[0].rank());
                    } else {
                        assert(!bytes_lt(s[j - 1].rank(), s[0].rank()));
                    }
                }
            } else {
                assert(t[i] == s[i - 1]);
                assert(t[j] == s[j - 1]);
            }
        }
    } else {
        let r = s.drop_first();
        assert(is_rank_sorted(r)) by {
            assert forall|i: int, j: int| 0 <= i < j < r.len() implies !bytes_lt(
                #[trigger] r[j].rank(),
                #[trigger] r[i].rank(),
            ) by {
                assert(r[i] == s[i + 1]);
                assert(r[j] == s[j + 1]);
            }
        }
        lemma_insert_sorted(r, x);
        assert forall|j: int| 0 <= j < r.len() implies !bytes_lt(#[trigger] r[j].rank(), s[0].rank()) by {
            assert(r[j] == s[j + 1]);
        }
        lemma_insert_lower_bound(r, x, s[0].rank());
        let u = insert_ranked(r, x);
        let t = seq![s[0]] + u;
        assert forall|i: int, j: int| 0 <= i < j < t.len() implies !bytes_lt(
            #[trigger] t[j].rank(),
            #[trigger] t[i].rank(),
        ) by {
            assert(t[j] == u[j - 1]);
            if i > 0 {
                assert(t[i] == u[i - 1]);
            }
        }
    }
}

/// Inserting adds exactly the inserted item.
proof fn lemma_insert_multiset<T: Ranked>(s: Seq<T>, x: T)
    ensures
        insert_ranked(s, x).to_multiset() == s.to_multiset().insert(x),
    decreases s.len(),
{
    if s.len() == 0 {
        assert(seq![x] =~= s.insert(0, x));
    } else if bytes_lt(x.rank(), s[0].rank()) {
        assert(seq![x] + s =~= s.insert(0, x));
    } else {
        let r = s.drop_first();
        lemma_insert_multiset(r, x);
        let u = insert_ranked(r, x);
        assert(seq![s[0]] + u =~= u.insert(0, s[0]));
        assert(s =~= r.insert(0, s[0]));
        assert(u.insert(0, s[0]).to_multiset() == u.to_multiset().insert(s[0]));
        assert(r.insert(0, s[0]).to_multiset() == r.to_multiset().insert(s[0]));
        assert(r.to_multiset().insert(x).insert(s[0]) =~= r.to_multiset().insert(s[0]).insert(x));
    }
}

/// Sorting by rank yields a sorted sequence.
pub proof fn lemma_sort_sorted<T: Ranked>(s: Seq<T>)
    ensures
        is_rank_sorted(sort_ranked(s)),
        sort_ranked(s).len() == s.len(),
    decreases s.len(),
{
    if s.len() > 0 {
        lemma_sort_sorted(s.drop_last());
        lemma_insert_sorted(sort_ranked(s.drop_last()), s.last());
    }
}

/// Sorting by rank keeps exactly the items it was given: each as often as
/// before.
pub proof fn lemma_sort_permutation<T: Ranked>(s: Seq<T>)
    ensures
        sort_ranked(s).to_multiset() == s.to_multiset(),
    decreases s.len(),
{
    if s.len() > 0 {
        lemma_sort_permutation(s.drop_last());
        lemma_insert_multiset(sort_ranked(s.drop_last()), s.last());
        assert(s =~= s.drop_last().insert(s.len() - 1, s.last()));
    } else {
        assert(s =~= Seq::<T>::empty());
    }
}

/// After removing repeats no item stands for the same thing as the item
/// just before it.
pub proof fn lemma_dedup_no_adjacent_repeat<T: Identified>(s: Seq<T>)
    ensures
        forall|k: int|
            0 <= k < dedup_same(s).len() - 1 ==> !(#[trigger] dedup_same(s)[k]).same_as(
                &dedup_same(s)[k + 1],
            ),
    decreases s.len(),
{
    if s.len() > 0 {
        lemma_dedup_no_adjacent_repeat(s.drop_last());
        let d = dedup_same(s.drop_last());
        if !(d.len() > 0 && d.last().same_as(&s.last())) {
            let e = d.push(s.last());
            assert forall|k: int| 0 <= k < e.len() - 1 implies !(#[trigger] e[k]).same_as(&e[k + 1]) by {
                assert(e[k] == d[k]);
                if k + 1 < d.len() {
                    assert(e[k + 1] == d[k + 1]);
                }
            }
        }
    }
}

/// Every item of the result is an item of the input, and every input item
/// stands for the same thing as some item of the result.
pub proof fn lemma_dedup_members<T: Identified>(s: Seq<T>)
    ensures
        forall|k: int|
            0 <= k < dedup_same(s).len() ==> s.contains(#[trigger] dedup_same(s)[k]),
        forall|j: int| 0 <= j < s.len() ==> represented_in(dedup_same(s), #[trigger] s[j]),
        dedup_same(s).len() <= s.len(),
    decreases s.len(),
{
    if s.len() > 0 {
        let p = s.drop_last();
        lemma_dedup_members(p);
        let d = dedup_same(p);
        let e = dedup_same(s);
        assert forall|k: int| 0 <= k < e.len() implies s.contains(#[trigger] e[k]) by {
            if k < d.len() {
                assert(e[k] == d[k]);
                let j = choose|j: int| 0 <= j < p.len() && p[j] == d[k];
                assert(s[j] == p[j]);
            } else {
                assert(e[k] == s[s.len() - 1]);
            }
        }
        assert forall|j: int| 0 <= j < s.len() implies represented_in(e, #[trigger] s[j]) by {
            if j < p.len() {
                assert(s[j] == p[j]);
                assert(represented_in(d, p[j]));
                let k = choose|k: int| 0 <= k < d.len() && stands_for(#[trigger] d[k], p[j]);
                assert(e[k] == d[k]);
            } else {
                if d.len() > 0 && d.last().same_as(&s.last()) {
                    assert(e[d.len() - 1] == d.last());
                    assert(stands_for(e[d.len() - 1], s[j]));
                } else {
                    assert(e[d.len() as int] == s.last());
                    assert(stands_for(e[d.len() as int], s[j]));
                }
            }
        }
    }
}

/// Removing repeats keeps every item at or below a bound that all of them
/// are at or below.
proof fn lemma_dedup_upper_bound<T: Identified + Ranked>(s: Seq<T>, b: Seq<u8>)
    requires
        forall|j: int| 0 <= j < s.len() ==> !bytes_lt(b, #[trigger] s[j].rank()),
    ensures
        forall|k: int| 0 <= k < dedup_same(s).len() ==> !bytes_lt(b, #[trigger] dedup_same(s)[k].rank()),
    decreases s.len(),
{
    if s.len() > 0 {
        let p = s.drop_last();
        assert forall|j: int| 0 <= j < p.len() implies !bytes_lt(b, #[trigger] p[j].rank()) by {
            assert(p[j] == s[j]);
        }
        lemma_dedup_upper_bound(p, b);
        let d = dedup_same(p);
        let e = dedup_same(s);
        assert forall|k: int| 0 <= k < e.len() implies !bytes_lt(b, #[trigger] e[k].rank()) by {
            if k < d.len() {
                assert(e[k] == d[k]);
            } else {
                assert(e[k] == s[s.len() - 1]);
            }
        }
    }
}

/// Removing repeats from a sorted sequence leaves it sorted.
pub proof fn lemma_dedup_sorted<T: Identified + Ranked>(s: Seq<T>)
    requires
        is_rank_sorted(s),
    ensures
        is_rank_sorted(dedup_same(s)),
    decreases s.len(),
{
    if s.len() > 0 {
        let p = s.drop_last();
        assert(is_rank_sorted(p)) by {
            assert forall|i: int, j: int| 0 <= i < j < p.len() implies !bytes_lt(
                #[trigger] p[j].rank(),
                #[trigger] p[i].rank(),
            ) by {
                assert(p[i] == s[i]);
                assert(p[j] == s[j]);
            }
        }
        lemma_dedup_sorted(p);
        let d = dedup_same(p);
        assert forall|j: int| 0 <= j < p.len() implies !bytes_lt(s.last().rank(), #[trigger] p[j].rank()) by {
            assert(p[j] == s[j]);
        }
        lemma_dedup_upper_bound(p, s.last().rank());
        let e = dedup_same(s);
        assert forall|i: int, j: int| 0 <= i < j < e.len() implies !bytes_lt(
            #[trigger] e[j].rank(),
            #[trigger] e[i].rank(),
        ) by {
            assert(e[i] == d[i]);
            if j < d.len() {
                assert(e[j] == d[j]);
            } else {
                assert(e[j] == s.last());
            }
        }
    }
}

/// Items of `s` with equal ranks are the same item.
pub open spec fn ranks_identify<T: Ranked>(s: Seq<T>) -> bool {
    forall|i: int, j: int|
        0 <= i < s.len() && 0 <= j < s.len() && (#[trigger] s[i]).rank() == (#[trigger] s[j]).rank()
            ==> s[i] == s[j]
}

/// Two sorted sequences with the same items, where equal ranks mean equal
/// items, are the same sequence.
proof fn lemma_sorted_unique<T: Ranked>(a: Seq<T>, b: Seq<T>)
    requires
        a.to_multiset() == b.to_multiset(),
        is_rank_sorted(a),
        is_rank_sorted(b),
        ranks_identify(a),
    ensures
        a == b,
    decreases a.len(),
{
    broadcast use vstd::seq_lib::to_multiset_contains;

    vstd::seq_lib::to_multiset_len(a);
    vstd::seq_lib::to_multiset_len(b);
    if a.len() == 0 {
        assert(a =~= b);
    } else {
        let x = a[0];
        let y = b[0];
        assert(b.to_multiset().count(y) > 0);
        assert(a.contains(y));
        let j = choose|j: int| 0 <= j < a.len() && a[j] == y;
        assert(a.to_multiset().count(x) > 0);
        assert(b.contains(x));
        let i = choose|i: int| 0 <= i < b.len() && b[i] == x;
        if j > 0 {
            assert(!bytes_lt(a[j].rank(), a[0].rank()));
        }
        if i > 0 {
            assert(!bytes_lt(b[i].rank(), b[0].rank()));
        }
        crate::bytes::lemma_lt_irreflexive(x.rank());
        crate::bytes::lemma_lt_total(x.rank(), y.rank());
        assert(x.rank() == y.rank());
        assert(a[0] == a[j]);
        let a1 = a.drop_first();
        let b1 = b.drop_first();
        assert(a =~= a1.insert(0, x));
        assert(b =~= b1.insert(0, x));
        assert(a1.insert(0, x).to_multiset() == a1.to_multiset().insert(x));
        assert(b1.insert(0, x).to_multiset() == b1.to_multiset().insert(x));
        assert(a1.to_multiset() =~= b1.to_multiset()) by {
            broadcast use vstd::multiset::group_multiset_axioms;

            assert forall|v: T| #[trigger] a1.to_multiset().count(v) == b1.to_multiset().count(v) by {
                assert(a1.to_multiset().insert(x).count(v) == b1.to_multiset().insert(x).count(v));
            }
        }
        assert(is_rank_sorted(a1)) by {
            assert forall|p: int, q: int| 0 <= p < q < a1.len() implies !bytes_lt(
                #[trigger] a1[q].rank(),
                #[trigger] a1[p].rank(),
            ) by {
                assert(a1[p] == a[p + 1]);
                assert(a1[q] == a[q + 1]);
            }
        }
        assert(is_rank_sorted(b1)) by {
            assert forall|p: int, q: int| 0 <= p < q < b1.len() implies !bytes_lt(
                #[trigger] b1[q].rank(),
                #[trigger] b1[p].rank(),
            ) by {
                assert(b1[p] == b[p + 1]);
                assert(b1[q] == b[q + 1]);
            }
        }
        assert(ranks_identify(a1)) by {
            assert forall|p: int, q: int|
                0 <= p < a1.len() && 0 <= q < a1.len() && (#[trigger] a1[p]).rank() == (
                #[trigger] a1[q]).rank() implies a1[p] == a1[q] by {
                assert(a1[p] == a[p + 1]);
                assert(a1[q] == a[q + 1]);
            }
        }
        lemma_sorted_unique(a1, b1);
        assert(a =~= b);
    }
}

/// Where equal ranks mean equal items, the sorted order does not depend on
/// the order in which the items came: sequences with the same items sort
/// to the same sequence.
pub proof fn lemma_sort_order_independent<T: Ranked>(s1: Seq<T>, s2: Seq<T>)
    requires
        s1.to_multiset() == s2.to_multiset(),
        ranks_identify(s1),
    ensures
        sort_ranked(s1) == sort_ranked(s2),
{
    broadcast use vstd::seq_lib::to_multiset_contains;

    let a = sort_ranked(s1);
    let b = sort_ranked(s2);
    lemma_sort_sorted(s1);
    lemma_sort_sorted(s2);
    lemma_sort_permutation(s1);
    lemma_sort_permutation(s2);
    assert forall|i: int, j: int|
        0 <= i < a.len() && 0 <= j < a.len() && (#[trigger] a[i]).rank() == (#[trigger] a[j]).rank()
            implies a[i] == a[j] by {
        assert(a.to_multiset().count(a[i]) > 0);
        assert(a.to_multiset().count(a[j]) > 0);
        assert(s1.contains(a[i]));
        assert(s1.contains(a[j]));
        let p = choose|p: int| 0 <= p < s1.len() && s1[p] == a[i];
        let q = choose|q: int| 0 <= q < s1.len() && s1[q] == a[j];
        assert(s1[p].rank() == s1[q].rank());
    }
    lemma_sorted_unique(a, b);
}

} // verus!
