//! The sorted, de-duplicated form of a sequence does not depend on the order
//! in which its items came, where names identify items: it keeps, for each
//! name, the first item that bore it.
use vstd::prelude::*;

use crate::bytes::{bytes_lt, lemma_lt_irreflexive, lemma_lt_total, lemma_lt_transitive};
use crate::order::{
    Identified, Ranked, dedup_same, insert_ranked, is_rank_sorted, lemma_dedup_members,
    lemma_insert_at, lemma_sort_permutation, lemma_sort_sorted, sort_ranked, stands_for,
};

verus! {

/// Some item of `s` has rank `r`.
pub open spec fn has_rank<T: Ranked>(s: Seq<T>, r: Seq<u8>) -> bool {
    exists|i: int| 0 <= i < s.len() && (#[trigger] s[i]).rank() == r
}

/// Among the items of `s`, equal ranks mean the same thing, and the same
/// thing has one rank.
pub open spec fn names_identify<T: Ranked + Identified>(s: Seq<T>) -> bool {
    forall|i: int, j: int|
        0 <= i < s.len() && 0 <= j < s.len() ==> ((#[trigger] s[i]).rank() == (
        #[trigger] s[j]).rank() <==> s[i].same_as(&s[j]))
}

/// Each rank is strictly above the one before it.
pub open spec fn strictly_ranked<T: Ranked>(s: Seq<T>) -> bool {
    forall|i: int, j: int| 0 <= i < j < s.len() ==> bytes_lt(#[trigger] s[i].rank(), #[trigger] s[j].rank())
}

/// `y` is the first item of `s` with its rank.
pub open spec fn first_of<T: Ranked>(s: Seq<T>, y: T) -> bool {
    exists|i: int|
        #![trigger s[i]]
        0 <= i < s.len() && s[i] == y && forall|j: int| 0 <= j < i ==> (#[trigger] s[j]).rank() != y.rank()
}

/// For each rank that occurs in `s`, the first item of `s` with that rank,
/// in rank order.
pub open spec fn firsts<T: Ranked>(s: Seq<T>) -> Seq<T>
    decreases s.len(),
{
    if s.len() == 0 {
        s
    } else {
        let f = firsts(s.drop_last());
        if has_rank(f, s.last().rank()) {
            f
        } else {
            insert_ranked(f, s.last())
        }
    }
}

/// Where `insert_ranked` places `x`: before the first item that ranks above it.
pub open spec fn insert_pos<T: Ranked>(s: Seq<T>, x: T) -> int
    decreases s.len(),
{
    if s.len() == 0 {
        0
    } else if bytes_lt(x.rank(), s[0].rank()) {
        0
    } else {
        1 + insert_pos(s.drop_first(), x)
    }
}

/// One step of removing repeats: `y` is kept unless it stands for the same
/// thing as the last item kept.
pub open spec fn dedup_step<T: Identified>(d: Seq<T>, y: T) -> Seq<T> {
    if d.len() > 0 && d.last().same_as(&y) {
        d
    } else {
        d.push(y)
    }
}

/// Removing repeats from `b`, after the items `d` were kept.
pub open spec fn dedup_from<T: Identified>(d: Seq<T>, b: Seq<T>) -> Seq<T>
    decreases b.len(),
{
    if b.len() == 0 {
        d
    } else {
        dedup_step(dedup_from(d, b.drop_last()), b.last())
    }
}

/// What removing repeats from `b` adds after the last kept item `l`.
pub open spec fn dedup_tail<T: Identified>(l: T, b: Seq<T>) -> Seq<T> {
    dedup_from(seq![l], b).drop_first()
}

proof fn lemma_insert_pos<T: Ranked>(s: Seq<T>, x: T)
    ensures
        0 <= insert_pos(s, x) <= s.len(),
        forall|j: int| 0 <= j < insert_pos(s, x) ==> !bytes_lt(x.rank(), #[trigger] s[j].rank()),
        insert_pos(s, x) < s.len() ==> bytes_lt(x.rank(), s[insert_pos(s, x)].rank()),
        insert_ranked(s, x) == s.insert(insert_pos(s, x), x),
    decreases s.len(),
{
    if s.len() == 0 {
        assert(seq![x] =~= s.insert(0, x));
    } else if bytes_lt(x.rank(), s[0].rank()) {
        assert(seq![x] + s =~= s.insert(0, x));
    } else {
        let r = s.drop_first();
        lemma_insert_pos(r, x);
        let q = insert_pos(s, x);
        assert forall|j: int| 0 <= j < q implies !bytes_lt(x.rank(), #[trigger] s[j].rank()) by {
            if j > 0 {
                assert(s[j] == r[j - 1]);
            }
        }
        if q < s.len() {
            assert(s[q] == r[q - 1]);
        }
        assert(seq![s[0]] + r.insert(q - 1, x) =~= s.insert(q, x));
    }
}

proof fn lemma_dedup_concat<T: Identified>(c: Seq<T>, b: Seq<T>)
    ensures
        dedup_same(c + b) == dedup_from(dedup_same(c), b),
    decreases b.len(),
{
    if b.len() == 0 {
        assert(c + b =~= c);
    } else {
        lemma_dedup_concat(c, b.drop_last());
        assert((c + b).drop_last() =~= c + b.drop_last());
        assert((c + b).last() == b.last());
    }
}

proof fn lemma_dedup_from_concat<T: Identified>(d: Seq<T>, b1: Seq<T>, b2: Seq<T>)
    ensures
        dedup_from(d, b1 + b2) == dedup_from(dedup_from(d, b1), b2),
    decreases b2.len(),
{
    if b2.len() == 0 {
        assert(b1 + b2 =~= b1);
    } else {
        lemma_dedup_from_concat(d, b1, b2.drop_last());
        assert((b1 + b2).drop_last() =~= b1 + b2.drop_last());
        assert((b1 + b2).last() == b2.last());
    }
}

proof fn lemma_dedup_from_one<T: Identified>(d: Seq<T>, b0: T, rest: Seq<T>)
    ensures
        dedup_from(d, seq![b0] + rest) == dedup_from(dedup_step(d, b0), rest),
{
    lemma_dedup_from_concat(d, seq![b0], rest);
    assert(seq![b0].drop_last() =~= Seq::<T>::empty());
    assert(seq![b0].last() == b0);
    assert(dedup_from(d, seq![b0].drop_last()) == d);
    assert(dedup_from(d, seq![b0]) == dedup_step(d, b0));
}

/// After a non-empty prefix, removing repeats depends only on its last item.
proof fn lemma_dedup_from_tail<T: Identified>(d: Seq<T>, b: Seq<T>)
    requires
        d.len() > 0,
    ensures
        dedup_from(d, b) == d + dedup_tail(d.last(), b),
    decreases b.len(),
{
    let l = d.last();
    if b.len() == 0 {
        assert(dedup_from(seq![l], b) == seq![l]);
        assert(d + dedup_tail(l, b) =~= d);
    } else {
        let b1 = b.drop_last();
        lemma_dedup_from_tail(d, b1);
        lemma_dedup_from_tail(seq![l], b1);
        let k = dedup_tail(l, b1);
        assert(seq![l].last() == l);
        let e1 = d + k;
        let e2 = seq![l] + k;
        assert(e1.last() == e2.last()) by {
            if k.len() == 0 {
                assert(e1.last() == d.last());
                assert(e2.last() == l);
            } else {
                assert(e1.last() == k.last());
                assert(e2.last() == k.last());
            }
        }
        let y = b.last();
        if e1.len() > 0 && e1.last().same_as(&y) {
            assert(dedup_from(seq![l], b) == e2);
            assert(e2.drop_first() =~= k);
        } else {
            assert(dedup_from(seq![l], b) == e2.push(y));
            assert(e2.push(y).drop_first() =~= k.push(y));
            assert(e1.push(y) =~= d + k.push(y));
        }
    }
}

/// The last item kept stands for the last item of the input.
proof fn lemma_dedup_last<T: Identified>(s: Seq<T>)
    requires
        s.len() > 0,
    ensures
        dedup_same(s).len() > 0,
        stands_for(dedup_same(s).last(), s.last()),
{
}

/// The properties of `firsts`: strictly ranked, the ranks of `s`, each item
/// the first of `s` with its rank.
pub proof fn lemma_firsts<T: Ranked>(s: Seq<T>)
    ensures
        strictly_ranked(firsts(s)),
        forall|r: Seq<u8>| #[trigger] has_rank(firsts(s), r) <==> has_rank(s, r),
        forall|k: int| 0 <= k < firsts(s).len() ==> first_of(s, #[trigger] firsts(s)[k]),
    decreases s.len(),
{
    if s.len() > 0 {
        let p = s.drop_last();
        let x = s.last();
        lemma_firsts(p);
        let f = firsts(p);
        assert forall|r: Seq<u8>| has_rank(s, r) <==> (has_rank(p, r) || x.rank() == r) by {
            if has_rank(s, r) {
                let i = choose|i: int| 0 <= i < s.len() && (#[trigger] s[i]).rank() == r;
                if i < p.len() {
                    assert(p[i] == s[i]);
                }
            }
            if has_rank(p, r) {
                let i = choose|i: int| 0 <= i < p.len() && (#[trigger] p[i]).rank() == r;
                assert(s[i] == p[i]);
            }
            if x.rank() == r {
                assert(s[s.len() - 1] == x);
            }
        }
        assert forall|y: T| first_of(p, y) implies first_of(s, y) by {
            let i = choose|i: int|
                #![trigger p[i]]
                0 <= i < p.len() && p[i] == y && forall|j: int|
                    0 <= j < i ==> (#[trigger] p[j]).rank() != y.rank();
            assert(s[i] == p[i]);
            assert forall|j: int| 0 <= j < i implies (#[trigger] s[j]).rank() != y.rank() by {
                assert(s[j] == p[j]);
            }
        }
        if has_rank(f, x.rank()) {
        } else {
            lemma_insert_pos(f, x);
            let q = insert_pos(f, x);
            let g = f.insert(q, x);
            assert(firsts(s) == g);
            assert forall|j: int| 0 <= j < f.len() && j < q implies bytes_lt(
                #[trigger] f[j].rank(),
                x.rank(),
            ) by {
                lemma_lt_total(f[j].rank(), x.rank());
                if f[j].rank() == x.rank() {
                    assert(has_rank(f, x.rank()));
                }
            }
            assert forall|j: int| q <= j < f.len() implies bytes_lt(x.rank(), #[trigger] f[j].rank()) by {
                if j > q {
                    lemma_lt_transitive(x.rank(), f[q].rank(), f[j].rank());
                }
            }
            assert forall|i: int, j: int| 0 <= i < j < g.len() implies bytes_lt(
                #[trigger] g[i].rank(),
                #[trigger] g[j].rank(),
            ) by {
                if i < q {
                    assert(g[i] == f[i]);
                    if j < q {
                        assert(g[j] == f[j]);
                    } else if j == q {
                        assert(g[j] == x);
                    } else {
                        assert(g[j] == f[j - 1]);
                    }
                } else if i == q {
                    assert(g[i] == x);
                    assert(g[j] == f[j - 1]);
                } else {
                    assert(g[i] == f[i - 1]);
                    assert(g[j] == f[j - 1]);
                }
            }
            assert forall|r: Seq<u8>| #[trigger] has_rank(g, r) <==> has_rank(s, r) by {
                if has_rank(g, r) {
                    let i = choose|i: int| 0 <= i < g.len() && (#[trigger] g[i]).rank() == r;
                    if i < q {
                        assert(g[i] == f[i]);
                        assert(has_rank(f, r));
                    } else if i > q {
                        assert(g[i] == f[i - 1]);
                        assert(has_rank(f, r));
                    }
                }
                if has_rank(f, r) {
                    let i = choose|i: int| 0 <= i < f.len() && (#[trigger] f[i]).rank() == r;
                    if i < q {
                        assert(g[i] == f[i]);
                    } else {
                        assert(g[i + 1] == f[i]);
                    }
                }
                if x.rank() == r {
                    assert(g[q] == x);
                }
            }
            assert forall|k: int| 0 <= k < g.len() implies first_of(s, #[trigger] g[k]) by {
                if k == q {
                    assert(g[k] == x);
                    assert(s[s.len() - 1] == x);
                    assert forall|j: int| 0 <= j < s.len() - 1 implies (#[trigger] s[j]).rank() != x.rank() by {
                        assert(s[j] == p[j]);
                        if s[j].rank() == x.rank() {
                            assert(has_rank(p, x.rank()));
                        }
                    }
                } else if k < q {
                    assert(g[k] == f[k]);
                    assert(first_of(p, f[k]));
                } else {
                    assert(g[k] == f[k - 1]);
                    assert(first_of(p, f[k - 1]));
                }
            }
        }
    }
}

proof fn lemma_identify<T: Ranked + Identified>(s: Seq<T>, a: T, b: T)
    requires
        names_identify(s),
        s.contains(a),
        s.contains(b),
    ensures
        a.rank() == b.rank() <==> a.same_as(&b),
{
    let i = choose|i: int| 0 <= i < s.len() && s[i] == a;
    let j = choose|j: int| 0 <= j < s.len() && s[j] == b;
    assert(s[i].rank() == s[j].rank() <==> s[i].same_as(&s[j]));
}

proof fn lemma_members_below<T: Ranked + Identified>(t: Seq<T>, x: T, q: int)
    requires
        0 <= q <= t.len(),
        forall|j: int| 0 <= j < q ==> !bytes_lt(x.rank(), #[trigger] t[j].rank()),
    ensures
        forall|j: int|
            0 <= j < dedup_same(t.take(q)).len() ==> t.contains(#[trigger] dedup_same(t.take(q))[j])
                && !bytes_lt(x.rank(), dedup_same(t.take(q))[j].rank()),
{
    let tq = t.take(q);
    let a = dedup_same(tq);
    lemma_dedup_members(tq);
    assert forall|j: int| 0 <= j < a.len() implies t.contains(#[trigger] a[j]) && !bytes_lt(
        x.rank(),
        a[j].rank(),
    ) by {
        assert(tq.contains(a[j]));
        let i = choose|i: int| 0 <= i < tq.len() && tq[i] == a[j];
        assert(t[i] == tq[i]);
    }
}

/// An item whose name is already there is dropped.
proof fn lemma_step_present<T: Ranked + Identified>(s: Seq<T>, t: Seq<T>, x: T, q: int)
    requires
        names_identify(s),
        s.contains(x),
        forall|y: T| t.contains(y) ==> s.contains(y),
        is_rank_sorted(t),
        0 <= q <= t.len(),
        forall|j: int| 0 <= j < q ==> !bytes_lt(x.rank(), #[trigger] t[j].rank()),
        q < t.len() ==> bytes_lt(x.rank(), t[q].rank()),
        has_rank(t, x.rank()),
    ensures
        dedup_step(dedup_same(t.take(q)), x) == dedup_same(t.take(q)),
{
    let tq = t.take(q);
    let a = dedup_same(tq);
    lemma_members_below(t, x, q);
    let j0 = choose|j: int| 0 <= j < t.len() && (#[trigger] t[j]).rank() == x.rank();
    if j0 >= q {
        lemma_lt_irreflexive(x.rank());
        if j0 > q {
            assert(!bytes_lt(t[j0].rank(), t[q].rank()));
            lemma_lt_total(t[q].rank(), t[j0].rank());
            if bytes_lt(t[q].rank(), t[j0].rank()) {
                lemma_lt_transitive(x.rank(), t[q].rank(), t[j0].rank());
            }
        }
        assert(false);
    }
    assert(!bytes_lt(x.rank(), t[q - 1].rank()));
    assert(t[q - 1].rank() == x.rank()) by {
        lemma_lt_total(t[q - 1].rank(), x.rank());
        if j0 < q - 1 {
            assert(!bytes_lt(t[q - 1].rank(), t[j0].rank()));
        }
    }
    lemma_dedup_last(tq);
    assert(tq.last() == t[q - 1]);
    assert(t.contains(t[q - 1]));
    assert(t.contains(a.last())) by {
        assert(a.last() == a[a.len() - 1]);
    }
    lemma_identify(s, a.last(), t[q - 1]);
    lemma_identify(s, a.last(), x);
    lemma_identify(s, t[q - 1], x);
    assert(a.last().same_as(&x));
}

/// An item with a new name is placed by its rank.
proof fn lemma_step_absent<T: Ranked + Identified>(s: Seq<T>, t: Seq<T>, x: T, q: int)
    requires
        names_identify(s),
        s.contains(x),
        forall|y: T| t.contains(y) ==> s.contains(y),
        0 <= q <= t.len(),
        forall|j: int| 0 <= j < q ==> !bytes_lt(x.rank(), #[trigger] t[j].rank()),
        q < t.len() ==> bytes_lt(x.rank(), t[q].rank()),
        forall|j: int| 0 <= j < t.len() ==> (#[trigger] t[j]).rank() != x.rank(),
    ensures
        dedup_from(dedup_step(dedup_same(t.take(q)), x), t.skip(q)) == insert_ranked(
            dedup_from(dedup_same(t.take(q)), t.skip(q)),
            x,
        ),
{
    let tq = t.take(q);
    let b = t.skip(q);
    let a = dedup_same(tq);
    lemma_members_below(t, x, q);
    assert forall|j: int| 0 <= j < a.len() implies bytes_lt(#[trigger] a[j].rank(), x.rank()) by {
        assert(t.contains(a[j]));
        let i = choose|i: int| 0 <= i < t.len() && t[i] == a[j];
        lemma_lt_total(a[j].rank(), x.rank());
    }
    if a.len() > 0 {
        assert(t.contains(a.last())) by {
            assert(a.last() == a[a.len() - 1]);
        }
        lemma_identify(s, a.last(), x);
        assert(bytes_lt(a[a.len() - 1].rank(), x.rank()));
        lemma_lt_irreflexive(x.rank());
    }
    assert(dedup_step(a, x) == a.push(x));
    if q == t.len() {
        assert(b =~= Seq::<T>::empty());
        assert(dedup_from(a, b) == a);
        lemma_insert_at(a, x, a.len() as int);
        assert(a.insert(a.len() as int, x) =~= a.push(x));
    } else {
        let b0 = t[q];
        let rest = b.drop_first();
        assert(b =~= seq![b0] + rest);
        lemma_dedup_from_one(a.push(x), b0, rest);
        lemma_dedup_from_one(a, b0, rest);
        assert(t.contains(b0));
        lemma_lt_irreflexive(x.rank());
        lemma_identify(s, x, b0);
        assert(a.push(x).last() == x);
        assert(dedup_step(a.push(x), b0) == a.push(x).push(b0));
        if a.len() > 0 {
            assert(bytes_lt(a[a.len() - 1].rank(), x.rank()));
            lemma_lt_transitive(a.last().rank(), x.rank(), b0.rank());
            lemma_lt_irreflexive(b0.rank());
            assert(t.contains(a.last())) by {
                assert(a.last() == a[a.len() - 1]);
            }
            lemma_identify(s, a.last(), b0);
        }
        assert(dedup_step(a, b0) == a.push(b0));
        lemma_dedup_from_tail(a.push(x).push(b0), rest);
        lemma_dedup_from_tail(a.push(b0), rest);
        let k = dedup_tail(b0, rest);
        let d = a.push(b0) + k;
        assert(dedup_from(a, b) == d);
        assert forall|j: int| 0 <= j < a.len() implies !bytes_lt(x.rank(), #[trigger] d[j].rank()) by {
            assert(d[j] == a[j]);
        }
        assert(d[a.len() as int] == b0);
        lemma_insert_at(d, x, a.len() as int);
        assert(d.insert(a.len() as int, x) =~= a.push(x).push(b0) + k);
    }
}

/// Where names identify items, sorting and then removing repeats keeps, for
/// each name, the first item that bore it.
pub proof fn lemma_dedup_sort_is_firsts<T: Ranked + Identified>(s: Seq<T>)
    requires
        names_identify(s),
    ensures
        dedup_same(sort_ranked(s)) == firsts(s),
    decreases s.len(),
{
    broadcast use vstd::seq_lib::to_multiset_contains;

    if s.len() == 0 {
        return;
    }
    let p = s.drop_last();
    let x = s.last();
    assert(names_identify(p)) by {
        assert forall|i: int, j: int| 0 <= i < p.len() && 0 <= j < p.len() implies ((
        #[trigger] p[i]).rank() == (#[trigger] p[j]).rank() <==> p[i].same_as(&p[j])) by {
            assert(p[i] == s[i]);
            assert(p[j] == s[j]);
        }
    }
    lemma_dedup_sort_is_firsts(p);
    lemma_firsts(p);
    let t = sort_ranked(p);
    lemma_sort_sorted(p);
    lemma_sort_permutation(p);
    let f = firsts(p);
    assert(sort_ranked(s) == insert_ranked(t, x));
    lemma_insert_pos(t, x);
    let q = insert_pos(t, x);
    let tq = t.take(q);
    let b = t.skip(q);
    assert(t =~= tq + b);
    assert(t.insert(q, x) =~= tq.push(x) + b);
    lemma_dedup_concat(tq.push(x), b);
    lemma_dedup_concat(tq, b);
    let a = dedup_same(tq);
    assert(tq.push(x).drop_last() =~= tq);
    assert(dedup_same(tq.push(x)) == dedup_step(a, x));
    assert(dedup_same(t) == dedup_from(a, b));
    assert(dedup_same(sort_ranked(s)) == dedup_from(dedup_step(a, x), b));
    assert forall|y: T| t.contains(y) implies s.contains(y) by {
        assert(t.to_multiset().count(y) > 0);
        assert(p.contains(y));
        let i = choose|i: int| 0 <= i < p.len() && p[i] == y;
        assert(s[i] == p[i]);
    }
    assert(s[s.len() - 1] == x);
    if has_rank(f, x.rank()) {
        assert(has_rank(p, x.rank()));
        let i0 = choose|i: int| 0 <= i < p.len() && (#[trigger] p[i]).rank() == x.rank();
        assert(p.to_multiset().count(p[i0]) > 0);
        assert(t.contains(p[i0]));
        let j0 = choose|j: int| 0 <= j < t.len() && t[j] == p[i0];
        assert(has_rank(t, x.rank())) by {
            assert(t[j0].rank() == x.rank());
        }
        lemma_step_present(s, t, x, q);
    } else {
        assert forall|j: int| 0 <= j < t.len() implies (#[trigger] t[j]).rank() != x.rank() by {
            if t[j].rank() == x.rank() {
                assert(t.to_multiset().count(t[j]) > 0);
                assert(p.contains(t[j]));
                let i = choose|i: int| 0 <= i < p.len() && p[i] == t[j];
                assert(has_rank(p, x.rank()));
            }
        }
        lemma_step_absent(s, t, x, q);
    }
}

/// Two strictly ranked sequences with the same ranks have them in the same
/// places.
proof fn lemma_same_rank_sequence<T: Ranked>(f1: Seq<T>, f2: Seq<T>)
    requires
        strictly_ranked(f1),
        strictly_ranked(f2),
        forall|r: Seq<u8>|
            #![trigger has_rank(f1, r)]
            #![trigger has_rank(f2, r)]
            has_rank(f1, r) <==> has_rank(f2, r),
    ensures
        f1.len() == f2.len(),
        forall|k: int| 0 <= k < f1.len() ==> (#[trigger] f1[k]).rank() == f2[k].rank(),
    decreases f1.len(),
{
    if f1.len() == 0 {
        if f2.len() > 0 {
            assert(has_rank(f2, f2[0].rank()));
        }
        return;
    }
    if f2.len() == 0 {
        assert(has_rank(f1, f1[0].rank()));
        return;
    }
    let r1 = f1[0].rank();
    let r2 = f2[0].rank();
    assert(has_rank(f1, r1));
    assert(has_rank(f2, r2));
    let j = choose|j: int| 0 <= j < f2.len() && (#[trigger] f2[j]).rank() == r1;
    let i = choose|i: int| 0 <= i < f1.len() && (#[trigger] f1[i]).rank() == r2;
    if j > 0 && i > 0 {
        assert(bytes_lt(r2, r1));
        assert(bytes_lt(r1, r2));
        lemma_lt_transitive(r1, r2, r1);
        lemma_lt_irreflexive(r1);
    }
    assert(r1 == r2);
    let g1 = f1.drop_first();
    let g2 = f2.drop_first();
    assert(strictly_ranked(g1)) by {
        assert forall|a: int, b: int| 0 <= a < b < g1.len() implies bytes_lt(
            #[trigger] g1[a].rank(),
            #[trigger] g1[b].rank(),
        ) by {
            assert(g1[a] == f1[a + 1]);
            assert(g1[b] == f1[b + 1]);
        }
    }
    assert(strictly_ranked(g2)) by {
        assert forall|a: int, b: int| 0 <= a < b < g2.len() implies bytes_lt(
            #[trigger] g2[a].rank(),
            #[trigger] g2[b].rank(),
        ) by {
            assert(g2[a] == f2[a + 1]);
            assert(g2[b] == f2[b + 1]);
        }
    }
    lemma_lt_irreflexive(r1);
    assert forall|r: Seq<u8>| has_rank(g1, r) <==> (has_rank(f1, r) && r != r1) by {
        if has_rank(g1, r) {
            let a = choose|a: int| 0 <= a < g1.len() && (#[trigger] g1[a]).rank() == r;
            assert(g1[a] == f1[a + 1]);
            assert(bytes_lt(f1[0].rank(), f1[a + 1].rank()));
        }
        if has_rank(f1, r) && r != r1 {
            let a = choose|a: int| 0 <= a < f1.len() && (#[trigger] f1[a]).rank() == r;
            assert(a > 0);
            assert(g1[a - 1] == f1[a]);
        }
    }
    assert forall|r: Seq<u8>| has_rank(g2, r) <==> (has_rank(f2, r) && r != r2) by {
        if has_rank(g2, r) {
            let a = choose|a: int| 0 <= a < g2.len() && (#[trigger] g2[a]).rank() == r;
            assert(g2[a] == f2[a + 1]);
            assert(bytes_lt(f2[0].rank(), f2[a + 1].rank()));
        }
        if has_rank(f2, r) && r != r2 {
            let a = choose|a: int| 0 <= a < f2.len() && (#[trigger] f2[a]).rank() == r;
            assert(a > 0);
            assert(g2[a - 1] == f2[a]);
        }
    }
    assert forall|r: Seq<u8>|
        #![trigger has_rank(g1, r)]
        #![trigger has_rank(g2, r)]
        has_rank(g1, r) <==> has_rank(g2, r) by {
        assert(has_rank(g1, r) <==> (has_rank(f1, r) && r != r1));
        assert(has_rank(g2, r) <==> (has_rank(f2, r) && r != r2));
    }
    lemma_same_rank_sequence(g1, g2);
    assert forall|k: int| 0 <= k < f1.len() implies (#[trigger] f1[k]).rank() == f2[k].rank() by {
        if k > 0 {
            assert(f1[k] == g1[k - 1]);
            assert(f2[k] == g2[k - 1]);
        }
    }
}

/// Within `a`, items with equal ranks have equal keys.
pub open spec fn ranks_fix_keys<T: Ranked, V>(a: Seq<T>, key: spec_fn(T) -> V) -> bool {
    forall|i: int, j: int|
        0 <= i < a.len() && 0 <= j < a.len() && (#[trigger] a[i]).rank() == (#[trigger] a[j]).rank()
            ==> key(a[i]) == key(a[j])
}

/// Sorting and then removing repeats does not depend on the order of the
/// items that follow a fixed prefix `c`, where names identify items and
/// the following items with one name have one key: the same items, in any
/// order, give the same result (compared by key).
pub proof fn lemma_canonical_order_independent<T: Ranked + Identified, V>(
    c: Seq<T>,
    a1: Seq<T>,
    a2: Seq<T>,
    key: spec_fn(T) -> V,
)
    requires
        a1.to_multiset() == a2.to_multiset(),
        names_identify(c + a1),
        ranks_fix_keys(a1, key),
    ensures
        dedup_same(sort_ranked(c + a1)).map_values(|x: T| key(x)) == dedup_same(
            sort_ranked(c + a2),
        ).map_values(|x: T| key(x)),
{
    broadcast use vstd::seq_lib::to_multiset_contains;

    let s1 = c + a1;
    let s2 = c + a2;
    vstd::seq_lib::lemma_multiset_commutative(c, a1);
    vstd::seq_lib::lemma_multiset_commutative(c, a2);
    assert(s1.to_multiset() == s2.to_multiset());
    assert forall|y: T| #[trigger] s1.contains(y) <==> s2.contains(y) by {
        vstd::seq_lib::to_multiset_contains(s1, y);
        vstd::seq_lib::to_multiset_contains(s2, y);
    }
    assert forall|y: T| #[trigger] a1.contains(y) <==> a2.contains(y) by {
        vstd::seq_lib::to_multiset_contains(a1, y);
        vstd::seq_lib::to_multiset_contains(a2, y);
    }
    assert(names_identify(s2)) by {
        assert forall|i: int, j: int| 0 <= i < s2.len() && 0 <= j < s2.len() implies ((
        #[trigger] s2[i]).rank() == (#[trigger] s2[j]).rank() <==> s2[i].same_as(&s2[j])) by {
            assert(s2.contains(s2[i]));
            assert(s2.contains(s2[j]));
            lemma_identify(s1, s2[i], s2[j]);
        }
    }
    lemma_dedup_sort_is_firsts(s1);
    lemma_dedup_sort_is_firsts(s2);
    lemma_firsts(s1);
    lemma_firsts(s2);
    let f1 = firsts(s1);
    let f2 = firsts(s2);
    assert forall|r: Seq<u8>|
        #![trigger has_rank(f1, r)]
        #![trigger has_rank(f2, r)]
        has_rank(f1, r) <==> has_rank(f2, r) by {
        assert(has_rank(f1, r) == has_rank(s1, r));
        assert(has_rank(f2, r) == has_rank(s2, r));
        if has_rank(s1, r) {
            let i = choose|i: int| 0 <= i < s1.len() && (#[trigger] s1[i]).rank() == r;
            assert(s1.contains(s1[i]));
            assert(s2.contains(s1[i]));
            let j = choose|j: int| 0 <= j < s2.len() && s2[j] == s1[i];
            assert(has_rank(s2, r));
        }
        if has_rank(s2, r) {
            let i = choose|i: int| 0 <= i < s2.len() && (#[trigger] s2[i]).rank() == r;
            assert(s2.contains(s2[i]));
            assert(s1.contains(s2[i]));
            let j = choose|j: int| 0 <= j < s1.len() && s1[j] == s2[i];
            assert(has_rank(s1, r));
        }
    }
    lemma_same_rank_sequence(f1, f2);
    assert forall|k: int| 0 <= k < f1.len() implies key(#[trigger] f1[k]) == key(f2[k]) by {
        let r = f1[k].rank();
        assert(first_of(s1, f1[k]));
        assert(first_of(s2, f2[k]));
        let i1 = choose|i: int|
            #![trigger s1[i]]
            0 <= i < s1.len() && s1[i] == f1[k] && forall|j: int|
                0 <= j < i ==> (#[trigger] s1[j]).rank() != f1[k].rank();
        let i2 = choose|i: int|
            #![trigger s2[i]]
            0 <= i < s2.len() && s2[i] == f2[k] && forall|j: int|
                0 <= j < i ==> (#[trigger] s2[j]).rank() != f2[k].rank();
        if has_rank(c, r) {
            let ic = choose|i: int| 0 <= i < c.len() && (#[trigger] c[i]).rank() == r;
            assert(s1[ic] == c[ic]);
            assert(s2[ic] == c[ic]);
            assert(i1 <= ic);
            assert(i2 <= ic);
            if i1 < i2 {
                assert(s2[i1] == c[i1]);
                assert(s1[i1] == c[i1]);
            }
            if i2 < i1 {
                assert(s2[i2] == c[i2]);
                assert(s1[i2] == c[i2]);
            }
            assert(s1[i1] == c[i1]);
            assert(s2[i2] == c[i2]);
        } else {
            if i1 < c.len() {
                assert(s1[i1] == c[i1]);
                assert(has_rank(c, r));
            }
            if i2 < c.len() {
                assert(s2[i2] == c[i2]);
                assert(has_rank(c, r));
            }
            assert(s1[i1] == a1[i1 - c.len()]);
            assert(s2[i2] == a2[i2 - c.len()]);
            assert(a2[i2 - c.len()] == f2[k]);
            assert(a2.contains(f2[k]));
            assert(a1.contains(f2[k]));
            let j2 = choose|j: int| 0 <= j < a1.len() && a1[j] == f2[k];
            assert(a1[i1 - c.len()].rank() == a1[j2].rank());
        }
    }
    assert(f1.map_values(|x: T| key(x)) =~= f2.map_values(|x: T| key(x)));
}

} // verus!
