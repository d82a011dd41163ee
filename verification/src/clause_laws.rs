use crate::sat::{
    admits, contradictory, is_merge, merged, narrowed, ordered, positions, satisfies, union_terms,
    Term,
};
use vstd::prelude::*;

verus! {

/// Two ordered lists that hold the same literals are the same list.
pub proof fn lemma_ordered_unique(x: Seq<Term>, y: Seq<Term>)
    requires
        ordered(x),
        ordered(y),
        x.to_set() == y.to_set(),
    ensures
        x == y,
    decreases x.len(),
{
    if x.len() == 0 {
        if y.len() > 0 {
            assert(y.contains(y[0]));
            assert(y.to_set().contains(y[0]));
            assert(x.to_set().contains(y[0]));
        }
        assert(x =~= y);
    } else {
        let last = x.last();
        assert(x.contains(last));
        assert(x.to_set().contains(last));
        assert(y.to_set().contains(last));
        let k = choose|k: int| 0 <= k < y.len() && y[k] == last;
        assert(y.contains(y.last()));
        assert(y.to_set().contains(y.last()));
        assert(x.to_set().contains(y.last()));
        let l = choose|l: int| 0 <= l < x.len() && x[l] == y.last();
        assert(k == y.len() - 1);
        let xs = x.drop_last();
        let ys = y.drop_last();
        assert forall|t: Term| xs.to_set().contains(t) <==> ys.to_set().contains(t) by {
            if xs.contains(t) {
                let i = choose|i: int| 0 <= i < xs.len() && xs[i] == t;
                assert(x[i] == t);
                assert(x.contains(t));
                assert(x.to_set().contains(t));
                assert(y.to_set().contains(t));
                let m = choose|m: int| 0 <= m < y.len() && y[m] == t;
                assert(x[i].id < x.last().id);
                assert(ys[m] == t);
            }
            if ys.contains(t) {
                let i = choose|i: int| 0 <= i < ys.len() && ys[i] == t;
                assert(y[i] == t);
                assert(y.contains(t));
                assert(y.to_set().contains(t));
                assert(x.to_set().contains(t));
                let m = choose|m: int| 0 <= m < x.len() && x[m] == t;
                assert(y[i].id < y.last().id);
                assert(xs[m] == t);
            }
        }
        assert(xs.to_set() =~= ys.to_set());
        lemma_ordered_unique(xs, ys);
        assert(x =~= xs.push(last));
        assert(y =~= ys.push(last));
    }
}

/// The union of two ordered lists that do not contradict each other is
/// ordered and holds the literals of either, and no others.
pub proof fn lemma_union_terms(a: Seq<Term>, b: Seq<Term>)
    requires
        ordered(a),
        ordered(b),
        !contradictory(a, b),
    ensures
        ordered(union_terms(a, b)),
        forall|t: Term| union_terms(a, b).contains(t) <==> a.contains(t) || b.contains(t),
        union_terms(a, b).to_set() == a.to_set().union(b.to_set()),
    decreases a.len() + b.len(),
{
    let u = union_terms(a, b);
    if a.len() == 0 {
    } else if b.len() == 0 {
    } else {
        let la = a.last();
        let lb = b.last();
        let a1 = if la.id >= lb.id {
            a.drop_last()
        } else {
            a
        };
        let b1 = if la.id <= lb.id {
            b.drop_last()
        } else {
            b
        };
        let top = if la.id >= lb.id {
            la
        } else {
            lb
        };
        assert(!contradictory(a1, b1)) by {
            if contradictory(a1, b1) {
                let (i, j) = choose|i: int, j: int|
                    0 <= i < a1.len() && 0 <= j < b1.len() && (#[trigger] a1[i]).id == (
                    #[trigger] b1[j]).id && a1[i].negated != b1[j].negated;
                assert(a[i].id == b[j].id && a[i].negated != b[j].negated);
            }
        }
        lemma_union_terms(a1, b1);
        let v = union_terms(a1, b1);
        assert(u == v.push(top));
        if la.id == lb.id {
            assert(a[a.len() - 1].id == b[b.len() - 1].id);
            assert(la.negated == lb.negated);
            assert(la == lb);
        }
        assert forall|i: int| 0 <= i < v.len() implies (#[trigger] v[i]).id < top.id by {
            assert(v.contains(v[i]));
            if a1.contains(v[i]) {
                let x = choose|x: int| 0 <= x < a1.len() && a1[x] == v[i];
                assert(a[x] == v[i]);
                if x < a.len() - 1 {
                    assert(a[x].id < a[a.len() - 1].id);
                }
            } else {
                let x = choose|x: int| 0 <= x < b1.len() && b1[x] == v[i];
                assert(b[x] == v[i]);
                if x < b.len() - 1 {
                    assert(b[x].id < b[b.len() - 1].id);
                }
            }
        }
        assert forall|i: int, j: int| 0 <= i < j < u.len() implies u[i].id < u[j].id by {
            if j < v.len() {
                assert(u[i] == v[i] && u[j] == v[j]);
            } else {
                assert(u[i] == v[i]);
            }
        }
        assert forall|t: Term| u.contains(t) <==> a.contains(t) || b.contains(t) by {
            if u.contains(t) {
                let i = choose|i: int| 0 <= i < u.len() && u[i] == t;
                if i < v.len() {
                    assert(v[i] == t);
                    assert(v.contains(t));
                    if a1.contains(t) {
                        let x = choose|x: int| 0 <= x < a1.len() && a1[x] == t;
                        assert(a[x] == t);
                    } else {
                        let x = choose|x: int| 0 <= x < b1.len() && b1[x] == t;
                        assert(b[x] == t);
                    }
                } else {
                    assert(t == top);
                    assert(a[a.len() - 1] == la);
                    assert(b[b.len() - 1] == lb);
                }
            }
            if a.contains(t) {
                let x = choose|x: int| 0 <= x < a.len() && a[x] == t;
                if x < a1.len() {
                    assert(a1[x] == t);
                    assert(a1.contains(t));
                    assert(v.contains(t));
                    let i = choose|i: int| 0 <= i < v.len() && v[i] == t;
                    assert(u[i] == t);
                } else {
                    assert(t == top);
                    assert(u[v.len() as int] == t);
                }
            }
            if b.contains(t) {
                let x = choose|x: int| 0 <= x < b.len() && b[x] == t;
                if x < b1.len() {
                    assert(b1[x] == t);
                    assert(b1.contains(t));
                    assert(v.contains(t));
                    let i = choose|i: int| 0 <= i < v.len() && v[i] == t;
                    assert(u[i] == t);
                } else {
                    assert(t == top);
                    assert(u[v.len() as int] == t);
                }
            }
        }
    }
    assert(union_terms(a, b).to_set() =~= a.to_set().union(b.to_set()));
}

/// Merging is determined by what it must give: `merged` is the one result
/// that is nothing exactly on a contradiction and otherwise the ordered list
/// of the literals of either side.
pub proof fn lemma_merge_determined(a: Seq<Term>, b: Seq<Term>, result: Option<Seq<Term>>)
    requires
        ordered(a),
        ordered(b),
    ensures
        is_merge(a, b, result) <==> result == merged(a, b),
{
    if !contradictory(a, b) {
        lemma_union_terms(a, b);
        if let Some(c) = result {
            if is_merge(a, b, result) {
                lemma_ordered_unique(c, union_terms(a, b));
            }
        }
    }
}

/// Contradiction does not depend on the order of the two sides.
pub proof fn lemma_contradictory_symmetric(a: Seq<Term>, b: Seq<Term>)
    ensures
        contradictory(a, b) == contradictory(b, a),
{
    if contradictory(a, b) {
        let (i, j) = choose|i: int, j: int|
            0 <= i < a.len() && 0 <= j < b.len() && (#[trigger] a[i]).id == (#[trigger] b[j]).id
                && a[i].negated != b[j].negated;
        assert(b[j].id == a[i].id && b[j].negated != a[i].negated);
    }
    if contradictory(b, a) {
        let (i, j) = choose|i: int, j: int|
            0 <= i < b.len() && 0 <= j < a.len() && (#[trigger] b[i]).id == (#[trigger] a[j]).id
                && b[i].negated != a[j].negated;
        assert(a[j].id == b[i].id && a[j].negated != b[i].negated);
    }
}

/// Merging gives the same whichever side comes first, and the result speaks
/// of exactly the positions that either side speaks of.
pub proof fn lemma_merge_commutative(a: Seq<Term>, b: Seq<Term>)
    requires
        ordered(a),
        ordered(b),
    ensures
        merged(a, b) == merged(b, a),
        merged(a, b) matches Some(c) ==> positions(c) == positions(a).union(positions(b)),
{
    lemma_contradictory_symmetric(a, b);
    if !contradictory(a, b) {
        lemma_union_terms(a, b);
        lemma_union_terms(b, a);
        let c = union_terms(a, b);
        assert(c.to_set() =~= union_terms(b, a).to_set());
        lemma_ordered_unique(c, union_terms(b, a));
        assert forall|id: int| positions(c).contains(id) <==> positions(a).union(
            positions(b),
        ).contains(id) by {
            if positions(c).contains(id) {
                let i = choose|i: int| 0 <= i < c.len() && (#[trigger] c[i]).id == id;
                assert(c.contains(c[i]));
                if a.contains(c[i]) {
                    let x = choose|x: int| 0 <= x < a.len() && a[x] == c[i];
                    assert(a[x].id == id);
                } else {
                    let x = choose|x: int| 0 <= x < b.len() && b[x] == c[i];
                    assert(b[x].id == id);
                }
            }
            if positions(a).contains(id) {
                let x = choose|x: int| 0 <= x < a.len() && (#[trigger] a[x]).id == id;
                assert(a.contains(a[x]));
                assert(c.contains(a[x]));
                let i = choose|i: int| 0 <= i < c.len() && c[i] == a[x];
                assert(c[i].id == id);
            }
            if positions(b).contains(id) {
                let x = choose|x: int| 0 <= x < b.len() && (#[trigger] b[x]).id == id;
                assert(b.contains(b[x]));
                assert(c.contains(b[x]));
                let i = choose|i: int| 0 <= i < c.len() && c[i] == b[x];
                assert(c[i].id == id);
            }
        }
        assert(positions(c) =~= positions(a).union(positions(b)));
    }
}

/// A message satisfies the merge of two clauses exactly when it satisfies
/// both; no message satisfies two clauses that contradict each other.
pub proof fn lemma_merge_meaning(l: Seq<Term>, r: Seq<Term>, message: Seq<bool>)
    requires
        ordered(l),
        ordered(r),
    ensures
        match merged(l, r) {
            Some(c) => satisfies(message, c) <==> satisfies(message, l) && satisfies(message, r),
            None => !(satisfies(message, l) && satisfies(message, r)),
        },
{
    if contradictory(l, r) {
        let (i, j) = choose|i: int, j: int|
            0 <= i < l.len() && 0 <= j < r.len() && (#[trigger] l[i]).id == (#[trigger] r[j]).id
                && l[i].negated != r[j].negated;
        if satisfies(message, l) && satisfies(message, r) {
            assert(message[l[i].id as int] == !l[i].negated);
            assert(message[r[j].id as int] == !r[j].negated);
        }
    } else {
        lemma_union_terms(l, r);
        let c = union_terms(l, r);
        if satisfies(message, c) {
            assert forall|i: int| 0 <= i < l.len() implies (#[trigger] l[i]).id < message.len()
                && message[l[i].id as int] == !l[i].negated by {
                assert(l.contains(l[i]));
                let x = choose|x: int| 0 <= x < c.len() && c[x] == l[i];
                assert(c[x].id < message.len());
            }
            assert forall|i: int| 0 <= i < r.len() implies (#[trigger] r[i]).id < message.len()
                && message[r[i].id as int] == !r[i].negated by {
                assert(r.contains(r[i]));
                let x = choose|x: int| 0 <= x < c.len() && c[x] == r[i];
                assert(c[x].id < message.len());
            }
        }
        if satisfies(message, l) && satisfies(message, r) {
            assert forall|i: int| 0 <= i < c.len() implies (#[trigger] c[i]).id < message.len()
                && message[c[i].id as int] == !c[i].negated by {
                assert(c.contains(c[i]));
                if l.contains(c[i]) {
                    let x = choose|x: int| 0 <= x < l.len() && l[x] == c[i];
                    assert(l[x].id < message.len());
                } else {
                    let x = choose|x: int| 0 <= x < r.len() && r[x] == c[i];
                    assert(r[x].id < message.len());
                }
            }
        }
    }
}

/// Narrowing intersects: a message is admitted by what narrowing by a clause
/// set that is not empty leaves exactly when both clause sets admit it.
pub proof fn lemma_narrowing_intersects(
    s: Set<Seq<Term>>,
    t: Set<Seq<Term>>,
    message: Seq<bool>,
)
    requires
        forall|c: Seq<Term>| s.contains(c) ==> ordered(c),
        forall|c: Seq<Term>| t.contains(c) ==> ordered(c),
        t != Set::<Seq<Term>>::empty(),
    ensures
        admits(narrowed(s, t), message) <==> admits(s, message) && admits(t, message),
{
    let u = narrowed(s, t);
    if admits(u, message) {
        let c = choose|c: Seq<Term>| #[trigger] u.contains(c) && satisfies(message, c);
        let (l, r) = choose|l: Seq<Term>, r: Seq<Term>|
            #[trigger] s.contains(l) && #[trigger] t.contains(r) && merged(l, r) == Some(c);
        lemma_merge_meaning(l, r, message);
        assert(s.contains(l) && satisfies(message, l));
        assert(t.contains(r) && satisfies(message, r));
    }
    if admits(s, message) && admits(t, message) {
        let l = choose|l: Seq<Term>| #[trigger] s.contains(l) && satisfies(message, l);
        let r = choose|r: Seq<Term>| #[trigger] t.contains(r) && satisfies(message, r);
        lemma_merge_meaning(l, r, message);
        let c = merged(l, r)->Some_0;
        assert(s.contains(l) && t.contains(r) && merged(l, r) == Some(c));
        assert(u.contains(c));
    }
}

/// Narrowing by what is already known changes nothing: where every message
/// that `s` admits is admitted by `t` too, as it is when `t` is `s` itself,
/// narrowing `s` by `t` leaves the messages that `s` admits.
pub proof fn lemma_narrowing_idempotent(s: Set<Seq<Term>>, t: Set<Seq<Term>>, message: Seq<bool>)
    requires
        forall|c: Seq<Term>| s.contains(c) ==> ordered(c),
        forall|c: Seq<Term>| t.contains(c) ==> ordered(c),
        admits(s, message) ==> admits(t, message),
    ensures
        admits(narrowed(s, t), message) <==> admits(s, message),
{
    if t =~= Set::<Seq<Term>>::empty() {
    } else {
        lemma_narrowing_intersects(s, t, message);
    }
}

/// Two clauses that give one position opposite bits do not merge.
pub proof fn lemma_merge_contradiction(a: Seq<Term>, b: Seq<Term>, i: int, j: int)
    requires
        0 <= i < a.len(),
        0 <= j < b.len(),
        a[i].id == b[j].id,
        a[i].negated != b[j].negated,
    ensures
        merged(a, b) is None,
{
    assert(contradictory(a, b));
}

/// A clause contradicts a merge exactly when it contradicts one of the two
/// sides of the merge.
pub proof fn lemma_contradictory_union(a: Seq<Term>, b: Seq<Term>, c: Seq<Term>)
    requires
        ordered(a),
        ordered(b),
        !contradictory(a, b),
    ensures
        contradictory(union_terms(a, b), c) <==> contradictory(a, c) || contradictory(b, c),
        contradictory(c, union_terms(a, b)) <==> contradictory(c, a) || contradictory(c, b),
{
    let u = union_terms(a, b);
    lemma_union_terms(a, b);
    lemma_contradictory_symmetric(u, c);
    lemma_contradictory_symmetric(a, c);
    lemma_contradictory_symmetric(b, c);
    if contradictory(u, c) {
        let (i, j) = choose|i: int, j: int|
            0 <= i < u.len() && 0 <= j < c.len() && (#[trigger] u[i]).id == (#[trigger] c[j]).id
                && u[i].negated != c[j].negated;
        assert(u.contains(u[i]));
        if a.contains(u[i]) {
            let x = choose|x: int| 0 <= x < a.len() && a[x] == u[i];
            assert(a[x].id == c[j].id && a[x].negated != c[j].negated);
        } else {
            let x = choose|x: int| 0 <= x < b.len() && b[x] == u[i];
            assert(b[x].id == c[j].id && b[x].negated != c[j].negated);
        }
    }
    if contradictory(a, c) {
        let (i, j) = choose|i: int, j: int|
            0 <= i < a.len() && 0 <= j < c.len() && (#[trigger] a[i]).id == (#[trigger] c[j]).id
                && a[i].negated != c[j].negated;
        assert(a.contains(a[i]));
        let x = choose|x: int| 0 <= x < u.len() && u[x] == a[i];
        assert(u[x].id == c[j].id && u[x].negated != c[j].negated);
    }
    if contradictory(b, c) {
        let (i, j) = choose|i: int, j: int|
            0 <= i < b.len() && 0 <= j < c.len() && (#[trigger] b[i]).id == (#[trigger] c[j]).id
                && b[i].negated != c[j].negated;
        assert(b.contains(b[i]));
        let x = choose|x: int| 0 <= x < u.len() && u[x] == b[i];
        assert(u[x].id == c[j].id && u[x].negated != c[j].negated);
    }
}

/// Merging three clauses gives the same whichever two are merged first.
pub proof fn lemma_merge_associative(a: Seq<Term>, b: Seq<Term>, c: Seq<Term>)
    requires
        ordered(a),
        ordered(b),
        ordered(c),
        merged(a, b) is Some,
        merged(b, c) is Some,
    ensures
        merged(merged(a, b)->Some_0, c) == merged(a, merged(b, c)->Some_0),
{
    let ab = union_terms(a, b);
    let bc = union_terms(b, c);
    lemma_union_terms(a, b);
    lemma_union_terms(b, c);
    lemma_contradictory_union(a, b, c);
    lemma_contradictory_union(b, c, a);
    if !contradictory(ab, c) {
        lemma_union_terms(ab, c);
        lemma_union_terms(a, bc);
        assert(union_terms(ab, c).to_set() =~= union_terms(a, bc).to_set());
        lemma_ordered_unique(union_terms(ab, c), union_terms(a, bc));
    }
}

} // verus!
