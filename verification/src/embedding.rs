use crate::combinatorics::lex_less;
use vstd::prelude::*;

verus! {

/// The number of embeddings of `t` in `s`: the ways to pick places of `s` in
/// increasing order that spell `t`.
pub open spec fn embedding_count(s: Seq<bool>, t: Seq<bool>) -> nat
    decreases s.len(),
{
    if t.len() == 0 {
        1
    } else if s.len() == 0 {
        0
    } else {
        embedding_count(s.skip(1), t) + if s[0] == t[0] {
            embedding_count(s.skip(1), t.skip(1))
        } else {
            0
        }
    }
}

/// The number of embeddings of `t` from place `j` on in `s` from place `i`
/// on.
pub open spec fn tail_count(s: Seq<bool>, t: Seq<bool>, i: int, j: int) -> nat
    decreases s.len() - i,
{
    if j >= t.len() {
        1
    } else if i >= s.len() {
        0
    } else {
        tail_count(s, t, i + 1, j) + if s[i] == t[j] {
            tail_count(s, t, i + 1, j + 1)
        } else {
            0
        }
    }
}

/// An embedding of `t` in `s`: one place of `s` for each bit of `t`, in
/// strictly increasing order, each holding the bit it stands for.
pub open spec fn is_embedding(s: Seq<bool>, t: Seq<bool>, e: Seq<usize>) -> bool {
    &&& e.len() == t.len()
    &&& forall|i: int, j: int| 0 <= i < j < e.len() ==> e[i] < e[j]
    &&& forall|j: int| 0 <= j < e.len() ==> (#[trigger] e[j]) < s.len() && s[e[j] as int] == t[j]
}

/// How many embeddings of `t` in `s` come after `e` when only the cursors
/// from `from` on may differ: for each such cursor, those that agree with `e`
/// before it and put it further right.
pub open spec fn later_embeddings(s: Seq<bool>, t: Seq<bool>, e: Seq<usize>, from: int) -> nat
    decreases t.len() - from,
{
    if from < 0 || from >= t.len() || from >= e.len() {
        0
    } else {
        tail_count(s, t, e[from] + 1, from) + later_embeddings(s, t, e, from + 1)
    }
}

/// Counting from a place on is counting in what is left of the sequences.
pub proof fn lemma_tail_count_skip(s: Seq<bool>, t: Seq<bool>, i: int, j: int)
    requires
        0 <= i <= s.len(),
        0 <= j <= t.len(),
    ensures
        tail_count(s, t, i, j) == embedding_count(s.skip(i), t.skip(j)),
    decreases s.len() - i,
{
    if j < t.len() && i < s.len() {
        lemma_tail_count_skip(s, t, i + 1, j);
        lemma_tail_count_skip(s, t, i + 1, j + 1);
        assert(s.skip(i).skip(1) =~= s.skip(i + 1));
        assert(t.skip(j).skip(1) =~= t.skip(j + 1));
    }
}

/// Counting from the start counts every embedding.
pub proof fn lemma_tail_count_all(s: Seq<bool>, t: Seq<bool>)
    ensures
        tail_count(s, t, 0, 0) == embedding_count(s, t),
{
    lemma_tail_count_skip(s, t, 0, 0);
    assert(s.skip(0) =~= s);
    assert(t.skip(0) =~= t);
}

/// Starting further right leaves no more embeddings.
pub proof fn lemma_tail_count_monotone(s: Seq<bool>, t: Seq<bool>, i: int, k: int, j: int)
    requires
        0 <= i <= k,
    ensures
        tail_count(s, t, k, j) <= tail_count(s, t, i, j),
    decreases k - i,
{
    if i < k {
        lemma_tail_count_monotone(s, t, i + 1, k, j);
        if j < t.len() && i >= s.len() {
            assert(tail_count(s, t, k, j) == 0);
        }
    }
}

/// Where what is left of `t` finds no place, the bit before it finds none
/// either, even one place earlier.
pub proof fn lemma_tail_count_blocked(s: Seq<bool>, t: Seq<bool>, x: int, k: int, j: int)
    requires
        0 <= j < t.len(),
        0 <= x,
        x - 1 <= k,
        0 <= k,
        tail_count(s, t, x, j + 1) == 0,
    ensures
        tail_count(s, t, k, j) == 0,
    decreases s.len() - k,
{
    if k < s.len() {
        lemma_tail_count_blocked(s, t, x, k + 1, j);
        lemma_tail_count_monotone(s, t, x, k + 1, j + 1);
    }
}

/// Too few places are left for the bits that are left.
pub proof fn lemma_tail_count_room(s: Seq<bool>, t: Seq<bool>, i: int, j: int)
    requires
        0 <= i <= s.len(),
        0 <= j,
        s.len() - i < t.len() - j,
    ensures
        tail_count(s, t, i, j) == 0,
    decreases s.len() - i,
{
    if i < s.len() {
        lemma_tail_count_room(s, t, i + 1, j);
        lemma_tail_count_room(s, t, i + 1, j + 1);
    }
}

/// Places that do not hold the wanted bit can be passed over.
pub proof fn lemma_tail_count_pass(s: Seq<bool>, t: Seq<bool>, i: int, k: int, j: int)
    requires
        0 <= i <= k <= s.len(),
        0 <= j < t.len(),
        forall|u: int| i <= u < k ==> s[u] != t[j],
    ensures
        tail_count(s, t, i, j) == tail_count(s, t, k, j),
    decreases k - i,
{
    if i < k {
        lemma_tail_count_pass(s, t, i + 1, k, j);
    }
}

/// Cursors that agree contribute the same.
pub proof fn lemma_later_agree(
    s: Seq<bool>,
    t: Seq<bool>,
    a: Seq<usize>,
    b: Seq<usize>,
    from: int,
    upto: int,
)
    requires
        0 <= from <= upto <= t.len(),
        upto <= a.len(),
        upto <= b.len(),
        forall|j: int| from <= j < upto ==> a[j] == b[j],
    ensures
        later_embeddings(s, t, a, from) - later_embeddings(s, t, a, upto) == later_embeddings(
            s,
            t,
            b,
            from,
        ) - later_embeddings(s, t, b, upto),
    decreases upto - from,
{
    if from < upto {
        lemma_later_agree(s, t, a, b, from + 1, upto);
    }
}

/// Cursors that cannot move further right contribute nothing.
pub proof fn lemma_later_none(s: Seq<bool>, t: Seq<bool>, e: Seq<usize>, from: int)
    requires
        0 <= from,
        forall|j: int| from <= j < t.len() && j < e.len() ==> tail_count(s, t, e[j] + 1, j) == 0,
    ensures
        later_embeddings(s, t, e, from) == 0,
    decreases t.len() - from,
{
    if from < t.len() && from < e.len() {
        lemma_later_none(s, t, e, from + 1);
    }
}

/// Behind an embedding come fewer embeddings than there are ways to place
/// the bits from `from` on at the places from `low` on.
pub proof fn lemma_later_embeddings_bound(
    s: Seq<bool>,
    t: Seq<bool>,
    e: Seq<usize>,
    from: int,
    low: int,
)
    requires
        is_embedding(s, t, e),
        0 <= from <= t.len(),
        0 <= low,
        from < t.len() ==> low <= e[from],
    ensures
        later_embeddings(s, t, e, from) + 1 <= tail_count(s, t, low, from),
    decreases t.len() - from,
{
    if from < t.len() {
        if from + 1 < t.len() {
            assert(e[from] < e[from + 1]);
        }
        lemma_later_embeddings_bound(s, t, e, from + 1, e[from] + 1);
        lemma_tail_count_monotone(s, t, low, e[from] as int, from);
        assert(e[from] < s.len() && s[e[from] as int] == t[from]);
    }
}

/// `later_embeddings` goes down along the lexicographic order: of two
/// embeddings, fewer come after the larger one. So an embedding with
/// exactly one fewer after it than after `a` is the one that follows `a`.
pub proof fn lemma_later_embeddings_order(s: Seq<bool>, t: Seq<bool>, a: Seq<usize>, b: Seq<usize>)
    requires
        is_embedding(s, t, a),
        is_embedding(s, t, b),
        lex_less(a, b),
    ensures
        later_embeddings(s, t, b, 0) < later_embeddings(s, t, a, 0),
{
    let p = choose|p: int| 0 <= p < a.len() && a.take(p) == b.take(p) && #[trigger] a[p] < b[p];
    assert forall|j: int| 0 <= j < p implies a[j] == b[j] by {
        assert(a.take(p)[j] == b.take(p)[j]);
    }
    lemma_later_agree(s, t, a, b, 0, p);
    lemma_later_embeddings_bound(s, t, b, p + 1, b[p] + 1);
    lemma_tail_count_monotone(s, t, a[p] + 1, b[p] as int, p);
    assert(b[p] < s.len() && s[b[p] as int] == t[p]);
    assert(later_embeddings(s, t, a, p) == tail_count(s, t, a[p] + 1, p) + later_embeddings(
        s,
        t,
        a,
        p + 1,
    ));
    assert(later_embeddings(s, t, b, p) == tail_count(s, t, b[p] + 1, p) + later_embeddings(
        s,
        t,
        b,
        p + 1,
    ));
}

} // verus!
