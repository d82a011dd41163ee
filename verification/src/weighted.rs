use crate::bits::Bits;
use crate::combinatorics::{
    binomial, is_combination, lemma_binomial_positive, lemma_enumeration_complete, lemma_nth,
    lemma_nth_ordered, lemma_spread, nth_combination,
};
use crate::listing::{distinct_keys, fits, lemma_weights_of, listed_at, sum_weights, weight_in, weights_of};
use crate::sat::{
    all_wf, clause_of, merged, ordered, satisfies, trace_clauses, Conjunction, Term, TraceDisjunction,
};
use crate::weights::WeightError;
use vstd::prelude::*;

verus! {

/// The clauses that the traces seen so far leave open, each with a weight:
/// the number of ways in which the traces give the clause.
pub struct WeightedDisjunction {
    clauses: Vec<Conjunction>,
    weights: Vec<usize>,
    message_len: usize,
}

/// What one pair of weighted clauses adds to the weight of `c`: the product
/// of the two weights where the two clauses merge to `c`, and nothing
/// otherwise.
pub open spec fn pair_weight(l: (Seq<Term>, nat), r: (Seq<Term>, nat), c: Seq<Term>) -> nat {
    if merged(l.0, r.0) == Some(c) {
        l.1 * r.1
    } else {
        0
    }
}

/// What the pairs of `l` with each clause of `right` add to the weight of
/// `c`.
pub open spec fn row_weight(
    l: (Seq<Term>, nat),
    right: Seq<(Seq<Term>, nat)>,
    c: Seq<Term>,
) -> nat
    decreases right.len(),
{
    if right.len() == 0 {
        0
    } else {
        row_weight(l, right.drop_last(), c) + pair_weight(l, right.last(), c)
    }
}

/// The weight of `c` after narrowing: the sum, over the pairs of a clause
/// of `left` and a clause of `right` that merge to `c`, of the product of
/// their weights.
pub open spec fn merged_weight(
    left: Seq<(Seq<Term>, nat)>,
    right: Seq<(Seq<Term>, nat)>,
    c: Seq<Term>,
) -> nat
    decreases left.len(),
{
    if left.len() == 0 {
        0
    } else {
        merged_weight(left.drop_last(), right, c) + row_weight(left.last(), right, c)
    }
}

/// The weights after narrowing `left` by `right`. Narrowing by no clauses
/// at all changes nothing.
pub open spec fn narrowed_weights(
    left: Seq<(Seq<Term>, nat)>,
    right: Seq<(Seq<Term>, nat)>,
) -> Map<Seq<Term>, nat> {
    if right.len() == 0 {
        weights_of(left)
    } else {
        Map::new(
            |c: Seq<Term>| merged_weight(left, right, c) > 0,
            |c: Seq<Term>| merged_weight(left, right, c),
        )
    }
}

/// The sum of the weights of the clauses that the message satisfies.
pub open spec fn satisfied_weight(listing: Seq<(Seq<Term>, nat)>, message: Seq<bool>) -> nat
    decreases listing.len(),
{
    if listing.len() == 0 {
        0
    } else {
        satisfied_weight(listing.drop_last(), message) + if satisfies(message, listing.last().0) {
            listing.last().1
        } else {
            0
        }
    }
}

spec fn listing_of(clauses: Seq<Conjunction>, weights: Seq<usize>) -> Seq<(Seq<Term>, nat)> {
    Seq::new(clauses.len(), |i: int| (clauses[i]@, weights[i] as nat))
}

/// The weight gathered for `c` when narrowing stands at clause `i` of
/// `left` and clause `j` of `right`.
spec fn gathered(
    left: Seq<(Seq<Term>, nat)>,
    right: Seq<(Seq<Term>, nat)>,
    i: int,
    j: int,
    c: Seq<Term>,
) -> nat {
    if i < left.len() {
        merged_weight(left.take(i), right, c) + row_weight(left[i], right.take(j), c)
    } else {
        merged_weight(left.take(i), right, c)
    }
}

proof fn lemma_row_step(l: (Seq<Term>, nat), right: Seq<(Seq<Term>, nat)>, j: int, c: Seq<Term>)
    requires
        0 <= j < right.len(),
    ensures
        row_weight(l, right.take(j + 1), c) == row_weight(l, right.take(j), c) + pair_weight(
            l,
            right[j],
            c,
        ),
{
    assert(right.take(j + 1).drop_last() =~= right.take(j));
    assert(right.take(j + 1).last() == right[j]);
}

proof fn lemma_row_monotone(
    l: (Seq<Term>, nat),
    right: Seq<(Seq<Term>, nat)>,
    j: int,
    c: Seq<Term>,
)
    requires
        0 <= j <= right.len(),
    ensures
        row_weight(l, right.take(j), c) <= row_weight(l, right, c),
    decreases right.len() - j,
{
    if j < right.len() {
        lemma_row_step(l, right, j, c);
        lemma_row_monotone(l, right, j + 1, c);
    } else {
        assert(right.take(j) =~= right);
    }
}

proof fn lemma_left_step(
    left: Seq<(Seq<Term>, nat)>,
    right: Seq<(Seq<Term>, nat)>,
    i: int,
    c: Seq<Term>,
)
    requires
        0 <= i < left.len(),
    ensures
        merged_weight(left.take(i + 1), right, c) == merged_weight(left.take(i), right, c)
            + row_weight(left[i], right, c),
{
    assert(left.take(i + 1).drop_last() =~= left.take(i));
    assert(left.take(i + 1).last() == left[i]);
}

proof fn lemma_left_monotone(
    left: Seq<(Seq<Term>, nat)>,
    right: Seq<(Seq<Term>, nat)>,
    i: int,
    c: Seq<Term>,
)
    requires
        0 <= i <= left.len(),
    ensures
        merged_weight(left.take(i), right, c) <= merged_weight(left, right, c),
    decreases left.len() - i,
{
    if i < left.len() {
        lemma_left_step(left, right, i, c);
        lemma_left_monotone(left, right, i + 1, c);
    } else {
        assert(left.take(i) =~= left);
    }
}

/// What has been gathered is no more than the whole sum.
proof fn lemma_gathered_bound(
    left: Seq<(Seq<Term>, nat)>,
    right: Seq<(Seq<Term>, nat)>,
    i: int,
    j: int,
    c: Seq<Term>,
)
    requires
        0 <= i < left.len(),
        0 <= j <= right.len(),
    ensures
        gathered(left, right, i, j, c) <= merged_weight(left, right, c),
{
    lemma_row_monotone(left[i], right, j, c);
    lemma_left_step(left, right, i, c);
    lemma_left_monotone(left, right, i + 1, c);
}

/// The weight of a key that a listing does not hold is 0.
proof fn lemma_weight_in_absent(listing: Seq<(Seq<Term>, nat)>, c: Seq<Term>)
    requires
        forall|x: int| 0 <= x < listing.len() ==> (#[trigger] listing[x]).0 != c,
    ensures
        weight_in(listing, c) == 0,
{
}

/// Different combinations give different clauses.
proof fn lemma_clause_of_injective(trace: Seq<bool>, a: Seq<usize>, b: Seq<usize>, n: int)
    requires
        is_combination(a, n),
        is_combination(b, n),
        a.len() == b.len(),
        n <= u32::MAX,
        clause_of(trace, a) == clause_of(trace, b),
    ensures
        a == b,
{
    assert forall|i: int| 0 <= i < a.len() implies a[i] == b[i] by {
        assert(clause_of(trace, a)[i].id == a[i]);
        assert(clause_of(trace, b)[i].id == b[i]);
    }
    assert(a =~= b);
}

/// Whether the message satisfies the clause.
fn satisfied_by(clause: &Conjunction, message: &Bits) -> (satisfied: bool)
    ensures
        satisfied == satisfies(message@, clause@),
{
    let terms = clause.terms();
    let len = message.len();
    let mut i: usize = 0;
    while i < terms.len()
        invariant
            i <= terms@.len(),
            terms@ == clause@,
            len == message@.len(),
            forall|j: int|
                0 <= j < i ==> (#[trigger] terms@[j]).id < message@.len() && message@[terms@[j].id as int]
                    == !terms@[j].negated,
        decreases terms@.len() - i,
    {
        let term = terms[i];
        let place = term.id as usize;
        if place >= len {
            return false;
        }
        if message.get(place) == term.negated {
            return false;
        }
        i += 1;
    }
    true
}

/// The place of a clause in a list, if it is there.
fn position_of(clauses: &Vec<Conjunction>, clause: &Conjunction) -> (place: Option<usize>)
    ensures
        match place {
            Some(at) => at < clauses@.len() && clauses@[at as int]@ == clause@,
            None => forall|i: int| 0 <= i < clauses@.len() ==> (#[trigger] clauses@[i])@ != clause@,
        },
{
    let mut i: usize = 0;
    while i < clauses.len()
        invariant
            i <= clauses@.len(),
            forall|j: int| 0 <= j < i ==> (#[trigger] clauses@[j])@ != clause@,
        decreases clauses@.len() - i,
    {
        if clauses[i].same(clause) {
            return Some(i);
        }
        i += 1;
    }
    None
}

impl View for WeightedDisjunction {
    type V = Map<Seq<Term>, nat>;

    open spec fn view(&self) -> Map<Seq<Term>, nat> {
        weights_of(self.listing())
    }
}

impl WeightedDisjunction {
    /// The clauses with their weights, in the order in which they are held.
    pub closed spec fn listing(&self) -> Seq<(Seq<Term>, nat)> {
        listing_of(self.clauses@, self.weights@)
    }

    /// The length of the message that the clauses speak of.
    pub closed spec fn message_len(&self) -> int {
        self.message_len as int
    }

    /// Each clause has its weight beside it.
    pub closed spec fn paired(&self) -> bool {
        self.clauses@.len() == self.weights@.len()
    }

    /// No clause is held twice; each clause is ordered, and each weight is
    /// at least 1 and fits in a machine word.
    pub open spec fn wf(&self) -> bool {
        &&& self.paired()
        &&& self.message_len() <= u32::MAX
        &&& distinct_keys(self.listing())
        &&& forall|i: int|
            0 <= i < self.listing().len() ==> ordered((#[trigger] self.listing()[i]).0) && 1
                <= self.listing()[i].1 <= usize::MAX
    }

    /// The clauses of one trace, each with weight 1: no two ways of placing
    /// a trace give the same clause.
    pub fn from_trace(trace: &Bits, message_len: usize) -> (disjunction: Self)
        requires
            message_len <= u32::MAX,
        ensures
            disjunction.wf(),
            disjunction.message_len() == message_len,
            disjunction@ == Map::new(
                |c: Seq<Term>| trace_clauses(trace@, message_len as int).contains(c),
                |c: Seq<Term>| 1nat,
            ),
    {
        let mut iter = TraceDisjunction::clauses_from_trace(trace, message_len);
        let mut clauses: Vec<Conjunction> = Vec::new();
        let mut weights: Vec<usize> = Vec::new();
        let ghost t = trace@;
        let ghost k = t.len();
        let ghost n = message_len as nat;
        let ghost total = binomial(n, k);
        let ghost in_range = 1 <= k <= n;
        proof {
            if in_range {
                lemma_binomial_positive(n, k);
            }
        }
        loop
            invariant
                t == trace@,
                k == t.len(),
                n == message_len,
                n <= u32::MAX,
                total == binomial(n, k),
                in_range == (1 <= k <= n),
                iter.wf(),
                iter.trace() == t,
                iter.message_len() == n,
                clauses@.len() == weights@.len(),
                in_range ==> clauses@.len() <= total,
                !in_range ==> clauses@.len() == 0,
                iter.current() == if in_range && clauses@.len() < total {
                    Some(nth_combination(n as int, k, clauses@.len()))
                } else {
                    None
                },
                forall|x: int|
                    0 <= x < clauses@.len() ==> (#[trigger] clauses@[x])@ == clause_of(
                        t,
                        nth_combination(n as int, k, x as nat),
                    ) && clauses@[x].wf() && weights@[x] == 1,
            ensures
                clauses@.len() == weights@.len(),
                in_range ==> clauses@.len() == total,
                !in_range ==> clauses@.len() == 0,
                forall|x: int|
                    0 <= x < clauses@.len() ==> (#[trigger] clauses@[x])@ == clause_of(
                        t,
                        nth_combination(n as int, k, x as nat),
                    ) && clauses@[x].wf() && weights@[x] == 1,
            decreases total - clauses@.len(),
        {
            proof {
                if in_range && clauses@.len() < total {
                    lemma_nth(n, k, clauses@.len() as nat);
                }
            }
            match iter.next() {
                None => {
                    break ;
                },
                Some(clause) => {
                    clauses.push(clause);
                    weights.push(1);
                },
            }
        }
        let made = Self { clauses, weights, message_len };
        proof {
            let listing = made.listing();
            assert forall|i: int, j: int| 0 <= i < j < listing.len() implies (
            #[trigger] listing[i]).0 != (#[trigger] listing[j]).0 by {
                lemma_nth(n, k, i as nat);
                lemma_nth(n, k, j as nat);
                lemma_nth_ordered(n, k, i as nat, j as nat);
                let a = nth_combination(n as int, k, i as nat);
                let b = nth_combination(n as int, k, j as nat);
                assert(made.clauses@[i]@ == clause_of(t, a));
                assert(made.clauses@[j]@ == clause_of(t, b));
                if clause_of(t, a) == clause_of(t, b) {
                    lemma_clause_of_injective(t, a, b, n as int);
                    let p = choose|p: int|
                        0 <= p < a.len() && a.take(p) == b.take(p) && #[trigger] a[p] < b[p];
                    assert(a[p] != b[p]);
                }
            }
            assert forall|i: int| 0 <= i < listing.len() implies ordered(
                (#[trigger] listing[i]).0,
            ) && 1 <= listing[i].1 <= usize::MAX by {
                assert(made.clauses@[i].wf());
                assert(made.weights@[i] == 1);
            }
            let wanted = Map::new(
                |c: Seq<Term>| trace_clauses(t, n as int).contains(c),
                |c: Seq<Term>| 1nat,
            );
            assert forall|c: Seq<Term>| made@.dom().contains(c) <==> wanted.dom().contains(c) by {
                if made@.dom().contains(c) {
                    let x = listed_at(listing, c);
                    assert(0 <= x < listing.len() && listing[x].0 == c);
                    lemma_nth(n, k, x as nat);
                    assert(made.clauses@[x]@ == clause_of(
                        t,
                        nth_combination(n as int, k, x as nat),
                    ));
                }
                if wanted.dom().contains(c) {
                    let places = choose|places: Seq<usize>|
                        t.len() >= 1 && places.len() == t.len() && is_combination(places, n as int)
                            && c == #[trigger] clause_of(t, places);
                    lemma_spread(places, n as int, 0, k - 1);
                    lemma_enumeration_complete(n, k, places);
                    let i = choose|i: nat|
                        i < binomial(n, k) && nth_combination(n as int, k, i) == places;
                    assert(made.clauses@[i as int]@ == c);
                    assert(listing[i as int].0 == c);
                }
            }
            assert forall|c: Seq<Term>| made@.dom().contains(c) implies made@[c] == wanted[c] by {
                let x = listed_at(listing, c);
                assert(0 <= x < listing.len() && listing[x].0 == c);
                assert(made.clauses@[x].wf());
                assert(made.weights@[x] == 1);
                assert(listing[x].1 == 1);
                assert(made@[c] == listing[x].1);
                assert(wanted.dom().contains(c));
                assert(wanted[c] == 1);
            }
            assert(made@ =~= wanted);
        }
        made
    }

    /// Narrows the clause set by the clauses of another trace. A pair of
    /// clauses that merge gives the merge the product of the two weights;
    /// where several pairs merge to one clause, the products add up; a pair
    /// that contradicts itself gives nothing. Narrowing by no clauses at all
    /// changes nothing. Where a weight would not fit, the clause set is left
    /// as it was.
    pub fn and(&mut self, other: &WeightedDisjunction) -> (result: Result<(), WeightError>)
        requires
            old(self).wf(),
            other.wf(),
        ensures
            final(self).wf(),
            final(self).message_len() == old(self).message_len(),
            result is Ok <==> fits(narrowed_weights(old(self).listing(), other.listing())),
            result is Ok ==> final(self)@ == narrowed_weights(
                old(self).listing(),
                other.listing(),
            ),
            result is Err ==> final(self).listing() == old(self).listing(),
            other.listing().len() == 0 ==> result is Ok && final(self).listing() == old(self).listing(),
    {
        let ghost left = self.listing();
        let ghost right = other.listing();
        let ghost target = narrowed_weights(left, right);
        if other.clauses.len() == 0 {
            proof {
                assert forall|c: Seq<Term>| target.dom().contains(c) implies #[trigger] target[c]
                    <= usize::MAX by {
                    let x = listed_at(left, c);
                    assert(0 <= x < left.len() && left[x].0 == c);
                    assert(1 <= left[x].1 <= usize::MAX);
                }
            }
            return Ok(());
        }
        let mut clauses: Vec<Conjunction> = Vec::new();
        let mut weights: Vec<usize> = Vec::new();
        let mut i: usize = 0;
        proof {
            assert(left.take(0) =~= Seq::<(Seq<Term>, nat)>::empty());
            assert(right.take(0) =~= Seq::<(Seq<Term>, nat)>::empty());
            assert forall|c: Seq<Term>| #[trigger]
                weight_in(listing_of(clauses@, weights@), c) == gathered(left, right, 0, 0, c) by {
                lemma_weight_in_absent(listing_of(clauses@, weights@), c);
            }
        }
        while i < self.clauses.len()
            invariant
                self.wf(),
                other.wf(),
                left == self.listing(),
                right == other.listing(),
                right.len() > 0,
                right.len() == other.clauses@.len(),
                left.len() == self.clauses@.len(),
                target == narrowed_weights(left, right),
                i <= left.len(),
                clauses@.len() == weights@.len(),
                distinct_keys(listing_of(clauses@, weights@)),
                all_wf(clauses@),
                forall|x: int| 0 <= x < weights@.len() ==> 1 <= #[trigger] weights@[x],
                forall|c: Seq<Term>| #[trigger]
                    weight_in(listing_of(clauses@, weights@), c) == gathered(
                        left,
                        right,
                        i as int,
                        0,
                        c,
                    ),
            decreases left.len() - i,
        {
            let mut j: usize = 0;
            while j < other.clauses.len()
                invariant
                    self.wf(),
                    other.wf(),
                    left == self.listing(),
                    right == other.listing(),
                    right.len() > 0,
                    right.len() == other.clauses@.len(),
                    left.len() == self.clauses@.len(),
                    target == narrowed_weights(left, right),
                    i < left.len(),
                    j <= right.len(),
                    clauses@.len() == weights@.len(),
                    distinct_keys(listing_of(clauses@, weights@)),
                    all_wf(clauses@),
                    forall|x: int| 0 <= x < weights@.len() ==> 1 <= #[trigger] weights@[x],
                    forall|c: Seq<Term>| #[trigger]
                        weight_in(listing_of(clauses@, weights@), c) == gathered(
                            left,
                            right,
                            i as int,
                            j as int,
                            c,
                        ),
                decreases right.len() - j,
            {
                let ghost held = listing_of(clauses@, weights@);
                let ghost held_clauses = clauses@;
                let ghost held_weights = weights@;
                let ghost l = left[i as int];
                let ghost r = right[j as int];
                proof {
                    assert(l.0 == self.clauses@[i as int]@ && l.1 == self.weights@[i as int]);
                    assert(r.0 == other.clauses@[j as int]@ && r.1 == other.weights@[j as int]);
                    assert(ordered(l.0) && 1 <= l.1 <= usize::MAX);
                    assert(ordered(r.0) && 1 <= r.1 <= usize::MAX);
                    assert forall|c: Seq<Term>|
                        gathered(left, right, i as int, j + 1, c) == #[trigger] gathered(
                            left,
                            right,
                            i as int,
                            j as int,
                            c,
                        ) + pair_weight(l, r, c) by {
                        lemma_row_step(l, right, j as int, c);
                    }
                }
                match self.clauses[i].merge(&other.clauses[j]) {
                    None => {},
                    Some(clause) => {
                        let ghost key = clause@;
                        proof {
                            lemma_gathered_bound(left, right, i as int, j + 1, key);
                            assert(pair_weight(l, r, key) == l.1 * r.1);
                            assert(l.1 * r.1 >= 1) by (nonlinear_arith)
                                requires
                                    l.1 >= 1,
                                    r.1 >= 1,
                            ;
                        }
                        let product = match self.weights[i].checked_mul(other.weights[j]) {
                            None => {
                                proof {
                                    assert(target.dom().contains(key));
                                    assert(target[key] > usize::MAX);
                                }
                                return Err(WeightError::Overflow);
                            },
                            Some(product) => product,
                        };
                        match position_of(&clauses, &clause) {
                            None => {
                                clauses.push(clause);
                                weights.push(product);
                                proof {
                                    let now = listing_of(clauses@, weights@);
                                    assert forall|x: int| 0 <= x < clauses@.len() implies (
                                    #[trigger] clauses@[x]).wf() by {
                                        if x < held_clauses.len() {
                                            assert(held_clauses[x].wf());
                                        }
                                    }
                                    assert forall|x: int| 0 <= x < weights@.len() implies 1
                                        <= #[trigger] weights@[x] by {
                                        if x < held_weights.len() {
                                            assert(weights@[x] == held_weights[x]);
                                        }
                                    }
                                    lemma_weight_in_absent(held, key);
                                    assert forall|x: int| 0 <= x < held.len() implies now[x]
                                        == held[x] by {}
                                    assert(now[held.len() as int] == (key, product as nat));
                                    assert forall|x: int, y: int|
                                        0 <= x < y < now.len() implies (#[trigger] now[x]).0 != (
                                    #[trigger] now[y]).0 by {
                                        if y < held.len() {
                                            assert(held[x].0 != held[y].0);
                                        } else {
                                            assert(held[x].0 != key);
                                        }
                                    }
                                    assert forall|c: Seq<Term>| #[trigger]
                                        weight_in(now, c) == gathered(
                                            left,
                                            right,
                                            i as int,
                                            j + 1,
                                            c,
                                        ) by {
                                        assert(weight_in(held, c) == gathered(
                                            left,
                                            right,
                                            i as int,
                                            j as int,
                                            c,
                                        ));
                                        if c == key {
                                            lemma_weights_of(now, held.len() as int);
                                        } else if weights_of(held).dom().contains(c) {
                                            let x = listed_at(held, c);
                                            assert(0 <= x < held.len() && held[x].0 == c);
                                            lemma_weights_of(held, x);
                                            lemma_weights_of(now, x);
                                        } else {
                                            assert forall|x: int| 0 <= x < now.len() implies (
                                            #[trigger] now[x]).0 != c by {
                                                if x < held.len() {
                                                    assert(held[x].0 != c);
                                                }
                                            }
                                            lemma_weight_in_absent(now, c);
                                        }
                                    }
                                }
                            },
                            Some(at) => {
                                proof {
                                    assert(held[at as int].0 == key);
                                    lemma_weights_of(held, at as int);
                                }
                                let sum = match weights[at].checked_add(product) {
                                    None => {
                                        proof {
                                            assert(target.dom().contains(key));
                                            assert(target[key] > usize::MAX);
                                        }
                                        return Err(WeightError::Overflow);
                                    },
                                    Some(sum) => sum,
                                };
                                weights.set(at, sum);
                                proof {
                                    let now = listing_of(clauses@, weights@);
                                    assert forall|x: int| 0 <= x < weights@.len() implies 1
                                        <= #[trigger] weights@[x] by {
                                        if x != at {
                                            assert(weights@[x] == held_weights[x]);
                                        }
                                    }
                                    assert forall|x: int| 0 <= x < held.len() implies (
                                    #[trigger] now[x]).0 == held[x].0 && (x != at ==> now[x]
                                        == held[x]) by {}
                                    assert(now[at as int] == (key, sum as nat));
                                    assert forall|x: int, y: int|
                                        0 <= x < y < now.len() implies (#[trigger] now[x]).0 != (
                                    #[trigger] now[y]).0 by {
                                        assert(held[x].0 != held[y].0);
                                    }
                                    assert forall|c: Seq<Term>| #[trigger]
                                        weight_in(now, c) == gathered(
                                            left,
                                            right,
                                            i as int,
                                            j + 1,
                                            c,
                                        ) by {
                                        assert(weight_in(held, c) == gathered(
                                            left,
                                            right,
                                            i as int,
                                            j as int,
                                            c,
                                        ));
                                        if c == key {
                                            lemma_weights_of(now, at as int);
                                        } else if weights_of(held).dom().contains(c) {
                                            let x = listed_at(held, c);
                                            assert(0 <= x < held.len() && held[x].0 == c);
                                            lemma_weights_of(held, x);
                                            lemma_weights_of(now, x);
                                        } else {
                                            assert forall|x: int| 0 <= x < now.len() implies (
                                            #[trigger] now[x]).0 != c by {
                                                assert(held[x].0 != c);
                                            }
                                            lemma_weight_in_absent(now, c);
                                        }
                                    }
                                }
                            },
                        }
                    },
                }
                j += 1;
            }
            proof {
                assert(right.take(j as int) =~= right);
                assert(right.take(0) =~= Seq::<(Seq<Term>, nat)>::empty());
                assert forall|c: Seq<Term>| #[trigger]
                    weight_in(listing_of(clauses@, weights@), c) == gathered(
                        left,
                        right,
                        i + 1,
                        0,
                        c,
                    ) by {
                    assert(weight_in(listing_of(clauses@, weights@), c) == gathered(
                        left,
                        right,
                        i as int,
                        j as int,
                        c,
                    ));
                    lemma_left_step(left, right, i as int, c);
                }
            }
            i += 1;
        }
        proof {
            let now = listing_of(clauses@, weights@);
            let made = weights_of(now);
            assert(left.take(i as int) =~= left);
            assert forall|c: Seq<Term>| weight_in(now, c) == merged_weight(left, right, c) by {
                assert(weight_in(now, c) == gathered(left, right, i as int, 0, c));
            }
            assert forall|c: Seq<Term>| made.dom().contains(c) <==> target.dom().contains(c) by {
                assert(weight_in(now, c) == merged_weight(left, right, c));
                if made.dom().contains(c) {
                    let x = listed_at(now, c);
                    assert(0 <= x < now.len() && now[x].0 == c);
                    lemma_weights_of(now, x);
                    assert(1 <= weights@[x]);
                }
            }
            assert forall|c: Seq<Term>| made.dom().contains(c) implies made[c] == target[c] by {
                assert(weight_in(now, c) == merged_weight(left, right, c));
            }
            assert(made =~= target);
            assert forall|c: Seq<Term>| target.dom().contains(c) implies #[trigger] target[c]
                <= usize::MAX by {
                let x = listed_at(now, c);
                assert(0 <= x < now.len() && now[x].0 == c);
                lemma_weights_of(now, x);
            }
            assert forall|x: int| 0 <= x < now.len() implies ordered((#[trigger] now[x]).0) && 1
                <= now[x].1 <= usize::MAX by {
                assert(clauses@[x].wf());
                assert(1 <= weights@[x]);
            }
        }
        self.clauses = clauses;
        self.weights = weights;
        Ok(())
    }

    /// The weight of a candidate message: the sum of the weights of all
    /// clauses that the message satisfies.
    pub fn weight(&self, candidate: &Bits) -> (weight: u128)
        requires
            self.wf(),
        ensures
            weight == satisfied_weight(self.listing(), candidate@),
    {
        let ghost listing = self.listing();
        let mut weight: u128 = 0;
        let mut i: usize = 0;
        while i < self.clauses.len()
            invariant
                self.wf(),
                listing == self.listing(),
                listing.len() == self.clauses@.len(),
                i <= listing.len(),
                weight == satisfied_weight(listing.take(i as int), candidate@),
                weight <= i * usize::MAX,
            decreases listing.len() - i,
        {
            proof {
                assert(listing.take(i + 1).drop_last() =~= listing.take(i as int));
                assert(listing.take(i + 1).last() == listing[i as int]);
                assert(listing[i as int].0 == self.clauses@[i as int]@);
                assert(listing[i as int].1 == self.weights@[i as int]);
                assert((i + 1) * usize::MAX == i * usize::MAX + usize::MAX) by (nonlinear_arith);
                assert((i + 1) * usize::MAX <= u128::MAX) by (nonlinear_arith)
                    requires
                        i + 1 <= usize::MAX,
                        usize::MAX <= 0xffff_ffff_ffff_ffff,
                        u128::MAX == 0xffff_ffff_ffff_ffff_ffff_ffff_ffff_ffff,
                ;
            }
            if satisfied_by(&self.clauses[i], candidate) {
                weight = weight + self.weights[i] as u128;
            }
            i += 1;
        }
        proof {
            assert(listing.take(i as int) =~= listing);
        }
        weight
    }

    /// The sum of all weights.
    pub fn total(&self) -> (total: u128)
        requires
            self.wf(),
        ensures
            total == sum_weights(self.listing()),
    {
        let ghost listing = self.listing();
        let mut total: u128 = 0;
        let mut i: usize = 0;
        while i < self.clauses.len()
            invariant
                self.wf(),
                listing == self.listing(),
                listing.len() == self.clauses@.len(),
                i <= listing.len(),
                total == sum_weights(listing.take(i as int)),
                total <= i * usize::MAX,
            decreases listing.len() - i,
        {
            proof {
                assert(listing.take(i + 1).drop_last() =~= listing.take(i as int));
                assert(listing.take(i + 1).last() == listing[i as int]);
                assert(listing[i as int].1 == self.weights@[i as int]);
                assert((i + 1) * usize::MAX == i * usize::MAX + usize::MAX) by (nonlinear_arith);
                assert((i + 1) * usize::MAX <= u128::MAX) by (nonlinear_arith)
                    requires
                        i + 1 <= usize::MAX,
                        usize::MAX <= 0xffff_ffff_ffff_ffff,
                        u128::MAX == 0xffff_ffff_ffff_ffff_ffff_ffff_ffff_ffff,
                ;
            }
            total = total + self.weights[i] as u128;
            i += 1;
        }
        proof {
            assert(listing.take(i as int) =~= listing);
        }
        total
    }

    /// The place of the clause with the largest weight; of several such
    /// clauses, the one that is held first. `None` where no clause is left.
    pub fn heaviest(&self) -> (best: Option<usize>)
        requires
            self.wf(),
        ensures
            match best {
                None => self.listing().len() == 0,
                Some(at) => {
                    &&& at < self.listing().len()
                    &&& forall|j: int|
                        0 <= j < self.listing().len() ==> (#[trigger] self.listing()[j]).1
                            <= self.listing()[at as int].1
                    &&& forall|j: int|
                        0 <= j < at ==> (#[trigger] self.listing()[j]).1 < self.listing()[at as int].1
                },
            },
    {
        let ghost listing = self.listing();
        if self.weights.len() == 0 {
            return None;
        }
        let mut at: usize = 0;
        let mut i: usize = 1;
        while i < self.weights.len()
            invariant
                self.wf(),
                listing == self.listing(),
                listing.len() == self.weights@.len(),
                0 <= at < i <= listing.len(),
                forall|j: int| 0 <= j < i ==> (#[trigger] listing[j]).1 <= listing[at as int].1,
                forall|j: int| 0 <= j < at ==> (#[trigger] listing[j]).1 < listing[at as int].1,
            decreases listing.len() - i,
        {
            proof {
                assert(listing[i as int].1 == self.weights@[i as int]);
                assert(listing[at as int].1 == self.weights@[at as int]);
            }
            if self.weights[i] > self.weights[at] {
                at = i;
            }
            i += 1;
        }
        Some(at)
    }

    /// The clauses, in the order in which they are held.
    pub fn clauses(&self) -> (clauses: &Vec<Conjunction>)
        requires
            self.wf(),
        ensures
            clauses@.len() == self.listing().len(),
            forall|i: int|
                0 <= i < clauses@.len() ==> (#[trigger] clauses@[i])@ == self.listing()[i].0,
    {
        &self.clauses
    }

    /// The weights, each at the place of its clause.
    pub fn weights(&self) -> (weights: &Vec<usize>)
        requires
            self.wf(),
        ensures
            weights@.len() == self.listing().len(),
            forall|i: int| 0 <= i < weights@.len() ==> (#[trigger] weights@[i]) == self.listing()[i].1,
    {
        &self.weights
    }
}

} // verus!
