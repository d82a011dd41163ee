use crate::bits::{max_bits, Bits};
use crate::combinatorics::{
    binomial, is_combination, lemma_binomial_positive, lemma_enumeration_complete, lemma_nth,
    nth_combination,
};
use crate::embedding::embedding_count;
use crate::listing::{distinct_keys, fits, lemma_weights_of, listed_at, sum_weights, weights_of};
use crate::trace::{candidate_of, checked_count_occurrences, supersequences};
use vstd::prelude::*;

verus! {

/// Why a trace could not be folded into a weight table.
#[derive(Clone, Copy, Debug, PartialEq, Eq, Structural)]
pub enum WeightError {
    /// A weight would have grown beyond what a machine word holds.
    Overflow,
}

/// One candidate message with its weight.
struct Entry {
    candidate: Bits,
    weight: usize,
}

/// The running weights of the candidate messages: for each candidate the
/// product, over the traces folded in so far, of the number of ways in which
/// the trace is embedded in it.
pub struct WeightTable {
    entries: Vec<Entry>,
    started: bool,
}

/// `c` is one of the candidate messages that the trace gives.
pub open spec fn is_candidate(c: Seq<bool>, trace: Seq<bool>, message_len: int) -> bool {
    exists|places: Seq<usize>|
        places.len() == trace.len() && is_combination(places, message_len) && c
            == #[trigger] candidate_of(trace, places, message_len)
}

/// The weights after one more trace. A trace without bits, or with more
/// bits than the message, tells nothing and leaves the weights as they are.
/// The first trace that tells something brings in its candidates, each with
/// the number of embeddings of the trace in it. Each later trace multiplies
/// the weight of a candidate by that number, and drops the candidates in
/// which the trace is not embedded at all.
pub open spec fn folded(
    weights: Map<Seq<bool>, nat>,
    started: bool,
    trace: Seq<bool>,
    message_len: int,
) -> Map<Seq<bool>, nat> {
    if !(1 <= trace.len() <= message_len) {
        weights
    } else if !started {
        Map::new(
            |c: Seq<bool>| is_candidate(c, trace, message_len) && embedding_count(c, trace) > 0,
            |c: Seq<bool>| embedding_count(c, trace),
        )
    } else {
        Map::new(
            |c: Seq<bool>| weights.dom().contains(c) && embedding_count(c, trace) > 0,
            |c: Seq<bool>| weights[c] * embedding_count(c, trace),
        )
    }
}

spec fn listing_of(entries: Seq<Entry>) -> Seq<(Seq<bool>, nat)> {
    Seq::new(entries.len(), |i: int| (entries[i].candidate@, entries[i].weight as nat))
}

/// The listing holds the candidate `c`.
spec fn listed(listing: Seq<(Seq<bool>, nat)>, c: Seq<bool>) -> bool {
    exists|x: int| 0 <= x < listing.len() && (#[trigger] listing[x]).0 == c
}

/// `item` is one of the first `upto` items of `before`, with its weight
/// multiplied by the number of embeddings of the trace, which is not 0.
spec fn multiplied_from(
    item: (Seq<bool>, nat),
    before: Seq<(Seq<bool>, nat)>,
    upto: int,
    trace: Seq<bool>,
) -> bool {
    exists|j: int|
        0 <= j < upto && j < before.len() && (#[trigger] before[j]).0 == item.0 && item.1
            == before[j].1 * embedding_count(before[j].0, trace) && embedding_count(
            before[j].0,
            trace,
        ) > 0
}

/// `c` is the candidate of one of the first `done` combinations.
spec fn enumerated(c: Seq<bool>, trace: Seq<bool>, n: nat, done: nat) -> bool {
    exists|i: nat|
        i < done && c == candidate_of(
            trace,
            #[trigger] nth_combination(n as int, trace.len(), i),
            n as int,
        )
}

/// The place of a candidate among the entries, if it is there.
fn position_of(entries: &Vec<Entry>, candidate: &Bits) -> (place: Option<usize>)
    ensures
        match place {
            Some(at) => at < entries@.len() && entries@[at as int].candidate@ == candidate@,
            None => forall|i: int|
                0 <= i < entries@.len() ==> (#[trigger] entries@[i]).candidate@ != candidate@,
        },
{
    let mut i: usize = 0;
    while i < entries.len()
        invariant
            i <= entries@.len(),
            forall|j: int| 0 <= j < i ==> (#[trigger] entries@[j]).candidate@ != candidate@,
        decreases entries@.len() - i,
    {
        if entries[i].candidate.same(candidate) {
            return Some(i);
        }
        i += 1;
    }
    None
}

impl View for WeightTable {
    type V = Map<Seq<bool>, nat>;

    open spec fn view(&self) -> Map<Seq<bool>, nat> {
        weights_of(self.listing())
    }
}

impl WeightTable {
    /// The candidates with their weights, in the order in which the table
    /// holds them.
    pub closed spec fn listing(&self) -> Seq<(Seq<bool>, nat)> {
        listing_of(self.entries@)
    }

    /// Whether a trace has brought in candidates yet.
    pub closed spec fn started(&self) -> bool {
        self.started
    }

    /// No candidate is held twice, and each weight is at least 1 and fits in
    /// a machine word.
    pub open spec fn wf(&self) -> bool {
        &&& distinct_keys(self.listing())
        &&& forall|i: int|
            0 <= i < self.listing().len() ==> 1 <= (#[trigger] self.listing()[i]).1 <= usize::MAX
    }

    /// A table that has seen no trace.
    pub fn new() -> (table: Self)
        ensures
            table.wf(),
            !table.started(),
            table.listing() == Seq::<(Seq<bool>, nat)>::empty(),
            table@ == Map::<Seq<bool>, nat>::empty(),
    {
        let table = Self { entries: Vec::new(), started: false };
        proof {
            assert(table.listing() =~= Seq::<(Seq<bool>, nat)>::empty());
            assert(table@ =~= Map::<Seq<bool>, nat>::empty());
        }
        table
    }

    /// Folds one trace into the table, or reports that a weight would not
    /// fit and leaves the table as it was.
    pub fn fold(&mut self, trace: &Bits, message_len: usize) -> (result: Result<(), WeightError>)
        requires
            old(self).wf(),
            message_len <= max_bits(),
        ensures
            final(self).wf(),
            result is Ok <==> fits(
                folded(old(self)@, old(self).started(), trace@, message_len as int),
            ),
            result is Ok ==> final(self)@ == folded(
                old(self)@,
                old(self).started(),
                trace@,
                message_len as int,
            ) && final(self).started() == (old(self).started() || 1 <= trace@.len()
                <= message_len),
            result is Err ==> final(self).listing() == old(self).listing() && final(self).started() == old(self).started(),
            !(1 <= trace@.len() <= message_len) ==> result is Ok && final(self).listing() == old(self).listing(),
    {
        let len = trace.len();
        if len == 0 || len > message_len {
            proof {
                self.lemma_fits();
            }
            return Ok(());
        }
        let fresh = if self.started {
            self.multiplied(trace, message_len)
        } else {
            Self::brought_in(trace, message_len)
        };
        match fresh {
            None => Err(WeightError::Overflow),
            Some(entries) => {
                self.entries = entries;
                self.started = true;
                proof {
                    self.lemma_fits();
                }
                Ok(())
            },
        }
    }

    /// The weight of a candidate; 0 for one that the table does not hold.
    pub fn weight(&self, candidate: &Bits) -> (weight: usize)
        requires
            self.wf(),
        ensures
            weight == if self@.dom().contains(candidate@) {
                self@[candidate@]
            } else {
                0
            },
    {
        match position_of(&self.entries, candidate) {
            None => {
                proof {
                    if self@.dom().contains(candidate@) {
                        let at = listed_at(self.listing(), candidate@);
                        assert(self.listing()[at].0 == candidate@);
                        assert(self.entries@[at].candidate@ == candidate@);
                    }
                }
                0
            },
            Some(at) => {
                proof {
                    assert(self.listing()[at as int].0 == candidate@);
                    lemma_weights_of(self.listing(), at as int);
                }
                self.entries[at].weight
            },
        }
    }

    /// The number of candidates that the table holds.
    pub fn len(&self) -> (len: usize)
        ensures
            len == self.listing().len(),
    {
        self.entries.len()
    }

    /// The sum of all weights.
    pub fn total(&self) -> (total: u128)
        requires
            self.wf(),
        ensures
            total == sum_weights(self.listing()),
    {
        let ghost listing = self.listing();
        let mut total: u128 = 0;
        let mut i: usize = 0;
        while i < self.entries.len()
            invariant
                listing == self.listing(),
                listing.len() == self.entries@.len(),
                i <= listing.len(),
                total == sum_weights(listing.take(i as int)),
                total <= i * usize::MAX,
            decreases listing.len() - i,
        {
            let weight = self.entries[i].weight;
            proof {
                assert(listing.take(i + 1).drop_last() =~= listing.take(i as int));
                assert(listing.take(i + 1).last() == listing[i as int]);
                assert(listing[i as int].1 == weight);
                assert((i + 1) * usize::MAX == i * usize::MAX + usize::MAX) by (nonlinear_arith);
                assert((i + 1) * usize::MAX <= u128::MAX) by (nonlinear_arith)
                    requires
                        i + 1 <= usize::MAX,
                        usize::MAX <= 0xffff_ffff_ffff_ffff,
                        u128::MAX == 0xffff_ffff_ffff_ffff_ffff_ffff_ffff_ffff,
                ;
            }
            total = total + weight as u128;
            i += 1;
        }
        proof {
            assert(listing.take(i as int) =~= listing);
        }
        total
    }

    /// The candidate with the largest weight, and that weight; of several
    /// such candidates, the one that the table holds first. `None` for a
    /// table without candidates.
    pub fn heaviest(&self) -> (best: Option<(Bits, usize)>)
        requires
            self.wf(),
        ensures
            match best {
                None => self.listing().len() == 0,
                Some((candidate, weight)) => {
                    &&& self@.dom().contains(candidate@)
                    &&& self@[candidate@] == weight
                    &&& forall|c: Seq<bool>|
                        self@.dom().contains(c) ==> #[trigger] self@[c] <= weight
                    &&& exists|at: int|
                        0 <= at < self.listing().len() && #[trigger] self.listing()[at] == (
                            candidate@,
                            weight as nat,
                        ) && forall|j: int| 0 <= j < at ==> (#[trigger] self.listing()[j]).1 < weight
                },
            },
    {
        let ghost listing = self.listing();
        if self.entries.len() == 0 {
            return None;
        }
        let mut at: usize = 0;
        let mut i: usize = 1;
        while i < self.entries.len()
            invariant
                listing == self.listing(),
                listing.len() == self.entries@.len(),
                0 <= at < i <= listing.len(),
                forall|j: int| 0 <= j < i ==> (#[trigger] listing[j]).1 <= listing[at as int].1,
                forall|j: int| 0 <= j < at ==> (#[trigger] listing[j]).1 < listing[at as int].1,
            decreases listing.len() - i,
        {
            if self.entries[i].weight > self.entries[at].weight {
                proof {
                    assert(listing[i as int].1 == self.entries@[i as int].weight);
                    assert(listing[at as int].1 == self.entries@[at as int].weight);
                }
                at = i;
            } else {
                proof {
                    assert(listing[i as int].1 == self.entries@[i as int].weight);
                    assert(listing[at as int].1 == self.entries@[at as int].weight);
                }
            }
            i += 1;
        }
        let candidate = self.entries[at].candidate.duplicate();
        let weight = self.entries[at].weight;
        proof {
            lemma_weights_of(listing, at as int);
            assert(listing[at as int] == (candidate@, weight as nat));
            assert forall|c: Seq<bool>| self@.dom().contains(c) implies #[trigger] self@[c]
                <= weight by {
                let x = listed_at(listing, c);
                assert(0 <= x < listing.len() && listing[x].0 == c);
            }
        }
        Some((candidate, weight))
    }

    /// The weights of a well-formed table fit.
    proof fn lemma_fits(&self)
        requires
            self.wf(),
        ensures
            fits(self@),
    {
        let listing = self.listing();
        assert forall|c: Seq<bool>| self@.dom().contains(c) implies #[trigger] self@[c]
            <= usize::MAX by {
            let at = listed_at(listing, c);
            assert(0 <= at < listing.len() && listing[at].0 == c);
            assert(1 <= listing[at].1 <= usize::MAX);
        }
    }

    /// The entries after a later trace: each weight multiplied by the number
    /// of embeddings of the trace in its candidate, without the candidates
    /// that have none; `None` where a product does not fit.
    fn multiplied(&self, trace: &Bits, message_len: usize) -> (fresh: Option<Vec<Entry>>)
        requires
            self.wf(),
            self.started(),
            1 <= trace@.len() <= message_len,
        ensures
            fresh is Some <==> fits(folded(self@, true, trace@, message_len as int)),
            fresh matches Some(entries) ==> {
                &&& distinct_keys(listing_of(entries@))
                &&& forall|i: int|
                    0 <= i < entries@.len() ==> 1 <= (#[trigger] listing_of(entries@)[i]).1
                        <= usize::MAX
                &&& weights_of(listing_of(entries@)) == folded(
                    self@,
                    true,
                    trace@,
                    message_len as int,
                )
            },
    {
        let ghost before = self.listing();
        let ghost t = trace@;
        let ghost target = folded(self@, true, t, message_len as int);
        let mut entries: Vec<Entry> = Vec::new();
        let mut i: usize = 0;
        while i < self.entries.len()
            invariant
                self.wf(),
                before == self.listing(),
                t == trace@,
                1 <= t.len() <= message_len,
                target == folded(self@, true, t, message_len as int),
                i <= before.len(),
                before.len() == self.entries@.len(),
                distinct_keys(listing_of(entries@)),
                forall|x: int|
                    0 <= x < entries@.len() ==> 1 <= (#[trigger] listing_of(entries@)[x]).1
                        <= usize::MAX,
                forall|x: int|
                    0 <= x < entries@.len() ==> multiplied_from(
                        #[trigger] listing_of(entries@)[x],
                        before,
                        i as int,
                        t,
                    ),
                forall|j: int|
                    0 <= j < i && embedding_count((#[trigger] before[j]).0, t) > 0 ==> listed(
                        listing_of(entries@),
                        before[j].0,
                    ),
            decreases before.len() - i,
        {
            let entry = &self.entries[i];
            let ghost key = before[i as int].0;
            let ghost held = listing_of(entries@);
            let ghost times = embedding_count(key, t);
            proof {
                assert(key == entry.candidate@);
                assert(before[i as int].1 == entry.weight);
                assert(1 <= before[i as int].1);
                lemma_weights_of(before, i as int);
            }
            let count = checked_count_occurrences(&entry.candidate, trace);
            let weight = match count {
                None => None,
                Some(count) => entry.weight.checked_mul(count),
            };
            match weight {
                None => {
                    proof {
                        assert(before[i as int].1 * times > usize::MAX) by (nonlinear_arith)
                            requires
                                1 <= before[i as int].1,
                                times > usize::MAX || before[i as int].1 * times > usize::MAX,
                        ;
                        assert(times > 0) by (nonlinear_arith)
                            requires
                                before[i as int].1 * times > usize::MAX,
                        ;
                        assert(self@.dom().contains(key));
                        assert(target.dom().contains(key));
                        assert(target[key] > usize::MAX);
                    }
                    return None;
                },
                Some(weight) => {
                    if weight != 0 {
                        let candidate = entry.candidate.duplicate();
                        entries.push(Entry { candidate, weight });
                        proof {
                            let now = listing_of(entries@);
                            assert(times > 0) by (nonlinear_arith)
                                requires
                                    before[i as int].1 * times != 0,
                            ;
                            assert forall|x: int| 0 <= x < held.len() implies now[x] == held[x] by {}
                            assert(now[held.len() as int] == (key, weight as nat));
                            assert(multiplied_from(now[held.len() as int], before, i + 1, t));
                            assert forall|x: int, y: int| 0 <= x < y < now.len() implies (
                            #[trigger] now[x]).0 != (#[trigger] now[y]).0 by {
                                if y == held.len() {
                                    assert(multiplied_from(held[x], before, i as int, t));
                                    let j = choose|j: int|
                                        0 <= j < i && j < before.len() && (#[trigger] before[j]).0
                                            == held[x].0 && held[x].1 == before[j].1
                                            * embedding_count(before[j].0, t) && embedding_count(
                                            before[j].0,
                                            t,
                                        ) > 0;
                                    assert(before[j].0 != before[i as int].0);
                                } else {
                                    assert(held[x].0 != held[y].0);
                                }
                            }
                            assert(listed(now, key));
                        }
                    } else {
                        proof {
                            assert(times == 0) by (nonlinear_arith)
                                requires
                                    before[i as int].1 * times == 0,
                                    1 <= before[i as int].1,
                                    times >= 0,
                            ;
                        }
                    }
                },
            }
            proof {
                let now = listing_of(entries@);
                assert forall|x: int| 0 <= x < now.len() implies multiplied_from(
                    #[trigger] now[x],
                    before,
                    i + 1,
                    t,
                ) by {
                    if x < held.len() {
                        assert(now[x] == held[x]);
                        assert(multiplied_from(held[x], before, i as int, t));
                        let j = choose|j: int|
                            0 <= j < i && j < before.len() && (#[trigger] before[j]).0 == held[x].0
                                && held[x].1 == before[j].1 * embedding_count(before[j].0, t)
                                && embedding_count(before[j].0, t) > 0;
                        assert(0 <= j < i + 1);
                    }
                }
                assert forall|j: int|
                    0 <= j < i + 1 && embedding_count((#[trigger] before[j]).0, t)
                        > 0 implies listed(now, before[j].0) by {
                    if j < i {
                        assert(listed(held, before[j].0));
                        let x = choose|x: int|
                            0 <= x < held.len() && (#[trigger] held[x]).0 == before[j].0;
                        assert(now[x] == held[x]);
                    }
                }
            }
            i += 1;
        }
        proof {
            let now = listing_of(entries@);
            let made = weights_of(now);
            assert forall|c: Seq<bool>| made.dom().contains(c) <==> target.dom().contains(c) by {
                if made.dom().contains(c) {
                    let x = listed_at(now, c);
                    assert(0 <= x < now.len() && now[x].0 == c);
                    assert(multiplied_from(now[x], before, i as int, t));
                    let j = choose|j: int|
                        0 <= j < i && j < before.len() && (#[trigger] before[j]).0 == now[x].0
                            && now[x].1 == before[j].1 * embedding_count(before[j].0, t)
                            && embedding_count(before[j].0, t) > 0;
                    lemma_weights_of(before, j);
                }
                if target.dom().contains(c) {
                    let j = listed_at(before, c);
                    assert(0 <= j < before.len() && before[j].0 == c);
                    assert(listed(now, before[j].0));
                    let x = choose|x: int| 0 <= x < now.len() && (#[trigger] now[x]).0 == c;
                    lemma_weights_of(now, x);
                }
            }
            assert forall|c: Seq<bool>| made.dom().contains(c) implies made[c] == target[c] by {
                let x = listed_at(now, c);
                assert(0 <= x < now.len() && now[x].0 == c);
                assert(multiplied_from(now[x], before, i as int, t));
                let j = choose|j: int|
                    0 <= j < i && j < before.len() && (#[trigger] before[j]).0 == now[x].0
                        && now[x].1 == before[j].1 * embedding_count(before[j].0, t)
                        && embedding_count(before[j].0, t) > 0;
                lemma_weights_of(before, j);
            }
            assert(made =~= target);
            assert forall|c: Seq<bool>| target.dom().contains(c) implies #[trigger] target[c]
                <= usize::MAX by {
                let x = listed_at(now, c);
                assert(0 <= x < now.len() && now[x].0 == c);
            }
        }
        Some(entries)
    }

    /// The entries after the first trace that tells something: its
    /// candidates, each with the number of embeddings of the trace in it;
    /// `None` where such a number does not fit.
    fn brought_in(trace: &Bits, message_len: usize) -> (fresh: Option<Vec<Entry>>)
        requires
            1 <= trace@.len() <= message_len <= max_bits(),
        ensures
            fresh is Some <==> fits(
                folded(Map::<Seq<bool>, nat>::empty(), false, trace@, message_len as int),
            ),
            fresh matches Some(entries) ==> {
                &&& distinct_keys(listing_of(entries@))
                &&& forall|i: int|
                    0 <= i < entries@.len() ==> 1 <= (#[trigger] listing_of(entries@)[i]).1
                        <= usize::MAX
                &&& weights_of(listing_of(entries@)) == folded(
                    Map::<Seq<bool>, nat>::empty(),
                    false,
                    trace@,
                    message_len as int,
                )
            },
    {
        let ghost t = trace@;
        let ghost n = message_len as nat;
        let ghost k = t.len();
        let ghost total = binomial(n, k);
        let ghost target = folded(Map::<Seq<bool>, nat>::empty(), false, t, n as int);
        let mut iter = supersequences(trace, message_len);
        let mut entries: Vec<Entry> = Vec::new();
        let ghost mut done: nat = 0;
        proof {
            lemma_binomial_positive(n, k);
        }
        loop
            invariant
                t == trace@,
                n == message_len,
                k == t.len(),
                1 <= k <= n,
                total == binomial(n, k),
                target == folded(Map::<Seq<bool>, nat>::empty(), false, t, n as int),
                iter.wf(),
                iter.trace() == t,
                iter.message_len() == n,
                done <= total,
                iter.current() == if done < total {
                    Some(nth_combination(n as int, k, done))
                } else {
                    None
                },
                distinct_keys(listing_of(entries@)),
                forall|x: int|
                    0 <= x < entries@.len() ==> 1 <= (#[trigger] listing_of(entries@)[x]).1
                        <= usize::MAX,
                forall|x: int|
                    0 <= x < entries@.len() ==> (#[trigger] listing_of(entries@)[x]).1
                        == embedding_count(listing_of(entries@)[x].0, t) && enumerated(
                        listing_of(entries@)[x].0,
                        t,
                        n,
                        done,
                    ),
                forall|i: nat|
                    i < done && embedding_count(
                        candidate_of(t, #[trigger] nth_combination(n as int, k, i), n as int),
                        t,
                    ) > 0 ==> listed(
                        listing_of(entries@),
                        candidate_of(t, nth_combination(n as int, k, i), n as int),
                    ),
            ensures
                done == total,
                distinct_keys(listing_of(entries@)),
                forall|x: int|
                    0 <= x < entries@.len() ==> 1 <= (#[trigger] listing_of(entries@)[x]).1
                        <= usize::MAX,
                forall|x: int|
                    0 <= x < entries@.len() ==> (#[trigger] listing_of(entries@)[x]).1
                        == embedding_count(listing_of(entries@)[x].0, t) && enumerated(
                        listing_of(entries@)[x].0,
                        t,
                        n,
                        done,
                    ),
                forall|i: nat|
                    i < done && embedding_count(
                        candidate_of(t, #[trigger] nth_combination(n as int, k, i), n as int),
                        t,
                    ) > 0 ==> listed(
                        listing_of(entries@),
                        candidate_of(t, nth_combination(n as int, k, i), n as int),
                    ),
            decreases total - done,
        {
            let ghost held = listing_of(entries@);
            let ghost places = nth_combination(n as int, k, done);
            proof {
                if done < total {
                    lemma_nth(n, k, done);
                }
            }
            let candidate = match iter.next() {
                None => {
                    break ;
                },
                Some(candidate) => candidate,
            };
            let ghost key = candidate@;
            proof {
                assert(key == candidate_of(t, places, n as int));
                assert(enumerated(key, t, n, done + 1));
            }
            let known = position_of(&entries, &candidate);
            if known.is_none() {
                let count = checked_count_occurrences(&candidate, trace);
                match count {
                    None => {
                        proof {
                            assert(is_candidate(key, t, n as int));
                            assert(target.dom().contains(key));
                            assert(target[key] > usize::MAX);
                        }
                        return None;
                    },
                    Some(weight) => {
                        if weight != 0 {
                            entries.push(Entry { candidate, weight });
                            proof {
                                let now = listing_of(entries@);
                                assert forall|x: int| 0 <= x < held.len() implies now[x]
                                    == held[x] by {}
                                assert(now[held.len() as int] == (key, weight as nat));
                                assert forall|x: int, y: int|
                                    0 <= x < y < now.len() implies (#[trigger] now[x]).0 != (
                                #[trigger] now[y]).0 by {
                                    if y == held.len() {
                                        assert(entries@[x].candidate@ != key);
                                    } else {
                                        assert(held[x].0 != held[y].0);
                                    }
                                }
                                assert(listed(now, key));
                            }
                        }
                    },
                }
            } else {
                proof {
                    assert(held[known->Some_0 as int].0 == key);
                    assert(listed(held, key));
                }
            }
            proof {
                let now = listing_of(entries@);
                assert forall|x: int| 0 <= x < now.len() implies (#[trigger] now[x]).1
                    == embedding_count(now[x].0, t) && enumerated(now[x].0, t, n, done + 1) by {
                    if x < held.len() {
                        assert(now[x] == held[x]);
                        assert(enumerated(held[x].0, t, n, done));
                        let i = choose|i: nat|
                            i < done && held[x].0 == candidate_of(
                                t,
                                #[trigger] nth_combination(n as int, t.len(), i),
                                n as int,
                            );
                        assert(i < done + 1);
                    }
                }
                assert forall|i: nat|
                    i < done + 1 && embedding_count(
                        candidate_of(t, #[trigger] nth_combination(n as int, k, i), n as int),
                        t,
                    ) > 0 implies listed(
                    now,
                    candidate_of(t, nth_combination(n as int, k, i), n as int),
                ) by {
                    let c = candidate_of(t, nth_combination(n as int, k, i), n as int);
                    if i < done {
                        assert(listed(held, c));
                        let x = choose|x: int| 0 <= x < held.len() && (#[trigger] held[x]).0 == c;
                        assert(now[x] == held[x]);
                    }
                }
                done = done + 1;
            }
        }
        proof {
            let now = listing_of(entries@);
            let made = weights_of(now);
            assert forall|c: Seq<bool>| made.dom().contains(c) <==> target.dom().contains(c) by {
                if made.dom().contains(c) {
                    let x = listed_at(now, c);
                    assert(0 <= x < now.len() && now[x].0 == c);
                    assert(enumerated(now[x].0, t, n, done));
                    let i = choose|i: nat|
                        i < done && now[x].0 == candidate_of(
                            t,
                            #[trigger] nth_combination(n as int, t.len(), i),
                            n as int,
                        );
                    lemma_nth(n, k, i);
                    assert(is_candidate(c, t, n as int));
                    assert(1 <= now[x].1);
                }
                if target.dom().contains(c) {
                    let places = choose|places: Seq<usize>|
                        places.len() == t.len() && is_combination(places, n as int) && c
                            == #[trigger] candidate_of(t, places, n as int);
                    lemma_enumeration_complete(n, k, places);
                    let i = choose|i: nat|
                        i < binomial(n, k) && nth_combination(n as int, k, i) == places;
                    assert(listed(now, candidate_of(t, nth_combination(n as int, k, i), n as int)));
                    let x = choose|x: int| 0 <= x < now.len() && (#[trigger] now[x]).0 == c;
                    lemma_weights_of(now, x);
                }
            }
            assert forall|c: Seq<bool>| made.dom().contains(c) implies made[c] == target[c] by {
                let x = listed_at(now, c);
                assert(0 <= x < now.len() && now[x].0 == c);
            }
            assert(made =~= target);
            assert forall|c: Seq<bool>| target.dom().contains(c) implies #[trigger] target[c]
                <= usize::MAX by {
                let x = listed_at(now, c);
                assert(0 <= x < now.len() && now[x].0 == c);
            }
        }
        Some(entries)
    }
}

} // verus!
