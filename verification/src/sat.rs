use crate::bits::{max_bits, Bits};
use crate::combinatorics::{
    binomial, first_combination, has_successor, is_combination, lemma_binomial_positive,
    lemma_enumeration_complete, lemma_first, lemma_nth, lemma_spread, lemma_successor_valid,
    nth_combination, successor,
};
use crate::clause_laws::lemma_merge_determined;
use crate::trace::next_combination;
use vstd::prelude::*;

verus! {

/// A literal over one message position: position `id` holds 0 when `negated`,
/// and 1 otherwise.
#[derive(Clone, Copy, Debug, Hash, PartialEq, Eq, Structural)]
pub struct Term {
    pub id: u32,
    pub negated: bool,
}

impl Term {
    pub fn new(id: u32, negated: bool) -> (term: Self)
        ensures
            term.id == id,
            term.negated == negated,
    {
        Self { id, negated }
    }
}

/// Literals in strictly increasing order of position, so that no position
/// occurs twice.
pub open spec fn ordered(terms: Seq<Term>) -> bool {
    forall|i: int, j: int| 0 <= i < j < terms.len() ==> terms[i].id < terms[j].id
}

/// Some position is asserted with one polarity in `a` and the other in `b`:
/// no message satisfies both.
pub open spec fn contradictory(a: Seq<Term>, b: Seq<Term>) -> bool {
    exists|i: int, j: int|
        0 <= i < a.len() && 0 <= j < b.len() && (#[trigger] a[i]).id == (#[trigger] b[j]).id
            && a[i].negated != b[j].negated
}

/// The positions that a list of literals speaks of.
pub open spec fn positions(terms: Seq<Term>) -> Set<int> {
    Set::new(|id: int| exists|i: int| 0 <= i < terms.len() && (#[trigger] terms[i]).id == id)
}

/// What merging `a` with `b` gives: nothing where the two contradict each
/// other, and otherwise the ordered list of the literals of either.
pub open spec fn is_merge(a: Seq<Term>, b: Seq<Term>, merged: Option<Seq<Term>>) -> bool {
    match merged {
        None => contradictory(a, b),
        Some(c) => !contradictory(a, b) && ordered(c) && c.to_set() == a.to_set().union(
            b.to_set(),
        ),
    }
}

/// The ordered list of the literals of `a` or of `b`, for ordered lists that
/// do not contradict each other: the list with the larger last position
/// gives the last literal, and both give it where they end alike.
pub open spec fn union_terms(a: Seq<Term>, b: Seq<Term>) -> Seq<Term>
    decreases a.len() + b.len(),
{
    if a.len() == 0 {
        b
    } else if b.len() == 0 {
        a
    } else if a.last().id > b.last().id {
        union_terms(a.drop_last(), b).push(a.last())
    } else if a.last().id < b.last().id {
        union_terms(a, b.drop_last()).push(b.last())
    } else {
        union_terms(a.drop_last(), b.drop_last()).push(a.last())
    }
}

/// The result of merging `a` with `b`.
pub open spec fn merged(a: Seq<Term>, b: Seq<Term>) -> Option<Seq<Term>> {
    if contradictory(a, b) {
        None
    } else {
        Some(union_terms(a, b))
    }
}

/// The message gives every position that `clause` speaks of the bit that
/// the clause asks for.
pub open spec fn satisfies(message: Seq<bool>, clause: Seq<Term>) -> bool {
    forall|i: int|
        0 <= i < clause.len() ==> (#[trigger] clause[i]).id < message.len() && message[clause[i].id as int]
            == !clause[i].negated
}

/// The message satisfies one of the clauses.
pub open spec fn admits(clauses: Set<Seq<Term>>, message: Seq<bool>) -> bool {
    exists|c: Seq<Term>| #[trigger] clauses.contains(c) && satisfies(message, c)
}

/// What narrowing the clause set `s` by the clause set `t` leaves: the
/// merges of a clause of `s` with a clause of `t` that do not contradict
/// each other. An empty `t` carries no information and leaves `s` as it is.
pub open spec fn narrowed(s: Set<Seq<Term>>, t: Set<Seq<Term>>) -> Set<Seq<Term>> {
    if t =~= Set::<Seq<Term>>::empty() {
        s
    } else {
        Set::new(
            |c: Seq<Term>|
                exists|l: Seq<Term>, r: Seq<Term>|
                    #[trigger] s.contains(l) && #[trigger] t.contains(r) && merged(l, r) == Some(c),
        )
    }
}

/// A conjunction of literals, at most one for each position, kept in
/// increasing order of position.
#[derive(Debug, Hash)]
pub struct Conjunction {
    terms: Vec<Term>,
}

impl View for Conjunction {
    type V = Seq<Term>;

    closed spec fn view(&self) -> Seq<Term> {
        self.terms@
    }
}

impl PartialEq for Conjunction {
    fn eq(&self, other: &Self) -> (equal: bool) {
        self.same(other)
    }
}

impl vstd::std_specs::cmp::PartialEqSpecImpl for Conjunction {
    open spec fn obeys_eq_spec() -> bool {
        true
    }

    open spec fn eq_spec(&self, other: &Self) -> bool {
        self@ == other@
    }
}

impl Eq for Conjunction {

}

/// One of the first `upto` literals of `terms` is `term`.
spec fn among(term: Term, terms: Seq<Term>, upto: int) -> bool {
    exists|u: int| 0 <= u < upto && u < terms.len() && #[trigger] terms[u] == term
}

/// The view of an optional conjunction.
pub open spec fn option_view(c: Option<Conjunction>) -> Option<Seq<Term>> {
    match c {
        None => None,
        Some(c) => Some(c@),
    }
}

impl Conjunction {
    /// The literals are in strictly increasing order of position.
    pub open spec fn wf(&self) -> bool {
        ordered(self@)
    }

    /// The set of the literals.
    pub open spec fn literals(&self) -> Set<Term> {
        self@.to_set()
    }

    pub fn new(terms: Vec<Term>) -> (conjunction: Self)
        requires
            ordered(terms@),
        ensures
            conjunction@ == terms@,
            conjunction.wf(),
    {
        Self { terms }
    }

    /// The literals, in increasing order of position.
    pub fn terms(&self) -> (terms: &Vec<Term>)
        ensures
            terms@ == self@,
    {
        &self.terms
    }

    /// Whether two conjunctions hold the same literals.
    pub fn same(&self, other: &Self) -> (equal: bool)
        ensures
            equal == (self@ == other@),
    {
        let len = self.terms.len();
        if other.terms.len() != len {
            return false;
        }
        let mut i: usize = 0;
        while i < len
            invariant
                i <= len,
                len == self.terms@.len(),
                len == other.terms@.len(),
                forall|j: int| 0 <= j < i ==> self.terms@[j] == other.terms@[j],
            decreases len - i,
        {
            if self.terms[i].id != other.terms[i].id || self.terms[i].negated
                != other.terms[i].negated {
                return false;
            }
            i += 1;
        }
        assert(self.terms@ =~= other.terms@);
        true
    }

    /// The conjunction that asserts both `self` and `rhs`, or `None` where
    /// the two contradict each other.
    pub fn merge(&self, rhs: &Self) -> (merged: Option<Self>)
        requires
            self.wf(),
            rhs.wf(),
        ensures
            option_view(merged) == self::merged(self@, rhs@),
            merged is None <==> contradictory(self@, rhs@),
            merged matches Some(c) ==> c.wf() && c.literals() == self.literals().union(
                rhs.literals(),
            ),
    {
        let ghost a = self@;
        let ghost b = rhs@;
        let n = self.terms.len();
        let m = rhs.terms.len();
        let mut terms: Vec<Term> = Vec::new();
        let mut i: usize = 0;
        let mut j: usize = 0;
        while i < n || j < m
            invariant
                a == self.terms@,
                b == rhs.terms@,
                n == a.len(),
                m == b.len(),
                i <= n,
                j <= m,
                ordered(a),
                ordered(b),
                ordered(terms@),
                forall|x: int, u: int|
                    0 <= x < terms@.len() && i <= u < n ==> (#[trigger] terms@[x]).id < (
                    #[trigger] a[u]).id,
                forall|x: int, v: int|
                    0 <= x < terms@.len() && j <= v < m ==> (#[trigger] terms@[x]).id < (
                    #[trigger] b[v]).id,
                forall|x: int|
                    0 <= x < terms@.len() ==> among(#[trigger] terms@[x], a, i as int) || among(
                        terms@[x],
                        b,
                        j as int,
                    ),
                forall|u: int| 0 <= u < i ==> among(#[trigger] a[u], terms@, terms@.len() as int),
                forall|v: int| 0 <= v < j ==> among(#[trigger] b[v], terms@, terms@.len() as int),
                forall|u: int, v: int|
                    0 <= u < i && 0 <= v < m && (#[trigger] a[u]).id == (#[trigger] b[v]).id
                        ==> a[u].negated == b[v].negated,
                forall|u: int, v: int|
                    0 <= u < n && 0 <= v < j && (#[trigger] a[u]).id == (#[trigger] b[v]).id
                        ==> a[u].negated == b[v].negated,
            decreases (n - i) + (m - j),
        {
            let ghost before = terms@;
            let take_left: bool;
            let take_right: bool;
            if i == n {
                take_left = false;
                take_right = true;
            } else if j == m {
                take_left = true;
                take_right = false;
            } else {
                let left = self.terms[i];
                let right = rhs.terms[j];
                if right.id < left.id {
                    take_left = false;
                    take_right = true;
                } else if right.id > left.id {
                    take_left = true;
                    take_right = false;
                } else {
                    if left.negated != right.negated {
                        return None;
                    }
                    take_left = true;
                    take_right = true;
                }
            }
            let term = if take_left {
                self.terms[i]
            } else {
                rhs.terms[j]
            };
            terms.push(term);
            proof {
                let at = before.len() as int;
                assert(terms@[at] == term);
                assert forall|x: int| 0 <= x < before.len() implies terms@[x] == before[x] by {}
                if take_left {
                    assert(a[i as int] == terms@[at]);
                }
                if take_right {
                    assert(b[j as int] == terms@[at]);
                }
            }
            if take_left {
                i += 1;
            }
            if take_right {
                j += 1;
            }
            proof {
                assert forall|x: int| 0 <= x < terms@.len() implies among(
                    #[trigger] terms@[x],
                    a,
                    i as int,
                ) || among(terms@[x], b, j as int) by {
                    if x < before.len() {
                        assert(terms@[x] == before[x]);
                        if among(before[x], a, i as int - if take_left { 1int } else { 0int }) {
                            let u = choose|u: int|
                                0 <= u < i && u < a.len() && #[trigger] a[u] == before[x];
                            assert(a[u] == terms@[x]);
                        } else {
                            let v = choose|v: int|
                                0 <= v < j && v < b.len() && #[trigger] b[v] == before[x];
                            assert(b[v] == terms@[x]);
                        }
                    } else {
                        if take_left {
                            assert(a[i - 1] == terms@[x]);
                        } else {
                            assert(b[j - 1] == terms@[x]);
                        }
                    }
                }
                assert forall|u: int| 0 <= u < i implies among(
                    #[trigger] a[u],
                    terms@,
                    terms@.len() as int,
                ) by {
                    if take_left && u == i - 1 {
                        assert(terms@[before.len() as int] == a[u]);
                    } else {
                        let x = choose|x: int|
                            0 <= x < before.len() && #[trigger] before[x] == a[u];
                        assert(terms@[x] == a[u]);
                    }
                }
                assert forall|v: int| 0 <= v < j implies among(
                    #[trigger] b[v],
                    terms@,
                    terms@.len() as int,
                ) by {
                    if take_right && v == j - 1 {
                        assert(terms@[before.len() as int] == b[v]);
                    } else {
                        let x = choose|x: int|
                            0 <= x < before.len() && #[trigger] before[x] == b[v];
                        assert(terms@[x] == b[v]);
                    }
                }
            }
        }
        let merged = Conjunction { terms };
        proof {
            assert forall|t: Term|
                merged@.to_set().contains(t) <==> a.to_set().union(b.to_set()).contains(t) by {
                if merged@.contains(t) {
                    let x = choose|x: int| 0 <= x < merged@.len() && merged@[x] == t;
                    if among(merged@[x], a, i as int) {
                        let u = choose|u: int|
                            0 <= u < i && u < a.len() && #[trigger] a[u] == merged@[x];
                        assert(a.contains(t));
                    } else {
                        let v = choose|v: int|
                            0 <= v < j && v < b.len() && #[trigger] b[v] == merged@[x];
                        assert(b.contains(t));
                    }
                }
                if a.contains(t) {
                    let u = choose|u: int| 0 <= u < a.len() && a[u] == t;
                    assert(among(a[u], merged@, merged@.len() as int));
                    let x = choose|x: int|
                        0 <= x < merged@.len() && #[trigger] merged@[x] == a[u];
                    assert(merged@.contains(t));
                }
                if b.contains(t) {
                    let v = choose|v: int| 0 <= v < b.len() && b[v] == t;
                    assert(among(b[v], merged@, merged@.len() as int));
                    let x = choose|x: int|
                        0 <= x < merged@.len() && #[trigger] merged@[x] == b[v];
                    assert(merged@.contains(t));
                }
            }
            assert(merged@.to_set() =~= a.to_set().union(b.to_set()));
            assert(is_merge(a, b, Some(merged@)));
            lemma_merge_determined(a, b, Some(merged@));
        }
        Some(merged)
    }
}

/// The clause that a trace gives for one way of placing it in the message:
/// position `c[i]` holds the `i`-th bit of the trace.
pub open spec fn clause_of(trace: Seq<bool>, c: Seq<usize>) -> Seq<Term> {
    Seq::new(c.len(), |i: int| Term { id: c[i] as u32, negated: !trace[i] })
}

/// The clauses that a trace gives for a message of `message_len` bits: one
/// for each way of placing the bits of the trace, in order, on positions of
/// the message. A trace without bits gives none.
pub open spec fn trace_clauses(trace: Seq<bool>, message_len: int) -> Set<Seq<Term>> {
    Set::new(
        |t: Seq<Term>|
            exists|c: Seq<usize>|
                trace.len() >= 1 && c.len() == trace.len() && is_combination(c, message_len)
                    && t == #[trigger] clause_of(trace, c),
    )
}

/// The clause that holds of one message only: each position with its bit.
pub open spec fn full_clause(message: Seq<bool>) -> Seq<Term> {
    Seq::new(message.len(), |i: int| Term { id: i as u32, negated: !message[i] })
}

/// The views of the clauses of a list, as a set.
pub open spec fn clause_set(clauses: Seq<Conjunction>) -> Set<Seq<Term>> {
    Set::new(|t: Seq<Term>| exists|i: int| 0 <= i < clauses.len() && (#[trigger] clauses[i])@ == t)
}

/// Each clause of the list is well formed.
pub open spec fn all_wf(clauses: Seq<Conjunction>) -> bool {
    forall|i: int| 0 <= i < clauses.len() ==> (#[trigger] clauses[i]).wf()
}

/// No clause occurs twice in the list.
pub open spec fn distinct(clauses: Seq<Conjunction>) -> bool {
    forall|i: int, j: int|
        0 <= i < j < clauses.len() ==> (#[trigger] clauses[i])@ != (#[trigger] clauses[j])@
}

proof fn lemma_clause_of_ordered(trace: Seq<bool>, c: Seq<usize>, message_len: int)
    requires
        is_combination(c, message_len),
        message_len <= u32::MAX,
    ensures
        ordered(clause_of(trace, c)),
{
    let t = clause_of(trace, c);
    assert forall|i: int, j: int| 0 <= i < j < t.len() implies t[i].id < t[j].id by {
        assert(c[i] < c[j]);
    }
}

/// The merges of a clause of `left` with a clause of `right`, for the pairs
/// that narrowing has gone through when it stands at clause `r` of `right`
/// and clause `l` of `left`.
spec fn merges_before(left: Seq<Conjunction>, right: Seq<Conjunction>, r: int, l: int) -> Set<
    Seq<Term>,
> {
    Set::new(
        |c: Seq<Term>|
            exists|x: int, y: int|
                0 <= x < left.len() && 0 <= y < right.len() && (y < r || (y == r && x < l))
                    && merged((#[trigger] left[x])@, (#[trigger] right[y])@) == Some(c),
    )
}

/// Adds a clause to a list without repetitions, unless the list holds it.
fn insert_clause(clauses: &mut Vec<Conjunction>, clause: Conjunction)
    requires
        all_wf(old(clauses)@),
        distinct(old(clauses)@),
        clause.wf(),
    ensures
        all_wf(final(clauses)@),
        distinct(final(clauses)@),
        clause_set(final(clauses)@) == clause_set(old(clauses)@).insert(clause@),
{
    let ghost before = clauses@;
    let mut i: usize = 0;
    while i < clauses.len()
        invariant
            clauses@ == before,
            before == old(clauses)@,
            all_wf(before),
            distinct(before),
            clause.wf(),
            i <= before.len(),
            forall|k: int| 0 <= k < i ==> (#[trigger] before[k])@ != clause@,
        decreases before.len() - i,
    {
        if clauses[i].same(&clause) {
            proof {
                assert(clause_set(before).contains(clause@));
                assert(clause_set(before) =~= clause_set(before).insert(clause@));
            }
            return ;
        }
        i += 1;
    }
    clauses.push(clause);
    proof {
        let after = clauses@;
        assert forall|k: int| 0 <= k < before.len() implies after[k] == before[k] by {}
        assert(after[before.len() as int] == clause);
        assert forall|t: Seq<Term>|
            clause_set(after).contains(t) <==> clause_set(before).insert(clause@).contains(t) by {
            if clause_set(after).contains(t) {
                let k = choose|k: int| 0 <= k < after.len() && (#[trigger] after[k])@ == t;
                if k < before.len() {
                    assert(before[k]@ == t);
                }
            }
            if clause_set(before).contains(t) {
                let k = choose|k: int| 0 <= k < before.len() && (#[trigger] before[k])@ == t;
                assert(after[k]@ == t);
            }
            if t == clause@ {
                assert(after[before.len() as int]@ == t);
            }
        }
        assert(clause_set(after) =~= clause_set(before).insert(clause@));
    }
}

/// The clauses of one trace, produced one at a time.
pub struct TraceClauseIter<'a> {
    trace: &'a Bits,
    message_len: usize,
    combination: Option<Vec<usize>>,
}

impl<'a> TraceClauseIter<'a> {
    /// The bits of the trace.
    pub closed spec fn trace(&self) -> Seq<bool> {
        self.trace@
    }

    /// The length of the message.
    pub closed spec fn message_len(&self) -> int {
        self.message_len as int
    }

    /// The combination for which the next clause will be built, if any is
    /// left.
    pub closed spec fn current(&self) -> Option<Seq<usize>> {
        match self.combination {
            Some(c) => Some(c@),
            None => None,
        }
    }

    pub open spec fn wf(&self) -> bool {
        &&& self.message_len() <= u32::MAX
        &&& self.current() matches Some(c) ==> c.len() == self.trace().len() && c.len() >= 1
            && is_combination(c, self.message_len())
    }

    /// Starts at the first combination. A trace without bits, or with more
    /// bits than the message, has no clauses.
    pub fn new(trace: &'a Bits, message_len: usize) -> (iter: Self)
        requires
            message_len <= u32::MAX,
        ensures
            iter.wf(),
            iter.trace() == trace@,
            iter.message_len() == message_len,
            iter.current() == if 1 <= trace@.len() <= message_len {
                Some(first_combination(trace@.len()))
            } else {
                None
            },
    {
        let len = trace.len();
        if len == 0 || len > message_len {
            return Self { trace, message_len, combination: None };
        }
        let mut combination: Vec<usize> = Vec::new();
        let mut i: usize = 0;
        while i < len
            invariant
                i <= len,
                combination@.len() == i,
                forall|j: int| 0 <= j < i ==> combination@[j] == j,
            decreases len - i,
        {
            combination.push(i);
            i += 1;
        }
        proof {
            assert(combination@ =~= first_combination(len as nat));
            lemma_first(message_len as nat, len as nat);
        }
        Self { trace, message_len, combination: Some(combination) }
    }

    /// The clause for the current combination, after which the iterator
    /// stands at the combination that follows; `None` once all are used up.
    pub fn next(&mut self) -> (clause: Option<Conjunction>)
        requires
            old(self).wf(),
        ensures
            final(self).wf(),
            final(self).trace() == old(self).trace(),
            final(self).message_len() == old(self).message_len(),
            match old(self).current() {
                None => clause is None && final(self).current() is None,
                Some(c) => {
                    &&& clause matches Some(made)
                    &&& made@ == clause_of(old(self).trace(), c)
                    &&& made.wf()
                    &&& final(self).current() == if has_successor(c, old(self).message_len()) {
                        Some(successor(c, old(self).message_len()))
                    } else {
                        None
                    }
                },
            },
    {
        let mut combination = match self.combination.take() {
            None => {
                return None;
            },
            Some(combination) => combination,
        };
        let ghost c = combination@;
        let len = combination.len();
        let mut terms: Vec<Term> = Vec::new();
        let mut i: usize = 0;
        while i < len
            invariant
                i <= len,
                len == c.len(),
                combination@ == c,
                c.len() == self.trace@.len(),
                is_combination(c, self.message_len as int),
                self.message_len <= u32::MAX,
                terms@.len() == i,
                forall|j: int| 0 <= j < i ==> terms@[j] == clause_of(self.trace@, c)[j],
            decreases len - i,
        {
            let id = combination[i];
            terms.push(Term::new(id as u32, !self.trace.get(i)));
            i += 1;
        }
        proof {
            assert(terms@ =~= clause_of(self.trace@, c));
            lemma_clause_of_ordered(self.trace@, c, self.message_len as int);
            if has_successor(c, self.message_len as int) {
                lemma_successor_valid(c, self.message_len as int);
            }
        }
        let clause = Conjunction::new(terms);
        if next_combination(&mut combination, self.message_len) {
            self.combination = Some(combination);
        }
        Some(clause)
    }
}

/// The clauses that the traces seen so far leave open, each standing for
/// the messages that satisfy it.
#[derive(Debug)]
pub struct TraceDisjunction {
    clauses: Vec<Conjunction>,
    message_len: usize,
}

impl View for TraceDisjunction {
    type V = Set<Seq<Term>>;

    closed spec fn view(&self) -> Set<Seq<Term>> {
        clause_set(self.clauses@)
    }
}

impl TraceDisjunction {
    /// The length of the message that the clauses speak of.
    pub closed spec fn message_len(&self) -> int {
        self.message_len as int
    }

    /// The clauses in the order in which they are held.
    pub closed spec fn listing(&self) -> Seq<Conjunction> {
        self.clauses@
    }

    /// The clauses are well formed and none is held twice; the message is
    /// short enough for its positions to be numbered and its bits stored.
    pub closed spec fn wf(&self) -> bool {
        &&& all_wf(self.clauses@)
        &&& distinct(self.clauses@)
        &&& self.message_len <= u32::MAX
        &&& self.message_len <= max_bits()
    }

    /// The clauses of one trace.
    pub fn from_trace(trace: &Bits, message_len: usize) -> (disjunction: Self)
        requires
            message_len <= u32::MAX,
            message_len <= max_bits(),
        ensures
            disjunction.wf(),
            disjunction.message_len() == message_len,
            disjunction@ == trace_clauses(trace@, message_len as int),
    {
        let mut iter = Self::clauses_from_trace(trace, message_len);
        let mut clauses: Vec<Conjunction> = Vec::new();
        let ghost k = trace@.len();
        let ghost n = message_len as nat;
        let ghost total = binomial(n, k);
        let ghost in_range = 1 <= k <= n;
        let ghost mut done: nat = 0;
        proof {
            if in_range {
                lemma_binomial_positive(n, k);
            }
        }
        loop
            invariant
                !in_range ==> done == 0,
                k == trace@.len(),
                n == message_len,
                n <= u32::MAX,
                total == binomial(n, k),
                in_range == (1 <= k <= n),
                iter.wf(),
                iter.trace() == trace@,
                iter.message_len() == n,
                in_range ==> done <= total,
                iter.current() == if in_range && done < total {
                    Some(nth_combination(n as int, k, done))
                } else {
                    None
                },
                all_wf(clauses@),
                distinct(clauses@),
                clause_set(clauses@) == Set::new(
                    |t: Seq<Term>|
                        exists|i: nat|
                            i < done && t == clause_of(
                                trace@,
                                #[trigger] nth_combination(n as int, k, i),
                            ),
                ),
            ensures
                all_wf(clauses@),
                distinct(clauses@),
                in_range ==> done == total,
                !in_range ==> done == 0,
                clause_set(clauses@) == Set::new(
                    |t: Seq<Term>|
                        exists|i: nat|
                            i < done && t == clause_of(
                                trace@,
                                #[trigger] nth_combination(n as int, k, i),
                            ),
                ),
            decreases total - done,
        {
            let ghost held = clause_set(clauses@);
            proof {
                if in_range && done < total {
                    lemma_nth(n, k, done);
                }
            }
            match iter.next() {
                None => {
                    break ;
                },
                Some(clause) => {
                    insert_clause(&mut clauses, clause);
                    proof {
                        let c = nth_combination(n as int, k, done);
                        let grown = Set::new(
                            |t: Seq<Term>|
                                exists|i: nat|
                                    i < done + 1 && t == clause_of(
                                        trace@,
                                        #[trigger] nth_combination(n as int, k, i),
                                    ),
                        );
                        assert forall|t: Seq<Term>| grown.contains(t) <==> held.insert(
                            clause_of(trace@, c),
                        ).contains(t) by {
                            if grown.contains(t) {
                                let i = choose|i: nat|
                                    i < done + 1 && t == clause_of(
                                        trace@,
                                        #[trigger] nth_combination(n as int, k, i),
                                    );
                                if i < done {
                                    assert(held.contains(t));
                                }
                            }
                            if held.contains(t) {
                                let i = choose|i: nat|
                                    i < done && t == clause_of(
                                        trace@,
                                        #[trigger] nth_combination(n as int, k, i),
                                    );
                                assert(i < done + 1);
                            }
                            if t == clause_of(trace@, c) {
                                assert(done < done + 1 && t == clause_of(
                                    trace@,
                                    nth_combination(n as int, k, done),
                                ));
                            }
                        }
                        assert(grown =~= held.insert(clause_of(trace@, c)));
                        done = done + 1;
                    }
                },
            }
        }
        proof {
            let found = clause_set(clauses@);
            let wanted = trace_clauses(trace@, n as int);
            assert forall|t: Seq<Term>| found.contains(t) <==> wanted.contains(t) by {
                if found.contains(t) {
                    let i = choose|i: nat|
                        i < done && t == clause_of(
                            trace@,
                            #[trigger] nth_combination(n as int, k, i),
                        );
                    if in_range {
                        lemma_nth(n, k, i);
                    }
                    assert(t == clause_of(trace@, nth_combination(n as int, k, i)));
                }
                if wanted.contains(t) {
                    let c = choose|c: Seq<usize>|
                        trace@.len() >= 1 && c.len() == trace@.len() && is_combination(c, n as int)
                            && t == #[trigger] clause_of(trace@, c);
                    lemma_spread(c, n as int, 0, k - 1);
                    lemma_enumeration_complete(n, k, c);
                    let i = choose|i: nat|
                        i < binomial(n, k) && nth_combination(n as int, k, i) == c;
                    assert(i < done && t == clause_of(trace@, nth_combination(n as int, k, i)));
                }
            }
            assert(found =~= wanted);
        }
        Self { clauses, message_len }
    }

    /// Narrows the clause set by the clauses of another trace: what is left
    /// are the merges of one clause of each side that do not contradict each
    /// other. Narrowing by no clauses at all changes nothing.
    pub fn and(&mut self, other: &Vec<Conjunction>)
        requires
            old(self).wf(),
            all_wf(other@),
        ensures
            final(self).wf(),
            final(self).message_len() == old(self).message_len(),
            final(self)@ == narrowed(old(self)@, clause_set(other@)),
    {
        let ghost left = self.clauses@;
        let ghost right = other@;
        if other.len() == 0 {
            proof {
                assert(clause_set(right) =~= Set::<Seq<Term>>::empty());
            }
            return ;
        }
        let mut clauses: Vec<Conjunction> = Vec::new();
        let mut r: usize = 0;
        proof {
            assert(clause_set(clauses@) =~= merges_before(left, right, 0, 0));
        }
        while r < other.len()
            invariant
                left == self.clauses@,
                right == other@,
                all_wf(left),
                all_wf(right),
                r <= right.len(),
                all_wf(clauses@),
                distinct(clauses@),
                clause_set(clauses@) == merges_before(left, right, r as int, 0),
            decreases right.len() - r,
        {
            let mut l: usize = 0;
            while l < self.clauses.len()
                invariant
                    left == self.clauses@,
                    right == other@,
                    all_wf(left),
                    all_wf(right),
                    r < right.len(),
                    l <= left.len(),
                    all_wf(clauses@),
                    distinct(clauses@),
                    clause_set(clauses@) == merges_before(left, right, r as int, l as int),
                decreases left.len() - l,
            {
                let ghost held = clause_set(clauses@);
                let made = self.clauses[l].merge(&other[r]);
                let ghost result = option_view(made);
                if let Some(clause) = made {
                    insert_clause(&mut clauses, clause);
                }
                proof {
                    let grown = merges_before(left, right, r as int, l + 1);
                    let now = clause_set(clauses@);
                    assert(result == merged(left[l as int]@, right[r as int]@));
                    assert forall|c: Seq<Term>| grown.contains(c) <==> now.contains(c) by {
                        if grown.contains(c) {
                            let (x, y) = choose|x: int, y: int|
                                0 <= x < left.len() && 0 <= y < right.len() && (y < r || (y == r
                                    && x < l + 1)) && merged(
                                    (#[trigger] left[x])@,
                                    (#[trigger] right[y])@,
                                ) == Some(c);
                            if y == r && x == l {
                                assert(result == Some(c));
                            } else {
                                assert(0 <= x < left.len() && 0 <= y < right.len() && (y < r || (y
                                    == r && x < l)) && merged(left[x]@, right[y]@) == Some(c));
                                assert(held.contains(c));
                            }
                        }
                        if held.contains(c) {
                            let (x, y) = choose|x: int, y: int|
                                0 <= x < left.len() && 0 <= y < right.len() && (y < r || (y == r
                                    && x < l)) && merged(
                                    (#[trigger] left[x])@,
                                    (#[trigger] right[y])@,
                                ) == Some(c);
                            assert(0 <= x < left.len() && 0 <= y < right.len() && (y < r || (y == r
                                && x < l + 1)) && merged(left[x]@, right[y]@) == Some(c));
                        }
                        if result == Some(c) {
                            assert(0 <= l < left.len() && 0 <= r < right.len() && (r < r || (r == r
                                && l < l + 1)) && merged(left[l as int]@, right[r as int]@)
                                == Some(c));
                        }
                    }
                    assert(grown =~= now);
                }
                l += 1;
            }
            proof {
                let full = merges_before(left, right, r as int, left.len() as int);
                let next = merges_before(left, right, r + 1, 0);
                assert forall|c: Seq<Term>| full.contains(c) <==> next.contains(c) by {
                    if full.contains(c) {
                        let (x, y) = choose|x: int, y: int|
                            0 <= x < left.len() && 0 <= y < right.len() && (y < r || (y == r && x
                                < left.len())) && merged(
                                (#[trigger] left[x])@,
                                (#[trigger] right[y])@,
                            ) == Some(c);
                        assert(0 <= x < left.len() && 0 <= y < right.len() && (y < r + 1 || (y == r
                            + 1 && x < 0)) && merged(left[x]@, right[y]@) == Some(c));
                    }
                    if next.contains(c) {
                        let (x, y) = choose|x: int, y: int|
                            0 <= x < left.len() && 0 <= y < right.len() && (y < r + 1 || (y == r
                                + 1 && x < 0)) && merged(
                                (#[trigger] left[x])@,
                                (#[trigger] right[y])@,
                            ) == Some(c);
                        assert(0 <= x < left.len() && 0 <= y < right.len() && (y < r || (y == r
                            && x < left.len())) && merged(left[x]@, right[y]@) == Some(c));
                    }
                }
                assert(full =~= next);
            }
            r += 1;
        }
        proof {
            let s = clause_set(left);
            let t = clause_set(right);
            let all = merges_before(left, right, right.len() as int, 0);
            assert(t.contains(right[0]@));
            assert(!(t =~= Set::<Seq<Term>>::empty()));
            let wanted = narrowed(s, t);
            assert forall|c: Seq<Term>| all.contains(c) <==> wanted.contains(c) by {
                if all.contains(c) {
                    let (x, y) = choose|x: int, y: int|
                        0 <= x < left.len() && 0 <= y < right.len() && (y < right.len() || (y
                            == right.len() && x < 0)) && merged(
                            (#[trigger] left[x])@,
                            (#[trigger] right[y])@,
                        ) == Some(c);
                    assert(s.contains(left[x]@) && t.contains(right[y]@));
                }
                if wanted.contains(c) {
                    let (a, b) = choose|a: Seq<Term>, b: Seq<Term>|
                        #[trigger] s.contains(a) && #[trigger] t.contains(b) && merged(a, b)
                            == Some(c);
                    let x = choose|x: int| 0 <= x < left.len() && (#[trigger] left[x])@ == a;
                    let y = choose|y: int| 0 <= y < right.len() && (#[trigger] right[y])@ == b;
                    assert(0 <= x < left.len() && 0 <= y < right.len() && (y < right.len() || (y
                        == right.len() && x < 0)) && merged(left[x]@, right[y]@) == Some(c));
                }
            }
            assert(all =~= wanted);
        }
        self.clauses = clauses;
    }

    /// The message, once the clauses have settled on one: there is exactly
    /// one clause left, and it gives every position of the message its bit.
    pub fn message(&self) -> (message: Option<Bits>)
        requires
            self.wf(),
        ensures
            match message {
                Some(found) => found@.len() == self.message_len() && self@ == set![
                    full_clause(found@),
                ],
                None => forall|m: Seq<bool>|
                    m.len() == self.message_len() ==> self@ != set![#[trigger] full_clause(m)],
            },
    {
        if self.clauses.len() != 1 {
            proof {
                assert forall|m: Seq<bool>| m.len() == self.message_len() implies self@ != set![
                    #[trigger] full_clause(m),
                ] by {
                    let only = set![full_clause(m)];
                    if self.clauses@.len() == 0 {
                        assert(only.contains(full_clause(m)));
                        assert(!self@.contains(full_clause(m)));
                    } else {
                        assert(self@.contains(self.clauses@[0]@));
                        assert(self@.contains(self.clauses@[1]@));
                        assert(self.clauses@[0]@ != self.clauses@[1]@);
                    }
                }
            }
            return None;
        }
        let clause = &self.clauses[0];
        let ghost c = clause@;
        proof {
            assert(self@.contains(c));
            assert(self@ =~= set![c]);
        }
        if clause.terms.len() != self.message_len {
            proof {
                assert forall|m: Seq<bool>| m.len() == self.message_len() implies self@ != set![
                    #[trigger] full_clause(m),
                ] by {
                    assert(set![full_clause(m)].contains(full_clause(m)));
                }
            }
            return None;
        }
        let mut found = Bits::new();
        let mut i: usize = 0;
        while i < self.message_len
            invariant
                i <= self.message_len,
                self.message_len <= u32::MAX,
                self.message_len <= max_bits(),
                c == clause@,
                c.len() == self.message_len,
                self@ == set![c],
                found@.len() == i,
                forall|j: int| 0 <= j < i ==> c[j] == full_clause(found@)[j],
            decreases self.message_len - i,
        {
            let term = clause.terms[i];
            if term.id as usize != i {
                proof {
                    assert forall|m: Seq<bool>| m.len() == self.message_len() implies self@
                        != set![#[trigger] full_clause(m)] by {
                        assert(set![full_clause(m)].contains(full_clause(m)));
                        assert(full_clause(m)[i as int].id == i);
                    }
                }
                return None;
            }
            let ghost held = found@;
            found.push(!term.negated);
            proof {
                assert forall|j: int| 0 <= j < i + 1 implies c[j] == full_clause(found@)[j] by {
                    if j < i {
                        assert(c[j] == full_clause(held)[j]);
                    }
                }
            }
            i += 1;
        }
        proof {
            assert(c =~= full_clause(found@));
        }
        Some(found)
    }

    /// Whether no clause is left: every hypothesis has been contradicted.
    pub fn is_exhausted(&self) -> (exhausted: bool)
        ensures
            exhausted == (self@ == Set::<Seq<Term>>::empty()),
    {
        let exhausted = self.clauses.len() == 0;
        proof {
            if exhausted {
                assert(self@ =~= Set::<Seq<Term>>::empty());
            } else {
                assert(self@.contains(self.clauses@[0]@));
            }
        }
        exhausted
    }

    /// The clauses, each once.
    pub fn clauses(&self) -> (clauses: &Vec<Conjunction>)
        requires
            self.wf(),
        ensures
            clauses@ == self.listing(),
            clause_set(clauses@) == self@,
            all_wf(clauses@),
            distinct(clauses@),
    {
        &self.clauses
    }

    /// The clauses of one trace, one at a time.
    pub fn clauses_from_trace(trace: &Bits, message_len: usize) -> (iter: TraceClauseIter<'_>)
        requires
            message_len <= u32::MAX,
        ensures
            iter.wf(),
            iter.trace() == trace@,
            iter.message_len() == message_len,
            iter.current() == if 1 <= trace@.len() <= message_len {
                Some(first_combination(trace@.len()))
            } else {
                None
            },
    {
        TraceClauseIter::new(trace, message_len)
    }
}

} // verus!
