use crate::embedding::{embedding_count, is_embedding};
use crate::clause_laws::lemma_narrowing_intersects;
use crate::combinatorics::is_combination;
use crate::sat::{
    admits, clause_of, full_clause, narrowed, ordered, satisfies, trace_clauses, Term,
};
use crate::trace::surviving;
use vstd::prelude::*;

verus! {

/// The places of the bits that survive, in increasing order.
pub open spec fn surviving_places(survives: Seq<bool>) -> Seq<usize>
    decreases survives.len(),
{
    if survives.len() == 0 {
        Seq::empty()
    } else if survives.last() {
        surviving_places(survives.drop_last()).push((survives.len() - 1) as usize)
    } else {
        surviving_places(survives.drop_last())
    }
}

/// A trace is embedded in its message, at the places of the bits that
/// survived.
pub proof fn lemma_trace_embedded(message: Seq<bool>, survives: Seq<bool>)
    requires
        survives.len() == message.len(),
        message.len() <= usize::MAX,
    ensures
        is_embedding(message, surviving(message, survives), surviving_places(survives)),
    decreases message.len(),
{
    if message.len() > 0 {
        let m = message.drop_last();
        let s = survives.drop_last();
        lemma_trace_embedded(m, s);
        let t = surviving(m, s);
        let e = surviving_places(s);
        let last = (message.len() - 1) as usize;
        assert forall|j: int| 0 <= j < e.len() implies (#[trigger] e[j]) < m.len() && message[e[j] as int]
            == t[j] by {
            assert(m[e[j] as int] == t[j]);
        }
        if survives.last() {
            let e2 = e.push(last);
            let t2 = t.push(message.last());
            assert forall|i: int, j: int| 0 <= i < j < e2.len() implies e2[i] < e2[j] by {
                if j < e.len() {
                    assert(e2[i] == e[i] && e2[j] == e[j]);
                } else {
                    assert(e2[i] == e[i]);
                    assert(e[i] < m.len());
                }
            }
            assert forall|j: int| 0 <= j < e2.len() implies (#[trigger] e2[j]) < message.len()
                && message[e2[j] as int] == t2[j] by {
                if j < e.len() {
                    assert(e2[j] == e[j]);
                }
            }
        }
    }
}

/// The clauses of a trace admit exactly the messages in which the trace is
/// embedded.
pub proof fn lemma_trace_clauses_meaning(trace: Seq<bool>, message: Seq<bool>)
    requires
        trace.len() >= 1,
        message.len() <= u32::MAX,
    ensures
        admits(trace_clauses(trace, message.len() as int), message) <==> exists|e: Seq<usize>|
            is_embedding(message, trace, e),
{
    let n = message.len() as int;
    let clauses = trace_clauses(trace, n);
    if admits(clauses, message) {
        let t = choose|t: Seq<Term>| #[trigger] clauses.contains(t) && satisfies(message, t);
        let c = choose|c: Seq<usize>|
            trace.len() >= 1 && c.len() == trace.len() && is_combination(c, n) && t == #[trigger] clause_of(trace, c);
        assert forall|j: int| 0 <= j < c.len() implies (#[trigger] c[j]) < message.len()
            && message[c[j] as int] == trace[j] by {
            assert(t[j].id == c[j]);
            assert(message[t[j].id as int] == !t[j].negated);
        }
        assert(is_embedding(message, trace, c));
    }
    if exists|e: Seq<usize>| is_embedding(message, trace, e) {
        let e = choose|e: Seq<usize>| is_embedding(message, trace, e);
        let t = clause_of(trace, e);
        assert(is_combination(e, n));
        assert(clauses.contains(t));
        assert forall|i: int| 0 <= i < t.len() implies (#[trigger] t[i]).id < message.len()
            && message[t[i].id as int] == !t[i].negated by {
            assert(e[i] < message.len());
        }
        assert(satisfies(message, t));
    }
}

/// The clause of one message is satisfied by that message and by no other
/// of the same length.
pub proof fn lemma_full_clause_meaning(found: Seq<bool>, message: Seq<bool>)
    requires
        found.len() == message.len(),
        message.len() <= u32::MAX,
    ensures
        satisfies(message, full_clause(found)) <==> message == found,
{
    let c = full_clause(found);
    if satisfies(message, c) {
        assert forall|i: int| 0 <= i < message.len() implies message[i] == found[i] by {
            assert(c[i].id == i);
            assert(message[c[i].id as int] == !c[i].negated);
        }
        assert(message =~= found);
    }
}

/// The exact engine cannot settle on a wrong message: where the clause set
/// still admits the message, and has come down to the one clause that
/// `found` satisfies alone, `found` is the message.
pub proof fn lemma_answer_is_message(
    clauses: Set<Seq<Term>>,
    found: Seq<bool>,
    message: Seq<bool>,
)
    requires
        found.len() == message.len(),
        message.len() <= u32::MAX,
        clauses == set![full_clause(found)],
        admits(clauses, message),
    ensures
        found == message,
{
    let c = choose|c: Seq<Term>| #[trigger] clauses.contains(c) && satisfies(message, c);
    assert(c == full_clause(found));
    lemma_full_clause_meaning(found, message);
}

/// Narrowing by the clauses of a trace of the message keeps the message
/// among those that the clause set admits.
pub proof fn lemma_narrowing_keeps_message(
    clauses: Set<Seq<Term>>,
    message: Seq<bool>,
    survives: Seq<bool>,
)
    requires
        forall|c: Seq<Term>| clauses.contains(c) ==> ordered(c),
        admits(clauses, message),
        survives.len() == message.len(),
        message.len() <= u32::MAX,
    ensures
        admits(
            narrowed(
                clauses,
                trace_clauses(surviving(message, survives), message.len() as int),
            ),
            message,
        ),
{
    let trace = surviving(message, survives);
    let n = message.len() as int;
    let other = trace_clauses(trace, n);
    if !(other =~= Set::<Seq<Term>>::empty()) {
        assert forall|t: Seq<Term>| other.contains(t) implies ordered(t) && trace.len() >= 1 by {
            let c = choose|c: Seq<usize>|
                trace.len() >= 1 && c.len() == trace.len() && is_combination(c, n) && t
                    == #[trigger] clause_of(trace, c);
            assert forall|i: int, j: int| 0 <= i < j < t.len() implies t[i].id < t[j].id by {
                assert(c[i] < c[j]);
            }
        }
        let some = choose|t: Seq<Term>| other.contains(t);
        assert(other.contains(some));
        lemma_trace_embedded(message, survives);
        lemma_trace_clauses_meaning(trace, message);
        assert(is_embedding(message, trace, surviving_places(survives)));
        lemma_narrowing_intersects(clauses, other, message);
    }
}

/// Whether a sequence is embedded in another shows in the count: there is
/// an embedding exactly when the number of embeddings is not 0.
pub proof fn lemma_embedded_iff_counted(s: Seq<bool>, t: Seq<bool>)
    requires
        s.len() <= usize::MAX,
    ensures
        embedding_count(s, t) > 0 <==> exists|e: Seq<usize>| is_embedding(s, t, e),
    decreases s.len(),
{
    if t.len() == 0 {
        assert(is_embedding(s, t, Seq::<usize>::empty()));
    } else if s.len() == 0 {
        if exists|e: Seq<usize>| is_embedding(s, t, e) {
            let e = choose|e: Seq<usize>| is_embedding(s, t, e);
            assert(e[0] < s.len());
        }
    } else {
        let s1 = s.skip(1);
        let t1 = t.skip(1);
        lemma_embedded_iff_counted(s1, t);
        lemma_embedded_iff_counted(s1, t1);
        if embedding_count(s, t) > 0 {
            if embedding_count(s1, t) > 0 {
                let e1 = choose|e: Seq<usize>| is_embedding(s1, t, e);
                let e = Seq::new(e1.len(), |j: int| (e1[j] + 1) as usize);
                assert forall|j: int| 0 <= j < e.len() implies (#[trigger] e[j]) < s.len()
                    && s[e[j] as int] == t[j] by {
                    assert(e1[j] < s1.len());
                    assert(s1[e1[j] as int] == t[j]);
                }
                assert forall|i: int, j: int| 0 <= i < j < e.len() implies e[i] < e[j] by {
                    assert(e1[i] < e1[j]);
                    assert(e1[j] < s1.len());
                }
                assert(is_embedding(s, t, e));
            } else {
                let e1 = choose|e: Seq<usize>| is_embedding(s1, t1, e);
                let e = Seq::new(
                    t.len(),
                    |j: int|
                        if j == 0 {
                            0usize
                        } else {
                            (e1[j - 1] + 1) as usize
                        },
                );
                assert forall|j: int| 0 <= j < e.len() implies (#[trigger] e[j]) < s.len()
                    && s[e[j] as int] == t[j] by {
                    if j > 0 {
                        assert(e1[j - 1] < s1.len());
                        assert(s1[e1[j - 1] as int] == t1[j - 1]);
                    }
                }
                assert forall|i: int, j: int| 0 <= i < j < e.len() implies e[i] < e[j] by {
                    assert(e1[j - 1] < s1.len());
                    if i > 0 {
                        assert(e1[i - 1] < e1[j - 1]);
                    }
                }
                assert(is_embedding(s, t, e));
            }
        }
        if exists|e: Seq<usize>| is_embedding(s, t, e) {
            let e = choose|e: Seq<usize>| is_embedding(s, t, e);
            assert(e[0] < s.len());
            if e[0] == 0 {
                let e1 = Seq::new((t.len() - 1) as nat, |j: int| (e[j + 1] - 1) as usize);
                assert forall|j: int| 0 <= j < e1.len() implies (#[trigger] e1[j]) < s1.len()
                    && s1[e1[j] as int] == t1[j] by {
                    assert(e[0] < e[j + 1]);
                    assert(e[j + 1] < s.len());
                    assert(s[e[j + 1] as int] == t[j + 1]);
                }
                assert forall|i: int, j: int| 0 <= i < j < e1.len() implies e1[i] < e1[j] by {
                    assert(e[0] < e[i + 1]);
                    assert(e[i + 1] < e[j + 1]);
                }
                assert(is_embedding(s1, t1, e1));
                assert(s[e[0] as int] == t[0]);
            } else {
                let e1 = Seq::new(t.len(), |j: int| (e[j] - 1) as usize);
                assert forall|j: int| 0 <= j < e1.len() implies (#[trigger] e1[j]) < s1.len()
                    && s1[e1[j] as int] == t[j] by {
                    if j > 0 {
                        assert(e[0] < e[j]);
                    }
                    assert(e[j] < s.len());
                    assert(s[e[j] as int] == t[j]);
                }
                assert forall|i: int, j: int| 0 <= i < j < e1.len() implies e1[i] < e1[j] by {
                    if i > 0 {
                        assert(e[0] < e[i]);
                    }
                    assert(e[i] < e[j]);
                }
                assert(is_embedding(s1, t, e1));
            }
        }
    }
}

} // verus!
