use crate::bits::{max_bits, Bits};
use crate::combinatorics::{
    can_advance, first_combination, has_successor, is_combination, lemma_first,
    lemma_pivot_unique, lemma_spread, lemma_successor_valid, lex_less, successor,
};
use crate::embedding::{
    embedding_count, is_embedding, later_embeddings, lemma_later_agree, lemma_later_none,
    lemma_tail_count_all, lemma_tail_count_blocked, lemma_tail_count_pass, lemma_tail_count_room,
    tail_count,
};
use rand::Rng;
use vstd::prelude::*;

verus! {

/// Moves `set`, a combination over `[0, bound)`, on to the combination that
/// follows it, and says whether there was one. At the end of the enumeration
/// `set` is left as it was.
pub fn next_combination(set: &mut Vec<usize>, bound: usize) -> (advanced: bool)
    requires
        is_combination(old(set)@, bound as int),
    ensures
        advanced == has_successor(old(set)@, bound as int),
        advanced ==> final(set)@ == successor(old(set)@, bound as int),
        !advanced ==> final(set)@ == old(set)@,
{
    let len = set.len();
    let ghost before = set@;
    let mut limit: usize = len;
    while limit > 0
        invariant
            limit <= len,
            len == before.len(),
            set@ == before,
            is_combination(before, bound as int),
            forall|j: int| limit <= j < len ==> !can_advance(before, bound as int, j),
        ensures
            limit <= len,
            limit > 0 ==> can_advance(before, bound as int, limit - 1),
            forall|j: int| limit <= j < len ==> !can_advance(before, bound as int, j),
        decreases limit,
    {
        proof {
            lemma_spread(before, bound as int, limit - 1, limit - 1);
        }
        if set[limit - 1] < bound - (len - (limit - 1)) {
            break;
        }
        limit -= 1;
    }
    if limit == 0 {
        proof {
            lemma_pivot_unique(before, bound as int, -1);
        }
        return false;
    }
    let p = limit - 1;
    proof {
        lemma_pivot_unique(before, bound as int, p as int);
    }
    let base = set[p] + 1;
    let mut j = p;
    while j < len
        invariant
            p <= j <= len,
            len == before.len(),
            set@.len() == len,
            base == before[p as int] + 1,
            base + (len - p) <= bound,
            forall|i: int| 0 <= i < p ==> set@[i] == before[i],
            forall|i: int| p <= i < j ==> set@[i] == base + (i - p),
        decreases len - j,
    {
        set.set(j, base + (j - p));
        j += 1;
    }
    assert(set@ =~= successor(before, bound as int));
    true
}

/// The first place from `from` on, and before `limit`, where `sequence`
/// holds `bit`; `limit` if there is none.
fn next_match(sequence: &Bits, bit: bool, from: usize, limit: usize) -> (at: usize)
    requires
        from <= limit <= sequence@.len(),
    ensures
        from <= at <= limit,
        forall|u: int| from <= u < at ==> sequence@[u] != bit,
        at < limit ==> sequence@[at as int] == bit,
{
    let mut at = from;
    while at < limit
        invariant
            from <= at <= limit <= sequence@.len(),
            forall|u: int| from <= u < at ==> sequence@[u] != bit,
        ensures
            from <= at <= limit,
            forall|u: int| from <= u < at ==> sequence@[u] != bit,
            at < limit ==> sequence@[at as int] == bit,
        decreases limit - at,
    {
        if sequence.get(at) == bit {
            break;
        }
        at += 1;
    }
    at
}

/// Puts the cursors `first ..= nth_pos` on the leftmost places from `start`
/// on that spell the bits they stand for, and says whether there are such
/// places among the first `bound` of `sequence`.
fn settle(
    sequence: &Bits,
    subsequence: &Bits,
    positions: &mut Vec<usize>,
    first: usize,
    nth_pos: usize,
    bound: usize,
    start: usize,
) -> (settled: bool)
    requires
        first <= nth_pos + 1,
        nth_pos < subsequence@.len(),
        nth_pos < old(positions)@.len(),
        start <= bound <= sequence@.len(),
    ensures
        final(positions)@.len() == old(positions)@.len(),
        forall|i: int|
            0 <= i < first || nth_pos < i < old(positions)@.len() ==> final(positions)@[i] == old(
                positions,
            )@[i],
        settled ==> {
            &&& forall|j: int|
                first <= j <= nth_pos ==> start <= (#[trigger] final(positions)@[j]) < bound
                    && sequence@[final(positions)@[j] as int] == subsequence@[j]
            &&& forall|i: int, j: int|
                first <= i < j <= nth_pos ==> final(positions)@[i] < final(positions)@[j]
            &&& tail_count(
                sequence@.take(bound as int),
                subsequence@.take(nth_pos + 1),
                start as int,
                first as int,
            ) == 1 + later_embeddings(
                sequence@.take(bound as int),
                subsequence@.take(nth_pos + 1),
                final(positions)@,
                first as int,
            )
        },
        !settled ==> tail_count(
            sequence@.take(bound as int),
            subsequence@.take(nth_pos + 1),
            start as int,
            first as int,
        ) == 0,
{
    let ghost s = sequence@.take(bound as int);
    let ghost t = subsequence@.take(nth_pos + 1);
    let ghost before = positions@;
    let total = positions.len();
    let mut j = first;
    let mut cursor = start;
    while j <= nth_pos
        invariant
            before == old(positions)@,
            nth_pos < total,
            first <= j <= nth_pos + 1,
            nth_pos < subsequence@.len(),
            start <= cursor <= bound <= sequence@.len(),
            s == sequence@.take(bound as int),
            t == subsequence@.take(nth_pos + 1),
            positions@.len() == before.len(),
            nth_pos < before.len(),
            forall|i: int|
                0 <= i < first || nth_pos < i < before.len() ==> positions@[i] == before[i],
            forall|i: int|
                first <= i < j ==> start <= (#[trigger] positions@[i]) < cursor && s[positions@[i] as int]
                    == t[i],
            forall|i: int, k: int| first <= i < k < j ==> positions@[i] < positions@[k],
            tail_count(s, t, start as int, first as int) == later_embeddings(
                s,
                t,
                positions@,
                first as int,
            ) - later_embeddings(s, t, positions@, j as int) + tail_count(
                s,
                t,
                cursor as int,
                j as int,
            ),
            tail_count(s, t, cursor as int, j as int) == 0 ==> tail_count(
                s,
                t,
                start as int,
                first as int,
            ) == 0,
        decreases nth_pos + 1 - j,
    {
        let at = next_match(sequence, subsequence.get(j), cursor, bound);
        proof {
            assert forall|u: int| cursor <= u < at implies s[u] != t[j as int] by {}
            lemma_tail_count_pass(s, t, cursor as int, at as int, j as int);
        }
        if at >= bound {
            return false;
        }
        let ghost held = positions@;
        positions.set(j, at);
        proof {
            lemma_later_agree(s, t, held, positions@, first as int, j as int);
            assert(s[at as int] == t[j as int]);
            if tail_count(s, t, at + 1, j + 1) == 0 {
                lemma_tail_count_blocked(s, t, at + 1, at + 1, j as int);
            }
            assert(later_embeddings(s, t, positions@, j as int) == tail_count(
                s,
                t,
                at + 1,
                j as int,
            ) + later_embeddings(s, t, positions@, j + 1));
            assert(later_embeddings(s, t, held, j as int) == tail_count(
                s,
                t,
                held[j as int] + 1,
                j as int,
            ) + later_embeddings(s, t, held, j + 1));
        }
        cursor = at + 1;
        j += 1;
    }
    true
}

/// Moves the cursors `0 ..= nth_pos` on to the next embedding of the first
/// `nth_pos + 1` bits of `subsequence` in the first `bound` bits of
/// `sequence`, in lexicographic order, and says whether there was one: the
/// last cursor goes to its next match; where it has none, the cursor before
/// it moves on and those behind settle on their leftmost matches.
pub fn permute_subsequence(
    sequence: &Bits,
    subsequence: &Bits,
    positions: &mut Vec<usize>,
    nth_pos: usize,
    bound: usize,
) -> (advanced: bool)
    requires
        nth_pos < subsequence@.len(),
        nth_pos < old(positions)@.len(),
        bound <= sequence@.len(),
        is_embedding(
            sequence@.take(bound as int),
            subsequence@.take(nth_pos + 1),
            old(positions)@.take(nth_pos + 1),
        ),
    ensures
        final(positions)@.len() == old(positions)@.len(),
        forall|i: int|
            nth_pos < i < old(positions)@.len() ==> final(positions)@[i] == old(positions)@[i],
        advanced ==> {
            &&& is_embedding(
                sequence@.take(bound as int),
                subsequence@.take(nth_pos + 1),
                final(positions)@.take(nth_pos + 1),
            )
            &&& lex_less(old(positions)@.take(nth_pos + 1), final(positions)@.take(nth_pos + 1))
            &&& later_embeddings(
                sequence@.take(bound as int),
                subsequence@.take(nth_pos + 1),
                final(positions)@,
                0,
            ) + 1 == later_embeddings(
                sequence@.take(bound as int),
                subsequence@.take(nth_pos + 1),
                old(positions)@,
                0,
            )
        },
        !advanced ==> later_embeddings(
            sequence@.take(bound as int),
            subsequence@.take(nth_pos + 1),
            old(positions)@,
            0,
        ) == 0,
{
    let ghost s = sequence@.take(bound as int);
    let ghost t = subsequence@.take(nth_pos + 1);
    let ghost before = positions@;
    let ghost e = before.take(nth_pos + 1);
    let total = positions.len();
    proof {
        assert(s.len() == bound);
        assert(e.len() == nth_pos + 1);
        assert(is_embedding(s, t, e));
        assert forall|i: int| 0 <= i < e.len() implies (#[trigger] e[i]) < bound by {
            assert(e[i] < s.len());
        }
        assert(is_combination(e, bound as int));
        assert forall|j: int| 0 <= j <= nth_pos implies (#[trigger] before[j]) + (nth_pos - j)
            < bound && before[j] == e[j] by {
            lemma_spread(e, bound as int, j, j);
        }
    }
    let mut p = nth_pos;
    loop
        invariant
            before == old(positions)@,
            nth_pos < total,
            p <= nth_pos,
            nth_pos < subsequence@.len(),
            nth_pos < before.len(),
            bound <= sequence@.len(),
            s == sequence@.take(bound as int),
            t == subsequence@.take(nth_pos + 1),
            e == before.take(nth_pos + 1),
            is_embedding(s, t, e),
            positions@.len() == before.len(),
            forall|j: int| 0 <= j <= nth_pos ==> (#[trigger] before[j]) + (nth_pos - j) < bound,
            forall|i: int| 0 <= i < p || nth_pos < i < before.len() ==> positions@[i] == before[i],
            before[p as int] <= positions@[p as int],
            positions@[p as int] + (nth_pos - p) < bound,
            tail_count(s, t, positions@[p as int] + 1, p as int) == tail_count(
                s,
                t,
                before[p as int] + 1,
                p as int,
            ),
            forall|j: int| p < j <= nth_pos ==> tail_count(s, t, (#[trigger] before[j]) + 1, j) == 0,
        decreases p, bound - positions@[p as int],
    {
        let limit = bound - (nth_pos - p);
        let from = positions[p] + 1;
        let at = next_match(sequence, subsequence.get(p), from, limit);
        proof {
            assert forall|u: int| from <= u < at implies s[u] != t[p as int] by {}
            lemma_tail_count_pass(s, t, from as int, at as int, p as int);
        }
        if at >= limit {
            proof {
                lemma_tail_count_room(s, t, limit as int, p as int);
            }
            if p == 0 {
                proof {
                    lemma_later_none(s, t, before, 0);
                }
                return false;
            }
            p -= 1;
            assert(positions@[p as int] == before[p as int]);
            assert(before[p as int] + (nth_pos - p) < bound);
        } else {
            positions.set(p, at);
            let ghost held = positions@;
            let settled = settle(sequence, subsequence, positions, p + 1, nth_pos, bound, at + 1);
            proof {
                assert(s[at as int] == t[p as int]);
                assert(tail_count(s, t, at as int, p as int) == tail_count(s, t, at + 1, p as int)
                    + tail_count(s, t, at + 1, p + 1));
            }
            if settled {
                proof {
                    let after = positions@;
                    let f = after.take(nth_pos + 1);
                    lemma_later_agree(s, t, before, after, 0, p as int);
                    lemma_later_none(s, t, before, p + 1);
                    assert(later_embeddings(s, t, before, p as int) == tail_count(
                        s,
                        t,
                        before[p as int] + 1,
                        p as int,
                    ) + later_embeddings(s, t, before, p + 1));
                    assert(later_embeddings(s, t, after, p as int) == tail_count(
                        s,
                        t,
                        after[p as int] + 1,
                        p as int,
                    ) + later_embeddings(s, t, after, p + 1));
                    assert(f.len() == t.len());
                    assert forall|j: int| 0 <= j < f.len() implies (#[trigger] f[j]) < s.len()
                        && s[f[j] as int] == t[j] by {
                        if j < p {
                            assert(f[j] == e[j]);
                        } else if j == p {
                            assert(f[j] == at);
                        } else {
                            assert(f[j] == after[j]);
                        }
                    }
                    assert forall|i: int, j: int| 0 <= i < j < f.len() implies f[i] < f[j] by {
                        if j < p {
                            assert(f[i] == e[i] && f[j] == e[j]);
                        } else if j == p {
                            assert(f[i] == e[i]);
                            assert(e[i] < e[p as int]);
                        } else if i < p {
                            assert(f[i] == e[i]);
                            assert(e[i] < e[p as int]);
                            assert(f[j] == after[j]);
                        } else if i == p {
                            assert(f[j] == after[j]);
                        } else {
                            assert(f[i] == after[i] && f[j] == after[j]);
                        }
                    }
                    assert(e.take(p as int) =~= f.take(p as int));
                    assert(e[p as int] < f[p as int]);
                }
                return true;
            }
            assert(positions@[p as int] == at);
        }
    }
}

/// The number of embeddings of `subsequence` in `sequence`, or `None` where
/// a `usize` cannot hold it. The cursors start on the leftmost embedding and
/// move on one embedding at a time.
pub fn checked_count_occurrences(sequence: &Bits, subsequence: &Bits) -> (count: Option<usize>)
    ensures
        match count {
            Some(count) => count == embedding_count(sequence@, subsequence@),
            None => embedding_count(sequence@, subsequence@) > usize::MAX,
        },
{
    let len = subsequence.len();
    let bound = sequence.len();
    if len == 0 {
        return Some(1);
    }
    let ghost s = sequence@;
    let ghost t = subsequence@;
    proof {
        assert(sequence@.take(bound as int) =~= s);
        assert(subsequence@.take(len as int) =~= t);
        lemma_tail_count_all(s, t);
    }
    let mut positions: Vec<usize> = Vec::new();
    while positions.len() < len
        invariant
            positions@.len() <= len,
        decreases len - positions@.len(),
    {
        positions.push(0);
    }
    if !settle(sequence, subsequence, &mut positions, 0, len - 1, bound, 0) {
        return Some(0);
    }
    let mut count: usize = 1;
    loop
        invariant
            len == t.len(),
            len > 0,
            bound == s.len(),
            s == sequence@,
            t == subsequence@,
            sequence@.take(bound as int) == s,
            subsequence@.take(len as int) == t,
            positions@.len() == len,
            is_embedding(s, t, positions@),
            count + later_embeddings(s, t, positions@, 0) == embedding_count(s, t),
            count >= 1,
        decreases later_embeddings(s, t, positions@, 0),
    {
        proof {
            assert(positions@.take(len as int) =~= positions@);
        }
        let advanced = permute_subsequence(sequence, subsequence, &mut positions, len - 1, bound);
        proof {
            assert(positions@.take(len as int) =~= positions@);
        }
        if !advanced {
            return Some(count);
        }
        if count == usize::MAX {
            return None;
        }
        count += 1;
    }
}

/// The number of embeddings of `subsequence` in `sequence`: the ways to pick
/// places of `sequence`, in increasing order, that hold the bits of
/// `subsequence`.
pub fn count_occurrences(sequence: &Bits, subsequence: &Bits) -> (count: usize)
    requires
        embedding_count(sequence@, subsequence@) <= usize::MAX,
    ensures
        count == embedding_count(sequence@, subsequence@),
{
    match checked_count_occurrences(sequence, subsequence) {
        Some(count) => count,
        None => 0,
    }
}

/// The candidate message that one way of placing a trace gives: position
/// `c[i]` holds the `i`-th bit of the trace, and the other positions hold 0.
pub open spec fn candidate_of(trace: Seq<bool>, c: Seq<usize>, message_len: int) -> Seq<bool> {
    Seq::new(
        message_len as nat,
        |p: int| exists|i: int| 0 <= i < c.len() && i < trace.len() && #[trigger] c[i] == p && trace[i],
    )
}

/// The candidate messages of one trace, produced one at a time.
pub struct SupersequenceIter<'a> {
    trace: &'a Bits,
    message_len: usize,
    combination: Option<Vec<usize>>,
}

impl<'a> SupersequenceIter<'a> {
    /// The bits of the trace.
    pub closed spec fn trace(&self) -> Seq<bool> {
        self.trace@
    }

    /// The length of the message.
    pub closed spec fn message_len(&self) -> int {
        self.message_len as int
    }

    /// The combination for which the next candidate will be built, if any
    /// is left.
    pub closed spec fn current(&self) -> Option<Seq<usize>> {
        match self.combination {
            Some(c) => Some(c@),
            None => None,
        }
    }

    pub open spec fn wf(&self) -> bool {
        &&& self.message_len() <= max_bits()
        &&& self.current() matches Some(c) ==> c.len() == self.trace().len() && c.len() >= 1
            && is_combination(c, self.message_len())
    }

    /// Starts at the first combination. A trace without bits, or with more
    /// bits than the message, has no candidates.
    pub fn new(trace: &'a Bits, message_len: usize) -> (iter: Self)
        requires
            message_len <= max_bits(),
        ensures
            iter.wf(),
            iter.trace() == trace@,
            iter.message_len() == message_len,
            iter.current() == if 1 <= trace@.len() <= message_len {
                Some(first_combination(trace@.len()))
            } else {
                None
            },
    {
        let len = trace.len();
        if len == 0 || len > message_len {
            return Self { trace, message_len, combination: None };
        }
        let mut combination: Vec<usize> = Vec::new();
        let mut i: usize = 0;
        while i < len
            invariant
                i <= len,
                combination@.len() == i,
                forall|j: int| 0 <= j < i ==> combination@[j] == j,
            decreases len - i,
        {
            combination.push(i);
            i += 1;
        }
        proof {
            assert(combination@ =~= first_combination(len as nat));
            lemma_first(message_len as nat, len as nat);
        }
        Self { trace, message_len, combination: Some(combination) }
    }

    /// The candidate for the current combination, after which the iterator
    /// stands at the combination that follows; `None` once all are used up.
    pub fn next(&mut self) -> (candidate: Option<Bits>)
        requires
            old(self).wf(),
        ensures
            final(self).wf(),
            final(self).trace() == old(self).trace(),
            final(self).message_len() == old(self).message_len(),
            match old(self).current() {
                None => candidate is None && final(self).current() is None,
                Some(c) => {
                    &&& candidate matches Some(made)
                    &&& made@ == candidate_of(old(self).trace(), c, old(self).message_len())
                    &&& final(self).current() == if has_successor(c, old(self).message_len()) {
                        Some(successor(c, old(self).message_len()))
                    } else {
                        None
                    }
                },
            },
    {
        let mut combination = match self.combination.take() {
            None => {
                return None;
            },
            Some(combination) => combination,
        };
        let ghost c = combination@;
        let ghost t = self.trace@;
        let len = combination.len();
        let mut made = Bits::new();
        let mut place: usize = 0;
        let mut used: usize = 0;
        while place < self.message_len
            invariant
                place <= self.message_len <= max_bits(),
                used <= len,
                len == c.len(),
                combination@ == c,
                t == self.trace@,
                c.len() == t.len(),
                is_combination(c, self.message_len as int),
                made@.len() == place,
                forall|i: int| 0 <= i < used ==> c[i] < place,
                forall|i: int| used <= i < len ==> c[i] >= place,
                forall|p: int|
                    0 <= p < place ==> made@[p] == candidate_of(t, c, self.message_len as int)[p],
            decreases self.message_len - place,
        {
            let ghost held = made@;
            let mut bit = false;
            if used < len {
                if combination[used] == place {
                    bit = self.trace.get(used);
                    used += 1;
                }
            }
            made.push(bit);
            proof {
                let want = candidate_of(t, c, self.message_len as int)[place as int];
                if want {
                    let i = choose|i: int|
                        0 <= i < c.len() && i < t.len() && #[trigger] c[i] == place && t[i];
                    if i != used - 1 {
                        if i < used - 1 {
                            assert(c[i] < c[used - 1]);
                        }
                    }
                }
                if bit {
                    assert(c[used - 1] == place && t[used - 1]);
                }
                assert(bit == want);
                assert forall|p: int| 0 <= p < place + 1 implies made@[p] == candidate_of(
                    t,
                    c,
                    self.message_len as int,
                )[p] by {
                    if p < place {
                        assert(made@[p] == held[p]);
                    }
                }
                assert forall|i: int| used <= i < len implies c[i] >= place + 1 by {
                    if used > 0 && c[used - 1] == place {
                        assert(c[used - 1] < c[i]);
                    }
                }
            }
            place += 1;
        }
        proof {
            assert(made@ =~= candidate_of(t, c, self.message_len as int));
            if has_successor(c, self.message_len as int) {
                lemma_successor_valid(c, self.message_len as int);
            }
        }
        if next_combination(&mut combination, self.message_len) {
            self.combination = Some(combination);
        }
        Some(made)
    }
}

/// The candidate messages of a trace, one at a time.
pub fn supersequences(trace: &Bits, message_len: usize) -> (iter: SupersequenceIter<'_>)
    requires
        message_len <= max_bits(),
    ensures
        iter.wf(),
        iter.trace() == trace@,
        iter.message_len() == message_len,
        iter.current() == if 1 <= trace@.len() <= message_len {
            Some(first_combination(trace@.len()))
        } else {
            None
        },
{
    SupersequenceIter::new(trace, message_len)
}

/// The bit of `word` at `place`, counted from the least significant bit.
pub open spec fn word_bit(word: usize, place: int) -> bool {
    (word >> (place as usize)) & 1usize == 1usize
}

/// The lowest `count` bits of `word`, the least significant first.
pub open spec fn word_bits(word: usize, count: int) -> Seq<bool> {
    Seq::new(count as nat, |place: int| word_bit(word, place))
}

/// Appends the lowest `count` bits of `word`, the least significant first.
pub fn push_word_bits(data: &mut Bits, word: usize, count: usize)
    requires
        count <= usize::BITS,
        old(data)@.len() + count <= max_bits(),
    ensures
        final(data)@ == old(data)@ + word_bits(word, count as int),
{
    let ghost before = data@;
    let mut place: usize = 0;
    while place < count
        invariant
            place <= count <= usize::BITS,
            before.len() + count <= max_bits(),
            data@ == before + word_bits(word, place as int),
        decreases count - place,
    {
        let bit = (word >> place) & 1usize == 1usize;
        data.push(bit);
        proof {
            assert(word_bits(word, place + 1) =~= word_bits(word, place as int).push(bit));
            assert(data@ =~= before + word_bits(word, place + 1));
        }
        place += 1;
    }
}

/// `Rng::gen` on the generator of the current thread: one machine word.
/// Nothing is known of the word that comes back.
#[verifier::external_body]
fn random_word() -> usize {
    rand::thread_rng().gen()
}

/// A random message of `len` bits, taken word by word from the random
/// generator of the current thread.
pub fn new_message(len: usize) -> (message: Bits)
    requires
        len <= max_bits(),
    ensures
        message@.len() == len,
{
    let mut data = Bits::new();
    let width: usize = usize::BITS as usize;
    let mut filled: usize = 0;
    while filled < len
        invariant
            filled <= len <= max_bits(),
            data@.len() == filled,
            width == usize::BITS,
        decreases len - filled,
    {
        let word = random_word();
        let left = len - filled;
        let count = if left < width {
            left
        } else {
            width
        };
        push_word_bits(&mut data, word, count);
        filled += count;
    }
    data
}

/// What a deletion channel lets through: the bits of `message` whose place
/// is marked in `survives`, in their order.
pub open spec fn surviving(message: Seq<bool>, survives: Seq<bool>) -> Seq<bool>
    decreases message.len(),
{
    if message.len() == 0 || survives.len() == 0 {
        Seq::empty()
    } else if survives.last() {
        surviving(message.drop_last(), survives.drop_last()).push(message.last())
    } else {
        surviving(message.drop_last(), survives.drop_last())
    }
}

/// The trace of `message` that is left when the bits not marked in
/// `survives` are deleted.
pub fn trace_of(message: &Bits, survives: &Vec<bool>) -> (trace: Bits)
    requires
        survives@.len() == message@.len(),
    ensures
        trace@ == surviving(message@, survives@),
{
    let len = message.len();
    let mut trace = Bits::new();
    let mut i: usize = 0;
    while i < len
        invariant
            i <= len,
            len == message@.len(),
            len == survives@.len(),
            len <= max_bits(),
            trace@.len() <= i,
            trace@ == surviving(message@.take(i as int), survives@.take(i as int)),
        decreases len - i,
    {
        proof {
            assert(message@.take(i + 1).drop_last() =~= message@.take(i as int));
            assert(survives@.take(i + 1).drop_last() =~= survives@.take(i as int));
        }
        if survives[i] {
            trace.push(message.get(i));
        }
        i += 1;
    }
    proof {
        assert(message@.take(len as int) =~= message@);
        assert(survives@.take(len as int) =~= survives@);
    }
    trace
}

} // verus!
