use vstd::prelude::*;

verus! {

/// The number of ways to choose `k` items out of `n`.
pub open spec fn binomial(n: nat, k: nat) -> nat
    decreases n,
{
    if k == 0 {
        1
    } else if n == 0 {
        0
    } else {
        binomial((n - 1) as nat, (k - 1) as nat) + binomial((n - 1) as nat, k)
    }
}

/// A combination over `[0, bound)`: numbers below `bound` in strictly
/// increasing order.
pub open spec fn is_combination(c: Seq<usize>, bound: int) -> bool {
    &&& forall|i: int, j: int| 0 <= i < j < c.len() ==> c[i] < c[j]
    &&& forall|i: int| 0 <= i < c.len() ==> c[i] < bound
}

/// The number at place `p` can grow by one and still leave room below
/// `bound` for the places behind it.
pub open spec fn can_advance(c: Seq<usize>, bound: int, p: int) -> bool {
    0 <= p < c.len() && c[p] + (c.len() - p) < bound
}

/// The highest place below `limit` that can advance, or -1 if none can.
pub open spec fn pivot_below(c: Seq<usize>, bound: int, limit: int) -> int
    decreases limit,
{
    if limit <= 0 {
        -1
    } else if can_advance(c, bound, limit - 1) {
        limit - 1
    } else {
        pivot_below(c, bound, limit - 1)
    }
}

/// The highest place of `c` that can advance, or -1 if none can.
pub open spec fn pivot(c: Seq<usize>, bound: int) -> int {
    pivot_below(c, bound, c.len() as int)
}

/// Whether a combination comes after `c` in the enumeration.
pub open spec fn has_successor(c: Seq<usize>, bound: int) -> bool {
    pivot(c, bound) >= 0
}

/// The combination that comes after `c`: the number at the pivot grows by
/// one, and the places behind it count up from there.
pub open spec fn successor(c: Seq<usize>, bound: int) -> Seq<usize>
    recommends
        has_successor(c, bound),
{
    let p = pivot(c, bound);
    Seq::new(
        c.len(),
        |j: int|
            if j < p {
                c[j]
            } else {
                (c[p] + 1 + (j - p)) as usize
            },
    )
}

/// The combination `0, 1, .., k - 1`, with which every enumeration starts.
pub open spec fn first_combination(k: nat) -> Seq<usize> {
    Seq::new(k, |j: int| j as usize)
}

/// The combination that the enumeration over `[0, bound)` yields after `i`
/// others.
pub open spec fn nth_combination(bound: int, k: nat, i: nat) -> Seq<usize>
    decreases i,
{
    if i == 0 {
        first_combination(k)
    } else {
        successor(nth_combination(bound, k, (i - 1) as nat), bound)
    }
}

/// Lexicographic order on sequences of one length: at the first place where
/// the two differ, `a` holds the smaller number.
pub open spec fn lex_less(a: Seq<usize>, b: Seq<usize>) -> bool {
    &&& a.len() == b.len()
    &&& exists|p: int|
        0 <= p < a.len() && a.take(p) == b.take(p) && #[trigger] a[p] < b[p]
}

/// How many combinations come after `c` when only the places from `from` on
/// may differ: for each such place, those that agree with `c` before it and
/// hold a larger number there.
pub open spec fn later(c: Seq<usize>, bound: int, from: int) -> nat
    decreases c.len() - from,
{
    if from < 0 || from >= c.len() {
        0
    } else {
        binomial((bound - 1 - c[from]) as nat, (c.len() - from) as nat) + later(
            c,
            bound,
            from + 1,
        )
    }
}

pub proof fn lemma_binomial_zero(n: nat, k: nat)
    requires
        n < k,
    ensures
        binomial(n, k) == 0,
    decreases n,
{
    if n > 0 {
        lemma_binomial_zero((n - 1) as nat, (k - 1) as nat);
        lemma_binomial_zero((n - 1) as nat, k);
    }
}

pub proof fn lemma_binomial_positive(n: nat, k: nat)
    requires
        k <= n,
    ensures
        binomial(n, k) >= 1,
    decreases n,
{
    if k > 0 {
        lemma_binomial_positive((n - 1) as nat, (k - 1) as nat);
    }
}

/// Two places of a combination hold numbers at least as far apart as the
/// places are.
pub proof fn lemma_spread(c: Seq<usize>, bound: int, i: int, j: int)
    requires
        is_combination(c, bound),
        0 <= i <= j < c.len(),
    ensures
        c[j] - c[i] >= j - i,
        c[i] >= i,
        c[j] + (c.len() - j) <= bound,
    decreases j - i,
{
    lemma_low(c, bound, i);
    lemma_high(c, bound, j);
    if i < j {
        lemma_spread(c, bound, i, j - 1);
        assert(c[j - 1] < c[j]);
    }
}

proof fn lemma_low(c: Seq<usize>, bound: int, i: int)
    requires
        is_combination(c, bound),
        0 <= i < c.len(),
    ensures
        c[i] >= i,
    decreases i,
{
    if i > 0 {
        lemma_low(c, bound, i - 1);
    }
}

proof fn lemma_high(c: Seq<usize>, bound: int, i: int)
    requires
        is_combination(c, bound),
        0 <= i < c.len(),
    ensures
        c[i] + (c.len() - i) <= bound,
    decreases c.len() - i,
{
    if i + 1 < c.len() {
        lemma_high(c, bound, i + 1);
    }
}

/// What the pivot is: it can advance, and no place behind it can.
pub proof fn lemma_pivot_below(c: Seq<usize>, bound: int, limit: int)
    requires
        0 <= limit <= c.len(),
    ensures
        -1 <= pivot_below(c, bound, limit) < limit,
        pivot_below(c, bound, limit) >= 0 ==> can_advance(c, bound, pivot_below(c, bound, limit)),
        forall|j: int| pivot_below(c, bound, limit) < j < limit ==> !can_advance(c, bound, j),
    decreases limit,
{
    if limit > 0 && !can_advance(c, bound, limit - 1) {
        lemma_pivot_below(c, bound, limit - 1);
    }
}

/// A place that can advance, with none behind it that can, is the pivot.
pub proof fn lemma_pivot_unique(c: Seq<usize>, bound: int, p: int)
    requires
        -1 <= p < c.len(),
        p >= 0 ==> can_advance(c, bound, p),
        forall|j: int| p < j < c.len() ==> !can_advance(c, bound, j),
    ensures
        pivot(c, bound) == p,
{
    lemma_pivot_below(c, bound, c.len() as int);
}

/// The enumeration goes on from `c` exactly when the first number of `c` is
/// not yet the largest that a first number can be.
pub proof fn lemma_has_successor(c: Seq<usize>, bound: int)
    requires
        is_combination(c, bound),
    ensures
        has_successor(c, bound) <==> (c.len() > 0 && c[0] + c.len() < bound),
{
    lemma_pivot_below(c, bound, c.len() as int);
    let p = pivot(c, bound);
    if p >= 0 {
        lemma_spread(c, bound, 0, p);
    }
    if c.len() > 0 && c[0] + c.len() < bound {
        assert(can_advance(c, bound, 0));
    }
}

/// The successor of a combination is a combination of the same length, and
/// comes later in lexicographic order.
pub proof fn lemma_successor_valid(c: Seq<usize>, bound: int)
    requires
        is_combination(c, bound),
        has_successor(c, bound),
        bound <= usize::MAX,
    ensures
        is_combination(successor(c, bound), bound),
        successor(c, bound).len() == c.len(),
        lex_less(c, successor(c, bound)),
{
    lemma_pivot_below(c, bound, c.len() as int);
    let p = pivot(c, bound);
    let s = successor(c, bound);
    assert(s.len() == c.len());
    assert forall|j: int| 0 <= j < c.len() implies (j < p ==> s[j] == c[j]) && (j >= p ==> s[j]
        == c[p] + 1 + (j - p)) && #[trigger] s[j] < bound by {
        if j >= p {
            assert(c[p] + 1 + (j - p) < bound);
        }
    }
    assert forall|i: int, j: int| 0 <= i < j < s.len() implies s[i] < s[j] by {
        if i < p && j >= p {
            assert(c[i] < c[p]);
        }
    }
    assert(c.take(p) =~= s.take(p));
    assert(c[p] < s[p]);
}

proof fn lemma_later_prefix(a: Seq<usize>, b: Seq<usize>, bound: int, from: int, upto: int)
    requires
        a.len() == b.len(),
        0 <= from <= upto <= a.len(),
        forall|j: int| from <= j < upto ==> a[j] == b[j],
    ensures
        later(a, bound, from) - later(a, bound, upto) == later(b, bound, from) - later(
            b,
            bound,
            upto,
        ),
    decreases upto - from,
{
    if from < upto {
        lemma_later_prefix(a, b, bound, from + 1, upto);
    }
}

/// Behind a run of consecutive numbers come all the other choices of those
/// places from the numbers that are left.
proof fn lemma_later_run(c: Seq<usize>, bound: int, from: int)
    requires
        0 <= from <= c.len(),
        forall|j: int| from <= j < c.len() ==> c[j] + (c.len() - j) <= bound,
        forall|j: int| from <= j < c.len() ==> c[j] == c[from] + (j - from),
    ensures
        from < c.len() ==> later(c, bound, from) + 1 == binomial(
            (bound - c[from]) as nat,
            (c.len() - from) as nat,
        ),
        from == c.len() ==> later(c, bound, from) == 0,
    decreases c.len() - from,
{
    if from < c.len() {
        lemma_later_run(c, bound, from + 1);
        assert forall|j: int| from + 1 <= j < c.len() implies #[trigger] c[j] == c[from + 1] + (j
            - (from + 1)) by {}
        let m = (bound - c[from]) as nat;
        let r = (c.len() - from) as nat;
        assert(m >= 1 && r >= 1);
        assert(binomial(m, r) == binomial((m - 1) as nat, (r - 1) as nat) + binomial(
            (m - 1) as nat,
            r,
        ));
        if from + 1 < c.len() {
            assert(c[from + 1] == c[from] + 1);
        } else {
            assert(binomial((m - 1) as nat, 0) == 1);
        }
    }
}

/// Behind places that cannot advance comes nothing.
proof fn lemma_later_stuck(c: Seq<usize>, bound: int, from: int)
    requires
        0 <= from <= c.len(),
        forall|j: int| from <= j < c.len() ==> c[j] + (c.len() - j) == bound,
    ensures
        later(c, bound, from) == 0,
    decreases c.len() - from,
{
    if from < c.len() {
        lemma_later_stuck(c, bound, from + 1);
        lemma_binomial_zero((bound - 1 - c[from]) as nat, (c.len() - from) as nat);
    }
}

/// One step of the enumeration leaves one combination less to come, and the
/// enumeration stops only where none is left.
pub proof fn lemma_later_step(c: Seq<usize>, bound: int)
    requires
        is_combination(c, bound),
        bound <= usize::MAX,
    ensures
        has_successor(c, bound) ==> later(successor(c, bound), bound, 0) + 1 == later(
            c,
            bound,
            0,
        ),
        !has_successor(c, bound) ==> later(c, bound, 0) == 0,
{
    lemma_pivot_below(c, bound, c.len() as int);
    let p = pivot(c, bound);
    assert forall|j: int| p < j < c.len() implies #[trigger] c[j] + (c.len() - j) == bound by {
        lemma_spread(c, bound, j, j);
        assert(!can_advance(c, bound, j));
    }
    if p >= 0 {
        let s = successor(c, bound);
        lemma_successor_valid(c, bound);
        lemma_later_prefix(c, s, bound, 0, p);
        lemma_later_stuck(c, bound, p + 1);
        assert(s.len() == c.len());
        assert forall|j: int| p <= j < s.len() implies #[trigger] s[j] + (s.len() - j)
            <= bound by {
            lemma_spread(s, bound, j, j);
        }
        assert(s[p] == c[p] + 1);
        assert forall|j: int| p <= j < s.len() implies #[trigger] s[j] == s[p] + (j - p) by {
            assert(c[p] + 1 + (j - p) < bound);
        }
        lemma_later_run(s, bound, p);
    } else {
        lemma_later_stuck(c, bound, 0);
    }
}

/// The first combination, and how many come after it.
pub proof fn lemma_first(bound: nat, k: nat)
    requires
        k <= bound <= usize::MAX,
    ensures
        is_combination(first_combination(k), bound as int),
        first_combination(k).len() == k,
        later(first_combination(k), bound as int, 0) + 1 == binomial(bound, k),
{
    let c = first_combination(k);
    assert(c.len() == k);
    assert forall|j: int| 0 <= j < c.len() implies #[trigger] c[j] == j by {}
    lemma_later_run(c, bound as int, 0);
    if k == 0 {
        assert(binomial(bound, 0) == 1);
    }
}

/// The state of the enumeration after `i` steps: a combination of length
/// `k`, with all but `i + 1` of the `binomial(bound, k)` still to come.
pub proof fn lemma_nth(bound: nat, k: nat, i: nat)
    requires
        k <= bound <= usize::MAX,
        i < binomial(bound, k),
    ensures
        is_combination(nth_combination(bound as int, k, i), bound as int),
        nth_combination(bound as int, k, i).len() == k,
        later(nth_combination(bound as int, k, i), bound as int, 0) + i + 1 == binomial(bound, k),
        has_successor(nth_combination(bound as int, k, i), bound as int) <==> i + 1 < binomial(
            bound,
            k,
        ),
    decreases i,
{
    if i == 0 {
        lemma_first(bound, k);
    } else {
        lemma_nth(bound, k, (i - 1) as nat);
        let prev = nth_combination(bound as int, k, (i - 1) as nat);
        lemma_later_step(prev, bound as int);
        lemma_successor_valid(prev, bound as int);
    }
    lemma_later_step(nth_combination(bound as int, k, i), bound as int);
}

/// Lexicographic order is transitive.
pub proof fn lemma_lex_less_transitive(a: Seq<usize>, b: Seq<usize>, c: Seq<usize>)
    requires
        lex_less(a, b),
        lex_less(b, c),
    ensures
        lex_less(a, c),
{
    let p = choose|p: int| 0 <= p < a.len() && a.take(p) == b.take(p) && #[trigger] a[p] < b[p];
    let q = choose|q: int| 0 <= q < b.len() && b.take(q) == c.take(q) && #[trigger] b[q] < c[q];
    let r = if p < q {
        p
    } else {
        q
    };
    assert forall|i: int| 0 <= i < r implies a[i] == c[i] by {
        assert(a.take(p)[i] == b.take(p)[i]);
        assert(b.take(q)[i] == c.take(q)[i]);
    }
    assert(a.take(r) =~= c.take(r));
    if p < q {
        assert(b.take(q)[p] == c.take(q)[p]);
    } else if q < p {
        assert(a.take(p)[q] == b.take(p)[q]);
    }
    assert(a[r] < c[r]);
}

/// A combination that comes earlier in the enumeration is smaller in
/// lexicographic order.
pub proof fn lemma_nth_ordered(bound: nat, k: nat, i: nat, j: nat)
    requires
        k <= bound <= usize::MAX,
        i < j < binomial(bound, k),
    ensures
        lex_less(nth_combination(bound as int, k, i), nth_combination(bound as int, k, j)),
    decreases j,
{
    let before = nth_combination(bound as int, k, (j - 1) as nat);
    lemma_nth(bound, k, (j - 1) as nat);
    lemma_successor_valid(before, bound as int);
    if i + 1 < j {
        lemma_nth_ordered(bound, k, i, (j - 1) as nat);
        lemma_lex_less_transitive(
            nth_combination(bound as int, k, i),
            before,
            nth_combination(bound as int, k, j),
        );
    }
}

/// The enumeration of the combinations of `k` out of `bound` numbers, from
/// the first combination on by successors, yields `binomial(bound, k)`
/// combinations and then stops; each is strictly increasing, of length `k`
/// and below `bound`; each is larger in lexicographic order than all before
/// it, so that none comes twice.
pub proof fn lemma_enumeration(bound: nat, k: nat)
    requires
        1 <= k <= bound <= usize::MAX,
    ensures
        binomial(bound, k) >= 1,
        forall|i: nat|
            i < binomial(bound, k) ==> {
                let c = #[trigger] nth_combination(bound as int, k, i);
                &&& c.len() == k
                &&& is_combination(c, bound as int)
                &&& has_successor(c, bound as int) <==> i + 1 < binomial(bound, k)
            },
        forall|i: nat, j: nat|
            i < j < binomial(bound, k) ==> lex_less(
                #[trigger] nth_combination(bound as int, k, i),
                #[trigger] nth_combination(bound as int, k, j),
            ),
{
    lemma_binomial_positive(bound, k);
    assert forall|i: nat| i < binomial(bound, k) implies {
        let c = #[trigger] nth_combination(bound as int, k, i);
        &&& c.len() == k
        &&& is_combination(c, bound as int)
        &&& has_successor(c, bound as int) <==> i + 1 < binomial(bound, k)
    } by {
        lemma_nth(bound, k, i);
    }
    assert forall|i: nat, j: nat| i < j < binomial(bound, k) implies lex_less(
        #[trigger] nth_combination(bound as int, k, i),
        #[trigger] nth_combination(bound as int, k, j),
    ) by {
        lemma_nth_ordered(bound, k, i, j);
    }
}

proof fn lemma_binomial_monotone(n: nat, m: nat, k: nat)
    requires
        n <= m,
    ensures
        binomial(n, k) <= binomial(m, k),
    decreases m - n,
{
    if n < m {
        lemma_binomial_monotone(n, (m - 1) as nat, k);
    }
}

/// After a combination come fewer combinations than there are choices of
/// its places from `from` on among the numbers from `low` on.
proof fn lemma_later_bound(c: Seq<usize>, bound: int, from: int, low: int)
    requires
        is_combination(c, bound),
        0 <= from <= c.len(),
        0 <= low <= bound,
        from < c.len() ==> low <= c[from],
    ensures
        later(c, bound, from) + 1 <= binomial((bound - low) as nat, (c.len() - from) as nat),
    decreases c.len() - from,
{
    if from < c.len() {
        if from + 1 < c.len() {
            assert(c[from] < c[from + 1]);
        }
        lemma_later_bound(c, bound, from + 1, c[from] + 1);
        let m = (bound - c[from]) as nat;
        let r = (c.len() - from) as nat;
        assert(binomial(m, r) == binomial((m - 1) as nat, (r - 1) as nat) + binomial(
            (m - 1) as nat,
            r,
        ));
        lemma_binomial_monotone(m, (bound - low) as nat, r);
    }
}

/// The highest place below `limit` whose number could be one smaller, or -1
/// if there is none.
spec fn gap_below(c: Seq<usize>, limit: int) -> int
    decreases limit,
{
    if limit <= 0 {
        -1
    } else if has_gap(c, limit - 1) {
        limit - 1
    } else {
        gap_below(c, limit - 1)
    }
}

spec fn has_gap(c: Seq<usize>, p: int) -> bool {
    0 <= p < c.len() && if p == 0 {
        c[0] > 0
    } else {
        c[p] > c[p - 1] + 1
    }
}

proof fn lemma_gap_below(c: Seq<usize>, limit: int)
    requires
        0 <= limit <= c.len(),
    ensures
        -1 <= gap_below(c, limit) < limit,
        gap_below(c, limit) >= 0 ==> has_gap(c, gap_below(c, limit)),
        forall|j: int| gap_below(c, limit) < j < limit ==> !has_gap(c, j),
    decreases limit,
{
    if limit > 0 && !has_gap(c, limit - 1) {
        lemma_gap_below(c, limit - 1);
    }
}

proof fn lemma_run(c: Seq<usize>, g: int, j: int)
    requires
        0 <= g <= j < c.len(),
        forall|i: int| g < i < c.len() ==> !has_gap(c, i),
        forall|i: int, k: int| 0 <= i < k < c.len() ==> c[i] < c[k],
    ensures
        c[j] == c[g] + (j - g),
    decreases j - g,
{
    if g < j {
        lemma_run(c, g, j - 1);
        assert(!has_gap(c, j));
        assert(c[j - 1] < c[j]);
    }
}

/// The combination before `c` in the enumeration: the last number that
/// could be smaller is one smaller, and those behind it are as large as can
/// be.
spec fn predecessor(c: Seq<usize>, bound: int) -> Seq<usize> {
    let g = gap_below(c, c.len() as int);
    Seq::new(
        c.len(),
        |j: int|
            if j < g {
                c[j]
            } else if j == g {
                (c[g] - 1) as usize
            } else {
                (bound - c.len() + j) as usize
            },
    )
}

proof fn lemma_predecessor(c: Seq<usize>, bound: int)
    requires
        is_combination(c, bound),
        bound <= usize::MAX,
        c != first_combination(c.len()),
    ensures
        is_combination(predecessor(c, bound), bound),
        predecessor(c, bound).len() == c.len(),
        has_successor(predecessor(c, bound), bound),
        successor(predecessor(c, bound), bound) == c,
{
    let k = c.len() as int;
    let g = gap_below(c, k);
    let d = predecessor(c, bound);
    lemma_gap_below(c, k);
    if g < 0 {
        assert forall|j: int| 0 <= j < k implies c[j] == j by {
            assert(!has_gap(c, 0));
            lemma_run(c, 0, j);
        }
        assert(c =~= first_combination(c.len()));
    }
    assert(d.len() == k);
    lemma_spread(c, bound, g, g);
    assert(has_gap(c, g));
    assert forall|j: int| 0 <= j < k implies (j < g ==> d[j] == c[j]) && (j == g ==> d[j] == c[g]
        - 1) && (j > g ==> d[j] == bound - k + j) && #[trigger] d[j] < bound by {
        lemma_spread(c, bound, j, j);
    }
    assert forall|i: int, j: int| 0 <= i < j < k implies d[i] < d[j] by {
        if j < g {
            assert(c[i] < c[j]);
        } else if j == g {
            if g > 0 {
                if i < g - 1 {
                    assert(c[i] < c[g - 1]);
                }
            }
        } else if i < g {
            assert(c[i] < c[g]);
        }
    }
    assert(can_advance(d, bound, g));
    assert forall|j: int| g < j < k implies !can_advance(d, bound, j) by {}
    lemma_pivot_unique(d, bound, g);
    let s = successor(d, bound);
    assert forall|j: int| 0 <= j < k implies s[j] == c[j] by {
        if j >= g {
            lemma_run(c, g, j);
        }
    }
    assert(s =~= c);
}

proof fn lemma_complete_at(bound: nat, k: nat, c: Seq<usize>, rank: nat)
    requires
        k <= bound <= usize::MAX,
        is_combination(c, bound as int),
        c.len() == k,
        rank + later(c, bound as int, 0) + 1 == binomial(bound, k),
    ensures
        nth_combination(bound as int, k, rank) == c,
    decreases rank,
{
    if c == first_combination(k) {
        lemma_first(bound, k);
    } else {
        lemma_predecessor(c, bound as int);
        let d = predecessor(c, bound as int);
        lemma_later_step(d, bound as int);
        lemma_later_bound(d, bound as int, 0, 0);
        lemma_complete_at(bound, k, d, (rank - 1) as nat);
    }
}

/// The enumeration leaves nothing out: every strictly increasing sequence
/// of `k` numbers below `bound` is one of the `binomial(bound, k)`
/// combinations that it yields.
pub proof fn lemma_enumeration_complete(bound: nat, k: nat, c: Seq<usize>)
    requires
        k <= bound <= usize::MAX,
        is_combination(c, bound as int),
        c.len() == k,
    ensures
        exists|i: nat| i < binomial(bound, k) && nth_combination(bound as int, k, i) == c,
{
    lemma_later_bound(c, bound as int, 0, 0);
    let rank = (binomial(bound, k) - 1 - later(c, bound as int, 0)) as nat;
    lemma_complete_at(bound, k, c, rank);
}

} // verus!
