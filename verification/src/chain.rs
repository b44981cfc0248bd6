//! The mathematical model of a singly linked sequence and the theory of its
//! cycles: every chain over a finite successor map either terminates or is
//! eventually periodic, and the periodic case has a unique canonical
//! description by start offset and period.

use vstd::prelude::*;

verus! {

/// Model of a singly linked sequence: an optional first value and a partial
/// successor map. A value outside the map has no successor.
pub struct Chain {
    pub first: Option<char>,
    pub succ: Map<char, char>,
}

/// One application of the successor relation; absence propagates.
pub open spec fn step_of(c: Chain, v: Option<char>) -> Option<char> {
    match v {
        Option::None => Option::None,
        Option::Some(x) => if c.succ.contains_key(x) {
            Option::Some(c.succ[x])
        } else {
            Option::None
        },
    }
}

/// The value reached after `n` steps from the chain's first value.
pub open spec fn at(c: Chain, n: nat) -> Option<char>
    decreases n,
{
    if n == 0 {
        c.first
    } else {
        step_of(c, at(c, (n - 1) as nat))
    }
}

/// The chain runs out after finitely many steps.
pub open spec fn terminates(c: Chain) -> bool {
    exists|n: nat| at(c, n) is None
}

/// Position `m` lies on a repeating loop: some later position holds the same
/// value again.
pub open spec fn looping_at(c: Chain, m: nat) -> bool {
    at(c, m) is Some && exists|j: nat| m < j && at(c, j) == at(c, m)
}

/// Some position of the chain lies on a repeating loop.
pub open spec fn has_cycle(c: Chain) -> bool {
    exists|m: nat| looping_at(c, m)
}

/// `(s, k)` is the canonical description of the chain's cycle: `s` is the
/// least position on the loop and `k` the least number of steps that returns
/// the loop to itself.
pub open spec fn is_cycle(c: Chain, s: nat, k: nat) -> bool {
    &&& k > 0
    &&& at(c, s) is Some
    &&& at(c, s + k) == at(c, s)
    &&& forall|j: nat| s < j < s + k ==> at(c, j) != at(c, s)
    &&& forall|m: nat| m < s ==> !looping_at(c, m)
}

/// The value at position `n`, meaningful only where `at` is `Some`.
pub open spec fn value_at(c: Chain, n: nat) -> char {
    match at(c, n) {
        Option::Some(x) => x,
        Option::None => '\0',
    }
}

/// The successor relation is deterministic: positions holding equal values
/// stay equal when advanced by the same distance.
pub proof fn lemma_at_shift(c: Chain, i: nat, j: nat, d: nat)
    requires
        at(c, i) == at(c, j),
    ensures
        at(c, i + d) == at(c, j + d),
    decreases d,
{
    if d > 0 {
        lemma_at_shift(c, i, j, (d - 1) as nat);
        assert(at(c, i + d) == step_of(c, at(c, (i + d - 1) as nat)));
        assert(at(c, j + d) == step_of(c, at(c, (j + d - 1) as nat)));
    }
}

/// Once the chain has run out, it stays out.
pub proof fn lemma_none_stays(c: Chain, n: nat, m: nat)
    requires
        at(c, n) is None,
        n <= m,
    ensures
        at(c, m) is None,
    decreases m - n,
{
    if m > n {
        lemma_none_stays(c, n, (m - 1) as nat);
        assert(at(c, m) == step_of(c, at(c, (m - 1) as nat)));
    }
}

/// A period repeats: `k` more steps land on the same value, any number of
/// times over.
pub proof fn lemma_repeat(c: Chain, m: nat, k: nat, q: nat)
    requires
        at(c, m + k) == at(c, m),
    ensures
        at(c, m + q * k) == at(c, m),
    decreases q,
{
    if q > 0 {
        let r = ((q - 1) as nat) * k;
        lemma_repeat(c, m, k, (q - 1) as nat);
        lemma_at_shift(c, m, m + r, k);
        assert(r + k == q * k) by (nonlinear_arith)
            requires
                q >= 1,
                r == ((q - 1) as nat) * k,
        ;
        assert(at(c, m + r + k) == at(c, m));
        assert(m + r + k == m + q * k);
    } else {
        assert(q * k == 0) by (nonlinear_arith)
            requires
                q == 0,
        ;
    }
}

/// A period observed anywhere on the chain holds at every other position that
/// repeats: if `k` is a period at `m` and `pp` a period at `p`, then `k` is
/// also a period at `p`.
pub proof fn lemma_period_transfers(c: Chain, m: nat, k: nat, p: nat, pp: nat)
    requires
        at(c, m + k) == at(c, m),
        k > 0,
        at(c, p + pp) == at(c, p),
        pp > 0,
    ensures
        at(c, p + k) == at(c, p),
{
    lemma_repeat(c, p, pp, m);
    assert(m * pp >= m) by (nonlinear_arith)
        requires pp >= 1,
    ;
    let n = p + m * pp;
    lemma_at_shift(c, m, m + k, (n - m) as nat);
    assert(at(c, n) == at(c, n + k));
    lemma_at_shift(c, p, n, k);
}

/// Beyond a repeating position the chain never runs out, and it never ran out
/// before it either.
pub proof fn lemma_looping_all_some(c: Chain, m: nat, k: nat, n: nat)
    requires
        at(c, m) is Some,
        at(c, m + k) == at(c, m),
        k > 0,
    ensures
        at(c, n) is Some,
{
    if n <= m {
        if at(c, n) is None {
            lemma_none_stays(c, n, m);
        }
    } else {
        lemma_repeat(c, m, k, n);
        assert(n * k >= n) by (nonlinear_arith)
            requires k >= 1,
        ;
        if at(c, n) is None {
            lemma_none_stays(c, n, m + n * k);
        }
    }
}

/// A chain with a cycle never runs out anywhere.
pub proof fn lemma_cycle_all_some(c: Chain)
    requires
        has_cycle(c),
    ensures
        forall|n: nat| at(c, n) is Some,
        !terminates(c),
{
    let m = choose|m: nat| looping_at(c, m);
    let j = choose|j: nat| m < j && at(c, j) == at(c, m);
    assert forall|n: nat| at(c, n) is Some by {
        assert(at(c, m + ((j - m) as nat)) == at(c, m));
        lemma_looping_all_some(c, m, (j - m) as nat, n);
    }
}

/// Well-ordering: a satisfiable predicate on naturals has a least witness.
pub proof fn lemma_least(p: spec_fn(nat) -> bool, n: nat) -> (m: nat)
    requires
        p(n),
    ensures
        p(m),
        m <= n,
        forall|j: nat| #[trigger] p(j) ==> j >= m,
    decreases n,
{
    if exists|j: nat| j < n && #[trigger] p(j) {
        let j = choose|j: nat| j < n && #[trigger] p(j);
        lemma_least(p, j)
    } else {
        n
    }
}

/// The least position at which a terminating chain has run out.
pub proof fn lemma_first_none(c: Chain) -> (t: nat)
    requires
        terminates(c),
    ensures
        at(c, t) is None,
        forall|j: nat| j < t ==> at(c, j) is Some,
{
    let n = choose|n: nat| at(c, n) is None;
    let p = |x: nat| at(c, x) is None;
    assert(p(n));
    let t = lemma_least(p, n);
    assert forall|j: nat| j < t implies at(c, j) is Some by {
        if at(c, j) is None {
            assert(p(j));
        }
    }
    t
}

/// The least looping position of a cyclic chain.
pub proof fn lemma_cycle_start(c: Chain) -> (mu: nat)
    requires
        has_cycle(c),
    ensures
        looping_at(c, mu),
        forall|m: nat| m < mu ==> !looping_at(c, m),
{
    let m0 = choose|m: nat| looping_at(c, m);
    let p = |m: nat| looping_at(c, m);
    assert(p(m0));
    let mu = lemma_least(p, m0);
    assert(looping_at(c, mu));
    assert forall|m: nat| m < mu implies !looping_at(c, m) by {
        if looping_at(c, m) {
            assert(p(m));
        }
    }
    mu
}

/// The least period at a looping position.
pub proof fn lemma_min_period(c: Chain, m: nat) -> (k: nat)
    requires
        looping_at(c, m),
    ensures
        k > 0,
        at(c, m + k) == at(c, m),
        forall|j: nat| m < j < m + k ==> at(c, j) != at(c, m),
{
    let j0 = choose|j: nat| m < j && at(c, j) == at(c, m);
    let q = |x: nat| x > 0 && at(c, m + x) == at(c, m);
    assert(m + (j0 - m) == j0);
    assert(q((j0 - m) as nat));
    let k = lemma_least(q, (j0 - m) as nat);
    assert forall|j: nat| m < j < m + k implies at(c, j) != at(c, m) by {
        assert(!q((j - m) as nat));
        assert(m + (j - m) == j);
    }
    k
}

/// The set of values occupying the `n` positions starting at `s`.
pub open spec fn seen(c: Chain, s: nat, n: nat) -> Set<char>
    decreases n,
{
    if n == 0 {
        Set::empty()
    } else {
        seen(c, s, (n - 1) as nat).insert(value_at(c, (s + n - 1) as nat))
    }
}

proof fn lemma_seen_contains(c: Chain, s: nat, n: nat, x: char)
    ensures
        seen(c, s, n).contains(x) <==> exists|j: nat| s <= j < s + n && value_at(c, j) == x,
    decreases n,
{
    if n > 0 {
        lemma_seen_contains(c, s, (n - 1) as nat, x);
        let w = (s + n - 1) as nat;
        if value_at(c, w) == x {
            assert(s <= w < s + n && value_at(c, w) == x);
        }
    }
}

proof fn lemma_seen_card(c: Chain, s: nat, n: nat)
    requires
        forall|a: nat, b: nat| s <= a < b < s + n ==> value_at(c, a) != value_at(c, b),
    ensures
        seen(c, s, n).finite(),
        seen(c, s, n).len() == n,
    decreases n,
{
    if n > 0 {
        lemma_seen_card(c, s, (n - 1) as nat);
        lemma_seen_contains(c, s, (n - 1) as nat, value_at(c, (s + n - 1) as nat));
        assert(!seen(c, s, (n - 1) as nat).contains(value_at(c, (s + n - 1) as nat)));
    }
}

proof fn lemma_seen_in_keys(c: Chain, s: nat, n: nat)
    requires
        forall|j: nat| s <= j < s + n ==> at(c, j) is Some && c.succ.contains_key(value_at(c, j)),
    ensures
        seen(c, s, n).subset_of(c.succ.dom()),
    decreases n,
{
    if n > 0 {
        lemma_seen_in_keys(c, s, (n - 1) as nat);
    }
}

/// Pigeonhole: pairwise-distinct values, each a key of the successor map, are
/// at most as many as the keys.
proof fn lemma_window_bound(c: Chain, s: nat, n: nat)
    requires
        c.succ.dom().finite(),
        forall|a: nat, b: nat| s <= a < b < s + n ==> value_at(c, a) != value_at(c, b),
        forall|j: nat| s <= j < s + n ==> at(c, j) is Some && c.succ.contains_key(value_at(c, j)),
    ensures
        n <= c.succ.dom().len(),
{
    lemma_seen_card(c, s, n);
    lemma_seen_in_keys(c, s, n);
    vstd::set_lib::lemma_len_subset(seen(c, s, n), c.succ.dom());
}

/// Before the least looping position every value is distinct and has a
/// successor, so the cycle start is at most the number of keys.
pub proof fn lemma_cycle_start_bound(c: Chain, mu: nat)
    requires
        c.succ.dom().finite(),
        looping_at(c, mu),
        forall|m: nat| m < mu ==> !looping_at(c, m),
    ensures
        mu <= c.succ.dom().len(),
{
    assert forall|j: nat| j <= mu implies at(c, j) is Some by {
        if at(c, j) is None {
            lemma_none_stays(c, j, mu);
        }
    }
    assert forall|a: nat, b: nat| 0 <= a < b < mu implies value_at(c, a) != value_at(c, b) by {
        if value_at(c, a) == value_at(c, b) {
            assert(at(c, a) == at(c, b));
            assert(looping_at(c, a));
            assert(false);
        }
    }
    assert forall|j: nat| 0 <= j < mu implies at(c, j) is Some && c.succ.contains_key(
        value_at(c, j),
    ) by {
        assert(at(c, j + 1) == step_of(c, at(c, j)));
    }
    lemma_window_bound(c, 0, mu);
}

/// A minimal period is at most the number of keys: one pass around the loop
/// visits pairwise-distinct values.
pub proof fn lemma_period_bound(c: Chain, m: nat, k: nat)
    requires
        c.succ.dom().finite(),
        k > 0,
        at(c, m) is Some,
        at(c, m + k) == at(c, m),
        forall|j: nat| m < j < m + k ==> at(c, j) != at(c, m),
    ensures
        k <= c.succ.dom().len(),
{
    assert forall|a: nat, b: nat| m <= a < b < m + k implies value_at(c, a) != value_at(c, b) by {
        if value_at(c, a) == value_at(c, b) {
            lemma_looping_all_some(c, m, k, a);
            lemma_looping_all_some(c, m, k, b);
            assert(at(c, a) == at(c, b));
            assert(at(c, a + ((b - a) as nat)) == at(c, a));
            lemma_period_transfers(c, a, (b - a) as nat, m, k);
            assert(at(c, m + ((b - a) as nat)) == at(c, m));
            assert(false);
        }
    }
    assert forall|j: nat| m <= j < m + k implies at(c, j) is Some && c.succ.contains_key(
        value_at(c, j),
    ) by {
        lemma_looping_all_some(c, m, k, j);
        lemma_looping_all_some(c, m, k, j + 1);
        assert(at(c, j + 1) == step_of(c, at(c, j)));
    }
    lemma_window_bound(c, m, k);
}

/// A terminating chain runs out within one step past the number of keys.
pub proof fn lemma_terminal_bound(c: Chain, t: nat)
    requires
        c.succ.dom().finite(),
        at(c, t) is None,
        forall|j: nat| j < t ==> at(c, j) is Some,
    ensures
        t <= c.succ.dom().len() + 1,
{
    if t >= 1 {
        let w = (t - 1) as nat;
        assert forall|a: nat, b: nat| 0 <= a < b < w implies value_at(c, a) != value_at(c, b) by {
            if value_at(c, a) == value_at(c, b) {
                assert(at(c, a) == at(c, b));
                assert(at(c, a + ((b - a) as nat)) == at(c, a));
                lemma_looping_all_some(c, a, (b - a) as nat, t);
                assert(false);
            }
        }
        assert forall|j: nat| 0 <= j < w implies at(c, j) is Some && c.succ.contains_key(
            value_at(c, j),
        ) by {
            assert(at(c, j + 1) == step_of(c, at(c, j)));
        }
        lemma_window_bound(c, 0, w);
    }
}

/// Over a finite successor map, a chain either terminates or cycles: there
/// are only so many values to visit before one repeats or runs out.
pub proof fn lemma_terminates_or_cycles(c: Chain)
    requires
        c.succ.dom().finite(),
    ensures
        terminates(c) || has_cycle(c),
{
    if !terminates(c) && !has_cycle(c) {
        let d = c.succ.dom().len();
        assert forall|a: nat, b: nat| 0 <= a < b < d + 1 implies value_at(c, a) != value_at(
            c,
            b,
        ) by {
            assert(at(c, a) is Some);
            assert(at(c, b) is Some);
            if value_at(c, a) == value_at(c, b) {
                assert(at(c, b) == at(c, a));
                assert(looping_at(c, a));
                assert(false);
            }
        }
        assert forall|j: nat| 0 <= j < d + 1 implies at(c, j) is Some && c.succ.contains_key(
            value_at(c, j),
        ) by {
            assert(at(c, j) is Some);
            assert(at(c, j + 1) is Some);
            assert(at(c, j + 1) == step_of(c, at(c, j)));
        }
        lemma_window_bound(c, 0, d + 1);
        assert(false);
    }
}

/// A cyclic chain has a canonical cycle description.
pub proof fn lemma_canonical_cycle(c: Chain) -> (r: (nat, nat))
    requires
        has_cycle(c),
    ensures
        is_cycle(c, r.0, r.1),
{
    let mu = lemma_cycle_start(c);
    let lam = lemma_min_period(c, mu);
    assert(at(c, mu + lam) == at(c, mu));
    (mu, lam)
}

/// The canonical cycle description is unique: two descriptions of the same
/// chain agree on both the start offset and the period.
pub proof fn lemma_cycle_unique(c: Chain, s1: nat, k1: nat, s2: nat, k2: nat)
    requires
        is_cycle(c, s1, k1),
        is_cycle(c, s2, k2),
    ensures
        s1 == s2,
        k1 == k2,
{
    assert(at(c, s1 + k1) == at(c, s1));
    assert(looping_at(c, s1));
    assert(at(c, s2 + k2) == at(c, s2));
    assert(looping_at(c, s2));
    assert(s1 == s2);
    if k1 < k2 {
        assert(at(c, s2 + k1) != at(c, s2));
        assert(false);
    }
    if k2 < k1 {
        assert(at(c, s1 + k2) != at(c, s1));
        assert(false);
    }
}

/// The empty chain terminates at once.
pub proof fn lemma_empty_terminates(c: Chain)
    requires
        c.first is None,
    ensures
        terminates(c),
{
    assert(at(c, 0) is None);
}

/// A chain whose first value has no successor terminates after one step.
pub proof fn lemma_single_terminates(c: Chain, v: char)
    requires
        c.first == Some(v),
        !c.succ.contains_key(v),
    ensures
        terminates(c),
{
    assert(at(c, 1) == step_of(c, at(c, 0)));
    assert(at(c, 1) is None);
}

/// A chain whose first value is its own successor cycles immediately: offset
/// zero, period one.
pub proof fn lemma_self_loop(c: Chain, v: char)
    requires
        c.first == Some(v),
        c.succ.contains_key(v),
        c.succ[v] == v,
    ensures
        has_cycle(c),
        is_cycle(c, 0, 1),
{
    assert(at(c, 0) == Some(v));
    assert(at(c, 1) == step_of(c, at(c, 0)));
    assert(at(c, 1) == Some(v));
    assert(looping_at(c, 0));
}

} // verus!
