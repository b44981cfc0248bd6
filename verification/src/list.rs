//! A lookup-table-backed sequence: the concrete realization of the chain
//! model that the detectors traverse. Built once from an ordered list of
//! values and read-only afterwards.

use vstd::prelude::*;

use crate::chain::{
    at, has_cycle, is_cycle, lemma_period_transfers, looping_at, step_of, terminates, Chain,
};

verus! {

/// The successor map induced by consecutive elements of a value sequence: each
/// element maps to the one after it, a later pair overriding an earlier one
/// with the same key.
pub open spec fn links_of(s: Seq<char>) -> Map<char, char>
    decreases s.len(),
{
    if s.len() < 2 {
        Map::empty()
    } else {
        links_of(s.drop_last()).insert(s[s.len() - 2], s[s.len() - 1])
    }
}

/// The map formed by a sequence of key-value pairs, a later pair overriding
/// an earlier one with the same key.
spec fn pairs_map(q: Seq<(char, char)>) -> Map<char, char>
    decreases q.len(),
{
    if q.len() == 0 {
        Map::empty()
    } else {
        pairs_map(q.drop_last()).insert(q.last().0, q.last().1)
    }
}

proof fn lemma_pairs_links(s: Seq<char>, q: Seq<(char, char)>)
    requires
        s.len() == 0 ==> q.len() == 0,
        s.len() > 0 ==> q.len() == s.len() - 1,
        forall|j: int| 0 <= j < q.len() ==> q[j] == (s[j], s[j + 1]),
    ensures
        pairs_map(q) == links_of(s),
    decreases s.len(),
{
    if s.len() < 2 {
        assert(q.len() == 0);
    } else {
        assert forall|j: int| 0 <= j < q.drop_last().len() implies q.drop_last()[j] == (
            s.drop_last()[j],
            s.drop_last()[j + 1],
        ) by {
            assert(q[j] == (s[j], s[j + 1]));
        }
        lemma_pairs_links(s.drop_last(), q.drop_last());
        assert(q.last() == (s[s.len() - 2], s[s.len() - 1]));
    }
}

proof fn lemma_pairs_map_find(q: Seq<(char, char)>, x: char, i: int)
    requires
        0 <= i < q.len(),
        q[i].0 == x,
        forall|j: int| i < j < q.len() ==> q[j].0 != x,
    ensures
        pairs_map(q).contains_key(x),
        pairs_map(q)[x] == q[i].1,
    decreases q.len(),
{
    if i == q.len() - 1 {
        assert(q.last() == q[i]);
    } else {
        assert(q[q.len() - 1].0 != x);
        lemma_pairs_map_find(q.drop_last(), x, i);
    }
}

proof fn lemma_pairs_map_absent(q: Seq<(char, char)>, x: char)
    requires
        forall|j: int| 0 <= j < q.len() ==> q[j].0 != x,
    ensures
        !pairs_map(q).contains_key(x),
    decreases q.len(),
{
    if q.len() > 0 {
        assert(q[q.len() - 1].0 != x);
        lemma_pairs_map_absent(q.drop_last(), x);
    }
}

proof fn lemma_pairs_map_dom(q: Seq<(char, char)>)
    ensures
        pairs_map(q).dom().finite(),
        pairs_map(q).dom().len() <= q.len(),
    decreases q.len(),
{
    if q.len() == 0 {
        assert(pairs_map(q).dom() =~= Set::<char>::empty());
    } else {
        lemma_pairs_map_dom(q.drop_last());
    }
}

/// A singly linked sequence stored as a lookup table: an optional first value
/// and the list of key-successor pairs.
pub struct List {
    first: Option<char>,
    pairs: Vec<(char, char)>,
}

impl View for List {
    type V = Chain;

    closed spec fn view(&self) -> Chain {
        Chain { first: self.first, succ: pairs_map(self.pairs@) }
    }
}

impl List {
    /// Builds the list from an ordered sequence of values: the first element
    /// starts the chain and each element's successor is the element after it;
    /// a repeated element keeps only its last successor.
    pub fn from(values: Vec<char>) -> (l: List)
        ensures
            l@.first == (if values@.len() == 0 {
                Option::<char>::None
            } else {
                Option::Some(values@[0])
            }),
            l@.succ == links_of(values@),
    {
        let first = if values.len() > 0 {
            Some(values[0])
        } else {
            None
        };
        let n: usize = values.len();
        let cap: usize = if n > 0 {
            n - 1
        } else {
            0
        };
        let mut pairs: Vec<(char, char)> = Vec::new();
        let mut i: usize = 0;
        while i < cap
            invariant
                cap < n || cap == 0,
                n == values@.len(),
                i <= cap,
                pairs@.len() == i,
                forall|j: int| 0 <= j < i ==> pairs@[j] == (values@[j], values@[j + 1]),
            decreases cap - i,
        {
            let pair = (values[i], values[i + 1]);
            pairs.push(pair);
            i = i + 1;
        }
        proof {
            lemma_pairs_links(values@, pairs@);
        }
        List { first, pairs }
    }

    /// The first value of the sequence, or nothing for the empty sequence.
    pub fn start(&self) -> (r: Option<char>)
        ensures
            r == self@.first,
    {
        self.first
    }

    /// The successor of `t`: absence propagates, and a value without a stored
    /// successor ends the chain.
    pub fn step(&self, t: Option<char>) -> (r: Option<char>)
        ensures
            r == step_of(self@, t),
    {
        match t {
            Option::None => Option::None,
            Option::Some(x) => self.lookup(x),
        }
    }

    /// Finds the successor stored for `x`, honouring the last pair written.
    fn lookup(&self, x: char) -> (r: Option<char>)
        ensures
            r == step_of(self@, Some(x)),
    {
        let mut i: usize = self.pairs.len();
        while i > 0
            invariant
                i <= self.pairs@.len(),
                forall|j: int| i <= j < self.pairs@.len() ==> self.pairs@[j].0 != x,
            decreases i,
        {
            i = i - 1;
            let p = self.pairs[i];
            if p.0 == x {
                proof {
                    lemma_pairs_map_find(self.pairs@, x, i as int);
                }
                return Some(p.1);
            }
        }
        proof {
            lemma_pairs_map_absent(self.pairs@, x);
        }
        None
    }

    /// The number of stored links, which bounds the size of the successor
    /// map's key set.
    pub(crate) fn key_bound(&self) -> (n: usize)
        ensures
            self@.succ.dom().finite(),
            self@.succ.dom().len() <= n,
    {
        proof {
            lemma_pairs_map_dom(self.pairs@);
        }
        self.pairs.len()
    }
}

/// Equality of two optional values, written out so that the meeting tests of
/// the detectors carry their meaning into specifications.
pub(crate) fn opt_eq(a: Option<char>, b: Option<char>) -> (r: bool)
    ensures
        r == (a == b),
{
    match (a, b) {
        (Option::None, Option::None) => true,
        (Option::Some(x), Option::Some(y)) => x == y,
        _ => false,
    }
}

proof fn lemma_links_distinct(s: Seq<char>)
    requires
        forall|a: int, b: int| 0 <= a < b < s.len() - 1 ==> s[a] != s[b],
    ensures
        forall|i: int|
            0 <= i < s.len() - 1 ==> #[trigger] links_of(s).contains_key(s[i]) && links_of(s)[s[i]]
                == s[i + 1],
        forall|x: char|
            #[trigger] links_of(s).contains_key(x) ==> exists|i: int|
                0 <= i < s.len() - 1 && #[trigger] s[i] == x,
    decreases s.len(),
{
    if s.len() >= 2 {
        let d = s.drop_last();
        lemma_links_distinct(d);
        assert forall|i: int|
            0 <= i < s.len() - 1 implies #[trigger] links_of(s).contains_key(s[i]) && links_of(
            s,
        )[s[i]] == s[i + 1] by {
            if i < s.len() - 2 {
                assert(d[i] == s[i]);
                assert(d[i + 1] == s[i + 1]);
                assert(links_of(d).contains_key(d[i]));
                assert(links_of(d)[d[i]] == d[i + 1]);
                assert(s[i] != s[s.len() - 2]);
            }
        }
        assert forall|x: char| #[trigger] links_of(s).contains_key(x) implies exists|i: int|
            0 <= i < s.len() - 1 && #[trigger] s[i] == x by {
            if x == s[s.len() - 2] {
                assert(s[s.len() - 2] == x);
            } else {
                assert(links_of(d).contains_key(x));
                let i = choose|i: int| 0 <= i < d.len() - 1 && #[trigger] d[i] == x;
                assert(d[i] == s[i]);
                assert(s[i] == x);
            }
        }
    }
}

/// A chain built over the links of `s`, whose keys are pairwise distinct,
/// visits the elements of `s` in order.
proof fn lemma_follows(c: Chain, s: Seq<char>, j: nat)
    requires
        s.len() >= 1,
        forall|a: int, b: int| 0 <= a < b < s.len() - 1 ==> s[a] != s[b],
        c.first == Some(s[0]),
        c.succ == links_of(s),
        j < s.len(),
    ensures
        at(c, j) == Some(s[j as int]),
    decreases j,
{
    lemma_links_distinct(s);
    if j > 0 {
        lemma_follows(c, s, (j - 1) as nat);
        assert(at(c, j) == step_of(c, at(c, (j - 1) as nat)));
        assert(links_of(s).contains_key(s[j - 1]) && links_of(s)[s[j - 1]] == s[j as int]);
    }
}

/// A chain built from pairwise-distinct values with no loop back terminates
/// right past the last value, so detection on it returns nothing.
pub proof fn lemma_straight_line(c: Chain, u: Seq<char>)
    requires
        u.len() >= 1,
        forall|a: int, b: int| 0 <= a < b < u.len() ==> u[a] != u[b],
        c.first == Some(u[0]),
        c.succ == links_of(u),
    ensures
        terminates(c),
{
    let n = u.len() as nat;
    lemma_follows(c, u, (n - 1) as nat);
    lemma_links_distinct(u);
    if c.succ.contains_key(u[n - 1]) {
        let i = choose|i: int| 0 <= i < u.len() - 1 && #[trigger] u[i] == u[n - 1];
        assert(false);
    }
    assert(at(c, n) == step_of(c, at(c, (n - 1) as nat)));
    assert(at(c, n) is None);
}

/// A chain of pairwise-distinct values whose last element loops back to the
/// element at offset `k` cycles exactly there: start `k`, period
/// `u.len() - k`.
pub proof fn lemma_tail_loop(c: Chain, u: Seq<char>, k: nat)
    requires
        u.len() >= 1,
        k < u.len(),
        forall|a: int, b: int| 0 <= a < b < u.len() ==> u[a] != u[b],
        c.first == Some(u[0]),
        c.succ == links_of(u.push(u[k as int])),
    ensures
        has_cycle(c),
        is_cycle(c, k, (u.len() - k) as nat),
{
    let n = u.len() as nat;
    let p = (n - k) as nat;
    let s = u.push(u[k as int]);
    assert(s[0] == u[0]);
    assert forall|a: int, b: int| 0 <= a < b < s.len() - 1 implies s[a] != s[b] by {
        assert(s[a] == u[a] && s[b] == u[b]);
    }
    assert forall|j: nat| j < n implies at(c, j) == Some(u[j as int]) by {
        lemma_follows(c, s, j);
        assert(s[j as int] == u[j as int]);
    }
    lemma_follows(c, s, n);
    assert(at(c, n) == Some(u[k as int]));
    assert(at(c, k + p) == at(c, k));
    assert(looping_at(c, k));
    assert forall|j: nat| k < j < k + p implies at(c, j) != at(c, k) by {
        assert(at(c, j) == Some(u[j as int]));
        assert(u[j as int] != u[k as int]);
    }
    assert forall|m: nat| m < k implies !looping_at(c, m) by {
        if looping_at(c, m) {
            let jj = choose|j2: nat| m < j2 && at(c, j2) == at(c, m);
            assert(at(c, m + ((jj - m) as nat)) == at(c, m));
            lemma_period_transfers(c, k, p, m, (jj - m) as nat);
            assert(at(c, m + p) == at(c, m));
            assert(at(c, m) == Some(u[m as int]));
            assert(at(c, m + p) == Some(u[(m + p) as int]));
            assert(u[m as int] != u[(m + p) as int]);
            assert(false);
        }
    }
}

/// The fast cursor's stopping test: it ran out, or it caught the slow one.
pub(crate) fn met(hare: Option<char>, tort: Option<char>) -> (r: bool)
    ensures
        r == (hare is None || hare == tort),
{
    hare.is_none() || opt_eq(hare, tort)
}

} // verus!
