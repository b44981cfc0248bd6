//! Brent's teleporting-tortoise cycle detector: the fast cursor searches
//! passes of doubling length while the slow cursor teleports to the fast
//! one's position between passes; the pass length at the meeting is already
//! the cycle's period.

use vstd::prelude::*;

use crate::chain::{
    at, has_cycle, is_cycle, lemma_at_shift, lemma_cycle_all_some, lemma_cycle_start,
    lemma_cycle_start_bound, lemma_first_none, lemma_min_period, lemma_none_stays,
    lemma_period_bound, lemma_period_transfers, lemma_terminal_bound,
    lemma_terminates_or_cycles, looping_at, step_of, terminates, Chain,
};
use crate::cycle::Cycle;
use crate::list::{met, opt_eq, List};

verus! {

/// Detector that searches successive powers of two, teleporting the slow
/// cursor to the fast one after each pass.
#[derive(Default)]
pub struct Brent {}

impl Brent {
    /// Richard P. Brent's teleporting tortoise. Returns the canonical cycle
    /// description of the sequence, or nothing exactly when the sequence
    /// terminates; it agrees with the tortoise-and-hare detector on every
    /// input.
    #[verifier::loop_isolation(false)]
    pub fn find_cycle(&self, list: &List) -> (r: Option<Cycle>)
        ensures
            r is Some <==> has_cycle(list@),
            r is None <==> terminates(list@),
            r matches Some(cy) ==> is_cycle(list@, cy.0 as nat, cy.1 as nat),
    {
        let ghost c = list@;
        let bound: usize = list.key_bound();
        let ghost d = c.succ.dom().len();
        let ghost mut t_end: nat = 0;
        let ghost mut mu: nat = 0;
        let ghost mut lam: nat = 0;
        proof {
            lemma_terminates_or_cycles(c);
            if terminates(c) {
                t_end = lemma_first_none(c);
                lemma_terminal_bound(c, t_end);
            } else {
                lemma_cycle_all_some(c);
                mu = lemma_cycle_start(c);
                lemma_cycle_start_bound(c, mu);
                lam = lemma_min_period(c, mu);
                lemma_period_bound(c, mu, lam);
            }
        }

        // Main phase: the hare searches passes of doubling length while the
        // tortoise teleports to the hare's position between passes.
        let mut tort = list.start();
        let mut hare = list.start();
        let mut limit: u128 = 1;
        let mut length: u128 = 1;
        let ghost mut p: nat = 0;
        let ghost mut n: nat = 0;
        hare = list.step(hare);
        proof {
            n = 1;
            assert(at(c, 1) == step_of(c, at(c, 0)));
        }
        while !met(hare, tort)
            invariant
                tort == at(c, p),
                hare == at(c, n),
                n == p + length,
                limit == p + 1,
                1 <= length <= limit,
                limit <= 2 * d + 2,
                forall|j: nat| p < j < n ==> at(c, j) != at(c, p),
            decreases 2 * d + 3 - limit, limit - length,
        {
            proof {
                assert(at(c, n) is Some);
                assert(at(c, n) != at(c, p));
            }
            if length == limit {
                // Start a new pass: teleport the tortoise, double the limit.
                proof {
                    if terminates(c) {
                        if n >= t_end {
                            lemma_none_stays(c, t_end, n);
                        }
                        assert(limit <= d);
                    } else {
                        if p >= mu {
                            lemma_at_shift(c, mu, mu + lam, (p - mu) as nat);
                            assert(at(c, p + lam) == at(c, p));
                            if lam <= limit {
                                assert(at(c, p + lam) != at(c, p));
                                assert(false);
                            }
                        }
                        assert(limit <= d);
                    }
                }
                tort = hare;
                limit = limit * 2;
                length = 0;
                proof {
                    p = n;
                }
            }
            hare = list.step(hare);
            length = length + 1;
            proof {
                n = n + 1;
                assert(at(c, n) == step_of(c, at(c, (n - 1) as nat)));
            }
        }

        if hare.is_none() {
            proof {
                assert(at(c, n) is None);
                assert(terminates(c));
                if has_cycle(c) {
                    lemma_cycle_all_some(c);
                }
            }
            return None;
        }

        // The cursors met: the pass length is exactly the cycle's period.
        proof {
            assert(at(c, p + (length as nat)) == at(c, p));
            assert(at(c, p) is Some);
            assert(looping_at(c, p));
            assert(has_cycle(c));
            lemma_cycle_all_some(c);
            lemma_period_transfers(c, p, length as nat, mu, lam);
            assert(at(c, mu + (length as nat)) == at(c, mu));
            if length < lam {
                assert(at(c, mu + (length as nat)) != at(c, mu));
                assert(false);
            }
            lemma_period_transfers(c, mu, lam, p, length as nat);
            assert(at(c, p + lam) == at(c, p));
            if lam < length {
                assert(at(c, p + lam) != at(c, p));
                assert(false);
            }
            assert(length == lam);
        }
        let length_us: usize = length as usize;

        // With the tortoise at the head and the hare spotted one period
        // ahead, advancing both at the same speed meets at the cycle start.
        let mut start: usize = 0;
        tort = list.start();
        hare = list.start();
        let mut i: usize = 0;
        let ghost mut h: nat = 0;
        while i < length_us
            invariant
                i <= length_us,
                h == i,
                tort == at(c, 0),
                hare == at(c, h),
            decreases length_us - i,
        {
            hare = list.step(hare);
            i = i + 1;
            proof {
                h = h + 1;
                assert(at(c, h) == step_of(c, at(c, (h - 1) as nat)));
            }
        }
        let ghost mut s: nat = 0;
        while !opt_eq(tort, hare)
            invariant
                s == start,
                s <= mu,
                tort == at(c, s),
                hare == at(c, s + lam),
            decreases mu - s,
        {
            proof {
                assert(at(c, s) != at(c, s + lam));
                assert(s < mu);
            }
            tort = list.step(tort);
            hare = list.step(hare);
            start = start + 1;
            proof {
                s = s + 1;
                assert(at(c, s) == step_of(c, at(c, (s - 1) as nat)));
                assert(at(c, s + lam) == step_of(c, at(c, (s + lam - 1) as nat)));
            }
        }
        proof {
            assert(at(c, s + lam) == at(c, s));
            assert(at(c, s) is Some);
            assert(looping_at(c, s));
            assert(s == mu);
            assert(is_cycle(c, mu, lam));
        }
        Some(Cycle(start, length_us))
    }
}

} // verus!
