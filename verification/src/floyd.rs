//! Floyd's tortoise-and-hare cycle detector: a slow cursor and a double-speed
//! cursor meet inside any loop, after which two same-speed passes recover the
//! cycle's start offset and period.

use vstd::prelude::*;

use crate::chain::{
    at, has_cycle, is_cycle, lemma_at_shift, lemma_cycle_all_some, lemma_cycle_start,
    lemma_cycle_start_bound, lemma_first_none, lemma_min_period, lemma_none_stays,
    lemma_period_bound, lemma_period_transfers, lemma_repeat, lemma_terminates_or_cycles,
    looping_at, step_of, terminates, Chain,
};
use crate::cycle::Cycle;
use crate::list::{met, opt_eq, List};

verus! {

/// Detector that advances a slow and a double-speed cursor until they meet.
#[derive(Default)]
pub struct Floyd {}

/// Some iteration of the double-speed search must stop: a position where the
/// fast cursor has run out, or where both cursors hold equal values.
proof fn lemma_phase1_stop(c: Chain) -> (f: nat)
    requires
        c.succ.dom().finite(),
    ensures
        f >= 1,
        at(c, f + f) is None || at(c, f + f) == at(c, f),
{
    lemma_terminates_or_cycles(c);
    if terminates(c) {
        let t = lemma_first_none(c);
        let f: nat = t + 1;
        lemma_none_stays(c, t, f + f);
        f
    } else {
        let mu = lemma_cycle_start(c);
        let lam = lemma_min_period(c, mu);
        let f: nat = lam * (mu + 1);
        assert(f >= mu + 1) by (nonlinear_arith)
            requires
                lam >= 1,
                f == lam * (mu + 1),
        ;
        lemma_at_shift(c, mu, mu + lam, (f - mu) as nat);
        assert(at(c, f) == at(c, f + lam));
        lemma_repeat(c, f, lam, mu + 1);
        assert((mu + 1) * lam == f) by (nonlinear_arith)
            requires
                f == lam * (mu + 1),
        ;
        assert(at(c, f + f) == at(c, f));
        f
    }
}

impl Floyd {
    /// Robert W. Floyd's tortoise and hare. Returns the canonical cycle
    /// description of the sequence, or nothing exactly when the sequence
    /// terminates.
    #[verifier::loop_isolation(false)]
    pub fn find_cycle(&self, list: &List) -> (r: Option<Cycle>)
        ensures
            r is Some <==> has_cycle(list@),
            r is None <==> terminates(list@),
            r matches Some(cy) ==> is_cycle(list@, cy.0 as nat, cy.1 as nat),
    {
        let ghost c = list@;
        let bound: usize = list.key_bound();
        let ghost d = c.succ.dom().len();
        let ghost mut f: nat = 0;
        proof {
            f = lemma_phase1_stop(c);
        }

        // Find a repetition at(i) == at(2i): the hare moves twice as fast as
        // the tortoise.
        let mut tort = list.start();
        let mut hare = list.start();
        let ghost mut n: nat = 0;
        tort = list.step(tort);
        hare = list.step(hare);
        hare = list.step(hare);
        proof {
            n = 1;
            assert(at(c, 1) == step_of(c, at(c, 0)));
            assert(at(c, 2) == step_of(c, at(c, 1)));
        }
        while !met(hare, tort)
            invariant
                n >= 1,
                n <= f,
                tort == at(c, n),
                hare == at(c, n + n),
            decreases f - n,
        {
            proof {
                assert(n != f);
            }
            tort = list.step(tort);
            hare = list.step(hare);
            hare = list.step(hare);
            proof {
                n = n + 1;
                assert(at(c, n) == step_of(c, at(c, (n - 1) as nat)));
                assert(at(c, (n + n - 1) as nat) == step_of(c, at(c, (n + n - 2) as nat)));
                assert(at(c, n + n) == step_of(c, at(c, (n + n - 1) as nat)));
            }
        }

        if hare.is_none() {
            proof {
                assert(at(c, n + n) is None);
                assert(terminates(c));
                if has_cycle(c) {
                    lemma_cycle_all_some(c);
                }
            }
            return None;
        }

        // The cursors met inside the loop, so a cycle exists.
        proof {
            assert(at(c, n + n) == at(c, n));
            assert(at(c, n) is Some);
            assert(looping_at(c, n));
            assert(has_cycle(c));
            lemma_cycle_all_some(c);
        }
        let ghost mut mu: nat = 0;
        proof {
            mu = lemma_cycle_start(c);
            lemma_cycle_start_bound(c, mu);
            lemma_repeat(c, n, n, 2);
            assert(at(c, n + (n + n)) == at(c, n));
            let jj = choose|j: nat| mu < j && at(c, j) == at(c, mu);
            assert(at(c, mu + ((jj - mu) as nat)) == at(c, mu));
            lemma_period_transfers(c, n, n + n, mu, (jj - mu) as nat);
            assert(at(c, mu + (n + n)) == at(c, mu));
        }

        // The loop start is equidistant from the list start and from the
        // meeting point, so two same-speed cursors meet exactly there.
        let mut start: usize = 0;
        tort = list.start();
        let ghost mut s: nat = 0;
        while !opt_eq(tort, hare)
            invariant
                s == start,
                s <= mu,
                tort == at(c, s),
                hare == at(c, s + n + n),
            decreases mu - s,
        {
            proof {
                assert(at(c, s) != at(c, s + n + n));
                assert(s < mu);
            }
            tort = list.step(tort);
            hare = list.step(hare);
            start = start + 1;
            proof {
                s = s + 1;
                assert(at(c, s) == step_of(c, at(c, (s - 1) as nat)));
                assert(at(c, s + n + n) == step_of(c, at(c, (s + n + n - 1) as nat)));
            }
        }
        proof {
            assert(at(c, s + n + n) == at(c, s));
            assert(at(c, s) is Some);
            assert(looping_at(c, s));
            assert(s == mu);
        }

        // Walk the hare once around the loop to measure its length.
        let ghost mut lam: nat = 0;
        proof {
            lam = lemma_min_period(c, mu);
            lemma_period_bound(c, mu, lam);
        }
        hare = tort;
        hare = list.step(hare);
        let mut length: usize = 1;
        let ghost mut t: nat = 1;
        proof {
            assert(at(c, mu + 1) == step_of(c, at(c, mu)));
        }
        while !opt_eq(hare, tort)
            invariant
                t == length,
                t >= 1,
                t <= lam,
                tort == at(c, mu),
                hare == at(c, mu + t),
                forall|j: nat| mu < j < mu + t ==> at(c, j) != at(c, mu),
            decreases lam - t,
        {
            proof {
                assert(at(c, mu + t) != at(c, mu));
                assert(t < lam);
            }
            hare = list.step(hare);
            length = length + 1;
            proof {
                t = t + 1;
                assert(at(c, mu + t) == step_of(c, at(c, (mu + t - 1) as nat)));
            }
        }
        proof {
            assert(at(c, mu + t) == at(c, mu));
            assert(is_cycle(c, mu, t));
        }
        Some(Cycle(start, length))
    }
}

} // verus!
