//! The result of a detection: a cycle's start offset and period, and the law
//! that any two results meeting the detector contract are equal.

use vstd::prelude::*;

use crate::chain::{has_cycle, is_cycle, lemma_cycle_unique, Chain};

verus! {

/// A detected cycle: the number of steps from the first value to the loop,
/// and the number of steps around the loop.
#[derive(Debug, PartialEq, Eq, Structural)]
pub struct Cycle(pub usize, pub usize);

/// The detector contract: a result is present exactly for cyclic chains, and
/// a present result is the canonical cycle description.
pub open spec fn detects(c: Chain, r: Option<Cycle>) -> bool {
    &&& r is Some <==> has_cycle(c)
    &&& (r matches Option::Some(cy) ==> is_cycle(c, cy.0 as nat, cy.1 as nat))
}

/// Any two results that meet the detector contract for the same chain are
/// equal: the detectors are equivalent on every input, and repeated calls on
/// one sequence return the same result.
pub proof fn lemma_detectors_agree(c: Chain, r1: Option<Cycle>, r2: Option<Cycle>)
    requires
        detects(c, r1),
        detects(c, r2),
    ensures
        r1 == r2,
{
    if r1 is Some && r2 is Some {
        let cy1 = r1->Some_0;
        let cy2 = r2->Some_0;
        lemma_cycle_unique(c, cy1.0 as nat, cy1.1 as nat, cy2.0 as nat, cy2.1 as nat);
    }
}

} // verus!
