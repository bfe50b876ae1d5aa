//! Equality and order of orbits.
//!
//! Orbits are equal if they list the same half-edges, and they are ordered
//! lexicographically by their lists.

use crate::permutation::{lemma_lex_decided, lex_less, Orbit};
use std::cmp::Ordering;
use vstd::prelude::*;
use vstd::std_specs::cmp::{PartialEqSpecImpl, PartialOrdSpecImpl};

verus! {

/// How the lists `a` and `b` stand in lexicographic order.
pub open spec fn lex_order(a: Seq<usize>, b: Seq<usize>) -> Ordering {
    if a == b {
        Ordering::Equal
    } else if lex_less(a, b) {
        Ordering::Less
    } else {
        Ordering::Greater
    }
}

/// Compares two lists lexicographically.
pub fn lex_compare(a: &[usize], b: &[usize]) -> (r: Ordering)
    ensures
        r == lex_order(a@, b@),
{
    let mut i: usize = 0;
    while i < a.len() && i < b.len()
        invariant
            i <= a@.len(),
            i <= b@.len(),
            forall|j: int| 0 <= j < i ==> a@[j] == b@[j],
        decreases a@.len() - i,
    {
        proof {
            lemma_lex_decided(a@, b@, i);
        }
        if a[i] < b[i] {
            return Ordering::Less;
        }
        if a[i] > b[i] {
            return Ordering::Greater;
        }
        i += 1;
    }
    proof {
        lemma_lex_decided(a@, b@, i);
    }
    if a.len() < b.len() {
        Ordering::Less
    } else if a.len() > b.len() {
        Ordering::Greater
    } else {
        Ordering::Equal
    }
}

impl PartialEq for Orbit {
    fn eq(&self, other: &Self) -> (r: bool) {
        match lex_compare(self.indices(), other.indices()) {
            Ordering::Equal => true,
            _ => false,
        }
    }
}

impl PartialEqSpecImpl for Orbit {
    open spec fn obeys_eq_spec() -> bool {
        true
    }

    open spec fn eq_spec(&self, other: &Self) -> bool {
        self@ == other@
    }
}

impl Eq for Orbit {

}

impl PartialOrd for Orbit {
    fn partial_cmp(&self, other: &Self) -> (r: Option<Ordering>) {
        Some(lex_compare(self.indices(), other.indices()))
    }
}

impl PartialOrdSpecImpl for Orbit {
    open spec fn obeys_partial_cmp_spec() -> bool {
        true
    }

    open spec fn partial_cmp_spec(&self, other: &Self) -> Option<Ordering> {
        Some(lex_order(self@, other@))
    }
}

} // verus!
