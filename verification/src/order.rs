//! The comparison algebra shared by the erased engine and the typed facade.
//!
//! Every index assigns each record an integer key; a probe is either an
//! ordinary three-way comparison against such a key (`At`), or one of the two
//! constant probes that drive a splay toward an extreme of the tree: `Below`
//! compares `Less` to every record and `Above` compares `Greater` to every
//! record, so neither can ever stop on an `Equal` match.

use vstd::prelude::*;

verus! {

use core::cmp::Ordering;

/// Where a probe stands relative to the integer key line of one index.
pub enum QueryPos {
    /// Strictly below every key: the minimum-seeking probe.
    Below,
    /// At the given point of the key line: an ordinary three-way probe.
    At(int),
    /// Strictly above every key: the maximum-seeking probe.
    Above,
}

/// The three-way outcome of comparing a probe at `q` to a record whose key is `k`.
pub open spec fn q_cmp(q: QueryPos, k: int) -> Ordering {
    match q {
        QueryPos::Below => Ordering::Less,
        QueryPos::At(x) => if x < k {
            Ordering::Less
        } else if x == k {
            Ordering::Equal
        } else {
            Ordering::Greater
        },
        QueryPos::Above => Ordering::Greater,
    }
}

/// A probe that stands below a key also stands below every larger key, and a
/// probe above a key stands above every smaller one.
pub proof fn lemma_q_cmp_mono(q: QueryPos, k1: int, k2: int)
    requires
        k1 <= k2,
    ensures
        q_cmp(q, k1) == Ordering::Less ==> q_cmp(q, k2) == Ordering::Less,
        q_cmp(q, k2) == Ordering::Greater ==> q_cmp(q, k1) == Ordering::Greater,
{
}

} // verus!
