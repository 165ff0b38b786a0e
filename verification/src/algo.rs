//! The nimber calculation helpers with plain integers in and out: the same
//! splits and nimbers as [`crate::nimbers`], as bare `u64` values.

use vstd::prelude::*;

use crate::game::{rules_model, rules_well_formed, NimRule};

pub use crate::nimbers::clear_nimber_cache;

verus! {

/// All ways to split `height` into two positive parts whose sum is
/// `height`, accounting for symmetry: `(1, height-1)` up to
/// `(height/2, height-height/2)`, ordered by increasing first part.
pub open spec fn splits_spec_u64(height: u64) -> Seq<(u64, u64)> {
    Seq::new((height / 2) as nat, |i: int| (((i + 1) as u64), ((height - i - 1) as u64)))
}

/// Calculate all possibilities to split a number into two parts, where the
/// sum of the parts is the original number, accounting for symmetry.
///
/// Stacks of height 0 and 1 cannot be split, so their result is empty.
pub fn calculate_splits(height: u64) -> (r: Vec<(u64, u64)>)
    ensures
        r@ == splits_spec_u64(height),
{
    let mut splits: Vec<(u64, u64)> = Vec::new();

    // Stacks of height 0 and 1 can't be split
    if height <= 1 {
        proof {
            assert(splits@ =~= splits_spec_u64(height));
        }
        return splits;
    }
    let half = height / 2;
    let mut i: u64 = 0;
    while i < half
        invariant
            i <= half,
            half == height / 2,
            splits@ == splits_spec_u64(height).take(i as int),
        decreases half - i,
    {
        i = i + 1;
        splits.push((i, height - i));
        proof {
            assert(splits@ =~= splits_spec_u64(height).take(i as int));
        }
    }
    proof {
        assert(splits_spec_u64(height).take(half as int) =~= splits_spec_u64(height));
    }
    splits
}

/// Calculate the nimber of a stack of height `height` given a set of rules,
/// as a bare `u64`.
///
/// `pool_coins` is the number of coins in the pool of the current player
/// (must be 0 for now). The result is the Grundy value of the height
/// ([`crate::nimbers::grundy`]).
pub fn calculate_nimber_for_height(height: u64, rules: &Vec<NimRule>, pool_coins: u64) -> (r: u64)
    requires
        pool_coins == 0,
        rules_well_formed(rules_model(rules@)),
        height < usize::MAX as u64,
    ensures
        r == crate::nimbers::grundy(rules_model(rules@), height),
{
    crate::nimbers::calculate_nimber_for_height(height, rules, pool_coins).0
}

} // verus!
