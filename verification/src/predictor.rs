//! Rating estimates from the similarity model.

use std::collections::HashMap;
use vstd::prelude::*;
use crate::model::{magnitude, neighbors_of, Neighbor, SimilarityModel};

verus! {

broadcast use vstd::std_specs::hash::group_hash_axioms;

/// The sum of `score * rating` over the neighbours that have a rating in
/// `profile`.
pub open spec fn weighted_sum(neighbors: Seq<Neighbor>, profile: Map<u32, u32>) -> int
    decreases neighbors.len(),
{
    if neighbors.len() == 0 {
        0
    } else {
        let last = neighbors.last();
        weighted_sum(neighbors.drop_last(), profile) + if profile.contains_key(last.item) {
            last.score * profile[last.item]
        } else {
            0
        }
    }
}

/// The sum of the scores' magnitudes over the neighbours that have a
/// rating in `profile`.
pub open spec fn total_weight(neighbors: Seq<Neighbor>, profile: Map<u32, u32>) -> int
    decreases neighbors.len(),
{
    if neighbors.len() == 0 {
        0
    } else {
        let last = neighbors.last();
        total_weight(neighbors.drop_last(), profile) + if profile.contains_key(last.item) {
            magnitude(last.score as int)
        } else {
            0
        }
    }
}

/// The quotient of `numerator` by the positive `denominator`, rounded
/// towards zero.
pub open spec fn quotient_towards_zero(numerator: int, denominator: int) -> int {
    if numerator >= 0 {
        numerator / denominator
    } else {
        -((-numerator) / denominator)
    }
}

/// The estimate for `item`: the average of the profile's ratings of the
/// item's neighbours, each weighted with its score, over the sum of the
/// scores' magnitudes. There is none where that sum is zero, as it is
/// where no neighbour of the item has a rating in the profile.
pub open spec fn estimate(model: Map<u32, Seq<Neighbor>>, profile: Map<u32, u32>, item: u32) -> Option<
    int,
> {
    let neighbors = neighbors_of(model, item);
    let weight = total_weight(neighbors, profile);
    if weight == 0 {
        None
    } else {
        Some(quotient_towards_zero(weighted_sum(neighbors, profile), weight))
    }
}

proof fn lemma_sums_bounded(neighbors: Seq<Neighbor>, profile: Map<u32, u32>)
    ensures
        0 <= total_weight(neighbors, profile) <= neighbors.len() * 0x8000_0000,
        magnitude(weighted_sum(neighbors, profile)) <= total_weight(neighbors, profile)
            * 0xffff_ffff,
    decreases neighbors.len(),
{
    if neighbors.len() > 0 {
        let last = neighbors.last();
        lemma_sums_bounded(neighbors.drop_last(), profile);
        if profile.contains_key(last.item) {
            let score = last.score as int;
            let rating = profile[last.item] as int;
            assert(magnitude(score * rating) <= magnitude(score) * 0xffff_ffff)
                by (nonlinear_arith)
                requires
                    0 <= rating <= 0xffff_ffff,
            ;
        }
    }
}

/// Predicts the rating of `item` from the ratings in `profile`.
///
/// The estimate is in the unit of the profile's ratings and is rounded
/// towards zero. `None` says that there is not enough to go by: the item
/// has no neighbour with a rating in the profile, or only neighbours
/// whose scores are zero.
pub fn predict(model: &SimilarityModel, profile: &HashMap<u32, u32>, item: u32) -> (result: Option<
    i64,
>)
    ensures
        match estimate(model@, profile@, item) {
            Some(rating) => result == Some(rating as i64) && -0xffff_ffff <= rating <= 0xffff_ffff,
            None => result is None,
        },
{
    let neighbors = match model.neighbors(item) {
        Some(neighbors) => neighbors,
        None => {
            return None;
        },
    };
    let mut sum: i128 = 0;
    let mut weight: i128 = 0;
    let mut i: usize = 0;
    assert(neighbors@.take(0) =~= Seq::<Neighbor>::empty());
    while i < neighbors.len()
        invariant
            i <= neighbors.len(),
            sum == weighted_sum(neighbors@.take(i as int), profile@),
            weight == total_weight(neighbors@.take(i as int), profile@),
        decreases neighbors.len() - i,
    {
        let neighbor = neighbors[i];
        proof {
            let next = neighbors@.take(i + 1);
            assert(next.drop_last() =~= neighbors@.take(i as int));
            assert(next.last() == neighbor);
            lemma_sums_bounded(next, profile@);
            assert(next.len() * 0x8000_0000 <= 0xffff_ffff_ffff_ffff * 0x8000_0000)
                by (nonlinear_arith)
                requires
                    next.len() <= 0xffff_ffff_ffff_ffff,
            ;
            assert(total_weight(next, profile@) * 0xffff_ffff <= 0xffff_ffff_ffff_ffff
                * 0x8000_0000 * 0xffff_ffff) by (nonlinear_arith)
                requires
                    total_weight(next, profile@) <= 0xffff_ffff_ffff_ffff * 0x8000_0000,
            ;
        }
        match profile.get(&neighbor.item) {
            Some(rating) => {
                let score = neighbor.score as i128;
                assert(magnitude(score * (*rating as int)) <= 0x8000_0000 * 0xffff_ffff)
                    by (nonlinear_arith)
                    requires
                        -0x8000_0000 <= score <= 0x7fff_ffff,
                        0 <= *rating <= 0xffff_ffff,
                ;
                sum = sum + score * (*rating as i128);
                weight = weight + if score < 0 {
                    -score
                } else {
                    score
                };
            },
            None => {},
        }
        i = i + 1;
    }
    assert(neighbors@.take(neighbors.len() as int) =~= neighbors@);
    proof {
        lemma_sums_bounded(neighbors@, profile@);
    }
    if weight == 0 {
        return None;
    }
    let size: u128 = if sum < 0 {
        (-sum) as u128
    } else {
        sum as u128
    };
    let quotient = size / (weight as u128);
    assert(quotient <= 0xffff_ffff) by (nonlinear_arith)
        requires
            quotient == size / (weight as u128),
            size <= weight * 0xffff_ffff,
            weight > 0,
    ;
    if sum < 0 {
        Some(-(quotient as i64))
    } else {
        Some(quotient as i64)
    }
}

} // verus!
