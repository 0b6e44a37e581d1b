//! The item-item similarity model.
//!
//! A score is a correlation in fixed point: an integer number of
//! millionths, from `-SCORE_ONE` for -1 to `SCORE_ONE` for 1.

use vstd::prelude::*;
use crate::buckets::{appended, bucket_of, lists_keys, order_with, Buckets};

verus! {

/// The score of a perfect correlation.
pub const SCORE_ONE: i32 = 1_000_000;

/// One item beside another, with the similarity of the two.
#[derive(Debug, Clone, Copy, PartialEq, Eq, Structural)]
pub struct Neighbor {
    pub item: u32,
    pub score: i32,
}

/// The absolute value of `x`.
pub open spec fn magnitude(x: int) -> int {
    if x < 0 {
        -x
    } else {
        x
    }
}

/// Whether `item` stands in `neighbors`.
pub open spec fn has_neighbor(neighbors: Seq<Neighbor>, item: u32) -> bool {
    exists|i: int| 0 <= i < neighbors.len() && (#[trigger] neighbors[i]).item == item
}

/// The neighbours of `item` in `model`; none where it has no entry.
pub open spec fn neighbors_of(model: Map<u32, Seq<Neighbor>>, item: u32) -> Seq<Neighbor> {
    bucket_of(model, item)
}

/// What every similarity model holds.
///
/// Scores lie between -1 and 1. No item is its own neighbour, and none
/// has the same neighbour twice. The model is symmetric: where each of
/// two items is a neighbour of the other, both carry the same score.
/// After pruning one of the two may have lost the other, so that a
/// neighbour's list need not name the item back.
pub open spec fn is_similarity_model(model: Map<u32, Seq<Neighbor>>) -> bool {
    &&& model.dom().finite()
    &&& forall|item: u32, i: int|
        model.contains_key(item) && 0 <= i < model[item].len() ==> {
            let neighbor = #[trigger] model[item][i];
            &&& -SCORE_ONE <= neighbor.score <= SCORE_ONE
            &&& neighbor.item != item
        }
    &&& forall|item: u32, i: int, j: int|
        model.contains_key(item) && 0 <= i < j < model[item].len() ==> (
        #[trigger] model[item][i]).item != (#[trigger] model[item][j]).item
    &&& forall|a: u32, b: u32, i: int, j: int|
        model.contains_key(a) && model.contains_key(b) && 0 <= i < model[a].len() && 0 <= j
            < model[b].len() && (#[trigger] model[a][i]).item == b && (
        #[trigger] model[b][j]).item == a ==> model[a][i].score == model[b][j].score
}

/// Whether the pair of `a` and `b` with the score `score` can enter
/// `model`: the two differ, the score is in range, and the model does not
/// hold the pair yet, in either direction.
pub open spec fn accepts_pair(model: Map<u32, Seq<Neighbor>>, a: u32, b: u32, score: i32) -> bool {
    &&& a != b
    &&& -SCORE_ONE <= score <= SCORE_ONE
    &&& !has_neighbor(neighbors_of(model, a), b)
    &&& !has_neighbor(neighbors_of(model, b), a)
}

/// The model with `neighbor` appended to the neighbours of `item`.
pub open spec fn with_neighbor(model: Map<u32, Seq<Neighbor>>, item: u32, neighbor: Neighbor) -> Map<
    u32,
    Seq<Neighbor>,
> {
    appended(model, item, neighbor)
}

/// The model with each of `a` and `b` made a neighbour of the other.
pub open spec fn with_pair(model: Map<u32, Seq<Neighbor>>, a: u32, b: u32, score: i32) -> Map<
    u32,
    Seq<Neighbor>,
> {
    with_neighbor(
        with_neighbor(model, a, Neighbor { item: b, score }),
        b,
        Neighbor { item: a, score },
    )
}

/// A pair that a similarity model accepts leaves it a similarity model.
pub proof fn lemma_with_pair_keeps_model(model: Map<u32, Seq<Neighbor>>, a: u32, b: u32, score: i32)
    requires
        is_similarity_model(model),
        accepts_pair(model, a, b, score),
    ensures
        is_similarity_model(with_pair(model, a, b, score)),
{
    let after = with_pair(model, a, b, score);
    let na = neighbors_of(model, a);
    let nb = neighbors_of(model, b);
    assert(after[a] == na.push(Neighbor { item: b, score }));
    assert(after[b] == nb.push(Neighbor { item: a, score }));
    assert forall|item: u32| after.contains_key(item) && item != a && item != b implies
        model.contains_key(item) && after[item] == model[item] by {}
    assert forall|item: u32, i: int| after.contains_key(item) && 0 <= i < after[item].len() implies {
        let neighbor = #[trigger] after[item][i];
        &&& -SCORE_ONE <= neighbor.score <= SCORE_ONE
        &&& neighbor.item != item
    } by {
        if item == a {
            if i < na.len() {
                assert(after[item][i] == model[a][i]);
            }
        } else if item == b {
            if i < nb.len() {
                assert(after[item][i] == model[b][i]);
            }
        } else {
            assert(after[item][i] == model[item][i]);
        }
    }
    assert forall|item: u32, i: int, j: int|
        after.contains_key(item) && 0 <= i < j < after[item].len() implies (
    #[trigger] after[item][i]).item != (#[trigger] after[item][j]).item by {
        if item == a {
            assert(after[item][i] == na[i]);
            if j < na.len() {
                assert(after[item][j] == model[a][j]);
            }
        } else if item == b {
            assert(after[item][i] == nb[i]);
            if j < nb.len() {
                assert(after[item][j] == model[b][j]);
            }
        } else {
            assert(after[item][i] == model[item][i]);
            assert(after[item][j] == model[item][j]);
        }
    }
    assert forall|x: u32, y: u32, i: int, j: int|
        after.contains_key(x) && after.contains_key(y) && 0 <= i < after[x].len() && 0 <= j
            < after[y].len() && (#[trigger] after[x][i]).item == y && (
        #[trigger] after[y][j]).item == x implies after[x][i].score == after[y][j].score by {
        let old_x = neighbors_of(model, x);
        let old_y = neighbors_of(model, y);
        if i < old_x.len() {
            assert(after[x][i] == old_x[i]);
            assert(model.contains_key(x));
        }
        if j < old_y.len() {
            assert(after[y][j] == old_y[j]);
            assert(model.contains_key(y));
        }
        if i < old_x.len() && j < old_y.len() {
            assert(model[x][i].item == y && model[y][j].item == x);
        }
    }
}

/// For each item its neighbours with their scores.
///
/// The view is the model as a map from item id to the item's neighbours.
pub struct SimilarityModel {
    neighbors: Buckets<Neighbor>,
}

impl View for SimilarityModel {
    type V = Map<u32, Seq<Neighbor>>;

    closed spec fn view(&self) -> Map<u32, Seq<Neighbor>> {
        self.neighbors@
    }
}

fn contains_neighbor(neighbors: &Vec<Neighbor>, item: u32) -> (found: bool)
    ensures
        found == has_neighbor(neighbors@, item),
{
    let mut i: usize = 0;
    while i < neighbors.len()
        invariant
            i <= neighbors.len(),
            forall|k: int| 0 <= k < i ==> (#[trigger] neighbors@[k]).item != item,
        decreases neighbors.len() - i,
    {
        if neighbors[i].item == item {
            return true;
        }
        i = i + 1;
    }
    false
}

impl SimilarityModel {
    #[verifier::type_invariant]
    spec fn well_formed(self) -> bool {
        is_similarity_model(self@)
    }

    /// A model without any item.
    pub fn new() -> (model: SimilarityModel)
        ensures
            model@ == Map::<u32, Seq<Neighbor>>::empty(),
            model.item_order() == Seq::<u32>::empty(),
    {
        SimilarityModel { neighbors: Buckets::new() }
    }

    /// The number of items that have neighbours.
    pub fn len(&self) -> (n: usize)
        ensures
            n == self@.len(),
            is_similarity_model(self@),
    {
        proof {
            use_type_invariant(self);
        }
        self.neighbors.len()
    }

    /// The neighbours of `item`, if it has any.
    pub fn neighbors(&self, item: u32) -> (found: Option<&Vec<Neighbor>>)
        ensures
            is_similarity_model(self@),
            match found {
                Some(neighbors) => self@.contains_key(item) && neighbors@ == self@[item],
                None => !self@.contains_key(item),
            },
    {
        proof {
            use_type_invariant(self);
        }
        self.neighbors.get(&item)
    }

    /// Makes each of `a` and `b` a neighbour of the other, with the score
    /// `score`, and says whether it did.
    ///
    /// Nothing is done for a pair that the model does not accept: an item
    /// with itself, a score beyond -1 or 1, or a pair that the model holds
    /// already.
    pub fn insert(&mut self, a: u32, b: u32, score: i32) -> (inserted: bool)
        ensures
            inserted == accepts_pair(old(self)@, a, b, score),
            final(self)@ == if inserted {
                with_pair(old(self)@, a, b, score)
            } else {
                old(self)@
            },
            final(self).item_order() == if inserted {
                order_with(order_with(old(self).item_order(), a), b)
            } else {
                old(self).item_order()
            },
            is_similarity_model(final(self)@),
    {
        proof {
            use_type_invariant(&*self);
        }
        let ghost before = self@;
        if a == b || score < -SCORE_ONE || score > SCORE_ONE {
            return false;
        }
        let known = match self.neighbors.get(&a) {
            Some(list) => contains_neighbor(list, b),
            None => false,
        } || match self.neighbors.get(&b) {
            Some(list) => contains_neighbor(list, a),
            None => false,
        };
        if known {
            return false;
        }
        let mut taken = SimilarityModel::new();
        core::mem::swap(self, &mut taken);
        let SimilarityModel { neighbors } = taken;
        let mut neighbors = neighbors;
        neighbors.add(a, Neighbor { item: b, score });
        neighbors.add(b, Neighbor { item: a, score });
        proof {
            lemma_with_pair_keeps_model(before, a, b, score);
        }
        *self = SimilarityModel { neighbors };
        true
    }
}

/// Whether the neighbour at `i` is stronger than the one at `j`: its
/// score is larger in magnitude, or as large and it stands earlier.
pub open spec fn outranks(neighbors: Seq<Neighbor>, i: int, j: int) -> bool {
    let a = magnitude(neighbors[i].score as int);
    let b = magnitude(neighbors[j].score as int);
    a > b || (a == b && i < j)
}

/// The neighbours at the places that `indices` names, in that order.
pub open spec fn picks(neighbors: Seq<Neighbor>, indices: Seq<int>) -> Seq<Neighbor> {
    Seq::new(indices.len(), |t: int| neighbors[indices[t]])
}

/// Whether `indices` names the places of the `k` strongest neighbours,
/// the strongest first, or of all of them where there are fewer than `k`.
pub open spec fn names_strongest(neighbors: Seq<Neighbor>, k: nat, indices: Seq<int>) -> bool {
    &&& indices.len() == if k <= neighbors.len() {
        k
    } else {
        neighbors.len()
    }
    &&& forall|t: int| 0 <= t < indices.len() ==> 0 <= #[trigger] indices[t] < neighbors.len()
    &&& forall|s: int, t: int|
        0 <= s < t < indices.len() ==> outranks(neighbors, #[trigger] indices[s], #[trigger] indices[t])
    &&& forall|t: int, j: int|
        0 <= t < indices.len() && 0 <= j < neighbors.len() && !indices.contains(j) ==> #[trigger] outranks(neighbors, indices[t], j)
}

/// Whether `kept` is what pruning to `k` leaves of `neighbors`: the `k`
/// strongest of them, the strongest first.
pub open spec fn is_pruned(neighbors: Seq<Neighbor>, k: nat, kept: Seq<Neighbor>) -> bool {
    exists|indices: Seq<int>| #[trigger]
        names_strongest(neighbors, k, indices) && kept == picks(neighbors, indices)
}

proof fn lemma_all_taken(n: nat, indices: Seq<int>)
    requires
        indices.no_duplicates(),
        forall|t: int| 0 <= t < indices.len() ==> 0 <= #[trigger] indices[t] < n,
    ensures
        indices.len() <= n,
        (forall|j: int| 0 <= j < n ==> indices.contains(j)) ==> indices.len() == n,
{
    let range = vstd::set_lib::set_int_range(0, n as int);
    vstd::set_lib::lemma_int_range(0, n as int);
    indices.unique_seq_to_set();
    assert(indices.to_set().subset_of(range)) by {
        assert forall|j: int| indices.to_set().contains(j) implies range.contains(j) by {
            let t = choose|t: int| 0 <= t < indices.len() && indices[t] == j;
        }
    }
    vstd::set_lib::lemma_len_subset(indices.to_set(), range);
    if forall|j: int| 0 <= j < n ==> indices.contains(j) {
        assert(range.subset_of(indices.to_set()));
        vstd::set_lib::lemma_len_subset(range, indices.to_set());
    }
}

fn weight(neighbor: &Neighbor) -> (w: i64)
    ensures
        w == magnitude(neighbor.score as int),
{
    if neighbor.score < 0 {
        -(neighbor.score as i64)
    } else {
        neighbor.score as i64
    }
}

/// The `k` strongest of `neighbors`, the strongest first.
///
/// Strength is the magnitude of the score. Of two neighbours with scores
/// of one magnitude the one that stands earlier is the stronger.
pub fn strongest(neighbors: &Vec<Neighbor>, k: usize) -> (kept: Vec<Neighbor>)
    ensures
        is_pruned(neighbors@, k as nat, kept@),
{
    let n = neighbors.len();
    let mut taken: Vec<bool> = Vec::new();
    while taken.len() < n
        invariant
            taken.len() <= n,
            forall|j: int| 0 <= j < taken.len() ==> !taken@[j],
        decreases n - taken.len(),
    {
        taken.push(false);
    }
    let mut kept: Vec<Neighbor> = Vec::new();
    let ghost mut indices: Seq<int> = Seq::empty();
    while kept.len() < k && kept.len() < n
        invariant
            n == neighbors.len(),
            taken.len() == n,
            kept.len() == indices.len(),
            kept.len() <= k,
            kept.len() <= n,
            forall|t: int| 0 <= t < indices.len() ==> 0 <= #[trigger] indices[t] < n && taken@[indices[t]],
            forall|j: int| 0 <= j < n && #[trigger] taken@[j] ==> indices.contains(j),
            forall|s: int, t: int|
                0 <= s < t < indices.len() ==> outranks(
                    neighbors@,
                    #[trigger] indices[s],
                    #[trigger] indices[t],
                ),
            forall|t: int, j: int|
                0 <= t < indices.len() && 0 <= j < n && !taken@[j] ==> #[trigger] outranks(neighbors@, indices[t], j),
            kept@ == picks(neighbors@, indices),
        decreases n - kept.len(),
    {
        let mut best: usize = 0;
        let mut found = false;
        let mut j: usize = 0;
        while j < n
            invariant
                j <= n,
                n == neighbors.len(),
                taken.len() == n,
                found ==> best < j && !taken@[best as int],
                found ==> forall|x: int|
                    0 <= x < j && !taken@[x] && x != best ==> outranks(neighbors@, best as int, x),
                !found ==> forall|x: int| 0 <= x < j ==> taken@[x],
            decreases n - j,
        {
            if !taken[j] {
                if !found || weight(&neighbors[j]) > weight(&neighbors[best]) {
                    best = j;
                    found = true;
                }
            }
            j = j + 1;
        }
        if !found {
            proof {
                assert(indices.no_duplicates()) by {
                    assert forall|s: int, t: int|
                        0 <= s < indices.len() && 0 <= t < indices.len() && s != t implies indices[s]
                        != indices[t] by {
                        if s < t {
                            assert(outranks(neighbors@, indices[s], indices[t]));
                        } else {
                            assert(outranks(neighbors@, indices[t], indices[s]));
                        }
                    }
                }
                assert forall|x: int| 0 <= x < n implies indices.contains(x) by {
                    assert(taken@[x]);
                }
                lemma_all_taken(n as nat, indices);
            }
            vstd::pervasive::unreached::<()>();
        }
        let ghost before = indices;
        let ghost taken_before = taken@;
        kept.push(neighbors[best]);
        taken.set(best, true);
        proof {
            indices = indices.push(best as int);
            assert(kept@ =~= picks(neighbors@, indices));
            assert forall|x: int| 0 <= x < n && #[trigger] taken@[x] implies indices.contains(x) by {
                if x == best {
                    assert(indices[before.len() as int] == x);
                } else {
                    assert(taken_before[x]);
                    let t = choose|t: int| 0 <= t < before.len() && before[t] == x;
                    assert(indices[t] == x);
                }
            }
            assert forall|s: int, t: int| 0 <= s < t < indices.len() implies outranks(
                neighbors@,
                #[trigger] indices[s],
                #[trigger] indices[t],
            ) by {
                assert(indices[s] == before[s]);
                if t < before.len() {
                    assert(indices[t] == before[t]);
                }
            }
            assert forall|t: int, x: int|
                0 <= t < indices.len() && 0 <= x < n && !taken@[x] implies #[trigger] outranks(neighbors@, indices[t], x) by {
                if t < before.len() {
                    assert(indices[t] == before[t]);
                }
            }
        }
    }
    proof {
        assert forall|t: int, j: int|
            0 <= t < indices.len() && 0 <= j < n && !indices.contains(j) implies #[trigger] outranks(neighbors@, indices[t], j) by {
            assert(!taken@[j]);
        }
        assert(names_strongest(neighbors@, k as nat, indices));
    }
    kept
}

/// Whether `after` is `before` with every item's neighbours pruned to the
/// `k` strongest.
pub open spec fn is_pruned_model(
    before: Map<u32, Seq<Neighbor>>,
    k: nat,
    after: Map<u32, Seq<Neighbor>>,
) -> bool {
    &&& forall|item: u32| before.contains_key(item) <==> after.contains_key(item)
    &&& forall|item: u32| #[trigger]
        before.contains_key(item) ==> is_pruned(before[item], k, after[item])
}

/// Pruning leaves a similarity model a similarity model: what is left of
/// an item's neighbours was there before, each of them once.
pub proof fn lemma_pruned_keeps_model(
    before: Map<u32, Seq<Neighbor>>,
    k: nat,
    after: Map<u32, Seq<Neighbor>>,
)
    requires
        is_similarity_model(before),
        is_pruned_model(before, k, after),
    ensures
        is_similarity_model(after),
{
    assert(after.dom() =~= before.dom());
    let origin = |item: u32|
        choose|indices: Seq<int>| #[trigger]
            names_strongest(before[item], k, indices) && after[item] == picks(
                before[item],
                indices,
            );
    assert forall|item: u32, i: int| after.contains_key(item) && 0 <= i < after[item].len() implies {
        let neighbor = #[trigger] after[item][i];
        &&& -SCORE_ONE <= neighbor.score <= SCORE_ONE
        &&& neighbor.item != item
    } by {
        assert(before.contains_key(item));
        let indices = origin(item);
        assert(after[item][i] == before[item][indices[i]]);
    }
    assert forall|item: u32, i: int, j: int|
        after.contains_key(item) && 0 <= i < j < after[item].len() implies (
    #[trigger] after[item][i]).item != (#[trigger] after[item][j]).item by {
        assert(before.contains_key(item));
        let indices = origin(item);
        assert(after[item][i] == before[item][indices[i]]);
        assert(after[item][j] == before[item][indices[j]]);
        assert(outranks(before[item], indices[i], indices[j]));
        if indices[i] < indices[j] {
            assert(before[item][indices[i]].item != before[item][indices[j]].item);
        } else {
            assert(before[item][indices[j]].item != before[item][indices[i]].item);
        }
    }
    assert forall|a: u32, b: u32, i: int, j: int|
        after.contains_key(a) && after.contains_key(b) && 0 <= i < after[a].len() && 0 <= j
            < after[b].len() && (#[trigger] after[a][i]).item == b && (
        #[trigger] after[b][j]).item == a implies after[a][i].score == after[b][j].score by {
        assert(before.contains_key(a) && before.contains_key(b));
        let of_a = origin(a);
        let of_b = origin(b);
        assert(after[a][i] == before[a][of_a[i]]);
        assert(after[b][j] == before[b][of_b[j]]);
    }
}

impl SimilarityModel {
    /// Prunes every item's neighbours to the `k` strongest, the strongest
    /// first.
    ///
    /// Each item is pruned by itself. Where `b` stays among the neighbours
    /// of `a`, `a` may still leave those of `b`: after pruning the model
    /// need not name both directions of a pair, but where it does, the two
    /// scores are the same as before.
    pub fn prune(&mut self, k: usize)
        ensures
            is_pruned_model(old(self)@, k as nat, final(self)@),
            final(self).item_order() == old(self).item_order(),
            is_similarity_model(final(self)@),
    {
        proof {
            use_type_invariant(&*self);
        }
        let ghost before = self@;
        let mut pruned: Buckets<Neighbor> = Buckets::new();
        let items = self.neighbors.keys();
        let mut p: usize = 0;
        while p < items.len()
            invariant
                p <= items.len(),
                before == self.neighbors@,
                lists_keys(items@, before),
                items@ == self.neighbors.key_order(),
                pruned.key_order() == items@.take(p as int),
                forall|item: u32|
                    pruned@.contains_key(item) <==> items@.take(p as int).contains(item),
                forall|item: u32| #[trigger]
                    pruned@.contains_key(item) ==> is_pruned(before[item], k as nat, pruned@[item]),
            decreases items.len() - p,
        {
            let item = items[p];
            assert(items@.contains(item));
            let list = match self.neighbors.get(&item) {
                Some(list) => list,
                None => vstd::pervasive::unreached(),
            };
            let kept = strongest(list, k);
            let ghost so_far = pruned@;
            pruned.set(item, kept);
            proof {
                assert(items@.take(p + 1) =~= items@.take(p as int).push(item));
                assert(!items@.take(p as int).contains(item)) by {
                    if items@.take(p as int).contains(item) {
                        let t = choose|t: int| 0 <= t < p && items@.take(p as int)[t] == item;
                        assert(items@[t] == items@[p as int]);
                    }
                }
                assert forall|other: u32|
                    pruned@.contains_key(other) <==> items@.take(p + 1).contains(other) by {
                    let front = items@.take(p as int);
                    if front.contains(other) {
                        let t = choose|t: int| 0 <= t < front.len() && front[t] == other;
                        assert(front.push(item)[t] == other);
                    }
                    if other == item {
                        assert(front.push(item)[front.len() as int] == other);
                    }
                }
                assert forall|other: u32| #[trigger] pruned@.contains_key(other) implies is_pruned(
                    before[other],
                    k as nat,
                    pruned@[other],
                ) by {
                    if other != item {
                        assert(so_far.contains_key(other));
                    }
                }
            }
            p = p + 1;
        }
        proof {
            assert(items@.take(items.len() as int) =~= items@);
            assert forall|item: u32| before.contains_key(item) <==> pruned@.contains_key(
                item,
            ) by {
                assert(items@.contains(item) <==> before.contains_key(item));
            }
            assert forall|item: u32| #[trigger] before.contains_key(item) implies is_pruned(
                before[item],
                k as nat,
                pruned@[item],
            ) by {
                assert(pruned@.contains_key(item));
            }
            lemma_pruned_keeps_model(before, k as nat, pruned@);
        }
        *self = SimilarityModel { neighbors: pruned };
    }
}

/// Whether `list` can enter `model` as the neighbours of `item`: the item
/// has none yet, and with the list the model is still a similarity model.
pub open spec fn accepts_list(model: Map<u32, Seq<Neighbor>>, item: u32, list: Seq<Neighbor>) -> bool {
    !model.contains_key(item) && is_similarity_model(model.insert(item, list))
}

/// Whether the neighbours of `list` agree with `model` on the score of
/// `item`: wherever a neighbour names `item` back, it does so with the
/// score that `list` gives it.
spec fn agrees_with(model: Map<u32, Seq<Neighbor>>, item: u32, list: Seq<Neighbor>) -> bool {
    forall|i: int, j: int|
        0 <= i < list.len() && 0 <= j < neighbors_of(model, (#[trigger] list[i]).item).len() && (
        #[trigger] neighbors_of(model, list[i].item)[j]).item == item ==> neighbors_of(
            model,
            list[i].item,
        )[j].score == list[i].score
}

/// Whether `list` could be the neighbours of `item`: its scores lie
/// between -1 and 1, it does not name `item`, and it names no item twice.
spec fn is_neighbor_list(item: u32, list: Seq<Neighbor>) -> bool {
    &&& forall|i: int|
        0 <= i < list.len() ==> -SCORE_ONE <= (#[trigger] list[i]).score <= SCORE_ONE && list[i].item
            != item
    &&& forall|i: int, j: int|
        0 <= i < j < list.len() ==> (#[trigger] list[i]).item != (#[trigger] list[j]).item
}

proof fn lemma_accepts_list(model: Map<u32, Seq<Neighbor>>, item: u32, list: Seq<Neighbor>)
    requires
        is_similarity_model(model),
        !model.contains_key(item),
    ensures
        accepts_list(model, item, list) <==> is_neighbor_list(item, list) && agrees_with(
            model,
            item,
            list,
        ),
{
    let after = model.insert(item, list);
    if is_similarity_model(after) {
        assert(is_neighbor_list(item, list)) by {
            assert forall|i: int| 0 <= i < list.len() implies -SCORE_ONE <= (#[trigger] list[i]).score
                <= SCORE_ONE && list[i].item != item by {
                assert(after[item][i] == list[i]);
            }
            assert forall|i: int, j: int| 0 <= i < j < list.len() implies (#[trigger] list[i]).item
                != (#[trigger] list[j]).item by {
                assert(after[item][i] == list[i]);
                assert(after[item][j] == list[j]);
            }
        }
        assert(agrees_with(model, item, list)) by {
            assert forall|i: int, j: int|
                0 <= i < list.len() && 0 <= j < neighbors_of(model, (#[trigger] list[i]).item).len()
                    && (#[trigger] neighbors_of(model, list[i].item)[j]).item == item implies neighbors_of(
                model,
                list[i].item,
            )[j].score == list[i].score by {
                let other = list[i].item;
                assert(model.contains_key(other));
                assert(after[item][i] == list[i]);
                assert(after[other][j] == model[other][j]);
            }
        }
    }
    if is_neighbor_list(item, list) && agrees_with(model, item, list) {
        assert forall|x: u32, i: int| after.contains_key(x) && 0 <= i < after[x].len() implies {
            let neighbor = #[trigger] after[x][i];
            &&& -SCORE_ONE <= neighbor.score <= SCORE_ONE
            &&& neighbor.item != x
        } by {
            if x == item {
                assert(after[x][i] == list[i]);
            } else {
                assert(after[x][i] == model[x][i]);
            }
        }
        assert forall|x: u32, i: int, j: int|
            after.contains_key(x) && 0 <= i < j < after[x].len() implies (
        #[trigger] after[x][i]).item != (#[trigger] after[x][j]).item by {
            if x == item {
                assert(after[x][i] == list[i] && after[x][j] == list[j]);
            } else {
                assert(after[x][i] == model[x][i] && after[x][j] == model[x][j]);
            }
        }
        assert forall|a: u32, b: u32, i: int, j: int|
            after.contains_key(a) && after.contains_key(b) && 0 <= i < after[a].len() && 0 <= j
                < after[b].len() && (#[trigger] after[a][i]).item == b && (
            #[trigger] after[b][j]).item == a implies after[a][i].score == after[b][j].score by {
            if a == item && b == item {
                assert(after[a][i] == list[i]);
            } else if a == item {
                assert(after[a][i] == list[i]);
                assert(neighbors_of(model, list[i].item)[j] == after[b][j]);
            } else if b == item {
                assert(after[b][j] == list[j]);
                assert(neighbors_of(model, list[j].item)[i] == after[a][i]);
            } else {
                assert(after[a][i] == model[a][i] && after[b][j] == model[b][j]);
            }
        }
    }
}

fn check_list(item: u32, list: &Vec<Neighbor>) -> (valid: bool)
    ensures
        valid == is_neighbor_list(item, list@),
{
    let mut i: usize = 0;
    while i < list.len()
        invariant
            i <= list.len(),
            is_neighbor_list(item, list@.take(i as int)),
        decreases list.len() - i,
    {
        let neighbor = list[i];
        let ghost front = list@.take(i as int);
        let ghost next = list@.take(i + 1);
        if neighbor.score < -SCORE_ONE || neighbor.score > SCORE_ONE || neighbor.item == item {
            assert(list@[i as int] == neighbor);
            return false;
        }
        let mut j: usize = 0;
        while j < i
            invariant
                j <= i < list.len(),
                neighbor == list@[i as int],
                forall|k: int| 0 <= k < j ==> (#[trigger] list@[k]).item != neighbor.item,
            decreases i - j,
        {
            if list[j].item == neighbor.item {
                assert(list@[j as int].item == list@[i as int].item);
                return false;
            }
            j = j + 1;
        }
        proof {
            assert forall|k: int| 0 <= k < next.len() implies -SCORE_ONE <= (#[trigger] next[k]).score
                <= SCORE_ONE && next[k].item != item by {
                if k < i {
                    assert(next[k] == front[k]);
                }
            }
            assert forall|k: int, l: int| 0 <= k < l < next.len() implies (#[trigger] next[k]).item
                != (#[trigger] next[l]).item by {
                assert(next[k] == list@[k]);
                if l < i {
                    assert(next[k] == front[k] && next[l] == front[l]);
                }
            }
        }
        i = i + 1;
    }
    assert(list@.take(list.len() as int) =~= list@);
    true
}

fn names_back_with(back: &Vec<Neighbor>, item: u32, score: i32) -> (agrees: bool)
    ensures
        agrees == forall|k: int|
            0 <= k < back@.len() && (#[trigger] back@[k]).item == item ==> back@[k].score == score,
{
    let mut j: usize = 0;
    while j < back.len()
        invariant
            j <= back.len(),
            forall|k: int| 0 <= k < j && (#[trigger] back@[k]).item == item ==> back@[k].score == score,
        decreases back.len() - j,
    {
        if back[j].item == item && back[j].score != score {
            return false;
        }
        j = j + 1;
    }
    true
}

fn check_agreement(neighbors: &Buckets<Neighbor>, item: u32, list: &Vec<Neighbor>) -> (agrees: bool)
    ensures
        agrees == agrees_with(neighbors@, item, list@),
{
    let mut i: usize = 0;
    while i < list.len()
        invariant
            i <= list.len(),
            agrees_with(neighbors@, item, list@.take(i as int)),
        decreases list.len() - i,
    {
        let neighbor = list[i];
        let ghost front = list@.take(i as int);
        let ghost next = list@.take(i + 1);
        let agrees = match neighbors.get(&neighbor.item) {
            Some(back) => names_back_with(back, item, neighbor.score),
            None => true,
        };
        if !agrees {
            proof {
                let back = neighbors_of(neighbors@, neighbor.item);
                let k = choose|k: int|
                    0 <= k < back.len() && (#[trigger] back[k]).item == item && back[k].score
                        != neighbor.score;
                assert(list@[i as int] == neighbor);
                assert(neighbors_of(neighbors@, list@[i as int].item)[k].item == item);
            }
            return false;
        }
        proof {
            assert forall|k: int, l: int|
                0 <= k < next.len() && 0 <= l < neighbors_of(
                    neighbors@,
                    (#[trigger] next[k]).item,
                ).len() && (#[trigger] neighbors_of(neighbors@, next[k].item)[l]).item
                    == item implies neighbors_of(neighbors@, next[k].item)[l].score
                == next[k].score by {
                if k < i {
                    assert(next[k] == front[k]);
                } else {
                    assert(next[k] == neighbor);
                }
            }
        }
        i = i + 1;
    }
    assert(list@.take(list.len() as int) =~= list@);
    true
}

impl SimilarityModel {
    /// The items of the model, each once, in the order in which they
    /// entered it.
    pub closed spec fn item_order(&self) -> Seq<u32> {
        self.neighbors.key_order()
    }

    /// The items of the model, each once, in the order in which they
    /// entered it.
    pub fn items(&self) -> (items: &Vec<u32>)
        ensures
            items@ == self.item_order(),
            lists_keys(items@, self@),
            is_similarity_model(self@),
    {
        proof {
            use_type_invariant(self);
        }
        self.neighbors.keys()
    }

    /// Makes `list` the neighbours of `item`, and says whether it did.
    ///
    /// Nothing is done for a list that the model does not accept: one for
    /// an item that has neighbours already, or one with which the model
    /// would no longer be a similarity model.
    pub fn add_list(&mut self, item: u32, list: Vec<Neighbor>) -> (added: bool)
        ensures
            added == accepts_list(old(self)@, item, list@),
            final(self)@ == if added {
                old(self)@.insert(item, list@)
            } else {
                old(self)@
            },
            final(self).item_order() == if added {
                old(self).item_order().push(item)
            } else {
                old(self).item_order()
            },
            is_similarity_model(final(self)@),
    {
        proof {
            use_type_invariant(&*self);
        }
        let ghost before = self@;
        if self.neighbors.get(&item).is_some() {
            return false;
        }
        let items = self.neighbors.keys();
        proof {
            lemma_accepts_list(before, item, list@);
            assert(!items@.contains(item));
        }
        if !check_list(item, &list) || !check_agreement(&self.neighbors, item, &list) {
            return false;
        }
        let mut taken = SimilarityModel::new();
        core::mem::swap(self, &mut taken);
        let SimilarityModel { neighbors } = taken;
        let mut neighbors = neighbors;
        neighbors.set(item, list);
        *self = SimilarityModel { neighbors };
        true
    }
}

/// No item of a similarity model has more neighbours than a 32-bit count
/// can hold: its neighbours are different items, none of them the item
/// itself.
pub proof fn lemma_neighbors_fit(model: Map<u32, Seq<Neighbor>>, item: u32)
    requires
        is_similarity_model(model),
        model.contains_key(item),
    ensures
        model[item].len() <= 0xffff_ffff,
{
    let list = model[item];
    let ids = Seq::new(list.len(), |i: int| list[i].item as int);
    assert(ids.no_duplicates()) by {
        assert forall|i: int, j: int| 0 <= i < ids.len() && 0 <= j < ids.len() && i != j implies ids[i]
            != ids[j] by {
            if i < j {
                assert(model[item][i].item != model[item][j].item);
            } else {
                assert(model[item][j].item != model[item][i].item);
            }
        }
    }
    ids.unique_seq_to_set();
    let range = vstd::set_lib::set_int_range(0, 0x1_0000_0000);
    vstd::set_lib::lemma_int_range(0, 0x1_0000_0000);
    assert(ids.to_set().subset_of(range)) by {
        assert forall|id: int| ids.to_set().contains(id) implies range.contains(id) by {
            let i = choose|i: int| 0 <= i < ids.len() && ids[i] == id;
        }
    }
    assert(!ids.to_set().contains(item as int)) by {
        if ids.to_set().contains(item as int) {
            let i = choose|i: int| 0 <= i < ids.len() && ids[i] == item as int;
            assert(model[item][i].item != item);
        }
    }
    ids.to_set().lemma_subset_not_in_lt(range, item as int);
}

} // verus!
