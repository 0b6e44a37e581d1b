//! Pearson correlation in fixed point.
//!
//! Ratings enter as millionths, rounded down, and the score leaves as
//! millionths, rounded towards zero. All sums are exact integers; the
//! only roundings are those of the ratings, of the two square roots and
//! of the final quotient.

use vstd::prelude::*;
use crate::cf::Rating;
use crate::model::{magnitude, SCORE_ONE};
use crate::predictor::quotient_towards_zero;
use crate::similarity::SharedRating;

verus! {

/// Whether `r` is the largest integer whose square is at most `v`.
pub open spec fn is_floor_sqrt(v: nat, r: nat) -> bool {
    r * r <= v < (r + 1) * (r + 1)
}

/// The largest integer whose square is at most `v`.
pub open spec fn floor_sqrt(v: nat) -> nat {
    choose|r: nat| is_floor_sqrt(v, r)
}

/// A number whose square is at most `v`, while the square of the next
/// number is more than `v`, is the floor of the square root of `v`.
pub proof fn lemma_floor_sqrt_is(v: nat, r: nat)
    requires
        is_floor_sqrt(v, r),
    ensures
        floor_sqrt(v) == r,
{
    let s = floor_sqrt(v);
    assert(is_floor_sqrt(v, s));
    assert(s == r) by (nonlinear_arith)
        requires
            r * r <= v < (r + 1) * (r + 1),
            s * s <= v < (s + 1) * (s + 1),
    ;
}

/// The floor of the square root of `v`.
pub fn integer_sqrt(v: u128) -> (r: u128)
    ensures
        r == floor_sqrt(v as nat),
        r * r <= v,
        r < 0x1_0000_0000_0000_0000,
{
    let mut low: u128 = 0;
    let mut high: u128 = 0x1_0000_0000_0000_0000;
    assert(0x1_0000_0000_0000_0000u128 * 0x1_0000_0000_0000_0000u128 > v) by (nonlinear_arith);
    while high - low > 1
        invariant
            low < high <= 0x1_0000_0000_0000_0000,
            low * low <= v < high * high,
        decreases high - low,
    {
        let middle = low + (high - low) / 2;
        assert(middle * middle <= 0xffff_ffff_ffff_ffff * 0xffff_ffff_ffff_ffff)
            by (nonlinear_arith)
            requires
                middle <= 0xffff_ffff_ffff_ffff,
        ;
        if middle * middle <= v {
            low = middle;
        } else {
            high = middle;
        }
    }
    proof {
        assert(high == low + 1);
        lemma_floor_sqrt_is(v as nat, low as nat);
    }
    low
}

/// The rating in millionths, rounded down.
pub open spec fn millionths(rating: Rating) -> nat {
    (rating.wins as nat * 1_000_000) / (rating.battles as nat)
}

/// The sums over a sequence of paired ratings, each rating taken in
/// millionths, that the correlation is made of.
pub ghost struct Moments {
    /// The number of pairs.
    pub count: nat,
    /// The sum of the first ratings.
    pub sum_1: nat,
    /// The sum of the second ratings.
    pub sum_2: nat,
    /// The sum of the squares of the first ratings.
    pub squares_1: nat,
    /// The sum of the squares of the second ratings.
    pub squares_2: nat,
    /// The sum of the products of the two ratings of a pair.
    pub products: nat,
}

/// The sums `before` with one more pair taken in.
pub open spec fn with_ratings(before: Moments, pair: SharedRating) -> Moments {
    let x = millionths(pair.first);
    let y = millionths(pair.second);
    Moments {
        count: before.count + 1,
        sum_1: before.sum_1 + x,
        sum_2: before.sum_2 + y,
        squares_1: before.squares_1 + x * x,
        squares_2: before.squares_2 + y * y,
        products: before.products + x * y,
    }
}

/// The sums over `pairs`.
pub open spec fn moments(pairs: Seq<SharedRating>) -> Moments
    decreases pairs.len(),
{
    if pairs.len() == 0 {
        Moments { count: 0, sum_1: 0, sum_2: 0, squares_1: 0, squares_2: 0, products: 0 }
    } else {
        with_ratings(moments(pairs.drop_last()), pairs.last())
    }
}

/// The cross sum less the product of the two sums over the count, times
/// the count: `count` squared times the covariance.
pub open spec fn covariance(m: Moments) -> int {
    m.count * m.products - m.sum_1 * m.sum_2
}

/// The sum of squares less the square of the sum over the count, times the
/// count, and zero where that is negative: `count` squared times the
/// variance of the first ratings.
pub open spec fn scatter_1(m: Moments) -> nat {
    let v = m.count * m.squares_1 - m.sum_1 * m.sum_1;
    if v < 0 {
        0
    } else {
        v as nat
    }
}

/// As `scatter_1`, of the second ratings.
pub open spec fn scatter_2(m: Moments) -> nat {
    let v = m.count * m.squares_2 - m.sum_2 * m.sum_2;
    if v < 0 {
        0
    } else {
        v as nat
    }
}

/// The product of the square roots of the two scatters, each rounded
/// down: what the covariance is divided by.
pub open spec fn denominator(m: Moments) -> nat {
    floor_sqrt(scatter_1(m)) * floor_sqrt(scatter_2(m))
}

/// Whether the sums are within what the arithmetic can hold: none of the
/// products that the correlation is made of exceeds 127 bits.
pub open spec fn fits(m: Moments) -> bool {
    &&& m.count * m.squares_1 <= i128::MAX
    &&& m.count * m.squares_2 <= i128::MAX
    &&& m.count * m.products <= i128::MAX
    &&& m.sum_1 * m.sum_1 <= i128::MAX
    &&& m.sum_2 * m.sum_2 <= i128::MAX
    &&& m.sum_1 * m.sum_2 <= i128::MAX
    &&& magnitude(covariance(m)) * 1_000_000 <= i128::MAX
}

/// `score` brought into the range from -1 to 1.
pub open spec fn clamped(score: int) -> int {
    if score > SCORE_ONE {
        SCORE_ONE as int
    } else if score < -SCORE_ONE {
        -SCORE_ONE
    } else {
        score
    }
}

/// The correlation of the two ratings over the pairs, in millionths.
///
/// It is zero where there is no pair, and where the denominator, taken
/// per pair, is below a millionth: the ratings of one side hardly vary
/// then, and no correlation can be measured.
pub open spec fn correlation(m: Moments) -> int {
    if m.count == 0 || denominator(m) < m.count * 1_000_000 {
        0
    } else {
        clamped(quotient_towards_zero(covariance(m) * 1_000_000, denominator(m) as int))
    }
}

/// The score of `pairs`: their correlation, where the sums are within
/// what the arithmetic can hold.
pub open spec fn pearson_score(pairs: Seq<SharedRating>) -> Option<int> {
    if fits(moments(pairs)) {
        Some(correlation(moments(pairs)))
    } else {
        None
    }
}

/// Whether every rating in `pairs` has a battle behind it.
pub open spec fn are_defined(pairs: Seq<SharedRating>) -> bool {
    forall|i: int|
        0 <= i < pairs.len() ==> (#[trigger] pairs[i]).first.battles > 0 && pairs[i].second.battles
            > 0
}

proof fn lemma_moments_grow(pairs: Seq<SharedRating>, i: int)
    requires
        0 <= i <= pairs.len(),
    ensures
        moments(pairs.take(i)).count == i,
        moments(pairs.take(i)).squares_1 <= moments(pairs).squares_1,
        moments(pairs.take(i)).squares_2 <= moments(pairs).squares_2,
        moments(pairs.take(i)).products <= moments(pairs).products,
    decreases pairs.len() - i,
{
    if i == pairs.len() {
        assert(pairs.take(i) =~= pairs);
        lemma_moments_count(pairs);
    } else {
        lemma_moments_grow(pairs, i + 1);
        assert(pairs.take(i + 1).drop_last() =~= pairs.take(i));
    }
}

proof fn lemma_moments_count(pairs: Seq<SharedRating>)
    ensures
        moments(pairs).count == pairs.len(),
    decreases pairs.len(),
{
    if pairs.len() > 0 {
        lemma_moments_count(pairs.drop_last());
    }
}

fn rating_value(rating: Rating) -> (x: u64)
    requires
        rating.battles > 0,
    ensures
        x == millionths(rating),
        x <= 4_294_967_295_000_000,
{
    let scaled = (rating.wins as u64) * 1_000_000;
    let x = scaled / (rating.battles as u64);
    assert(x <= scaled) by (nonlinear_arith)
        requires
            x == scaled / (rating.battles as u64),
            rating.battles > 0,
    ;
    x
}

struct Sums {
    count: i128,
    sum_1: i128,
    sum_2: i128,
    squares_1: i128,
    squares_2: i128,
    products: i128,
}

impl Sums {
    spec fn holds(self, m: Moments) -> bool {
        &&& self.count == m.count
        &&& self.sum_1 == m.sum_1
        &&& self.sum_2 == m.sum_2
        &&& self.squares_1 == m.squares_1
        &&& self.squares_2 == m.squares_2
        &&& self.products == m.products
    }
}

fn sum_up(pairs: &Vec<SharedRating>) -> (result: Option<Sums>)
    requires
        are_defined(pairs@),
    ensures
        match result {
            Some(sums) => sums.holds(moments(pairs@)),
            None => {
                let m = moments(pairs@);
                m.count >= 1 && (m.squares_1 > i128::MAX || m.squares_2 > i128::MAX || m.products
                    > i128::MAX)
            },
        },
{
    let mut sums = Sums { count: 0, sum_1: 0, sum_2: 0, squares_1: 0, squares_2: 0, products: 0 };
    let mut i: usize = 0;
    assert(pairs@.take(0) =~= Seq::<SharedRating>::empty());
    while i < pairs.len()
        invariant
            i <= pairs.len(),
            are_defined(pairs@),
            sums.holds(moments(pairs@.take(i as int))),
            sums.count == i,
            sums.sum_1 <= i * 4_294_967_295_000_000,
            sums.sum_2 <= i * 4_294_967_295_000_000,
        decreases pairs.len() - i,
    {
        let pair = pairs[i];
        let x = rating_value(pair.first) as i128;
        let y = rating_value(pair.second) as i128;
        proof {
            assert(pairs@.take(i + 1).drop_last() =~= pairs@.take(i as int));
            assert(pairs@.take(i + 1).last() == pair);
            lemma_moments_grow(pairs@, i + 1);
            assert(x * x <= (0xffff_ffff * 1_000_000) * (0xffff_ffff * 1_000_000) && x * y <= (
            0xffff_ffff * 1_000_000) * (0xffff_ffff * 1_000_000) && y * y <= (0xffff_ffff
                * 1_000_000) * (0xffff_ffff * 1_000_000)) by (nonlinear_arith)
                requires
                    0 <= x <= 0xffff_ffff * 1_000_000,
                    0 <= y <= 0xffff_ffff * 1_000_000,
            ;
            assert(x * x >= 0 && x * y >= 0 && y * y >= 0) by (nonlinear_arith)
                requires
                    0 <= x,
                    0 <= y,
            ;
        }
        let squares_1 = match sums.squares_1.checked_add(x * x) {
            Some(v) => v,
            None => {
                return None;
            },
        };
        let squares_2 = match sums.squares_2.checked_add(y * y) {
            Some(v) => v,
            None => {
                return None;
            },
        };
        let products = match sums.products.checked_add(x * y) {
            Some(v) => v,
            None => {
                return None;
            },
        };
        sums = Sums {
            count: sums.count + 1,
            sum_1: sums.sum_1 + x,
            sum_2: sums.sum_2 + y,
            squares_1,
            squares_2,
            products,
        };
        i = i + 1;
    }
    assert(pairs@.take(pairs.len() as int) =~= pairs@);
    Some(sums)
}

/// The Pearson correlation of the two ratings over `pairs`, in
/// millionths.
///
/// `None` says that the sums are beyond what the arithmetic can hold, as
/// they can only be with a great many pairs of ratings far above one.
pub fn pearson(pairs: &Vec<SharedRating>) -> (score: Option<i32>)
    requires
        are_defined(pairs@),
    ensures
        match pearson_score(pairs@) {
            Some(expected) => score == Some(expected as i32) && -SCORE_ONE <= expected
                <= SCORE_ONE,
            None => score is None,
        },
{
    let ghost m = moments(pairs@);
    proof {
        lemma_moments_count(pairs@);
    }
    let sums = match sum_up(pairs) {
        Some(sums) => sums,
        None => {
            proof {
                assert(m.count * m.squares_1 >= m.squares_1 && m.count * m.squares_2
                    >= m.squares_2 && m.count * m.products >= m.products) by (nonlinear_arith)
                    requires
                        m.count >= 1,
                ;
            }
            return None;
        },
    };
    let cross = match sums.count.checked_mul(sums.products) {
        Some(v) => v,
        None => {
            return None;
        },
    };
    let both = match sums.sum_1.checked_mul(sums.sum_2) {
        Some(v) => v,
        None => {
            return None;
        },
    };
    let spread_1 = match sums.count.checked_mul(sums.squares_1) {
        Some(v) => v,
        None => {
            return None;
        },
    };
    let square_1 = match sums.sum_1.checked_mul(sums.sum_1) {
        Some(v) => v,
        None => {
            return None;
        },
    };
    let spread_2 = match sums.count.checked_mul(sums.squares_2) {
        Some(v) => v,
        None => {
            return None;
        },
    };
    let square_2 = match sums.sum_2.checked_mul(sums.sum_2) {
        Some(v) => v,
        None => {
            return None;
        },
    };
    proof {
        assert(m.count * m.products >= 0 && m.sum_1 * m.sum_2 >= 0 && m.count * m.squares_1 >= 0
            && m.sum_1 * m.sum_1 >= 0 && m.count * m.squares_2 >= 0 && m.sum_2 * m.sum_2 >= 0)
            by (nonlinear_arith);
    }
    let difference = cross - both;
    let size: i128 = if difference < 0 {
        -difference
    } else {
        difference
    };
    let scaled = match size.checked_mul(1_000_000) {
        Some(v) => v,
        None => {
            return None;
        },
    };
    assert(fits(m));
    let scatter_1: u128 = if spread_1 < square_1 {
        0
    } else {
        (spread_1 - square_1) as u128
    };
    let scatter_2: u128 = if spread_2 < square_2 {
        0
    } else {
        (spread_2 - square_2) as u128
    };
    let root_1 = integer_sqrt(scatter_1);
    let root_2 = integer_sqrt(scatter_2);
    assert(root_1 * root_2 <= 0xffff_ffff_ffff_ffff * 0xffff_ffff_ffff_ffff) by (nonlinear_arith)
        requires
            root_1 <= 0xffff_ffff_ffff_ffff,
            root_2 <= 0xffff_ffff_ffff_ffff,
    ;
    let below = root_1 * root_2;
    assert(below == denominator(m));
    let count = pairs.len() as u128;
    if count == 0 || below < count * 1_000_000 {
        return Some(0);
    }
    let quotient = (scaled as u128) / below;
    let bounded: i32 = if quotient > 1_000_000 {
        1_000_000
    } else {
        quotient as i32
    };
    if difference < 0 {
        Some(-bounded)
    } else {
        Some(bounded)
    }
}

/// Every number has a square root rounded down.
pub proof fn lemma_floor_sqrt_exists(v: nat)
    ensures
        is_floor_sqrt(v, floor_sqrt(v)),
    decreases v,
{
    if v == 0 {
        assert(0nat * 0nat <= 0nat < (0nat + 1) * (0nat + 1)) by (nonlinear_arith);
        assert(is_floor_sqrt(0, 0));
    } else {
        lemma_floor_sqrt_exists((v - 1) as nat);
        let r = floor_sqrt((v - 1) as nat);
        if (r + 1) * (r + 1) <= v {
            assert((r + 2) * (r + 2) > v) by (nonlinear_arith)
                requires
                    (r + 1) * (r + 1) > v - 1,
            ;
            assert(is_floor_sqrt(v, r + 1));
        } else {
            assert(is_floor_sqrt(v, r));
        }
    }
}

/// The pairs with the two ratings of each changed over.
pub open spec fn swapped(pairs: Seq<SharedRating>) -> Seq<SharedRating> {
    Seq::new(
        pairs.len(),
        |i: int|
            SharedRating {
                account_id: pairs[i].account_id,
                first: pairs[i].second,
                second: pairs[i].first,
            },
    )
}

proof fn lemma_moments_swapped(pairs: Seq<SharedRating>)
    ensures
        moments(swapped(pairs)) == (Moments {
            count: moments(pairs).count,
            sum_1: moments(pairs).sum_2,
            sum_2: moments(pairs).sum_1,
            squares_1: moments(pairs).squares_2,
            squares_2: moments(pairs).squares_1,
            products: moments(pairs).products,
        }),
    decreases pairs.len(),
{
    if pairs.len() > 0 {
        lemma_moments_swapped(pairs.drop_last());
        assert(swapped(pairs).drop_last() =~= swapped(pairs.drop_last()));
        let x = millionths(pairs.last().first);
        let y = millionths(pairs.last().second);
        assert(x * y == y * x) by (nonlinear_arith);
    }
}

/// The correlation is symmetric: it is the same whichever of the two
/// ratings of each pair is taken first.
pub proof fn lemma_pearson_symmetric(pairs: Seq<SharedRating>)
    ensures
        pearson_score(swapped(pairs)) == pearson_score(pairs),
{
    lemma_moments_swapped(pairs);
    let m = moments(pairs);
    let w = moments(swapped(pairs));
    assert(m.sum_1 * m.sum_2 == m.sum_2 * m.sum_1) by (nonlinear_arith);
    assert(covariance(w) == covariance(m));
    assert(scatter_1(w) == scatter_2(m));
    assert(scatter_2(w) == scatter_1(m));
    assert(denominator(w) == denominator(m)) by (nonlinear_arith)
        requires
            denominator(w) == floor_sqrt(scatter_2(m)) * floor_sqrt(scatter_1(m)),
            denominator(m) == floor_sqrt(scatter_1(m)) * floor_sqrt(scatter_2(m)),
    ;
}

/// The correlation lies between -1 and 1.
pub proof fn lemma_pearson_bounded(pairs: Seq<SharedRating>)
    ensures
        pearson_score(pairs) matches Some(score) ==> -SCORE_ONE <= score <= SCORE_ONE,
{
}

/// Without a shared account the correlation is zero.
pub proof fn lemma_pearson_of_nothing()
    ensures
        pearson_score(Seq::<SharedRating>::empty()) == Some(0int),
{
    let m = moments(Seq::<SharedRating>::empty());
    assert(m.count * m.squares_1 == 0 && m.count * m.squares_2 == 0 && m.count * m.products == 0
        && m.sum_1 * m.sum_1 == 0 && m.sum_2 * m.sum_2 == 0 && m.sum_1 * m.sum_2 == 0)
        by (nonlinear_arith)
        requires
            m.count == 0,
            m.sum_1 == 0,
            m.sum_2 == 0,
    ;
}

proof fn lemma_moments_constant(pairs: Seq<SharedRating>, c: nat)
    requires
        forall|i: int| 0 <= i < pairs.len() ==> millionths((#[trigger] pairs[i]).first) == c,
    ensures
        moments(pairs).sum_1 == moments(pairs).count * c,
        moments(pairs).squares_1 == moments(pairs).count * (c * c),
    decreases pairs.len(),
{
    if pairs.len() > 0 {
        let front = pairs.drop_last();
        assert forall|i: int| 0 <= i < front.len() implies millionths((#[trigger] front[i]).first)
            == c by {
            assert(front[i] == pairs[i]);
        }
        lemma_moments_constant(front, c);
        let n = moments(front).count;
        assert(pairs.last() == pairs[pairs.len() - 1]);
        assert((n + 1) * c == n * c + c && (n + 1) * (c * c) == n * (c * c) + c * c)
            by (nonlinear_arith);
    }
}

/// Where the first ratings are all the same, so that they do not vary at
/// all, the correlation is zero.
pub proof fn lemma_pearson_without_variance(pairs: Seq<SharedRating>, c: nat)
    requires
        forall|i: int| 0 <= i < pairs.len() ==> millionths((#[trigger] pairs[i]).first) == c,
    ensures
        pearson_score(pairs) matches Some(score) ==> score == 0,
{
    let m = moments(pairs);
    lemma_moments_constant(pairs, c);
    assert(m.count * m.squares_1 - m.sum_1 * m.sum_1 == 0) by (nonlinear_arith)
        requires
            m.sum_1 == m.count * c,
            m.squares_1 == m.count * (c * c),
    ;
    assert(scatter_1(m) == 0);
    assert(0nat * 0nat <= 0nat < (0nat + 1) * (0nat + 1)) by (nonlinear_arith);
    assert(is_floor_sqrt(0, 0));
    lemma_floor_sqrt_is(0, 0);
    assert(denominator(m) == 0) by (nonlinear_arith)
        requires
            denominator(m) == 0 * floor_sqrt(scatter_2(m)),
    ;
}

proof fn lemma_moments_identical(pairs: Seq<SharedRating>)
    requires
        forall|i: int|
            0 <= i < pairs.len() ==> millionths((#[trigger] pairs[i]).first) == millionths(
                pairs[i].second,
            ),
    ensures
        moments(pairs).sum_2 == moments(pairs).sum_1,
        moments(pairs).squares_2 == moments(pairs).squares_1,
        moments(pairs).products == moments(pairs).squares_1,
    decreases pairs.len(),
{
    if pairs.len() > 0 {
        let front = pairs.drop_last();
        assert forall|i: int| 0 <= i < front.len() implies millionths((#[trigger] front[i]).first)
            == millionths(front[i].second) by {
            assert(front[i] == pairs[i]);
        }
        lemma_moments_identical(front);
        assert(pairs.last() == pairs[pairs.len() - 1]);
    }
}

/// Two identical rating vectors correlate perfectly: their score is
/// exactly one, unless they vary too little for a correlation to be
/// measured, where it is zero.
pub proof fn lemma_pearson_of_identical(pairs: Seq<SharedRating>)
    requires
        forall|i: int|
            0 <= i < pairs.len() ==> millionths((#[trigger] pairs[i]).first) == millionths(
                pairs[i].second,
            ),
    ensures
        pearson_score(pairs) matches Some(score) ==> score == if moments(pairs).count == 0
            || denominator(moments(pairs)) < moments(pairs).count * 1_000_000 {
            0
        } else {
            SCORE_ONE as int
        },
{
    let m = moments(pairs);
    lemma_moments_identical(pairs);
    if fits(m) && !(m.count == 0 || denominator(m) < m.count * 1_000_000) {
        let v = scatter_1(m);
        let r = floor_sqrt(v);
        lemma_floor_sqrt_exists(v);
        assert(scatter_2(m) == v);
        assert(denominator(m) == r * r);
        assert(r * r <= v);
        assert(denominator(m) > 0);
        assert(v > 0);
        assert(covariance(m) == v);
        let top = covariance(m) * 1_000_000;
        let bottom = denominator(m) as int;
        assert(top / bottom >= 1_000_000) by (nonlinear_arith)
            requires
                top == v * 1_000_000,
                0 < bottom <= v,
        ;
    }
}

proof fn lemma_moments_without(pairs: Seq<SharedRating>, k: int)
    requires
        0 <= k < pairs.len(),
    ensures
        moments(pairs) == with_ratings(moments(pairs.remove(k)), pairs[k]),
    decreases pairs.len(),
{
    if k == pairs.len() - 1 {
        assert(pairs.remove(k) =~= pairs.drop_last());
    } else {
        let front = pairs.drop_last();
        lemma_moments_without(front, k);
        assert(pairs.remove(k).drop_last() =~= front.remove(k));
        assert(pairs.remove(k).last() == pairs.last());
        assert(front[k] == pairs[k]);
    }
}

/// The sums do not depend on the order of the pairs: two sequences that
/// hold the same pairs, each once, have the same sums.
pub proof fn lemma_moments_of_same_pairs(a: Seq<SharedRating>, b: Seq<SharedRating>)
    requires
        a.no_duplicates(),
        b.no_duplicates(),
        forall|pair: SharedRating| a.contains(pair) <==> b.contains(pair),
    ensures
        moments(a) == moments(b),
    decreases a.len(),
{
    if a.len() == 0 {
        if b.len() > 0 {
            assert(b.contains(b[0]));
            assert(a.contains(b[0]));
        }
    } else {
        let last = a.last();
        let front = a.drop_last();
        assert(a[a.len() - 1] == last);
        assert(a.contains(last));
        let k = choose|k: int| 0 <= k < b.len() && b[k] == last;
        let rest = b.remove(k);
        assert forall|i: int, j: int| 0 <= i < rest.len() && 0 <= j < rest.len() && i != j implies rest[i]
            != rest[j] by {
            let from_i = if i < k {
                i
            } else {
                i + 1
            };
            let from_j = if j < k {
                j
            } else {
                j + 1
            };
            assert(rest[i] == b[from_i] && rest[j] == b[from_j]);
        }
        assert forall|pair: SharedRating| front.contains(pair) <==> rest.contains(pair) by {
            if front.contains(pair) {
                let i = choose|i: int| 0 <= i < front.len() && front[i] == pair;
                assert(a[i] == pair);
                assert(pair != last);
                assert(b.contains(pair));
                let j = choose|j: int| 0 <= j < b.len() && b[j] == pair;
                if j < k {
                    assert(rest[j] == pair);
                } else {
                    assert(rest[j - 1] == pair);
                }
            }
            if rest.contains(pair) {
                let j = choose|j: int| 0 <= j < rest.len() && rest[j] == pair;
                let from = if j < k {
                    j
                } else {
                    j + 1
                };
                assert(b[from] == pair);
                assert(pair != last);
                assert(a.contains(pair));
                let i = choose|i: int| 0 <= i < a.len() && a[i] == pair;
                assert(front[i] == pair);
            }
        }
        lemma_moments_of_same_pairs(front, rest);
        lemma_moments_without(b, k);
    }
}


/// Whether every rating in `pairs` is a win rate: it has a battle behind
/// it and no more wins than battles, so that it lies between 0 and 1.
pub open spec fn are_win_rates(pairs: Seq<SharedRating>) -> bool {
    forall|i: int|
        0 <= i < pairs.len() ==> {
            let pair = #[trigger] pairs[i];
            &&& 0 < pair.first.battles
            &&& pair.first.wins <= pair.first.battles
            &&& 0 < pair.second.battles
            &&& pair.second.wins <= pair.second.battles
        }
}

proof fn lemma_win_rate_in_range(rating: Rating)
    requires
        0 < rating.battles,
        rating.wins <= rating.battles,
    ensures
        millionths(rating) <= 1_000_000,
{
    let wins = rating.wins as nat;
    let battles = rating.battles as nat;
    assert((wins * 1_000_000) / battles <= 1_000_000) by (nonlinear_arith)
        requires
            0 < battles,
            wins <= battles,
    ;
}

proof fn lemma_moments_of_win_rates(pairs: Seq<SharedRating>)
    requires
        are_win_rates(pairs),
    ensures
        moments(pairs).count == pairs.len(),
        moments(pairs).sum_1 <= pairs.len() * 1_000_000,
        moments(pairs).sum_2 <= pairs.len() * 1_000_000,
        moments(pairs).squares_1 <= pairs.len() * 1_000_000_000_000,
        moments(pairs).squares_2 <= pairs.len() * 1_000_000_000_000,
        moments(pairs).products <= pairs.len() * 1_000_000_000_000,
    decreases pairs.len(),
{
    if pairs.len() > 0 {
        let front = pairs.drop_last();
        let last = pairs.last();
        assert(last == pairs[pairs.len() - 1]);
        assert forall|i: int| 0 <= i < front.len() implies {
            let pair = #[trigger] front[i];
            &&& 0 < pair.first.battles
            &&& pair.first.wins <= pair.first.battles
            &&& 0 < pair.second.battles
            &&& pair.second.wins <= pair.second.battles
        } by {
            assert(front[i] == pairs[i]);
        }
        lemma_moments_of_win_rates(front);
        lemma_win_rate_in_range(last.first);
        lemma_win_rate_in_range(last.second);
        let x = millionths(last.first);
        let y = millionths(last.second);
        assert(x * x <= 1_000_000_000_000 && y * y <= 1_000_000_000_000 && x * y
            <= 1_000_000_000_000) by (nonlinear_arith)
            requires
                x <= 1_000_000,
                y <= 1_000_000,
        ;
    }
}

/// The sums of win rates are within what the arithmetic can hold: up to
/// 2^32 pairs of ratings between 0 and 1 always have a score.
pub proof fn lemma_win_rates_fit(pairs: Seq<SharedRating>)
    requires
        are_win_rates(pairs),
        pairs.len() <= 0x1_0000_0000,
    ensures
        fits(moments(pairs)),
        pearson_score(pairs) is Some,
{
    let m = moments(pairs);
    lemma_moments_of_win_rates(pairs);
    let n = m.count;
    let limit = 0x1_0000_0000 * 0x1_0000_0000 * 1_000_000_000_000;
    assert(n * m.squares_1 <= limit && n * m.squares_2 <= limit && n * m.products <= limit)
        by (nonlinear_arith)
        requires
            n <= 0x1_0000_0000,
            m.squares_1 <= n * 1_000_000_000_000,
            m.squares_2 <= n * 1_000_000_000_000,
            m.products <= n * 1_000_000_000_000,
            limit == 0x1_0000_0000 * 0x1_0000_0000 * 1_000_000_000_000,
    ;
    assert(m.sum_1 * m.sum_1 <= limit && m.sum_2 * m.sum_2 <= limit && m.sum_1 * m.sum_2
        <= limit) by (nonlinear_arith)
        requires
            n <= 0x1_0000_0000,
            m.sum_1 <= n * 1_000_000,
            m.sum_2 <= n * 1_000_000,
            limit == 0x1_0000_0000 * 0x1_0000_0000 * 1_000_000_000_000,
    ;
    assert(n * m.products >= 0 && m.sum_1 * m.sum_2 >= 0) by (nonlinear_arith);
    assert(magnitude(covariance(m)) <= limit);
}

/// Two identical vectors of win rates correlate perfectly: their score is
/// exactly one, unless they vary too little for a correlation to be
/// measured, where it is zero.
pub proof fn lemma_pearson_of_identical_win_rates(pairs: Seq<SharedRating>)
    requires
        are_win_rates(pairs),
        pairs.len() <= 0x1_0000_0000,
        forall|i: int|
            0 <= i < pairs.len() ==> millionths((#[trigger] pairs[i]).first) == millionths(
                pairs[i].second,
            ),
    ensures
        pearson_score(pairs) == Some(
            if moments(pairs).count == 0 || denominator(moments(pairs)) < moments(pairs).count
                * 1_000_000 {
                0int
            } else {
                SCORE_ONE as int
            },
        ),
{
    lemma_win_rates_fit(pairs);
    lemma_pearson_of_identical(pairs);
}

} // verus!
