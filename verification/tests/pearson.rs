use cf_trainer::cf::{Entry, Rating};
use cf_trainer::model::SCORE_ONE;
use cf_trainer::pearson::{integer_sqrt, pearson};
use cf_trainer::similarity::{shared_ratings, SharedRating};

/// A rating of `halves / 2`.
fn halves(account_id: u32, halves: u32) -> Entry {
    Entry { account_id, rating: Rating { wins: halves, battles: 2 } }
}

fn pair(account_id: u32, first: (u32, u32), second: (u32, u32)) -> SharedRating {
    SharedRating {
        account_id,
        first: Rating { wins: first.0, battles: first.1 },
        second: Rating { wins: second.0, battles: second.1 },
    }
}

fn in_floats(pairs: &[SharedRating]) -> f64 {
    let n = pairs.len() as f64;
    let value = |r: Rating| ((r.wins as u64 * 1_000_000) / r.battles as u64) as f64 / 1e6;
    let (mut s1, mut s2, mut q1, mut q2, mut p) = (0.0, 0.0, 0.0, 0.0, 0.0);
    for shared in pairs {
        let (x, y) = (value(shared.first), value(shared.second));
        s1 += x;
        s2 += y;
        q1 += x * x;
        q2 += y * y;
        p += x * y;
    }
    let denominator = ((q1 - s1 * s1 / n).max(0.0) * (q2 - s2 * s2 / n).max(0.0)).sqrt();
    if denominator < 0.000001 { 0.0 } else { (p - s1 * s2 / n) / denominator }
}

#[test]
fn test_pearson() {
    let pairs = shared_ratings(
        &vec![
            halves(1, 5),
            halves(2, 7),
            halves(3, 6),
            halves(4, 7),
            halves(5, 5),
            halves(6, 6),
        ],
        &vec![
            halves(1, 6),
            halves(2, 7),
            halves(3, 3),
            halves(4, 10),
            halves(5, 7),
            halves(6, 6),
        ],
    )
    .unwrap();
    let score = pearson(&pairs).unwrap();
    let correlation = score as f64 / 1e6;
    println!("{:?}", correlation);
    assert!(0.3960 < correlation && correlation < 0.3961);
    assert_eq!(score, 396_059);
}

#[test]
fn correlation_is_the_same_with_the_two_sides_changed_over() {
    let pairs = vec![
        pair(1, (1, 2), (3, 4)),
        pair(2, (2, 3), (1, 4)),
        pair(3, (9, 10), (7, 8)),
        pair(4, (1, 10), (1, 3)),
    ];
    let swapped: Vec<SharedRating> = pairs
        .iter()
        .map(|p| SharedRating { account_id: p.account_id, first: p.second, second: p.first })
        .collect();
    let score = pearson(&pairs).unwrap();
    assert_eq!(pearson(&swapped), Some(score));
    assert!((score as f64 / 1e6 - in_floats(&pairs)).abs() < 1e-5);
}

#[test]
fn correlation_does_not_depend_on_the_order_of_the_accounts() {
    let first = vec![halves(1, 1), halves(2, 2), halves(3, 4), halves(4, 3)];
    let second = vec![halves(4, 2), halves(3, 1), halves(2, 2), halves(1, 0)];
    let forth = pearson(&shared_ratings(&first, &second).unwrap()).unwrap();
    let back = pearson(&shared_ratings(&second, &first).unwrap()).unwrap();
    assert_eq!(forth, back);
}

#[test]
fn no_shared_account_gives_zero() {
    assert_eq!(pearson(&Vec::new()), Some(0));
    let first = vec![halves(1, 1), halves(2, 2)];
    let second = vec![halves(3, 1), halves(4, 2)];
    assert_eq!(pearson(&shared_ratings(&first, &second).unwrap()), Some(0));
}

#[test]
fn ratings_that_do_not_vary_give_zero() {
    let constant_first = vec![pair(1, (1, 2), (1, 4)), pair(2, (2, 4), (3, 4)), pair(3, (5, 10), (1, 1))];
    assert_eq!(pearson(&constant_first), Some(0));
    let constant_second = vec![pair(1, (1, 4), (1, 2)), pair(2, (3, 4), (1, 2))];
    assert_eq!(pearson(&constant_second), Some(0));
    assert_eq!(pearson(&vec![pair(1, (1, 4), (3, 4))]), Some(0));
}

#[test]
fn ratings_that_hardly_vary_give_zero() {
    // The two sides differ by a millionth between the accounts.
    let pairs = vec![
        pair(1, (500_000, 1_000_000), (500_000, 1_000_000)),
        pair(2, (500_001, 1_000_000), (500_001, 1_000_000)),
    ];
    assert_eq!(pearson(&pairs), Some(0));
}

#[test]
fn identical_vectors_give_one() {
    let pairs = vec![
        pair(1, (1, 2), (1, 2)),
        pair(2, (3, 4), (3, 4)),
        pair(3, (1, 10), (1, 10)),
        pair(4, (2, 3), (2, 3)),
    ];
    assert_eq!(pearson(&pairs), Some(SCORE_ONE));
    // The same rating written with another denominator.
    let pairs = vec![pair(1, (1, 2), (50, 100)), pair(2, (3, 4), (75, 100))];
    assert_eq!(pearson(&pairs), Some(SCORE_ONE));
}

#[test]
fn opposite_vectors_give_minus_one() {
    let pairs = vec![pair(1, (1, 4), (3, 4)), pair(2, (2, 4), (2, 4)), pair(3, (3, 4), (1, 4))];
    assert_eq!(pearson(&pairs), Some(-SCORE_ONE));
}

#[test]
fn score_agrees_with_the_formula_in_floats() {
    let samples: Vec<Vec<SharedRating>> = vec![
        vec![pair(1, (1, 3), (2, 3)), pair(2, (5, 7), (1, 7)), pair(3, (2, 9), (8, 9))],
        vec![
            pair(1, (10, 100), (90, 100)),
            pair(2, (20, 100), (10, 100)),
            pair(3, (30, 100), (50, 100)),
            pair(4, (40, 100), (40, 100)),
            pair(5, (99, 100), (1, 100)),
        ],
        vec![pair(1, (0, 5), (5, 5)), pair(2, (5, 5), (0, 5)), pair(3, (3, 5), (3, 5)), pair(4, (1, 5), (2, 5))],
    ];
    for pairs in samples {
        let score = pearson(&pairs).unwrap();
        assert!(-SCORE_ONE <= score && score <= SCORE_ONE);
        assert!((score as f64 / 1e6 - in_floats(&pairs)).abs() < 1e-5, "{:?}", pairs);
    }
}

#[test]
fn sums_beyond_the_arithmetic_give_no_score() {
    // Ratings of some four thousand million each: the squares fill 104
    // bits, and a few pairs overflow the products with the count.
    let huge = pair(1, (u32::MAX, 1), (u32::MAX, 1));
    let mut pairs = Vec::new();
    for _ in 0..3000 {
        pairs.push(huge);
    }
    pairs.push(pair(2, (1, 1), (1, 1)));
    assert_eq!(pearson(&pairs), None);
    // A single pair is within it.
    assert_eq!(pearson(&vec![huge, pair(2, (1, 1), (0, 1))]), Some(SCORE_ONE));
}

#[test]
fn square_roots_are_rounded_down() {
    assert_eq!(integer_sqrt(0), 0);
    assert_eq!(integer_sqrt(1), 1);
    assert_eq!(integer_sqrt(3), 1);
    assert_eq!(integer_sqrt(4), 2);
    assert_eq!(integer_sqrt(99), 9);
    assert_eq!(integer_sqrt(100), 10);
    assert_eq!(integer_sqrt(6_000_000_000_000), 2_449_489);
    assert_eq!(integer_sqrt(u64::MAX as u128), 4_294_967_295);
    assert_eq!(integer_sqrt(1 << 64), 1 << 32);
    assert_eq!(integer_sqrt(u128::MAX), u64::MAX as u128);
    assert_eq!(integer_sqrt(u128::MAX - (1 << 65)), u64::MAX as u128 - 1);
}

#[test]
fn win_rates_always_have_a_score() {
    let mut pairs = Vec::new();
    for account in 0..100_000u32 {
        let first = account % 101;
        let second = (account * 7) % 103;
        pairs.push(pair(account, (first, 101), (second, 103)));
    }
    let score = pearson(&pairs).unwrap();
    assert!(-SCORE_ONE <= score && score <= SCORE_ONE);
    let identical: Vec<SharedRating> =
        (0..100_000u32).map(|account| pair(account, (account % 50, 50), (account % 50, 50))).collect();
    assert_eq!(pearson(&identical), Some(SCORE_ONE));
    let full: Vec<SharedRating> =
        (0..1000u32).map(|account| pair(account, (u32::MAX, u32::MAX), (account, u32::MAX))).collect();
    assert_eq!(pearson(&full), Some(0));
}
