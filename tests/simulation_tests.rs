use rand::rngs::StdRng;
use rand::SeedableRng;
use spades::card::{Card, CardSuit};
use spades::deck::Deck;
use spades::simulation::{
    plan_workers, spades_computation, winning_low_spade, winning_rank, SimulationError,
};

fn mean(total: u128, rounds: usize) -> f64 {
    total as f64 / rounds as f64
}

#[test]
fn one_round_equals_its_sampled_rank() {
    let mut rng = StdRng::seed_from_u64(42);
    let total = spades_computation(1, &mut rng).unwrap();

    let mut same = StdRng::seed_from_u64(42);
    let mut deck = Deck::new();
    deck.shuffle(&mut same);
    let rank = winning_rank(&mut deck);

    assert_eq!(total, rank as u128);
    let m = mean(total, 1);
    assert!(m >= 1.0 && m <= 13.0);
}

#[test]
fn thousand_rounds_mean_is_strictly_inside_the_rank_range() {
    let mut rng = StdRng::seed_from_u64(2024);
    let total = spades_computation(1000, &mut rng).unwrap();
    assert!(total >= 1000 && total <= 13000);
    let m = mean(total, 1000);
    assert!(m > 1.0 && m < 13.0);
}

#[test]
fn zero_rounds_is_an_error() {
    let mut rng = StdRng::seed_from_u64(1);
    assert_eq!(
        spades_computation(0, &mut rng),
        Err(SimulationError::ZeroIterations)
    );
}

#[test]
fn unshuffled_deck_wins_with_the_ace() {
    // the first hand holds every spade, the others none
    let mut deck = Deck::new();
    assert_eq!(winning_rank(&mut deck), 1);
    assert_eq!(deck.len(), 52);
}

#[test]
fn winning_low_spade_takes_the_highest_lowest() {
    let hands = vec![
        Deck::from_cards(vec![
            Card::new(CardSuit::Spades, 2),
            Card::new(CardSuit::Spades, 8),
        ]),
        Deck::from_cards(vec![Card::new(CardSuit::Hearts, 5)]),
        Deck::from_cards(vec![
            Card::new(CardSuit::Spades, 11),
            Card::new(CardSuit::Spades, 6),
        ]),
    ];
    assert_eq!(winning_low_spade(&hands), 6);
}

#[test]
fn winning_low_spade_without_spades_is_zero() {
    let hands = vec![
        Deck::from_cards(vec![Card::new(CardSuit::Hearts, 5)]),
        Deck::from_cards(Vec::new()),
    ];
    assert_eq!(winning_low_spade(&hands), 0);
    assert_eq!(winning_low_spade(&Vec::new()), 0);
}

#[test]
fn one_worker_plays_every_round() {
    assert_eq!(plan_workers(100_000, 1), (1, 100_000));
    let mut direct = StdRng::seed_from_u64(9);
    let mut worker = StdRng::seed_from_u64(9);
    let (workers, share) = plan_workers(500, 1);
    assert_eq!(workers, 1);
    let a = spades_computation(500, &mut direct).unwrap();
    let b = spades_computation(share, &mut worker).unwrap();
    assert_eq!(a, b);
}

#[test]
fn plan_splits_rounds_evenly_and_drops_the_remainder() {
    assert_eq!(plan_workers(100_000, 8), (8, 12_500));
    assert_eq!(plan_workers(100_000, 3), (3, 33_333));
    assert_eq!(plan_workers(10, 0), (1, 10));
    assert_eq!(plan_workers(2, 4), (4, 0));
}
