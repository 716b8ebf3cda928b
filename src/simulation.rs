use crate::card::{Card, CardSuit};
use crate::deck::{
    canonical_card, canonical_deck, chunk, chunk_count, has_suit, lemma_lowest_in, lowest_in,
    split_spec, views, Deck,
};
use vstd::prelude::*;

verus! {

/// The number of cards in each hand dealt in a round.
pub const HAND_SIZE: usize = 13;

/// What a hand contributes to a round: the rank of its lowest spade, or 0 where it
/// holds no spade.
pub open spec fn hand_spade_rank(h: Seq<Card>) -> int {
    match lowest_in(h, CardSuit::Spades) {
        Some(c) => c.value as int,
        None => 0,
    }
}

/// The highest contribution among the hands; 0 where there are none.
pub open spec fn best_spade_rank(hands: Seq<Seq<Card>>) -> int
    decreases hands.len(),
{
    if hands.len() == 0 {
        0
    } else {
        let a = best_spade_rank(hands.drop_last());
        let b = hand_spade_rank(hands.last());
        if a < b {
            b
        } else {
            a
        }
    }
}

/// The rank recorded for a round played with the cards `d`, in that order.
pub open spec fn round_rank(d: Seq<Card>) -> int {
    best_spade_rank(split_spec(d, HAND_SIZE as int))
}

/// `d` holds the cards of a fresh deck, in some order.
pub open spec fn is_shuffled_deck(d: Seq<Card>) -> bool {
    d.to_multiset() == canonical_deck().to_multiset()
}

/// Some order of a fresh deck makes a round record `v`.
pub open spec fn possible_round_rank(v: int) -> bool {
    exists|d: Seq<Card>| is_shuffled_deck(d) && round_rank(d) == v
}

/// The sum of a sequence of ranks.
pub open spec fn sum_of(s: Seq<int>) -> int
    decreases s.len(),
{
    if s.len() == 0 {
        0
    } else {
        sum_of(s.drop_last()) + s.last()
    }
}

/// `t` is the total of the ranks `samples`, one recorded per round.
pub open spec fn is_run_total(t: int, samples: Seq<int>) -> bool {
    &&& t == sum_of(samples)
    &&& forall|j: int|
        0 <= j < samples.len() ==> 1 <= #[trigger] samples[j] <= 13 && possible_round_rank(
            samples[j],
        )
}

/// Why a simulation cannot run.
#[derive(Debug, Clone, Copy, PartialEq, Eq, Structural)]
pub enum SimulationError {
    /// No rounds were asked for: a mean over no rounds is undefined.
    ZeroIterations,
}

/// Facts about any order of a fresh deck: 52 cards, ranks 1 to 13, the ace of spades among them.
pub proof fn lemma_shuffled_deck_cards(d: Seq<Card>)
    requires
        is_shuffled_deck(d),
    ensures
        d.len() == 52,
        forall|i: int| 0 <= i < d.len() ==> 1 <= (#[trigger] d[i]).value <= 13,
        d.contains(canonical_card(0)),
{
    let c = canonical_deck();
    vstd::seq_lib::to_multiset_len(d);
    vstd::seq_lib::to_multiset_len(c);
    assert forall|i: int| 0 <= i < d.len() implies 1 <= (#[trigger] d[i]).value <= 13 by {
        assert(d.contains(d[i]));
        vstd::seq_lib::to_multiset_contains(d, d[i]);
        vstd::seq_lib::to_multiset_contains(c, d[i]);
        let j = choose|j: int| 0 <= j < c.len() && c[j] == d[i];
        assert(c[j] == canonical_card(j));
    }
    assert(c[0] == canonical_card(0));
    assert(c.contains(canonical_card(0)));
    vstd::seq_lib::to_multiset_contains(d, canonical_card(0));
    vstd::seq_lib::to_multiset_contains(c, canonical_card(0));
}

/// A hand's contribution lies in 0 to 13 where its ranks do, and is at least 1 where it
/// holds a spade.
pub proof fn lemma_hand_spade_rank_bounds(h: Seq<Card>)
    requires
        forall|i: int| 0 <= i < h.len() ==> 1 <= (#[trigger] h[i]).value <= 13,
    ensures
        0 <= hand_spade_rank(h) <= 13,
        has_suit(h, CardSuit::Spades) ==> hand_spade_rank(h) >= 1,
{
    lemma_lowest_in(h, CardSuit::Spades);
    if let Some(c) = lowest_in(h, CardSuit::Spades) {
        let b = choose|b: int|
            crate::deck::first_lowest_within(h, CardSuit::Spades, h.len() as int, b) && h[b]
                == c;
        assert(1 <= h[b].value <= 13);
    }
}

/// The best contribution is at least each hand's, and at most 13 where each is.
pub proof fn lemma_best_spade_rank_bounds(hands: Seq<Seq<Card>>)
    requires
        forall|i: int| 0 <= i < hands.len() ==> 0 <= #[trigger] hand_spade_rank(hands[i]) <= 13,
    ensures
        0 <= best_spade_rank(hands) <= 13,
        forall|i: int|
            0 <= i < hands.len() ==> best_spade_rank(hands) >= #[trigger] hand_spade_rank(
                hands[i],
            ),
    decreases hands.len(),
{
    if hands.len() > 0 {
        let rest = hands.drop_last();
        assert forall|i: int| 0 <= i < rest.len() implies 0 <= #[trigger] hand_spade_rank(
            rest[i],
        ) <= 13 by {
            assert(rest[i] == hands[i]);
        }
        lemma_best_spade_rank_bounds(rest);
        assert forall|i: int| 0 <= i < hands.len() implies best_spade_rank(hands)
            >= #[trigger] hand_spade_rank(hands[i]) by {
            if i < rest.len() {
                assert(rest[i] == hands[i]);
            }
        }
    }
}

/// Any order of a fresh deck records a rank from 1 to 13.
pub proof fn lemma_round_rank_bounds(d: Seq<Card>)
    requires
        is_shuffled_deck(d),
    ensures
        1 <= round_rank(d) <= 13,
{
    lemma_shuffled_deck_cards(d);
    let k = HAND_SIZE as int;
    let hands = split_spec(d, k);
    assert(chunk_count(52, 13) == 4);
    assert(hands.len() == 4);
    assert forall|i: int| 0 <= i < hands.len() implies 0 <= #[trigger] hand_spade_rank(hands[i])
        <= 13 by {
        let h = chunk(d, k, i);
        assert(h =~= d.subrange(i * 13, i * 13 + 13));
        assert forall|j: int| 0 <= j < h.len() implies 1 <= (#[trigger] h[j]).value <= 13 by {
            assert(h[j] == d[i * 13 + j]);
        }
        lemma_hand_spade_rank_bounds(h);
    }
    lemma_best_spade_rank_bounds(hands);
    let p = choose|p: int| 0 <= p < d.len() && d[p] == canonical_card(0);
    let hi = p / 13;
    let h = chunk(d, k, hi);
    assert(h =~= d.subrange(hi * 13, hi * 13 + 13));
    assert(h[p - hi * 13] == d[p]);
    assert(has_suit(h, CardSuit::Spades));
    assert forall|j: int| 0 <= j < h.len() implies 1 <= (#[trigger] h[j]).value <= 13 by {
        assert(h[j] == d[hi * 13 + j]);
    }
    lemma_hand_spade_rank_bounds(h);
    assert(hands[hi] == h);
}

/// The highest among the hands' lowest spades, where a hand without a spade counts 0.
pub fn winning_low_spade(hands: &Vec<Deck>) -> (r: u32)
    ensures
        r == best_spade_rank(views(hands@)),
{
    let ghost hs = views(hands@);
    let mut best: u32 = 0;
    let mut i: usize = 0;
    while i < hands.len()
        invariant
            hs == views(hands@),
            i <= hands.len(),
            best == best_spade_rank(hs.take(i as int)),
        decreases hands.len() - i,
    {
        let rank: u32 = match hands[i].lowest_card(CardSuit::Spades) {
            Some(card) => card.value,
            None => 0,
        };
        assert(hs.take(i + 1).drop_last() =~= hs.take(i as int));
        assert(hs[i as int] == hands@[i as int]@);
        if best < rank {
            best = rank;
        }
        i = i + 1;
    }
    assert(hs.take(hands.len() as int) =~= hs);
    best
}

/// Deals the deck, in its current order, into hands of 13 and returns the rank that
/// the round records.
pub fn winning_rank(deck: &mut Deck) -> (r: u32)
    ensures
        final(deck)@ == old(deck)@,
        r == round_rank(old(deck)@),
{
    let hands = deck.split_into(HAND_SIZE);
    winning_low_spade(&hands)
}

/// One round: a fresh deck, shuffled with `rng`, dealt and scored.
pub fn play_round(rng: &mut rand::rngs::StdRng) -> (r: u32)
    ensures
        1 <= r <= 13,
        possible_round_rank(r as int),
{
    let mut deck = Deck::new();
    deck.shuffle(rng);
    let r = winning_rank(&mut deck);
    proof {
        lemma_round_rank_bounds(deck@);
    }
    r
}

/// Plays `iterations` rounds with `rng` and returns the total of the ranks recorded;
/// their mean is that total over `iterations`. No rounds is an error.
pub fn spades_computation(iterations: usize, rng: &mut rand::rngs::StdRng) -> (r: Result<
    u128,
    SimulationError,
>)
    ensures
        r is Err <==> iterations == 0,
        r is Err ==> r == Err::<u128, SimulationError>(SimulationError::ZeroIterations),
        r is Ok ==> iterations <= r->Ok_0 <= 13 * iterations,
        r is Ok ==> exists|samples: Seq<int>|
            samples.len() == iterations && is_run_total(r->Ok_0 as int, samples),
{
    if iterations == 0 {
        return Err(SimulationError::ZeroIterations);
    }
    let mut total: u128 = 0;
    let ghost mut samples: Seq<int> = Seq::empty();
    let mut i: usize = 0;
    while i < iterations
        invariant
            i <= iterations,
            samples.len() == i,
            is_run_total(total as int, samples),
            i <= total <= 13 * i,
        decreases iterations - i,
    {
        let v = play_round(rng);
        proof {
            let next = samples.push(v as int);
            assert(next.drop_last() =~= samples);
            samples = next;
        }
        total = total + v as u128;
        i = i + 1;
    }
    Ok(total)
}

/// A run of one round totals exactly the rank that round recorded, a rank from 1 to 13.
pub proof fn lemma_single_round_total(t: int, samples: Seq<int>)
    requires
        samples.len() == 1,
        is_run_total(t, samples),
    ensures
        t == samples[0],
        1 <= t <= 13,
        possible_round_rank(t),
{
    assert(samples.drop_last() =~= Seq::<int>::empty());
    assert(sum_of(samples.drop_last()) == 0);
    assert(samples.last() == samples[0]);
}

/// How many workers a run uses where `cpus` processors are reported: at least one.
pub open spec fn worker_count(cpus: int) -> int {
    if cpus < 1 {
        1
    } else {
        cpus
    }
}

/// The rounds each worker plays: an even share, the remainder dropped.
pub open spec fn worker_share(iterations: int, cpus: int) -> int {
    iterations / worker_count(cpus)
}

/// The number of workers and the rounds each plays, for `iterations` rounds in all
/// on `cpus` processors.
pub fn plan_workers(iterations: usize, cpus: usize) -> (r: (usize, usize))
    ensures
        r.0 == worker_count(cpus as int),
        r.1 == worker_share(iterations as int, cpus as int),
{
    let workers: usize = if cpus < 1 {
        1
    } else {
        cpus
    };
    (workers, iterations / workers)
}

/// A run on one processor has one worker, which plays every round: the same as
/// calling `spades_computation` with all of them.
pub proof fn lemma_one_worker_plays_all(iterations: int)
    requires
        iterations >= 0,
    ensures
        worker_count(1) == 1,
        worker_share(iterations, 1) == iterations,
{
    assert(iterations / 1 == iterations) by (nonlinear_arith);
}

} // verus!
