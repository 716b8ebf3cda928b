use crate::card::{Card, CardSuit};
use vstd::prelude::*;

verus! {

/// The suit of the `b`-th run of thirteen cards in a fresh deck.
pub open spec fn suit_of_run(b: int) -> CardSuit {
    if b == 0 {
        CardSuit::Spades
    } else if b == 1 {
        CardSuit::Hearts
    } else if b == 2 {
        CardSuit::Diamonds
    } else {
        CardSuit::Clubs
    }
}

/// The card at position `i` of a fresh deck: suit-major, rank-minor.
pub open spec fn canonical_card(i: int) -> Card {
    Card { suit: suit_of_run(i / 13), value: (i % 13 + 1) as u32 }
}

/// The 52 cards of a fresh deck, in order.
pub open spec fn canonical_deck() -> Seq<Card> {
    Seq::new(52, |i: int| canonical_card(i))
}

/// How many chunks of at most `k` cards a sequence of `len` cards splits into.
pub open spec fn chunk_count(len: int, k: int) -> int {
    (len + k - 1) / k
}

/// The `i`-th chunk of `s`: the cards from `i * k` up to `i * k + k`, or up to the end.
pub open spec fn chunk(s: Seq<Card>, k: int, i: int) -> Seq<Card> {
    s.subrange(i * k, if i * k + k <= s.len() { i * k + k } else { s.len() as int })
}

/// `s` cut into contiguous chunks of `k` cards, the last one possibly shorter.
pub open spec fn split_spec(s: Seq<Card>, k: int) -> Seq<Seq<Card>> {
    Seq::new(chunk_count(s.len() as int, k) as nat, |i: int| chunk(s, k, i))
}

/// The card sequences of a sequence of decks.
pub open spec fn views(decks: Seq<Deck>) -> Seq<Seq<Card>> {
    decks.map_values(|d: Deck| d@)
}

/// Some card of `s` has the given suit.
pub open spec fn has_suit(s: Seq<Card>, suit: CardSuit) -> bool {
    exists|i: int| 0 <= i < s.len() && (#[trigger] s[i]).suit == suit
}

/// Among the first `n` cards of `s`, position `b` holds a card of `suit` whose rank
/// no card of that suit undercuts, and no earlier card of that suit ties it.
pub open spec fn first_lowest_within(s: Seq<Card>, suit: CardSuit, n: int, b: int) -> bool {
    &&& 0 <= b < n <= s.len()
    &&& s[b].suit == suit
    &&& forall|j: int| 0 <= j < n && (#[trigger] s[j]).suit == suit ==> s[b].value <= s[j].value
    &&& forall|j: int| 0 <= j < b && (#[trigger] s[j]).suit == suit ==> s[b].value < s[j].value
}

/// What `lowest_card` returns: none where no card has the suit, else the first card of
/// the suit with the least rank.
pub open spec fn is_lowest_card(s: Seq<Card>, suit: CardSuit, r: Option<Card>) -> bool {
    match r {
        None => !has_suit(s, suit),
        Some(c) => exists|b: int| first_lowest_within(s, suit, s.len() as int, b) && s[b] == c,
    }
}

/// The result of `lowest_card` on cards `s`.
pub open spec fn lowest_in(s: Seq<Card>, suit: CardSuit) -> Option<Card> {
    choose|r: Option<Card>| is_lowest_card(s, suit, r)
}

/// At most one result meets `is_lowest_card`.
pub proof fn lemma_lowest_unique(s: Seq<Card>, suit: CardSuit, r1: Option<Card>, r2: Option<Card>)
    requires
        is_lowest_card(s, suit, r1),
        is_lowest_card(s, suit, r2),
    ensures
        r1 == r2,
{
    if r1 is Some && r2 is Some {
        let b1 = choose|b: int| first_lowest_within(s, suit, s.len() as int, b) && s[b] == r1->0;
        let b2 = choose|b: int| first_lowest_within(s, suit, s.len() as int, b) && s[b] == r2->0;
        assert(s[b1] == s[b2]) by {
            if b1 < b2 {
                assert(s[b2].value < s[b1].value);
            } else if b2 < b1 {
                assert(s[b1].value < s[b2].value);
            }
        }
    } else if r1 is Some {
        let b1 = choose|b: int| first_lowest_within(s, suit, s.len() as int, b) && s[b] == r1->0;
        assert(s[b1].suit == suit);
    } else if r2 is Some {
        let b2 = choose|b: int| first_lowest_within(s, suit, s.len() as int, b) && s[b] == r2->0;
        assert(s[b2].suit == suit);
    }
}

/// Where one of the first `n` cards has the suit, one of them is the first lowest.
pub proof fn lemma_first_lowest_exists(s: Seq<Card>, suit: CardSuit, n: int, j: int)
    requires
        0 <= j < n <= s.len(),
        s[j].suit == suit,
    ensures
        exists|b: int| first_lowest_within(s, suit, n, b),
    decreases n,
{
    if exists|i: int| 0 <= i < n - 1 && (#[trigger] s[i]).suit == suit {
        let m = n - 1;
        let i = choose|i: int| 0 <= i < m && (#[trigger] s[i]).suit == suit;
        lemma_first_lowest_exists(s, suit, m, i);
        let b = choose|b: int| first_lowest_within(s, suit, m, b);
        if s[n - 1].suit == suit && s[n - 1].value < s[b].value {
            assert(first_lowest_within(s, suit, n, n - 1));
        } else {
            assert(first_lowest_within(s, suit, n, b));
        }
    } else {
        assert(first_lowest_within(s, suit, n, n - 1));
    }
}

/// `lowest_in` meets `is_lowest_card`: it is none exactly where no card has the suit.
pub proof fn lemma_lowest_in(s: Seq<Card>, suit: CardSuit)
    ensures
        is_lowest_card(s, suit, lowest_in(s, suit)),
        lowest_in(s, suit) is None <==> !has_suit(s, suit),
{
    if has_suit(s, suit) {
        let j = choose|j: int| 0 <= j < s.len() && (#[trigger] s[j]).suit == suit;
        lemma_first_lowest_exists(s, suit, s.len() as int, j);
        let b = choose|b: int| first_lowest_within(s, suit, s.len() as int, b);
        assert(is_lowest_card(s, suit, Some(s[b])));
    } else {
        assert(is_lowest_card(s, suit, None));
    }
}

/// The chunk count `q` of `n` cards in chunks of `k` covers them all, and one chunk
/// fewer would not.
pub proof fn lemma_chunk_count(n: int, k: int)
    requires
        n >= 0,
        k >= 1,
    ensures
        chunk_count(n, k) >= 0,
        chunk_count(n, k) * k >= n,
        n > 0 ==> (chunk_count(n, k) - 1) * k < n,
        n == 0 ==> chunk_count(n, k) == 0,
{
    let x = n + k - 1;
    let q = chunk_count(n, k);
    vstd::arithmetic::div_mod::lemma_fundamental_div_mod(x, k);
    vstd::arithmetic::div_mod::lemma_mod_pos_bound(x, k);
    let r = x % k;
    assert(x == k * q + r);
    assert(q >= 0) by (nonlinear_arith)
        requires x == k * q + r, 0 <= r < k, x >= 0, k >= 1;
    assert(q * k >= n) by (nonlinear_arith)
        requires x == k * q + r, 0 <= r < k, x == n + k - 1;
    assert((q - 1) * k < n) by (nonlinear_arith)
        requires x == k * q + r, 0 <= r, x == n + k - 1;
    if n == 0 {
        assert(q == 0) by (nonlinear_arith)
            requires q >= 0, (q - 1) * k < n, n == 0, k >= 1;
    }
}

/// The first `m` chunks, joined, are the first `m * k` cards (all of them, at the end).
proof fn lemma_split_prefix(s: Seq<Card>, k: int, m: int)
    requires
        k >= 1,
        0 <= m <= chunk_count(s.len() as int, k),
    ensures
        split_spec(s, k).take(m).flatten() == s.take(
            if m * k <= s.len() { m * k } else { s.len() as int },
        ),
    decreases m,
{
    let n = s.len() as int;
    let q = chunk_count(n, k);
    let parts = split_spec(s, k);
    lemma_chunk_count(n, k);
    if m == 0 {
        assert(parts.take(0) =~= Seq::<Seq<Card>>::empty());
        assert(s.take(0) =~= Seq::<Card>::empty());
    } else {
        let p = m - 1;
        lemma_split_prefix(s, k, p);
        assert(p * k < n) by (nonlinear_arith)
            requires p < q, (q - 1) * k < n, k >= 1, n > 0 || q == 0, p >= 0;
        assert(m * k == p * k + k) by (nonlinear_arith)
            requires m == p + 1;
        assert(parts.take(m) =~= parts.take(p).push(parts[p]));
        parts.take(p).lemma_flatten_push(parts[p]);
        assert(parts[p] == chunk(s, k, p));
        let e = if m * k <= n { m * k } else { n };
        assert(s.take(p * k) + s.subrange(p * k, e) =~= s.take(e));
    }
}

/// Splitting into chunks of `k` loses and adds no card: the chunks, joined in order,
/// are the cards split. Every chunk but the last holds `k` cards; the last holds
/// the remainder of the count by `k`, or `k` where that remainder is zero.
pub proof fn lemma_split_partitions(s: Seq<Card>, k: int)
    requires
        k >= 1,
    ensures
        split_spec(s, k).flatten() == s,
        split_spec(s, k).flatten().to_multiset() == s.to_multiset(),
        forall|i: int|
            0 <= i < split_spec(s, k).len() - 1 ==> (#[trigger] split_spec(s, k)[i]).len() == k,
        split_spec(s, k).len() > 0 ==> split_spec(s, k).last().len() == if (s.len() as int) % k == 0 {
            k
        } else {
            (s.len() as int) % k
        },
        (s.len() as int) % k != 0 ==> split_spec(s, k).last().len() < k,
{
    let n = s.len() as int;
    let q = chunk_count(n, k);
    let parts = split_spec(s, k);
    lemma_chunk_count(n, k);
    lemma_split_prefix(s, k, q);
    assert(parts.take(q) =~= parts);
    assert(s.take(n) =~= s);
    assert forall|i: int| 0 <= i < parts.len() - 1 implies (#[trigger] parts[i]).len() == k by {
        assert(i * k + k <= (q - 1) * k) by (nonlinear_arith)
            requires i < q - 1, k >= 1;
    }
    if q > 0 {
        let a = (q - 1) * k;
        assert(a + k == q * k) by (nonlinear_arith)
            requires a == (q - 1) * k;
        assert(parts.last() == chunk(s, k, q - 1));
        if n - a < k {
            vstd::arithmetic::div_mod::lemma_fundamental_div_mod_converse(n, k, q - 1, n - a);
        } else {
            vstd::arithmetic::div_mod::lemma_fundamental_div_mod_converse(n, k, q, 0);
        }
    } else {
        vstd::arithmetic::div_mod::lemma_fundamental_div_mod_converse(n, k, 0, 0);
    }
}

/// A deck of 52 cards deals into four hands of 13, which together hold every card
/// once, in order.
pub proof fn lemma_deal_four_hands(s: Seq<Card>)
    requires
        s.len() == 52,
    ensures
        split_spec(s, 13).len() == 4,
        forall|i: int| 0 <= i < 4 ==> (#[trigger] split_spec(s, 13)[i]).len() == 13,
        split_spec(s, 13).flatten() == s,
        split_spec(s, 13).flatten().to_multiset() == s.to_multiset(),
{
    assert(chunk_count(52, 13) == 4);
    lemma_split_partitions(s, 13);
    assert(52int % 13 == 0);
}

/// A fresh deck holds 52 distinct cards: every rank from 1 to 13 of each of the four
/// real suits, and nothing else.
pub proof fn lemma_fresh_deck_complete()
    ensures
        canonical_deck().len() == 52,
        forall|i: int|
            0 <= i < 52 ==> (#[trigger] canonical_deck()[i]).suit != CardSuit::Dummy && 1
                <= canonical_deck()[i].value <= 13,
        forall|i: int, j: int|
            0 <= i < 52 && 0 <= j < 52 && i != j ==> #[trigger] canonical_deck()[i]
                != #[trigger] canonical_deck()[j],
        forall|suit: CardSuit, v: u32|
            suit != CardSuit::Dummy && 1 <= v <= 13 ==> #[trigger] canonical_deck().contains(
                Card { suit, value: v },
            ),
{
    let d = canonical_deck();
    assert forall|i: int, j: int|
        0 <= i < 52 && 0 <= j < 52 && i != j implies #[trigger] d[i] != #[trigger] d[j] by {
        if d[i] == d[j] {
            assert(suit_of_run(i / 13) == suit_of_run(j / 13));
            assert(i / 13 == j / 13);
            assert(i % 13 == j % 13);
            vstd::arithmetic::div_mod::lemma_fundamental_div_mod(i, 13);
            vstd::arithmetic::div_mod::lemma_fundamental_div_mod(j, 13);
        }
    }
    assert forall|suit: CardSuit, v: u32|
        suit != CardSuit::Dummy && 1 <= v <= 13 implies #[trigger] d.contains(
        Card { suit, value: v },
    ) by {
        let b: int = match suit {
            CardSuit::Spades => 0,
            CardSuit::Hearts => 1,
            CardSuit::Diamonds => 2,
            _ => 3,
        };
        let i = b * 13 + v - 1;
        assert(i / 13 == b && i % 13 == v - 1);
        assert(d[i] == Card { suit, value: v });
    }
}

/// An ordered pile of cards: a full deck, or a hand dealt from one.
#[derive(Debug)]
pub struct Deck {
    cards: Vec<Card>,
}

impl View for Deck {
    type V = Seq<Card>;

    closed spec fn view(&self) -> Seq<Card> {
        self.cards@
    }
}

#[verifier::external_type_specification]
#[verifier::external_body]
pub struct ExStdRng(rand::rngs::StdRng);

/// Relies on rand's `SliceRandom::shuffle` for slices, which only swaps elements:
/// the cards afterwards are a permutation of those before.
#[verifier::external_body]
fn shuffle_cards(cards: &mut Vec<Card>, rng: &mut rand::rngs::StdRng)
    ensures
        final(cards)@.len() == old(cards)@.len(),
        final(cards)@.to_multiset() == old(cards)@.to_multiset(),
{
    rand::seq::SliceRandom::shuffle(cards.as_mut_slice(), rng)
}

impl Deck {
    /// A fresh deck: spades, hearts, diamonds, clubs, each from rank 1 to 13.
    pub fn new() -> (r: Deck)
        ensures
            r@ == canonical_deck(),
    {
        let mut cards: Vec<Card> = Vec::new();
        let mut i: u32 = 0;
        while i < 52
            invariant
                i <= 52,
                cards@ == canonical_deck().take(i as int),
            decreases 52 - i,
        {
            let card_value: u32 = i % 13 + 1;
            let suit_num: u32 = i / 13;
            let card_suit = if suit_num == 0 {
                CardSuit::Spades
            } else if suit_num == 1 {
                CardSuit::Hearts
            } else if suit_num == 2 {
                CardSuit::Diamonds
            } else {
                CardSuit::Clubs
            };
            cards.push(Card::new(card_suit, card_value));
            assert(cards@ =~= canonical_deck().take(i + 1));
            i = i + 1;
        }
        assert(cards@ =~= canonical_deck());
        Deck { cards }
    }

    /// A deck holding the given cards, in that order.
    pub fn from_cards(cards: Vec<Card>) -> (r: Deck)
        ensures
            r@ == cards@,
    {
        Deck { cards }
    }

    /// The cards, in order.
    pub fn cards(&self) -> (r: &Vec<Card>)
        ensures
            r@ == self@,
    {
        &self.cards
    }

    /// The number of cards.
    pub fn len(&self) -> (r: usize)
        ensures
            r == self@.len(),
    {
        self.cards.len()
    }

    /// Puts the cards in an order drawn from `rng`, keeping the same cards.
    pub fn shuffle(&mut self, rng: &mut rand::rngs::StdRng)
        ensures
            final(self)@.len() == old(self)@.len(),
            final(self)@.to_multiset() == old(self)@.to_multiset(),
    {
        shuffle_cards(&mut self.cards, rng);
    }

    /// Cuts the cards, in their current order, into consecutive hands of `number`
    /// cards; the last hand holds what is left when `number` does not divide the
    /// count. The deck itself is left as it was.
    pub fn split_into(&mut self, number: usize) -> (r: Vec<Deck>)
        requires
            number >= 1,
        ensures
            final(self)@ == old(self)@,
            views(r@) == split_spec(old(self)@, number as int),
    {
        let ghost s = self@;
        let ghost k = number as int;
        let n = self.cards.len();
        let mut hands: Vec<Deck> = Vec::new();
        let mut start: usize = 0;
        assert(0 * k == 0);
        while start < n
            invariant
                s == self.cards@,
                n == s.len(),
                k == number as int,
                number >= 1,
                start <= n,
                start < n ==> start == hands.len() * k,
                start == n ==> (n == 0 && hands.len() == 0) || ((hands.len() - 1) * k < n
                    <= hands.len() * k),
                forall|i: int| 0 <= i < hands.len() ==> (#[trigger] hands@[i])@ == chunk(s, k, i),
            decreases n - start,
        {
            let end: usize = if n - start <= number { n } else { start + number };
            let mut v: Vec<Card> = Vec::new();
            let mut j: usize = start;
            while j < end
                invariant
                    s == self.cards@,
                    start <= j <= end <= n,
                    n == s.len(),
                    v@ == s.subrange(start as int, j as int),
                decreases end - j,
            {
                v.push(self.cards[j]);
                assert(v@ =~= s.subrange(start as int, j + 1));
                j = j + 1;
            }
            let ghost h = hands.len() as int;
            assert((h + 1) * k == h * k + k) by (nonlinear_arith);
            assert(v@ =~= chunk(s, k, h));
            hands.push(Deck { cards: v });
            start = end;
        }
        let ghost h = hands.len() as int;
        proof {
            assert((h - 1) * k == h * k - k) by (nonlinear_arith);
            vstd::arithmetic::div_mod::lemma_fundamental_div_mod_converse(
                n + k - 1, k, h, n + k - 1 - h * k);
        }
        assert(views(hands@) =~= split_spec(s, k));
        hands
    }

    /// The card of `suit` with the least rank, the first such where ranks tie;
    /// none if no card has that suit.
    pub fn lowest_card(&self, suit: CardSuit) -> (r: Option<Card>)
        ensures
            is_lowest_card(self@, suit, r),
            r == lowest_in(self@, suit),
    {
        let ghost s = self@;
        let mut best: Option<Card> = None;
        let ghost mut b: int = 0;
        let mut i: usize = 0;
        while i < self.cards.len()
            invariant
                s == self@,
                s == self.cards@,
                i <= s.len(),
                best is None ==> forall|j: int| 0 <= j < i ==> (#[trigger] s[j]).suit != suit,
                best is Some ==> first_lowest_within(s, suit, i as int, b) && s[b] == best->0,
            decreases s.len() - i,
        {
            let c = self.cards[i];
            if c.suit == suit {
                match best {
                    None => {
                        best = Some(c);
                        proof {
                            b = i as int;
                        }
                    },
                    Some(cur) => {
                        if c.value < cur.value {
                            best = Some(c);
                            proof {
                                b = i as int;
                            }
                        }
                    },
                }
            }
            i = i + 1;
        }
        proof {
            assert(is_lowest_card(s, suit, best));
            lemma_lowest_unique(s, suit, best, lowest_in(s, suit));
        }
        best
    }
}

} // verus!
