//! A deck of cards that can be dealt from.

use vstd::prelude::*;
use rand::seq::SliceRandom;
use rand::Rng;
use crate::card::{
    card_at, is_shuffled_pack, lemma_shuffled_pack_holds_each_card_once, pack, Card, Face, Suit,
};
use crate::hand::Hand;

verus! {

/// A deck of cards that can be dealt from: cards in the order in which they
/// lie, the last one on top.
#[derive(Debug, Hash)]
pub struct Deck {
    cards: Vec<Card>,
}

impl View for Deck {
    type V = Seq<Card>;

    /// The cards left in the deck, bottom to top.
    closed spec fn view(&self) -> Seq<Card> {
        self.cards@
    }
}

impl Clone for Deck {
    /// A second deck that holds the same cards in the same order.
    fn clone(&self) -> (copy: Self)
        ensures
            copy@ == self@,
    {
        let copy = Deck { cards: self.cards.clone() };
        assert(copy.cards@ =~= self.cards@);
        copy
    }
}

/// Calls `rand::seq::SliceRandom::shuffle` on the cards, with `rng` as its
/// source of randomness. That function only ever swaps two items of the
/// slice, so the cards afterwards are the cards before, in some order. This
/// is believed, not proved. Which order comes out depends on what `rng`
/// yields, and nothing is claimed of it, nor of `rng` afterwards. The call
/// draws from `rng` until a draw is usable, so it returns only if `rng`
/// yields such a draw.
#[verifier::external_body]
fn shuffle<R: Rng>(cards: &mut Vec<Card>, rng: &mut R)
    ensures
        final(cards)@.to_multiset() == old(cards)@.to_multiset(),
{
    cards.shuffle(rng);
}

/// The cards that a deal of `n` cards takes from `deck`: the top `n`, in the
/// order in which they lie.
pub open spec fn dealt(deck: Seq<Card>, n: nat) -> Seq<Card> {
    deck.subrange(deck.len() - n, deck.len() as int)
}

/// The cards that a deal of `n` cards leaves in `deck`: all but the top `n`.
pub open spec fn kept(deck: Seq<Card>, n: nat) -> Seq<Card> {
    deck.subrange(0, deck.len() - n)
}

impl Deck {
    /// A deck is well formed when no card lies in it twice. A new deck is,
    /// and dealing from it keeps it so.
    pub open spec fn wf(&self) -> bool {
        self@.no_duplicates()
    }

    /// Creates a random shuffle of the 32 possible cards: the new pack, laid
    /// out suit by suit, is brought into an order that `rng` decides. Every
    /// card there is lies in the deck exactly once.
    #[verifier::loop_isolation(false)]
    pub fn new_shuffled<R: Rng>(rng: &mut R) -> (deck: Deck)
        ensures
            is_shuffled_pack(deck@),
            deck@.len() == 32,
            forall|c: Card| #[trigger] deck@.to_multiset().count(c) == 1,
            forall|c: Card| #[trigger] deck@.contains(c),
            deck.wf(),
    {
        let suits: [Suit; 4] = [Suit::Acorns, Suit::Leaves, Suit::Hearts, Suit::Bells];
        let faces: [Face; 8] = [
            Face::Seven,
            Face::Eight,
            Face::Nine,
            Face::Ten,
            Face::LowerKnave,
            Face::UpperKnave,
            Face::King,
            Face::Ace,
        ];
        let mut cards: Vec<Card> = Vec::new();
        let mut s: usize = 0;
        while s < 4
            invariant
                s <= 4,
                cards@ == pack().subrange(0, 8 * s),
            decreases 4 - s,
        {
            let mut f: usize = 0;
            while f < 8
                invariant
                    f <= 8,
                    cards@ == pack().subrange(0, 8 * s + f),
                decreases 8 - f,
            {
                let card = Card { suit: suits[s], face: faces[f] };
                proof {
                    let i = 8 * s + f;
                    assert(i / 8 == s && i % 8 == f);
                    assert(card == card_at(i));
                    assert(pack().subrange(0, i).push(card) =~= pack().subrange(0, i + 1));
                }
                cards.push(card);
                f += 1;
            }
            s += 1;
        }
        assert(cards@ =~= pack());
        shuffle(&mut cards, rng);
        let deck = Deck { cards };
        proof {
            lemma_shuffled_pack_holds_each_card_once(deck@);
        }
        deck
    }

    /// The number of cards left in the deck.
    pub fn count(&self) -> (n: usize)
        ensures
            n == self@.len(),
    {
        self.cards.len()
    }

    /// Takes the top `num_cards` cards for a new `Hand`, in the order in which
    /// they lay. The deck keeps the cards below them, and no card is in both.
    /// The deck must hold at least `num_cards` cards.
    pub fn deal(&mut self, num_cards: usize) -> (hand: Hand)
        requires
            old(self).wf(),
            num_cards <= old(self)@.len(),
        ensures
            final(self)@ == kept(old(self)@, num_cards as nat),
            hand@ == dealt(old(self)@, num_cards as nat),
            final(self)@.len() == old(self)@.len() - num_cards,
            hand@.len() == num_cards,
            final(self)@ + hand@ == old(self)@,
            forall|c: Card| !(final(self)@.contains(c) && hand@.contains(c)),
            final(self).wf(),
            hand.wf(),
    {
        let at: usize = self.count() - num_cards;
        let hand = Hand::holding(self.cards.split_off(at));
        proof {
            lemma_split_keeps_apart(old(self)@, at as int);
        }
        hand
    }
}

/// Cutting a sequence without duplicates at `at` gives two sequences without
/// duplicates that share no item and that, put together again, are the
/// sequence.
pub proof fn lemma_split_keeps_apart<A>(s: Seq<A>, at: int)
    requires
        0 <= at <= s.len(),
        s.no_duplicates(),
    ensures
        s.subrange(0, at).no_duplicates(),
        s.subrange(at, s.len() as int).no_duplicates(),
        s.subrange(0, at) + s.subrange(at, s.len() as int) == s,
        forall|x: A|
            !(s.subrange(0, at).contains(x) && s.subrange(at, s.len() as int).contains(x)),
{
    let low = s.subrange(0, at);
    let high = s.subrange(at, s.len() as int);
    assert(low + high =~= s);
    assert forall|x: A| !(low.contains(x) && high.contains(x)) by {
        if low.contains(x) && high.contains(x) {
            let j = choose|j: int| 0 <= j < low.len() && low[j] == x;
            let k = choose|k: int| 0 <= k < high.len() && high[k] == x;
            assert(s[j] == x && s[at + k] == x);
        }
    }
}

} // verus!
