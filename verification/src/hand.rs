//! A player's hand of cards.

use vstd::prelude::*;
use crate::card::Card;

verus! {

/// A player's hand: cards in the order in which they are held.
#[derive(Debug, Hash)]
pub struct Hand {
    cards: Vec<Card>,
}

impl View for Hand {
    type V = Seq<Card>;

    /// The cards held, first to last.
    closed spec fn view(&self) -> Seq<Card> {
        self.cards@
    }
}

impl Clone for Hand {
    /// A second hand that holds the same cards in the same order.
    fn clone(&self) -> (copy: Self)
        ensures
            copy@ == self@,
    {
        let copy = Hand { cards: self.cards.clone() };
        assert(copy.cards@ =~= self.cards@);
        copy
    }
}

impl Hand {
    /// A hand is well formed when it holds no card twice. Every hand that a
    /// deck deals is, and playing a card keeps it so.
    pub open spec fn wf(&self) -> bool {
        self@.no_duplicates()
    }

    /// The hand that holds `cards`, in their order.
    pub(crate) fn holding(cards: Vec<Card>) -> (hand: Hand)
        ensures
            hand@ == cards@,
    {
        Hand { cards }
    }

    /// All the cards currently in the hand, in the order in which they are
    /// held.
    pub fn cards(&self) -> (held: &[Card])
        ensures
            held@ == self@,
    {
        self.cards.as_slice()
    }

    /// The number of cards left.
    pub fn count(&self) -> (n: usize)
        ensures
            n == self@.len(),
    {
        self.cards.len()
    }

    /// Plays the card at `card_ndx`: takes it out of the hand and returns it.
    /// The cards behind it move up by one place, the others stay where they
    /// are, and the card that was played is no longer in the hand. There
    /// must be a card at `card_ndx`.
    pub fn play(&mut self, card_ndx: usize) -> (card: Card)
        requires
            old(self).wf(),
            card_ndx < old(self)@.len(),
        ensures
            card == old(self)@[card_ndx as int],
            final(self)@ == old(self)@.remove(card_ndx as int),
            final(self)@.len() == old(self)@.len() - 1,
            !final(self)@.contains(card),
            final(self).wf(),
    {
        proof {
            lemma_remove_takes_the_item_out(self.cards@, card_ndx as int);
        }
        self.cards.remove(card_ndx)
    }
}

/// Taking the item at `i` out of a sequence without duplicates leaves a
/// sequence without duplicates that no longer holds that item.
pub proof fn lemma_remove_takes_the_item_out<A>(s: Seq<A>, i: int)
    requires
        0 <= i < s.len(),
        s.no_duplicates(),
    ensures
        s.remove(i).no_duplicates(),
        !s.remove(i).contains(s[i]),
        s.remove(i).len() == s.len() - 1,
{
    let r = s.remove(i);
    assert forall|j: int, k: int| 0 <= j < r.len() && 0 <= k < r.len() && j != k implies r[j]
        != r[k] by {
        let sj = if j < i { j } else { j + 1 };
        let sk = if k < i { k } else { k + 1 };
        assert(r[j] == s[sj] && r[k] == s[sk]);
    }
    if r.contains(s[i]) {
        let j = choose|j: int| 0 <= j < r.len() && r[j] == s[i];
        let sj = if j < i { j } else { j + 1 };
        assert(r[j] == s[sj]);
    }
}

} // verus!
