//! What a run of deals does to a deck: where each card ends up.

use vstd::prelude::*;
use crate::card::{is_shuffled_pack, lemma_shuffled_pack_holds_each_card_once, Card};
use crate::deck::{dealt, kept, lemma_split_keeps_apart};

verus! {

/// The number of cards that deals of these sizes take in all.
pub open spec fn total(sizes: Seq<nat>) -> nat
    decreases sizes.len(),
{
    if sizes.len() == 0 {
        0
    } else {
        sizes[0] + total(sizes.drop_first())
    }
}

/// Whether a deck of `len` cards can be dealt from with these sizes, one
/// deal after another: each deal finds as many cards as it asks for.
pub open spec fn can_deal(len: nat, sizes: Seq<nat>) -> bool
    decreases sizes.len(),
{
    sizes.len() == 0 || (sizes[0] <= len && can_deal(
        (len - sizes[0]) as nat,
        sizes.drop_first(),
    ))
}

/// The hands that deals of these sizes give, in the order of the deals.
pub open spec fn hands_dealt(deck: Seq<Card>, sizes: Seq<nat>) -> Seq<Seq<Card>>
    decreases sizes.len(),
{
    if sizes.len() == 0 {
        Seq::empty()
    } else {
        seq![dealt(deck, sizes[0])] + hands_dealt(kept(deck, sizes[0]), sizes.drop_first())
    }
}

/// The cards that are left in the deck after deals of these sizes.
pub open spec fn deck_left(deck: Seq<Card>, sizes: Seq<nat>) -> Seq<Card>
    decreases sizes.len(),
{
    if sizes.len() == 0 {
        deck
    } else {
        deck_left(kept(deck, sizes[0]), sizes.drop_first())
    }
}

/// Whether one of the hands holds the card.
pub open spec fn in_some_hand(hands: Seq<Seq<Card>>, c: Card) -> bool {
    exists|h: int| 0 <= h < hands.len() && #[trigger] hands[h].contains(c)
}

/// Deals that ask for no more cards in all than the deck has can be made
/// one after another.
pub proof fn lemma_deals_fit(len: nat, sizes: Seq<nat>)
    requires
        total(sizes) <= len,
    ensures
        can_deal(len, sizes),
    decreases sizes.len(),
{
    if sizes.len() > 0 {
        lemma_deals_fit((len - sizes[0]) as nat, sizes.drop_first());
    }
}

/// Dealing loses no card and makes none: after any run of deals from a deck
/// without duplicates, each card of the deck is either still in the deck or
/// in exactly one hand, once; each hand has the size that was asked for; and
/// the deck has shrunk by the cards dealt.
pub proof fn lemma_deals_conserve(deck: Seq<Card>, sizes: Seq<nat>)
    requires
        deck.no_duplicates(),
        can_deal(deck.len(), sizes),
    ensures
        hands_dealt(deck, sizes).len() == sizes.len(),
        forall|h: int|
            0 <= h < sizes.len() ==> (#[trigger] hands_dealt(deck, sizes)[h]).len() == sizes[h],
        deck_left(deck, sizes).len() + total(sizes) == deck.len(),
        deck_left(deck, sizes).no_duplicates(),
        forall|h: int|
            0 <= h < sizes.len() ==> (#[trigger] hands_dealt(deck, sizes)[h]).no_duplicates(),
        forall|h: int, k: int, c: Card|
            0 <= h < k < sizes.len() ==> !(#[trigger] hands_dealt(deck, sizes)[h].contains(c)
                && #[trigger] hands_dealt(deck, sizes)[k].contains(c)),
        forall|c: Card|
            #![trigger in_some_hand(hands_dealt(deck, sizes), c)]
            #![trigger deck_left(deck, sizes).contains(c)]
            !(in_some_hand(hands_dealt(deck, sizes), c) && deck_left(deck, sizes).contains(c)),
        forall|c: Card|
            #![trigger in_some_hand(hands_dealt(deck, sizes), c)]
            #![trigger deck_left(deck, sizes).contains(c)]
            #![trigger deck.contains(c)]
            deck.contains(c) <==> (in_some_hand(hands_dealt(deck, sizes), c) || deck_left(
                deck,
                sizes,
            ).contains(c)),
    decreases sizes.len(),
{
    let hands = hands_dealt(deck, sizes);
    let left = deck_left(deck, sizes);
    if sizes.len() == 0 {
        assert forall|c: Card| !#[trigger] in_some_hand(hands, c) by {}
    } else {
        let n = sizes[0];
        let rest = sizes.drop_first();
        let first = dealt(deck, n);
        let below = kept(deck, n);
        let others = hands_dealt(below, rest);
        lemma_split_keeps_apart(deck, deck.len() - n);
        lemma_deals_conserve(below, rest);
        assert(hands == seq![first] + others);
        assert(hands[0] == first);
        assert forall|h: int| 1 <= h < sizes.len() implies #[trigger] hands[h] == others[h - 1]
            && sizes[h] == rest[h - 1] by {}
        assert forall|c: Card| deck.contains(c) <==> (below.contains(c) || first.contains(
            c,
        )) by {
            if deck.contains(c) {
                let i = choose|i: int| 0 <= i < deck.len() && deck[i] == c;
                if i < below.len() {
                    assert(below[i] == c);
                } else {
                    assert(first[i - below.len()] == c);
                }
            }
            if below.contains(c) {
                let i = choose|i: int| 0 <= i < below.len() && below[i] == c;
                assert(deck[i] == c);
            }
            if first.contains(c) {
                let i = choose|i: int| 0 <= i < first.len() && first[i] == c;
                assert(deck[below.len() + i] == c);
            }
        }
        assert forall|c: Card|
            #![trigger in_some_hand(hands, c)]
            in_some_hand(hands, c) <==> (first.contains(c) || in_some_hand(others, c)) by {
            if in_some_hand(hands, c) {
                let h = choose|h: int| 0 <= h < hands.len() && #[trigger] hands[h].contains(c);
                if h > 0 {
                    assert(others[h - 1].contains(c));
                }
            }
            if first.contains(c) {
                assert(hands[0].contains(c));
            }
            if in_some_hand(others, c) {
                let h = choose|h: int| 0 <= h < others.len() && #[trigger] others[h].contains(c);
                assert(hands[h + 1].contains(c));
            }
        }
        assert forall|c: Card|
            #![trigger in_some_hand(hands, c)]
            #![trigger left.contains(c)]
            !(in_some_hand(hands, c) && left.contains(c)) by {
            if left.contains(c) {
                assert(!in_some_hand(others, c));
                assert(below.contains(c));
            }
        }
        assert forall|h: int, k: int, c: Card| 0 <= h < k < sizes.len() implies !(
        #[trigger] hands[h].contains(c) && #[trigger] hands[k].contains(c)) by {
            if hands[h].contains(c) && hands[k].contains(c) {
                assert(others[k - 1].contains(c));
                assert(in_some_hand(others, c));
                if h > 0 {
                    assert(others[h - 1].contains(c));
                }
            }
        }
    }
}

/// Dealing out a shuffled pack: deals whose sizes add up to 32 can all be
/// made, leave the deck empty, and put every card there is into exactly one
/// hand, once.
pub proof fn lemma_full_deal_hands_out_each_card_once(deck: Seq<Card>, sizes: Seq<nat>)
    requires
        is_shuffled_pack(deck),
        total(sizes) == 32,
    ensures
        can_deal(deck.len(), sizes),
        deck_left(deck, sizes).len() == 0,
        hands_dealt(deck, sizes).len() == sizes.len(),
        forall|c: Card| #[trigger] in_some_hand(hands_dealt(deck, sizes), c),
        forall|h: int|
            0 <= h < sizes.len() ==> (#[trigger] hands_dealt(deck, sizes)[h]).no_duplicates(),
        forall|h: int, k: int, c: Card|
            0 <= h < k < sizes.len() ==> !(#[trigger] hands_dealt(deck, sizes)[h].contains(c)
                && #[trigger] hands_dealt(deck, sizes)[k].contains(c)),
{
    lemma_shuffled_pack_holds_each_card_once(deck);
    lemma_deals_fit(deck.len(), sizes);
    lemma_deals_conserve(deck, sizes);
    assert forall|c: Card| #[trigger] in_some_hand(hands_dealt(deck, sizes), c) by {
        assert(deck.contains(c));
        assert(!deck_left(deck, sizes).contains(c));
    }
}

} // verus!
