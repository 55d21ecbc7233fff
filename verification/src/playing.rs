//! What a run of plays does to a hand: which cards come out of it.

use vstd::prelude::*;
use crate::card::Card;
use crate::hand::lemma_remove_takes_the_item_out;

verus! {

/// Whether a hand of `len` cards can be played from at these places, one
/// play after another: each play names a place that the hand then has.
pub open spec fn can_play(len: nat, picks: Seq<int>) -> bool
    decreases picks.len(),
{
    picks.len() == 0 || (0 <= picks[0] < len && can_play((len - 1) as nat, picks.drop_first()))
}

/// The cards that plays at these places give, in the order of the plays.
pub open spec fn cards_played(hand: Seq<Card>, picks: Seq<int>) -> Seq<Card>
    decreases picks.len(),
{
    if picks.len() == 0 {
        Seq::empty()
    } else {
        seq![hand[picks[0]]] + cards_played(hand.remove(picks[0]), picks.drop_first())
    }
}

/// The cards that are left in the hand after plays at these places.
pub open spec fn hand_left(hand: Seq<Card>, picks: Seq<int>) -> Seq<Card>
    decreases picks.len(),
{
    if picks.len() == 0 {
        hand
    } else {
        hand_left(hand.remove(picks[0]), picks.drop_first())
    }
}

/// No card is played twice: after any run of plays from a hand without
/// duplicates, the cards played are all different, each of them was in the
/// hand, none of them is left in it, and every card of the hand was either
/// played or is left.
pub proof fn lemma_plays_never_repeat(hand: Seq<Card>, picks: Seq<int>)
    requires
        hand.no_duplicates(),
        can_play(hand.len(), picks),
    ensures
        cards_played(hand, picks).len() == picks.len(),
        hand_left(hand, picks).len() == hand.len() - picks.len(),
        cards_played(hand, picks).no_duplicates(),
        hand_left(hand, picks).no_duplicates(),
        forall|c: Card|
            #![trigger cards_played(hand, picks).contains(c)]
            #![trigger hand_left(hand, picks).contains(c)]
            !(cards_played(hand, picks).contains(c) && hand_left(hand, picks).contains(c)),
        forall|c: Card|
            #![trigger cards_played(hand, picks).contains(c)]
            #![trigger hand_left(hand, picks).contains(c)]
            hand.contains(c) <==> (cards_played(hand, picks).contains(c) || hand_left(
                hand,
                picks,
            ).contains(c)),
    decreases picks.len(),
{
    let played = cards_played(hand, picks);
    let left = hand_left(hand, picks);
    if picks.len() > 0 {
        let i = picks[0];
        let card = hand[i];
        let after = hand.remove(i);
        let rest = picks.drop_first();
        let later = cards_played(after, rest);
        lemma_remove_takes_the_item_out(hand, i);
        lemma_plays_never_repeat(after, rest);
        assert(played == seq![card] + later);
        assert(played[0] == card);
        assert forall|j: int| 1 <= j < played.len() implies #[trigger] played[j] == later[j
            - 1] by {}
        assert forall|c: Card| hand.contains(c) <==> (c == card || after.contains(c)) by {
            if hand.contains(c) && c != card {
                let j = choose|j: int| 0 <= j < hand.len() && hand[j] == c;
                assert(after[if j < i { j } else { j - 1 }] == c);
            }
            if after.contains(c) {
                let j = choose|j: int| 0 <= j < after.len() && after[j] == c;
                assert(hand[if j < i { j } else { j + 1 }] == c);
            }
        }
        assert forall|c: Card| played.contains(c) <==> (c == card || later.contains(c)) by {
            if played.contains(c) {
                let j = choose|j: int| 0 <= j < played.len() && played[j] == c;
                if j > 0 {
                    assert(later[j - 1] == c);
                }
            }
            if later.contains(c) {
                let j = choose|j: int| 0 <= j < later.len() && later[j] == c;
                assert(played[j + 1] == c);
            }
        }
        assert(!later.contains(card));
        assert forall|j: int, k: int| 0 <= j < k < played.len() implies played[j] != played[k] by {
            assert(later.contains(played[k]));
            if j > 0 {
                assert(played[j] == later[j - 1] && played[k] == later[k - 1]);
            }
        }
        assert forall|c: Card|
            hand.contains(c) <==> (played.contains(c) || left.contains(c)) by {
            assert(after.contains(c) <==> (later.contains(c) || left.contains(c)));
        }
    }
}

/// Playing a hand out: as many plays as the hand has cards leave it empty
/// and give every card of the hand exactly once, and no other card.
pub proof fn lemma_playing_out_gives_each_card_once(hand: Seq<Card>, picks: Seq<int>)
    requires
        hand.no_duplicates(),
        can_play(hand.len(), picks),
        picks.len() == hand.len(),
    ensures
        hand_left(hand, picks).len() == 0,
        cards_played(hand, picks).len() == hand.len(),
        cards_played(hand, picks).no_duplicates(),
        forall|c: Card|
            #![trigger cards_played(hand, picks).contains(c)]
            #![trigger hand.contains(c)]
            cards_played(hand, picks).contains(c) <==> hand.contains(c),
        cards_played(hand, picks).to_multiset() == hand.to_multiset(),
{
    let played = cards_played(hand, picks);
    lemma_plays_never_repeat(hand, picks);
    assert forall|c: Card| played.contains(c) <==> hand.contains(c) by {
        assert(!hand_left(hand, picks).contains(c));
    }
    played.lemma_multiset_has_no_duplicates();
    hand.lemma_multiset_has_no_duplicates();
    assert forall|c: Card| played.to_multiset().count(c) == hand.to_multiset().count(c) by {
        vstd::seq_lib::to_multiset_contains(played, c);
        vstd::seq_lib::to_multiset_contains(hand, c);
        assert(played.contains(c) <==> hand.contains(c));
    }
    assert(played.to_multiset() =~= hand.to_multiset());
}

} // verus!
