//! The identity of a card: its suit and its face.

use vstd::prelude::*;
use vstd::std_specs::cmp::PartialOrdSpec;
use core::cmp::Ordering;

verus! {

/// The four suits of the German pack. No suit ranks above another.
#[derive(Clone, Copy, Debug, PartialEq, Eq, Hash, Structural)]
pub enum Suit {
    Acorns,
    Leaves,
    Hearts,
    Bells,
}

/// The eight faces of a suit, from the lowest to the highest. Faces are
/// ordered by their height: the seven is the least, the ace the greatest.
#[derive(Clone, Copy, Debug, PartialEq, Eq, Ord, Hash, Structural)]
pub enum Face {
    Seven,
    Eight,
    Nine,
    Ten,
    LowerKnave,
    UpperKnave,
    King,
    Ace,
}

/// One card of the pack.
#[derive(Clone, Copy, Debug, PartialEq, Eq, Hash, Structural)]
pub struct Card {
    pub suit: Suit,
    pub face: Face,
}

impl Suit {
    /// The place of the suit in the order in which a new pack is laid out.
    pub open spec fn index(self) -> int {
        match self {
            Suit::Acorns => 0,
            Suit::Leaves => 1,
            Suit::Hearts => 2,
            Suit::Bells => 3,
        }
    }
}

impl Face {
    /// The height of the face: 0 for the seven, 7 for the ace.
    pub open spec fn rank(self) -> int {
        match self {
            Face::Seven => 0,
            Face::Eight => 1,
            Face::Nine => 2,
            Face::Ten => 3,
            Face::LowerKnave => 4,
            Face::UpperKnave => 5,
            Face::King => 6,
            Face::Ace => 7,
        }
    }
}

impl Face {
    /// The height of the face as a number.
    fn height(&self) -> (h: u8)
        ensures
            h == self.rank(),
    {
        match self {
            Face::Seven => 0,
            Face::Eight => 1,
            Face::Nine => 2,
            Face::Ten => 3,
            Face::LowerKnave => 4,
            Face::UpperKnave => 5,
            Face::King => 6,
            Face::Ace => 7,
        }
    }
}

impl PartialOrd for Face {
    /// Compares two faces by their height.
    fn partial_cmp(&self, other: &Face) -> (order: Option<Ordering>) {
        let mine: u8 = self.height();
        let theirs: u8 = other.height();
        if mine < theirs {
            Some(Ordering::Less)
        } else if mine == theirs {
            Some(Ordering::Equal)
        } else {
            Some(Ordering::Greater)
        }
    }
}

impl vstd::std_specs::cmp::PartialOrdSpecImpl for Face {
    open spec fn obeys_partial_cmp_spec() -> bool {
        true
    }

    /// Any two faces can be compared, and the one of lesser height is the
    /// lesser.
    open spec fn partial_cmp_spec(&self, other: &Face) -> Option<Ordering> {
        if self.rank() < other.rank() {
            Some(Ordering::Less)
        } else if self.rank() == other.rank() {
            Some(Ordering::Equal)
        } else {
            Some(Ordering::Greater)
        }
    }
}

impl Card {
    /// The place of the card in a new pack: suit by suit, and within a suit
    /// from the seven up to the ace.
    pub open spec fn index(self) -> int {
        self.suit.index() * 8 + self.face.rank()
    }
}

/// The suit that stands at place `i` of the four.
pub open spec fn suit_at(i: int) -> Suit {
    if i == 0 {
        Suit::Acorns
    } else if i == 1 {
        Suit::Leaves
    } else if i == 2 {
        Suit::Hearts
    } else {
        Suit::Bells
    }
}

/// The face of height `i`.
pub open spec fn face_at(i: int) -> Face {
    if i == 0 {
        Face::Seven
    } else if i == 1 {
        Face::Eight
    } else if i == 2 {
        Face::Nine
    } else if i == 3 {
        Face::Ten
    } else if i == 4 {
        Face::LowerKnave
    } else if i == 5 {
        Face::UpperKnave
    } else if i == 6 {
        Face::King
    } else {
        Face::Ace
    }
}

/// The card that stands at place `i` of a new pack.
pub open spec fn card_at(i: int) -> Card {
    Card { suit: suit_at(i / 8), face: face_at(i % 8) }
}

/// A new pack: all 32 cards, each at the place its `index` gives.
pub open spec fn pack() -> Seq<Card> {
    Seq::new(32, |i: int| card_at(i))
}

/// Whether `cards` is a new pack in some order: it holds what the pack
/// holds, as often as the pack holds it.
pub open spec fn is_shuffled_pack(cards: Seq<Card>) -> bool {
    cards.to_multiset() == pack().to_multiset()
}

/// Every card there is stands in a new pack, at its own place and nowhere
/// else.
pub proof fn lemma_pack_holds_each_card_once()
    ensures
        pack().len() == 32,
        pack().no_duplicates(),
        forall|c: Card| 0 <= c.index() < 32 && #[trigger] pack()[c.index()] == c,
        forall|c: Card| #[trigger] pack().contains(c),
        forall|c: Card| #[trigger] pack().to_multiset().count(c) == 1,
{
    assert forall|c: Card| 0 <= c.index() < 32 && #[trigger] pack()[c.index()] == c by {
        let i = c.index();
        assert(i / 8 == c.suit.index() && i % 8 == c.face.rank());
    }
    assert forall|i: int| 0 <= i < 32 implies (#[trigger] pack()[i]).index() == i by {
        let c = pack()[i];
        assert(c.suit.index() == i / 8 && c.face.rank() == i % 8);
    }
    assert forall|c: Card| #[trigger] pack().contains(c) by {
        assert(pack()[c.index()] == c);
    }
    pack().lemma_multiset_has_no_duplicates();
    assert forall|c: Card| #[trigger] pack().to_multiset().count(c) == 1 by {
        assert(pack().contains(c));
        vstd::seq_lib::to_multiset_contains(pack(), c);
    }
}

/// A shuffled pack has 32 cards and holds every card there is exactly once.
pub proof fn lemma_shuffled_pack_holds_each_card_once(cards: Seq<Card>)
    requires
        is_shuffled_pack(cards),
    ensures
        cards.len() == 32,
        cards.no_duplicates(),
        forall|c: Card| #[trigger] cards.contains(c),
        forall|c: Card| #[trigger] cards.to_multiset().count(c) == 1,
{
    lemma_pack_holds_each_card_once();
    cards.lemma_multiset_has_no_duplicates_conv();
    assert forall|c: Card| #[trigger] cards.contains(c) by {
        vstd::seq_lib::to_multiset_contains(cards, c);
    }
    vstd::seq_lib::to_multiset_len(cards);
    vstd::seq_lib::to_multiset_len(pack());
}

/// The height tells the faces apart, so their order is total: of two
/// different faces one is the lesser, and a face equals only itself.
pub proof fn lemma_face_order_is_total(a: Face, b: Face)
    ensures
        0 <= a.rank() < 8,
        a.rank() == b.rank() <==> a == b,
        a.partial_cmp_spec(&b) == Some(Ordering::Equal) <==> a == b,
        a.partial_cmp_spec(&b) == Some(Ordering::Less) <==> b.partial_cmp_spec(&a) == Some(
            Ordering::Greater,
        ),
        a.partial_cmp_spec(&b) is Some,
{
}

} // verus!
