use std::collections::HashSet;

use cards::{Card, Deck, Face, Hand, Suit};
use rand::rngs::mock::StepRng;
use rand::Rng;

const SUITS: [Suit; 4] = [Suit::Acorns, Suit::Leaves, Suit::Hearts, Suit::Bells];

const FACES: [Face; 8] = [
    Face::Seven,
    Face::Eight,
    Face::Nine,
    Face::Ten,
    Face::LowerKnave,
    Face::UpperKnave,
    Face::King,
    Face::Ace,
];

/// The new pack, suit by suit and each suit from the seven up.
fn new_pack() -> Vec<Card> {
    let mut pack = Vec::new();
    for suit in SUITS.iter() {
        for face in FACES.iter() {
            pack.push(Card { suit: *suit, face: *face });
        }
    }
    pack
}

/// The order of a deck, bottom to top, read off a copy that is dealt out whole.
fn order_of(deck: &Deck) -> Vec<Card> {
    let mut copy = deck.clone();
    let count: usize = copy.count();
    copy.deal(count).cards().to_vec()
}

#[test]
fn deal() {
    let mut deck = Deck::new_shuffled(&mut StepRng::new(2, 5));
    assert_eq!(deck.count(), 32);

    let hand1 = deck.deal(12);
    assert_eq!(hand1.count(), 12);
    let hand2 = deck.deal(10);
    assert_eq!(hand2.count(), 10);
    let hand3 = deck.deal(10);
    assert_eq!(hand3.count(), 10);

    assert_eq!(deck.count(), 0);

    // Ensure all cards are unique (and by extension every possible card is
    // contained).
    let mut seen_cards = HashSet::<Card>::new();
    for hand in &[&hand1, &hand2, &hand3] {
        for card in hand.cards() {
            assert!(seen_cards.insert(*card));
        }
    }
}

#[test]
fn play() {
    let mut rng = StepRng::new(3, 7);
    let mut deck = Deck::new_shuffled(&mut rng);
    let mut hand = deck.deal(10);

    // Ensure no card is taken twice.
    let mut seen_cards = HashSet::<Card>::new();
    for i in 0..10 {
        let card = hand.play(rng.gen_range(0, 10 - i));
        assert!(seen_cards.insert(card));
        assert_eq!(hand.count(), 9 - i);
    }
}

#[test]
fn full_deal_covers_every_suit_and_face() {
    let mut deck = Deck::new_shuffled(&mut StepRng::new(2, 5));
    let hands: Vec<Hand> = vec![deck.deal(12), deck.deal(10), deck.deal(10)];
    assert_eq!(deck.count(), 0);

    let mut seen_cards = HashSet::<Card>::new();
    for hand in hands.iter() {
        for card in hand.cards() {
            assert!(seen_cards.insert(*card));
        }
    }
    assert_eq!(seen_cards.len(), 32);
    for suit in SUITS.iter() {
        for face in FACES.iter() {
            assert!(seen_cards.contains(&Card { suit: *suit, face: *face }));
        }
    }
}

#[test]
fn new_deck_holds_every_card_once() {
    let seeds: [(u64, u64); 4] = [(0, 0), (2, 5), (3, 7), (0x9e37_79b9_7f4a_7c15, 0x1234_5678_9abc_def1)];
    for (initial, increment) in seeds.iter() {
        let deck = Deck::new_shuffled(&mut StepRng::new(*initial, *increment));
        assert_eq!(deck.count(), 32);
        let order = order_of(&deck);
        assert_eq!(order.len(), 32);
        for card in new_pack().iter() {
            let times: usize = order.iter().filter(|held| *held == card).count();
            assert_eq!(times, 1);
        }
    }
}

#[test]
fn counting_source_turns_the_pack_by_one() {
    // A source that counts up in small steps makes every draw of the shuffle
    // come out as 0, so each card in turn is swapped with the bottom one.
    let deck = Deck::new_shuffled(&mut StepRng::new(2, 5));
    let pack = new_pack();
    let mut expected: Vec<Card> = pack[1..].to_vec();
    expected.push(pack[0]);
    assert_eq!(order_of(&deck), expected);
    assert_ne!(order_of(&deck), pack);
}

#[test]
fn spread_source_leaves_the_canonical_order() {
    let deck = Deck::new_shuffled(&mut StepRng::new(0x9e37_79b9_7f4a_7c15, 0x1234_5678_9abc_def1));
    assert_ne!(order_of(&deck), new_pack());
}

#[test]
fn deal_takes_the_top_cards_in_order() {
    let mut deck = Deck::new_shuffled(&mut StepRng::new(3, 7));
    let order = order_of(&deck);

    let hand1 = deck.deal(12);
    assert_eq!(hand1.cards(), &order[20..32]);
    assert_eq!(order_of(&deck), order[..20].to_vec());

    let hand2 = deck.deal(10);
    assert_eq!(hand2.cards(), &order[10..20]);
    assert_eq!(order_of(&deck), order[..10].to_vec());

    let hand3 = deck.deal(10);
    assert_eq!(hand3.cards(), &order[..10]);
    assert_eq!(deck.count(), 0);
}

#[test]
fn deal_exact_cards_after_counting_source() {
    let mut deck = Deck::new_shuffled(&mut StepRng::new(2, 5));
    let hand = deck.deal(3);
    assert_eq!(
        hand.cards(),
        &[
            Card { suit: Suit::Bells, face: Face::King },
            Card { suit: Suit::Bells, face: Face::Ace },
            Card { suit: Suit::Acorns, face: Face::Seven },
        ]
    );
    assert_eq!(deck.count(), 29);
}

#[test]
fn deal_conserves_the_count() {
    for n in 0..=32usize {
        let mut deck = Deck::new_shuffled(&mut StepRng::new(2, 5));
        let hand = deck.deal(n);
        assert_eq!(hand.count(), n);
        assert_eq!(hand.cards().len(), n);
        assert_eq!(deck.count(), 32 - n);
    }
}

#[test]
fn deal_nothing_gives_an_empty_hand() {
    let mut deck = Deck::new_shuffled(&mut StepRng::new(2, 5));
    let order = order_of(&deck);
    let hand = deck.deal(0);
    assert_eq!(hand.count(), 0);
    assert!(hand.cards().is_empty());
    assert_eq!(deck.count(), 32);
    assert_eq!(order_of(&deck), order);
}

#[test]
fn deal_from_an_empty_deck() {
    let mut deck = Deck::new_shuffled(&mut StepRng::new(2, 5));
    let all = deck.deal(32);
    assert_eq!(all.count(), 32);
    assert_eq!(deck.count(), 0);
    let none = deck.deal(0);
    assert_eq!(none.count(), 0);
    assert_eq!(deck.count(), 0);
}

#[test]
fn dealt_hands_share_no_card_with_the_deck() {
    let mut deck = Deck::new_shuffled(&mut StepRng::new(3, 7));
    let hand = deck.deal(7);
    let left = order_of(&deck);
    for card in hand.cards() {
        assert!(!left.contains(card));
    }
}

#[test]
fn play_takes_the_card_out_and_closes_the_gap() {
    let mut deck = Deck::new_shuffled(&mut StepRng::new(2, 5));
    let mut hand = deck.deal(5);
    let before: Vec<Card> = hand.cards().to_vec();

    let card = hand.play(2);
    assert_eq!(card, before[2]);
    assert_eq!(hand.count(), 4);
    assert_eq!(hand.cards(), &[before[0], before[1], before[3], before[4]]);
    assert!(!hand.cards().contains(&card));

    let first = hand.play(0);
    assert_eq!(first, before[0]);
    assert_eq!(hand.cards(), &[before[1], before[3], before[4]]);

    let last = hand.play(2);
    assert_eq!(last, before[4]);
    assert_eq!(hand.cards(), &[before[1], before[3]]);
}

#[test]
fn play_out_a_hand_in_a_fixed_order_of_places() {
    let mut deck = Deck::new_shuffled(&mut StepRng::new(3, 7));
    let mut hand = deck.deal(10);
    let held: Vec<Card> = hand.cards().to_vec();
    let places: [usize; 10] = [9, 0, 4, 4, 2, 0, 3, 1, 1, 0];

    let mut played: Vec<Card> = Vec::new();
    for (turn, place) in places.iter().enumerate() {
        let card = hand.play(*place);
        assert!(!played.contains(&card));
        assert!(held.contains(&card));
        assert!(!hand.cards().contains(&card));
        played.push(card);
        assert_eq!(hand.count(), 9 - turn);
    }
    assert_eq!(hand.count(), 0);
    assert!(hand.cards().is_empty());

    let seen: HashSet<Card> = played.iter().copied().collect();
    assert_eq!(seen.len(), 10);
    let owned: HashSet<Card> = held.iter().copied().collect();
    assert_eq!(seen, owned);
}

#[test]
fn play_the_only_card() {
    let mut deck = Deck::new_shuffled(&mut StepRng::new(2, 5));
    let mut hand = deck.deal(1);
    let held = hand.cards()[0];
    assert_eq!(hand.play(0), held);
    assert_eq!(hand.count(), 0);
}

#[test]
fn cards_is_a_view_that_changes_nothing() {
    let mut deck = Deck::new_shuffled(&mut StepRng::new(2, 5));
    let hand = deck.deal(8);
    let once: Vec<Card> = hand.cards().to_vec();
    let twice: Vec<Card> = hand.cards().to_vec();
    assert_eq!(once, twice);
    assert_eq!(hand.count(), 8);
    assert_eq!(hand.cards().len(), hand.count());
}

#[test]
fn clones_are_independent() {
    let mut deck = Deck::new_shuffled(&mut StepRng::new(2, 5));
    let copy = deck.clone();
    let mut hand = deck.deal(6);
    assert_eq!(copy.count(), 32);
    assert_eq!(deck.count(), 26);

    let kept = hand.clone();
    let card = hand.play(1);
    assert_eq!(kept.count(), 6);
    assert_eq!(kept.cards()[1], card);
    assert_eq!(hand.count(), 5);
}
