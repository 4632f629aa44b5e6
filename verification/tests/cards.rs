use crew_solver::card::{Card, Suit};
use crew_solver::hand::Hand;
use crew_solver::player::Player;
use crew_solver::state::State;
use crew_solver::trick::Trick;

const COLORS: [fn(usize) -> Card; 4] = [Card::Pink, Card::Green, Card::Blue, Card::Yellow];

#[test]
fn test_is_valid_valid() {
    for i in 1..10 {
        for variant in COLORS {
            assert!(variant(i).is_valid());
        }
    }
    for i in 1..5 {
        assert!(Card::Trump(i).is_valid());
    }
}

#[test]
fn test_is_valid_invalid() {
    for i in [0, 10, 11, 12] {
        for variant in COLORS {
            assert!(!variant(i).is_valid());
        }
    }
    for i in [0, 5, 6, 7, 8, 9, 10] {
        assert!(!Card::Trump(i).is_valid());
    }
}

#[test]
fn test_val() {
    for i in 1..10 {
        for variant in COLORS {
            assert_eq!(variant(i).val(), i);
        }
    }
    for i in 1..5 {
        assert_eq!(Card::Trump(i).val(), i);
    }
}

#[test]
fn test_is_trump() {
    for i in 1..10 {
        for variant in COLORS {
            assert!(!variant(i).is_trump());
        }
    }
    for i in 1..5 {
        assert!(Card::Trump(i).is_trump());
    }
}

#[test]
fn test_is_same_color_same() {
    for i in 1..10 {
        for j in 1..10 {
            for variant in COLORS {
                assert!(variant(i).same_color(&variant(j)));
            }
        }
    }
    for i in 1..5 {
        for j in 1..5 {
            assert!(Card::Trump(i).same_color(&Card::Trump(j)));
        }
    }
}

#[test]
fn test_is_same_color_different() {
    let variants = [
        (10, Card::Pink as fn(usize) -> Card),
        (10, Card::Green),
        (10, Card::Blue),
        (10, Card::Yellow),
        (5, Card::Trump),
    ];

    for (i1, (b1, v1)) in variants.iter().enumerate() {
        for (i2, (b2, v2)) in variants.iter().enumerate() {
            if i1 == i2 {
                continue;
            }
            for i in 1..*b1 {
                for j in 1..*b2 {
                    assert!(!v1(i).same_color(&v2(j)));
                }
            }
        }
    }
}

#[test]
fn test_playable_cards() {
    let hand = Hand::new(vec![Card::Blue(1), Card::Blue(2), Card::Pink(5), Card::Trump(3)])
        .unwrap();

    assert_eq!(
        hand.playable_cards(Some(&Card::Blue(5))),
        vec![Card::Blue(1), Card::Blue(2)]
    );
    assert_eq!(hand.playable_cards(Some(&Card::Pink(3))), vec![Card::Pink(5)]);
    assert_eq!(
        hand.playable_cards(Some(&Card::Trump(4))),
        vec![Card::Trump(3)]
    );

    assert_eq!(hand.playable_cards(Some(&Card::Yellow(5))), hand.cards);
    assert_eq!(hand.playable_cards(None), hand.cards);
}

#[test]
fn test_suit_of_cards() {
    assert_eq!(Card::Pink(3).suit(), Suit::Pink);
    assert_eq!(Card::Trump(2).suit(), Suit::Trump);
    assert!(Card::Blue(4).has_suit(Suit::Blue));
    assert!(!Card::Blue(4).has_suit(Suit::Green));
}

#[test]
fn test_hand_with_invalid_card() {
    assert!(Hand::new(vec![Card::Blue(0)]).is_err());
}

#[test]
fn test_hand_with_duplicates() {
    assert!(Hand::new(vec![Card::Blue(1), Card::Blue(1)]).is_err());
}

#[test]
fn test_is_captain() {
    let captain = Player::new(Hand::new(vec![Card::Green(1), Card::Trump(4)]).unwrap());
    assert!(captain.is_captain());

    let not_captain = Player::new(Hand::new(vec![Card::Yellow(4), Card::Green(1)]).unwrap());
    assert!(!not_captain.is_captain());
}

#[test]
fn test_remove_card_from_hand() {
    let mut p = Player::new(Hand::new(vec![Card::Yellow(6), Card::Pink(2)]).unwrap());

    assert!(p.remove_card_from_hand(&Card::Yellow(6)).is_ok());
    assert!(p.remove_card_from_hand(&Card::Yellow(6)).is_err());
    assert!(p.remove_card_from_hand(&Card::Pink(4)).is_err());
    assert_eq!(*p.get_hand(), Hand::new(vec![Card::Pink(2)]).unwrap());
}

#[test]
fn test_trick_with_invalid_card() {
    assert!(Trick::new(0, 0, vec![Card::Blue(0)]).is_err());
}

#[test]
fn test_trick_with_duplicates() {
    assert!(Trick::new(0, 0, vec![Card::Blue(1), Card::Blue(1)]).is_err());
}

#[test]
fn test_winner_all_same_color() {
    let mut trick = Trick::new(
        0,
        0,
        vec![Card::Blue(1), Card::Blue(7), Card::Blue(4), Card::Blue(5)],
    )
    .unwrap();

    assert_eq!(trick.winner(), 1);
    trick.set_first_player(1);
    assert_eq!(trick.winner(), 2);
    trick.set_first_player(2);
    assert_eq!(trick.winner(), 3);
    trick.set_first_player(3);
    assert_eq!(trick.winner(), 0);
}

#[test]
fn test_winner_others_discarded() {
    let mut trick = Trick::new(
        0,
        0,
        vec![Card::Blue(1), Card::Pink(2), Card::Pink(9), Card::Yellow(8)],
    )
    .unwrap();

    assert_eq!(trick.winner(), 0);
    trick.set_first_player(1);
    assert_eq!(trick.winner(), 1);
    trick.set_first_player(2);
    assert_eq!(trick.winner(), 2);
    trick.set_first_player(3);
    assert_eq!(trick.winner(), 3);
}

#[test]
fn test_winner_some_trumped() {
    let mut trick = Trick::new(
        0,
        0,
        vec![Card::Blue(1), Card::Blue(7), Card::Trump(2), Card::Trump(3)],
    )
    .unwrap();

    assert_eq!(trick.winner(), 3);
    trick.set_first_player(1);
    assert_eq!(trick.winner(), 0);
    trick.set_first_player(2);
    assert_eq!(trick.winner(), 1);
    trick.set_first_player(3);
    assert_eq!(trick.winner(), 2);
}

#[test]
fn test_winner_highest_trump_regardless_of_lead() {
    // A lone low trump still beats every ordinary card, whatever led.
    let trick = Trick::new(0, 0, vec![Card::Blue(9), Card::Trump(1)]).unwrap();
    assert_eq!(trick.winner(), 1);
}

#[test]
fn test_state_new_detects_duplicates_across_hands() {
    let p1 = Player::new(Hand::new(vec![Card::Trump(4), Card::Blue(3)]).unwrap());
    let p2 = Player::new(Hand::new(vec![Card::Blue(3), Card::Pink(1)]).unwrap());
    assert!(matches!(
        State::new(vec![p1, p2]),
        Err(crew_solver::state::GameError::DuplicateCard(_))
    ));
}

#[test]
fn test_state_new_missing_captain() {
    let p1 = Player::new(Hand::new(vec![Card::Blue(3)]).unwrap());
    let p2 = Player::new(Hand::new(vec![Card::Pink(1)]).unwrap());
    assert!(matches!(
        State::new(vec![p1, p2]),
        Err(crew_solver::state::GameError::MissingCaptain)
    ));
}

#[test]
fn test_state_new_player_count() {
    assert!(matches!(
        State::new(vec![]),
        Err(crew_solver::state::GameError::InvalidPlayerCount(0))
    ));
}

#[test]
fn test_state_new_invalid_first_player() {
    let p1 = Player::new(Hand::new(vec![Card::Trump(4)]).unwrap());
    let p2 = Player::new(Hand::new(vec![Card::Pink(1)]).unwrap());
    assert!(matches!(
        State::new_with_first_player(vec![p1, p2], 2),
        Err(crew_solver::state::GameError::InvalidFirstPlayer(2, 2))
    ));
}

#[test]
fn test_state_new_invalid_trick_size() {
    let mut p1 = Player::new(Hand::new(vec![Card::Trump(4)]).unwrap());
    p1.add_trick(Trick::new(0, 0, vec![Card::Blue(1), Card::Blue(2), Card::Blue(3)]).unwrap())
        .unwrap();
    let p2 = Player::new(Hand::new(vec![Card::Pink(1)]).unwrap());
    assert!(matches!(
        State::new(vec![p1, p2]),
        Err(crew_solver::state::GameError::InvalidTrickSize(2, 3))
    ));
}
