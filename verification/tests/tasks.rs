use crew_solver::card::{Card, Suit};
use crew_solver::hand::Hand;
use crew_solver::player::Player;
use crew_solver::state::State;
use crew_solver::task::dont_win_cards::TaskDontWinCards;
use crew_solver::task::dont_win_tricks::TaskDontWinTricks;
use crew_solver::task::win_cards::TaskWinCards;
use crew_solver::task::win_cards_amount_number::TaskWinCardsAmountNumber;
use crew_solver::task::win_nb_tricks::TaskWinNbTricks;
use crew_solver::task::win_trick_with_pred::TaskWinTrickWithPred;
use crew_solver::task::TaskStatus;
use crew_solver::trick::Trick;

fn hand(cards: Vec<Card>) -> Hand {
    Hand::new(cards).unwrap()
}

fn trick(idx: usize, fp: usize, cards: Vec<Card>) -> Trick {
    Trick::new(idx, fp, cards).unwrap()
}

#[test]
fn done_blue_3_tricks() {
    let p1 = Player::new(hand(vec![Card::Trump(4)]));
    let p2 = Player::new(hand(vec![Card::Green(4)]));
    let mut p3 = Player::new(hand(vec![Card::Pink(8)]));
    p3.add_trick(trick(0, 0, vec![Card::Blue(7), Card::Blue(8), Card::Blue(9)]))
        .unwrap();
    p3.add_trick(trick(1, 2, vec![Card::Blue(6), Card::Blue(5), Card::Blue(4)]))
        .unwrap();
    p3.add_trick(trick(2, 2, vec![Card::Blue(3), Card::Blue(1), Card::Blue(2)]))
        .unwrap();
    let state = State::new(vec![p1, p2, p3]).unwrap();

    assert_eq!(
        TaskDontWinCards::new_from_colors(vec![Suit::Blue]).eval(&state, 1),
        TaskStatus::Done
    )
}

#[test]
fn failed_5s_1_trick() {
    let p1 = Player::new(hand(vec![]));
    let mut p2 = Player::new(hand(vec![]));
    p2.add_trick(trick(0, 1, vec![Card::Trump(4), Card::Pink(5)]))
        .unwrap();
    let state = State::new(vec![p1, p2]).unwrap();

    assert_eq!(
        TaskDontWinCards::new_from_values(vec![5]).eval(&state, 1),
        TaskStatus::Failed
    );
}

#[test]
fn unknown_green_pink_2_tricks() {
    let p1 = Player::new(hand(vec![Card::Pink(2)]));
    let mut p2 = Player::new(hand(vec![Card::Yellow(6)]));
    p2.add_trick(trick(0, 1, vec![Card::Trump(4), Card::Green(5)]))
        .unwrap();
    p2.add_trick(trick(1, 1, vec![Card::Pink(9), Card::Blue(2)]))
        .unwrap();
    let state = State::new(vec![p1, p2]).unwrap();

    assert_eq!(
        TaskDontWinCards::new_from_colors(vec![Suit::Green, Suit::Pink]).eval(&state, 0),
        TaskStatus::Unknown
    );
}

#[test]
fn done_2_cards_1_trick() {
    let mut p1 = Player::new(hand(vec![Card::Trump(4)]));
    p1.add_trick(trick(0, 0, vec![Card::Blue(1), Card::Blue(2)]))
        .unwrap();
    let p2 = Player::new(hand(vec![Card::Trump(1)]));
    let state = State::new(vec![p1, p2]).unwrap();

    assert_eq!(
        TaskWinCards::new(vec![Card::Blue(1), Card::Blue(2)]).eval(&state, 0),
        TaskStatus::Done
    );
}

#[test]
fn done_2_cards_2_tricks() {
    let mut p1 = Player::new(hand(vec![]));
    p1.add_trick(trick(0, 0, vec![Card::Blue(1), Card::Trump(4)]))
        .unwrap();
    p1.add_trick(trick(1, 0, vec![Card::Blue(2), Card::Pink(8)]))
        .unwrap();
    let p2 = Player::new(hand(vec![]));
    let state = State::new(vec![p1, p2]).unwrap();

    assert_eq!(
        TaskWinCards::new(vec![Card::Blue(1), Card::Blue(2)]).eval(&state, 0),
        TaskStatus::Done
    );
}

#[test]
fn failed_2_cards_2_tricks() {
    let mut p1 = Player::new(hand(vec![]));
    p1.add_trick(trick(0, 0, vec![Card::Blue(1), Card::Trump(4)]))
        .unwrap();
    let mut p2 = Player::new(hand(vec![]));
    p2.add_trick(trick(1, 0, vec![Card::Blue(2), Card::Pink(1)]))
        .unwrap();
    let state = State::new(vec![p1, p2]).unwrap();

    assert_eq!(
        TaskWinCards::new(vec![Card::Blue(1), Card::Blue(2)]).eval(&state, 0),
        TaskStatus::Failed
    );
}

#[test]
fn unknown_2_cards_1_trick() {
    let mut p1 = Player::new(hand(vec![]));
    p1.add_trick(trick(0, 0, vec![Card::Blue(1), Card::Trump(4)]))
        .unwrap();
    let p2 = Player::new(hand(vec![]));
    let state = State::new(vec![p1, p2]).unwrap();

    assert_eq!(
        TaskWinCards::new(vec![Card::Blue(1), Card::Blue(2)]).eval(&state, 0),
        TaskStatus::Unknown
    );
}

#[test]
fn win_nb_tricks_statuses() {
    // One trick won out of two possible rounds: "exactly two" is still open,
    // "exactly zero" is already impossible.
    let mut p1 = Player::new(hand(vec![Card::Blue(1), Card::Blue(3)]));
    p1.add_trick(trick(0, 0, vec![Card::Trump(4), Card::Trump(1)]))
        .unwrap();
    let p2 = Player::new(hand(vec![Card::Green(2), Card::Green(5)]));
    let state = State::new(vec![p1, p2]).unwrap();

    assert_eq!(TaskWinNbTricks::new(2).eval(&state, 0), TaskStatus::Unknown);
    assert_eq!(TaskWinNbTricks::new(0).eval(&state, 0), TaskStatus::Failed);
    assert_eq!(TaskWinNbTricks::new(4).eval(&state, 0), TaskStatus::Failed);
}

#[test]
fn dont_win_tricks_statuses() {
    let mut p1 = Player::new(hand(vec![Card::Blue(1)]));
    p1.add_trick(trick(0, 0, vec![Card::Trump(4), Card::Trump(1)]))
        .unwrap();
    let p2 = Player::new(hand(vec![Card::Green(2)]));
    let state = State::new(vec![p1, p2]).unwrap();

    // The first round was won by the assignee.
    assert_eq!(
        TaskDontWinTricks::new(vec![0]).eval(&state, 0),
        TaskStatus::Failed
    );
    // The first round is past and the other player never won it.
    assert_eq!(
        TaskDontWinTricks::new(vec![0]).eval(&state, 1),
        TaskStatus::Done
    );
    // The second round is still to come.
    assert_eq!(
        TaskDontWinTricks::new(vec![1]).eval(&state, 1),
        TaskStatus::Unknown
    );
}

#[test]
fn win_trick_with_pred_even() {
    let mut p1 = Player::new(hand(vec![Card::Blue(1)]));
    p1.add_trick(trick(0, 0, vec![Card::Blue(2), Card::Green(4)]))
        .unwrap();
    let mut p2 = Player::new(hand(vec![Card::Green(2)]));
    p2.add_trick(trick(1, 0, vec![Card::Trump(4), Card::Pink(3)]))
        .unwrap();
    let state = State::new(vec![p1, p2]).unwrap();

    assert_eq!(TaskWinTrickWithPred::new_even().eval(&state, 0), TaskStatus::Done);
    assert_eq!(
        TaskWinTrickWithPred::new_even().eval(&state, 1),
        TaskStatus::Unknown
    );
    assert_eq!(
        TaskWinTrickWithPred::new_total_in(vec![6]).eval(&state, 0),
        TaskStatus::Done
    );
    assert_eq!(
        TaskWinTrickWithPred::new_total_in(vec![5]).eval(&state, 0),
        TaskStatus::Unknown
    );
}

#[test]
fn amount_number_exact_expected_value() {
    // The assignee has won two 9s and one more 9 remains in play: "exactly
    // two 9s" stays open until the last 9 settles, while "at least two 9s"
    // is already met.
    let mut p1 = Player::new(hand(vec![Card::Blue(5)]));
    p1.add_trick(trick(0, 0, vec![Card::Blue(9), Card::Green(9)]))
        .unwrap();
    let p2 = Player::new(hand(vec![Card::Trump(4), Card::Pink(9)]));
    let state = State::new(vec![p1, p2]).unwrap();

    assert_eq!(
        TaskWinCardsAmountNumber::new_exactly_two_9s().eval(&state, 0),
        TaskStatus::Unknown
    );
    assert_eq!(
        TaskWinCardsAmountNumber::new(false, vec![(9, 2)]).eval(&state, 0),
        TaskStatus::Done
    );
}
