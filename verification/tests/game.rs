use crew_solver::card::{Card, Suit, NB_CARDS};
use crew_solver::hand::Hand;
use crew_solver::player::Player;
use crew_solver::state::{GameError, State};
use crew_solver::task::dont_win_cards::TaskDontWinCards;
use crew_solver::task::win_cards::TaskWinCards;
use crew_solver::task::win_cards_amount_number::TaskWinCardsAmountNumber;
use crew_solver::task::{Task, TaskStatus};
use crew_solver::trick::Trick;

#[test]
fn solvable_two_player_game() {
    // The captain can win both of the target cards over two tricks.
    let mut p1 = Player::new(Hand::new(vec![Card::Trump(4), Card::Blue(2)]).unwrap());
    p1.add_task(Task::WinCards(TaskWinCards::new(vec![
        Card::Blue(1),
        Card::Pink(6),
    ])));
    let p2 = Player::new(Hand::new(vec![Card::Blue(1), Card::Pink(6)]).unwrap());

    let state = State::new(vec![p1, p2]).unwrap();
    let solution = state.play().unwrap();
    assert_eq!(solution.game_status(), TaskStatus::Done);
    // Every target card ended in the assignee's won tricks.
    let won: Vec<Card> = solution
        .get_player(0)
        .get_tricks()
        .iter()
        .flat_map(|t| t.cards.clone())
        .collect();
    assert!(won.contains(&Card::Blue(1)));
    assert!(won.contains(&Card::Pink(6)));
}

#[test]
fn dont_win_forced_contribution_still_solvable() {
    // The assignee must contribute its only Blue card, but loses the trick,
    // so a "don't win any Blue card" task resolves Done, not infeasible.
    let mut p1 = Player::new(Hand::new(vec![Card::Blue(1)]).unwrap());
    p1.add_task(Task::DontWinCards(TaskDontWinCards::new_from_colors(vec![
        Suit::Blue,
    ])));
    let p2 = Player::new(Hand::new(vec![Card::Blue(6)]).unwrap());

    let state = State::new_with_first_player(vec![p1, p2], 0).unwrap();
    let solution = state.play().unwrap();
    assert_eq!(solution.game_status(), TaskStatus::Done);
    assert_eq!(solution.get_player(1).get_tricks().len(), 1);
}

#[test]
fn pruned_before_game_end() {
    // Only two rank-5 cards exist in this deal, so "win at least three 5s"
    // is provably impossible long before the game finishes.
    let mut p1 = Player::new(Hand::new(vec![Card::Pink(5), Card::Trump(4)]).unwrap());
    p1.add_task(Task::WinCardsAmountNumber(
        TaskWinCardsAmountNumber::new_at_least_three_5s(),
    ));
    let p2 = Player::new(Hand::new(vec![Card::Green(5), Card::Blue(1)]).unwrap());

    let state = State::new(vec![p1, p2]).unwrap();
    assert_eq!(
        TaskWinCardsAmountNumber::new_at_least_three_5s().eval(&state, 0),
        TaskStatus::Failed
    );
    assert!(matches!(state.play(), Err(GameError::NoSolutionFound)));
}

#[test]
fn trick_index_integrity() {
    // Appending a trick whose index is not strictly above the previous one
    // is rejected as a construction-invariant violation.
    let mut p = Player::new(Hand::new(vec![Card::Trump(4)]).unwrap());
    p.add_trick(Trick::new(1, 0, vec![Card::Blue(1), Card::Blue(2)]).unwrap())
        .unwrap();
    assert!(matches!(
        p.add_trick(Trick::new(1, 0, vec![Card::Blue(3), Card::Blue(4)]).unwrap()),
        Err(GameError::NonIncreasingTrickIdx)
    ));
    assert!(matches!(
        p.add_trick(Trick::new(0, 0, vec![Card::Blue(5), Card::Blue(6)]).unwrap()),
        Err(GameError::NonIncreasingTrickIdx)
    ));
    assert!(p
        .add_trick(Trick::new(2, 0, vec![Card::Blue(7), Card::Blue(8)]).unwrap())
        .is_ok());
}

#[test]
fn conservation_over_complete_game() {
    // Over a complete game, the union of won cards is exactly the dealt set.
    let dealt = vec![Card::Trump(4), Card::Blue(2), Card::Blue(1), Card::Pink(6)];
    let mut p1 = Player::new(Hand::new(vec![Card::Trump(4), Card::Blue(2)]).unwrap());
    // The task resolves only once both target cards are won, which takes
    // both tricks: the solution is a complete game.
    p1.add_task(Task::WinCards(TaskWinCards::new(vec![
        Card::Blue(1),
        Card::Pink(6),
    ])));
    let p2 = Player::new(Hand::new(vec![Card::Blue(1), Card::Pink(6)]).unwrap());
    let state = State::new(vec![p1, p2]).unwrap();
    let solution = state.play().unwrap();

    let mut won: Vec<Card> = Vec::new();
    for i in 0..solution.n_players() {
        for t in solution.get_player(i).get_tricks() {
            won.extend(t.cards.iter().copied());
        }
    }
    assert_eq!(won.len(), dealt.len());
    for c in &dealt {
        assert!(won.contains(c));
    }
}

#[test]
fn game_status_escalates_at_game_end() {
    // An open task can never resolve once no cards remain: Unknown escalates
    // to Failed at game end.
    let mut p1 = Player::new(Hand::new(vec![]).unwrap());
    p1.add_trick(Trick::new(0, 0, vec![Card::Trump(4), Card::Blue(1)]).unwrap())
        .unwrap();
    p1.add_task(Task::WinCards(TaskWinCards::new(vec![Card::Blue(9)])));
    let p2 = Player::new(Hand::new(vec![]).unwrap());
    let state = State::new(vec![p1, p2]).unwrap();
    assert!(state.game_is_over());
    assert_eq!(state.game_status(), TaskStatus::Failed);
}

#[test]
fn stats_mode_counts_outcomes() {
    let mut p1 = Player::new(Hand::new(vec![Card::Trump(4)]).unwrap());
    p1.add_task(Task::WinCards(TaskWinCards::new(vec![Card::Blue(1)])));
    let p2 = Player::new(Hand::new(vec![Card::Blue(1)]).unwrap());
    let state = State::new(vec![p1, p2]).unwrap();
    let stats = state.play_stats();
    // The captain's trump always wins the single trick: one solution, no
    // failures, no dead branches.
    assert_eq!(stats.done, 1);
    assert_eq!(stats.failed, 0);
    assert_eq!(stats.abandoned, 0);
}

#[test]
fn already_solved_game_returns_a_solution() {
    // With no tasks at all, every task is vacuously Done: the solver must
    // report a solution rather than infeasibility.
    let p1 = Player::new(Hand::new(vec![Card::Trump(4)]).unwrap());
    let p2 = Player::new(Hand::new(vec![Card::Blue(1)]).unwrap());
    let state = State::new(vec![p1, p2]).unwrap();
    assert_eq!(state.game_status(), TaskStatus::Done);
    let solution = state.play().unwrap();
    assert_eq!(solution.game_status(), TaskStatus::Done);
}

#[test]
fn opening_trick_index_continues_past_won_tricks() {
    // A fresh game opens at round zero; a mid-game position opens one above
    // every trick already won.
    let fresh = State::new(vec![
        Player::new(Hand::new(vec![Card::Trump(4)]).unwrap()),
        Player::new(Hand::new(vec![Card::Blue(1)]).unwrap()),
    ])
    .unwrap();
    assert_eq!(fresh.get_current_trick().idx(), 0);

    let mut p1 = Player::new(Hand::new(vec![Card::Trump(4)]).unwrap());
    p1.add_trick(Trick::new(0, 0, vec![Card::Blue(1), Card::Blue(2)]).unwrap())
        .unwrap();
    p1.add_trick(Trick::new(2, 1, vec![Card::Blue(3), Card::Blue(4)]).unwrap())
        .unwrap();
    let p2 = Player::new(Hand::new(vec![Card::Pink(1)]).unwrap());
    let resumed = State::new(vec![p1, p2]).unwrap();
    assert_eq!(resumed.get_current_trick().idx(), 3);
}

#[test]
fn random_deal_covers_the_deck() {
    let state = State::new_random(4).unwrap();
    assert_eq!(state.n_players(), 4);
    let mut all: Vec<Card> = Vec::new();
    for i in 0..4 {
        assert_eq!(state.get_player(i).get_hand().len(), 10);
        all.extend(state.get_player(i).get_hand().cards.iter().copied());
    }
    assert_eq!(all.len(), NB_CARDS);
    // Every card of the deck occurs exactly once across the hands.
    for suit in [
        Card::Pink as fn(usize) -> Card,
        Card::Green,
        Card::Blue,
        Card::Yellow,
    ] {
        for v in 1..10 {
            assert_eq!(all.iter().filter(|c| **c == suit(v)).count(), 1);
        }
    }
    for v in 1..5 {
        assert_eq!(all.iter().filter(|c| **c == Card::Trump(v)).count(), 1);
    }
    // A captain always exists in a full deal.
    assert!(State::retrieve_captain(&(0..4).map(|i| state.get_player(i).clone()).collect()).is_ok());
}

#[test]
fn random_deal_remainder_goes_last() {
    let state = State::new_random(3).unwrap();
    assert_eq!(state.get_player(0).get_hand().len(), 13);
    assert_eq!(state.get_player(1).get_hand().len(), 13);
    assert_eq!(state.get_player(2).get_hand().len(), 14);
}
