//! Random deals: the reference deck, a trusted shuffle, and the dealt game.

use vstd::prelude::*;

use rand::seq::SliceRandom;

use crate::card::{cards_ok, Card, NB_CARDS};
use crate::hand::Hand;
use crate::player::Player;
use crate::state::{seq_hands, seq_won, spec_players_ok, GameError, State};

verus! {

/// The card at position `k` of the reference deck: the four ordinary suits
/// interleaved through the first thirty-six positions, then the four trumps.
pub open spec fn deck_card(k: int) -> Card {
    if k < 36 {
        let v = (k / 4 + 1) as usize;
        if k % 4 == 0 {
            Card::Pink(v)
        } else if k % 4 == 1 {
            Card::Green(v)
        } else if k % 4 == 2 {
            Card::Blue(v)
        } else {
            Card::Yellow(v)
        }
    } else {
        Card::Trump((k - 35) as usize)
    }
}

/// The full forty-card deck, in reference order.
pub fn full_deck() -> (r: Vec<Card>)
    ensures
        r@.len() == NB_CARDS,
        forall|k: int| 0 <= k < NB_CARDS ==> r@[k] == deck_card(k),
        cards_ok(r@),
        r@.contains(Card::Trump(4)),
{
    let mut deck: Vec<Card> = Vec::new();
    let mut v: usize = 1;
    while v <= 9
        invariant
            1 <= v <= 10,
            deck@.len() == 4 * (v - 1),
            forall|k: int| 0 <= k < deck@.len() ==> deck@[k] == deck_card(k),
        decreases 10 - v,
    {
        let ghost base = deck@.len() as int;
        deck.push(Card::Pink(v));
        deck.push(Card::Green(v));
        deck.push(Card::Blue(v));
        deck.push(Card::Yellow(v));
        proof {
            vstd::arithmetic::div_mod::lemma_fundamental_div_mod_converse(
                base, 4, v as int - 1, 0);
            vstd::arithmetic::div_mod::lemma_fundamental_div_mod_converse(
                base + 1, 4, v as int - 1, 1);
            vstd::arithmetic::div_mod::lemma_fundamental_div_mod_converse(
                base + 2, 4, v as int - 1, 2);
            vstd::arithmetic::div_mod::lemma_fundamental_div_mod_converse(
                base + 3, 4, v as int - 1, 3);
        }
        v += 1;
    }
    let mut w: usize = 1;
    while w <= 4
        invariant
            1 <= w <= 5,
            deck@.len() == 36 + (w - 1),
            forall|k: int| 0 <= k < 36 ==> deck@[k] == deck_card(k),
            forall|k: int| 36 <= k < deck@.len() ==> deck@[k] == deck_card(k),
        decreases 5 - w,
    {
        deck.push(Card::Trump(w));
        w += 1;
    }
    proof {
        assert(deck@.len() == 40);
        assert forall|k: int| 0 <= k < NB_CARDS implies (#[trigger] deck@[k]).spec_is_valid() by {
            assert(deck@[k] == deck_card(k));
            if k < 36 {
                assert(0 <= k / 4 <= 8) by {
                    vstd::arithmetic::div_mod::lemma_div_is_ordered(0, k, 4);
                    vstd::arithmetic::div_mod::lemma_div_is_ordered(k, 35, 4);
                    assert(0int / 4 == 0);
                    assert(35int / 4 == 8);
                }
                vstd::arithmetic::div_mod::lemma_fundamental_div_mod(k, 4);
            }
        }
        assert forall|i: int, j: int|
            #![trigger deck@[i], deck@[j]]
            0 <= i < j < deck@.len() implies deck@[i] != deck@[j] by {
            lemma_deck_card_distinct(i, j);
        }
        assert(deck@[39] == deck_card(39));
        assert(deck_card(39) == Card::Trump(4));
        assert(deck@.contains(Card::Trump(4))) by {
            assert(deck@[39] == Card::Trump(4));
        }
    }
    deck
}

/// Distinct deck positions hold distinct cards.
pub proof fn lemma_deck_card_distinct(i: int, j: int)
    requires
        0 <= i < j < 40,
    ensures
        deck_card(i) != deck_card(j),
{
    if j < 36 {
        vstd::arithmetic::div_mod::lemma_fundamental_div_mod(i, 4);
        vstd::arithmetic::div_mod::lemma_fundamental_div_mod(j, 4);
        if deck_card(i) == deck_card(j) {
            assert(i % 4 == j % 4);
            assert(i / 4 == j / 4);
            assert(i == j);
        }
    } else if i < 36 {
    } else {
    }
}

/// Relies on rand's `SliceRandom::shuffle`: a Fisher-Yates walk that swaps
/// elements in place, so the slice afterwards holds the same cards as a
/// multiset, in an order drawn from the thread-local generator.
#[verifier::external_body]
fn shuffle_cards(cards: &mut Vec<Card>)
    ensures
        final(cards)@.to_multiset() == old(cards)@.to_multiset(),
        final(cards)@.len() == old(cards)@.len(),
{
    let mut rng = rand::rng();
    cards.shuffle(&mut rng);
}

impl State {
    /// Deals a shuffled full deck to `n_players` fresh players — every
    /// player but the last gets one card per round, the last takes the
    /// remainder — and builds the game around them. The deck always holds
    /// the highest trump, so a captain always exists, leads the opening
    /// round, and the deal always succeeds.
    pub fn new_random(n_players: usize) -> (r: Result<State, GameError>)
        requires
            3 <= n_players <= 5,
        ensures
            r is Ok,
            match r {
                Ok(s) => {
                    &&& s.wf()
                    &&& s.players@.len() == n_players
                    &&& seq_hands(s.players@).len() == NB_CARDS
                    &&& forall|i: int|
                        0 <= i < n_players ==> (#[trigger] s.players@[i]).tricks@.len() == 0
                            && s.players@[i].tasks@.len() == 0
                    &&& forall|i: int|
                        0 <= i < n_players - 1 ==> (#[trigger] s.players@[i]).hand.cards@.len()
                            as int == NB_CARDS as int / n_players as int
                    &&& s.players@[n_players - 1].hand.cards@.len() as int == NB_CARDS as int - (
                    NB_CARDS as int / n_players as int) * (n_players - 1)
                    &&& s.current_trick.cards@.len() == 0
                    &&& s.current_trick.idx == 0
                    &&& (s.current_trick.first_player as int) < n_players
                    &&& s.players@[s.current_trick.first_player as int].spec_is_captain()
                },
                Err(_) => false,
            },
    {
        let mut cards = full_deck();
        let ghost deck0 = cards@;
        shuffle_cards(&mut cards);
        proof {
            crate::card::lemma_cards_ok_multiset(deck0, cards@);
            broadcast use vstd::seq_lib::group_to_multiset_ensures;

            assert(deck0.to_multiset().count(Card::Trump(4)) > 0);
            assert(cards@.contains(Card::Trump(4)));
        }

        let n = n_players;
        let per = cards.len() / n;
        proof {
            assert(per >= 1 && per * n_players <= 40) by {
                if n == 3 {
                    assert(40int / 3 == 13);
                    assert(per == 13);
                    assert(per * n_players == 39) by (nonlinear_arith)
                        requires
                            per == 13,
                            n_players == 3,
                    ;
                } else if n == 4 {
                    assert(40int / 4 == 10);
                    assert(per == 10);
                    assert(per * n_players == 40) by (nonlinear_arith)
                        requires
                            per == 10,
                            n_players == 4,
                    ;
                } else {
                    assert(40int / 5 == 8);
                    assert(per == 8);
                    assert(per * n_players == 40) by (nonlinear_arith)
                        requires
                            per == 8,
                            n_players == 5,
                    ;
                }
            }
        }

        let mut players: Vec<Player> = Vec::new();
        let mut lb: usize = 0;
        let mut ip: usize = 0;
        while ip < n
            invariant
                3 <= n <= 5,
                cards@.len() == NB_CARDS,
                cards_ok(cards@),
                per == 40int / (n as int),
                per * n <= 40,
                ip <= n,
                ip < n ==> lb == per * ip,
                ip == n ==> lb == NB_CARDS,
                lb <= NB_CARDS,
                players@.len() == ip,
                seq_hands(players@) == cards@.take(lb as int),
                seq_won(players@) == Seq::<Card>::empty(),
                forall|i: int|
                    0 <= i < ip ==> (#[trigger] players@[i]).tricks@.len() == 0
                        && players@[i].tasks@.len() == 0,
                forall|i: int|
                    0 <= i < ip && i < n - 1 ==> (#[trigger] players@[i]).hand.cards@.len()
                        == per,
                ip == n ==> players@[n - 1].hand.cards@.len() as int == NB_CARDS as int - per * (
                n - 1),
            decreases n - ip,
        {
            let ub = if ip == n - 1 {
                cards.len()
            } else {
                proof {
                    assert((per * ip + per) == per * (ip + 1)) by (nonlinear_arith);
                    assert(per * (ip + 1) <= per * n) by (nonlinear_arith)
                        requires
                            ip + 1 <= n,
                            per >= 0,
                    ;
                }
                lb + per
            };
            let mut hand_cards: Vec<Card> = Vec::new();
            let mut k: usize = lb;
            while k < ub
                invariant
                    lb <= k <= ub,
                    ub <= cards@.len(),
                    hand_cards@ == cards@.subrange(lb as int, k as int),
                decreases ub - k,
            {
                hand_cards.push(cards[k]);
                proof {
                    assert(hand_cards@ =~= cards@.subrange(lb as int, k as int + 1));
                }
                k += 1;
            }
            let p = Player::new(Hand { cards: hand_cards });
            let ghost pre_players = players@;
            players.push(p);
            proof {
                assert(players@.drop_last() =~= pre_players);
                assert(players@.last() == p);
                assert(seq_hands(players@) =~= cards@.take(ub as int));
                assert(seq_won(players@) =~= Seq::<Card>::empty());
                if ip + 1 < n {
                } else {
                    assert(ub == NB_CARDS);
                }
            }
            lb = ub;
            ip += 1;
        }
        proof {
            assert(seq_hands(players@) =~= cards@);
            assert(cards_ok(seq_hands(players@) + seq_won(players@))) by {
                assert(seq_hands(players@) + seq_won(players@) =~= cards@);
            }
            assert(spec_players_ok(players@));
            // the highest trump is in some hand, so a captain exists
            crate::state::lemma_seq_hands_contains(players@, Card::Trump(4));
            let i = choose|i: int|
                0 <= i < players@.len() && (#[trigger] players@[i]).hand.cards@.contains(
                    Card::Trump(4),
                );
            assert(players@[i].spec_is_captain());
        }
        let ghost ps_final = players@;
        let r = State::new(players);
        proof {
            assert(r is Ok);
            crate::state::lemma_next_round_fresh(ps_final);
        }
        r
    }
}

} // verus!
