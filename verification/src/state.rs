//! The game state: the players and the trick currently being assembled.

use vstd::prelude::*;

use crate::card::{cards_ok, Card, Suit, NB_CARDS};
use crate::player::{spec_won_cards, Player};
use crate::task::TaskStatus;
use crate::trick::Trick;

verus! {

/// Everything that can go wrong while building or advancing a game.
///
/// Construction-invariant violations (invalid or duplicate cards, malformed
/// tricks, a missing captain) are reported at construction time; exhausting
/// the search without a solution is an ordinary result, not a fault.
#[derive(Debug, Clone)]
pub enum GameError {
    /// No player holds, or has won, the highest trump card.
    MissingCaptain,
    /// A trick's size does not match the expected player count.
    InvalidTrickSize(usize, usize),
    /// A trick was appended with an index not strictly above the previous one.
    NonIncreasingTrickIdx,
    /// The search space was exhausted without finding a winning play order.
    NoSolutionFound,
    /// A card was played that is absent from the acting player's hand.
    CardNotFound(Card, Vec<Card>),
    /// A card lies outside its suit's rank range.
    InvalidCard(Card),
    /// The same card appears twice where cards must be unique.
    DuplicateCard(Card),
    /// The number of players lies outside the supported range.
    InvalidPlayerCount(usize),
    /// A leading-player index at or beyond the player count.
    InvalidFirstPlayer(usize, usize),
    /// A won trick carries an index beyond any round the deck allows.
    TrickIdxTooLarge(usize),
}


/// The whole game: the players and the trick currently being assembled.
/// The current player and the captain are derived, never stored.
#[derive(Debug)]
pub struct State {
    pub players: Vec<Player>,
    pub current_trick: Trick,
}

/// All cards still held in hands, player by player.
pub open spec fn seq_hands(ps: Seq<Player>) -> Seq<Card>
    decreases ps.len(),
{
    if ps.len() == 0 {
        Seq::empty()
    } else {
        seq_hands(ps.drop_last()) + ps.last().hand.cards@
    }
}

/// All cards in won tricks, player by player.
pub open spec fn seq_won(ps: Seq<Player>) -> Seq<Card>
    decreases ps.len(),
{
    if ps.len() == 0 {
        Seq::empty()
    } else {
        seq_won(ps.drop_last()) + spec_won_cards(ps.last().tricks@)
    }
}

/// Cards not yet won by anyone: the hands plus the trick in progress.
pub open spec fn in_play_seq(s: State) -> Seq<Card> {
    seq_hands(s.players@) + s.current_trick.cards@
}

/// Every card in the game: hands, the trick in progress, and won tricks.
pub open spec fn all_cards_seq(s: State) -> Seq<Card> {
    in_play_seq(s) + seq_won(s.players@)
}

/// What each player's tricks must satisfy inside a game of `n` players whose
/// trick in progress carries index `cur_idx`.
pub open spec fn player_in_state_wf(p: Player, n: int, cur_idx: int) -> bool {
    &&& forall|j: int| 0 <= j < p.tricks@.len() ==> {
        let t = #[trigger] p.tricks@[j];
        &&& t.cards@.len() == n
        &&& (t.first_player as int) < n
        &&& (t.idx as int) < cur_idx
    }
    &&& forall|j: int|
        0 <= j < p.tricks@.len() - 1 ==> (#[trigger] p.tricks@[j]).idx < p.tricks@[j + 1].idx
}

/// Splitting a well-formed card sequence leaves two well-formed, disjoint
/// parts.
pub proof fn lemma_cards_ok_split(a: Seq<Card>, b: Seq<Card>)
    requires
        cards_ok(a + b),
    ensures
        cards_ok(a),
        cards_ok(b),
        forall|c: Card| a.contains(c) ==> !b.contains(c),
{
    assert forall|i: int| 0 <= i < a.len() implies (#[trigger] a[i]).spec_is_valid() by {
        assert(a[i] == (a + b)[i]);
    }
    assert forall|i: int| 0 <= i < b.len() implies (#[trigger] b[i]).spec_is_valid() by {
        assert(b[i] == (a + b)[a.len() + i]);
    }
    assert forall|i: int, j: int| #![trigger a[i], a[j]] 0 <= i < j < a.len() implies a[i] != a[j] by {
        assert(a[i] == (a + b)[i] && a[j] == (a + b)[j]);
    }
    assert forall|i: int, j: int| #![trigger b[i], b[j]] 0 <= i < j < b.len() implies b[i] != b[j] by {
        assert(b[i] == (a + b)[a.len() + i] && b[j] == (a + b)[a.len() + j]);
    }
    assert forall|c: Card| a.contains(c) implies !b.contains(c) by {
        if a.contains(c) && b.contains(c) {
            let i = choose|i: int| 0 <= i < a.len() && a[i] == c;
            let j = choose|j: int| 0 <= j < b.len() && b[j] == c;
            assert((a + b)[i] == c && (a + b)[a.len() + j] == c);
        }
    }
}

/// Each player's hand is a well-formed part of the combined hand sequence.
pub proof fn lemma_seq_hands_player(ps: Seq<Player>, i: int)
    requires
        0 <= i < ps.len(),
        cards_ok(seq_hands(ps)),
    ensures
        cards_ok(ps[i].hand.cards@),
        ps[i].hand.cards@.len() <= seq_hands(ps).len(),
        forall|c: Card| ps[i].hand.cards@.contains(c) ==> seq_hands(ps).contains(c),
    decreases ps.len(),
{
    let a = seq_hands(ps.drop_last());
    let b = ps.last().hand.cards@;
    assert(seq_hands(ps) == a + b);
    lemma_cards_ok_split(a, b);
    if i == ps.len() - 1 {
        assert(ps[i] == ps.last());
        assert forall|c: Card| ps[i].hand.cards@.contains(c) implies seq_hands(ps).contains(
            c,
        ) by {
            let j = choose|j: int| 0 <= j < b.len() && b[j] == c;
            assert((a + b)[a.len() + j] == c);
        }
    } else {
        lemma_seq_hands_player(ps.drop_last(), i);
        assert(ps.drop_last()[i] == ps[i]);
        assert forall|c: Card| ps[i].hand.cards@.contains(c) implies seq_hands(ps).contains(
            c,
        ) by {
            assert(a.contains(c));
            let j = choose|j: int| 0 <= j < a.len() && a[j] == c;
            assert((a + b)[j] == c);
        }
    }
}

/// Each player's won cards are a well-formed part of the combined won
/// sequence.
pub proof fn lemma_seq_won_player(ps: Seq<Player>, i: int)
    requires
        0 <= i < ps.len(),
        cards_ok(seq_won(ps)),
    ensures
        cards_ok(spec_won_cards(ps[i].tricks@)),
        spec_won_cards(ps[i].tricks@).len() <= seq_won(ps).len(),
        forall|c: Card| spec_won_cards(ps[i].tricks@).contains(c) ==> seq_won(ps).contains(c),
    decreases ps.len(),
{
    let a = seq_won(ps.drop_last());
    let b = spec_won_cards(ps.last().tricks@);
    assert(seq_won(ps) == a + b);
    lemma_cards_ok_split(a, b);
    if i == ps.len() - 1 {
        assert(ps[i] == ps.last());
        assert forall|c: Card| spec_won_cards(ps[i].tricks@).contains(c) implies seq_won(
            ps,
        ).contains(c) by {
            let j = choose|j: int| 0 <= j < b.len() && b[j] == c;
            assert((a + b)[a.len() + j] == c);
        }
    } else {
        lemma_seq_won_player(ps.drop_last(), i);
        assert(ps.drop_last()[i] == ps[i]);
        assert forall|c: Card| spec_won_cards(ps[i].tricks@).contains(c) implies seq_won(
            ps,
        ).contains(c) by {
            assert(a.contains(c));
            let j = choose|j: int| 0 <= j < a.len() && a[j] == c;
            assert((a + b)[j] == c);
        }
    }
}

/// Bounds that every well-formed state satisfies: no part of the game ever
/// holds more than the forty distinct valid cards.
pub proof fn lemma_wf_bounds(s: State)
    requires
        s.wf(),
    ensures
        all_cards_seq(s).len() <= NB_CARDS,
        seq_hands(s.players@).len() + s.current_trick.cards@.len() + seq_won(s.players@).len()
            == all_cards_seq(s).len(),
        cards_ok(seq_hands(s.players@)),
        cards_ok(seq_won(s.players@)),
        cards_ok(s.current_trick.cards@),
        cards_ok(in_play_seq(s)),
        forall|i: int| 0 <= i < s.players@.len() ==> cards_ok(
            (#[trigger] s.players@[i]).hand.cards@,
        ) && s.players@[i].hand.cards@.len() <= NB_CARDS,
        forall|i: int| 0 <= i < s.players@.len() ==> cards_ok(
            spec_won_cards((#[trigger] s.players@[i]).tricks@),
        ) && spec_won_cards(s.players@[i].tricks@).len() <= NB_CARDS,
{
    crate::card::lemma_cards_ok_len(all_cards_seq(s));
    lemma_cards_ok_split(in_play_seq(s), seq_won(s.players@));
    lemma_cards_ok_split(seq_hands(s.players@), s.current_trick.cards@);
    assert forall|i: int| 0 <= i < s.players@.len() implies cards_ok(
        (#[trigger] s.players@[i]).hand.cards@,
    ) && s.players@[i].hand.cards@.len() <= NB_CARDS by {
        lemma_seq_hands_player(s.players@, i);
    }
    assert forall|i: int| 0 <= i < s.players@.len() implies cards_ok(
        spec_won_cards((#[trigger] s.players@[i]).tricks@),
    ) && spec_won_cards(s.players@[i].tricks@).len() <= NB_CARDS by {
        lemma_seq_won_player(s.players@, i);
    }
}

/// Prefix hands never hold more cards than all hands.
pub proof fn lemma_seq_hands_prefix_len(ps: Seq<Player>, i: int)
    requires
        0 <= i <= ps.len(),
    ensures
        seq_hands(ps.take(i)).len() <= seq_hands(ps).len(),
    decreases ps.len() - i,
{
    if i == ps.len() {
        assert(ps.take(i) =~= ps);
    } else {
        lemma_seq_hands_prefix_len(ps, i + 1);
        assert(ps.take(i + 1).drop_last() =~= ps.take(i));
        assert(ps.take(i + 1).last() == ps[i]);
    }
}

impl State {
    /// Everything the game model guarantees of a reachable state: a small
    /// player count, a trick in progress that is not yet full and led by a
    /// real player, per-player trick lists of full size with strictly
    /// increasing indices below the current round, and a card pool with no
    /// duplicate and no invalid card anywhere.
    pub open spec fn wf(&self) -> bool {
        let n = self.players@.len() as int;
        &&& 1 <= n <= 5
        &&& (self.current_trick.first_player as int) < n
        &&& (self.current_trick.cards@.len() as int) < n
        &&& forall|i: int|
            0 <= i < n ==> player_in_state_wf(
                #[trigger] self.players@[i],
                n,
                self.current_trick.idx as int,
            )
        &&& cards_ok(all_cards_seq(*self))
        &&& self.current_trick.idx as int + self.spec_n_tricks_left() <= 2 * (NB_CARDS as int)
    }

    /// Number of players in the game.
    pub fn n_players(&self) -> (r: usize)
        ensures
            r == self.players@.len(),
    {
        self.players.len()
    }

    /// The player at the given seat.
    pub fn get_player(&self, i: usize) -> (r: &Player)
        requires
            i < self.players@.len(),
        ensures
            *r == self.players@[i as int],
    {
        &self.players[i]
    }

    /// The player who led the trick in progress.
    pub fn first_player(&self) -> (r: usize)
        ensures
            r == self.current_trick.first_player,
    {
        self.current_trick.get_first_player()
    }

    /// The trick in progress.
    pub fn get_current_trick(&self) -> (r: &Trick)
        ensures
            *r == self.current_trick,
    {
        &self.current_trick
    }

    /// The seat whose turn it is: the leader advanced by the number of cards
    /// already played into the trick in progress.
    pub open spec fn spec_current_player_idx(&self) -> int {
        (self.current_trick.first_player + self.current_trick.cards@.len()) % (
        self.players@.len() as int)
    }

    pub fn get_current_player_idx(&self) -> (r: usize)
        requires
            self.wf(),
        ensures
            r == self.spec_current_player_idx(),
            r < self.players@.len(),
    {
        (self.current_trick.get_first_player() + self.current_trick.len()) % self.players.len()
    }

    /// The player whose turn it is.
    pub fn get_current_player(&self) -> (r: &Player)
        requires
            self.wf(),
        ensures
            *r == self.players@[self.spec_current_player_idx()],
    {
        let ip = self.get_current_player_idx();
        &self.players[ip]
    }

    /// Number of cards still held across all hands.
    pub fn cards_in_hands(&self) -> (r: usize)
        requires
            self.wf(),
        ensures
            r == seq_hands(self.players@).len(),
    {
        proof {
            lemma_wf_bounds(*self);
        }
        let ghost ps = self.players@;
        let mut total: usize = 0;
        let mut i: usize = 0;
        while i < self.players.len()
            invariant
                ps == self.players@,
                i <= ps.len(),
                total == seq_hands(ps.take(i as int)).len(),
                seq_hands(ps).len() <= NB_CARDS,
                total <= seq_hands(ps).len(),
            decreases ps.len() - i,
        {
            proof {
                assert(ps.take(i as int + 1).drop_last() =~= ps.take(i as int));
                assert(ps.take(i as int + 1).last() == ps[i as int]);
                lemma_seq_hands_prefix_len(ps, i as int + 1);
            }
            total += self.players[i].hand.cards.len();
            i += 1;
        }
        proof {
            assert(ps.take(ps.len() as int) =~= ps);
        }
        total
    }

    /// The game is over when the trick in progress is empty and fewer cards
    /// remain in hands than players: no further full trick can form.
    pub open spec fn spec_game_is_over(&self) -> bool {
        self.current_trick.cards@.len() == 0 && seq_hands(self.players@).len()
            < self.players@.len()
    }

    pub fn game_is_over(&self) -> (r: bool)
        requires
            self.wf(),
        ensures
            r == self.spec_game_is_over(),
    {
        self.current_trick.len() == 0 && self.cards_in_hands() < self.players.len()
    }

    /// Number of full tricks the game can still produce, the trick in
    /// progress included.
    pub open spec fn spec_n_tricks_left(&self) -> int {
        (seq_hands(self.players@).len() + self.current_trick.cards@.len()) as int / (
        self.players@.len() as int)
    }

    pub fn n_tricks_left(&self) -> (r: usize)
        requires
            self.wf(),
        ensures
            r == self.spec_n_tricks_left(),
    {
        proof {
            lemma_wf_bounds(*self);
        }
        (self.cards_in_hands() + self.current_trick.len()) / self.players.len()
    }

    /// Assigns one more task to the given player. Tasks never affect the
    /// card model, so well-formedness is untouched.
    #[verifier::rlimit(50)]
    pub fn add_task(&mut self, i: usize, task: crate::task::Task)
        requires
            i < old(self).players@.len(),
        ensures
            final(self).players@.len() == old(self).players@.len(),
            final(self).players@[i as int].tasks@ == old(self).players@[i as int].tasks@.push(
                task,
            ),
            final(self).players@[i as int].hand.cards@ == old(self).players@[i as int].hand.cards@,
            final(self).players@[i as int].tricks@ == old(self).players@[i as int].tricks@,
            forall|j: int|
                0 <= j < old(self).players@.len() && j != i ==> final(self).players@[j] == old(
                    self,
                ).players@[j],
            final(self).current_trick == old(self).current_trick,
            old(self).wf() ==> final(self).wf(),
    {
        let ghost pre = *self;
        let p = &mut self.players[i];
        p.add_task(task);
        proof {
            if pre.wf() {
                lemma_same_cards_wf(pre, *self);
            }
        }
    }

    /// The least seat whose player holds, or has won, the highest trump
    /// card; an error when no seat does.
    pub fn retrieve_captain(players: &Vec<Player>) -> (r: Result<usize, GameError>)
        ensures
            match r {
                Ok(i) => {
                    &&& i < players@.len()
                    &&& players@[i as int].spec_is_captain()
                    &&& forall|j: int|
                        0 <= j < i ==> !(#[trigger] players@[j]).spec_is_captain()
                },
                Err(GameError::MissingCaptain) => forall|j: int|
                    0 <= j < players@.len() ==> !(#[trigger] players@[j]).spec_is_captain(),
                Err(_) => false,
            },
            r is Ok <==> exists|j: int|
                0 <= j < players@.len() && (#[trigger] players@[j]).spec_is_captain(),
    {
        let mut i: usize = 0;
        while i < players.len()
            invariant
                i <= players@.len(),
                forall|j: int| 0 <= j < i ==> !(#[trigger] players@[j]).spec_is_captain(),
            decreases players@.len() - i,
        {
            if players[i].is_captain() {
                return Ok(i);
            }
            i += 1;
        }
        Err(GameError::MissingCaptain)
    }
}

/// Two states that agree card for card and trick for trick are equally
/// well formed: tasks play no part in well-formedness.
pub proof fn lemma_same_cards_wf(a: State, b: State)
    requires
        a.wf(),
        b.players@.len() == a.players@.len(),
        forall|i: int|
            0 <= i < a.players@.len() ==> {
                let pb = #[trigger] b.players@[i];
                let pa = a.players@[i];
                &&& pb.hand.cards@ == pa.hand.cards@
                &&& pb.tricks@.len() == pa.tricks@.len()
                &&& forall|j: int|
                    0 <= j < pa.tricks@.len() ==> crate::trick::trick_views_eq(
                        pa.tricks@[j],
                        #[trigger] pb.tricks@[j],
                    )
            },
        crate::trick::trick_views_eq(a.current_trick, b.current_trick),
    ensures
        b.wf(),
{
    lemma_seq_hands_pointwise(a.players@, b.players@);
    assert(seq_won(b.players@) == seq_won(a.players@)) by {
        lemma_seq_won_views_tricks(a.players@, b.players@);
    }
    assert(all_cards_seq(b) == all_cards_seq(a)) by {
        assert(all_cards_seq(b) =~= all_cards_seq(a));
    }
    assert forall|i: int|
        0 <= i < b.players@.len() implies player_in_state_wf(
        #[trigger] b.players@[i],
        b.players@.len() as int,
        b.current_trick.idx as int,
    ) by {
        assert(player_in_state_wf(a.players@[i], a.players@.len() as int,
            a.current_trick.idx as int));
        assert forall|j: int| 0 <= j < b.players@[i].tricks@.len() implies {
            let t = #[trigger] b.players@[i].tricks@[j];
            &&& t.cards@.len() == b.players@.len() as int
            &&& (t.first_player as int) < b.players@.len() as int
            &&& (t.idx as int) < b.current_trick.idx as int
        } by {
            assert(crate::trick::trick_views_eq(
                a.players@[i].tricks@[j],
                b.players@[i].tricks@[j],
            ));
        }
        assert forall|j: int| 0 <= j < b.players@[i].tricks@.len() - 1 implies (
        #[trigger] b.players@[i].tricks@[j]).idx < b.players@[i].tricks@[j + 1].idx by {
            assert(crate::trick::trick_views_eq(
                a.players@[i].tricks@[j],
                b.players@[i].tricks@[j],
            ));
            assert(crate::trick::trick_views_eq(
                a.players@[i].tricks@[j + 1],
                b.players@[i].tricks@[j + 1],
            ));
        }
    }
}

/// Won cards concatenate equally when trick lists agree card for card,
/// without any condition on tasks.
pub proof fn lemma_seq_won_views_tricks(a: Seq<Player>, b: Seq<Player>)
    requires
        a.len() == b.len(),
        forall|i: int|
            0 <= i < a.len() ==> (#[trigger] b[i]).tricks@.len() == a[i].tricks@.len()
                && forall|j: int|
                0 <= j < a[i].tricks@.len() ==> crate::trick::trick_views_eq(
                    a[i].tricks@[j],
                    #[trigger] b[i].tricks@[j],
                ),
    ensures
        seq_won(b) == seq_won(a),
    decreases a.len(),
{
    if a.len() > 0 {
        lemma_seq_won_views_tricks(a.drop_last(), b.drop_last());
        crate::player::lemma_won_cards_views(a.last().tricks@, b.last().tricks@);
        assert(seq_won(b) =~= seq_won(a));
    } else {
        assert(seq_won(b) =~= seq_won(a));
    }
}

/// Hands concatenate equally when they agree player by player.
pub proof fn lemma_seq_hands_pointwise(a: Seq<Player>, b: Seq<Player>)
    requires
        a.len() == b.len(),
        forall|i: int|
            0 <= i < a.len() ==> (#[trigger] b[i]).hand.cards@ == a[i].hand.cards@,
    ensures
        seq_hands(b) == seq_hands(a),
    decreases a.len(),
{
    if a.len() > 0 {
        lemma_seq_hands_pointwise(a.drop_last(), b.drop_last());
        assert(seq_hands(b) =~= seq_hands(a));
    } else {
        assert(seq_hands(b) =~= seq_hands(a));
    }
}

/// Won cards concatenate equally when the trick lists agree player by
/// player.
pub proof fn lemma_seq_won_pointwise(a: Seq<Player>, b: Seq<Player>)
    requires
        a.len() == b.len(),
        forall|i: int| 0 <= i < a.len() ==> (#[trigger] b[i]).tricks@ == a[i].tricks@,
    ensures
        seq_won(b) == seq_won(a),
    decreases a.len(),
{
    if a.len() > 0 {
        lemma_seq_won_pointwise(a.drop_last(), b.drop_last());
        assert(seq_won(b) =~= seq_won(a));
    } else {
        assert(seq_won(b) =~= seq_won(a));
    }
}


/// The combined hand sequence splits at any player.
pub proof fn lemma_seq_hands_decompose(ps: Seq<Player>, i: int)
    requires
        0 <= i < ps.len(),
    ensures
        seq_hands(ps) == seq_hands(ps.take(i)) + ps[i].hand.cards@ + seq_hands(ps.skip(i + 1)),
    decreases ps.len(),
{
    if i == ps.len() - 1 {
        assert(ps.take(i) =~= ps.drop_last());
        assert(ps.skip(i + 1) =~= Seq::<Player>::empty());
        assert(seq_hands(ps) =~= seq_hands(ps.take(i)) + ps[i].hand.cards@ + seq_hands(
            ps.skip(i + 1),
        ));
    } else {
        let dl = ps.drop_last();
        lemma_seq_hands_decompose(dl, i);
        assert(dl.take(i) =~= ps.take(i));
        assert(dl[i] == ps[i]);
        assert(dl.skip(i + 1) =~= ps.skip(i + 1).drop_last());
        assert(ps.skip(i + 1).last() == ps.last());
        assert(seq_hands(ps) =~= seq_hands(ps.take(i)) + ps[i].hand.cards@ + seq_hands(
            ps.skip(i + 1),
        ));
    }
}

/// The combined won-card sequence splits at any player.
pub proof fn lemma_seq_won_decompose(ps: Seq<Player>, i: int)
    requires
        0 <= i < ps.len(),
    ensures
        seq_won(ps) == seq_won(ps.take(i)) + spec_won_cards(ps[i].tricks@) + seq_won(
            ps.skip(i + 1),
        ),
    decreases ps.len(),
{
    if i == ps.len() - 1 {
        assert(ps.take(i) =~= ps.drop_last());
        assert(ps.skip(i + 1) =~= Seq::<Player>::empty());
        assert(seq_won(ps) =~= seq_won(ps.take(i)) + spec_won_cards(ps[i].tricks@) + seq_won(
            ps.skip(i + 1),
        ));
    } else {
        let dl = ps.drop_last();
        lemma_seq_won_decompose(dl, i);
        assert(dl.take(i) =~= ps.take(i));
        assert(dl[i] == ps[i]);
        assert(dl.skip(i + 1) =~= ps.skip(i + 1).drop_last());
        assert(ps.skip(i + 1).last() == ps.last());
        assert(seq_won(ps) =~= seq_won(ps.take(i)) + spec_won_cards(ps[i].tricks@) + seq_won(
            ps.skip(i + 1),
        ));
    }
}

/// Changing one player's hand changes the combined hand multiset by exactly
/// the difference between the two hands.
pub proof fn lemma_seq_hands_ms_update(a: Seq<Player>, b: Seq<Player>, i: int)
    requires
        a.len() == b.len(),
        0 <= i < a.len(),
        forall|j: int|
            0 <= j < a.len() && j != i ==> (#[trigger] b[j]).hand.cards@ == a[j].hand.cards@,
    ensures
        seq_hands(b).to_multiset().add(a[i].hand.cards@.to_multiset()) == seq_hands(
            a,
        ).to_multiset().add(b[i].hand.cards@.to_multiset()),
{
    lemma_seq_hands_decompose(a, i);
    lemma_seq_hands_decompose(b, i);
    lemma_seq_hands_pointwise(a.take(i), b.take(i));
    lemma_seq_hands_pointwise(a.skip(i + 1), b.skip(i + 1));
    let pre = seq_hands(a.take(i)).to_multiset();
    let post = seq_hands(a.skip(i + 1)).to_multiset();
    let ha = a[i].hand.cards@.to_multiset();
    let hb = b[i].hand.cards@.to_multiset();
    vstd::seq_lib::lemma_multiset_commutative(
        seq_hands(a.take(i)) + a[i].hand.cards@,
        seq_hands(a.skip(i + 1)),
    );
    vstd::seq_lib::lemma_multiset_commutative(
        seq_hands(a.take(i)),
        a[i].hand.cards@,
    );
    vstd::seq_lib::lemma_multiset_commutative(
        seq_hands(b.take(i)) + b[i].hand.cards@,
        seq_hands(b.skip(i + 1)),
    );
    vstd::seq_lib::lemma_multiset_commutative(
        seq_hands(b.take(i)),
        b[i].hand.cards@,
    );
    assert(seq_hands(a) == (seq_hands(a.take(i)) + a[i].hand.cards@) + seq_hands(a.skip(i + 1)));
    assert(seq_hands(a).to_multiset() == ((seq_hands(a.take(i)) + a[i].hand.cards@) + seq_hands(
        a.skip(i + 1),
    )).to_multiset());
    assert(seq_hands(b).to_multiset() == ((seq_hands(b.take(i)) + b[i].hand.cards@) + seq_hands(
        b.skip(i + 1),
    )).to_multiset());
    assert(seq_hands(a).to_multiset() == pre.add(ha).add(post));
    assert(seq_hands(b).to_multiset() == pre.add(hb).add(post));
    assert(pre.add(hb).add(post).add(ha) =~= pre.add(ha).add(post).add(hb));
}

/// Changing one player's tricks changes the combined won multiset by exactly
/// the difference between the two trick lists.
pub proof fn lemma_seq_won_ms_update(a: Seq<Player>, b: Seq<Player>, i: int)
    requires
        a.len() == b.len(),
        0 <= i < a.len(),
        forall|j: int| 0 <= j < a.len() && j != i ==> (#[trigger] b[j]).tricks@ == a[j].tricks@,
    ensures
        seq_won(b).to_multiset().add(spec_won_cards(a[i].tricks@).to_multiset()) == seq_won(
            a,
        ).to_multiset().add(spec_won_cards(b[i].tricks@).to_multiset()),
{
    lemma_seq_won_decompose(a, i);
    lemma_seq_won_decompose(b, i);
    lemma_seq_won_pointwise(a.take(i), b.take(i));
    lemma_seq_won_pointwise(a.skip(i + 1), b.skip(i + 1));
    let pre = seq_won(a.take(i)).to_multiset();
    let post = seq_won(a.skip(i + 1)).to_multiset();
    let wa = spec_won_cards(a[i].tricks@).to_multiset();
    let wb = spec_won_cards(b[i].tricks@).to_multiset();
    vstd::seq_lib::lemma_multiset_commutative(
        seq_won(a.take(i)) + spec_won_cards(a[i].tricks@),
        seq_won(a.skip(i + 1)),
    );
    vstd::seq_lib::lemma_multiset_commutative(
        seq_won(a.take(i)),
        spec_won_cards(a[i].tricks@),
    );
    vstd::seq_lib::lemma_multiset_commutative(
        seq_won(b.take(i)) + spec_won_cards(b[i].tricks@),
        seq_won(b.skip(i + 1)),
    );
    vstd::seq_lib::lemma_multiset_commutative(
        seq_won(b.take(i)),
        spec_won_cards(b[i].tricks@),
    );
    assert(seq_won(a) == (seq_won(a.take(i)) + spec_won_cards(a[i].tricks@)) + seq_won(
        a.skip(i + 1),
    ));
    assert(seq_won(a).to_multiset() == ((seq_won(a.take(i)) + spec_won_cards(a[i].tricks@))
        + seq_won(a.skip(i + 1))).to_multiset());
    assert(seq_won(b).to_multiset() == ((seq_won(b.take(i)) + spec_won_cards(b[i].tricks@))
        + seq_won(b.skip(i + 1))).to_multiset());
    assert(seq_won(a).to_multiset() == pre.add(wa).add(post));
    assert(seq_won(b).to_multiset() == pre.add(wb).add(post));
    assert(pre.add(wb).add(post).add(wa) =~= pre.add(wa).add(post).add(wb));
}

/// How one legal play transforms the game: the card leaves the current
/// player's hand and joins the trick in progress; a full trick goes to its
/// winner, and an empty trick with the next index opens, led by the winner.
pub open spec fn play_step(pre: State, card: Card, post: State) -> bool {
    let n = pre.players@.len() as int;
    let cp = pre.spec_current_player_idx();
    let trick_cards = pre.current_trick.cards@.push(card);
    &&& post.players@.len() == n
    &&& post.players@[cp].hand.cards@ == pre.players@[cp].hand.cards@.remove(
        crate::card::index_of_card(pre.players@[cp].hand.cards@, card),
    )
    &&& post.players@[cp].tasks@ == pre.players@[cp].tasks@
    &&& if trick_cards.len() < n {
        &&& forall|j: int| 0 <= j < n && j != cp ==> post.players@[j] == pre.players@[j]
        &&& post.players@[cp].tricks@ == pre.players@[cp].tricks@
        &&& post.current_trick.idx == pre.current_trick.idx
        &&& post.current_trick.first_player == pre.current_trick.first_player
        &&& post.current_trick.cards@ == trick_cards
    } else {
        let w = crate::trick::spec_winner(trick_cards, pre.current_trick.first_player as int);
        &&& 0 <= w < n
        &&& crate::trick::rel_winner_ok(
            trick_cards,
            (w + n - pre.current_trick.first_player) % n,
        )
        &&& forall|j: int|
            0 <= j < n && j != cp && j != w ==> post.players@[j] == pre.players@[j]
        &&& (cp != w ==> post.players@[cp].tricks@ == pre.players@[cp].tricks@
            && post.players@[w].hand.cards@ == pre.players@[w].hand.cards@)
        &&& post.players@[w].tasks@ == pre.players@[w].tasks@
        &&& post.players@[w].tricks@.len() == pre.players@[w].tricks@.len() + 1
        &&& {
            let nt = post.players@[w].tricks@.last();
            &&& post.players@[w].tricks@ == pre.players@[w].tricks@.push(nt)
            &&& nt.idx == pre.current_trick.idx
            &&& nt.first_player == pre.current_trick.first_player
            &&& nt.cards@ == trick_cards
        }
        &&& post.current_trick.idx == pre.current_trick.idx + 1
        &&& post.current_trick.first_player == w
        &&& post.current_trick.cards@.len() == 0
    }
}


/// Two states agree in every observable field: player by player and in the
/// trick in progress.
pub open spec fn state_views_eq(a: State, b: State) -> bool {
    &&& b.players@.len() == a.players@.len()
    &&& forall|j: int|
        0 <= j < a.players@.len() ==> crate::player::player_views_eq(
            a.players@[j],
            #[trigger] b.players@[j],
        )
    &&& crate::trick::trick_views_eq(a.current_trick, b.current_trick)
}

/// States that agree in every observable field agree on each view-level
/// spec: the hand pool, the won pool, and the whole card pool.
pub proof fn lemma_state_views_eq_pools(a: State, b: State)
    requires
        state_views_eq(a, b),
    ensures
        seq_hands(b.players@) == seq_hands(a.players@),
        seq_won(b.players@) == seq_won(a.players@),
        all_cards_seq(b) == all_cards_seq(a),
        in_play_seq(b) == in_play_seq(a),
    decreases a.players@.len(),
{
    lemma_seq_hands_pointwise(a.players@, b.players@);
    lemma_seq_won_views(a.players@, b.players@);
    assert(all_cards_seq(b) =~= all_cards_seq(a));
    assert(in_play_seq(b) =~= in_play_seq(a));
}

/// Won cards concatenate equally when the trick lists agree card for card.
pub proof fn lemma_seq_won_views(a: Seq<Player>, b: Seq<Player>)
    requires
        a.len() == b.len(),
        forall|i: int|
            0 <= i < a.len() ==> crate::player::player_views_eq(a[i], #[trigger] b[i]),
    ensures
        seq_won(b) == seq_won(a),
    decreases a.len(),
{
    if a.len() > 0 {
        lemma_seq_won_views(a.drop_last(), b.drop_last());
        crate::player::lemma_won_cards_views(a.last().tricks@, b.last().tricks@);
        assert(seq_won(b) =~= seq_won(a));
    } else {
        assert(seq_won(b) =~= seq_won(a));
    }
}

/// A play that leaves the trick in progress unfinished moves one card from
/// the current player's hand into the trick: the card pool is unchanged as
/// a multiset.
#[verifier::rlimit(50)]
pub proof fn lemma_play_ms_mid(pre: State, post: State, card: Card)
    requires
        pre.wf(),
        post.players@.len() == pre.players@.len(),
        pre.players@[pre.spec_current_player_idx()].hand.cards@.contains(card),
        post.players@[pre.spec_current_player_idx()].hand.cards@ == pre.players@[
            pre.spec_current_player_idx()
        ].hand.cards@.remove(
            crate::card::index_of_card(
                pre.players@[pre.spec_current_player_idx()].hand.cards@,
                card,
            ),
        ),
        forall|j: int|
            0 <= j < pre.players@.len() && j != pre.spec_current_player_idx() ==> (
            #[trigger] post.players@[j]).hand.cards@ == pre.players@[j].hand.cards@,
        forall|j: int|
            0 <= j < pre.players@.len() ==> (#[trigger] post.players@[j]).tricks@
                == pre.players@[j].tricks@,
        post.current_trick.cards@ == pre.current_trick.cards@.push(card),
    ensures
        all_cards_seq(post).to_multiset() == all_cards_seq(pre).to_multiset(),
{
    broadcast use vstd::seq_lib::group_to_multiset_ensures;
    broadcast use vstd::multiset::group_multiset_axioms;

    let cp = pre.spec_current_player_idx();
    let hand_pre = pre.players@[cp].hand.cards@;
    let hand_post = post.players@[cp].hand.cards@;
    crate::card::lemma_index_of_card(hand_pre, card);
    assert(hand_post.to_multiset() =~= hand_pre.to_multiset().remove(card));
    lemma_seq_hands_ms_update(pre.players@, post.players@, cp);
    lemma_seq_won_pointwise(pre.players@, post.players@);
    assert(post.current_trick.cards@.to_multiset() =~= pre.current_trick.cards@.to_multiset()
        .insert(card));
    vstd::seq_lib::lemma_multiset_commutative(seq_hands(pre.players@), pre.current_trick.cards@);
    vstd::seq_lib::lemma_multiset_commutative(in_play_seq(pre), seq_won(pre.players@));
    vstd::seq_lib::lemma_multiset_commutative(seq_hands(post.players@), post.current_trick.cards@);
    vstd::seq_lib::lemma_multiset_commutative(in_play_seq(post), seq_won(post.players@));
    assert(hand_pre.to_multiset().count(card) > 0);
    let ah = seq_hands(post.players@).to_multiset();
    let bh = hand_pre.to_multiset();
    let ch = seq_hands(pre.players@).to_multiset();
    let dh = hand_post.to_multiset();
    assert(ah.add(bh) == ch.add(dh));
    assert forall|x: Card| #[trigger] all_cards_seq(post).to_multiset().count(x)
        == all_cards_seq(pre).to_multiset().count(x) by {
        assert(ah.add(bh).count(x) == ch.add(dh).count(x));
        assert(ah.count(x) + bh.count(x) == ch.count(x) + dh.count(x));
        assert(dh.count(x) == bh.count(x) - if x == card { 1int } else { 0int });
        assert(all_cards_seq(post).to_multiset().count(x) == ah.count(x)
            + post.current_trick.cards@.to_multiset().count(x) + seq_won(
            post.players@,
        ).to_multiset().count(x));
        assert(all_cards_seq(pre).to_multiset().count(x) == ch.count(x)
            + pre.current_trick.cards@.to_multiset().count(x) + seq_won(
            pre.players@,
        ).to_multiset().count(x));
        assert(post.current_trick.cards@.to_multiset().count(x)
            == pre.current_trick.cards@.to_multiset().count(x) + if x == card {
            1int
        } else {
            0int
        });
        assert(seq_won(post.players@).to_multiset().count(x) == seq_won(
            pre.players@,
        ).to_multiset().count(x));
    }
    assert(all_cards_seq(post).to_multiset() =~= all_cards_seq(pre).to_multiset());
}

/// A play that completes the trick in progress moves one card from the
/// current player's hand into the trick and the whole trick to its winner:
/// the card pool is unchanged as a multiset.
#[verifier::rlimit(80)]
pub proof fn lemma_play_ms_complete(pre: State, post: State, card: Card, w: int)
    requires
        pre.wf(),
        0 <= w < pre.players@.len(),
        post.players@.len() == pre.players@.len(),
        pre.players@[pre.spec_current_player_idx()].hand.cards@.contains(card),
        post.players@[pre.spec_current_player_idx()].hand.cards@ == pre.players@[
            pre.spec_current_player_idx()
        ].hand.cards@.remove(
            crate::card::index_of_card(
                pre.players@[pre.spec_current_player_idx()].hand.cards@,
                card,
            ),
        ),
        forall|j: int|
            0 <= j < pre.players@.len() && j != pre.spec_current_player_idx() ==> (
            #[trigger] post.players@[j]).hand.cards@ == pre.players@[j].hand.cards@,
        forall|j: int|
            0 <= j < pre.players@.len() && j != w ==> (#[trigger] post.players@[j]).tricks@
                == pre.players@[j].tricks@,
        post.players@[w].tricks@ == pre.players@[w].tricks@.push(post.players@[w].tricks@.last()),
        post.players@[w].tricks@.last().cards@ == pre.current_trick.cards@.push(card),
        post.current_trick.cards@.len() == 0,
    ensures
        all_cards_seq(post).to_multiset() == all_cards_seq(pre).to_multiset(),
{
    broadcast use vstd::seq_lib::group_to_multiset_ensures;
    broadcast use vstd::multiset::group_multiset_axioms;

    let cp = pre.spec_current_player_idx();
    let hand_pre = pre.players@[cp].hand.cards@;
    let hand_post = post.players@[cp].hand.cards@;
    let trick_cards = pre.current_trick.cards@.push(card);
    crate::card::lemma_index_of_card(hand_pre, card);
    assert(hand_post.to_multiset() =~= hand_pre.to_multiset().remove(card));
    lemma_seq_hands_ms_update(pre.players@, post.players@, cp);
    lemma_seq_won_ms_update(pre.players@, post.players@, w);
    crate::player::lemma_won_cards_push(
        pre.players@[w].tricks@,
        post.players@[w].tricks@.last(),
    );
    vstd::seq_lib::lemma_multiset_commutative(
        spec_won_cards(pre.players@[w].tricks@),
        trick_cards,
    );
    assert(spec_won_cards(post.players@[w].tricks@).to_multiset() == spec_won_cards(
        pre.players@[w].tricks@,
    ).to_multiset().add(trick_cards.to_multiset()));
    assert(trick_cards.to_multiset() =~= pre.current_trick.cards@.to_multiset().insert(card));
    assert(post.current_trick.cards@.to_multiset() =~= vstd::multiset::Multiset::<Card>::empty());
    vstd::seq_lib::lemma_multiset_commutative(seq_hands(pre.players@), pre.current_trick.cards@);
    vstd::seq_lib::lemma_multiset_commutative(in_play_seq(pre), seq_won(pre.players@));
    vstd::seq_lib::lemma_multiset_commutative(seq_hands(post.players@), post.current_trick.cards@);
    vstd::seq_lib::lemma_multiset_commutative(in_play_seq(post), seq_won(post.players@));
    assert(hand_pre.to_multiset().count(card) > 0);
    let ah = seq_hands(post.players@).to_multiset();
    let bh = hand_pre.to_multiset();
    let ch = seq_hands(pre.players@).to_multiset();
    let dh = hand_post.to_multiset();
    let aw = seq_won(post.players@).to_multiset();
    let bw = spec_won_cards(pre.players@[w].tricks@).to_multiset();
    let cw = seq_won(pre.players@).to_multiset();
    let dw = spec_won_cards(post.players@[w].tricks@).to_multiset();
    let cur = pre.current_trick.cards@.to_multiset();
    assert(ah.add(bh) == ch.add(dh));
    assert(aw.add(bw) == cw.add(dw));
    assert(dw == bw.add(cur.insert(card)));
    assert forall|x: Card| #[trigger] all_cards_seq(post).to_multiset().count(x)
        == all_cards_seq(pre).to_multiset().count(x) by {
        assert(ah.add(bh).count(x) == ch.add(dh).count(x));
        assert(ah.count(x) + bh.count(x) == ch.count(x) + dh.count(x));
        assert(dh.count(x) == bh.count(x) - if x == card { 1int } else { 0int });
        assert(aw.add(bw).count(x) == cw.add(dw).count(x));
        assert(aw.count(x) + bw.count(x) == cw.count(x) + dw.count(x));
        assert(dw.count(x) == bw.count(x) + cur.count(x) + if x == card { 1int } else { 0int });
        assert(all_cards_seq(post).to_multiset().count(x) == ah.count(x)
            + post.current_trick.cards@.to_multiset().count(x) + aw.count(x));
        assert(post.current_trick.cards@.to_multiset().count(x) == 0);
        assert(all_cards_seq(pre).to_multiset().count(x) == ch.count(x) + cur.count(x)
            + cw.count(x));
    }
    assert(all_cards_seq(post).to_multiset() =~= all_cards_seq(pre).to_multiset());
}


/// One legal play preserves well-formedness and the card pool: the heart
/// of the game-state model, and the step lemma behind the conservation
/// property for complete games.
pub proof fn lemma_play_step_preserves(pre: State, card: Card, post: State)
    requires
        pre.wf(),
        pre.players@[pre.spec_current_player_idx()].hand.cards@.contains(card),
        play_step(pre, card, post),
    ensures
        post.wf(),
        all_cards_seq(post).to_multiset() == all_cards_seq(pre).to_multiset(),
        post.current_trick.idx >= pre.current_trick.idx,
{
    let n = pre.players@.len() as int;
    let trick_cards = pre.current_trick.cards@.push(card);
    if trick_cards.len() < n {
        lemma_play_step_preserves_mid(pre, card, post);
    } else {
        lemma_play_step_preserves_complete(pre, card, post);
    }
}

#[verifier::rlimit(100)]
pub proof fn lemma_play_step_hands(pre: State, card: Card, post: State)
    requires
        pre.wf(),
        pre.players@[pre.spec_current_player_idx()].hand.cards@.contains(card),
        play_step(pre, card, post),
    ensures
        seq_hands(post.players@).len() + 1 == seq_hands(pre.players@).len(),
{
    let cp = pre.spec_current_player_idx();
    let hand_pre = pre.players@[cp].hand.cards@;
    lemma_seq_hands_decompose(pre.players@, cp);
    lemma_seq_hands_decompose(post.players@, cp);
    lemma_seq_hands_pointwise(pre.players@.take(cp), post.players@.take(cp));
    lemma_seq_hands_pointwise(pre.players@.skip(cp + 1), post.players@.skip(cp + 1));
    crate::card::lemma_index_of_card(hand_pre, card);
}

#[verifier::rlimit(100)]
proof fn lemma_play_step_preserves_mid(pre: State, card: Card, post: State)
    requires
        pre.wf(),
        pre.players@[pre.spec_current_player_idx()].hand.cards@.contains(card),
        play_step(pre, card, post),
        pre.current_trick.cards@.len() + 1 < pre.players@.len(),
    ensures
        post.wf(),
        all_cards_seq(post).to_multiset() == all_cards_seq(pre).to_multiset(),
        post.current_trick.idx >= pre.current_trick.idx,
{
    let n = pre.players@.len() as int;
    lemma_play_step_hands(pre, card, post);
    lemma_play_ms_mid(pre, post, card);
    crate::card::lemma_cards_ok_multiset(all_cards_seq(pre), all_cards_seq(post));
    assert(post.spec_n_tricks_left() == pre.spec_n_tricks_left());
    assert forall|i: int|
        0 <= i < n implies player_in_state_wf(
        #[trigger] post.players@[i],
        n,
        post.current_trick.idx as int,
    ) by {
        assert(player_in_state_wf(pre.players@[i], n, pre.current_trick.idx as int));
        assert(post.players@[i].tricks@ == pre.players@[i].tricks@);
    }
    assert(post.wf());
}

#[verifier::rlimit(100)]
proof fn lemma_play_step_preserves_complete(pre: State, card: Card, post: State)
    requires
        pre.wf(),
        pre.players@[pre.spec_current_player_idx()].hand.cards@.contains(card),
        play_step(pre, card, post),
        pre.current_trick.cards@.len() + 1 >= pre.players@.len(),
    ensures
        post.wf(),
        all_cards_seq(post).to_multiset() == all_cards_seq(pre).to_multiset(),
        post.current_trick.idx >= pre.current_trick.idx,
{
    let n = pre.players@.len() as int;
    let trick_cards = pre.current_trick.cards@.push(card);
    let w = crate::trick::spec_winner(trick_cards, pre.current_trick.first_player as int);
    lemma_play_step_hands(pre, card, post);
    lemma_play_ms_complete(pre, post, card, w);
    crate::card::lemma_cards_ok_multiset(all_cards_seq(pre), all_cards_seq(post));
    // One fewer trick remains, so the round budget still holds.
    let h = (seq_hands(pre.players@).len() - 1) as int;
    assert(h + n == seq_hands(pre.players@).len() + pre.current_trick.cards@.len());
    vstd::arithmetic::div_mod::lemma_div_plus_one(h, n);
    assert(post.spec_n_tricks_left() == pre.spec_n_tricks_left() - 1);
    assert(pre.spec_n_tricks_left() >= 1) by {
        vstd::arithmetic::div_mod::lemma_div_non_zero(h + n, n);
    }
    let completed = post.players@[w].tricks@.last();
    assert forall|i: int|
        0 <= i < n implies player_in_state_wf(
        #[trigger] post.players@[i],
        n,
        post.current_trick.idx as int,
    ) by {
        assert(player_in_state_wf(pre.players@[i], n, pre.current_trick.idx as int));
        if i == w {
            let ts = post.players@[i].tricks@;
            assert(ts == pre.players@[i].tricks@.push(completed));
            assert forall|j: int| 0 <= j < ts.len() implies {
                let t = #[trigger] ts[j];
                &&& t.cards@.len() == n
                &&& (t.first_player as int) < n
                &&& (t.idx as int) < post.current_trick.idx as int
            } by {
                if j < ts.len() - 1 {
                    assert(ts[j] == pre.players@[i].tricks@[j]);
                } else {
                    assert(ts[j] == completed);
                }
            }
            assert forall|j: int| 0 <= j < ts.len() - 1 implies (#[trigger] ts[j]).idx < ts[j
                + 1].idx by {
                assert(ts[j] == pre.players@[i].tricks@[j]);
                if j < ts.len() - 2 {
                    assert(ts[j + 1] == pre.players@[i].tricks@[j + 1]);
                } else {
                    assert(ts[j + 1] == completed);
                    assert((ts[j].idx as int) < pre.current_trick.idx as int);
                }
            }
        } else {
            assert(post.players@[i].tricks@ == pre.players@[i].tricks@);
        }
    }
    assert(post.wf());
}

/// Every state agrees with itself in all observable fields.
pub proof fn lemma_state_views_eq_refl(s: State)
    ensures
        state_views_eq(s, s),
{
    assert forall|j: int|
        0 <= j < s.players@.len() implies crate::player::player_views_eq(
        s.players@[j],
        #[trigger] s.players@[j],
    ) by {
        assert forall|k: int|
            0 <= k < s.players@[j].tasks@.len() implies crate::task::task_views_eq(
            s.players@[j].tasks@[k],
            #[trigger] s.players@[j].tasks@[k],
        ) by {
            crate::task::lemma_task_views_eq_refl(s.players@[j].tasks@[k]);
        }
    }
}

/// A card drawn from the current player's hand is valid and absent from the
/// trick in progress, so pushing it keeps the trick well formed.
pub proof fn lemma_trick_push_ok(pre: State, card: Card)
    requires
        pre.wf(),
        pre.players@[pre.spec_current_player_idx()].hand.cards@.contains(card),
    ensures
        cards_ok(pre.current_trick.cards@.push(card)),
        !pre.current_trick.cards@.contains(card),
{
    let cp = pre.spec_current_player_idx();
    lemma_cards_ok_split(in_play_seq(pre), seq_won(pre.players@));
    lemma_cards_ok_split(seq_hands(pre.players@), pre.current_trick.cards@);
    lemma_seq_hands_player(pre.players@, cp);
    assert(seq_hands(pre.players@).contains(card));
    assert(!pre.current_trick.cards@.contains(card));
    assert(card.spec_is_valid()) by {
        let k = choose|k: int|
            0 <= k < seq_hands(pre.players@).len() && seq_hands(pre.players@)[k] == card;
        assert(seq_hands(pre.players@)[k].spec_is_valid());
    }
    crate::card::lemma_cards_ok_push(pre.current_trick.cards@, card);
}

impl State {
    /// Plays a card for the player whose turn it is: the card leaves that
    /// player's hand and joins the trick in progress. A full trick is
    /// resolved: it goes to its winner's won list and an empty trick with
    /// the next index opens, led by the winner. A card absent from the
    /// acting hand is a caller bug, reported without changing the state.
    #[verifier::rlimit(100)]
    pub fn play_card(&mut self, card: &Card) -> (r: Result<(), GameError>)
        requires
            old(self).wf(),
        ensures
            final(self).wf(),
            match r {
                Ok(()) => {
                    &&& old(self).players@[old(self).spec_current_player_idx()].hand.cards@
                        .contains(*card)
                    &&& play_step(*old(self), *card, *final(self))
                    &&& all_cards_seq(*final(self)).to_multiset() == all_cards_seq(
                        *old(self),
                    ).to_multiset()
                },
                Err(GameError::CardNotFound(c, cs)) => {
                    &&& !old(self).players@[old(self).spec_current_player_idx()].hand.cards@
                        .contains(*card)
                    &&& c == *card
                    &&& state_views_eq(*old(self), *final(self))
                },
                Err(_) => false,
            },
    {
        proof {
            lemma_wf_bounds(*old(self));
        }
        let ghost pre = *self;
        let n = self.players.len();
        let cp = self.get_current_player_idx();

        let p = &mut self.players[cp];
        match p.remove_card_from_hand(card) {
            Err(e) => {
                proof {
                    lemma_same_cards_wf(pre, *self);
                    lemma_state_views_eq_refl(pre);
                }
                return Err(e);
            },
            Ok(()) => {},
        }

        self.current_trick.cards.push(*card);
        let ghost trick_cards = self.current_trick.cards@;
        proof {
            lemma_trick_push_ok(pre, *card);
        }

        if self.current_trick.cards.len() < n {
            proof {
                assert(play_step(pre, *card, *self));
                lemma_play_step_preserves(pre, *card, *self);
            }
            return Ok(());
        }

        // The trick is full: resolve it.
        let w = self.current_trick.winner();
        let completed = Trick {
            idx: self.current_trick.idx(),
            first_player: self.current_trick.get_first_player(),
            cards: self.current_trick.cards.clone(),
        };
        let wp = &mut self.players[w];
        let res = wp.add_trick(completed);
        proof {
            if res is Err {
                assert(false);
            }
        }
        self.current_trick.cards.clear();
        self.current_trick.set_first_player(w);
        proof {
            assert(self.current_trick.idx < usize::MAX);
        }
        self.current_trick.incr();
        proof {
            assert(play_step(pre, *card, *self)) by {
                crate::trick::lemma_rel_winner_unique(
                    trick_cards,
                    (w as int + n as int - pre.current_trick.first_player as int) % n as int,
                    crate::trick::spec_rel_winner(trick_cards),
                );
            }
            lemma_play_step_preserves(pre, *card, *self);
        }
        Ok(())
    }
}


/// What a player list must satisfy before a game can be built around it:
/// a small player count, full-sized tricks led by real players with
/// strictly increasing indices in the deck's round range, and no invalid
/// or duplicate card anywhere.
pub open spec fn spec_player_tricks_ok(p: Player, n: int) -> bool {
    &&& forall|j: int| 0 <= j < p.tricks@.len() ==> {
        let t = #[trigger] p.tricks@[j];
        &&& t.cards@.len() == n
        &&& (t.first_player as int) < n
        &&& (t.idx as int) < NB_CARDS as int
    }
    &&& forall|j: int|
        0 <= j < p.tricks@.len() - 1 ==> (#[trigger] p.tricks@[j]).idx < p.tricks@[j + 1].idx
}

/// One above the largest round index in a trick list; zero when empty.
pub open spec fn spec_next_after(ts: Seq<Trick>) -> int
    decreases ts.len(),
{
    if ts.len() == 0 {
        0
    } else {
        let rest = spec_next_after(ts.drop_last());
        let own = ts.last().idx + 1;
        if own > rest {
            own
        } else {
            rest
        }
    }
}

/// The index the next round must carry: one above every trick already won
/// by any player, zero for fresh players.
pub open spec fn spec_next_round(ps: Seq<Player>) -> int
    decreases ps.len(),
{
    if ps.len() == 0 {
        0
    } else {
        let rest = spec_next_round(ps.drop_last());
        let own = spec_next_after(ps.last().tricks@);
        if own > rest {
            own
        } else {
            rest
        }
    }
}

/// Fresh players start at round zero.
pub proof fn lemma_next_round_fresh(ps: Seq<Player>)
    requires
        forall|i: int| 0 <= i < ps.len() ==> (#[trigger] ps[i]).tricks@.len() == 0,
    ensures
        spec_next_round(ps) == 0,
    decreases ps.len(),
{
    if ps.len() > 0 {
        lemma_next_round_fresh(ps.drop_last());
        assert(ps.last() == ps[ps.len() - 1]);
    }
}

pub open spec fn spec_players_ok(ps: Seq<Player>) -> bool {
    let n = ps.len() as int;
    &&& 1 <= n <= 5
    &&& forall|i: int| 0 <= i < n ==> spec_player_tricks_ok(#[trigger] ps[i], n)
    &&& cards_ok(seq_hands(ps) + seq_won(ps))
}

/// Checks a player list card by card and trick by trick, and returns the
/// index the next round must carry: one above every already-won trick.
#[verifier::rlimit(100)]
fn validate_players(players: &Vec<Player>) -> (r: Result<usize, GameError>)
    ensures
        r is Ok <==> spec_players_ok(players@),
        match r {
            Ok(next) => {
                &&& next <= NB_CARDS
                &&& next as int == spec_next_round(players@)
                &&& forall|i: int, j: int|
                    #![trigger players@[i].tricks@[j]]
                    0 <= i < players@.len() && 0 <= j < players@[i].tricks@.len()
                        ==> (players@[i].tricks@[j].idx as int) < next as int
            },
            Err(_) => true,
        },
{
    let ghost ps = players@;
    let n = players.len();
    if n < 1 || n > 5 {
        return Err(GameError::InvalidPlayerCount(n));
    }

    // First pass: collect every card still in a hand.
    let mut all: Vec<Card> = Vec::new();
    let mut i: usize = 0;
    while i < n
        invariant
            ps == players@,
            n == ps.len(),
            i <= n,
            all@ == seq_hands(ps.take(i as int)),
        decreases n - i,
    {
        let mut k: usize = 0;
        let ghost hand = players@[i as int].hand.cards@;
        while k < players[i].hand.cards.len()
            invariant
                ps == players@,
                n == ps.len(),
                i < n,
                hand == ps[i as int].hand.cards@,
                k <= hand.len(),
                all@ == seq_hands(ps.take(i as int)) + hand.take(k as int),
            decreases hand.len() - k,
        {
            all.push(players[i].hand.cards[k]);
            proof {
                assert(hand.take(k as int + 1) =~= hand.take(k as int).push(hand[k as int]));
                assert(all@ =~= seq_hands(ps.take(i as int)) + hand.take(k as int + 1));
            }
            k += 1;
        }
        proof {
            assert(hand.take(hand.len() as int) =~= hand);
            assert(ps.take(i as int + 1).drop_last() =~= ps.take(i as int));
            assert(ps.take(i as int + 1).last() == ps[i as int]);
            assert(seq_hands(ps.take(i as int + 1)) == seq_hands(ps.take(i as int)) + hand);
        }
        i += 1;
    }
    proof {
        assert(ps.take(ps.len() as int) =~= ps);
    }

    // Second pass: validate each trick and collect its cards.
    let mut next_idx: usize = 0;
    let mut i: usize = 0;
    while i < n
        invariant
            ps == players@,
            n == ps.len(),
            1 <= n <= 5,
            i <= n,
            all@ == seq_hands(ps) + seq_won(ps.take(i as int)),
            next_idx <= NB_CARDS,
            next_idx as int == spec_next_round(ps.take(i as int)),
            forall|i2: int| 0 <= i2 < i ==> spec_player_tricks_ok(#[trigger] ps[i2], n as int),
            forall|i2: int, j: int|
                #![trigger ps[i2].tricks@[j]]
                0 <= i2 < i && 0 <= j < ps[i2].tricks@.len() ==> (ps[i2].tricks@[j].idx as int)
                    < next_idx as int,
        decreases n - i,
    {
        let ghost tricks = players@[i as int].tricks@;
        let mut j: usize = 0;
        while j < players[i].tricks.len()
            invariant
                ps == players@,
                n == ps.len(),
                1 <= n <= 5,
                i < n,
                tricks == ps[i as int].tricks@,
                j <= tricks.len(),
                all@ == seq_hands(ps) + seq_won(ps.take(i as int)) + spec_won_cards(
                    tricks.take(j as int),
                ),
                next_idx <= NB_CARDS,
                next_idx as int == if spec_next_after(tricks.take(j as int)) > spec_next_round(
                    ps.take(i as int),
                ) {
                    spec_next_after(tricks.take(j as int))
                } else {
                    spec_next_round(ps.take(i as int))
                },
                forall|j2: int| 0 <= j2 < j ==> {
                    let t = #[trigger] tricks[j2];
                    &&& t.cards@.len() == n
                    &&& (t.first_player as int) < n as int
                    &&& (t.idx as int) < NB_CARDS as int
                    &&& (t.idx as int) < next_idx as int
                },
                forall|j2: int|
                    0 <= j2 < j - 1 ==> (#[trigger] tricks[j2]).idx < tricks[j2 + 1].idx,
                forall|i2: int| 0 <= i2 < i ==> spec_player_tricks_ok(#[trigger] ps[i2], n as int),
                forall|i2: int, j2: int|
                    #![trigger ps[i2].tricks@[j2]]
                    0 <= i2 < i && 0 <= j2 < ps[i2].tricks@.len() ==> (ps[i2].tricks@[j2].idx
                        as int) < next_idx as int,
            decreases tricks.len() - j,
        {
            let tlen = players[i].tricks[j].cards.len();
            if tlen != n {
                return Err(GameError::InvalidTrickSize(n, tlen));
            }
            let tfp = players[i].tricks[j].first_player;
            if tfp >= n {
                return Err(GameError::InvalidFirstPlayer(tfp, n));
            }
            let tidx = players[i].tricks[j].idx;
            if tidx >= NB_CARDS {
                return Err(GameError::TrickIdxTooLarge(tidx));
            }
            if j > 0 {
                let prev = players[i].tricks[j - 1].idx;
                if prev >= tidx {
                    return Err(GameError::NonIncreasingTrickIdx);
                }
            }
            if tidx + 1 > next_idx {
                next_idx = tidx + 1;
            }
            proof {
                assert(tricks.take(j as int + 1).drop_last() =~= tricks.take(j as int));
                assert(tricks.take(j as int + 1).last() == tricks[j as int]);
            }
            let ghost tcards = tricks[j as int].cards@;
            let mut k: usize = 0;
            while k < players[i].tricks[j].cards.len()
                invariant
                    ps == players@,
                    n == ps.len(),
                    i < n,
                    tricks == ps[i as int].tricks@,
                    j < tricks.len(),
                    tcards == tricks[j as int].cards@,
                    k <= tcards.len(),
                    all@ == seq_hands(ps) + seq_won(ps.take(i as int)) + spec_won_cards(
                        tricks.take(j as int),
                    ) + tcards.take(k as int),
                decreases tcards.len() - k,
            {
                all.push(players[i].tricks[j].cards[k]);
                proof {
                    assert(tcards.take(k as int + 1) =~= tcards.take(k as int).push(
                        tcards[k as int],
                    ));
                    assert(all@ =~= seq_hands(ps) + seq_won(ps.take(i as int)) + spec_won_cards(
                        tricks.take(j as int),
                    ) + tcards.take(k as int + 1));
                }
                k += 1;
            }
            proof {
                assert(tcards.take(tcards.len() as int) =~= tcards);
                assert(tricks.take(j as int + 1).drop_last() =~= tricks.take(j as int));
                assert(tricks.take(j as int + 1).last() == tricks[j as int]);
                crate::player::lemma_won_cards_push(tricks.take(j as int), tricks[j as int]);
                assert(all@ =~= seq_hands(ps) + seq_won(ps.take(i as int)) + spec_won_cards(
                    tricks.take(j as int + 1),
                ));
            }
            j += 1;
        }
        proof {
            assert(tricks.take(tricks.len() as int) =~= tricks);
            assert(ps.take(i as int + 1).drop_last() =~= ps.take(i as int));
            assert(ps.take(i as int + 1).last() == ps[i as int]);
            assert(seq_won(ps.take(i as int + 1)) == seq_won(ps.take(i as int)) + spec_won_cards(
                tricks,
            ));
            assert(all@ =~= seq_hands(ps) + seq_won(ps.take(i as int + 1)));
            assert(spec_player_tricks_ok(ps[i as int], n as int));
        }
        i += 1;
    }
    proof {
        assert(ps.take(ps.len() as int) =~= ps);
    }

    if let Some(ix) = crate::card::find_invalid(&all) {
        let c = all[ix];
        proof {
            assert(!(seq_hands(ps) + seq_won(ps))[ix as int].spec_is_valid());
        }
        return Err(GameError::InvalidCard(c));
    }
    if let Some((a, b)) = crate::card::find_duplicate(&all) {
        let c = all[a];
        proof {
            assert((seq_hands(ps) + seq_won(ps))[a as int] == (seq_hands(ps) + seq_won(ps))[
                b as int]);
        }
        return Err(GameError::DuplicateCard(c));
    }
    Ok(next_idx)
}


/// A freshly validated player list plus an empty trick in range makes a
/// well-formed state.
pub proof fn lemma_fresh_state_wf(s: State)
    requires
        spec_players_ok(s.players@),
        s.current_trick.cards@.len() == 0,
        (s.current_trick.first_player as int) < s.players@.len(),
        s.current_trick.idx <= NB_CARDS,
        forall|i: int, j: int|
            #![trigger s.players@[i].tricks@[j]]
            0 <= i < s.players@.len() && 0 <= j < s.players@[i].tricks@.len()
                ==> (s.players@[i].tricks@[j].idx as int) < s.current_trick.idx as int,
    ensures
        s.wf(),
{
    let n = s.players@.len() as int;
    assert(all_cards_seq(s) =~= seq_hands(s.players@) + seq_won(s.players@));
    assert(cards_ok(all_cards_seq(s)));
    assert forall|i: int|
        0 <= i < n implies player_in_state_wf(
        #[trigger] s.players@[i],
        n,
        s.current_trick.idx as int,
    ) by {
        assert(spec_player_tricks_ok(s.players@[i], n));
    }
    crate::card::lemma_cards_ok_len(all_cards_seq(s));
    lemma_cards_ok_split(seq_hands(s.players@), seq_won(s.players@));
    assert(seq_hands(s.players@).len() <= NB_CARDS) by {
        assert(seq_hands(s.players@).len() <= all_cards_seq(s).len());
    }
    assert(s.spec_n_tricks_left() <= NB_CARDS as int) by {
        let h = (seq_hands(s.players@).len() + s.current_trick.cards@.len()) as int;
        vstd::arithmetic::div_mod::lemma_div_is_ordered_by_denominator(h, 1, n);
        vstd::arithmetic::div_mod::lemma_div_basics(h);
    }
}

impl State {
    /// Builds a game from a player list: the captain leads the first trick,
    /// whose index is one above every trick already won. Construction fails
    /// on any malformed piece and on a missing captain.
    pub fn new(players: Vec<Player>) -> (r: Result<State, GameError>)
        ensures
            r is Ok <==> spec_players_ok(players@) && (exists|j: int|
                0 <= j < players@.len() && (#[trigger] players@[j]).spec_is_captain()),
            match r {
                Ok(s) => {
                    &&& s.wf()
                    &&& s.players@ == players@
                    &&& s.current_trick.cards@.len() == 0
                    &&& s.current_trick.idx as int == spec_next_round(players@)
                    &&& (s.current_trick.first_player as int) < players@.len()
                    &&& players@[s.current_trick.first_player as int].spec_is_captain()
                    &&& forall|j: int|
                        0 <= j < s.current_trick.first_player ==> !(
                        #[trigger] players@[j]).spec_is_captain()
                },
                Err(_) => true,
            },
    {
        let ghost ps = players@;
        let next_idx = match validate_players(&players) {
            Ok(nx) => nx,
            Err(e) => {
                return Err(e);
            },
        };
        let captain = match State::retrieve_captain(&players) {
            Ok(c) => c,
            Err(e) => {
                return Err(e);
            },
        };
        let s = State {
            players,
            current_trick: Trick { idx: next_idx, first_player: captain, cards: Vec::new() },
        };
        proof {
            lemma_fresh_state_wf(s);
        }
        Ok(s)
    }

    /// Builds a game with an explicitly chosen leader instead of deriving
    /// the captain: for positions where the highest trump is already out of
    /// the game.
    pub fn new_with_first_player(players: Vec<Player>, first_player: usize) -> (r: Result<
        State,
        GameError,
    >)
        ensures
            r is Ok <==> spec_players_ok(players@) && (first_player as int) < players@.len(),
            match r {
                Ok(s) => {
                    &&& s.wf()
                    &&& s.players@ == players@
                    &&& s.current_trick.cards@.len() == 0
                    &&& s.current_trick.idx as int == spec_next_round(players@)
                    &&& s.current_trick.first_player == first_player
                },
                Err(_) => true,
            },
    {
        let ghost ps = players@;
        let next_idx = match validate_players(&players) {
            Ok(nx) => nx,
            Err(e) => {
                return Err(e);
            },
        };
        if first_player >= players.len() {
            return Err(GameError::InvalidFirstPlayer(first_player, players.len()));
        }
        let s = State {
            players,
            current_trick: Trick { idx: next_idx, first_player, cards: Vec::new() },
        };
        proof {
            lemma_fresh_state_wf(s);
        }
        Ok(s)
    }
}


impl Clone for State {
    fn clone(&self) -> (r: State)
        ensures
            state_views_eq(*self, r),
    {
        let mut players: Vec<Player> = Vec::new();
        let mut i: usize = 0;
        while i < self.players.len()
            invariant
                i <= self.players@.len(),
                players@.len() == i,
                forall|j: int|
                    0 <= j < i ==> crate::player::player_views_eq(
                        self.players@[j],
                        #[trigger] players@[j],
                    ),
            decreases self.players@.len() - i,
        {
            players.push(self.players[i].clone());
            i += 1;
        }
        State { players, current_trick: self.current_trick.clone() }
    }
}

/// Every task of every player is structurally well formed.
pub open spec fn spec_tasks_wf(ps: Seq<Player>) -> bool {
    forall|i: int, k: int|
        #![trigger ps[i].tasks@[k]]
        0 <= i < ps.len() && 0 <= k < ps[i].tasks@.len() ==> ps[i].tasks@[k].wf()
}

/// A state that agrees with a well-formed one in every observable field is
/// itself well formed, with the same hand pool and equally well-formed
/// tasks.
pub proof fn lemma_views_eq_preserves(a: State, b: State)
    requires
        a.wf(),
        spec_tasks_wf(a.players@),
        state_views_eq(a, b),
    ensures
        b.wf(),
        spec_tasks_wf(b.players@),
        seq_hands(b.players@) == seq_hands(a.players@),
{
    lemma_state_views_eq_pools(a, b);
    lemma_same_cards_wf(a, b);
    assert forall|i: int, k: int|
        #![trigger b.players@[i].tasks@[k]]
        0 <= i < b.players@.len() && 0 <= k < b.players@[i].tasks@.len() implies b.players@[
        i].tasks@[k].wf() by {
        crate::task::lemma_task_views_eq_wf(a.players@[i].tasks@[k], b.players@[i].tasks@[k]);
    }
}

/// A legal play never touches any player's task list.
pub proof fn lemma_play_step_tasks_wf(pre: State, card: Card, post: State)
    requires
        play_step(pre, card, post),
        spec_tasks_wf(pre.players@),
    ensures
        spec_tasks_wf(post.players@),
{
    let n = pre.players@.len() as int;
    let cp = pre.spec_current_player_idx();
    let trick_cards = pre.current_trick.cards@.push(card);
    assert forall|i: int, k: int|
        #![trigger post.players@[i].tasks@[k]]
        0 <= i < post.players@.len() && 0 <= k < post.players@[i].tasks@.len() implies post
        .players@[i].tasks@[k].wf() by {
        if trick_cards.len() < n {
            if i != cp {
                assert(post.players@[i] == pre.players@[i]);
            }
        } else {
            let w = crate::trick::spec_winner(
                trick_cards,
                pre.current_trick.first_player as int,
            );
            if i != cp && i != w {
                assert(post.players@[i] == pre.players@[i]);
            }
        }
        assert(post.players@[i].tasks@ == pre.players@[i].tasks@);
    }
}

impl State {
    /// The combined status of one player's tasks in this state.
    pub open spec fn spec_player_status(&self, i: int) -> TaskStatus {
        self.players@[i].spec_tasks_status(*self, i)
    }

    /// The status of the whole game: Failed as soon as any player's any
    /// task is Failed; Done once every player's every task is Done; else
    /// Unknown, escalated to Failed once the game is over, since open
    /// tasks can never be resolved after that point.
    pub open spec fn spec_game_status(&self) -> TaskStatus {
        if exists|i: int|
            0 <= i < self.players@.len() && (#[trigger] self.spec_player_status(i))
                == TaskStatus::Failed {
            TaskStatus::Failed
        } else if forall|i: int|
            0 <= i < self.players@.len() ==> (#[trigger] self.spec_player_status(i))
                == TaskStatus::Done {
            TaskStatus::Done
        } else if self.spec_game_is_over() {
            TaskStatus::Failed
        } else {
            TaskStatus::Unknown
        }
    }

    #[verifier::rlimit(60)]
    pub fn game_status(&self) -> (r: TaskStatus)
        requires
            self.wf(),
            spec_tasks_wf(self.players@),
        ensures
            r == self.spec_game_status(),
    {
        let mut done = true;
        let mut i: usize = 0;
        while i < self.players.len()
            invariant
                self.wf(),
                spec_tasks_wf(self.players@),
                i <= self.players@.len(),
                forall|l: int|
                    0 <= l < i ==> (#[trigger] self.spec_player_status(l)) != TaskStatus::Failed,
                done == forall|l: int|
                    0 <= l < i ==> (#[trigger] self.spec_player_status(l)) == TaskStatus::Done,
            decreases self.players@.len() - i,
        {
            let st = self.players[i].tasks_status(i, self);
            proof {
                assert(self.spec_player_status(i as int) == st);
            }
            match st {
                TaskStatus::Failed => {
                    return TaskStatus::Failed;
                },
                TaskStatus::Unknown => {
                    done = false;
                },
                TaskStatus::Done => {},
            }
            i += 1;
        }
        if done {
            TaskStatus::Done
        } else if self.game_is_over() {
            TaskStatus::Failed
        } else {
            TaskStatus::Unknown
        }
    }
}


/// A card is in some hand exactly when it stands in the combined hand
/// sequence.
pub proof fn lemma_seq_hands_contains(ps: Seq<Player>, c: Card)
    ensures
        seq_hands(ps).contains(c) <==> exists|i: int|
            0 <= i < ps.len() && (#[trigger] ps[i]).hand.cards@.contains(c),
    decreases ps.len(),
{
    if ps.len() == 0 {
    } else {
        lemma_seq_hands_contains(ps.drop_last(), c);
        let a = seq_hands(ps.drop_last());
        let b = ps.last().hand.cards@;
        assert((a + b).contains(c) <==> a.contains(c) || b.contains(c)) by {
            if (a + b).contains(c) {
                let i = choose|i: int| 0 <= i < (a + b).len() && (a + b)[i] == c;
                if i < a.len() {
                    assert(a[i] == c);
                } else {
                    assert(b[i - a.len()] == c);
                }
            }
            if a.contains(c) {
                let i = choose|i: int| 0 <= i < a.len() && a[i] == c;
                assert((a + b)[i] == c);
            }
            if b.contains(c) {
                let i = choose|i: int| 0 <= i < b.len() && b[i] == c;
                assert((a + b)[a.len() + i] == c);
            }
        }
        assert forall|i: int| 0 <= i < ps.len() && (#[trigger] ps[i]).hand.cards@.contains(c)
            implies seq_hands(ps).contains(c) by {
            if i < ps.len() - 1 {
                assert(ps.drop_last()[i] == ps[i]);
            } else {
                assert(ps.last() == ps[i]);
            }
        }
        if seq_hands(ps).contains(c) {
            if a.contains(c) {
                let i = choose|i: int|
                    0 <= i < ps.drop_last().len() && (#[trigger] ps.drop_last()[i]).hand.cards@
                        .contains(c);
                assert(ps[i].hand.cards@.contains(c));
            } else {
                assert(ps[ps.len() - 1].hand.cards@.contains(c));
            }
        }
    }
}

/// In a well-formed state, counts of tricks and of remaining rounds are
/// small: the deck holds only forty cards.
pub proof fn lemma_wf_small_counts(s: State)
    requires
        s.wf(),
    ensures
        forall|i: int|
            0 <= i < s.players@.len() ==> (#[trigger] s.players@[i]).tricks@.len() <= NB_CARDS,
        s.spec_n_tricks_left() <= 2 * (NB_CARDS as int),
        s.current_trick.idx <= 2 * (NB_CARDS as int),
{
    lemma_wf_bounds(s);
    assert forall|i: int|
        0 <= i < s.players@.len() implies (#[trigger] s.players@[i]).tricks@.len()
        <= NB_CARDS by {
        crate::player::lemma_won_cards_min_len(s.players@[i].tricks@);
    }
    let h = (seq_hands(s.players@).len() + s.current_trick.cards@.len()) as int;
    let n = s.players@.len() as int;
    vstd::arithmetic::div_mod::lemma_div_is_ordered_by_denominator(h, 1, n);
    vstd::arithmetic::div_mod::lemma_div_basics(h);
}

/// A card is in play exactly when some hand or the trick in progress holds
/// it.
pub proof fn lemma_in_play_contains(s: State, c: Card)
    ensures
        in_play_seq(s).contains(c) <==> (exists|i: int|
            0 <= i < s.players@.len() && (#[trigger] s.players@[i]).hand.cards@.contains(c))
            || s.current_trick.cards@.contains(c),
{
    lemma_seq_hands_contains(s.players@, c);
    let a = seq_hands(s.players@);
    let b = s.current_trick.cards@;
    assert((a + b).contains(c) <==> a.contains(c) || b.contains(c)) by {
        if (a + b).contains(c) {
            let i = choose|i: int| 0 <= i < (a + b).len() && (a + b)[i] == c;
            if i < a.len() {
                assert(a[i] == c);
            } else {
                assert(b[i - a.len()] == c);
            }
        }
        if a.contains(c) {
            let i = choose|i: int| 0 <= i < a.len() && a[i] == c;
            assert((a + b)[i] == c);
        }
        if b.contains(c) {
            let i = choose|i: int| 0 <= i < b.len() && b[i] == c;
            assert((a + b)[a.len() + i] == c);
        }
    }
}

/// Seat `i` holds the highest trump card right now: in hand, in a won
/// trick, or played by that seat into the trick in progress.
pub open spec fn spec_holds_highest_trump(s: State, i: int) -> bool {
    ||| s.players@[i].spec_is_captain()
    ||| exists|j: int|
        0 <= j < s.current_trick.cards@.len() && (#[trigger] s.current_trick.cards@[j])
            == Card::Trump(4) && (s.current_trick.first_player + j) % (
        s.players@.len() as int) == i
}

/// Seat `i` is the first seat holding the highest trump card.
pub open spec fn spec_first_captain(s: State, i: int) -> bool {
    &&& 0 <= i < s.players@.len()
    &&& spec_holds_highest_trump(s, i)
    &&& forall|j: int| 0 <= j < i ==> !spec_holds_highest_trump(s, j)
}

/// Only one seat can be the first captain.
pub proof fn lemma_first_captain_unique(s: State, i: int)
    requires
        spec_first_captain(s, i),
    ensures
        spec_first_captain(s, choose|k: int| spec_first_captain(s, k)),
        (choose|k: int| spec_first_captain(s, k)) == i,
{
    assert(exists|k: int| spec_first_captain(s, k));
    let c = choose|k: int| spec_first_captain(s, k);
    if c != i {
        if c < i {
            assert(spec_holds_highest_trump(s, c));
        } else {
            assert(spec_holds_highest_trump(s, i));
        }
    }
}

impl State {
    /// The seat that currently holds the highest trump card, scanning hands,
    /// won tricks and the trick in progress; the identity is stable for the
    /// whole game even as the card's location moves.
    pub fn current_captain(&self) -> (r: Option<usize>)
        requires
            self.wf(),
        ensures
            match r {
                Some(i) => spec_first_captain(*self, i as int),
                None => forall|j: int|
                    0 <= j < self.players@.len() ==> !spec_holds_highest_trump(*self, j),
            },
    {
        let n = self.players.len();
        // Where in the trick in progress does the highest trump sit, if
        // anywhere, and which seat played it?
        let mut trick_holder: Option<usize> = None;
        let mut j: usize = 0;
        while j < self.current_trick.cards.len()
            invariant
                self.wf(),
                n == self.players@.len(),
                j <= self.current_trick.cards@.len(),
                match trick_holder {
                    Some(h) => exists|j2: int|
                        0 <= j2 < self.current_trick.cards@.len() && (
                        #[trigger] self.current_trick.cards@[j2]) == Card::Trump(4) && (
                        self.current_trick.first_player + j2) % (n as int) == h as int,
                    None => forall|j2: int|
                        0 <= j2 < j ==> (#[trigger] self.current_trick.cards@[j2])
                            != Card::Trump(4),
                },
            decreases self.current_trick.cards@.len() - j,
        {
            if trick_holder.is_none() && self.current_trick.cards[j] == Card::Trump(4) {
                let fp = self.current_trick.get_first_player();
                let h = if j >= n - fp {
                    j - (n - fp)
                } else {
                    j + fp
                };
                proof {
                    let ni = n as int;
                    let ji = j as int;
                    let fpi = fp as int;
                    assert(ji < ni && fpi < ni);
                    if ji + fpi < ni {
                        vstd::arithmetic::div_mod::lemma_fundamental_div_mod_converse(
                            fpi + ji, ni, 0, fpi + ji);
                    } else {
                        vstd::arithmetic::div_mod::lemma_fundamental_div_mod_converse(
                            fpi + ji, ni, 1, fpi + ji - ni);
                    }
                    assert((self.current_trick.first_player + ji) % ni == h as int);
                }
                trick_holder = Some(h);
            }
            j += 1;
        }

        let mut i: usize = 0;
        while i < n
            invariant
                self.wf(),
                n == self.players@.len(),
                i <= n,
                match trick_holder {
                    Some(h) => exists|j2: int|
                        0 <= j2 < self.current_trick.cards@.len() && (
                        #[trigger] self.current_trick.cards@[j2]) == Card::Trump(4) && (
                        self.current_trick.first_player + j2) % (n as int) == h as int,
                    None => forall|j2: int|
                        0 <= j2 < self.current_trick.cards@.len() ==> (
                        #[trigger] self.current_trick.cards@[j2]) != Card::Trump(4),
                },
                forall|j2: int| 0 <= j2 < i ==> !spec_holds_highest_trump(*self, j2),
            decreases n - i,
        {
            let held = self.players[i].is_captain();
            let in_trick = match trick_holder {
                Some(h) => h == i,
                None => false,
            };
            if held || in_trick {
                proof {
                    assert(spec_holds_highest_trump(*self, i as int));
                }
                return Some(i);
            }
            proof {
                assert(!spec_holds_highest_trump(*self, i as int)) by {
                    lemma_wf_bounds(*self);
                    if spec_holds_highest_trump(*self, i as int) {
                        if !self.players@[i as int].spec_is_captain() {
                            let j2 = choose|j2: int|
                                0 <= j2 < self.current_trick.cards@.len() && (
                                #[trigger] self.current_trick.cards@[j2]) == Card::Trump(4)
                                    && (self.current_trick.first_player + j2) % (n as int)
                                    == i as int;
                            match trick_holder {
                                Some(h) => {
                                    let j3 = choose|j3: int|
                                        0 <= j3 < self.current_trick.cards@.len() && (
                                        #[trigger] self.current_trick.cards@[j3]) == Card::Trump(
                                        4,
                                    ) && (self.current_trick.first_player + j3) % (n as int)
                                        == h as int;
                                    // the trick's cards are distinct, so the
                                    // highest trump sits at one position only
                                    assert(j2 == j3);
                                },
                                None => {
                                    assert(self.current_trick.cards@[j2] != Card::Trump(4));
                                },
                            }
                        }
                    }
                }
            }
            i += 1;
        }
        None
    }
}

impl State {
    /// Number of cards of the given suit still in play: in hands or in the
    /// trick in progress.
    pub fn count_in_play_suit(&self, suit: Suit) -> (r: usize)
        requires
            self.wf(),
        ensures
            r == crate::card::count_suit(in_play_seq(*self), suit),
    {
        proof {
            lemma_wf_bounds(*self);
        }
        let ghost ps = self.players@;
        let mut cnt: usize = 0;
        let mut i: usize = 0;
        while i < self.players.len()
            invariant
                ps == self.players@,
                i <= ps.len(),
                cnt == crate::card::count_suit(seq_hands(ps.take(i as int)), suit),
                cnt <= seq_hands(ps.take(i as int)).len(),
                seq_hands(ps.take(i as int)).len() <= seq_hands(ps).len(),
                seq_hands(ps).len() <= NB_CARDS,
            decreases ps.len() - i,
        {
            let c = crate::card::count_suit_in(&self.players[i].hand.cards, suit);
            proof {
                assert(ps.take(i as int + 1).drop_last() =~= ps.take(i as int));
                assert(ps.take(i as int + 1).last() == ps[i as int]);
                crate::card::lemma_count_suit_concat(
                    seq_hands(ps.take(i as int)),
                    ps[i as int].hand.cards@,
                    suit,
                );
                lemma_seq_hands_prefix_len(ps, i as int + 1);
                crate::card::lemma_count_suit_le_len(ps[i as int].hand.cards@, suit);
            }
            cnt += c;
            i += 1;
        }
        proof {
            assert(ps.take(ps.len() as int) =~= ps);
        }
        let c = crate::card::count_suit_in(&self.current_trick.cards, suit);
        proof {
            crate::card::lemma_count_suit_concat(
                seq_hands(ps),
                self.current_trick.cards@,
                suit,
            );
            crate::card::lemma_count_suit_le_len(self.current_trick.cards@, suit);
        }
        cnt + c
    }

    /// Number of non-trump cards of the given rank still in play.
    pub fn count_in_play_val(&self, v: usize) -> (r: usize)
        requires
            self.wf(),
        ensures
            r == crate::card::count_val(in_play_seq(*self), v),
    {
        proof {
            lemma_wf_bounds(*self);
        }
        let ghost ps = self.players@;
        let mut cnt: usize = 0;
        let mut i: usize = 0;
        while i < self.players.len()
            invariant
                ps == self.players@,
                i <= ps.len(),
                cnt == crate::card::count_val(seq_hands(ps.take(i as int)), v),
                cnt <= seq_hands(ps.take(i as int)).len(),
                seq_hands(ps.take(i as int)).len() <= seq_hands(ps).len(),
                seq_hands(ps).len() <= NB_CARDS,
            decreases ps.len() - i,
        {
            let c = crate::card::count_val_in(&self.players[i].hand.cards, v);
            proof {
                assert(ps.take(i as int + 1).drop_last() =~= ps.take(i as int));
                assert(ps.take(i as int + 1).last() == ps[i as int]);
                crate::card::lemma_count_val_concat(
                    seq_hands(ps.take(i as int)),
                    ps[i as int].hand.cards@,
                    v,
                );
                lemma_seq_hands_prefix_len(ps, i as int + 1);
                crate::card::lemma_count_val_le_len(ps[i as int].hand.cards@, v);
            }
            cnt += c;
            i += 1;
        }
        proof {
            assert(ps.take(ps.len() as int) =~= ps);
        }
        let c = crate::card::count_val_in(&self.current_trick.cards, v);
        proof {
            crate::card::lemma_count_val_concat(seq_hands(ps), self.current_trick.cards@, v);
            crate::card::lemma_count_val_le_len(self.current_trick.cards@, v);
        }
        cnt + c
    }

    /// True when the given card is still in play: in some hand or in the
    /// trick in progress.
    pub fn card_in_play(&self, card: &Card) -> (r: bool)
        ensures
            r == in_play_seq(*self).contains(*card),
    {
        let mut i: usize = 0;
        while i < self.players.len()
            invariant
                i <= self.players@.len(),
                forall|k: int| 0 <= k < i ==> !(#[trigger] self.players@[k]).hand.cards@.contains(
                    *card,
                ),
            decreases self.players@.len() - i,
        {
            if crate::card::contains_card(&self.players[i].hand.cards, card) {
                proof {
                    lemma_in_play_contains(*self, *card);
                }
                return true;
            }
            i += 1;
        }
        proof {
            lemma_in_play_contains(*self, *card);
        }
        crate::card::contains_card(&self.current_trick.cards, card)
    }
}


/// Conservation at the end of a complete game: when no card remains in any
/// hand or in the trick in progress, the players' won tricks together hold
/// exactly the game's card pool. Together with the multiset preservation in
/// `play_card`'s contract, the union of all won cards over a complete game
/// equals the dealt set, each card exactly once.
pub proof fn lemma_complete_game_conservation(s: State)
    requires
        seq_hands(s.players@).len() == 0,
        s.current_trick.cards@.len() == 0,
    ensures
        all_cards_seq(s) == seq_won(s.players@),
{
    assert(all_cards_seq(s) =~= seq_won(s.players@));
}

/// A legal play never removes a card from a player's won tricks.
pub proof fn lemma_play_step_won_grows(pre: State, card: Card, post: State, i: int)
    requires
        play_step(pre, card, post),
        0 <= i < pre.players@.len(),
    ensures
        forall|c: Card|
            spec_won_cards(pre.players@[i].tricks@).contains(c) ==> spec_won_cards(
                post.players@[i].tricks@,
            ).contains(c),
{
    let n = pre.players@.len() as int;
    let cp = pre.spec_current_player_idx();
    let trick_cards = pre.current_trick.cards@.push(card);
    if trick_cards.len() < n {
        assert(post.players@[i].tricks@ == pre.players@[i].tricks@);
    } else {
        let w = crate::trick::spec_winner(trick_cards, pre.current_trick.first_player as int);
        if i == w {
            crate::player::lemma_won_cards_push(
                pre.players@[i].tricks@,
                post.players@[i].tricks@.last(),
            );
            let a = spec_won_cards(pre.players@[i].tricks@);
            let b = post.players@[i].tricks@.last().cards@;
            assert forall|c: Card| a.contains(c) implies (a + b).contains(c) by {
                let k = choose|k: int| 0 <= k < a.len() && a[k] == c;
                assert((a + b)[k] == c);
            }
        } else {
            assert(post.players@[i].tricks@ == pre.players@[i].tricks@);
        }
    }
}

/// Whatever a player gains in one legal play was in play before it.
#[verifier::rlimit(100)]
pub proof fn lemma_play_step_gains_from_play(pre: State, card: Card, post: State, i: int)
    requires
        pre.wf(),
        pre.players@[pre.spec_current_player_idx()].hand.cards@.contains(card),
        play_step(pre, card, post),
        0 <= i < pre.players@.len(),
    ensures
        forall|c: Card|
            spec_won_cards(post.players@[i].tricks@).contains(c) ==> spec_won_cards(
                pre.players@[i].tricks@,
            ).contains(c) || in_play_seq(pre).contains(c),
{
    let n = pre.players@.len() as int;
    let cp = pre.spec_current_player_idx();
    let trick_cards = pre.current_trick.cards@.push(card);
    if trick_cards.len() < n {
        assert(post.players@[i].tricks@ == pre.players@[i].tricks@);
    } else {
        let w = crate::trick::spec_winner(trick_cards, pre.current_trick.first_player as int);
        if i == w {
            crate::player::lemma_won_cards_push(
                pre.players@[i].tricks@,
                post.players@[i].tricks@.last(),
            );
            let a = spec_won_cards(pre.players@[i].tricks@);
            let b = trick_cards;
            assert forall|c: Card| (a + b).contains(c) implies a.contains(c) || in_play_seq(
                pre,
            ).contains(c) by {
                let k = choose|k: int| 0 <= k < (a + b).len() && (a + b)[k] == c;
                if k < a.len() {
                    assert(a[k] == c);
                } else {
                    assert(b[k - a.len()] == c);
                    // the trick's cards were in hands or in the trick in progress
                    if k - a.len() < pre.current_trick.cards@.len() {
                        assert(pre.current_trick.cards@[k - a.len()] == c);
                        assert(in_play_seq(pre)[seq_hands(pre.players@).len() + (k - a.len())]
                            == c);
                    } else {
                        assert(c == card);
                        lemma_cards_ok_split(in_play_seq(pre), seq_won(pre.players@));
                        lemma_cards_ok_split(seq_hands(pre.players@), pre.current_trick.cards@);
                        lemma_seq_hands_player(pre.players@, cp);
                        assert(seq_hands(pre.players@).contains(c));
                        let k2 = choose|k2: int|
                            0 <= k2 < seq_hands(pre.players@).len() && seq_hands(pre.players@)[k2]
                                == c;
                        assert(in_play_seq(pre)[k2] == c);
                    }
                }
            }
        } else {
            assert(post.players@[i].tricks@ == pre.players@[i].tricks@);
        }
    }
}

/// One legal play can only shrink what is still in play.
pub proof fn lemma_play_step_in_play_shrinks(pre: State, card: Card, post: State)
    requires
        pre.wf(),
        pre.players@[pre.spec_current_player_idx()].hand.cards@.contains(card),
        play_step(pre, card, post),
    ensures
        forall|c: Card| in_play_seq(post).contains(c) ==> in_play_seq(pre).contains(c),
{
    broadcast use vstd::seq_lib::group_to_multiset_ensures;

    lemma_play_step_preserves(pre, card, post);
    vstd::seq_lib::lemma_multiset_commutative(in_play_seq(pre), seq_won(pre.players@));
    vstd::seq_lib::lemma_multiset_commutative(in_play_seq(post), seq_won(post.players@));
    assert forall|c: Card| in_play_seq(post).contains(c) implies in_play_seq(pre).contains(
        c,
    ) by {
        assert(in_play_seq(post).to_multiset().count(c) > 0);
        // the whole pool is preserved and won counts never drop
        assert(all_cards_seq(post).to_multiset().count(c) == all_cards_seq(
            pre,
        ).to_multiset().count(c));
        assert(seq_won(post.players@).to_multiset().count(c) >= seq_won(
            pre.players@,
        ).to_multiset().count(c)) by {
            lemma_play_step_won_ms(pre, card, post, c);
        }
        assert(in_play_seq(pre).to_multiset().count(c) > 0);
    }
}

/// The won pool only gains cards in one legal play, card by card.
pub proof fn lemma_play_step_won_ms(pre: State, card: Card, post: State, c: Card)
    requires
        play_step(pre, card, post),
    ensures
        seq_won(post.players@).to_multiset().count(c) >= seq_won(
            pre.players@,
        ).to_multiset().count(c),
{
    broadcast use vstd::seq_lib::group_to_multiset_ensures;

    let n = pre.players@.len() as int;
    let cp = pre.spec_current_player_idx();
    let trick_cards = pre.current_trick.cards@.push(card);
    if trick_cards.len() < n {
        lemma_seq_won_pointwise(pre.players@, post.players@);
    } else {
        let w = crate::trick::spec_winner(trick_cards, pre.current_trick.first_player as int);
        lemma_seq_won_ms_update(pre.players@, post.players@, w);
        crate::player::lemma_won_cards_push(
            pre.players@[w].tricks@,
            post.players@[w].tricks@.last(),
        );
        vstd::seq_lib::lemma_multiset_commutative(
            spec_won_cards(pre.players@[w].tricks@),
            trick_cards,
        );
        let aw = seq_won(post.players@).to_multiset();
        let bw = spec_won_cards(pre.players@[w].tricks@).to_multiset();
        let cw = seq_won(pre.players@).to_multiset();
        let dw = spec_won_cards(post.players@[w].tricks@).to_multiset();
        assert(aw.add(bw) == cw.add(dw));
        assert(aw.add(bw).count(c) == cw.add(dw).count(c));
        assert(dw.count(c) == bw.count(c) + trick_cards.to_multiset().count(c));
    }
}


/// In a well-formed state no card sits in two players' won tricks.
pub proof fn lemma_wf_won_disjoint(s: State, i: int, j: int, c: Card)
    requires
        s.wf(),
        0 <= i < s.players@.len(),
        0 <= j < s.players@.len(),
        i != j,
        spec_won_cards(s.players@[i].tricks@).contains(c),
    ensures
        !spec_won_cards(s.players@[j].tricks@).contains(c),
{
    lemma_cards_ok_split(in_play_seq(s), seq_won(s.players@));
    lemma_seq_won_two(s.players@, i, j, c);
}

/// In a well-formed combined won pool, a card belongs to one player only.
pub proof fn lemma_seq_won_two(ps: Seq<Player>, i: int, j: int, c: Card)
    requires
        cards_ok(seq_won(ps)),
        0 <= i < ps.len(),
        0 <= j < ps.len(),
        i != j,
        spec_won_cards(ps[i].tricks@).contains(c),
    ensures
        !spec_won_cards(ps[j].tricks@).contains(c),
    decreases ps.len(),
{
    let a = seq_won(ps.drop_last());
    let b = spec_won_cards(ps.last().tricks@);
    lemma_cards_ok_split(a, b);
    if j == ps.len() - 1 {
        assert(ps.drop_last()[i] == ps[i]);
        lemma_seq_won_player(ps.drop_last(), i);
        assert(a.contains(c));
    } else if i == ps.len() - 1 {
        if spec_won_cards(ps[j].tricks@).contains(c) {
            assert(ps.drop_last()[j] == ps[j]);
            lemma_seq_won_player(ps.drop_last(), j);
            assert(a.contains(c));
            assert(b.contains(c));
        }
    } else {
        assert(ps.drop_last()[i] == ps[i]);
        assert(ps.drop_last()[j] == ps[j]);
        lemma_seq_won_two(ps.drop_last(), i, j, c);
    }
}

/// A card already won by someone is no longer in play.
pub proof fn lemma_won_not_in_play(s: State, i: int, c: Card)
    requires
        s.wf(),
        0 <= i < s.players@.len(),
        spec_won_cards(s.players@[i].tricks@).contains(c),
    ensures
        !in_play_seq(s).contains(c),
{
    lemma_cards_ok_split(in_play_seq(s), seq_won(s.players@));
    lemma_seq_won_player(s.players@, i);
    assert(seq_won(s.players@).contains(c));
}


/// Two trick lists agree card for card and field for field.
pub open spec fn tricks_views_eq(a: Seq<Trick>, b: Seq<Trick>) -> bool {
    &&& b.len() == a.len()
    &&& forall|j: int|
        0 <= j < a.len() ==> crate::trick::trick_views_eq(a[j], #[trigger] b[j])
}

/// Two task lists agree family for family and parameter for parameter.
pub open spec fn tasks_views_eq(a: Seq<crate::task::Task>, b: Seq<crate::task::Task>) -> bool {
    &&& b.len() == a.len()
    &&& forall|k: int|
        0 <= k < a.len() ==> crate::task::task_views_eq(a[k], #[trigger] b[k])
}

/// A player agrees with itself in every observable field.
pub proof fn lemma_player_views_eq_refl(p: Player)
    ensures
        crate::player::player_views_eq(p, p),
{
    assert forall|k: int|
        0 <= k < p.tasks@.len() implies crate::task::task_views_eq(
        p.tasks@[k],
        #[trigger] p.tasks@[k],
    ) by {
        crate::task::lemma_task_views_eq_refl(p.tasks@[k]);
    }
}

/// View agreement between players is transitive.
pub proof fn lemma_player_views_eq_trans(a: Player, b: Player, c: Player)
    requires
        crate::player::player_views_eq(a, b),
        crate::player::player_views_eq(b, c),
    ensures
        crate::player::player_views_eq(a, c),
{
    assert forall|k: int|
        0 <= k < a.tasks@.len() implies crate::task::task_views_eq(
        a.tasks@[k],
        #[trigger] c.tasks@[k],
    ) by {
        crate::task::lemma_task_views_eq_trans(a.tasks@[k], b.tasks@[k], c.tasks@[k]);
    }
}

/// View agreement between states is transitive.
pub proof fn lemma_state_views_eq_trans(a: State, b: State, c: State)
    requires
        state_views_eq(a, b),
        state_views_eq(b, c),
    ensures
        state_views_eq(a, c),
{
    assert forall|j: int|
        0 <= j < a.players@.len() implies crate::player::player_views_eq(
        a.players@[j],
        #[trigger] c.players@[j],
    ) by {
        lemma_player_views_eq_trans(a.players@[j], b.players@[j], c.players@[j]);
    }
}

/// The card that led the trick in progress, if any.
pub open spec fn spec_led(s: State) -> Option<Card> {
    if s.current_trick.cards@.len() > 0 {
        Some(s.current_trick.cards@[0])
    } else {
        None
    }
}

/// The card is a legal move for the player whose turn it is: it stands in
/// that player's legal-move set under the follow-suit rule.
pub open spec fn spec_legal_play(pre: State, card: Card) -> bool {
    crate::hand::spec_playable(
        pre.players@[pre.spec_current_player_idx()].hand.cards@,
        spec_led(pre),
    ).contains(card)
}

/// `play_step`, stated over observable fields only, so that it carries
/// across independent snapshots of the same position.
#[verifier::opaque]
pub open spec fn play_step_views(pre: State, card: Card, post: State) -> bool {
    let n = pre.players@.len() as int;
    let cp = pre.spec_current_player_idx();
    let trick_cards = pre.current_trick.cards@.push(card);
    &&& post.players@.len() == n
    &&& post.players@[cp].hand.cards@ == pre.players@[cp].hand.cards@.remove(
        crate::card::index_of_card(pre.players@[cp].hand.cards@, card),
    )
    &&& tasks_views_eq(pre.players@[cp].tasks@, post.players@[cp].tasks@)
    &&& if trick_cards.len() < n {
        &&& forall|j: int|
            0 <= j < n && j != cp ==> crate::player::player_views_eq(
                pre.players@[j],
                #[trigger] post.players@[j],
            )
        &&& tricks_views_eq(pre.players@[cp].tricks@, post.players@[cp].tricks@)
        &&& post.current_trick.idx == pre.current_trick.idx
        &&& post.current_trick.first_player == pre.current_trick.first_player
        &&& post.current_trick.cards@ == trick_cards
    } else {
        let w = crate::trick::spec_winner(trick_cards, pre.current_trick.first_player as int);
        &&& 0 <= w < n
        &&& crate::trick::rel_winner_ok(
            trick_cards,
            (w + n - pre.current_trick.first_player) % n,
        )
        &&& forall|j: int|
            0 <= j < n && j != cp && j != w ==> crate::player::player_views_eq(
                pre.players@[j],
                #[trigger] post.players@[j],
            )
        &&& (cp != w ==> tricks_views_eq(pre.players@[cp].tricks@, post.players@[cp].tricks@)
            && post.players@[w].hand.cards@ == pre.players@[w].hand.cards@)
        &&& tasks_views_eq(pre.players@[w].tasks@, post.players@[w].tasks@)
        &&& post.players@[w].tricks@.len() == pre.players@[w].tricks@.len() + 1
        &&& forall|j: int|
            0 <= j < pre.players@[w].tricks@.len() ==> crate::trick::trick_views_eq(
                pre.players@[w].tricks@[j],
                #[trigger] post.players@[w].tricks@[j],
            )
        &&& {
            let nt = post.players@[w].tricks@.last();
            &&& nt.idx == pre.current_trick.idx
            &&& nt.first_player == pre.current_trick.first_player
            &&& nt.cards@ == trick_cards
        }
        &&& post.current_trick.idx == pre.current_trick.idx + 1
        &&& post.current_trick.first_player == w
        &&& post.current_trick.cards@.len() == 0
    }
}

/// An exact play step is in particular an observable one.
pub proof fn lemma_play_step_to_views(pre: State, card: Card, post: State)
    requires
        play_step(pre, card, post),
    ensures
        play_step_views(pre, card, post),
{
    reveal(play_step_views);
    let n = pre.players@.len() as int;
    let cp = pre.spec_current_player_idx();
    let trick_cards = pre.current_trick.cards@.push(card);
    assert forall|j: int|
        0 <= j < n && post.players@[j] == pre.players@[j] implies crate::player::player_views_eq(
        pre.players@[j],
        #[trigger] post.players@[j],
    ) by {
        lemma_player_views_eq_refl(pre.players@[j]);
    }
    assert forall|k: int|
        0 <= k < pre.players@[cp].tasks@.len() implies crate::task::task_views_eq(
        pre.players@[cp].tasks@[k],
        #[trigger] post.players@[cp].tasks@[k],
    ) by {
        crate::task::lemma_task_views_eq_refl(pre.players@[cp].tasks@[k]);
    }
    if trick_cards.len() >= n {
        let w = crate::trick::spec_winner(trick_cards, pre.current_trick.first_player as int);
        assert forall|k: int|
            0 <= k < pre.players@[w].tasks@.len() implies crate::task::task_views_eq(
            pre.players@[w].tasks@[k],
            #[trigger] post.players@[w].tasks@[k],
        ) by {
            crate::task::lemma_task_views_eq_refl(pre.players@[w].tasks@[k]);
        }
        assert(post.players@[w].tricks@ == pre.players@[w].tricks@.push(
            post.players@[w].tricks@.last(),
        ));
        assert forall|j: int|
            0 <= j < pre.players@[w].tricks@.len() implies crate::trick::trick_views_eq(
            pre.players@[w].tricks@[j],
            #[trigger] post.players@[w].tricks@[j],
        ) by {
            assert(post.players@[w].tricks@[j] == pre.players@[w].tricks@[j]);
        }
    }
}

/// An observable play step made from one snapshot of a position holds from
/// any snapshot of the same position.
pub proof fn lemma_play_step_views_congruence(a: State, b: State, card: Card, post: State)
    requires
        state_views_eq(a, b),
        play_step_views(b, card, post),
    ensures
        play_step_views(a, card, post),
{
    reveal(play_step_views);
    let n = a.players@.len() as int;
    let cp = a.spec_current_player_idx();
    assert(b.spec_current_player_idx() == cp);
    assert(b.players@[cp].hand.cards@ == a.players@[cp].hand.cards@);
    let trick_cards = a.current_trick.cards@.push(card);
    assert(b.current_trick.cards@.push(card) == trick_cards);
    assert forall|k: int|
        0 <= k < a.players@[cp].tasks@.len() implies crate::task::task_views_eq(
        a.players@[cp].tasks@[k],
        #[trigger] post.players@[cp].tasks@[k],
    ) by {
        crate::task::lemma_task_views_eq_trans(
            a.players@[cp].tasks@[k],
            b.players@[cp].tasks@[k],
            post.players@[cp].tasks@[k],
        );
    }
    if trick_cards.len() < n {
        assert forall|j: int|
            0 <= j < n && j != cp implies crate::player::player_views_eq(
            a.players@[j],
            #[trigger] post.players@[j],
        ) by {
            lemma_player_views_eq_trans(a.players@[j], b.players@[j], post.players@[j]);
        }
    } else {
        let w = crate::trick::spec_winner(trick_cards, a.current_trick.first_player as int);
        assert forall|j: int|
            0 <= j < n && j != cp && j != w implies crate::player::player_views_eq(
            a.players@[j],
            #[trigger] post.players@[j],
        ) by {
            lemma_player_views_eq_trans(a.players@[j], b.players@[j], post.players@[j]);
        }
        assert forall|k: int|
            0 <= k < a.players@[w].tasks@.len() implies crate::task::task_views_eq(
            a.players@[w].tasks@[k],
            #[trigger] post.players@[w].tasks@[k],
        ) by {
            crate::task::lemma_task_views_eq_trans(
                a.players@[w].tasks@[k],
                b.players@[w].tasks@[k],
                post.players@[w].tasks@[k],
            );
        }
    }
}

/// `to` lies at the end of the given card sequence played from `from`:
/// each card is legal for the player whose turn it is, each step follows
/// the play rule, and the final position agrees with `to` in every
/// observable field.
#[verifier::opaque]
pub open spec fn spec_play_seq(from: State, cards: Seq<Card>, to: State) -> bool
    decreases cards.len(),
{
    if cards.len() == 0 {
        state_views_eq(from, to)
    } else {
        exists|mid: State|
            spec_legal_play(from, cards[0]) && #[trigger] play_step_views(from, cards[0], mid)
                && spec_play_seq(mid, cards.drop_first(), to)
    }
}

/// `to` is reachable from `from` by some sequence of legal plays.
#[verifier::opaque]
pub open spec fn spec_reachable(from: State, to: State) -> bool {
    exists|cards: Seq<Card>| spec_play_seq(from, cards, to)
}

/// Extending a play sequence by one legal play from any snapshot of its
/// final position.
pub proof fn lemma_play_seq_snoc(
    from: State,
    cs: Seq<Card>,
    a: State,
    b: State,
    card: Card,
    post: State,
)
    requires
        spec_play_seq(from, cs, a),
        state_views_eq(a, b),
        spec_legal_play(b, card),
        play_step(b, card, post),
    ensures
        spec_play_seq(from, cs.push(card), post),
    decreases cs.len(),
{
    reveal(spec_play_seq);
    if cs.len() == 0 {
        lemma_state_views_eq_trans(from, a, b);
        assert(spec_legal_play(from, card)) by {
            assert(from.spec_current_player_idx() == b.spec_current_player_idx());
            assert(from.players@[from.spec_current_player_idx()].hand.cards@ == b.players@[
                b.spec_current_player_idx()].hand.cards@);
            assert(spec_led(from) == spec_led(b));
        }
        lemma_play_step_to_views(b, card, post);
        lemma_play_step_views_congruence(from, b, card, post);
        lemma_state_views_eq_refl(post);
        assert(cs.push(card)[0] == card);
        assert(cs.push(card).drop_first() =~= Seq::<Card>::empty());
        assert(spec_play_seq(post, cs.push(card).drop_first(), post));
        assert(spec_play_seq(from, cs.push(card), post)) by {
            assert(spec_legal_play(from, cs.push(card)[0]) && play_step_views(
                from,
                cs.push(card)[0],
                post,
            ) && spec_play_seq(post, cs.push(card).drop_first(), post));
        }
    } else {
        let mid = choose|mid: State|
            spec_legal_play(from, cs[0]) && #[trigger] play_step_views(from, cs[0], mid)
                && spec_play_seq(mid, cs.drop_first(), a);
        lemma_play_seq_snoc(mid, cs.drop_first(), a, b, card, post);
        assert(cs.push(card)[0] == cs[0]);
        assert(cs.push(card).drop_first() =~= cs.drop_first().push(card));
        assert(spec_play_seq(from, cs.push(card), post)) by {
            assert(spec_legal_play(from, cs.push(card)[0]) && play_step_views(
                from,
                cs.push(card)[0],
                mid,
            ) && spec_play_seq(mid, cs.push(card).drop_first(), post));
        }
    }
}

} // verus!
