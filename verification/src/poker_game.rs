//! A table of poker: the players, their bets and the pot, and the rules that move a game on
//! from one event to the next. The loop that waits for events and talks to the players runs
//! elsewhere; each step here takes the state and what happened, and says what to announce.
use vstd::prelude::*;
use crate::cards::{CardHand, NormalCard, double_deck, full_deck, template_hand, template_hand_spec};
use crate::random::{shuffle_vec, is_rearrangement, is_index_permutation};
use crate::events::GameEvent;
use crate::hand::{PokerHand, hand_value, lemma_hand_value};
use crate::ranking::{compare_hands, lemma_hand_order_antisymmetric, lemma_hand_order_transitive};

verus! {

/// The kind of the last move of a player in a betting round.
#[derive(Clone, Copy, Debug, PartialEq, Eq, Structural)]
pub enum PokerMove {
    Call,
    Raise,
    Fold,
    Check,
}

/// Whether the table still waits for invitees to accept, or plays.
#[derive(Clone, Copy, Debug, PartialEq, Eq, Structural)]
pub enum GameState {
    Started,
    Waiting,
}

/// A player at the table.
#[derive(Clone, Copy, Debug)]
pub struct PokerPlayer {
    pub id: u64,
    pub accepted: bool,
    pub hand: CardHand,
    /// What the player has put into the pot so far; the ante at the start.
    pub bet: i64,
    pub last_move: Option<PokerMove>,
    /// What the player still has in front of them.
    pub funds: i64,
    pub allin: bool,
}

/// A game of poker.
pub struct PokerGame {
    /// The player who sent the invite.
    pub challenger: u64,
    /// The players in turn order.
    pub players: Vec<PokerPlayer>,
    /// The ante is taken from every player's balance at the showdown or when they fold.
    pub ante: i64,
    pub state: GameState,
    /// Whether the player in turn has been told that it is their turn.
    pub has_sent_message: bool,
    /// The position of the player in turn.
    pub turn: u8,
    /// What players who folded left in the pot.
    pub side_pot: i64,
    /// The bet to call; zero while the betting round has not opened.
    pub call: i64,
}

/// The players `new` are the players `base`, each holding five cards of a shuffled pair of
/// decks: the first player the first five, the next the five after, and so on.
pub open spec fn dealt_from(new: Seq<PokerPlayer>, base: Seq<PokerPlayer>) -> bool {
    &&& new.len() == base.len()
    &&& exists|deck: Seq<NormalCard>|
        is_rearrangement(deck, double_deck()) && forall|i: int|
            0 <= i < new.len() ==> #[trigger] new[i] == with_hand(base[i], new[i].hand) && new[i].hand.0@
                == deck.subrange(5 * i, 5 * i + 5)
}

/// What a table holds, as plain values.
pub struct PokerTable {
    pub challenger: u64,
    pub players: Seq<PokerPlayer>,
    pub ante: i64,
    pub state: GameState,
    pub has_sent_message: bool,
    pub turn: u8,
    pub side_pot: i64,
    pub call: i64,
}

impl View for PokerGame {
    type V = PokerTable;

    open spec fn view(&self) -> PokerTable {
        PokerTable {
            challenger: self.challenger,
            players: self.players@,
            ante: self.ante,
            state: self.state,
            has_sent_message: self.has_sent_message,
            turn: self.turn,
            side_pot: self.side_pot,
            call: self.call,
        }
    }
}

/// `x` fits in an `i64`.
pub open spec fn fits(x: int) -> bool {
    i64::MIN <= x <= i64::MAX
}

/// No two players share an id.
pub open spec fn ids_distinct(ps: Seq<PokerPlayer>) -> bool {
    forall|i: int, j: int| 0 <= i < ps.len() && 0 <= j < ps.len() && i != j ==> #[trigger] ps[i].id != #[trigger] ps[j].id
}

/// The sum of the bets of the players `ps`.
pub open spec fn bets_total(ps: Seq<PokerPlayer>) -> int
    decreases ps.len(),
{
    if ps.len() == 0 {
        0
    } else {
        bets_total(ps.drop_last()) + ps.last().bet
    }
}

/// A player as they sit down: the ante as their bet, no move, no cards dealt yet.
pub open spec fn seated_player(id: u64, accepted: bool, funds: i64, ante: i64) -> PokerPlayer {
    PokerPlayer {
        id,
        accepted,
        hand: template_hand_spec(),
        bet: ante,
        last_move: None,
        funds,
        allin: false,
    }
}

/// Position `i` of `ids` holds the first `x`.
pub open spec fn is_first_of(ids: Seq<u64>, x: u64, i: int) -> bool {
    ids[i] == x && forall|j: int| 0 <= j < i ==> #[trigger] ids[j] != x
}

/// Seat `i` of `ps` is the first where a player with this id sits.
pub open spec fn is_first_seat(ps: Seq<PokerPlayer>, id: u64, i: int) -> bool {
    ps[i].id == id && forall|j: int| 0 <= j < i ==> #[trigger] ps[j].id != id
}

/// The players of `ps` but those with this id, in order.
pub open spec fn without_id(ps: Seq<PokerPlayer>, id: u64) -> Seq<PokerPlayer> {
    ps.filter(|p: PokerPlayer| p.id != id)
}

/// Somebody at the table `ps` has another id than `id`.
pub open spec fn someone_else(ps: Seq<PokerPlayer>, id: u64) -> bool {
    exists|j: int| 0 <= j < ps.len() && #[trigger] ps[j].id != id
}

/// The players of a new game, in the order of the invitees: the challenger (their first entry,
/// should they be named twice) has accepted and brought their funds; the others have not
/// accepted yet and bring nothing.
pub open spec fn seated_players(challenger: u64, challenger_funds: i64, invitees: Seq<u64>, ante: i64) -> Seq<PokerPlayer> {
    Seq::new(
        invitees.len(),
        |i: int|
            if is_first_of(invitees, challenger, i) {
                seated_player(invitees[i], true, challenger_funds, ante)
            } else {
                seated_player(invitees[i], false, 0, ante)
            },
    )
}

/// `p` holding the cards `hand`.
pub open spec fn with_hand(p: PokerPlayer, hand: CardHand) -> PokerPlayer {
    PokerPlayer { hand, ..p }
}

/// `p` having accepted the invite with `funds`.
pub open spec fn with_acceptance(p: PokerPlayer, funds: i64) -> PokerPlayer {
    PokerPlayer { accepted: true, funds, ..p }
}

/// `p` having made the move `m`.
pub open spec fn with_last_move(p: PokerPlayer, m: Option<PokerMove>) -> PokerPlayer {
    PokerPlayer { last_move: m, ..p }
}

/// `p` with a new bet, funds and all-in flag.
pub open spec fn with_money(p: PokerPlayer, bet: i64, funds: i64, allin: bool) -> PokerPlayer {
    PokerPlayer { bet, funds, allin, ..p }
}

impl PokerGame {
    /// The table is well formed: between 1 and 255 players, and the turn points at one of them.
    pub open spec fn wf(self) -> bool {
        &&& 1 <= self.players@.len() <= 255
        &&& self.turn < self.players@.len()
    }

    /// The player in turn.
    pub open spec fn current(self) -> PokerPlayer {
        self.players@[self.turn as int]
    }

    /// All the money on the table: every bet and the side pot.
    pub open spec fn pot(self) -> int {
        bets_total(self.players@) + self.side_pot
    }

    /// The pot can be added up in `i64`: each partial sum of the bets fits, and so does the
    /// whole with the side pot.
    pub open spec fn pot_fits(self) -> bool {
        &&& forall|n: int| 0 <= n <= self.players@.len() ==> fits(#[trigger] bets_total(self.players@.take(n)))
        &&& fits(self.pot())
    }

    /// Every player's last move is a check, or they are all in.
    pub open spec fn all_checked(self) -> bool {
        forall|i: int| 0 <= i < self.players@.len() ==> (#[trigger] self.players@[i].last_move == Some(PokerMove::Check) || self.players@[i].allin)
    }

    /// Every player's last move is a call.
    pub open spec fn all_called(self) -> bool {
        forall|i: int| 0 <= i < self.players@.len() ==> #[trigger] self.players@[i].last_move == Some(PokerMove::Call)
    }

    /// Every player has accepted the invite.
    pub open spec fn all_accepted(self) -> bool {
        forall|i: int| 0 <= i < self.players@.len() ==> #[trigger] self.players@[i].accepted
    }

    /// A new game between the invitees, the challenger among them. The challenger has accepted
    /// and brings `challenger_funds`; everyone's bet starts at the ante. The order of the players
    /// is shuffled.
    pub fn new(challenger: u64, challenger_funds: i64, invitees: Vec<u64>, ante: i64) -> (g: PokerGame)
        requires
            1 <= invitees@.len() <= 255,
            invitees@.contains(challenger),
        ensures
            g.wf(),
            is_rearrangement(g.players@, seated_players(challenger, challenger_funds, invitees@, ante)),
            g.challenger == challenger,
            g.ante == ante,
            g.state == GameState::Waiting,
            !g.has_sent_message,
            g.turn == 0,
            g.side_pot == 0,
            g.call == 0,
    {
        let ghost seated = seated_players(challenger, challenger_funds, invitees@, ante);
        let mut players: Vec<PokerPlayer> = Vec::new();
        let mut seen = false;
        let mut i: usize = 0;
        while i < invitees.len()
            invariant
                i <= invitees@.len(),
                seated == seated_players(challenger, challenger_funds, invitees@, ante),
                players@ == seated.take(i as int),
                seen == exists|j: int| 0 <= j < i && invitees@[j] == challenger,
            decreases invitees@.len() - i,
        {
            let id = invitees[i];
            proof {
                if is_first_of(invitees@, challenger, i as int) {
                    assert(!seen);
                }
                if !seen && id == challenger {
                    assert(is_first_of(invitees@, challenger, i as int));
                }
            }
            let p = if id == challenger && !seen {
                PokerPlayer {
                    id,
                    accepted: true,
                    hand: template_hand(),
                    bet: ante,
                    last_move: None,
                    funds: challenger_funds,
                    allin: false,
                }
            } else {
                PokerPlayer { id, accepted: false, hand: template_hand(), bet: ante, last_move: None, funds: 0, allin: false }
            };
            if id == challenger {
                seen = true;
            }
            players.push(p);
            i = i + 1;
            assert(players@ =~= seated.take(i as int));
        }
        assert(players@ =~= seated);
        let ghost before = players@;
        shuffle_vec(&mut players);
        PokerGame {
            challenger,
            players,
            ante,
            state: GameState::Waiting,
            has_sent_message: false,
            turn: 0,
            side_pot: 0,
            call: 0,
        }
    }

    /// The player in turn.
    pub fn player_in_turn(&self) -> (p: &PokerPlayer)
        requires
            self.wf(),
        ensures
            *p == self.current(),
    {
        &self.players[self.turn as usize]
    }

    /// The player in turn goes all in: their funds join their bet.
    pub fn allin_current_player(&mut self)
        requires
            old(self).wf(),
            fits(old(self).current().bet + old(self).current().funds),
        ensures
            final(self).players@ == old(self).players@.update(
                old(self).turn as int,
                with_money(old(self).current(), (old(self).current().bet + old(self).current().funds) as i64, 0, true),
            ),
            final(self).turn == old(self).turn,
            final(self).challenger == old(self).challenger,
            final(self).ante == old(self).ante,
            final(self).state == old(self).state,
            final(self).has_sent_message == old(self).has_sent_message,
            final(self).side_pot == old(self).side_pot,
            final(self).call == old(self).call,
            final(self).wf(),
    {
        let t = self.turn as usize;
        let mut p = self.players[t];
        p.bet = p.bet + p.funds;
        p.funds = 0;
        p.allin = true;
        self.players.set(t, p);
    }

    /// The player in turn moves `amount` from their funds to their bet.
    pub fn bet_current_player(&mut self, amount: i64)
        requires
            old(self).wf(),
            fits(old(self).current().funds - amount),
            fits(old(self).current().bet + amount),
        ensures
            final(self).players@ == old(self).players@.update(
                old(self).turn as int,
                with_money(
                    old(self).current(),
                    (old(self).current().bet + amount) as i64,
                    (old(self).current().funds - amount) as i64,
                    old(self).current().allin,
                ),
            ),
            final(self).turn == old(self).turn,
            final(self).challenger == old(self).challenger,
            final(self).ante == old(self).ante,
            final(self).state == old(self).state,
            final(self).has_sent_message == old(self).has_sent_message,
            final(self).side_pot == old(self).side_pot,
            final(self).call == old(self).call,
            final(self).wf(),
    {
        let t = self.turn as usize;
        let mut p = self.players[t];
        p.funds = p.funds - amount;
        p.bet = p.bet + amount;
        self.players.set(t, p);
    }

    /// All the money on the table: the bets of the players and the side pot.
    pub fn pot_money(&self) -> (m: i64)
        requires
            self.pot_fits(),
        ensures
            m == self.pot(),
    {
        let mut sum: i64 = 0;
        let mut i: usize = 0;
        while i < self.players.len()
            invariant
                i <= self.players@.len(),
                self.pot_fits(),
                sum == bets_total(self.players@.take(i as int)),
            decreases self.players@.len() - i,
        {
            proof {
                assert(self.players@.take(i + 1).drop_last() =~= self.players@.take(i as int));
                assert(fits(bets_total(self.players@.take(i + 1))));
            }
            sum = sum + self.players[i].bet;
            i = i + 1;
        }
        assert(self.players@.take(self.players@.len() as int) =~= self.players@);
        sum + self.side_pot
    }

    /// The invitee `player` accepts, bringing `funds`: the first seat with that id records it.
    /// Nothing changes when no such player sits at the table.
    pub fn player_accepts_inv(&mut self, player: u64, funds: i64)
        requires
            old(self).wf(),
        ensures
            final(self).players@.len() == old(self).players@.len(),
            forall|i: int| 0 <= i < old(self).players@.len() ==> #[trigger] final(self).players@[i] == (if is_first_seat(old(self).players@, player, i) {
                with_acceptance(old(self).players@[i], funds)
            } else {
                old(self).players@[i]
            }),
            final(self).turn == old(self).turn,
            final(self).challenger == old(self).challenger,
            final(self).ante == old(self).ante,
            final(self).state == old(self).state,
            final(self).has_sent_message == old(self).has_sent_message,
            final(self).side_pot == old(self).side_pot,
            final(self).call == old(self).call,
            final(self).wf(),
    {
        let mut i: usize = 0;
        while i < self.players.len()
            invariant
                i <= self.players@.len(),
                old(self).wf(),
                self.players@ == old(self).players@,
                forall|j: int| 0 <= j < i ==> #[trigger] self.players@[j].id != player,
                self.turn == old(self).turn,
                self.challenger == old(self).challenger,
                self.ante == old(self).ante,
                self.state == old(self).state,
                self.has_sent_message == old(self).has_sent_message,
                self.side_pot == old(self).side_pot,
                self.call == old(self).call,
            decreases self.players@.len() - i,
        {
            if self.players[i].id == player {
                let mut p = self.players[i];
                p.accepted = true;
                p.funds = funds;
                self.players.set(i, p);
                return;
            }
            i = i + 1;
        }
        assert(self.players@ =~= old(self).players@);
    }

    /// The turn passes to the next player, after the last back to the first.
    pub fn advance_turn(&mut self)
        requires
            old(self).wf(),
        ensures
            final(self).turn == (old(self).turn + 1) % (old(self).players@.len() as int),
            final(self).players@ == old(self).players@,
            final(self).challenger == old(self).challenger,
            final(self).ante == old(self).ante,
            final(self).state == old(self).state,
            final(self).has_sent_message == old(self).has_sent_message,
            final(self).side_pot == old(self).side_pot,
            final(self).call == old(self).call,
            final(self).wf(),
    {
        let n = self.players.len() as u8;
        self.turn = (self.turn + 1) % n;
    }

    /// The player in turn leaves the hand, and every seat with their id with them: their bet goes
    /// to the side pot and the turn passes to
    /// whoever now sits at their position, or to the first player.
    pub fn fold_current_player(&mut self)
        requires
            old(self).wf(),
            someone_else(old(self).players@, old(self).current().id),
            fits(old(self).side_pot + old(self).current().bet),
        ensures
            final(self).players@ == without_id(old(self).players@, old(self).current().id),
            ids_distinct(old(self).players@) ==> final(self).players@ == old(self).players@.remove(old(self).turn as int),
            final(self).turn == (old(self).turn as int) % (final(self).players@.len() as int),
            !final(self).has_sent_message,
            final(self).side_pot == old(self).side_pot + old(self).current().bet,
            final(self).challenger == old(self).challenger,
            final(self).ante == old(self).ante,
            final(self).state == old(self).state,
            final(self).call == old(self).call,
            final(self).wf(),
    {
        broadcast use vstd::seq_lib::group_filter_ensures;
        let t = self.turn as usize;
        let kicked = self.players[t];
        let ghost ps = self.players@;
        let ghost pred = |p: PokerPlayer| p.id != kicked.id;
        let mut kept: Vec<PokerPlayer> = Vec::new();
        let mut k: usize = 0;
        assert(ps.take(0) =~= Seq::<PokerPlayer>::empty());
        while k < self.players.len()
            invariant
                k <= ps.len(),
                self.players@ == ps,
                pred == (|p: PokerPlayer| p.id != kicked.id),
                kept@ == ps.take(k as int).filter(pred),
            decreases ps.len() - k,
        {
            let p = self.players[k];
            proof {
                assert(ps.take(k + 1) =~= ps.take(k as int).push(p));
                ps.take(k as int).lemma_filter_push(p, pred);
            }
            if p.id != kicked.id {
                kept.push(p);
            }
            k = k + 1;
        }
        assert(ps.take(ps.len() as int) =~= ps);
        proof {
            let j = choose|j: int| 0 <= j < ps.len() && #[trigger] ps[j].id != kicked.id;
            assert(pred(ps[j]));
            assert(ps.filter(pred).contains(ps[j]));
        }
        proof {
            if ids_distinct(ps) {
                lemma_without_distinct(ps, t as int);
            }
        }
        self.players = kept;
        let n = self.players.len() as u8;
        self.turn = self.turn % n;
        self.has_sent_message = false;
        self.side_pot = self.side_pot + kicked.bet;
    }

    /// The player in turn makes the move `mov`; the turn passes on and the next player will be
    /// told that it is their turn.
    pub fn play_turn(&mut self, mov: PokerMove)
        requires
            old(self).wf(),
        ensures
            final(self).players@ == old(self).players@.update(
                old(self).turn as int,
                with_last_move(old(self).current(), Some(mov)),
            ),
            final(self).turn == (old(self).turn + 1) % (old(self).players@.len() as int),
            !final(self).has_sent_message,
            final(self).challenger == old(self).challenger,
            final(self).ante == old(self).ante,
            final(self).state == old(self).state,
            final(self).side_pot == old(self).side_pot,
            final(self).call == old(self).call,
            final(self).wf(),
    {
        let t = self.turn as usize;
        let mut p = self.players[t];
        p.last_move = Some(mov);
        self.players.set(t, p);
        self.advance_turn();
        self.has_sent_message = false;
    }

    /// Whether every player checked or is all in.
    pub fn everybody_checked(&self) -> (b: bool)
        ensures
            b == self.all_checked(),
    {
        let mut i: usize = 0;
        while i < self.players.len()
            invariant
                i <= self.players@.len(),
                forall|j: int| 0 <= j < i ==> (#[trigger] self.players@[j].last_move == Some(PokerMove::Check) || self.players@[j].allin),
            decreases self.players@.len() - i,
        {
            let p = self.players[i];
            if !(p.last_move == Some(PokerMove::Check) || p.allin) {
                return false;
            }
            i = i + 1;
        }
        true
    }

    /// Whether every player called.
    pub fn everybody_called(&self) -> (b: bool)
        ensures
            b == self.all_called(),
    {
        let mut i: usize = 0;
        while i < self.players.len()
            invariant
                i <= self.players@.len(),
                forall|j: int| 0 <= j < i ==> #[trigger] self.players@[j].last_move == Some(PokerMove::Call),
            decreases self.players@.len() - i,
        {
            if self.players[i].last_move != Some(PokerMove::Call) {
                return false;
            }
            i = i + 1;
        }
        true
    }

    /// Whether every invitee accepted.
    pub fn everybody_accepted(&self) -> (b: bool)
        ensures
            b == self.all_accepted(),
    {
        let mut i: usize = 0;
        while i < self.players.len()
            invariant
                i <= self.players@.len(),
                forall|j: int| 0 <= j < i ==> #[trigger] self.players@[j].accepted,
            decreases self.players@.len() - i,
        {
            if !self.players[i].accepted {
                return false;
            }
            i = i + 1;
        }
        true
    }

    /// Player `i` gets the cards `5 * i` to `5 * i + 4` of the deck.
    pub fn deal_from(&mut self, deck: &Vec<NormalCard>)
        requires
            old(self).wf(),
            deck@.len() >= 5 * old(self).players@.len(),
        ensures
            final(self).players@.len() == old(self).players@.len(),
            forall|i: int| 0 <= i < final(self).players@.len() ==> #[trigger] final(self).players@[i] == with_hand(old(self).players@[i], final(self).players@[i].hand) && final(self).players@[i].hand.0@ == deck@.subrange(5 * i, 5 * i + 5),
            final(self).turn == old(self).turn,
            final(self).challenger == old(self).challenger,
            final(self).ante == old(self).ante,
            final(self).state == old(self).state,
            final(self).has_sent_message == old(self).has_sent_message,
            final(self).side_pot == old(self).side_pot,
            final(self).call == old(self).call,
            final(self).wf(),
    {
        let mut i: usize = 0;
        while i < self.players.len()
            invariant
                i <= self.players@.len(),
                old(self).wf(),
                self.players@.len() == old(self).players@.len(),
                deck@.len() >= 5 * old(self).players@.len(),
                forall|j: int| 0 <= j < i ==> #[trigger] self.players@[j] == with_hand(old(self).players@[j], self.players@[j].hand) && self.players@[j].hand.0@ == deck@.subrange(5 * j, 5 * j + 5),
                forall|j: int| i <= j < self.players@.len() ==> #[trigger] self.players@[j] == old(self).players@[j],
                self.turn == old(self).turn,
                self.challenger == old(self).challenger,
                self.ante == old(self).ante,
                self.state == old(self).state,
                self.has_sent_message == old(self).has_sent_message,
                self.side_pot == old(self).side_pot,
                self.call == old(self).call,
            decreases self.players@.len() - i,
        {
            let k = 5 * i;
            let cards = [deck[k], deck[k + 1], deck[k + 2], deck[k + 3], deck[k + 4]];
            assert(cards@ =~= deck@.subrange(5 * i, 5 * i + 5));
            let mut p = self.players[i];
            p.hand = CardHand(cards);
            self.players.set(i, p);
            i = i + 1;
        }
    }

    /// Deals five cards to every player from a shuffled pair of decks (104 cards): the first
    /// player gets the first five cards, the next the five after, and so on.
    pub fn deal_random_cards(&mut self)
        requires
            old(self).wf(),
            old(self).players@.len() <= 20,
        ensures
            dealt_from(final(self).players@, old(self).players@),
            final(self)@ == (PokerTable { players: final(self).players@, ..old(self)@ }),
            final(self).wf(),
    {
        let mut deck = full_deck();
        shuffle_vec(&mut deck);
        self.deal_from(&deck);
        assert(is_rearrangement(deck@, double_deck()));
    }
}


// ---------------------------------------------------------------------------------------------
// The rules, as functions of the table
// ---------------------------------------------------------------------------------------------

/// What happens while the table waits for its invitees.
#[derive(Clone, Copy, Debug, PartialEq, Eq, Structural)]
pub enum WaitingStep {
    /// Everybody accepted: the cards are dealt and the game starts.
    Started,
    /// The invite ran out of time: the game ends.
    Expired,
    /// Still waiting: read what the invitees did.
    Pending,
}

/// What an event means to a table that waits for its invitees.
#[derive(Clone, Copy, Debug, PartialEq, Eq, Structural)]
pub enum InviteDecision {
    /// An invitee declined the challenger's invite: the table breaks up and the game ends.
    Disband { invitee: u64 },
    /// An invitee accepted the challenger's invite with `funds`: their balance decides.
    CheckBalance { invitee: u64, funds: i64 },
    /// The event is not for this table.
    Ignore,
}

/// What the table does next in a running round.
#[derive(Clone, Copy, Debug, PartialEq, Eq, Structural)]
pub enum TurnStep {
    /// Everybody called: show the hands.
    Showdown,
    /// The player in turn went all in before; the turn passed on.
    AllInSkip { player: u64 },
    /// Tell the player in turn where they stand, then wait for their move.
    Announce { player: u64, funds: i64, bet: i64, call: i64, pot: i64 },
    /// Wait for the move of the player in turn.
    AwaitMove,
}

/// What a round of the running table did.
#[derive(Clone, Copy, Debug, PartialEq, Eq, Structural)]
pub enum RoundStep {
    /// One player is left: they win `prize` and the game ends.
    LastStanding { winner: u64, prize: i64 },
    /// The game goes on: `reshuffled` when everybody checked, so that new cards were dealt;
    /// then the turn step.
    Turn { reshuffled: bool, step: TurnStep },
}

/// How the showdown ends.
#[derive(Clone, Debug, PartialEq, Eq)]
pub struct ShowdownResult {
    /// The player with the best hand.
    pub winner: u64,
    /// What the table announces as the win: the pot without the winner's own bet.
    pub announced: i64,
    /// What each player pays, in the order they sit: their bet, as a negative amount.
    pub debits: Vec<(u64, i64)>,
    /// What is paid to the winner: every bet, added to the side pot.
    pub prize: i64,
}

/// What a move of the player in turn did.
#[derive(Clone, Copy, Debug, PartialEq, Eq, Structural)]
pub enum MoveOutcome {
    /// The event was not a move of the player in turn.
    Ignored,
    Checked,
    /// A check after the betting round opened.
    CannotCheck,
    Folded { player: u64, lost: i64 },
    /// A raise by nothing.
    ZeroRaise,
    /// A raise above what the player has.
    RaiseTooHigh { funds: i64 },
    RaisedAllIn { player: u64, amount: i64 },
    Raised { player: u64, amount: i64 },
    /// A call before the betting round opened.
    CannotCall,
    CalledAllIn { player: u64, total: i64 },
    Called { player: u64, shown: i64 },
}

impl PokerTable {
    /// The player in turn.
    pub open spec fn cur(self) -> PokerPlayer {
        self.players[self.turn as int]
    }

    /// Every player's last move is a check, or they are all in.
    pub open spec fn all_checked(self) -> bool {
        forall|i: int| 0 <= i < self.players.len() ==> (#[trigger] self.players[i].last_move == Some(PokerMove::Check) || self.players[i].allin)
    }

    /// Every player's last move is a call.
    pub open spec fn all_called(self) -> bool {
        forall|i: int| 0 <= i < self.players.len() ==> #[trigger] self.players[i].last_move == Some(PokerMove::Call)
    }

    /// The players with their last moves forgotten.
    pub open spec fn moves_forgotten(self) -> Seq<PokerPlayer> {
        Seq::new(self.players.len(), |i: int| with_last_move(self.players[i], None))
    }

    /// The table after a free round dealt the cards that `players` hold: the player in turn
    /// is told again.
    pub open spec fn reshuffled(self, players: Seq<PokerPlayer>) -> PokerTable {
        PokerTable { players, has_sent_message: false, ..self }
    }

    /// What the turn step does next at this table.
    pub open spec fn turn_step_result(self) -> TurnStep {
        if self.all_called() {
            TurnStep::Showdown
        } else if self.cur().allin {
            TurnStep::AllInSkip { player: self.cur().id }
        } else if !self.has_sent_message {
            TurnStep::Announce {
                player: self.cur().id,
                funds: self.cur().funds,
                bet: self.cur().bet,
                call: self.call,
                pot: self.table_pot() as i64,
            }
        } else {
            TurnStep::AwaitMove
        }
    }

    /// The table after the turn step.
    pub open spec fn after_turn_step(self) -> PokerTable {
        if self.all_called() {
            self
        } else if self.cur().allin {
            PokerTable { turn: self.next_turn(), ..self }
        } else if !self.has_sent_message {
            PokerTable { has_sent_message: true, ..self }
        } else {
            self
        }
    }

    /// The table a round reaches before its turn step: after a free round when everybody
    /// checked, holding the cards of `dealt`; otherwise as it is.
    pub open spec fn round_middle(self, dealt: Seq<PokerPlayer>) -> PokerTable {
        if self.all_checked() {
            self.reshuffled(dealt)
        } else {
            self
        }
    }

    /// The table after a round that goes on, the cards of a free round being those of `dealt`.
    pub open spec fn after_round(self, dealt: Seq<PokerPlayer>) -> PokerTable {
        self.round_middle(dealt).after_turn_step()
    }

    /// A round that goes on ends in an announcement that adds up the pot: after a free round
    /// when the player in turn is not all in; otherwise when the turn step announces.
    pub open spec fn round_announces(self) -> bool {
        if self.all_checked() {
            !self.cur().allin
        } else {
            !self.all_called() && !self.cur().allin && !self.has_sent_message
        }
    }

    /// The position after the player in turn, wrapping around.
    pub open spec fn next_turn(self) -> u8 {
        ((self.turn + 1) % (self.players.len() as int)) as u8
    }

    /// The player in turn replaced by `p`.
    pub open spec fn with_cur(self, p: PokerPlayer) -> PokerTable {
        PokerTable { players: self.players.update(self.turn as int, p), ..self }
    }

    /// The player in turn made the move `m`: the turn passes on, unannounced.
    pub open spec fn played(self, m: PokerMove) -> PokerTable {
        PokerTable {
            players: self.players.update(self.turn as int, with_last_move(self.cur(), Some(m))),
            turn: self.next_turn(),
            has_sent_message: false,
            ..self
        }
    }

    /// The player in turn moves `amount` from funds to bet.
    pub open spec fn bet_cur(self, amount: int) -> PokerTable {
        self.with_cur(with_money(self.cur(), (self.cur().bet + amount) as i64, (self.cur().funds - amount) as i64, self.cur().allin))
    }

    /// The player in turn puts all their funds in.
    pub open spec fn allin_cur(self) -> PokerTable {
        self.with_cur(with_money(self.cur(), (self.cur().bet + self.cur().funds) as i64, 0, true))
    }

    /// The player in turn leaves, with every seat of their id; their bet goes to the side pot.
    pub open spec fn folded(self) -> PokerTable {
        let players = without_id(self.players, self.cur().id);
        PokerTable {
            players,
            turn: ((self.turn as int) % (players.len() as int)) as u8,
            has_sent_message: false,
            side_pot: (self.side_pot + self.cur().bet) as i64,
            ..self
        }
    }

    /// All the money on the table.
    pub open spec fn table_pot(self) -> int {
        bets_total(self.players) + self.side_pot
    }
}

/// What a move event does to a running table.
pub open spec fn move_outcome(t: PokerTable, ev: GameEvent) -> MoveOutcome {
    let cur = t.cur();
    match ev {
        GameEvent::PokerCheck { checker } => if checker != cur.id {
            MoveOutcome::Ignored
        } else if t.call == 0 {
            MoveOutcome::Checked
        } else {
            MoveOutcome::CannotCheck
        },
        GameEvent::PokerFold { folder } => if folder != cur.id {
            MoveOutcome::Ignored
        } else {
            MoveOutcome::Folded { player: cur.id, lost: cur.bet }
        },
        GameEvent::PokerRaise { raiser, amount } => if raiser != cur.id {
            MoveOutcome::Ignored
        } else if amount == 0 {
            MoveOutcome::ZeroRaise
        } else if cur.funds < t.call + amount {
            MoveOutcome::RaiseTooHigh { funds: cur.funds }
        } else if cur.funds == t.call + amount {
            MoveOutcome::RaisedAllIn { player: cur.id, amount }
        } else {
            MoveOutcome::Raised { player: cur.id, amount }
        },
        GameEvent::PokerCall { caller } => if caller != cur.id {
            MoveOutcome::Ignored
        } else if t.call == 0 {
            MoveOutcome::CannotCall
        } else if cur.funds <= t.call {
            MoveOutcome::CalledAllIn { player: cur.id, total: (cur.bet + cur.funds) as i64 }
        } else {
            MoveOutcome::Called { player: cur.id, shown: (t.call + t.ante) as i64 }
        },
        _ => MoveOutcome::Ignored,
    }
}

/// The table after a move event.
pub open spec fn after_move(t: PokerTable, ev: GameEvent) -> PokerTable {
    match move_outcome(t, ev) {
        MoveOutcome::Checked => t.played(PokerMove::Check),
        MoveOutcome::Folded { .. } => t.folded(),
        MoveOutcome::RaisedAllIn { amount, .. } => PokerTable { call: (t.call + amount) as i64, ..t }.allin_cur().played(
            PokerMove::Raise,
        ),
        MoveOutcome::Raised { amount, .. } => {
            let c = t.call + amount;
            PokerTable { call: c as i64, ..t }.bet_cur(c).played(PokerMove::Raise)
        },
        MoveOutcome::CalledAllIn { .. } => t.allin_cur().played(PokerMove::Call),
        MoveOutcome::Called { .. } => t.bet_cur(t.call - t.cur().bet).played(PokerMove::Call),
        _ => t,
    }
}

/// The arithmetic of the move stays within `i64`.
pub open spec fn move_in_range(t: PokerTable, ev: GameEvent) -> bool {
    let cur = t.cur();
    match ev {
        GameEvent::PokerFold { folder } => folder == cur.id ==> fits(t.side_pot + cur.bet) && someone_else(t.players, cur.id),
        GameEvent::PokerRaise { raiser, amount } => (raiser == cur.id && amount != 0) ==> {
            let c = t.call + amount;
            &&& fits(c)
            &&& cur.funds == c ==> fits(cur.bet + cur.funds)
            &&& cur.funds > c ==> fits(cur.funds - c) && fits(cur.bet + c)
        },
        GameEvent::PokerCall { caller } => (caller == cur.id && t.call != 0) ==> {
            &&& cur.funds <= t.call ==> fits(cur.bet + cur.funds)
            &&& cur.funds > t.call ==> fits(t.call + t.ante) && fits(t.call - cur.bet) && fits(
                cur.funds - (t.call - cur.bet),
            )
        },
        _ => true,
    }
}

/// What an event means to a table that waits for its invitees.
pub open spec fn invite_decision_of(t: PokerTable, ev: GameEvent) -> InviteDecision {
    let seated = |id: u64| exists|i: int| 0 <= i < t.players.len() && #[trigger] t.players[i].id == id;
    match ev {
        GameEvent::PokerCancel { invitee, inviter } => if inviter == t.challenger && seated(invitee) {
            InviteDecision::Disband { invitee }
        } else {
            InviteDecision::Ignore
        },
        GameEvent::PokerAccept { invitee, inviter, funds } => if inviter == t.challenger && seated(invitee) {
            InviteDecision::CheckBalance { invitee, funds }
        } else {
            InviteDecision::Ignore
        },
        _ => InviteDecision::Ignore,
    }
}

/// Player `w` has the best hand, and every player after `w` a strictly worse one: `w` is the
/// last of the players with the best hand.
pub open spec fn is_last_best(ps: Seq<PokerPlayer>, w: int) -> bool {
    &&& 0 <= w < ps.len()
    &&& forall|j: int| 0 <= j < ps.len() ==> compare_hands(hand_value(#[trigger] ps[j].hand), hand_value(ps[w].hand)) <= 0
    &&& forall|j: int| w < j < ps.len() ==> compare_hands(hand_value(#[trigger] ps[j].hand), hand_value(ps[w].hand)) < 0
}

/// The position of the winner of a showdown: the last player with the best hand.
pub open spec fn showdown_winner(ps: Seq<PokerPlayer>) -> int {
    choose|w: int| is_last_best(ps, w)
}

/// Only one player can be the last with the best hand.
proof fn lemma_last_best_unique(ps: Seq<PokerPlayer>, a: int, b: int)
    requires
        is_last_best(ps, a),
        is_last_best(ps, b),
    ensures
        a == b,
{
    if a < b {
        assert(compare_hands(hand_value(ps[b].hand), hand_value(ps[a].hand)) < 0);
        assert(compare_hands(hand_value(ps[a].hand), hand_value(ps[b].hand)) <= 0);
        lemma_hand_order_antisymmetric(hand_value(ps[a].hand), hand_value(ps[b].hand));
    } else if b < a {
        assert(compare_hands(hand_value(ps[a].hand), hand_value(ps[b].hand)) < 0);
        assert(compare_hands(hand_value(ps[b].hand), hand_value(ps[a].hand)) <= 0);
        lemma_hand_order_antisymmetric(hand_value(ps[a].hand), hand_value(ps[b].hand));
    }
}

/// What each of the players `ps` pays at the showdown: their bet, as a negative amount.
pub open spec fn showdown_debits(ps: Seq<PokerPlayer>) -> Seq<(u64, i64)> {
    Seq::new(ps.len(), |i: int| (ps[i].id, (-ps[i].bet) as i64))
}

/// The sum of the amounts of `ds`.
pub open spec fn payments_total(ds: Seq<(u64, i64)>) -> int
    decreases ds.len(),
{
    if ds.len() == 0 {
        0
    } else {
        payments_total(ds.drop_last()) + ds.last().1
    }
}

proof fn lemma_debits_total(ps: Seq<PokerPlayer>)
    requires
        forall|i: int| 0 <= i < ps.len() ==> #[trigger] ps[i].bet > i64::MIN,
    ensures
        payments_total(showdown_debits(ps)) == -bets_total(ps),
    decreases ps.len(),
{
    if ps.len() > 0 {
        assert(showdown_debits(ps).drop_last() =~= showdown_debits(ps.drop_last()));
        lemma_debits_total(ps.drop_last());
        assert(ps[ps.len() - 1].bet > i64::MIN);
    }
}

/// The arithmetic of the showdown stays within `i64`: adding up the pot, taking the winner's
/// bet from it, and adding every bet to the side pot.
pub open spec fn showdown_in_range(t: PokerTable) -> bool {
    &&& forall|n: int| 0 <= n <= t.players.len() ==> fits(#[trigger] bets_total(t.players.take(n)))
    &&& fits(t.table_pot())
    &&& fits(t.table_pot() - t.players[showdown_winner(t.players)].bet)
    &&& forall|n: int| 0 <= n <= t.players.len() ==> fits(t.side_pot + #[trigger] bets_total(t.players.take(n)))
    &&& forall|i: int| 0 <= i < t.players.len() ==> #[trigger] t.players[i].bet > i64::MIN
}

fn fits_i128(x: i128) -> (b: bool)
    ensures
        b == fits(x as int),
{
    -9223372036854775808i128 <= x && x <= 9223372036854775807i128
}

impl PokerGame {
    /// While the table waits: when everybody accepted, deal the cards and start; otherwise, when
    /// the invite ran out of time, end; otherwise keep waiting.
    pub fn waiting_step(&mut self, expired: bool) -> (step: WaitingStep)
        requires
            old(self).wf(),
            old(self).all_accepted() ==> old(self).players@.len() <= 20,
        ensures
            final(self).wf(),
            old(self).all_accepted() ==> step == WaitingStep::Started && dealt_from(final(self).players@, old(self).players@)
                && final(self)@ == (PokerTable { players: final(self).players@, state: GameState::Started, ..old(self)@ }),
            !old(self).all_accepted() && expired ==> step == WaitingStep::Expired && final(self)@ == old(self)@,
            !old(self).all_accepted() && !expired ==> step == WaitingStep::Pending && final(self)@ == old(self)@,
    {
        if self.everybody_accepted() {
            self.deal_random_cards();
            self.state = GameState::Started;
            WaitingStep::Started
        } else if expired {
            WaitingStep::Expired
        } else {
            WaitingStep::Pending
        }
    }

    /// What an event means while the table waits for its invitees: a cancel by a seated
    /// invitee of this challenger's invite disbands; an accept by one asks for their balance;
    /// anything else is ignored.
    pub fn invite_decision(&self, ev: GameEvent) -> (d: InviteDecision)
        ensures
            d == invite_decision_of(self@, ev),
    {
        match ev {
            GameEvent::PokerCancel { invitee, inviter } => {
                if inviter == self.challenger && self.is_seated(invitee) {
                    InviteDecision::Disband { invitee }
                } else {
                    InviteDecision::Ignore
                }
            },
            GameEvent::PokerAccept { invitee, inviter, funds } => {
                if inviter == self.challenger && self.is_seated(invitee) {
                    InviteDecision::CheckBalance { invitee, funds }
                } else {
                    InviteDecision::Ignore
                }
            },
            _ => InviteDecision::Ignore,
        }
    }

    /// Whether a player with this id sits at the table.
    pub fn is_seated(&self, id: u64) -> (b: bool)
        ensures
            b == exists|i: int| 0 <= i < self.players@.len() && #[trigger] self.players@[i].id == id,
    {
        let mut i: usize = 0;
        while i < self.players.len()
            invariant
                i <= self.players@.len(),
                forall|j: int| 0 <= j < i ==> #[trigger] self.players@[j].id != id,
            decreases self.players@.len() - i,
        {
            if self.players[i].id == id {
                return true;
            }
            i = i + 1;
        }
        false
    }

    /// An invitee accepted with `funds`, and their balance is `balance`: when the balance covers
    /// the ante and the funds, they join with those funds; otherwise nothing changes.
    pub fn accept_invite(&mut self, invitee: u64, funds: i64, balance: i64) -> (joined: bool)
        requires
            old(self).wf(),
            fits(old(self).ante + funds),
        ensures
            joined == (balance >= old(self).ante + funds),
            final(self).wf(),
            !joined ==> final(self)@ == old(self)@,
            joined ==> final(self).players@.len() == old(self).players@.len() && (forall|i: int|
                0 <= i < old(self).players@.len() ==> #[trigger] final(self).players@[i] == (if is_first_seat(
                    old(self).players@,
                    invitee,
                    i,
                ) {
                    with_acceptance(old(self).players@[i], funds)
                } else {
                    old(self).players@[i]
                })) && final(self)@ == (PokerTable { players: final(self).players@, ..old(self)@ }),
    {
        if balance < self.ante + funds {
            return false;
        }
        self.player_accepts_inv(invitee, funds);
        true
    }

    /// The game ends when one player is left: they win the pot. Their own bet stays theirs, so
    /// what is paid to them is the pot without it: the bets the others lost, which is the side
    /// pot.
    pub fn last_player_standing(&self) -> (r: Option<(u64, i64)>)
        requires
            self.wf(),
        ensures
            r == if self.players@.len() == 1 {
                Some((self.players@[0].id, (self.pot() - self.players@[0].bet) as i64))
            } else {
                None
            },
            r matches Some((_, prize)) ==> prize == self.side_pot,
    {
        if self.players.len() == 1 {
            proof {
                let ps = self.players@;
                assert(ps.drop_last() =~= Seq::<PokerPlayer>::empty());
                assert(bets_total(ps.drop_last()) == 0);
                assert(ps.last() == ps[0]);
                assert(bets_total(ps) == ps[0].bet);
            }
            Some((self.players[0].id, self.side_pot))
        } else {
            None
        }
    }

    /// When every player checked or is all in, a free round: new cards for everybody, every
    /// last move forgotten, and the player in turn is told again. Returns whether it happened.
    pub fn reshuffle_if_all_checked(&mut self) -> (r: bool)
        requires
            old(self).wf(),
            old(self).all_checked() ==> old(self).players@.len() <= 20,
        ensures
            r == old(self).all_checked(),
            final(self).wf(),
            !r ==> final(self)@ == old(self)@,
            r ==> dealt_from(
                final(self).players@,
                Seq::new(old(self).players@.len(), |i: int| with_last_move(old(self).players@[i], None)),
            ) && final(self)@ == (PokerTable {
                players: final(self).players@,
                has_sent_message: false,
                ..old(self)@
            }),
    {
        if !self.everybody_checked() {
            return false;
        }
        let ghost base = Seq::new(old(self).players@.len(), |i: int| with_last_move(old(self).players@[i], None));
        self.deal_random_cards();
        let ghost dealt = self.players@;
        let mut i: usize = 0;
        while i < self.players.len()
            invariant
                i <= self.players@.len(),
                self.players@.len() == dealt.len(),
                self.wf(),
                forall|j: int| 0 <= j < i ==> #[trigger] self.players@[j] == with_last_move(dealt[j], None),
                forall|j: int| i <= j < self.players@.len() ==> #[trigger] self.players@[j] == dealt[j],
                self@ == (PokerTable { players: self.players@, ..old(self)@ }),
            decreases self.players@.len() - i,
        {
            let mut p = self.players[i];
            p.last_move = None;
            self.players.set(i, p);
            i = i + 1;
        }
        self.has_sent_message = false;
        proof {
            let deck = choose|deck: Seq<NormalCard>|
                is_rearrangement(deck, double_deck()) && forall|k: int|
                    0 <= k < dealt.len() ==> #[trigger] dealt[k] == with_hand(old(self).players@[k], dealt[k].hand)
                        && dealt[k].hand.0@ == deck.subrange(5 * k, 5 * k + 5);
            assert forall|k: int| 0 <= k < self.players@.len() implies #[trigger] self.players@[k] == with_hand(base[k], self.players@[k].hand)
                && self.players@[k].hand.0@ == deck.subrange(5 * k, 5 * k + 5) by {
                assert(dealt[k] == with_hand(old(self).players@[k], dealt[k].hand));
            }
        }
        true
    }
}


impl PokerGame {
    /// What the running round does next: a showdown when everybody called; otherwise a player
    /// in turn who is all in is skipped; otherwise the player in turn is told where they stand,
    /// once; then the table waits for their move.
    pub fn turn_step(&mut self) -> (step: TurnStep)
        requires
            old(self).wf(),
            (!old(self).all_called() && !old(self).current().allin && !old(self).has_sent_message) ==> old(self).pot_fits(),
        ensures
            step == old(self)@.turn_step_result(),
            final(self)@ == old(self)@.after_turn_step(),
            final(self).wf(),
            old(self).all_called() ==> step == TurnStep::Showdown && final(self)@ == old(self)@,
            !old(self).all_called() && old(self).current().allin ==> step == (TurnStep::AllInSkip {
                player: old(self).current().id,
            }) && final(self)@ == (PokerTable { turn: old(self)@.next_turn(), ..old(self)@ }),
            !old(self).all_called() && !old(self).current().allin && !old(self).has_sent_message ==> step == (TurnStep::Announce {
                player: old(self).current().id,
                funds: old(self).current().funds,
                bet: old(self).current().bet,
                call: old(self).call,
                pot: old(self).pot() as i64,
            }) && final(self)@ == (PokerTable { has_sent_message: true, ..old(self)@ }),
            !old(self).all_called() && !old(self).current().allin && old(self).has_sent_message ==> step
                == TurnStep::AwaitMove && final(self)@ == old(self)@,
    {
        if self.everybody_called() {
            return TurnStep::Showdown;
        }
        let p = *self.player_in_turn();
        if p.allin {
            self.advance_turn();
            return TurnStep::AllInSkip { player: p.id };
        }
        if !self.has_sent_message {
            let pot = self.pot_money();
            self.has_sent_message = true;
            return TurnStep::Announce { player: p.id, funds: p.funds, bet: p.bet, call: self.call, pot };
        }
        TurnStep::AwaitMove
    }

    /// The position of the last player with the best hand.
    fn best_index(&self) -> (w: usize)
        requires
            self.wf(),
        ensures
            is_last_best(self.players@, w as int),
    {
        let ghost ps = self.players@;
        let mut best: usize = 0;
        let mut best_hand = PokerHand::from(self.players[0].hand);
        proof {
            lemma_hand_value(ps[0].hand, best_hand);
            crate::ranking::lemma_hand_order_equal(best_hand, best_hand);
        }
        let mut i: usize = 1;
        while i < self.players.len()
            invariant
                ps == self.players@,
                1 <= i <= ps.len(),
                best < i,
                best_hand == hand_value(ps[best as int].hand),
                forall|j: int| 0 <= j < i ==> compare_hands(hand_value(#[trigger] ps[j].hand), best_hand) <= 0,
                forall|j: int| best < j < i ==> compare_hands(hand_value(#[trigger] ps[j].hand), best_hand) < 0,
            decreases ps.len() - i,
        {
            let h = PokerHand::from(self.players[i].hand);
            proof {
                lemma_hand_value(ps[i as int].hand, h);
                lemma_hand_order_antisymmetric(h, best_hand);
            }
            if crate::ranking::is_worse(&h, &best_hand) {
            } else {
                proof {
                    crate::ranking::lemma_hand_order_equal(h, h);
                    assert forall|j: int| 0 <= j < i + 1 implies compare_hands(hand_value(#[trigger] ps[j].hand), h) <= 0 by {
                        if j < i {
                            lemma_hand_order_transitive(hand_value(ps[j].hand), best_hand, h);
                        }
                    }
                }
                best = i;
                best_hand = h;
            }
            i = i + 1;
        }
        best
    }

    /// Whether the showdown's arithmetic stays within `i64`.
    pub fn showdown_fits(&self) -> (b: bool)
        requires
            self.wf(),
        ensures
            b == showdown_in_range(self@),
    {
        let w = self.best_index();
        proof {
            lemma_last_best_unique(self.players@, w as int, showdown_winner(self.players@));
        }
        let ghost ps = self.players@;
        let mut sum: i128 = 0;
        let mut ok_bets = true;
        let mut ok_side = fits_i128(self.side_pot as i128);
        let mut ok_neg = true;
        assert(ps.take(0) =~= Seq::<PokerPlayer>::empty());
        let mut i: usize = 0;
        while i < self.players.len()
            invariant
                ps == self.players@,
                i <= ps.len() <= 255,
                sum == bets_total(ps.take(i as int)),
                -9223372036854775808 * i <= sum <= 9223372036854775807 * i,
                ok_bets == forall|n: int| 0 <= n <= i ==> fits(#[trigger] bets_total(ps.take(n))),
                ok_side == forall|n: int| 0 <= n <= i ==> fits(self.side_pot + #[trigger] bets_total(ps.take(n))),
                ok_neg == forall|j: int| 0 <= j < i ==> #[trigger] ps[j].bet > i64::MIN,
            decreases ps.len() - i,
        {
            proof {
                assert(ps.take(i + 1).drop_last() =~= ps.take(i as int));
            }
            ok_neg = ok_neg && self.players[i].bet > i64::MIN;
            sum = sum + self.players[i].bet as i128;
            i = i + 1;
            let f1 = fits_i128(sum);
            let f2 = fits_i128(sum + self.side_pot as i128);
            proof {
                let pi = i as int;
                assert(f1 == fits(bets_total(ps.take(pi))));
                assert(f2 == fits(self.side_pot + bets_total(ps.take(pi))));
                if ok_bets && f1 {
                    assert forall|n: int| 0 <= n <= pi implies fits(#[trigger] bets_total(ps.take(n))) by {
                        if n < pi {
                        }
                    }
                }
                if ok_side && f2 {
                    assert forall|n: int| 0 <= n <= pi implies fits(self.side_pot + #[trigger] bets_total(ps.take(n))) by {
                        if n < pi {
                        }
                    }
                }
            }
            ok_bets = ok_bets && f1;
            ok_side = ok_side && f2;
        }
        assert(ps.take(ps.len() as int) =~= ps);
        let pot = sum + self.side_pot as i128;
        let ok_pot = fits_i128(pot);
        let ok_ann = fits_i128(pot - self.players[w].bet as i128);
        ok_bets && ok_pot && ok_ann && ok_side && ok_neg
    }

    /// The showdown: the last player with the best hand wins. Every bet goes to the side pot,
    /// which is the prize; the table announces the pot without the winner's own bet.
    pub fn showdown(&mut self) -> (r: ShowdownResult)
        requires
            old(self).wf(),
            showdown_in_range(old(self)@),
        ensures
            r.winner == old(self).players@[showdown_winner(old(self).players@)].id,
            r.announced == (old(self).pot() - old(self).players@[showdown_winner(old(self).players@)].bet) as i64,
            r.prize == old(self).side_pot + bets_total(old(self).players@),
            r.debits@ == showdown_debits(old(self).players@),
            payments_total(r.debits@) + r.prize == old(self).side_pot,
            is_last_best(old(self).players@, showdown_winner(old(self).players@)),
            final(self)@ == (PokerTable { side_pot: r.prize, ..old(self)@ }),
            final(self).wf(),
    {
        let w = self.best_index();
        proof {
            lemma_last_best_unique(self.players@, w as int, showdown_winner(self.players@));
        }
        let pot = self.pot_money();
        let winner = self.players[w];
        let announced = pot - winner.bet;
        let ghost ps = self.players@;
        let ghost side0 = self.side_pot;
        assert(ps.take(0) =~= Seq::<PokerPlayer>::empty());
        let mut debits: Vec<(u64, i64)> = Vec::new();
        let mut i: usize = 0;
        while i < self.players.len()
            invariant
                ps == self.players@,
                i <= ps.len(),
                forall|j: int| 0 <= j < ps.len() ==> #[trigger] ps[j].bet > i64::MIN,
                debits@ == showdown_debits(ps.take(i as int)),
                self.side_pot == side0 + bets_total(ps.take(i as int)),
                forall|n: int| 0 <= n <= ps.len() ==> fits(side0 + #[trigger] bets_total(ps.take(n))),
                self@ == (PokerTable { side_pot: self.side_pot, ..old(self)@ }),
            decreases ps.len() - i,
        {
            proof {
                assert(ps.take(i + 1).drop_last() =~= ps.take(i as int));
                assert(fits(side0 + bets_total(ps.take(i + 1))));
            }
            let p = self.players[i];
            debits.push((p.id, -p.bet));
            self.side_pot = self.side_pot + p.bet;
            proof {
                assert(debits@ =~= showdown_debits(ps.take(i + 1)));
            }
            i = i + 1;
        }
        assert(ps.take(ps.len() as int) =~= ps);
        proof {
            lemma_debits_total(ps);
        }
        ShowdownResult { winner: winner.id, announced, debits, prize: self.side_pot }
    }
}


/// Two rows of players with the same bets add up to the same bets, prefix by prefix.
proof fn lemma_same_bets(a: Seq<PokerPlayer>, b: Seq<PokerPlayer>)
    requires
        a.len() == b.len(),
        forall|i: int| 0 <= i < a.len() ==> #[trigger] a[i].bet == b[i].bet,
    ensures
        bets_total(a) == bets_total(b),
        forall|n: int| 0 <= n <= a.len() ==> #[trigger] bets_total(a.take(n)) == bets_total(b.take(n)),
    decreases a.len(),
{
    if a.len() > 0 {
        lemma_same_bets(a.drop_last(), b.drop_last());
        assert forall|n: int| 0 <= n <= a.len() implies #[trigger] bets_total(a.take(n)) == bets_total(b.take(n)) by {
            if n < a.len() {
                assert(a.take(n) =~= a.drop_last().take(n));
                assert(b.take(n) =~= b.drop_last().take(n));
            } else {
                assert(a.take(n) =~= a);
                assert(b.take(n) =~= b);
            }
        }
    } else {
        assert forall|n: int| 0 <= n <= a.len() implies #[trigger] bets_total(a.take(n)) == bets_total(b.take(n)) by {
            assert(a.take(n) =~= a);
            assert(b.take(n) =~= b);
        }
    }
}

impl PokerGame {
    /// One round of the running table, its steps in this order: when one player is left they
    /// win and the game ends; otherwise, when everybody checked or is all in, new cards are
    /// dealt (a free round); then the turn step says what comes next.
    pub fn play_round(&mut self) -> (r: RoundStep)
        requires
            old(self).wf(),
            old(self).players@.len() != 1 && old(self).all_checked() ==> old(self).players@.len() <= 20,
            old(self).players@.len() != 1 && old(self)@.round_announces() ==> old(self).pot_fits(),
        ensures
            final(self).wf(),
            old(self).players@.len() == 1 ==> r == (RoundStep::LastStanding {
                winner: old(self).players@[0].id,
                prize: (old(self).pot() - old(self).players@[0].bet) as i64,
            }) && final(self)@ == old(self)@,
            old(self).players@.len() == 1 ==> old(self).pot() - old(self).players@[0].bet == old(self).side_pot,
            old(self).players@.len() != 1 ==> r == (RoundStep::Turn {
                reshuffled: old(self)@.all_checked(),
                step: old(self)@.round_middle(final(self).players@).turn_step_result(),
            }) && final(self)@ == old(self)@.after_round(final(self).players@),
            old(self).players@.len() != 1 && old(self)@.all_checked() ==> dealt_from(
                final(self).players@,
                old(self)@.moves_forgotten(),
            ),
    {
        match self.last_player_standing() {
            Some((winner, prize)) => {
                proof {
                    let ps = self.players@;
                    assert(ps.drop_last() =~= Seq::<PokerPlayer>::empty());
                    assert(bets_total(ps.drop_last()) == 0);
                    assert(ps.last() == ps[0]);
                }
                return RoundStep::LastStanding { winner, prize };
            },
            None => {},
        }
        let ghost before = self@;
        let reshuffled = self.reshuffle_if_all_checked();
        let ghost mid = self@;
        proof {
            assert(self.players@.len() == before.players.len());
            if reshuffled {
                assert(before.moves_forgotten() =~= Seq::new(
                    before.players.len(),
                    |i: int| with_last_move(before.players[i], None),
                ));
                let base = before.moves_forgotten();
                assert forall|i: int| 0 <= i < self.players@.len() implies #[trigger] self.players@[i].bet == before.players[i].bet && self.players@[i].allin == before.players[i].allin && self.players@[i].last_move == None::<PokerMove> by {
                    assert(self.players@[i] == with_hand(base[i], self.players@[i].hand));
                }
                lemma_same_bets(self.players@, before.players);
                assert(self.players@[0].last_move == None::<PokerMove>);
                assert(!self@.all_called());
            }
        }
        let step = self.turn_step();
        proof {
            assert(self.players@ == mid.players);
            if reshuffled {
                assert(mid == before.reshuffled(self.players@));
            }
        }
        RoundStep::Turn { reshuffled, step }
    }
}


impl PokerGame {
    /// Whether somebody at the table has another id than `id`.
    pub fn has_someone_else(&self, id: u64) -> (b: bool)
        ensures
            b == someone_else(self.players@, id),
    {
        let mut i: usize = 0;
        while i < self.players.len()
            invariant
                i <= self.players@.len(),
                forall|j: int| 0 <= j < i ==> #[trigger] self.players@[j].id == id,
            decreases self.players@.len() - i,
        {
            if self.players[i].id != id {
                return true;
            }
            i = i + 1;
        }
        false
    }

    /// Whether the arithmetic of the move stays within `i64`.
    pub fn move_fits(&self, ev: GameEvent) -> (b: bool)
        requires
            self.wf(),
        ensures
            b == move_in_range(self@, ev),
    {
        let cur = *self.player_in_turn();
        let call = self.call as i128;
        let bet = cur.bet as i128;
        let funds = cur.funds as i128;
        match ev {
            GameEvent::PokerFold { folder } => folder != cur.id || (fits_i128(self.side_pot as i128 + bet)
                && self.has_someone_else(cur.id)),
            GameEvent::PokerRaise { raiser, amount } => {
                if raiser != cur.id || amount == 0 {
                    return true;
                }
                let c = call + amount as i128;
                fits_i128(c) && (funds != c || fits_i128(bet + funds)) && (funds <= c || (fits_i128(funds - c)
                    && fits_i128(bet + c)))
            },
            GameEvent::PokerCall { caller } => {
                if caller != cur.id || call == 0 {
                    return true;
                }
                (funds > call || fits_i128(bet + funds)) && (funds <= call || (fits_i128(call + self.ante as i128)
                    && fits_i128(call - bet) && fits_i128(funds - (call - bet))))
            },
            _ => true,
        }
    }

    /// A move of the player in turn. A check counts only before the betting round opens, a call
    /// only after. A raise must be by something and within the player's funds; the call grows
    /// by the raise, and the raiser bets the whole new call, or goes all in when that is exactly
    /// their funds. A caller who cannot cover the call goes all in; otherwise they bring their
    /// bet up to the call. A fold leaves the hand. Events of other players change nothing.
    pub fn apply_move(&mut self, ev: GameEvent) -> (out: MoveOutcome)
        requires
            old(self).wf(),
            old(self).players@.len() >= 2,
            move_in_range(old(self)@, ev),
        ensures
            out == move_outcome(old(self)@, ev),
            final(self)@ == after_move(old(self)@, ev),
            final(self).wf(),
    {
        let cur = *self.player_in_turn();
        match ev {
            GameEvent::PokerCheck { checker } => {
                if checker != cur.id {
                    return MoveOutcome::Ignored;
                }
                if self.call == 0 {
                    self.play_turn(PokerMove::Check);
                    MoveOutcome::Checked
                } else {
                    MoveOutcome::CannotCheck
                }
            },
            GameEvent::PokerFold { folder } => {
                if folder != cur.id {
                    return MoveOutcome::Ignored;
                }
                self.fold_current_player();
                MoveOutcome::Folded { player: cur.id, lost: cur.bet }
            },
            GameEvent::PokerRaise { raiser, amount } => {
                if raiser != cur.id {
                    return MoveOutcome::Ignored;
                }
                if amount == 0 {
                    return MoveOutcome::ZeroRaise;
                }
                if cur.funds < self.call + amount {
                    return MoveOutcome::RaiseTooHigh { funds: cur.funds };
                }
                self.call = self.call + amount;
                let out = if cur.funds == self.call {
                    self.allin_current_player();
                    MoveOutcome::RaisedAllIn { player: cur.id, amount }
                } else {
                    let c = self.call;
                    self.bet_current_player(c);
                    MoveOutcome::Raised { player: cur.id, amount }
                };
                self.play_turn(PokerMove::Raise);
                out
            },
            GameEvent::PokerCall { caller } => {
                if caller != cur.id {
                    return MoveOutcome::Ignored;
                }
                if self.call == 0 {
                    return MoveOutcome::CannotCall;
                }
                let out = if cur.funds <= self.call {
                    let total = cur.bet + cur.funds;
                    self.allin_current_player();
                    MoveOutcome::CalledAllIn { player: cur.id, total }
                } else {
                    let shown = self.call + self.ante;
                    let d = self.call - cur.bet;
                    self.bet_current_player(d);
                    MoveOutcome::Called { player: cur.id, shown }
                };
                self.play_turn(PokerMove::Call);
                out
            },
            _ => MoveOutcome::Ignored,
        }
    }
}


// ---------------------------------------------------------------------------------------------
// Money on the table
// ---------------------------------------------------------------------------------------------

/// What the players `ps` have on the table: their bets and their funds.
pub open spec fn holdings(ps: Seq<PokerPlayer>) -> int
    decreases ps.len(),
{
    if ps.len() == 0 {
        0
    } else {
        holdings(ps.drop_last()) + ps.last().bet + ps.last().funds
    }
}

/// All the money of a table: what the players hold and the side pot.
pub open spec fn table_money(t: PokerTable) -> int {
    holdings(t.players) + t.side_pot
}

proof fn lemma_holdings_update(ps: Seq<PokerPlayer>, i: int, p: PokerPlayer)
    requires
        0 <= i < ps.len(),
    ensures
        holdings(ps.update(i, p)) == holdings(ps) - ps[i].bet - ps[i].funds + p.bet + p.funds,
    decreases ps.len(),
{
    let u = ps.update(i, p);
    if i < ps.len() - 1 {
        assert(u.drop_last() =~= ps.drop_last().update(i, p));
        lemma_holdings_update(ps.drop_last(), i, p);
    } else {
        assert(u.drop_last() =~= ps.drop_last());
    }
}

proof fn lemma_holdings_remove(ps: Seq<PokerPlayer>, i: int)
    requires
        0 <= i < ps.len(),
    ensures
        holdings(ps.remove(i)) == holdings(ps) - ps[i].bet - ps[i].funds,
    decreases ps.len(),
{
    let r = ps.remove(i);
    if i < ps.len() - 1 {
        assert(r.drop_last() =~= ps.drop_last().remove(i));
        assert(r.last() == ps.last());
        lemma_holdings_remove(ps.drop_last(), i);
    } else {
        assert(r =~= ps.drop_last());
    }
}

proof fn lemma_without_absent(ps: Seq<PokerPlayer>, id: u64)
    requires
        forall|j: int| 0 <= j < ps.len() ==> #[trigger] ps[j].id != id,
    ensures
        without_id(ps, id) == ps,
    decreases ps.len(),
{
    let pred = |p: PokerPlayer| p.id != id;
    if ps.len() > 0 {
        let d = ps.drop_last();
        assert forall|j: int| 0 <= j < d.len() implies #[trigger] d[j].id != id by {
            assert(d[j] == ps[j]);
        }
        lemma_without_absent(d, id);
        assert(d.push(ps.last()) =~= ps);
        d.lemma_filter_push(ps.last(), pred);
    } else {
        assert(ps.filter(pred) =~= ps) by {
            reveal(Seq::filter);
        }
    }
}

/// With distinct ids, leaving every seat of one player's id leaves just their seat.
pub proof fn lemma_without_distinct(ps: Seq<PokerPlayer>, i: int)
    requires
        ids_distinct(ps),
        0 <= i < ps.len(),
    ensures
        without_id(ps, ps[i].id) == ps.remove(i),
    decreases ps.len(),
{
    let id = ps[i].id;
    let pred = |p: PokerPlayer| p.id != id;
    let d = ps.drop_last();
    assert(d.push(ps.last()) =~= ps);
    d.lemma_filter_push(ps.last(), pred);
    if i == ps.len() - 1 {
        assert forall|j: int| 0 <= j < d.len() implies #[trigger] d[j].id != id by {
            assert(d[j] == ps[j]);
        }
        lemma_without_absent(d, id);
        assert(ps.remove(i) =~= d);
    } else {
        assert(ids_distinct(d)) by {
            assert forall|a: int, b: int| 0 <= a < d.len() && 0 <= b < d.len() && a != b implies #[trigger] d[a].id != #[trigger] d[b].id by {
                assert(d[a] == ps[a] && d[b] == ps[b]);
            }
        }
        assert(d[i] == ps[i]);
        lemma_without_distinct(d, i);
        assert(ps.last().id != id);
        assert(ps.remove(i) =~= d.remove(i).push(ps.last()));
    }
}

/// A move keeps the money on the table: bets and funds only move from one to the other, and a
/// folding player's bet goes to the side pot while they take their remaining funds away. This
/// holds at a table where no id sits twice.
pub proof fn lemma_move_keeps_money(t: PokerTable, ev: GameEvent)
    requires
        2 <= t.players.len() <= 255,
        ids_distinct(t.players),
        t.turn < t.players.len(),
        move_in_range(t, ev),
    ensures
        table_money(after_move(t, ev)) == table_money(t) - if move_outcome(t, ev) is Folded {
            t.cur().funds as int
        } else {
            0
        },
{
    let cur = t.cur();
    let i = t.turn as int;
    match move_outcome(t, ev) {
        MoveOutcome::Checked => {
            lemma_holdings_update(t.players, i, with_last_move(cur, Some(PokerMove::Check)));
        },
        MoveOutcome::Folded { .. } => {
            lemma_without_distinct(t.players, i);
            lemma_holdings_remove(t.players, i);
        },
        MoveOutcome::RaisedAllIn { amount, .. } => {
            let t1 = PokerTable { call: (t.call + amount) as i64, ..t };
            let t2 = t1.allin_cur();
            lemma_holdings_update(t1.players, i, with_money(cur, (cur.bet + cur.funds) as i64, 0, true));
            lemma_holdings_update(t2.players, i, with_last_move(t2.cur(), Some(PokerMove::Raise)));
        },
        MoveOutcome::Raised { amount, .. } => {
            let c = t.call + amount;
            let t1 = PokerTable { call: c as i64, ..t };
            let t2 = t1.bet_cur(c);
            lemma_holdings_update(t1.players, i, with_money(cur, (cur.bet + c) as i64, (cur.funds - c) as i64, cur.allin));
            lemma_holdings_update(t2.players, i, with_last_move(t2.cur(), Some(PokerMove::Raise)));
        },
        MoveOutcome::CalledAllIn { .. } => {
            let t2 = t.allin_cur();
            lemma_holdings_update(t.players, i, with_money(cur, (cur.bet + cur.funds) as i64, 0, true));
            lemma_holdings_update(t2.players, i, with_last_move(t2.cur(), Some(PokerMove::Call)));
        },
        MoveOutcome::Called { .. } => {
            let d = t.call - cur.bet;
            let t2 = t.bet_cur(d);
            lemma_holdings_update(t.players, i, with_money(cur, (cur.bet + d) as i64, (cur.funds - d) as i64, cur.allin));
            lemma_holdings_update(t2.players, i, with_last_move(t2.cur(), Some(PokerMove::Call)));
        },
        _ => {},
    }
}


/// What the players' balances gain from a move: a fold takes the folding player's bet.
pub open spec fn move_payout(t: PokerTable, ev: GameEvent) -> int {
    match move_outcome(t, ev) {
        MoveOutcome::Folded { lost, .. } => -lost,
        _ => 0,
    }
}

/// A move can be made at the table: two players or more, the turn on one of them, and the
/// move's arithmetic within `i64`.
pub open spec fn can_move(t: PokerTable, ev: GameEvent) -> bool {
    &&& 2 <= t.players.len() <= 255
    &&& t.turn < t.players.len()
    &&& move_in_range(t, ev)
}

/// A step of a running table: a move of a player, or a round that goes on, in which a free
/// round (when everybody checked) deals the cards that `dealt` holds before the turn step.
pub enum TableStep {
    Move(GameEvent),
    Round(Seq<PokerPlayer>),
}

/// The table after one step.
pub open spec fn after_step(t: PokerTable, st: TableStep) -> PokerTable {
    match st {
        TableStep::Move(ev) => after_move(t, ev),
        TableStep::Round(dealt) => t.after_round(dealt),
    }
}

/// The step can be taken at the table: a move as `can_move` says; a round at a well-formed
/// table where more than one player is left.
pub open spec fn step_possible(t: PokerTable, st: TableStep) -> bool {
    match st {
        TableStep::Move(ev) => can_move(t, ev),
        TableStep::Round(_) => 2 <= t.players.len() <= 255 && t.turn < t.players.len(),
    }
}

/// What the players' balances gain from a step: only a fold takes anything.
pub open spec fn step_payout(t: PokerTable, st: TableStep) -> int {
    match st {
        TableStep::Move(ev) => move_payout(t, ev),
        TableStep::Round(_) => 0,
    }
}

/// The table after the steps `sts`, in order.
pub open spec fn after_steps(t: PokerTable, sts: Seq<TableStep>) -> PokerTable
    decreases sts.len(),
{
    if sts.len() == 0 {
        t
    } else {
        after_step(after_steps(t, sts.drop_last()), sts.last())
    }
}

/// Every step of `sts` can be taken at the table it meets.
pub open spec fn steps_possible(t: PokerTable, sts: Seq<TableStep>) -> bool
    decreases sts.len(),
{
    if sts.len() == 0 {
        true
    } else {
        steps_possible(t, sts.drop_last()) && step_possible(after_steps(t, sts.drop_last()), sts.last())
    }
}

/// What the players' balances gain from the steps `sts`, in all.
pub open spec fn steps_payout(t: PokerTable, sts: Seq<TableStep>) -> int
    decreases sts.len(),
{
    if sts.len() == 0 {
        0
    } else {
        steps_payout(t, sts.drop_last()) + step_payout(after_steps(t, sts.drop_last()), sts.last())
    }
}

/// What the players' balances gain when the game ends with one player left: the prize that
/// `last_player_standing` names, the pot without that player's bet.
pub open spec fn last_standing_payout(t: PokerTable) -> int {
    t.table_pot() - t.players[0].bet
}

/// What the players' balances gain at a showdown: every player's debit, and the prize.
pub open spec fn showdown_payout(t: PokerTable) -> int {
    payments_total(showdown_debits(t.players)) + (t.side_pot + bets_total(t.players))
}

proof fn lemma_step_side_pot(t: PokerTable, st: TableStep)
    requires
        step_possible(t, st),
    ensures
        after_step(t, st).side_pot == t.side_pot - step_payout(t, st),
{
}

proof fn lemma_steps_side_pot(t: PokerTable, sts: Seq<TableStep>)
    requires
        steps_possible(t, sts),
    ensures
        after_steps(t, sts).side_pot == t.side_pot - steps_payout(t, sts),
    decreases sts.len(),
{
    if sts.len() > 0 {
        lemma_steps_side_pot(t, sts.drop_last());
        lemma_step_side_pot(after_steps(t, sts.drop_last()), sts.last());
    }
}

/// A game hands out no points in all. Starting with an empty side pot (as a new table does,
/// and as the waiting steps keep it), a game goes through moves and rounds (free rounds, turn
/// steps). Every fold takes the folding player's bet and puts it into the side pot, and nothing
/// else touches the side pot, so it always holds what the folds took. When one player is left,
/// they get the pot without their own bet; at a showdown, every player pays their bet and the
/// winner gets every bet and the side pot. Either way the balance changes of the whole game
/// add up to zero.
pub proof fn lemma_game_is_zero_sum(t: PokerTable, sts: Seq<TableStep>)
    requires
        t.side_pot == 0,
        steps_possible(t, sts),
    ensures
        after_steps(t, sts).side_pot == -steps_payout(t, sts),
        after_steps(t, sts).players.len() == 1 ==> steps_payout(t, sts) + last_standing_payout(after_steps(t, sts)) == 0,
        (forall|i: int| 0 <= i < after_steps(t, sts).players.len() ==> #[trigger] after_steps(t, sts).players[i].bet > i64::MIN)
            ==> steps_payout(t, sts) + showdown_payout(after_steps(t, sts)) == 0,
{
    lemma_steps_side_pot(t, sts);
    let e = after_steps(t, sts);
    if e.players.len() == 1 {
        assert(e.players.drop_last() =~= Seq::<PokerPlayer>::empty());
        assert(bets_total(e.players.drop_last()) == 0);
        assert(e.players.last() == e.players[0]);
    }
    if forall|i: int| 0 <= i < e.players.len() ==> #[trigger] e.players[i].bet > i64::MIN {
        lemma_debits_total(e.players);
    }
}


/// After a fold, at a table where no id sits twice: the folding player's seat is gone, everyone
/// else keeps their order, the folder's bet goes to the side pot, and the turn passes to the
/// player who sat right after the folder (to the first player when the folder sat last).
pub proof fn lemma_fold_passes_turn(t: PokerTable, ev: GameEvent)
    requires
        can_move(t, ev),
        ids_distinct(t.players),
        move_outcome(t, ev) is Folded,
    ensures
        after_move(t, ev).players == t.players.remove(t.turn as int),
        after_move(t, ev).turn < after_move(t, ev).players.len(),
        after_move(t, ev).cur() == t.players[(t.turn + 1) % (t.players.len() as int)],
        after_move(t, ev).side_pot == t.side_pot + t.cur().bet,
        after_move(t, ev).call == t.call,
{
    let n = t.players.len() as int;
    let i = t.turn as int;
    lemma_without_distinct(t.players, i);
    let a = after_move(t, ev);
    assert(a.players == t.players.remove(i));
    assert(a.players.len() == n - 1);
    if i < n - 1 {
        vstd::arithmetic::div_mod::lemma_small_mod(i as nat, (n - 1) as nat);
        vstd::arithmetic::div_mod::lemma_small_mod((i + 1) as nat, n as nat);
        assert(i % (n - 1) == i);
        assert((i + 1) % n == i + 1);
        assert(a.players[i] == t.players[i + 1]);
    } else {
        assert(i == n - 1);
        vstd::arithmetic::div_mod::lemma_mod_self_0(n - 1);
        vstd::arithmetic::div_mod::lemma_mod_self_0(n);
        assert(i % (n - 1) == 0);
        assert((i + 1) % n == 0);
        assert(a.players[0] == t.players[0]);
    }
}

} // verus!
