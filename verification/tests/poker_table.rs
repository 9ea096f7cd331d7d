use pokerbot::cards::{CardHand, CardRank, CardSuit, NormalCard, template_hand};
use pokerbot::events::GameEvent;
use CardRank::{Two, Three, Five, Seven, Nine, Jack, King};
use CardSuit::{Clubs, Hearts, Spades};
use pokerbot::poker_game::{
    GameState, InviteDecision, MoveOutcome, PokerGame, PokerMove, PokerPlayer, TurnStep, WaitingStep, RoundStep};

fn player(id: u64, bet: i64, funds: i64) -> PokerPlayer {
    PokerPlayer { id, accepted: true, hand: template_hand(), bet, last_move: None, funds, allin: false }
}

fn table(players: Vec<PokerPlayer>) -> PokerGame {
    PokerGame {
        challenger: 1,
        players,
        ante: 5,
        state: GameState::Started,
        has_sent_message: false,
        turn: 0,
        side_pot: 0,
        call: 0,
    }
}

fn hand_of(rank: CardRank, suits: [CardSuit; 5], ranks: [CardRank; 5]) -> CardHand {
    let _ = rank;
    CardHand([
        NormalCard { rank: ranks[0], suit: suits[0] },
        NormalCard { rank: ranks[1], suit: suits[1] },
        NormalCard { rank: ranks[2], suit: suits[2] },
        NormalCard { rank: ranks[3], suit: suits[3] },
        NormalCard { rank: ranks[4], suit: suits[4] },
    ])
}

#[test]
fn new_game_seats_everyone_with_the_ante() {
    let g = PokerGame::new(7, 100, vec![3, 7, 9], 5);
    assert_eq!(g.players.len(), 3);
    assert_eq!(g.state, GameState::Waiting);
    assert_eq!(g.turn, 0);
    let mut ids: Vec<u64> = g.players.iter().map(|p| p.id).collect();
    ids.sort();
    assert_eq!(ids, vec![3, 7, 9]);
    for p in g.players.iter() {
        assert_eq!(p.bet, 5);
        assert_eq!(p.accepted, p.id == 7);
        assert_eq!(p.funds, if p.id == 7 { 100 } else { 0 });
    }
}

#[test]
fn pot_adds_bets_and_side_pot() {
    let mut g = table(vec![player(1, 5, 10), player(2, 7, 10)]);
    g.side_pot = 3;
    assert_eq!(g.pot_money(), 15);
}

#[test]
fn turn_wraps_around() {
    let mut g = table(vec![player(1, 5, 10), player(2, 5, 10), player(3, 5, 10)]);
    g.turn = 2;
    g.advance_turn();
    assert_eq!(g.turn, 0);
}

#[test]
fn waiting_table_starts_when_all_accepted() {
    let mut g = table(vec![player(1, 5, 10), player(2, 5, 10)]);
    g.state = GameState::Waiting;
    g.players[1].accepted = false;
    assert_eq!(g.waiting_step(false), WaitingStep::Pending);
    assert_eq!(g.waiting_step(true), WaitingStep::Expired);
    assert_eq!(g.invite_decision(GameEvent::PokerAccept { invitee: 2, inviter: 1, funds: 40 }),
        InviteDecision::CheckBalance { invitee: 2, funds: 40 });
    assert_eq!(g.invite_decision(GameEvent::PokerAccept { invitee: 2, inviter: 3, funds: 40 }), InviteDecision::Ignore);
    assert_eq!(g.invite_decision(GameEvent::PokerCancel { invitee: 2, inviter: 1 }), InviteDecision::Disband { invitee: 2 });
    assert_eq!(g.invite_decision(GameEvent::PokerCancel { invitee: 8, inviter: 1 }), InviteDecision::Ignore);
    // balance 44 does not cover ante 5 + funds 40
    assert!(!g.accept_invite(2, 40, 44));
    assert!(!g.players[1].accepted);
    assert!(g.accept_invite(2, 40, 45));
    assert!(g.players[1].accepted);
    assert_eq!(g.players[1].funds, 40);
    assert_eq!(g.waiting_step(false), WaitingStep::Started);
    assert_eq!(g.state, GameState::Started);
    // the two hands come from a pair of decks: no card appears three times
    let mut all: Vec<NormalCard> = g.players.iter().flat_map(|p| p.hand.0.to_vec()).collect();
    assert_eq!(all.len(), 10);
    all.dedup();
    for card in all.iter() {
        let n = g.players.iter().flat_map(|p| p.hand.0.to_vec()).filter(|x| x == card).count();
        assert!(n <= 2);
    }
}

#[test]
fn last_player_takes_the_pot() {
    let mut g = table(vec![player(4, 5, 10)]);
    g.side_pot = 12;
    // the pot without the winner's own bet: what the others lost
    assert_eq!(g.last_player_standing(), Some((4, 12)));
    let g2 = table(vec![player(4, 5, 10), player(5, 5, 10)]);
    assert_eq!(g2.last_player_standing(), None);
}

#[test]
fn check_then_raise_then_call() {
    let mut g = table(vec![player(1, 5, 100), player(2, 5, 100)]);
    assert_eq!(g.turn_step(), TurnStep::Announce { player: 1, funds: 100, bet: 5, call: 0, pot: 10 });
    assert!(g.has_sent_message);
    assert_eq!(g.turn_step(), TurnStep::AwaitMove);
    // a move of the player not in turn is ignored
    assert_eq!(g.apply_move(GameEvent::PokerCheck { checker: 2 }), MoveOutcome::Ignored);
    assert_eq!(g.apply_move(GameEvent::PokerCall { caller: 1 }), MoveOutcome::CannotCall);
    assert_eq!(g.apply_move(GameEvent::PokerCheck { checker: 1 }), MoveOutcome::Checked);
    assert_eq!(g.turn, 1);
    assert_eq!(g.players[0].last_move, Some(PokerMove::Check));
    assert_eq!(g.apply_move(GameEvent::PokerRaise { raiser: 2, amount: 0 }), MoveOutcome::ZeroRaise);
    assert_eq!(g.apply_move(GameEvent::PokerRaise { raiser: 2, amount: 101 }), MoveOutcome::RaiseTooHigh { funds: 100 });
    assert_eq!(g.apply_move(GameEvent::PokerRaise { raiser: 2, amount: 20 }), MoveOutcome::Raised { player: 2, amount: 20 });
    assert_eq!(g.call, 20);
    // the raiser bets the whole new call
    assert_eq!(g.players[1].bet, 25);
    assert_eq!(g.players[1].funds, 80);
    assert_eq!(g.turn, 0);
    assert_eq!(g.apply_move(GameEvent::PokerCheck { checker: 1 }), MoveOutcome::CannotCheck);
    // the caller brings their bet up to the call; the table shows call plus ante
    assert_eq!(g.apply_move(GameEvent::PokerCall { caller: 1 }), MoveOutcome::Called { player: 1, shown: 25 });
    assert_eq!(g.players[0].bet, 20);
    assert_eq!(g.players[0].funds, 85);
    assert_eq!(g.pot_money(), 45);
}

#[test]
fn call_without_enough_goes_all_in() {
    let mut g = table(vec![player(1, 5, 10), player(2, 5, 100)]);
    g.call = 30;
    assert_eq!(g.apply_move(GameEvent::PokerCall { caller: 1 }), MoveOutcome::CalledAllIn { player: 1, total: 15 });
    assert!(g.players[0].allin);
    assert_eq!(g.players[0].bet, 15);
    assert_eq!(g.players[0].funds, 0);
    g.turn = 0;
    g.has_sent_message = true;
    assert_eq!(g.turn_step(), TurnStep::AllInSkip { player: 1 });
    assert_eq!(g.turn, 1);
}

#[test]
fn raise_to_exactly_the_funds_is_all_in() {
    let mut g = table(vec![player(1, 5, 50), player(2, 5, 100)]);
    g.call = 30;
    assert_eq!(g.apply_move(GameEvent::PokerRaise { raiser: 1, amount: 20 }), MoveOutcome::RaisedAllIn { player: 1, amount: 20 });
    assert_eq!(g.call, 50);
    assert_eq!(g.players[0].bet, 55);
    assert_eq!(g.players[0].funds, 0);
    assert!(g.players[0].allin);
}

#[test]
fn fold_moves_the_bet_to_the_side_pot() {
    let mut g = table(vec![player(1, 5, 50), player(2, 9, 100), player(3, 5, 10)]);
    let mut payouts: Vec<i64> = Vec::new();
    g.turn = 2;
    let out = g.apply_move(GameEvent::PokerFold { folder: 3 });
    assert_eq!(out, MoveOutcome::Folded { player: 3, lost: 5 });
    if let MoveOutcome::Folded { lost, .. } = out {
        payouts.push(-lost);
    }
    assert_eq!(g.players.len(), 2);
    assert_eq!(g.turn, 0);
    assert_eq!(g.side_pot, 5);
    assert!(!g.has_sent_message);
    g.turn = 0;
    let out = g.apply_move(GameEvent::PokerFold { folder: 1 });
    assert_eq!(out, MoveOutcome::Folded { player: 1, lost: 5 });
    if let MoveOutcome::Folded { lost, .. } = out {
        payouts.push(-lost);
    }
    assert_eq!(g.players[0].id, 2);
    assert_eq!(g.side_pot, 10);
    let (winner, prize) = g.last_player_standing().unwrap();
    assert_eq!((winner, prize), (2, 10));
    payouts.push(prize);
    // the balance changes of the whole game add up to nothing
    assert_eq!(payouts.iter().sum::<i64>(), 0);
}

#[test]
fn everyone_checked_means_new_cards() {
    let mut g = table(vec![player(1, 5, 50), player(2, 5, 100)]);
    g.players[0].last_move = Some(PokerMove::Check);
    g.players[1].allin = true;
    g.has_sent_message = true;
    assert!(g.everybody_checked());
    assert!(g.reshuffle_if_all_checked());
    assert!(!g.has_sent_message);
    assert_eq!(g.players[0].last_move, None);
    assert!(!g.reshuffle_if_all_checked());
}

#[test]
fn showdown_pays_the_last_best_hand() {
    let mut g = table(vec![player(1, 10, 0), player(2, 20, 0), player(3, 30, 0)]);
    g.side_pot = 4;
    // player 1: a pair of kings; players 2 and 3: the same high card
    g.players[0].hand = hand_of(King, [Clubs, Hearts, Spades, Clubs, Hearts], [King, King, Two, Five, Nine]);
    g.players[1].hand = hand_of(Jack, [Clubs, Hearts, Spades, Clubs, Hearts], [Jack, Nine, Seven, Three, Two]);
    g.players[2].hand = hand_of(Jack, [Hearts, Spades, Clubs, Hearts, Spades], [Jack, Nine, Seven, Three, Two]);
    for p in g.players.iter_mut() {
        p.last_move = Some(PokerMove::Call);
    }
    assert_eq!(g.turn_step(), TurnStep::Showdown);
    assert!(g.showdown_fits());
    let r = g.showdown();
    assert_eq!(r.winner, 1);
    assert_eq!(r.announced, 54);
    assert_eq!(r.prize, 64);
    assert_eq!(r.debits, vec![(1, -10), (2, -20), (3, -30)]);
    assert_eq!(r.debits.iter().map(|d| d.1).sum::<i64>() + r.prize, 4);
    assert_eq!(g.side_pot, 64);

    // equal best hands: the last of them wins
    let mut g = table(vec![player(1, 10, 0), player(2, 20, 0), player(3, 30, 0)]);
    g.players[0].hand = hand_of(Jack, [Clubs, Hearts, Spades, Clubs, Hearts], [Jack, Nine, Seven, Three, Two]);
    g.players[1].hand = hand_of(Jack, [Hearts, Spades, Clubs, Hearts, Spades], [Jack, Nine, Seven, Three, Two]);
    g.players[2].hand = hand_of(Jack, [Hearts, Spades, Clubs, Hearts, Spades], [Jack, Nine, Seven, Three, Two]);
    let r = g.showdown();
    assert_eq!(r.winner, 3);
}

#[test]
fn overflowing_moves_are_reported() {
    let mut g = table(vec![player(1, 5, i64::MAX), player(2, 5, 100)]);
    g.call = i64::MAX;
    assert!(!g.move_fits(GameEvent::PokerRaise { raiser: 1, amount: 1 }));
    assert!(g.move_fits(GameEvent::PokerRaise { raiser: 2, amount: 1 }));
    assert!(g.move_fits(GameEvent::PokerCheck { checker: 1 }));
    let mut h = table(vec![player(1, i64::MAX, 0), player(2, 5, 0)]);
    assert!(!h.showdown_fits());
    h.players[0].bet = 5;
    assert!(h.showdown_fits());
    // a debit of the smallest i64 cannot be written as a negative amount
    h.players[1].bet = i64::MIN;
    assert!(!h.showdown_fits());
    // a fold that would leave nobody at the table
    let g = table(vec![player(1, 5, 0), player(1, 5, 0)]);
    assert!(!g.move_fits(GameEvent::PokerFold { folder: 1 }));
}

#[test]
fn repeated_invitees_sit_twice_and_leave_together() {
    let g = PokerGame::new(7, 100, vec![3, 7, 3, 7], 5);
    assert_eq!(g.players.len(), 4);
    // only the challenger's first seat has accepted and brought funds
    assert_eq!(g.players.iter().filter(|p| p.id == 7 && p.accepted && p.funds == 100).count(), 1);
    assert_eq!(g.players.iter().filter(|p| p.accepted).count(), 1);
    let mut g = table(vec![player(3, 5, 10), player(4, 6, 10), player(3, 7, 10)]);
    assert_eq!(g.apply_move(GameEvent::PokerFold { folder: 3 }), MoveOutcome::Folded { player: 3, lost: 5 });
    assert_eq!(g.players.len(), 1);
    assert_eq!(g.players[0].id, 4);
    assert_eq!(g.side_pot, 5);
    // accepting fills the first seat of that id only
    let mut g = table(vec![player(3, 5, 0), player(3, 5, 0)]);
    g.players[0].accepted = false;
    g.players[1].accepted = false;
    assert!(g.accept_invite(3, 20, 100));
    assert_eq!((g.players[0].accepted, g.players[0].funds), (true, 20));
    assert_eq!((g.players[1].accepted, g.players[1].funds), (false, 0));
}

#[test]
fn a_round_runs_its_steps_in_order() {
    // one player left: they win the side pot and the game ends
    let mut g = table(vec![player(4, 5, 10)]);
    g.side_pot = 12;
    assert_eq!(g.play_round(), RoundStep::LastStanding { winner: 4, prize: 12 });
    // everybody checked: a free round, then the player in turn is told
    let mut g = table(vec![player(1, 5, 50), player(2, 5, 100)]);
    g.players[0].last_move = Some(PokerMove::Check);
    g.players[1].last_move = Some(PokerMove::Check);
    g.has_sent_message = true;
    assert_eq!(
        g.play_round(),
        RoundStep::Turn { reshuffled: true, step: TurnStep::Announce { player: 1, funds: 50, bet: 5, call: 0, pot: 10 } }
    );
    assert_eq!(g.players[0].last_move, None);
    assert!(g.has_sent_message);
    // otherwise just the turn step
    assert_eq!(g.play_round(), RoundStep::Turn { reshuffled: false, step: TurnStep::AwaitMove });
    g.players[0].allin = true;
    assert_eq!(g.play_round(), RoundStep::Turn { reshuffled: false, step: TurnStep::AllInSkip { player: 1 } });
    assert_eq!(g.turn, 1);
}
