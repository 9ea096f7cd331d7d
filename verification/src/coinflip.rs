//! A coin flip between two users for a bid: the invitee accepts within the time limit, then a
//! fair coin decides who wins the bid from the other.
use vstd::prelude::*;
use crate::events::GameEvent;
use crate::random::random_ratio;

verus! {

/// A player of a coin flip, and whether they agreed to play.
#[derive(Clone, Copy, Debug, PartialEq, Eq, Structural)]
pub struct CoinflipPlayerState {
    pub id: u64,
    pub accepted: bool,
}

/// A coin flip: the inviter has agreed by inviting; the invitee agrees by accepting.
#[derive(Clone, Copy, Debug, PartialEq, Eq, Structural)]
pub struct CoinflipGame {
    pub inviter: CoinflipPlayerState,
    pub invitee: CoinflipPlayerState,
    pub bid: i64,
}

/// How a tick of the coin flip ends.
#[derive(Clone, Copy, Debug, PartialEq, Eq, Structural)]
pub enum CoinflipStep {
    /// The invite ran out of time.
    Expired,
    /// The inviter called the game off: it ends without a word.
    Abandoned,
    /// Both agreed: the coin was flipped; the winner gains the bid and the loser loses it.
    Battle { winner: u64, loser: u64, bid: i64 },
    /// Still waiting for the invitee.
    Waiting,
}

/// Why a coin flip cannot be offered.
#[derive(Clone, Copy, Debug, PartialEq, Eq, Structural)]
pub enum CoinflipBidError {
    /// The bid is zero or negative.
    NonPositive,
    /// One of the two cannot cover the bid.
    Insufficient,
}

/// A bid can be offered when it is positive and both balances cover it.
pub fn check_coinflip_bid(bid: i64, challenger_balance: i64, opponent_balance: i64) -> (r: Result<(), CoinflipBidError>)
    ensures
        bid <= 0 ==> r == Err::<(), CoinflipBidError>(CoinflipBidError::NonPositive),
        bid > 0 && (bid > challenger_balance || bid > opponent_balance) ==> r == Err::<(), CoinflipBidError>(
            CoinflipBidError::Insufficient,
        ),
        bid > 0 && bid <= challenger_balance && bid <= opponent_balance ==> r == Ok::<(), CoinflipBidError>(()),
{
    if bid <= 0 {
        return Err(CoinflipBidError::NonPositive);
    }
    if bid > challenger_balance || bid > opponent_balance {
        return Err(CoinflipBidError::Insufficient);
    }
    Ok(())
}

impl CoinflipGame {
    /// The invite of `inviter` to `invitee` for `bid`: the inviter has agreed, the invitee not yet.
    pub fn new(inviter: u64, invitee: u64, bid: i64) -> (g: CoinflipGame)
        ensures
            g == (CoinflipGame {
                inviter: CoinflipPlayerState { id: inviter, accepted: true },
                invitee: CoinflipPlayerState { id: invitee, accepted: false },
                bid,
            }),
    {
        CoinflipGame {
            inviter: CoinflipPlayerState { id: inviter, accepted: true },
            invitee: CoinflipPlayerState { id: invitee, accepted: false },
            bid,
        }
    }

    /// The game after one event: an accept of this very invite makes the invitee agree; the
    /// inviter's cancel of it withdraws the invite, so that neither agrees any more; anything
    /// else changes nothing.
    pub open spec fn after_event(self, ev: GameEvent) -> CoinflipGame {
        match ev {
            GameEvent::CoinflipAccept { invitee, inviter } => if self.inviter.id == inviter && self.invitee.id == invitee {
                CoinflipGame { invitee: CoinflipPlayerState { accepted: true, ..self.invitee }, ..self }
            } else {
                self
            },
            GameEvent::CoinflipCancel { inviter, invitee } => if self.inviter.id == inviter && self.invitee.id == invitee {
                CoinflipGame {
                    inviter: CoinflipPlayerState { accepted: false, ..self.inviter },
                    invitee: CoinflipPlayerState { accepted: false, ..self.invitee },
                    ..self
                }
            } else {
                self
            },
            _ => self,
        }
    }

    /// The game after the events, in order.
    pub open spec fn after_events(self, evs: Seq<GameEvent>) -> CoinflipGame
        decreases evs.len(),
    {
        if evs.len() == 0 {
            self
        } else {
            self.after_events(evs.drop_last()).after_event(evs.last())
        }
    }

    /// Takes one event into account.
    pub fn apply_event(&mut self, ev: GameEvent)
        ensures
            *final(self) == old(self).after_event(ev),
    {
        match ev {
            GameEvent::CoinflipAccept { invitee, inviter } => {
                if self.inviter.id == inviter && self.invitee.id == invitee {
                    self.invitee.accepted = true;
                }
            },
            GameEvent::CoinflipCancel { inviter, invitee } => {
                if self.inviter.id == inviter && self.invitee.id == invitee {
                    self.inviter.accepted = false;
                    self.invitee.accepted = false;
                }
            },
            _ => {},
        }
    }

    /// Who wins and who loses, given whether the coin favoured the inviter.
    pub fn settle(&self, inviter_wins: bool) -> (step: CoinflipStep)
        ensures
            step == if inviter_wins {
                CoinflipStep::Battle { winner: self.inviter.id, loser: self.invitee.id, bid: self.bid }
            } else {
                CoinflipStep::Battle { winner: self.invitee.id, loser: self.inviter.id, bid: self.bid }
            },
    {
        if inviter_wins {
            CoinflipStep::Battle { winner: self.inviter.id, loser: self.invitee.id, bid: self.bid }
        } else {
            CoinflipStep::Battle { winner: self.invitee.id, loser: self.inviter.id, bid: self.bid }
        }
    }

    /// One tick of the coin flip. An expired invite ends first. Otherwise the events are taken
    /// into account; when the inviter called the game off it ends, whatever came after the
    /// cancel; when both agree a fair coin decides the battle; otherwise the game waits.
    pub fn tick(&mut self, expired: bool, events: &Vec<GameEvent>) -> (step: CoinflipStep)
        ensures
            expired ==> step == CoinflipStep::Expired && *final(self) == *old(self),
            !expired ==> *final(self) == old(self).after_events(events@),
            !expired && !final(self).inviter.accepted ==> step == CoinflipStep::Abandoned,
            !expired && final(self).inviter.accepted && final(self).invitee.accepted ==> (step == (CoinflipStep::Battle {
                winner: final(self).inviter.id,
                loser: final(self).invitee.id,
                bid: final(self).bid,
            }) || step == (CoinflipStep::Battle {
                winner: final(self).invitee.id,
                loser: final(self).inviter.id,
                bid: final(self).bid,
            })),
            !expired && final(self).inviter.accepted && !final(self).invitee.accepted ==> step == CoinflipStep::Waiting,
    {
        if expired {
            return CoinflipStep::Expired;
        }
        let ghost start = *self;
        let mut i: usize = 0;
        while i < events.len()
            invariant
                i <= events@.len(),
                *self == start.after_events(events@.take(i as int)),
            decreases events@.len() - i,
        {
            proof {
                assert(events@.take(i + 1).drop_last() =~= events@.take(i as int));
            }
            self.apply_event(events[i]);
            i = i + 1;
        }
        assert(events@.take(events@.len() as int) =~= events@);
        if !self.inviter.accepted {
            return CoinflipStep::Abandoned;
        }
        if self.inviter.accepted && self.invitee.accepted {
            let inviter_wins = random_ratio(1, 2);
            return self.settle(inviter_wins);
        }
        CoinflipStep::Waiting
    }
}

/// The inviter's cancel of this very invite.
pub open spec fn is_cancel_of(g: CoinflipGame, ev: GameEvent) -> bool {
    ev == (GameEvent::CoinflipCancel { inviter: g.inviter.id, invitee: g.invitee.id })
}

/// Events never change who plays or the bid: only who agrees.
pub proof fn lemma_events_keep_players(g: CoinflipGame, evs: Seq<GameEvent>)
    ensures
        g.after_events(evs).inviter.id == g.inviter.id,
        g.after_events(evs).invitee.id == g.invitee.id,
        g.after_events(evs).bid == g.bid,
    decreases evs.len(),
{
    if evs.len() > 0 {
        lemma_events_keep_players(g, evs.drop_last());
    }
}

/// Without a cancel of the invite, the inviter keeps agreeing.
proof fn lemma_no_cancel_keeps_inviter(g: CoinflipGame, evs: Seq<GameEvent>)
    requires
        g.inviter.accepted,
        forall|i: int| 0 <= i < evs.len() ==> !is_cancel_of(g, #[trigger] evs[i]),
    ensures
        g.after_events(evs).inviter.accepted,
    decreases evs.len(),
{
    if evs.len() > 0 {
        lemma_events_keep_players(g, evs.drop_last());
        assert forall|i: int| 0 <= i < evs.drop_last().len() implies !is_cancel_of(g, #[trigger] evs.drop_last()[i]) by {
            assert(evs.drop_last()[i] == evs[i]);
        }
        lemma_no_cancel_keeps_inviter(g, evs.drop_last());
        assert(!is_cancel_of(g, evs[evs.len() - 1]));
    }
}

/// When the last event of a tick is the invitee's accept of this invite, and no cancel of it
/// came, both agree: the tick flips the coin.
pub proof fn lemma_accept_starts_battle(g: CoinflipGame, evs: Seq<GameEvent>)
    requires
        g.inviter.accepted,
        evs.len() > 0,
        evs.last() == (GameEvent::CoinflipAccept { invitee: g.invitee.id, inviter: g.inviter.id }),
        forall|i: int| 0 <= i < evs.len() ==> !is_cancel_of(g, #[trigger] evs[i]),
    ensures
        g.after_events(evs).inviter.accepted,
        g.after_events(evs).invitee.accepted,
{
    lemma_events_keep_players(g, evs.drop_last());
    assert forall|i: int| 0 <= i < evs.drop_last().len() implies !is_cancel_of(g, #[trigger] evs.drop_last()[i]) by {
        assert(evs.drop_last()[i] == evs[i]);
    }
    lemma_no_cancel_keeps_inviter(g, evs.drop_last());
}

/// The inviter's cancel calls the game off for good: once it came, whatever follows (an accept
/// too), the inviter no longer agrees, so the tick ends the game.
pub proof fn lemma_cancel_calls_off(g: CoinflipGame, evs: Seq<GameEvent>, k: int)
    requires
        0 <= k < evs.len(),
        is_cancel_of(g, evs[k]),
    ensures
        !g.after_events(evs).inviter.accepted,
    decreases evs.len(),
{
    lemma_events_keep_players(g, evs.drop_last());
    if k < evs.len() - 1 {
        assert(evs.drop_last()[k] == evs[k]);
        lemma_cancel_calls_off(g, evs.drop_last(), k);
    }
}

} // verus!
