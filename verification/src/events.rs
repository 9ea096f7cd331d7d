//! What players do, as the games receive it: users are named by their numeric ids.
use vstd::prelude::*;

verus! {

/// An action of a player that a running game may react to.
#[derive(Clone, Copy, Debug, PartialEq, Eq, Structural)]
pub enum GameEvent {
    /// Join a poker lobby, bringing `funds` to the table.
    PokerLobbyJoin { funds: i64 },
    /// Leave a poker lobby.
    PokerLobbyLeave,
    /// The invitee accepts a coin flip of the inviter.
    CoinflipAccept { invitee: u64, inviter: u64 },
    /// The invitee withdraws from a coin flip of the inviter.
    CoinflipCancel { inviter: u64, invitee: u64 },
    /// The invitee accepts a poker invite, bringing `funds`.
    PokerAccept { invitee: u64, inviter: u64, funds: i64 },
    /// The invitee declines a poker invite.
    PokerCancel { invitee: u64, inviter: u64 },
    /// Call the current bet.
    PokerCall { caller: u64 },
    /// Raise the bet by `amount`.
    PokerRaise { raiser: u64, amount: i64 },
    /// Leave the hand.
    PokerFold { folder: u64 },
    /// Pass without betting.
    PokerCheck { checker: u64 },
}

} // verus!
