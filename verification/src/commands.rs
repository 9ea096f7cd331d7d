//! The checks that the chat commands make before they act.
use vstd::prelude::*;

verus! {

/// Why a payment is refused.
#[derive(Clone, Copy, Debug, PartialEq, Eq, Structural)]
pub enum PayError {
    /// The amount is zero or negative.
    NonPositive,
    /// The sender does not have that much.
    Insufficient,
}

/// Whether an amount can be paid at all: it must be positive. This is checked before the
/// sender's balance is looked up.
pub fn check_payment_count(count: i64) -> (r: Result<(), PayError>)
    ensures
        count <= 0 ==> r == Err::<(), PayError>(PayError::NonPositive),
        count > 0 ==> r == Ok::<(), PayError>(()),
{
    if count <= 0 {
        return Err(PayError::NonPositive);
    }
    Ok(())
}

/// A payment of `count` points from a sender whose balance is `balance`: allowed when the
/// amount is positive and covered. The result is what to add to the recipient and to the
/// sender: `count` and `-count`.
pub fn check_payment(count: i64, balance: i64) -> (r: Result<(i64, i64), PayError>)
    ensures
        count <= 0 ==> r == Err::<(i64, i64), PayError>(PayError::NonPositive),
        count > 0 && count > balance ==> r == Err::<(i64, i64), PayError>(PayError::Insufficient),
        count > 0 && count <= balance ==> r == Ok::<(i64, i64), PayError>((count, (-count) as i64)),
{
    if let Err(e) = check_payment_count(count) {
        return Err(e);
    }
    if count > balance {
        return Err(PayError::Insufficient);
    }
    Ok((count, -count))
}

/// Why a poker invite is refused.
#[derive(Clone, Copy, Debug, PartialEq, Eq, Structural)]
pub enum PokerSendError {
    /// Not one to five opponents.
    PlayerCount,
    /// A negative ante.
    NegativeAnte,
    /// Funds of zero or less.
    NonPositiveFunds,
}

/// A poker invite needs one to five opponents, an ante of zero or more, and positive funds;
/// the checks run in that order.
pub fn check_poker_send(opponents: usize, ante: i64, funds: i64) -> (r: Result<(), PokerSendError>)
    ensures
        (opponents > 5 || opponents == 0) ==> r == Err::<(), PokerSendError>(PokerSendError::PlayerCount),
        1 <= opponents <= 5 && ante < 0 ==> r == Err::<(), PokerSendError>(PokerSendError::NegativeAnte),
        1 <= opponents <= 5 && ante >= 0 && funds <= 0 ==> r == Err::<(), PokerSendError>(PokerSendError::NonPositiveFunds),
        1 <= opponents <= 5 && ante >= 0 && funds > 0 ==> r == Ok::<(), PokerSendError>(()),
{
    if opponents > 5 || opponents == 0 {
        return Err(PokerSendError::PlayerCount);
    }
    if ante < 0 {
        return Err(PokerSendError::NegativeAnte);
    }
    if funds <= 0 {
        return Err(PokerSendError::NonPositiveFunds);
    }
    Ok(())
}

/// The players of a poker invite: the opponents in the order given, then the challenger.
pub fn invitees_with_challenger(opponents: &Vec<u64>, challenger: u64) -> (v: Vec<u64>)
    ensures
        v@ == opponents@.push(challenger),
{
    let mut v = opponents.clone();
    v.push(challenger);
    assert(v@ =~= opponents@.push(challenger));
    v
}

/// The position of the first player whose balance does not cover the ante, if any.
pub fn first_unable_to_pay(balances: &Vec<i64>, ante: i64) -> (r: Option<usize>)
    ensures
        match r {
            Some(i) => i < balances@.len() && balances@[i as int] < ante && forall|j: int| 0 <= j < i ==> balances@[j] >= ante,
            None => forall|j: int| 0 <= j < balances@.len() ==> balances@[j] >= ante,
        },
{
    let mut i: usize = 0;
    while i < balances.len()
        invariant
            i <= balances@.len(),
            forall|j: int| 0 <= j < i ==> balances@[j] >= ante,
        decreases balances@.len() - i,
    {
        if balances[i] < ante {
            return Some(i);
        }
        i = i + 1;
    }
    None
}

} // verus!
