use pokerbot::coinflip::{CoinflipBidError, CoinflipGame, CoinflipPlayerState, CoinflipStep, check_coinflip_bid};
use pokerbot::commands::{PayError, PokerSendError, check_payment, check_payment_count, check_poker_send, first_unable_to_pay, invitees_with_challenger};
use pokerbot::events::GameEvent;
use pokerbot::leaderboard::{Ranking, leaderboard_text, top_rankings};
use pokerbot::messages::{MessageActions, on_message, parse_i64};
use pokerbot::text::{contains, decimal_string, signed_decimal_string, text_equals};

#[test]
fn coinflip_bids() {
    assert_eq!(check_coinflip_bid(0, 10, 10), Err(CoinflipBidError::NonPositive));
    assert_eq!(check_coinflip_bid(-4, 10, 10), Err(CoinflipBidError::NonPositive));
    assert_eq!(check_coinflip_bid(11, 10, 20), Err(CoinflipBidError::Insufficient));
    assert_eq!(check_coinflip_bid(11, 20, 10), Err(CoinflipBidError::Insufficient));
    assert_eq!(check_coinflip_bid(10, 10, 10), Ok(()));
}

#[test]
fn coinflip_accept_leads_to_a_battle() {
    let mut g = CoinflipGame::new(1, 2, 30);
    assert_eq!(g.inviter, CoinflipPlayerState { id: 1, accepted: true });
    assert_eq!(g.tick(false, &vec![]), CoinflipStep::Waiting);
    // an accept for another invite changes nothing
    assert_eq!(g.tick(false, &vec![GameEvent::CoinflipAccept { invitee: 2, inviter: 9 }]), CoinflipStep::Waiting);
    let step = g.tick(false, &vec![GameEvent::CoinflipAccept { invitee: 2, inviter: 1 }]);
    assert!(step == CoinflipStep::Battle { winner: 1, loser: 2, bid: 30 } || step == CoinflipStep::Battle { winner: 2, loser: 1, bid: 30 });
    assert_eq!(g.settle(true), CoinflipStep::Battle { winner: 1, loser: 2, bid: 30 });
    assert_eq!(g.settle(false), CoinflipStep::Battle { winner: 2, loser: 1, bid: 30 });
}

#[test]
fn coinflip_expiry_and_cancel() {
    let mut g = CoinflipGame::new(1, 2, 30);
    assert_eq!(g.tick(true, &vec![GameEvent::CoinflipAccept { invitee: 2, inviter: 1 }]), CoinflipStep::Expired);
    assert!(!g.invitee.accepted);
    // accept then cancel in one tick: the game is called off
    let evs = vec![GameEvent::CoinflipAccept { invitee: 2, inviter: 1 }, GameEvent::CoinflipCancel { inviter: 1, invitee: 2 }];
    assert_eq!(g.tick(false, &evs), CoinflipStep::Abandoned);
    // cancel then accept in one tick: still called off
    let mut g = CoinflipGame::new(1, 2, 30);
    let evs = vec![GameEvent::CoinflipCancel { inviter: 1, invitee: 2 }, GameEvent::CoinflipAccept { invitee: 2, inviter: 1 }];
    assert_eq!(g.tick(false, &evs), CoinflipStep::Abandoned);
    assert!(!g.inviter.accepted);
    // a cancel of another invite changes nothing
    let mut g = CoinflipGame::new(1, 2, 30);
    assert_eq!(g.tick(false, &vec![GameEvent::CoinflipCancel { inviter: 1, invitee: 3 }]), CoinflipStep::Waiting);
}

#[test]
fn amounts_are_checked_before_balances() {
    assert_eq!(check_payment_count(0), Err(PayError::NonPositive));
    assert_eq!(check_payment_count(-4), Err(PayError::NonPositive));
    assert_eq!(check_payment_count(1), Ok(()));
}

#[test]
fn payments() {
    assert_eq!(check_payment(0, 10), Err(PayError::NonPositive));
    assert_eq!(check_payment(11, 10), Err(PayError::Insufficient));
    assert_eq!(check_payment(10, 10), Ok((10, -10)));
}

#[test]
fn poker_invites() {
    assert_eq!(check_poker_send(0, 1, 1), Err(PokerSendError::PlayerCount));
    assert_eq!(check_poker_send(6, 1, 1), Err(PokerSendError::PlayerCount));
    assert_eq!(check_poker_send(2, -1, 1), Err(PokerSendError::NegativeAnte));
    assert_eq!(check_poker_send(2, 0, 0), Err(PokerSendError::NonPositiveFunds));
    assert_eq!(check_poker_send(5, 0, 1), Ok(()));
    assert_eq!(invitees_with_challenger(&vec![4, 5], 1), vec![4, 5, 1]);
    assert_eq!(first_unable_to_pay(&vec![10, 3, 2], 5), Some(1));
    assert_eq!(first_unable_to_pay(&vec![10, 5], 5), None);
}

#[test]
fn board_keeps_ten_highest_in_stable_order() {
    let rs: Vec<Ranking> = (0..14).map(|i| Ranking { id: i, count: (i % 5) as i64 }).collect();
    let top = top_rankings(&rs);
    let mut expected = rs.clone();
    expected.sort_by(|a, b| b.count.cmp(&a.count));
    expected.truncate(10);
    assert_eq!(top, expected);
    assert_eq!(top_rankings(&vec![]), vec![]);
    let two = vec![Ranking { id: 1, count: 3 }, Ranking { id: 2, count: 9 }];
    assert_eq!(top_rankings(&two), vec![Ranking { id: 2, count: 9 }, Ranking { id: 1, count: 3 }]);
}

#[test]
fn board_text() {
    let top = vec![Ranking { id: 42, count: 9 }, Ranking { id: 7, count: -1 }];
    assert_eq!(leaderboard_text(&top), "- #1: <@42> 9 niggas\n- #2: <@7> -1 niggas");
    assert_eq!(leaderboard_text(&vec![]), "");
}

#[test]
fn messages_count_and_answer() {
    let a = on_message("(?i)apple|pear", "Apple and PEAR and apple", false).unwrap();
    assert_eq!(a, MessageActions { increment: Some(3), send_ohm: false, say_hi: false });
    let a = on_message("(?i)apple|pear", "OHMY", false).unwrap();
    assert_eq!(a, MessageActions { increment: None, send_ohm: true, say_hi: false });
    let a = on_message("(?i)apple|pear", "say hi", false).unwrap();
    assert_eq!(a, MessageActions { increment: None, send_ohm: false, say_hi: true });
    let a = on_message("(?i)apple|pear", "say hi ohm apple", true).unwrap();
    assert_eq!(a, MessageActions { increment: Some(1), send_ohm: false, say_hi: false });
    assert!(on_message("(", "text", false).is_none());
}

#[test]
fn numbers_typed_in_forms() {
    assert_eq!(parse_i64("42"), Some(42));
    assert_eq!(parse_i64("+42"), Some(42));
    assert_eq!(parse_i64("-42"), Some(-42));
    assert_eq!(parse_i64("-9223372036854775808"), Some(i64::MIN));
    assert_eq!(parse_i64("9223372036854775808"), None);
    assert_eq!(parse_i64("99999999999999999999999"), None);
    assert_eq!(parse_i64(""), None);
    assert_eq!(parse_i64("-"), None);
    assert_eq!(parse_i64("4x"), None);
    assert_eq!(parse_i64(" 4"), None);
    for s in ["42", "+42", "-42", "-9223372036854775808", "9223372036854775807", "9223372036854775808", "", "-", "+", "4x", "007"] {
        assert_eq!(parse_i64(s), s.parse::<i64>().ok());
    }
}

#[test]
fn texts() {
    assert_eq!(decimal_string(0), "0");
    assert_eq!(decimal_string(1234567890), "1234567890");
    assert_eq!(signed_decimal_string(i64::MIN), "-9223372036854775808");
    assert_eq!(signed_decimal_string(i64::MAX), "9223372036854775807");
    assert!(contains("a long ohm text", "ohm"));
    assert!(!contains("oh m", "ohm"));
    assert!(contains("anything", ""));
    assert!(!contains("", "x"));
    assert!(text_equals("say hi", "say hi"));
    assert!(!text_equals("say hi", "say hi!"));
}
