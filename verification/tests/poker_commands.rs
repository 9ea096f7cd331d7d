use pokerbot::poker_command::{
    PokerCommand, PokerCommandError, parse_poker_args, parse_u64, resolve_user_mention,
};

fn words(s: &[&str]) -> Vec<String> {
    s.iter().map(|w| w.to_string()).collect()
}

fn parse(author: u64, s: &[&str]) -> Result<PokerCommand, PokerCommandError> {
    parse_poker_args(author, &words(s))
}

#[test]
fn u64_amounts_read_like_std() {
    for s in ["0", "42", "+42", "007", "18446744073709551615", "18446744073709551616", "", "+", "-1", "-0", "4 2", "x", "١"] {
        assert_eq!(parse_u64(s), s.parse::<u64>().ok(), "{s}");
    }
}

#[test]
fn mentions_name_users() {
    assert_eq!(resolve_user_mention("<@123>"), Some(123));
    assert_eq!(resolve_user_mention("<@!123>"), Some(123));
    assert_eq!(resolve_user_mention("<@0>"), None);
    assert_eq!(resolve_user_mention("<@>"), None);
    assert_eq!(resolve_user_mention("123"), None);
    assert_eq!(resolve_user_mention("<#123>"), None);
    // the character after the id is dropped, whatever it is
    assert_eq!(resolve_user_mention("<@1234"), Some(123));
    // a multi-byte last character names nobody
    assert_eq!(resolve_user_mention("<@123é"), None);
    assert_eq!(resolve_user_mention("<@é"), None);
    assert_eq!(resolve_user_mention("<@é>"), None);
}

#[test]
fn send_reads_ante_funds_and_mentions() {
    let r = parse(9, &["send", "10", "50", "<@1>", "<@!2>"]);
    assert_eq!(r, Ok(PokerCommand::Send { ante: 10, funds: 50, invitees: vec![1, 2, 9] }));
}

#[test]
fn send_edge_cases() {
    assert_eq!(parse(9, &["send"]), Ok(PokerCommand::NotEnoughPlayers));
    assert_eq!(parse(9, &["send", "10"]), Ok(PokerCommand::NotEnoughPlayers));
    assert_eq!(parse(9, &["send", "x", "2", "<@1>"]), Err(PokerCommandError::IntParsing));
    assert_eq!(parse(9, &["send", "-1", "2", "<@1>"]), Err(PokerCommandError::IntParsing));
    assert_eq!(parse(9, &["send", "9223372036854775808", "2", "<@1>"]), Err(PokerCommandError::SignedInt));
    assert_eq!(parse(9, &["send", "1", "9223372036854775808", "<@1>"]), Err(PokerCommandError::SignedInt));
    assert_eq!(parse(9, &["send", "1", "x", "nobody"]), Err(PokerCommandError::IntParsing));
    assert_eq!(parse(9, &["send", "1", "2", "<@1>", "nobody"]), Err(PokerCommandError::InvalidUser));
}

#[test]
fn send_seats_two_to_six_players() {
    // five opponents and the author: six players
    assert_eq!(
        parse(9, &["send", "1", "2", "<@1>", "<@2>", "<@3>", "<@4>", "<@5>"]),
        Ok(PokerCommand::Send { ante: 1, funds: 2, invitees: vec![1, 2, 3, 4, 5, 9] })
    );
    // six opponents: refused before anything else is read
    assert_eq!(parse(9, &["send", "1", "2", "<@1>", "<@2>", "<@3>", "<@4>", "<@5>", "<@6>"]), Ok(PokerCommand::TooManyPlayers));
    assert_eq!(parse(9, &["send", "x", "y", "a", "b", "c", "d", "e", "f"]), Ok(PokerCommand::TooManyPlayers));
    // no opponent: refused
    assert_eq!(parse(9, &["send", "1", "2"]), Ok(PokerCommand::NotEnoughPlayers));
}

#[test]
fn the_other_commands() {
    assert_eq!(parse(9, &["accept", "<@4>", "30"]), Ok(PokerCommand::Accept { invitee: 9, inviter: 4, funds: 30 }));
    assert_eq!(parse(9, &["accept", "<@4>"]), Err(PokerCommandError::InvalidArgCount));
    assert_eq!(parse(9, &["accept", "4", "x"]), Err(PokerCommandError::InvalidUser));
    assert_eq!(parse(9, &["accept", "<@4>", "x"]), Err(PokerCommandError::IntParsing));
    assert_eq!(parse(9, &["cancel", "<@4>"]), Ok(PokerCommand::Cancel { invitee: 9, inviter: 4 }));
    assert_eq!(parse(9, &["cancel"]), Err(PokerCommandError::InvalidArgCount));
    assert_eq!(parse(9, &["call"]), Ok(PokerCommand::Call { caller: 9 }));
    assert_eq!(parse(9, &["call", "now"]), Err(PokerCommandError::InvalidArgCount));
    assert_eq!(parse(9, &["raise", "25"]), Ok(PokerCommand::Raise { raiser: 9, amount: 25 }));
    assert_eq!(parse(9, &["raise", "-25"]), Err(PokerCommandError::IntParsing));
    assert_eq!(parse(9, &["raise"]), Err(PokerCommandError::InvalidArgCount));
    assert_eq!(parse(9, &["fold"]), Ok(PokerCommand::Fold { folder: 9 }));
    assert_eq!(parse(9, &["check"]), Ok(PokerCommand::Check { checker: 9 }));
    assert_eq!(parse(9, &["check", "x"]), Err(PokerCommandError::InvalidArgCount));
    assert_eq!(parse(9, &["dance"]), Ok(PokerCommand::Unknown));
    assert_eq!(parse(9, &["SEND", "1", "2"]), Ok(PokerCommand::Unknown));
}

#[test]
fn a_written_mention_reads_back() {
    for id in [1u64, 9, 10, 42, 1234567890123, u64::MAX] {
        assert_eq!(resolve_user_mention(&format!("<@{id}>")), Some(id));
    }
}
