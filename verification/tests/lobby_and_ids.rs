use pokerbot::events::GameEvent;
use pokerbot::game_id::{EventWithData, GameId, ParseIdError, custom_id, parse_game_data};
use pokerbot::messages::{InteractionTarget, interaction_target};
use pokerbot::poker_lobby::{InviteeStatus, LobbyError, LobbyStatus, LobbyStep, PokerLobby, get_formatted_player};

#[test]
fn game_id_is_lower_case_hex() {
    assert_eq!(GameId(0).to_string(), "0");
    assert_eq!(GameId(255).to_string(), "ff");
    assert_eq!(GameId(0x1f3a).to_string(), "1f3a");
    assert_eq!(GameId(u128::MAX).to_string(), "ffffffffffffffffffffffffffffffff");
}

#[test]
fn game_id_reads_hex_like_from_str_radix() {
    assert_eq!(GameId::from_str("1F3a"), Ok(GameId(0x1f3a)));
    assert_eq!(GameId::from_str("+ff"), Ok(GameId(255)));
    assert_eq!(GameId::from_str(""), Err(ParseIdError::Empty));
    assert_eq!(GameId::from_str("+"), Err(ParseIdError::InvalidDigit));
    assert_eq!(GameId::from_str("-"), Err(ParseIdError::InvalidDigit));
    assert_eq!(GameId::from_str("-5"), Err(ParseIdError::InvalidDigit));
    assert_eq!(GameId::from_str("12g"), Err(ParseIdError::InvalidDigit));
    assert_eq!(GameId::from_str("1ffffffffffffffffffffffffffffffff"), Err(ParseIdError::PosOverflow));
    // the same outcomes as std
    for s in ["1F3a", "+ff", "", "+", "-", "-5", "12g", "1ffffffffffffffffffffffffffffffff", "00ff", "é"] {
        assert_eq!(GameId::from_str(s).is_ok(), u128::from_str_radix(s, 16).is_ok());
        if let Ok(v) = u128::from_str_radix(s, 16) {
            assert_eq!(GameId::from_str(s), Ok(GameId(v)));
        }
    }
}

#[test]
fn game_id_round_trip() {
    for v in [0u128, 1, 15, 16, 0xdead_beef, u128::MAX] {
        let id = GameId(v);
        assert_eq!(GameId::from_str(&id.to_string()), Ok(id));
    }
    let id = GameId::new();
    assert_eq!(GameId::from_str(&id.to_string()), Ok(id));
}

#[test]
fn button_ids_read_back() {
    let id = GameId(0xabc);
    let s = custom_id("pokerlobbyjoin", id);
    assert_eq!(s, "pokerlobbyjoin_abc");
    let d = parse_game_data(&s).unwrap();
    assert_eq!(d.game, "pokerlobbyjoin");
    assert_eq!(d.game_id, id);
    assert!(parse_game_data("nounderscore").is_none());
    assert!(parse_game_data("poker_xyz").is_none());
    // the name ends at the first underscore
    let d = parse_game_data("a_b_c").is_none();
    assert!(d);
    let d = parse_game_data("a__1").is_none();
    assert!(d);
    assert_eq!(interaction_target(&s), InteractionTarget::LobbyJoin(id));
    assert_eq!(interaction_target("pokerlobbyleave_abc"), InteractionTarget::LobbyLeave(id));
    assert_eq!(interaction_target("coinflip_abc"), InteractionTarget::Other);
    assert_eq!(interaction_target("pokerlobbyleave"), InteractionTarget::Other);
}

#[test]
fn mentions() {
    // the mention comes from serenity, through the lobby's player lines
    assert_eq!(get_formatted_player(&InviteeStatus { id: 42, funds: None }), "\u{274c}<@42>\n");
    assert_eq!(
        get_formatted_player(&InviteeStatus { id: 18446744073709551615, funds: None }),
        "\u{274c}<@18446744073709551615>\n"
    );
}

#[test]
fn lobby_checks_players() {
    let l = PokerLobby::new(vec![1, 2, 1], 5);
    assert_eq!(l.validate(), Err(LobbyError::Duplicates));
    let l = PokerLobby::new(vec![1], 5);
    assert_eq!(l.validate(), Err(LobbyError::PlayerCount));
    let l = PokerLobby::new(vec![1, 2, 3, 4, 5, 6, 7], 5);
    assert_eq!(l.validate(), Err(LobbyError::PlayerCount));
    let l = PokerLobby::new(vec![1, 2], 5);
    assert_eq!(l.validate(), Ok(()));
    assert!(!l.can_start());
}

#[test]
fn lobby_joins_and_leaves() {
    let mut l = PokerLobby::new(vec![11, 22], 5);
    let gid = l.game_id;
    let ev = |user: u64, event: GameEvent| EventWithData { event, game_id: gid, user_id: user };
    assert_eq!(l.lobby_event(EventWithData { event: GameEvent::PokerLobbyLeave, game_id: GameId(gid.0 ^ 1), user_id: 11 }), LobbyStep::Ignored);
    assert_eq!(l.lobby_event(ev(33, GameEvent::PokerLobbyJoin { funds: 10 })), LobbyStep::NotInvited);
    assert_eq!(l.lobby_event(ev(11, GameEvent::PokerLobbyJoin { funds: 0 })), LobbyStep::NonPositiveFunds);
    assert_eq!(l.lobby_event(ev(11, GameEvent::PokerLobbyJoin { funds: 10 })), LobbyStep::CheckBalance { funds: 10 });
    assert!(!l.join(11, 10, 14));
    assert!(l.join(11, 10, 15));
    assert_eq!(l.invitees[0], InviteeStatus { id: 11, funds: Some(10) });
    assert!(!l.can_start());
    assert_eq!(l.players_text(), "\u{2705}<@11> (funds: 10 nig)\n\u{274c}<@22>\n");
    assert_eq!(l.lobby_event(ev(22, GameEvent::PokerLobbyLeave)), LobbyStep::Left);
    assert_eq!(l.invitees.len(), 1);
    assert!(l.can_start());
    assert_eq!(l.description_text(), "Ante: 5 niggapoints");
    assert_eq!(l.join_button_id(), format!("pokerlobbyjoin_{:x}", gid.0));
    assert_eq!(l.leave_button_id(), format!("pokerlobbyleave_{:x}", gid.0));
}

#[test]
fn formatted_player_lines() {
    assert_eq!(get_formatted_player(&InviteeStatus { id: 5, funds: None }), "\u{274c}<@5>\n");
    assert_eq!(get_formatted_player(&InviteeStatus { id: 5, funds: Some(-3) }), "\u{2705}<@5> (funds: -3 nig)\n");
}

#[test]
fn leaving_removes_every_entry_of_the_user() {
    let mut l = PokerLobby::new(vec![1, 2, 1, 3], 0);
    let gid = l.game_id;
    assert!(l.join(3, 7, 100));
    let step = l.lobby_event(EventWithData { event: GameEvent::PokerLobbyLeave, game_id: gid, user_id: 1 });
    assert_eq!(step, LobbyStep::Left);
    assert_eq!(l.invitees, vec![InviteeStatus { id: 2, funds: None }, InviteeStatus { id: 3, funds: Some(7) }]);
    // leaving again changes nothing
    assert_eq!(l.lobby_event(EventWithData { event: GameEvent::PokerLobbyLeave, game_id: gid, user_id: 1 }), LobbyStep::Left);
    assert_eq!(l.invitees.len(), 2);
}

#[test]
fn lobby_starts_when_all_joined_and_expires_otherwise() {
    let mut l = PokerLobby::new(vec![1, 2], 5);
    assert_eq!(l.status(false), LobbyStatus::Open);
    assert_eq!(l.status(true), LobbyStatus::Expired);
    assert!(l.join(1, 10, 100));
    assert_eq!(l.status(true), LobbyStatus::Expired);
    assert!(l.join(2, 10, 100));
    // once everybody joined the game starts, even when the time just ran out
    assert_eq!(l.status(false), LobbyStatus::Start);
    assert_eq!(l.status(true), LobbyStatus::Start);
}
