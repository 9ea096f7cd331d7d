//! The lobby of a poker game: the invitees join with their funds, or leave, until everyone is
//! ready.
use vstd::prelude::*;
use vstd::string::*;
use crate::events::GameEvent;
use crate::game_id::{EventWithData, GameId, custom_id, custom_id_text};
use crate::mention::{mention_text, user_mention};
use crate::poker_game::fits;
use crate::text::{signed_decimal_string, signed_decimal_text};

verus! {

/// An invitee, and the funds they bring once they joined.
#[derive(Clone, Copy, Debug, PartialEq, Eq, Structural)]
pub struct InviteeStatus {
    pub id: u64,
    pub funds: Option<i64>,
}

/// A poker lobby.
pub struct PokerLobby {
    pub game_id: GameId,
    pub invitees: Vec<InviteeStatus>,
    pub ante: i64,
}

/// Why a lobby cannot open.
#[derive(Clone, Copy, Debug, PartialEq, Eq, Structural)]
pub enum LobbyError {
    /// A user is invited twice.
    Duplicates,
    /// Fewer than two or more than six players.
    PlayerCount,
}

/// What an event does to the lobby.
#[derive(Clone, Copy, Debug, PartialEq, Eq, Structural)]
pub enum LobbyStep {
    /// The event is for another game, or does not concern lobbies.
    Ignored,
    /// A user who was not invited tried to join.
    NotInvited,
    /// An invitee tried to join with no funds or less.
    NonPositiveFunds,
    /// An invitee wants to join with `funds`: their balance decides.
    CheckBalance { funds: i64 },
    /// The user left the lobby.
    Left,
}

/// Where a lobby stands at a tick.
#[derive(Clone, Copy, Debug, PartialEq, Eq, Structural)]
pub enum LobbyStatus {
    /// Every invitee joined: the game starts.
    Start,
    /// The time to join ran out before everybody joined: the lobby closes.
    Expired,
    /// Still waiting for invitees to join.
    Open,
}

/// Every invitee joined, bringing funds.
pub open spec fn all_joined(inv: Seq<InviteeStatus>) -> bool {
    forall|i: int| 0 <= i < inv.len() ==> (#[trigger] inv[i]).funds is Some
}

/// Some user appears twice.
pub open spec fn has_duplicates(inv: Seq<InviteeStatus>) -> bool {
    exists|i: int, j: int| 0 <= i < j < inv.len() && #[trigger] inv[i].id == #[trigger] inv[j].id
}

/// The position of the first invitee with this id, or -1.
pub open spec fn invitee_index(inv: Seq<InviteeStatus>, id: u64) -> int
    decreases inv.len(),
{
    if inv.len() == 0 {
        -1
    } else if inv[0].id == id {
        0
    } else {
        let r = invitee_index(inv.drop_first(), id);
        if r < 0 {
            -1
        } else {
            r + 1
        }
    }
}

/// The line for an invitee in the lobby: a check mark and their funds once they joined, a
/// cross before.
pub open spec fn formatted_player_text(invitee: InviteeStatus) -> Seq<char> {
    match invitee.funds {
        Some(funds) => seq!['\u{2705}'] + mention_text(invitee.id) + seq![' ', '(', 'f', 'u', 'n', 'd', 's', ':', ' ']
            + signed_decimal_text(funds as int) + seq![' ', 'n', 'i', 'g', ')', '\n'],
        None => seq!['\u{274c}'] + mention_text(invitee.id) + seq!['\n'],
    }
}

/// The lines of all invitees, one after the other.
pub open spec fn players_text_of(inv: Seq<InviteeStatus>) -> Seq<char>
    decreases inv.len(),
{
    if inv.len() == 0 {
        Seq::empty()
    } else {
        players_text_of(inv.drop_last()) + formatted_player_text(inv.last())
    }
}

/// The line for an invitee in the lobby.
pub fn get_formatted_player(invitee: &InviteeStatus) -> (s: String)
    requires
        invitee.id != 0,
    ensures
        s@ == formatted_player_text(*invitee),
{
    match invitee.funds {
        Some(funds) => {
            proof {
                reveal_strlit("\u{2705}");
                reveal_strlit(" (funds: ");
                reveal_strlit(" nig)\n");
            }
            let mut s = String::from_str("\u{2705}");
            let m = user_mention(invitee.id);
            s.append(m.as_str());
            s.append(" (funds: ");
            let f = signed_decimal_string(funds);
            s.append(f.as_str());
            s.append(" nig)\n");
            s
        },
        None => {
            proof {
                reveal_strlit("\u{274c}");
                reveal_strlit("\n");
            }
            let mut s = String::from_str("\u{274c}");
            let m = user_mention(invitee.id);
            s.append(m.as_str());
            s.append("\n");
            s
        },
    }
}

impl PokerLobby {
    /// A lobby for the invitees, none of whom has joined yet, with a fresh game id.
    pub fn new(invitees: Vec<u64>, ante: i64) -> (l: PokerLobby)
        ensures
            l.ante == ante,
            l.invitees@.len() == invitees@.len(),
            forall|i: int| 0 <= i < invitees@.len() ==> #[trigger] l.invitees@[i] == (InviteeStatus {
                id: invitees@[i],
                funds: None,
            }),
    {
        let mut out: Vec<InviteeStatus> = Vec::new();
        let mut i: usize = 0;
        while i < invitees.len()
            invariant
                i <= invitees@.len(),
                out@.len() == i,
                forall|k: int| 0 <= k < i ==> #[trigger] out@[k] == (InviteeStatus { id: invitees@[k], funds: None }),
            decreases invitees@.len() - i,
        {
            out.push(InviteeStatus { id: invitees[i], funds: None });
            i = i + 1;
        }
        PokerLobby { game_id: GameId::new(), invitees: out, ante }
    }

    /// A lobby opens only without duplicate invitees, and with two to six of them.
    pub fn validate(&self) -> (r: Result<(), LobbyError>)
        ensures
            has_duplicates(self.invitees@) ==> r == Err::<(), LobbyError>(LobbyError::Duplicates),
            !has_duplicates(self.invitees@) && (self.invitees@.len() < 2 || self.invitees@.len() > 6) ==> r == Err::<
                (),
                LobbyError,
            >(LobbyError::PlayerCount),
            !has_duplicates(self.invitees@) && 2 <= self.invitees@.len() <= 6 ==> r == Ok::<(), LobbyError>(()),
    {
        let n = self.invitees.len();
        let mut i: usize = 0;
        while i < n
            invariant
                n == self.invitees@.len(),
                i <= n,
                forall|a: int, b: int| 0 <= a < i && a < b < n ==> self.invitees@[a].id != self.invitees@[b].id,
            decreases n - i,
        {
            let mut j: usize = i + 1;
            while j < n
                invariant
                    n == self.invitees@.len(),
                    i < n,
                    i + 1 <= j <= n,
                    forall|b: int| i < b < j ==> self.invitees@[i as int].id != self.invitees@[b].id,
                decreases n - j,
            {
                if self.invitees[i].id == self.invitees[j].id {
                    assert(has_duplicates(self.invitees@) ) by {
                        assert(self.invitees@[i as int].id == self.invitees@[j as int].id);
                    }
                    return Err(LobbyError::Duplicates);
                }
                j = j + 1;
            }
            i = i + 1;
        }
        if n < 2 || n > 6 {
            return Err(LobbyError::PlayerCount);
        }
        Ok(())
    }

    /// The game can start once every invitee joined.
    pub fn can_start(&self) -> (b: bool)
        ensures
            b == all_joined(self.invitees@),
    {
        let mut i: usize = 0;
        while i < self.invitees.len()
            invariant
                i <= self.invitees@.len(),
                forall|k: int| 0 <= k < i ==> (#[trigger] self.invitees@[k]).funds is Some,
            decreases self.invitees@.len() - i,
        {
            if self.invitees[i].funds.is_none() {
                return false;
            }
            i = i + 1;
        }
        true
    }

    /// Where the lobby stands, given whether its time to join ran out: it starts once every
    /// invitee joined, closes when the time ran out before that, and stays open otherwise.
    pub fn status(&self, expired: bool) -> (st: LobbyStatus)
        ensures
            st == if all_joined(self.invitees@) {
                LobbyStatus::Start
            } else if expired {
                LobbyStatus::Expired
            } else {
                LobbyStatus::Open
            },
    {
        if self.can_start() {
            LobbyStatus::Start
        } else if expired {
            LobbyStatus::Expired
        } else {
            LobbyStatus::Open
        }
    }

    /// The position of the first invitee with this id.
    fn find_invitee(&self, id: u64) -> (r: Option<usize>)
        ensures
            match r {
                Some(i) => i == invitee_index(self.invitees@, id) && 0 <= i < self.invitees@.len(),
                None => invitee_index(self.invitees@, id) == -1,
            },
    {
        let mut i: usize = 0;
        while i < self.invitees.len()
            invariant
                i <= self.invitees@.len(),
                forall|k: int| 0 <= k < i ==> (#[trigger] self.invitees@[k]).id != id,
            decreases self.invitees@.len() - i,
        {
            if self.invitees[i].id == id {
                proof { lemma_invitee_index(self.invitees@, id, i as int); }
                return Some(i);
            }
            i = i + 1;
        }
        proof { lemma_invitee_index(self.invitees@, id, i as int); }
        None
    }

    /// What an event does to the lobby. Events of other games are ignored. A user who leaves is
    /// removed (every entry with their id). A join by someone not invited, or with no funds,
    /// is refused; otherwise their balance decides. Other events are ignored.
    pub fn lobby_event(&mut self, ev: EventWithData) -> (step: LobbyStep)
        ensures
            final(self).game_id == old(self).game_id,
            final(self).ante == old(self).ante,
            ev.game_id != old(self).game_id ==> step == LobbyStep::Ignored && final(self).invitees@ == old(self).invitees@,
            ev.game_id == old(self).game_id ==> match ev.event {
                GameEvent::PokerLobbyLeave => step == LobbyStep::Left && final(self).invitees@ == after_leave(
                    old(self).invitees@,
                    ev.user_id,
                ),
                GameEvent::PokerLobbyJoin { funds } => final(self).invitees@ == old(self).invitees@ && step == (if invitee_index(
                    old(self).invitees@,
                    ev.user_id,
                ) < 0 {
                    LobbyStep::NotInvited
                } else if funds <= 0 {
                    LobbyStep::NonPositiveFunds
                } else {
                    LobbyStep::CheckBalance { funds }
                }),
                _ => step == LobbyStep::Ignored && final(self).invitees@ == old(self).invitees@,
            },
    {
        if ev.game_id != self.game_id {
            return LobbyStep::Ignored;
        }
        match ev.event {
            GameEvent::PokerLobbyJoin { funds } => {
                match self.find_invitee(ev.user_id) {
                    None => LobbyStep::NotInvited,
                    Some(_) => {
                        if funds <= 0 {
                            LobbyStep::NonPositiveFunds
                        } else {
                            LobbyStep::CheckBalance { funds }
                        }
                    },
                }
            },
            GameEvent::PokerLobbyLeave => {
                let ghost pred = |i: InviteeStatus| i.id != ev.user_id;
                let mut kept: Vec<InviteeStatus> = Vec::new();
                let mut k: usize = 0;
                while k < self.invitees.len()
                    invariant
                        k <= self.invitees@.len(),
                        self.invitees@ == old(self).invitees@,
                        pred == (|i: InviteeStatus| i.id != ev.user_id),
                        kept@ == self.invitees@.take(k as int).filter(pred),
                    decreases self.invitees@.len() - k,
                {
                    let inv = self.invitees[k];
                    let ghost t = self.invitees@.take(k + 1);
                    proof {
                        assert(t =~= self.invitees@.take(k as int).push(inv));
                        self.invitees@.take(k as int).lemma_filter_push(inv, pred);
                    }
                    if inv.id != ev.user_id {
                        kept.push(inv);
                    }
                    k = k + 1;
                }
                assert(self.invitees@.take(self.invitees@.len() as int) =~= self.invitees@);
                self.invitees = kept;
                LobbyStep::Left
            },
            _ => LobbyStep::Ignored,
        }
    }

    /// An invitee with `funds` and balance `balance` joins when the balance covers the ante and
    /// the funds: their entry records the funds. Returns whether they joined.
    pub fn join(&mut self, user: u64, funds: i64, balance: i64) -> (joined: bool)
        requires
            fits(old(self).ante + funds),
        ensures
            final(self).game_id == old(self).game_id,
            final(self).ante == old(self).ante,
            joined == (invitee_index(old(self).invitees@, user) >= 0 && balance >= old(self).ante + funds),
            joined ==> final(self).invitees@ == old(self).invitees@.update(
                invitee_index(old(self).invitees@, user),
                InviteeStatus { id: user, funds: Some(funds) },
            ),
            !joined ==> final(self).invitees@ == old(self).invitees@,
    {
        match self.find_invitee(user) {
            None => false,
            Some(i) => {
                if balance < self.ante + funds {
                    return false;
                }
                proof { lemma_invitee_index_found(self.invitees@, user); }
                self.invitees.set(i, InviteeStatus { id: user, funds: Some(funds) });
                true
            },
        }
    }

    /// The lines of all invitees, for the lobby's "Players:" field.
    pub fn players_text(&self) -> (s: String)
        requires
            forall|i: int| 0 <= i < self.invitees@.len() ==> (#[trigger] self.invitees@[i]).id != 0,
        ensures
            s@ == players_text_of(self.invitees@),
    {
        let mut s = String::new();
        let mut i: usize = 0;
        while i < self.invitees.len()
            invariant
                i <= self.invitees@.len(),
                forall|k: int| 0 <= k < self.invitees@.len() ==> (#[trigger] self.invitees@[k]).id != 0,
                s@ == players_text_of(self.invitees@.take(i as int)),
            decreases self.invitees@.len() - i,
        {
            proof {
                assert(self.invitees@.take(i + 1).drop_last() =~= self.invitees@.take(i as int));
            }
            let line = get_formatted_player(&self.invitees[i]);
            s.append(line.as_str());
            i = i + 1;
        }
        assert(self.invitees@.take(self.invitees@.len() as int) =~= self.invitees@);
        s
    }

    /// The lobby's description: "Ante: <ante> niggapoints".
    pub fn description_text(&self) -> (s: String)
        ensures
            s@ == seq!['A', 'n', 't', 'e', ':', ' '] + signed_decimal_text(self.ante as int) + seq![' ', 'n', 'i', 'g', 'g', 'a', 'p', 'o', 'i', 'n', 't', 's'],
    {
        proof {
            reveal_strlit("Ante: ");
            reveal_strlit(" niggapoints");
        }
        let mut s = String::from_str("Ante: ");
        let a = signed_decimal_string(self.ante);
        s.append(a.as_str());
        s.append(" niggapoints");
        s
    }

    /// The id of the lobby's join button.
    pub fn join_button_id(&self) -> (s: String)
        ensures
            s@ == custom_id_text(seq!['p', 'o', 'k', 'e', 'r', 'l', 'o', 'b', 'b', 'y', 'j', 'o', 'i', 'n'], self.game_id.0),
    {
        proof { reveal_strlit("pokerlobbyjoin"); }
        custom_id("pokerlobbyjoin", self.game_id)
    }

    /// The id of the lobby's leave button.
    pub fn leave_button_id(&self) -> (s: String)
        ensures
            s@ == custom_id_text(seq!['p', 'o', 'k', 'e', 'r', 'l', 'o', 'b', 'b', 'y', 'l', 'e', 'a', 'v', 'e'], self.game_id.0),
    {
        proof { reveal_strlit("pokerlobbyleave"); }
        custom_id("pokerlobbyleave", self.game_id)
    }
}

proof fn lemma_invitee_index(inv: Seq<InviteeStatus>, id: u64, i: int)
    requires
        0 <= i <= inv.len(),
        forall|k: int| 0 <= k < i ==> (#[trigger] inv[k]).id != id,
        i < inv.len() ==> inv[i].id == id,
    ensures
        invitee_index(inv, id) == if i == inv.len() { -1 } else { i },
    decreases i,
{
    if inv.len() > 0 && i > 0 {
        assert forall|k: int| 0 <= k < i - 1 implies (#[trigger] inv.drop_first()[k]).id != id by {
            assert(inv.drop_first()[k] == inv[k + 1]);
        }
        lemma_invitee_index(inv.drop_first(), id, i - 1);
    }
}

proof fn lemma_invitee_index_found(inv: Seq<InviteeStatus>, id: u64)
    requires
        invitee_index(inv, id) >= 0,
    ensures
        invitee_index(inv, id) < inv.len(),
        inv[invitee_index(inv, id)].id == id,
    decreases inv.len(),
{
    if inv.len() > 0 && inv[0].id != id {
        lemma_invitee_index_found(inv.drop_first(), id);
    }
}


/// The invitees of a lobby after `user` left it.
pub open spec fn after_leave(inv: Seq<InviteeStatus>, user: u64) -> Seq<InviteeStatus> {
    inv.filter(|i: InviteeStatus| i.id != user)
}

/// A user who leaves a lobby is no longer in it; every other invitee stays, with what they
/// brought, and nobody new appears.
pub proof fn lemma_leave_removes_user(inv: Seq<InviteeStatus>, user: u64)
    ensures
        forall|k: int| 0 <= k < after_leave(inv, user).len() ==> #[trigger] after_leave(inv, user)[k].id != user,
        forall|k: int| 0 <= k < after_leave(inv, user).len() ==> inv.contains(#[trigger] after_leave(inv, user)[k]),
        forall|k: int| 0 <= k < inv.len() && inv[k].id != user ==> after_leave(inv, user).contains(#[trigger] inv[k]),
        after_leave(inv, user).len() <= inv.len(),
{
    broadcast use vstd::seq_lib::group_filter_ensures;
    let pred = |i: InviteeStatus| i.id != user;
    assert forall|k: int| 0 <= k < after_leave(inv, user).len() implies inv.contains(#[trigger] after_leave(inv, user)[k]) by {
        assert(inv.filter(pred).contains(inv.filter(pred)[k]));
        inv.lemma_filter_contains_rev(pred, inv.filter(pred)[k]);
    }
    assert forall|k: int| 0 <= k < after_leave(inv, user).len() implies #[trigger] after_leave(inv, user)[k].id != user by {
        assert(pred(inv.filter(pred)[k]));
    }
}

} // verus!
