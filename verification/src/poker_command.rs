//! The text form of the poker command: `send <ante> <funds> <mentions..>`, `accept <mention>
//! <funds>`, `cancel <mention>`, `call`, `raise <amount>`, `fold` and `check`, read into what
//! the bot does.
use vstd::prelude::*;
use vstd::string::*;
use crate::messages::{all_decimal_digits, decimal_value, lemma_decimal_value_nonneg};
use crate::text::{decimal_text, hex_digit_char, text_equals};
use crate::mention::mention_text;

verus! {

/// A text read as a `u64` in base 10, as `str::parse::<u64>` reads it: an optional `+` and one
/// digit or more; `None` when it is anything else or above `u64::MAX`.
pub open spec fn parse_u64_text(s: Seq<char>) -> Option<u64> {
    let d = if s.len() > 0 && s[0] == '+' { s.drop_first() } else { s };
    if d.len() == 0 || !all_decimal_digits(d) || decimal_value(d) > u64::MAX {
        None
    } else {
        Some(decimal_value(d) as u64)
    }
}

/// A number typed after the command, read as a `u64`.
pub fn parse_u64(s: &str) -> (r: Option<u64>)
    ensures
        r == parse_u64_text(s@),
{
    let n = s.unicode_len();
    let plus = n > 0 && s.get_char(0) == '+';
    let start: usize = if plus { 1 } else { 0 };
    let ghost d = if s@.len() > 0 && s@[0] == '+' { s@.drop_first() } else { s@ };
    if start == n {
        assert(d.len() == 0);
        return None;
    }
    let mut acc: u128 = 0;
    let mut big = false;
    let mut k: usize = start;
    while k < n
        invariant
            n == s@.len(),
            start <= k <= n,
            d == (if s@.len() > 0 && s@[0] == '+' { s@.drop_first() } else { s@ }),
            d.len() == n - start,
            forall|j: int| 0 <= j < d.len() ==> d[j] == s@[j + start],
            all_decimal_digits(d.take(k - start)),
            !big ==> acc == decimal_value(d.take(k - start)) && acc <= 18446744073709551615,
            big ==> decimal_value(d.take(k - start)) > 18446744073709551615,
        decreases n - k,
    {
        let c = s.get_char(k);
        let ghost t = d.take(k - start + 1);
        assert(t.drop_last() =~= d.take(k - start));
        assert(t.last() == c);
        if c < '0' || c > '9' {
            proof {
                assert(!all_decimal_digits(d)) by {
                    assert(d[k - start] == c);
                }
            }
            return None;
        }
        proof {
            lemma_decimal_value_nonneg(d.take(k - start));
            assert forall|i: int| 0 <= i < t.len() implies '0' <= #[trigger] t[i] <= '9' by {
                if i < t.len() - 1 {
                    assert(t[i] == d.take(k - start)[i]);
                }
            }
        }
        if !big {
            acc = acc * 10 + (c as u32 - '0' as u32) as u128;
            if acc > 18446744073709551615 {
                big = true;
            }
        }
        k = k + 1;
    }
    assert(d.take(d.len() as int) =~= d);
    if big {
        return None;
    }
    Some(acc as u64)
}

/// Whether serenity's `parse_user_mention` would cut `s` inside a character: `s` starts with
/// `<@` and ends with a character that takes more than one byte.
pub open spec fn mention_cut_inside_char(s: Seq<char>) -> bool {
    s.len() >= 3 && s[0] == '<' && s[1] == '@' && (s.last() as int) >= 128
}

/// The user id in a mention `<@id>` or `<@!id>`, as serenity reads it: at least four
/// characters, `<@` and an optional `!` before the id, one character after it (not checked),
/// and an id that reads as a nonzero `u64`.
pub open spec fn mention_id_of(s: Seq<char>) -> Option<u64> {
    if s.len() >= 4 && s[0] == '<' && s[1] == '@' {
        let digits = if s[2] == '!' { s.subrange(3, s.len() - 1) } else { s.subrange(2, s.len() - 1) };
        match parse_u64_text(digits) {
            Some(v) => if v == 0 { None } else { Some(v) },
            None => None,
        }
    } else {
        None
    }
}

/// The id in a user mention, from `serenity::utils::parse_user_mention`. Claimed of it, as its
/// source reads: texts shorter than four bytes or not starting with `<@` give `None`; else
/// the text between `<@` (or `<@!`) and the last byte is read as a nonzero `u64`. Its byte
/// offsets agree with character offsets here, since `requires` keeps a multi-byte last
/// character out (on which it would panic).
#[verifier::external_body]
fn parse_mention(s: &str) -> (r: Option<u64>)
    requires
        !mention_cut_inside_char(s@),
    ensures
        r == mention_id_of(s@),
{
    serenity::utils::parse_user_mention(s).map(|id| id.get())
}

/// The user a text names: `None` when it is no mention, or when it ends with a character that
/// takes more than one byte after `<@`.
pub open spec fn resolved_user(s: Seq<char>) -> Option<u64> {
    if mention_cut_inside_char(s) {
        None
    } else {
        mention_id_of(s)
    }
}

/// The user that a mention in a command names.
pub fn resolve_user_mention(s: &str) -> (r: Option<u64>)
    ensures
        r == resolved_user(s@),
{
    let n = s.unicode_len();
    if n >= 3 && s.get_char(0) == '<' && s.get_char(1) == '@' && (s.get_char(n - 1) as u32) >= 128 {
        return None;
    }
    parse_mention(s)
}


/// Why a poker command was refused.
#[derive(Clone, Copy, Debug, PartialEq, Eq, Structural)]
pub enum PokerCommandError {
    /// The command has the wrong number of words.
    InvalidArgCount,
    /// An amount is no number that fits in a `u64`.
    IntParsing,
    /// An amount does not fit in an `i64`.
    SignedInt,
    /// A word that should name a user is no mention.
    InvalidUser,
}

/// What a poker command asks for.
#[derive(Clone, Debug, PartialEq, Eq)]
#[allow(inconsistent_fields)]
pub enum PokerCommand {
    /// `send` naming nobody to play against: the bot answers that two players are needed.
    NotEnoughPlayers,
    /// `send` naming more than five opponents: the bot answers that a table seats six at most.
    TooManyPlayers,
    /// `send`: a table for `invitees` (the users named, then the author) with this ante, the
    /// author bringing `funds`.
    Send { ante: i64, funds: i64, invitees: Vec<u64> },
    /// `accept`: the author takes the invite of `inviter`, bringing `funds`.
    Accept { invitee: u64, inviter: u64, funds: u64 },
    /// `cancel`: the author turns down the invite of `inviter`.
    Cancel { invitee: u64, inviter: u64 },
    Call { caller: u64 },
    Raise { raiser: u64, amount: u64 },
    Fold { folder: u64 },
    Check { checker: u64 },
    /// Any other first word: nothing happens.
    Unknown,
}

/// A poker command as a mathematical value.
#[allow(inconsistent_fields)]
pub enum PokerCommandView {
    NotEnoughPlayers,
    TooManyPlayers,
    Send { ante: i64, funds: i64, invitees: Seq<u64> },
    Accept { invitee: u64, inviter: u64, funds: u64 },
    Cancel { invitee: u64, inviter: u64 },
    Call { caller: u64 },
    Raise { raiser: u64, amount: u64 },
    Fold { folder: u64 },
    Check { checker: u64 },
    Unknown,
}

impl View for PokerCommand {
    type V = PokerCommandView;

    open spec fn view(&self) -> PokerCommandView {
        match self {
            PokerCommand::NotEnoughPlayers => PokerCommandView::NotEnoughPlayers,
            PokerCommand::TooManyPlayers => PokerCommandView::TooManyPlayers,
            PokerCommand::Send { ante, funds, invitees } => PokerCommandView::Send { ante: *ante, funds: *funds, invitees: invitees@ },
            PokerCommand::Accept { invitee, inviter, funds } => PokerCommandView::Accept { invitee: *invitee, inviter: *inviter, funds: *funds },
            PokerCommand::Cancel { invitee, inviter } => PokerCommandView::Cancel { invitee: *invitee, inviter: *inviter },
            PokerCommand::Call { caller } => PokerCommandView::Call { caller: *caller },
            PokerCommand::Raise { raiser, amount } => PokerCommandView::Raise { raiser: *raiser, amount: *amount },
            PokerCommand::Fold { folder } => PokerCommandView::Fold { folder: *folder },
            PokerCommand::Check { checker } => PokerCommandView::Check { checker: *checker },
            PokerCommand::Unknown => PokerCommandView::Unknown,
        }
    }
}

/// The words of a command as texts.
pub open spec fn texts(args: Seq<String>) -> Seq<Seq<char>> {
    Seq::new(args.len(), |i: int| args[i]@)
}

/// The users that every text of `s` names, in order; `None` when one of them names nobody.
pub open spec fn mentions_of(s: Seq<Seq<char>>) -> Option<Seq<u64>>
    decreases s.len(),
{
    if s.len() == 0 {
        Some(Seq::empty())
    } else {
        match (mentions_of(s.drop_last()), resolved_user(s.last())) {
            (Some(v), Some(x)) => Some(v.push(x)),
            _ => None,
        }
    }
}

/// An amount of `send`: a `u64` that must also fit in an `i64`.
pub open spec fn signed_amount_of(s: Seq<char>) -> Result<i64, PokerCommandError> {
    match parse_u64_text(s) {
        None => Err(PokerCommandError::IntParsing),
        Some(v) => if v > i64::MAX {
            Err(PokerCommandError::SignedInt)
        } else {
            Ok(v as i64)
        },
    }
}

pub open spec fn word_send() -> Seq<char> { seq!['s', 'e', 'n', 'd'] }
pub open spec fn word_accept() -> Seq<char> { seq!['a', 'c', 'c', 'e', 'p', 't'] }
pub open spec fn word_cancel() -> Seq<char> { seq!['c', 'a', 'n', 'c', 'e', 'l'] }
pub open spec fn word_call() -> Seq<char> { seq!['c', 'a', 'l', 'l'] }
pub open spec fn word_raise() -> Seq<char> { seq!['r', 'a', 'i', 's', 'e'] }
pub open spec fn word_fold() -> Seq<char> { seq!['f', 'o', 'l', 'd'] }
pub open spec fn word_check() -> Seq<char> { seq!['c', 'h', 'e', 'c', 'k'] }

/// The most opponents a `send` may name: a table seats six players, the author among them.
pub open spec fn max_opponents() -> int { 5 }

/// What `send <ante> <funds> <mentions..>` asks for, with one to five mentions: the ante, then
/// the funds, then the mentions are read, and the first that fails decides the error.
pub open spec fn send_of(author: u64, a: Seq<Seq<char>>) -> Result<PokerCommandView, PokerCommandError> {
    match signed_amount_of(a[1]) {
        Err(e) => Err(e),
        Ok(ante) => match signed_amount_of(a[2]) {
            Err(e) => Err(e),
            Ok(funds) => match mentions_of(a.subrange(3, a.len() as int)) {
                None => Err(PokerCommandError::InvalidUser),
                Some(v) => Ok(PokerCommandView::Send { ante, funds, invitees: v.push(author) }),
            },
        },
    }
}

/// What the words `a` of a poker command by `author` ask for.
pub open spec fn command_of(author: u64, a: Seq<Seq<char>>) -> Result<PokerCommandView, PokerCommandError> {
    let w = a[0];
    if w == word_send() {
        if a.len() > 3 + max_opponents() {
            Ok(PokerCommandView::TooManyPlayers)
        } else if a.len() < 4 {
            Ok(PokerCommandView::NotEnoughPlayers)
        } else {
            send_of(author, a)
        }
    } else if w == word_accept() {
        if a.len() != 3 {
            Err(PokerCommandError::InvalidArgCount)
        } else {
            match resolved_user(a[1]) {
                None => Err(PokerCommandError::InvalidUser),
                Some(inviter) => match parse_u64_text(a[2]) {
                    None => Err(PokerCommandError::IntParsing),
                    Some(funds) => Ok(PokerCommandView::Accept { invitee: author, inviter, funds }),
                },
            }
        }
    } else if w == word_cancel() {
        if a.len() != 2 {
            Err(PokerCommandError::InvalidArgCount)
        } else {
            match resolved_user(a[1]) {
                None => Err(PokerCommandError::InvalidUser),
                Some(inviter) => Ok(PokerCommandView::Cancel { invitee: author, inviter }),
            }
        }
    } else if w == word_call() {
        if a.len() != 1 { Err(PokerCommandError::InvalidArgCount) } else { Ok(PokerCommandView::Call { caller: author }) }
    } else if w == word_raise() {
        if a.len() != 2 {
            Err(PokerCommandError::InvalidArgCount)
        } else {
            match parse_u64_text(a[1]) {
                None => Err(PokerCommandError::IntParsing),
                Some(amount) => Ok(PokerCommandView::Raise { raiser: author, amount }),
            }
        }
    } else if w == word_fold() {
        if a.len() != 1 { Err(PokerCommandError::InvalidArgCount) } else { Ok(PokerCommandView::Fold { folder: author }) }
    } else if w == word_check() {
        if a.len() != 1 { Err(PokerCommandError::InvalidArgCount) } else { Ok(PokerCommandView::Check { checker: author }) }
    } else {
        Ok(PokerCommandView::Unknown)
    }
}

/// A command or its error, as a mathematical value.
pub open spec fn command_view(r: Result<PokerCommand, PokerCommandError>) -> Result<PokerCommandView, PokerCommandError> {
    match r {
        Ok(c) => Ok(c@),
        Err(e) => Err(e),
    }
}

/// An amount of `send`, read as a `u64` that must fit in an `i64`.
fn signed_amount(s: &str) -> (r: Result<i64, PokerCommandError>)
    ensures
        r == signed_amount_of(s@),
{
    match parse_u64(s) {
        None => Err(PokerCommandError::IntParsing),
        Some(v) => if v > 9223372036854775807u64 {
            Err(PokerCommandError::SignedInt)
        } else {
            Ok(v as i64)
        },
    }
}

/// The users named by `args[from..]`, in order; `None` when one of them names nobody.
fn resolve_mentions(args: &Vec<String>, from: usize) -> (r: Option<Vec<u64>>)
    requires
        from <= args@.len(),
    ensures
        match r {
            Some(v) => mentions_of(texts(args@).subrange(from as int, args@.len() as int)) == Some(v@),
            None => mentions_of(texts(args@).subrange(from as int, args@.len() as int)) is None,
        },
{
    let ghost a = texts(args@);
    let mut v: Vec<u64> = Vec::new();
    let mut ok = true;
    let mut i: usize = from;
    assert(a.subrange(from as int, from as int) =~= Seq::<Seq<char>>::empty());
    while i < args.len()
        invariant
            from <= i <= args@.len(),
            a == texts(args@),
            ok ==> mentions_of(a.subrange(from as int, i as int)) == Some(v@),
            !ok ==> mentions_of(a.subrange(from as int, i as int)) is None,
        decreases args@.len() - i,
    {
        let x = resolve_user_mention(args[i].as_str());
        proof {
            let s = a.subrange(from as int, i + 1);
            assert(s.drop_last() =~= a.subrange(from as int, i as int));
            assert(s.last() == args@[i as int]@);
        }
        match x {
            Some(id) => {
                if ok {
                    v.push(id);
                }
            },
            None => {
                ok = false;
            },
        }
        i = i + 1;
    }
    if ok {
        Some(v)
    } else {
        None
    }
}

/// What the poker command with the words `args`, typed by `author`, asks for. The first word
/// names the command; a `send` must name one to five opponents.
pub fn parse_poker_args(author: u64, args: &Vec<String>) -> (r: Result<PokerCommand, PokerCommandError>)
    requires
        args@.len() >= 1,
    ensures
        command_view(r) == command_of(author, texts(args@)),
{
    let ghost a = texts(args@);
    let n = args.len();
    let w = args[0].as_str();
    proof {
        reveal_strlit("send");
        reveal_strlit("accept");
        reveal_strlit("cancel");
        reveal_strlit("call");
        reveal_strlit("raise");
        reveal_strlit("fold");
        reveal_strlit("check");
        assert("send"@ =~= word_send());
        assert("accept"@ =~= word_accept());
        assert("cancel"@ =~= word_cancel());
        assert("call"@ =~= word_call());
        assert("raise"@ =~= word_raise());
        assert("fold"@ =~= word_fold());
        assert("check"@ =~= word_check());
        assert(a[0] == w@);
    }
    if text_equals(w, "send") {
        return if n > 8 {
            Ok(PokerCommand::TooManyPlayers)
        } else if n < 4 {
            Ok(PokerCommand::NotEnoughPlayers)
        } else {
            assert(a[1] == args@[1]@ && a[2] == args@[2]@);
            match signed_amount(args[1].as_str()) {
                Err(e) => Err(e),
                Ok(ante) => match signed_amount(args[2].as_str()) {
                    Err(e) => Err(e),
                    Ok(funds) => match resolve_mentions(args, 3) {
                        None => Err(PokerCommandError::InvalidUser),
                        Some(v) => {
                            let mut invitees = v;
                            invitees.push(author);
                            Ok(PokerCommand::Send { ante, funds, invitees })
                        },
                    },
                },
            }
        };
    }
    let command = if text_equals(w, "accept") {
        if n != 3 {
            Err(PokerCommandError::InvalidArgCount)
        } else {
            assert(a[1] == args@[1]@ && a[2] == args@[2]@);
            match resolve_user_mention(args[1].as_str()) {
                None => Err(PokerCommandError::InvalidUser),
                Some(inviter) => match parse_u64(args[2].as_str()) {
                    None => Err(PokerCommandError::IntParsing),
                    Some(funds) => Ok(PokerCommand::Accept { invitee: author, inviter, funds }),
                },
            }
        }
    } else if text_equals(w, "cancel") {
        if n != 2 {
            Err(PokerCommandError::InvalidArgCount)
        } else {
            assert(a[1] == args@[1]@);
            match resolve_user_mention(args[1].as_str()) {
                None => Err(PokerCommandError::InvalidUser),
                Some(inviter) => Ok(PokerCommand::Cancel { invitee: author, inviter }),
            }
        }
    } else if text_equals(w, "call") {
        if n != 1 { Err(PokerCommandError::InvalidArgCount) } else { Ok(PokerCommand::Call { caller: author }) }
    } else if text_equals(w, "raise") {
        if n != 2 {
            Err(PokerCommandError::InvalidArgCount)
        } else {
            assert(a[1] == args@[1]@);
            match parse_u64(args[1].as_str()) {
                None => Err(PokerCommandError::IntParsing),
                Some(amount) => Ok(PokerCommand::Raise { raiser: author, amount }),
            }
        }
    } else if text_equals(w, "fold") {
        if n != 1 { Err(PokerCommandError::InvalidArgCount) } else { Ok(PokerCommand::Fold { folder: author }) }
    } else if text_equals(w, "check") {
        if n != 1 { Err(PokerCommandError::InvalidArgCount) } else { Ok(PokerCommand::Check { checker: author }) }
    } else {
        Ok(PokerCommand::Unknown)
    };
    command
}


/// A number written in base 10 is a nonempty run of digits whose value is the number.
proof fn lemma_decimal_text_reads_back(n: nat)
    ensures
        decimal_text(n).len() > 0,
        all_decimal_digits(decimal_text(n)),
        decimal_value(decimal_text(n)) == n,
    decreases n,
{
    if n >= 10 {
        lemma_decimal_text_reads_back(n / 10);
        let t = decimal_text(n);
        let d = (n % 10) as int;
        assert(t.drop_last() =~= decimal_text(n / 10));
        assert(t.last() == hex_digit_char(d));
        assert(hex_digit_char(d) as int - '0' as int == d);
        assert(decimal_value(t) == decimal_value(t.drop_last()) * 10 + d);
        assert((n / 10) * 10 + d == n);
        assert forall|i: int| 0 <= i < t.len() implies '0' <= #[trigger] t[i] <= '9' by {
            if i < t.len() - 1 {
                assert(t[i] == decimal_text(n / 10)[i]);
            }
        }
    } else {
        let t = decimal_text(n);
        assert(t.drop_last() =~= Seq::<char>::empty());
        assert(decimal_value(t.drop_last()) == 0);
        assert(hex_digit_char(n as int) as int - '0' as int == n);
    }
}

/// A user's mention, as the bot writes it, names that user again when a command reads it.
pub proof fn lemma_mention_reads_back(id: u64)
    requires
        id != 0,
    ensures
        resolved_user(mention_text(id)) == Some(id),
{
    let d = decimal_text(id as nat);
    lemma_decimal_text_reads_back(id as nat);
    let s = mention_text(id);
    assert(s.len() == d.len() + 3);
    assert(s[2] == d[0]);
    assert(s.subrange(2, s.len() - 1) =~= d);
    assert(s.last() == '>');
    assert(d[0] != '+');
}

} // verus!
