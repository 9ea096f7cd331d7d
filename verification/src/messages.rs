//! What the bot does with a chat message and with a click on one of its buttons or forms.
use vstd::prelude::*;
use vstd::string::*;
use crate::game_id::{GameId, game_data_of, parse_game_data};
use crate::text::{contains, contains_text, text_equals};

verus! {

/// How many matches of the regular expression `pattern` the `regex` crate finds in `text`
/// (leftmost-first, without overlaps), or `None` when the pattern does not compile.
pub uninterp spec fn regex_match_count(pattern: Seq<char>, text: Seq<char>) -> Option<usize>;

/// The lower-case form of `text`, as `str::to_lowercase` gives it.
pub uninterp spec fn lowercase(text: Seq<char>) -> Seq<char>;

/// Compiles `pattern` with `regex::Regex::new` and counts the matches of `find_iter` in `text`.
/// Claimed of it: the result is a function of the pattern and the text alone, `None` exactly
/// when the pattern does not compile. The count itself is left to the name.
#[verifier::external_body]
fn count_pattern_matches(pattern: &str, text: &str) -> (r: Option<usize>)
    ensures
        r == regex_match_count(pattern@, text@),
{
    regex::Regex::new(pattern).ok().map(|re| re.find_iter(text).count())
}

/// The lower-case form of `text`, from `str::to_lowercase`. Claimed of it: the result is a
/// function of the text alone; which characters map to which is left to the name.
#[verifier::external_body]
fn to_lowercase(text: &str) -> (r: String)
    ensures
        r@ == lowercase(text@),
{
    text.to_lowercase()
}

/// What the bot does about a message.
#[derive(Clone, Copy, Debug, PartialEq, Eq, Structural)]
pub struct MessageActions {
    /// Points to add to the author: one per match of the counted pattern.
    pub increment: Option<i64>,
    /// Answer with the "ohm" picture.
    pub send_ohm: bool,
    /// Answer "hi".
    pub say_hi: bool,
}

/// A count as an `i64`, the largest `i64` when it does not fit.
pub open spec fn saturating_count(c: usize) -> i64 {
    if c > i64::MAX {
        i64::MAX
    } else {
        c as i64
    }
}

/// What the bot does about a message with this content, counting the matches of `pattern`:
/// `None` when the pattern does not compile. Every author, bots too, gains a point per match.
/// Messages of bots get no answer; others get the picture when their lower-case form contains
/// "ohm", and "hi" when they are exactly "say hi".
pub fn on_message(pattern: &str, content: &str, author_is_bot: bool) -> (r: Option<MessageActions>)
    ensures
        regex_match_count(pattern@, content@) is None ==> r is None,
        regex_match_count(pattern@, content@) matches Some(c) ==> r == Some(MessageActions {
            increment: if c > 0 { Some(saturating_count(c)) } else { None },
            send_ohm: !author_is_bot && contains_text(lowercase(content@), seq!['o', 'h', 'm']),
            say_hi: !author_is_bot && content@ == seq!['s', 'a', 'y', ' ', 'h', 'i'],
        }),
{
    let count = match count_pattern_matches(pattern, content) {
        None => return None,
        Some(c) => c,
    };
    let increment = if count > 0 {
        let c = count as u64;
        if c > 9223372036854775807u64 {
            Some(9223372036854775807i64)
        } else {
            Some(c as i64)
        }
    } else {
        None
    };
    if author_is_bot {
        return Some(MessageActions { increment, send_ohm: false, say_hi: false });
    }
    proof {
        reveal_strlit("ohm");
        reveal_strlit("say hi");
        assert("ohm"@ =~= seq!['o', 'h', 'm']);
        assert("say hi"@ =~= seq!['s', 'a', 'y', ' ', 'h', 'i']);
    }
    let lower = to_lowercase(content);
    let send_ohm = contains(lower.as_str(), "ohm");
    let say_hi = text_equals(content, "say hi");
    Some(MessageActions { increment, send_ohm, say_hi })
}

/// What a button or form of the bot belongs to.
#[derive(Clone, Copy, Debug, PartialEq, Eq, Structural)]
pub enum InteractionTarget {
    /// The join button or form of a poker lobby.
    LobbyJoin(GameId),
    /// The leave button of a poker lobby.
    LobbyLeave(GameId),
    /// Nothing the bot handles.
    Other,
}

/// The target of a button or form id `<game>_<hex id>`.
pub open spec fn interaction_target_of(custom_id: Seq<char>) -> InteractionTarget {
    match game_data_of(custom_id) {
        None => InteractionTarget::Other,
        Some((name, v)) => if name == seq!['p', 'o', 'k', 'e', 'r', 'l', 'o', 'b', 'b', 'y', 'j', 'o', 'i', 'n'] {
            InteractionTarget::LobbyJoin(GameId(v))
        } else if name == seq!['p', 'o', 'k', 'e', 'r', 'l', 'o', 'b', 'b', 'y', 'l', 'e', 'a', 'v', 'e'] {
            InteractionTarget::LobbyLeave(GameId(v))
        } else {
            InteractionTarget::Other
        },
    }
}

/// What a button or form id belongs to.
pub fn interaction_target(custom_id: &str) -> (t: InteractionTarget)
    ensures
        t == interaction_target_of(custom_id@),
{
    match parse_game_data(custom_id) {
        None => InteractionTarget::Other,
        Some(data) => {
            proof {
                reveal_strlit("pokerlobbyjoin");
                reveal_strlit("pokerlobbyleave");
                assert("pokerlobbyjoin"@ =~= seq!['p', 'o', 'k', 'e', 'r', 'l', 'o', 'b', 'b', 'y', 'j', 'o', 'i', 'n']);
                assert("pokerlobbyleave"@ =~= seq!['p', 'o', 'k', 'e', 'r', 'l', 'o', 'b', 'b', 'y', 'l', 'e', 'a', 'v', 'e']);
            }
            if text_equals(data.game.as_str(), "pokerlobbyjoin") {
                InteractionTarget::LobbyJoin(data.game_id)
            } else if text_equals(data.game.as_str(), "pokerlobbyleave") {
                InteractionTarget::LobbyLeave(data.game_id)
            } else {
                InteractionTarget::Other
            }
        },
    }
}

/// The value of the decimal digits `d`, read from left to right.
pub open spec fn decimal_value(d: Seq<char>) -> int
    decreases d.len(),
{
    if d.len() == 0 {
        0
    } else {
        decimal_value(d.drop_last()) * 10 + (d.last() as int - '0' as int)
    }
}

/// Every character of `d` is a decimal digit.
pub open spec fn all_decimal_digits(d: Seq<char>) -> bool {
    forall|i: int| 0 <= i < d.len() ==> '0' <= #[trigger] d[i] <= '9'
}

/// A text read as an `i64` in base 10: an optional sign and one digit or more; `None` when it
/// is anything else or out of range.
pub open spec fn parse_i64_text(s: Seq<char>) -> Option<i64> {
    if s.len() == 0 {
        None
    } else {
        let neg = s[0] == '-';
        let d = if s[0] == '-' || s[0] == '+' { s.drop_first() } else { s };
        let v = if neg { -decimal_value(d) } else { decimal_value(d) };
        if d.len() == 0 || !all_decimal_digits(d) || v < i64::MIN || v > i64::MAX {
            None
        } else {
            Some(v as i64)
        }
    }
}

/// The value of decimal digits is never negative.
pub proof fn lemma_decimal_value_nonneg(d: Seq<char>)
    requires
        all_decimal_digits(d),
    ensures
        decimal_value(d) >= 0,
    decreases d.len(),
{
    if d.len() > 0 {
        assert(all_decimal_digits(d.drop_last())) by {
            assert forall|i: int| 0 <= i < d.drop_last().len() implies '0' <= #[trigger] d.drop_last()[i] <= '9' by {
                assert(d.drop_last()[i] == d[i]);
            }
        }
        lemma_decimal_value_nonneg(d.drop_last());
        assert('0' <= d[d.len() - 1] <= '9');
    }
}

/// The amount a player typed into the lobby's form, read as an `i64`.
pub fn parse_i64(s: &str) -> (r: Option<i64>)
    ensures
        r == parse_i64_text(s@),
{
    let n = s.unicode_len();
    if n == 0 {
        return None;
    }
    let first = s.get_char(0);
    let neg = first == '-';
    let start: usize = if first == '-' || first == '+' { 1 } else { 0 };
    let ghost d = if first == '-' || first == '+' { s@.drop_first() } else { s@ };
    if start == n {
        assert(d.len() == 0);
        return None;
    }
    let mut acc: i128 = 0;
    let mut big = false;
    let mut k: usize = start;
    while k < n
        invariant
            n == s@.len(),
            n > 0,
            start <= k <= n,
            d == (if s@[0] == '-' || s@[0] == '+' { s@.drop_first() } else { s@ }),
            d.len() == n - start,
            forall|j: int| 0 <= j < d.len() ==> d[j] == s@[j + start],
            all_decimal_digits(d.take(k - start)),
            !big ==> acc == decimal_value(d.take(k - start)) && 0 <= acc <= 10000000000000000000,
            big ==> decimal_value(d.take(k - start)) > 10000000000000000000,
        decreases n - k,
    {
        let c = s.get_char(k);
        let ghost t = d.take(k - start + 1);
        assert(t.drop_last() =~= d.take(k - start));
        assert(t.last() == c);
        if c < '0' || c > '9' {
            proof {
                assert(!all_decimal_digits(d)) by {
                    assert(d[k - start] == c);
                }
            }
            return None;
        }
        proof {
            lemma_decimal_value_nonneg(d.take(k - start));
            assert forall|i: int| 0 <= i < t.len() implies '0' <= #[trigger] t[i] <= '9' by {
                if i < t.len() - 1 {
                    assert(t[i] == d.take(k - start)[i]);
                }
            }
        }
        if !big {
            acc = acc * 10 + (c as u32 - '0' as u32) as i128;
            if acc > 10000000000000000000 {
                big = true;
            }
        }
        k = k + 1;
    }
    assert(d.take(d.len() as int) =~= d);
    if big {
        proof { lemma_decimal_value_nonneg(d); }
        return None;
    }
    let v: i128 = if neg { -acc } else { acc };
    if v < -9223372036854775808i128 || v > 9223372036854775807i128 {
        return None;
    }
    Some(v as i64)
}

} // verus!
