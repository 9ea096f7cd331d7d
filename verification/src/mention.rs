//! How the chat writes a mention of a user.
use vstd::prelude::*;
use serenity::model::mention::Mentionable;
use crate::text::decimal_text;

verus! {

/// The mention of user `id`: "<@" followed by the id in base 10 and ">".
pub open spec fn mention_text(id: u64) -> Seq<char> {
    seq!['<', '@'] + decimal_text(id as nat) + seq!['>']
}

/// The mention of a user, from serenity's `UserId::new(id).mention()` and its `Display`.
/// Claimed of it: the text is "<@", the id in base 10, and ">" (serenity's `Display` for a
/// user mention writes `<@{id}>`, and a `UserId` displays as its number). `UserId::new` panics
/// on zero, which `requires` leaves out.
#[verifier::external_body]
pub(crate) fn user_mention(id: u64) -> (s: String)
    requires
        id != 0,
    ensures
        s@ == mention_text(id),
{
    serenity::model::id::UserId::new(id).mention().to_string()
}

} // verus!
