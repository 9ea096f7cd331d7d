//! Game identifiers, and the ids of the buttons that name a game: `<game>_<id in hex>`.
use vstd::prelude::*;
use vstd::string::*;
use crate::text::{hex_digit_char, hex_text, hex_string};
use crate::random::random_u128;
use crate::events::GameEvent;

verus! {

/// The identifier of a running game.
#[derive(Clone, Copy, Debug, PartialEq, Eq, Hash, Structural)]
pub struct GameId(pub u128);

/// An event together with the game it is meant for and the user who caused it.
#[derive(Clone, Copy, Debug, PartialEq, Eq, Structural)]
pub struct EventWithData {
    pub event: GameEvent,
    pub game_id: GameId,
    pub user_id: u64,
}

/// Why a text is not a game id.
#[derive(Clone, Copy, Debug, PartialEq, Eq, Structural)]
pub enum ParseIdError {
    /// The text is empty.
    Empty,
    /// A character is not a hexadecimal digit, or a sign stands alone.
    InvalidDigit,
    /// The number does not fit in 128 bits.
    PosOverflow,
}

/// The value of a hexadecimal digit, either case; -1 for any other character.
pub open spec fn hex_digit_value(c: char) -> int {
    if '0' <= c && c <= '9' {
        c as int - '0' as int
    } else if 'a' <= c && c <= 'f' {
        c as int - 'a' as int + 10
    } else if 'A' <= c && c <= 'F' {
        c as int - 'A' as int + 10
    } else {
        -1
    }
}

/// Reading the first `k` characters of `d` as hexadecimal digits, from left to right: the first
/// character that is not a digit, or the first digit that makes the number exceed 128 bits,
/// stops the reading with that error.
pub open spec fn hex_scan(d: Seq<char>, k: int) -> Result<int, ParseIdError>
    decreases k,
{
    if k <= 0 {
        Ok(0)
    } else {
        match hex_scan(d, k - 1) {
            Err(e) => Err(e),
            Ok(acc) => {
                let v = hex_digit_value(d[k - 1]);
                if v < 0 {
                    Err(ParseIdError::InvalidDigit)
                } else if acc * 16 > u128::MAX {
                    Err(ParseIdError::PosOverflow)
                } else if acc * 16 + v > u128::MAX {
                    Err(ParseIdError::PosOverflow)
                } else {
                    Ok(acc * 16 + v)
                }
            },
        }
    }
}

/// A text read as an unsigned 128-bit number in base 16: an optional '+' and then digits.
pub open spec fn parse_hex_u128(s: Seq<char>) -> Result<u128, ParseIdError> {
    if s.len() == 0 {
        Err(ParseIdError::Empty)
    } else if (s[0] == '+' || s[0] == '-') && s.len() == 1 {
        Err(ParseIdError::InvalidDigit)
    } else {
        let d = if s[0] == '+' { s.drop_first() } else { s };
        match hex_scan(d, d.len() as int) {
            Ok(v) => Ok(v as u128),
            Err(e) => Err(e),
        }
    }
}

/// The position of the first `c` in `s`, or -1.
pub open spec fn first_index_of(s: Seq<char>, c: char) -> int
    decreases s.len(),
{
    if s.len() == 0 {
        -1
    } else if s[0] == c {
        0
    } else {
        let r = first_index_of(s.drop_first(), c);
        if r < 0 {
            -1
        } else {
            r + 1
        }
    }
}

/// The game name and game id that a button id `<name>_<hex id>` holds: the text before the
/// first underscore, and the rest read as a game id.
pub open spec fn game_data_of(s: Seq<char>) -> Option<(Seq<char>, u128)> {
    let i = first_index_of(s, '_');
    if i < 0 {
        None
    } else {
        match parse_hex_u128(s.subrange(i + 1, s.len() as int)) {
            Ok(v) => Some((s.subrange(0, i), v)),
            Err(_) => None,
        }
    }
}

/// The game and the game id that a button belongs to.
pub struct GameData {
    pub game: String,
    pub game_id: GameId,
}

fn digit_value(c: char) -> (v: i32)
    ensures
        v == hex_digit_value(c),
{
    if '0' <= c && c <= '9' {
        (c as u32 - '0' as u32) as i32
    } else if 'a' <= c && c <= 'f' {
        (c as u32 - 'a' as u32 + 10) as i32
    } else if 'A' <= c && c <= 'F' {
        (c as u32 - 'A' as u32 + 10) as i32
    } else {
        -1
    }
}

impl GameId {
    /// A fresh random id.
    pub fn new() -> (id: GameId) {
        GameId(random_u128())
    }

    /// The id in base 16, lower case, without leading zeros.
    pub fn to_string(&self) -> (s: String)
        ensures
            s@ == hex_text(self.0 as nat),
    {
        hex_string(self.0)
    }

    /// Reads an id written in base 16 (either case, an optional leading '+').
    pub fn from_str(s: &str) -> (r: Result<GameId, ParseIdError>)
        ensures
            r == match parse_hex_u128(s@) {
                Ok(v) => Ok(GameId(v)),
                Err(e) => Err(e),
            },
    {
        let n = s.unicode_len();
        if n == 0 {
            return Err(ParseIdError::Empty);
        }
        let first = s.get_char(0);
        if (first == '+' || first == '-') && n == 1 {
            return Err(ParseIdError::InvalidDigit);
        }
        let start: usize = if first == '+' { 1 } else { 0 };
        let ghost d = if first == '+' { s@.drop_first() } else { s@ };
        let mut acc: u128 = 0;
        let mut k: usize = start;
        while k < n
            invariant
                start <= k <= n,
                n == s@.len(),
                n > 0,
                !((s@[0] == '+' || s@[0] == '-') && n == 1),
                d == if s@[0] == '+' { s@.drop_first() } else { s@ },
                d.len() == n - start,
                forall|j: int| 0 <= j < d.len() ==> d[j] == s@[j + start],
                hex_scan(d, k - start) == Ok::<int, ParseIdError>(acc as int),
            decreases n - k,
        {
            let c = s.get_char(k);
            let v = digit_value(c);
            assert(d[k - start] == c);
            if v < 0 {
                assert(hex_scan(d, k - start + 1) == Err::<int, ParseIdError>(ParseIdError::InvalidDigit));
                proof {
                    lemma_scan_stops(d, k - start + 1, ParseIdError::InvalidDigit);
                    assert(hex_scan(d, d.len() as int) == Err::<int, ParseIdError>(ParseIdError::InvalidDigit));
                    assert(parse_hex_u128(s@) == Err::<u128, ParseIdError>(ParseIdError::InvalidDigit));
                }
                return Err(ParseIdError::InvalidDigit);
            }
            if acc > u128::MAX / 16 {
                assert(hex_scan(d, k - start + 1) == Err::<int, ParseIdError>(ParseIdError::PosOverflow));
                proof {
                    lemma_scan_stops(d, k - start + 1, ParseIdError::PosOverflow);
                    assert(hex_scan(d, d.len() as int) == Err::<int, ParseIdError>(ParseIdError::PosOverflow));
                    assert(parse_hex_u128(s@) == Err::<u128, ParseIdError>(ParseIdError::PosOverflow));
                }
                return Err(ParseIdError::PosOverflow);
            }
            let acc16 = acc * 16;
            if acc16 > u128::MAX - (v as u128) {
                assert(hex_scan(d, k - start + 1) == Err::<int, ParseIdError>(ParseIdError::PosOverflow));
                proof {
                    lemma_scan_stops(d, k - start + 1, ParseIdError::PosOverflow);
                    assert(hex_scan(d, d.len() as int) == Err::<int, ParseIdError>(ParseIdError::PosOverflow));
                    assert(parse_hex_u128(s@) == Err::<u128, ParseIdError>(ParseIdError::PosOverflow));
                }
                return Err(ParseIdError::PosOverflow);
            }
            acc = acc16 + v as u128;
            k = k + 1;
        }
        Ok(GameId(acc))
    }
}

/// Once the reading of the digits stops with an error, it stays stopped.
proof fn lemma_scan_stops(d: Seq<char>, k: int, e: ParseIdError)
    requires
        0 <= k <= d.len(),
        hex_scan(d, k) == Err::<int, ParseIdError>(e),
    ensures
        hex_scan(d, d.len() as int) == Err::<int, ParseIdError>(e),
    decreases d.len() - k,
{
    if k < d.len() {
        assert(hex_scan(d, k + 1) == Err::<int, ParseIdError>(e));
        lemma_scan_stops(d, k + 1, e);
    }
}

/// The button id `<name>_<hex id>`.
pub open spec fn custom_id_text(name: Seq<char>, id: u128) -> Seq<char> {
    name + seq!['_'] + hex_text(id as nat)
}

/// The id of a button of game `name` for the game `id`, such as "pokerlobbyjoin_1f3a".
pub fn custom_id(name: &str, id: GameId) -> (s: String)
    ensures
        s@ == custom_id_text(name@, id.0),
{
    let mut s = String::from_str(name);
    proof { reveal_strlit("_"); }
    s.append("_");
    let h = id.to_string();
    s.append(h.as_str());
    s
}

/// The game and game id of a button id: the text before the first underscore, and the rest
/// read as a game id. `None` when there is no underscore or the rest is no game id.
pub fn parse_game_data(game_data: &str) -> (r: Option<GameData>)
    ensures
        match game_data_of(game_data@) {
            None => r is None,
            Some((name, v)) => r matches Some(d) && d.game@ == name && d.game_id == GameId(v),
        },
{
    let n = game_data.unicode_len();
    let mut i: usize = 0;
    while i < n && game_data.get_char(i) != '_'
        invariant
            i <= n,
            n == game_data@.len(),
            forall|j: int| 0 <= j < i ==> game_data@[j] != '_',
        decreases n - i,
    {
        i = i + 1;
    }
    proof {
        lemma_first_index(game_data@, '_', i as int);
    }
    if i == n {
        return None;
    }
    let name = game_data.substring_char(0, i);
    let id_str = game_data.substring_char(i + 1, n);
    match GameId::from_str(id_str) {
        Ok(id) => Some(GameData { game: String::from_str(name), game_id: id }),
        Err(_) => None,
    }
}

proof fn lemma_first_index(s: Seq<char>, c: char, i: int)
    requires
        0 <= i <= s.len(),
        forall|j: int| 0 <= j < i ==> s[j] != c,
        i < s.len() ==> s[i] == c,
    ensures
        first_index_of(s, c) == if i == s.len() { -1 } else { i },
    decreases i,
{
    if s.len() > 0 && i > 0 {
        lemma_first_index(s.drop_first(), c, i - 1);
    } else if s.len() > 0 && i == 0 {
    }
}

// ---------------------------------------------------------------------------------------------
// Round trips
// ---------------------------------------------------------------------------------------------

proof fn lemma_digit_roundtrip(d: int)
    requires
        0 <= d < 16,
    ensures
        hex_digit_value(hex_digit_char(d)) == d,
        hex_digit_char(d) != '+' && hex_digit_char(d) != '-' && hex_digit_char(d) != '_',
{
}

proof fn lemma_scan_prefix(a: Seq<char>, b: Seq<char>, k: int)
    requires
        0 <= k <= a.len(),
        k <= b.len(),
        a.take(k) == b.take(k),
    ensures
        hex_scan(a, k) == hex_scan(b, k),
    decreases k,
{
    if k > 0 {
        assert(a.take(k - 1) =~= a.take(k).take(k - 1));
        assert(b.take(k - 1) =~= b.take(k).take(k - 1));
        assert(a[k - 1] == a.take(k)[k - 1]);
        assert(b[k - 1] == b.take(k)[k - 1]);
        lemma_scan_prefix(a, b, k - 1);
    }
}

proof fn lemma_hex_scan_text(n: nat)
    requires
        n <= u128::MAX,
    ensures
        hex_scan(hex_text(n), hex_text(n).len() as int) == Ok::<int, ParseIdError>(n as int),
        hex_text(n).len() >= 1,
        hex_text(n)[0] != '+' && hex_text(n)[0] != '-',
        forall|j: int| 0 <= j < hex_text(n).len() ==> #[trigger] hex_text(n)[j] != '_',
    decreases n,
{
    if n < 16 {
        lemma_digit_roundtrip(n as int);
        assert(hex_scan(hex_text(n), 0) == Ok::<int, ParseIdError>(0));
    } else {
        let t = hex_text(n / 16);
        let c = hex_digit_char((n % 16) as int);
        lemma_hex_scan_text(n / 16);
        lemma_digit_roundtrip((n % 16) as int);
        let whole = hex_text(n);
        assert(whole == t + seq![c]);
        assert(whole.take(t.len() as int) =~= t.take(t.len() as int));
        lemma_scan_prefix(whole, t, t.len() as int);
        assert(whole[t.len() as int] == c);
        assert((n / 16) * 16 + n % 16 == n);
        assert forall|j: int| 0 <= j < whole.len() implies #[trigger] whole[j] != '_' by {
            if j < t.len() {
                assert(whole[j] == t[j]);
            }
        }
    }
}

/// Writing an id and reading it back gives the same id.
pub proof fn lemma_game_id_roundtrip(id: GameId)
    ensures
        parse_hex_u128(hex_text(id.0 as nat)) == Ok::<u128, ParseIdError>(id.0),
{
    lemma_hex_scan_text(id.0 as nat);
}

proof fn lemma_first_index_after(name: Seq<char>, rest: Seq<char>)
    requires
        forall|j: int| 0 <= j < name.len() ==> name[j] != '_',
    ensures
        first_index_of(name + seq!['_'] + rest, '_') == name.len(),
{
    let s = name + seq!['_'] + rest;
    assert(s[name.len() as int] == '_');
    assert forall|j: int| 0 <= j < name.len() implies s[j] != '_' by {
        assert(s[j] == name[j]);
    }
    lemma_first_index(s, '_', name.len() as int);
}

/// A button id made for a game name without underscores reads back as that name and that id.
pub proof fn lemma_custom_id_roundtrip(name: Seq<char>, id: GameId)
    requires
        forall|j: int| 0 <= j < name.len() ==> name[j] != '_',
    ensures
        game_data_of(custom_id_text(name, id.0)) == Some((name, id.0)),
{
    let s = custom_id_text(name, id.0);
    lemma_first_index_after(name, hex_text(id.0 as nat));
    assert(s.subrange(name.len() as int + 1, s.len() as int) =~= hex_text(id.0 as nat));
    assert(s.subrange(0, name.len() as int) =~= name);
    lemma_game_id_roundtrip(id);
}

} // verus!
