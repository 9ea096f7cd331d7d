//! Numbers as text, and text searches.
use vstd::prelude::*;
use vstd::string::*;

verus! {

/// The digit for `d` in base 16, lower case: '0' to '9', then 'a' to 'f'.
pub open spec fn hex_digit_char(d: int) -> char {
    if d == 0 {
        '0'
    } else if d == 1 {
        '1'
    } else if d == 2 {
        '2'
    } else if d == 3 {
        '3'
    } else if d == 4 {
        '4'
    } else if d == 5 {
        '5'
    } else if d == 6 {
        '6'
    } else if d == 7 {
        '7'
    } else if d == 8 {
        '8'
    } else if d == 9 {
        '9'
    } else if d == 10 {
        'a'
    } else if d == 11 {
        'b'
    } else if d == 12 {
        'c'
    } else if d == 13 {
        'd'
    } else if d == 14 {
        'e'
    } else {
        'f'
    }
}

/// `n` in base 16, lower case, without leading zeros; zero is "0".
pub open spec fn hex_text(n: nat) -> Seq<char>
    decreases n,
{
    if n < 16 {
        seq![hex_digit_char(n as int)]
    } else {
        hex_text(n / 16) + seq![hex_digit_char((n % 16) as int)]
    }
}

/// `n` in base 10 without leading zeros; zero is "0".
pub open spec fn decimal_text(n: nat) -> Seq<char>
    decreases n,
{
    if n < 10 {
        seq![hex_digit_char(n as int)]
    } else {
        decimal_text(n / 10) + seq![hex_digit_char((n % 10) as int)]
    }
}

/// `n` in base 10, with a minus sign when negative.
pub open spec fn signed_decimal_text(n: int) -> Seq<char> {
    if n < 0 {
        seq!['-'] + decimal_text((-n) as nat)
    } else {
        decimal_text(n as nat)
    }
}

/// The one-character text of digit `d` (base 16, lower case).
fn digit_str(d: u8) -> (s: &'static str)
    requires
        d < 16,
    ensures
        s@ == seq![hex_digit_char(d as int)],
{
    if d == 0 {
        proof { reveal_strlit("0"); }
        "0"
    } else if d == 1 {
        proof { reveal_strlit("1"); }
        "1"
    } else if d == 2 {
        proof { reveal_strlit("2"); }
        "2"
    } else if d == 3 {
        proof { reveal_strlit("3"); }
        "3"
    } else if d == 4 {
        proof { reveal_strlit("4"); }
        "4"
    } else if d == 5 {
        proof { reveal_strlit("5"); }
        "5"
    } else if d == 6 {
        proof { reveal_strlit("6"); }
        "6"
    } else if d == 7 {
        proof { reveal_strlit("7"); }
        "7"
    } else if d == 8 {
        proof { reveal_strlit("8"); }
        "8"
    } else if d == 9 {
        proof { reveal_strlit("9"); }
        "9"
    } else if d == 10 {
        proof { reveal_strlit("a"); }
        "a"
    } else if d == 11 {
        proof { reveal_strlit("b"); }
        "b"
    } else if d == 12 {
        proof { reveal_strlit("c"); }
        "c"
    } else if d == 13 {
        proof { reveal_strlit("d"); }
        "d"
    } else if d == 14 {
        proof { reveal_strlit("e"); }
        "e"
    } else {
        proof { reveal_strlit("f"); }
        "f"
    }
}

/// The digits of `n` in base `b` (10 or 16), most significant first, as text appended to `out`.
fn append_digits(out: &mut String, n: u128, b: u128)
    requires
        b == 10 || b == 16,
    ensures
        b == 16 ==> final(out)@ == old(out)@ + hex_text(n as nat),
        b == 10 ==> final(out)@ == old(out)@ + decimal_text(n as nat),
    decreases n,
{
    if n < b {
        out.append(digit_str(n as u8));
    } else {
        append_digits(out, n / b, b);
        out.append(digit_str((n % b) as u8));
        proof {
            if b == 16 {
                assert(hex_text(n as nat) == hex_text((n / 16) as nat) + seq![hex_digit_char((n % 16) as int)]);
            } else {
                assert(decimal_text(n as nat) == decimal_text((n / 10) as nat) + seq![hex_digit_char((n % 10) as int)]);
            }
        }
    }
}

/// `n` in base 16, lower case, without leading zeros.
pub fn hex_string(n: u128) -> (s: String)
    ensures
        s@ == hex_text(n as nat),
{
    let mut s = String::new();
    append_digits(&mut s, n, 16);
    s
}

/// `n` in base 10.
pub fn decimal_string(n: u64) -> (s: String)
    ensures
        s@ == decimal_text(n as nat),
{
    let mut s = String::new();
    append_digits(&mut s, n as u128, 10);
    s
}

/// `n` in base 10, with a minus sign when negative.
pub fn signed_decimal_string(n: i64) -> (s: String)
    ensures
        s@ == signed_decimal_text(n as int),
{
    let mut s = String::new();
    if n < 0 {
        proof { reveal_strlit("-"); }
        s.append("-");
        let m: i128 = -(n as i128);
        append_digits(&mut s, m as u128, 10);
    } else {
        append_digits(&mut s, n as u128, 10);
    }
    s
}

/// Whether two texts are equal.
pub fn text_equals(a: &str, b: &str) -> (r: bool)
    ensures
        r == (a@ == b@),
{
    let n = a.unicode_len();
    if n != b.unicode_len() {
        return false;
    }
    let mut i: usize = 0;
    while i < n
        invariant
            n == a@.len(),
            n == b@.len(),
            i <= n,
            forall|k: int| 0 <= k < i ==> a@[k] == b@[k],
        decreases n - i,
    {
        if a.get_char(i) != b.get_char(i) {
            return false;
        }
        i = i + 1;
    }
    assert(a@ =~= b@);
    true
}

/// `pattern` occurs in `text` starting at position `i`.
pub open spec fn occurs_at(text: Seq<char>, pattern: Seq<char>, i: int) -> bool {
    0 <= i && i + pattern.len() <= text.len() && text.subrange(i, i + pattern.len()) == pattern
}

/// `pattern` occurs somewhere in `text`.
pub open spec fn contains_text(text: Seq<char>, pattern: Seq<char>) -> bool {
    exists|i: int| occurs_at(text, pattern, i)
}

/// Whether `pattern` occurs in `text`.
pub fn contains(text: &str, pattern: &str) -> (b: bool)
    ensures
        b == contains_text(text@, pattern@),
{
    let n = text.unicode_len();
    let m = pattern.unicode_len();
    if m > n {
        proof {
            assert forall|i: int| !occurs_at(text@, pattern@, i) by {}
        }
        return false;
    }
    let mut i: usize = 0;
    while i <= n - m
        invariant
            n == text@.len(),
            m == pattern@.len(),
            m <= n,
            i <= n - m + 1,
            forall|k: int| 0 <= k < i ==> !occurs_at(text@, pattern@, k),
        decreases n - m + 1 - i,
    {
        let mut j: usize = 0;
        let mut same = true;
        while j < m && same
            invariant
                n == text@.len(),
                m == pattern@.len(),
                i + m <= n,
                j <= m,
                same == (forall|k: int| 0 <= k < j ==> text@[i + k] == pattern@[k]),
            decreases m - j,
        {
            if text.get_char(i + j) != pattern.get_char(j) {
                same = false;
            }
            j = j + 1;
        }
        if same {
            assert(text@.subrange(i as int, i + m) =~= pattern@);
            assert(occurs_at(text@, pattern@, i as int));
            return true;
        }
        proof {
            if occurs_at(text@, pattern@, i as int) {
                let k = choose|k: int| 0 <= k < j && text@[i + k] != pattern@[k];
                assert(text@.subrange(i as int, i + m)[k] == text@[i + k]);
            }
        }
        i = i + 1;
    }
    proof {
        assert forall|k: int| !occurs_at(text@, pattern@, k) by {
            if 0 <= k && k + m <= n {
                assert(k < i);
            }
        }
    }
    false
}

} // verus!
