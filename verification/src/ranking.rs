//! The order of ranks and of poker hands.
use vstd::prelude::*;
use std::cmp::Ordering;
use crate::cards::CardRank;
use crate::hand::{PokerHand, rank_values, widen};

verus! {

/// The ordering for the sign of `c`: less for a negative number, equal for zero, greater for
/// a positive one.
pub open spec fn ordering_from_sign(c: int) -> Ordering {
    if c < 0 {
        Ordering::Less
    } else if c == 0 {
        Ordering::Equal
    } else {
        Ordering::Greater
    }
}

/// Lexicographic comparison of two keys: -1 when `a` comes first, 1 when `b` does, 0 when they
/// are equal. A key that is a proper prefix of the other comes first.
pub open spec fn compare_keys(a: Seq<int>, b: Seq<int>) -> int
    decreases a.len(),
{
    if a.len() == 0 || b.len() == 0 {
        if a.len() < b.len() {
            -1
        } else if a.len() > b.len() {
            1
        } else {
            0
        }
    } else if a[0] < b[0] {
        -1
    } else if a[0] > b[0] {
        1
    } else {
        compare_keys(a.drop_first(), b.drop_first())
    }
}

/// How hand `a` compares with hand `b`: 1 when `a` is the better hand, -1 when `b` is, 0 when
/// they are the same hand.
pub open spec fn compare_hands(a: PokerHand, b: PokerHand) -> int {
    compare_keys(a.hand_key(), b.hand_key())
}

/// How rank `a` compares with rank `b`: by value, aces lowest.
pub open spec fn compare_ranks(a: CardRank, b: CardRank) -> int {
    if a.rank_value() < b.rank_value() {
        -1
    } else if a.rank_value() == b.rank_value() {
        0
    } else {
        1
    }
}

fn compare_small(a: u8, b: u8) -> (o: Ordering)
    ensures
        o == ordering_from_sign(if a < b { -1 } else if a == b { 0 } else { 1 }),
{
    if a < b {
        Ordering::Less
    } else if a == b {
        Ordering::Equal
    } else {
        Ordering::Greater
    }
}

/// The key `s` from position `i` on.
spec fn skip_at(s: Seq<int>, i: usize) -> Seq<int> {
    s.skip(i as int)
}

proof fn lemma_compare_keys_skip(a: Seq<int>, b: Seq<int>, i: usize)
    requires
        i < a.len(),
        i < b.len(),
        i < usize::MAX,
        a[i as int] == b[i as int],
    ensures
        compare_keys(skip_at(a, i), skip_at(b, i)) == compare_keys(skip_at(a, (i + 1) as usize), skip_at(b, (i + 1) as usize)),
{
    assert(skip_at(a, i).drop_first() =~= skip_at(a, (i + 1) as usize));
    assert(skip_at(b, i).drop_first() =~= skip_at(b, (i + 1) as usize));
}

proof fn lemma_skip_zero(a: Seq<int>)
    ensures
        skip_at(a, 0) == a,
{
    assert(a.skip(0) =~= a);
}

fn compare_key_vectors(a: &Vec<u8>, b: &Vec<u8>) -> (o: Ordering)
    ensures
        o == ordering_from_sign(compare_keys(widen(a@), widen(b@))),
{
    let ghost wa = widen(a@);
    let ghost wb = widen(b@);
    proof {
        lemma_skip_zero(wa);
        lemma_skip_zero(wb);
    }
    let mut i: usize = 0;
    while i < a.len() && i < b.len()
        invariant
            i <= a@.len(),
            i <= b@.len(),
            wa == widen(a@),
            wb == widen(b@),
            compare_keys(wa, wb) == compare_keys(skip_at(wa, i), skip_at(wb, i)),
        decreases a@.len() - i,
    {
        if a[i] < b[i] {
            return Ordering::Less;
        }
        if a[i] > b[i] {
            return Ordering::Greater;
        }
        proof {
            lemma_compare_keys_skip(wa, wb, i);
        }
        i = i + 1;
    }
    let ghost sa = skip_at(wa, i);
    let ghost sb = skip_at(wb, i);
    assert(sa.len() == 0 || sb.len() == 0);
    if a.len() < b.len() {
        Ordering::Less
    } else if a.len() > b.len() {
        Ordering::Greater
    } else {
        Ordering::Equal
    }
}

impl CardRank {
    /// Ranks compare by value, aces lowest and kings highest.
    pub fn cmp(&self, other: &Self) -> (o: Ordering)
        ensures
            o == ordering_from_sign(compare_ranks(*self, *other)),
    {
        compare_small(self.value(), other.value())
    }

    /// Ranks are always comparable.
    pub fn partial_cmp(&self, other: &Self) -> (o: Option<Ordering>)
        ensures
            o == Some(ordering_from_sign(compare_ranks(*self, *other))),
    {
        Some(self.cmp(other))
    }
}

impl PokerHand {
    /// Compares two hands: `Greater` when this hand beats `other`. A stronger kind of hand wins;
    /// between hands of the same kind the ranks decide, first difference first.
    pub fn cmp(&self, other: &Self) -> (o: Ordering)
        ensures
            o == ordering_from_sign(compare_hands(*self, *other)),
    {
        let a = self.key_values();
        let b = other.key_values();
        compare_key_vectors(&a, &b)
    }

    /// Hands are always comparable.
    pub fn partial_cmp(&self, other: &Self) -> (o: Option<Ordering>)
        ensures
            o == Some(ordering_from_sign(compare_hands(*self, *other))),
    {
        Some(self.cmp(other))
    }
}

/// Whether hand `a` loses to hand `b`.
pub fn is_worse(a: &PokerHand, b: &PokerHand) -> (r: bool)
    ensures
        r == (compare_hands(*a, *b) < 0),
{
    proof {
        lemma_hand_order_antisymmetric(*a, *b);
    }
    match a.cmp(b) {
        Ordering::Less => true,
        _ => false,
    }
}

// ---------------------------------------------------------------------------------------------
// Laws of the order
// ---------------------------------------------------------------------------------------------

proof fn lemma_keys_result_range(a: Seq<int>, b: Seq<int>)
    ensures
        -1 <= compare_keys(a, b) <= 1,
    decreases a.len(),
{
    if a.len() > 0 && b.len() > 0 && a[0] == b[0] {
        lemma_keys_result_range(a.drop_first(), b.drop_first());
    }
}

proof fn lemma_keys_antisymmetric(a: Seq<int>, b: Seq<int>)
    ensures
        compare_keys(a, b) == -compare_keys(b, a),
    decreases a.len(),
{
    if a.len() > 0 && b.len() > 0 && a[0] == b[0] {
        lemma_keys_antisymmetric(a.drop_first(), b.drop_first());
    }
}

proof fn lemma_keys_equal(a: Seq<int>, b: Seq<int>)
    ensures
        (compare_keys(a, b) == 0) <==> (a == b),
    decreases a.len(),
{
    if a.len() == 0 && b.len() == 0 {
        assert(a =~= b);
    }
    if a.len() > 0 && b.len() > 0 && a[0] == b[0] {
        lemma_keys_equal(a.drop_first(), b.drop_first());
        if a.drop_first() == b.drop_first() {
            assert(a =~= seq![a[0]] + a.drop_first());
            assert(b =~= seq![b[0]] + b.drop_first());
        }
    }
    if a == b {
        assert(compare_keys(a, b) == 0) by {
            lemma_keys_reflexive(a);
        }
    }
}

proof fn lemma_keys_reflexive(a: Seq<int>)
    ensures
        compare_keys(a, a) == 0,
    decreases a.len(),
{
    if a.len() > 0 {
        lemma_keys_reflexive(a.drop_first());
    }
}

proof fn lemma_keys_transitive(a: Seq<int>, b: Seq<int>, c: Seq<int>)
    requires
        compare_keys(a, b) <= 0,
        compare_keys(b, c) <= 0,
    ensures
        compare_keys(a, c) <= 0,
        compare_keys(a, b) < 0 || compare_keys(b, c) < 0 ==> compare_keys(a, c) < 0,
    decreases a.len(),
{
    if a.len() > 0 && b.len() > 0 && c.len() > 0 && a[0] == b[0] && b[0] == c[0] {
        lemma_keys_transitive(a.drop_first(), b.drop_first(), c.drop_first());
    }
}

/// Hand order is antisymmetric: `a` beats `b` exactly when `b` loses to `a`.
pub proof fn lemma_hand_order_antisymmetric(a: PokerHand, b: PokerHand)
    ensures
        compare_hands(a, b) == -compare_hands(b, a),
        -1 <= compare_hands(a, b) <= 1,
{
    lemma_keys_antisymmetric(a.hand_key(), b.hand_key());
    lemma_keys_result_range(a.hand_key(), b.hand_key());
}

/// Two hands tie exactly when they are the same hand.
pub proof fn lemma_hand_order_equal(a: PokerHand, b: PokerHand)
    ensures
        (compare_hands(a, b) == 0) <==> (a == b),
{
    lemma_keys_equal(a.hand_key(), b.hand_key());
    if a.hand_key() == b.hand_key() {
        crate::hand::lemma_hand_key_injective(a, b);
    }
}

/// Hand order is transitive: if `a` is no better than `b` and `b` no better than `c`, then `a`
/// is no better than `c`, and strictly worse when either step is strict.
pub proof fn lemma_hand_order_transitive(a: PokerHand, b: PokerHand, c: PokerHand)
    requires
        compare_hands(a, b) <= 0,
        compare_hands(b, c) <= 0,
    ensures
        compare_hands(a, c) <= 0,
        compare_hands(a, b) < 0 || compare_hands(b, c) < 0 ==> compare_hands(a, c) < 0,
{
    lemma_keys_transitive(a.hand_key(), b.hand_key(), c.hand_key());
}

/// A stronger kind of hand beats any hand of a weaker kind, whatever the ranks.
pub proof fn lemma_stronger_kind_wins(a: PokerHand, b: PokerHand)
    requires
        a.strength() > b.strength(),
    ensures
        compare_hands(a, b) == 1,
{
    assert(a.hand_key()[0] == a.strength());
    assert(b.hand_key()[0] == b.strength());
}

/// Ranks are ordered by value: the order is antisymmetric, ties only between equal ranks, and
/// is transitive.
pub proof fn lemma_rank_order(a: CardRank, b: CardRank, c: CardRank)
    ensures
        compare_ranks(a, b) == -compare_ranks(b, a),
        (compare_ranks(a, b) == 0) <==> (a == b),
        compare_ranks(a, b) <= 0 && compare_ranks(b, c) <= 0 ==> compare_ranks(a, c) <= 0,
{
    crate::cards::lemma_rank_value_injective(a, b);
}


// ---------------------------------------------------------------------------------------------
// The order of hands, field by field
// ---------------------------------------------------------------------------------------------

/// The first comparison when it is not a tie, else the second.
pub open spec fn lex(first: int, second: int) -> int {
    if first != 0 {
        first
    } else {
        second
    }
}

/// Two lists of ranks compared position by position, highest first as the hands list them:
/// the first position where the ranks differ decides; 0 when they agree everywhere.
pub open spec fn compare_rank_lists(a: Seq<CardRank>, b: Seq<CardRank>) -> int
    decreases a.len(),
{
    if a.len() == 0 || b.len() == 0 {
        0
    } else {
        lex(compare_ranks(a[0], b[0]), compare_rank_lists(a.drop_first(), b.drop_first()))
    }
}

/// How hand `a` compares with hand `b` by the rules of poker: a stronger kind of hand wins.
/// Between two hands of the same kind: straights and straight flushes by their highest rank;
/// four of a kind by the quad, then the single; a full house by the triad, then the pair; three
/// of a kind by the triad, then the other ranks from the highest; two pairs by the higher pair,
/// the lower pair, then the single; one pair by the pair, then the other ranks from the highest;
/// flushes and high cards by their ranks from the highest.
pub open spec fn poker_order(a: PokerHand, b: PokerHand) -> int {
    match (a, b) {
        (PokerHand::StraightFlush(x), PokerHand::StraightFlush(y)) => compare_ranks(x, y),
        (PokerHand::FourOfAKind { quad: q1, single: s1 }, PokerHand::FourOfAKind { quad: q2, single: s2 }) => lex(
            compare_ranks(q1, q2),
            compare_ranks(s1, s2),
        ),
        (PokerHand::FullHouse { triad: t1, pair: p1 }, PokerHand::FullHouse { triad: t2, pair: p2 }) => lex(
            compare_ranks(t1, t2),
            compare_ranks(p1, p2),
        ),
        (PokerHand::Flush(x), PokerHand::Flush(y)) => compare_rank_lists(x@, y@),
        (PokerHand::Straight(x), PokerHand::Straight(y)) => compare_ranks(x, y),
        (PokerHand::ThreeOfAKind { triad: t1, singles: s1 }, PokerHand::ThreeOfAKind { triad: t2, singles: s2 }) => lex(
            compare_ranks(t1, t2),
            compare_rank_lists(s1@, s2@),
        ),
        (
            PokerHand::TwoPair { pair1: a1, pair2: a2, single: a3 },
            PokerHand::TwoPair { pair1: b1, pair2: b2, single: b3 },
        ) => lex(compare_ranks(a1, b1), lex(compare_ranks(a2, b2), compare_ranks(a3, b3))),
        (PokerHand::OnePair { pair: p1, singles: s1 }, PokerHand::OnePair { pair: p2, singles: s2 }) => lex(
            compare_ranks(p1, p2),
            compare_rank_lists(s1@, s2@),
        ),
        (PokerHand::HighCard(x), PokerHand::HighCard(y)) => compare_rank_lists(x@, y@),
        _ => if a.strength() > b.strength() {
            1
        } else {
            -1
        },
    }
}

proof fn lemma_keys_head(x: int, s: Seq<int>, y: int, t: Seq<int>)
    ensures
        compare_keys(seq![x] + s, seq![y] + t) == (if x < y {
            -1
        } else if x > y {
            1
        } else {
            compare_keys(s, t)
        }),
{
    assert((seq![x] + s).drop_first() =~= s);
    assert((seq![y] + t).drop_first() =~= t);
}

proof fn lemma_keys_ranks(a: Seq<CardRank>, b: Seq<CardRank>)
    requires
        a.len() == b.len(),
    ensures
        compare_keys(widen(rank_values(a)), widen(rank_values(b))) == compare_rank_lists(a, b),
    decreases a.len(),
{
    let wa = widen(rank_values(a));
    let wb = widen(rank_values(b));
    if a.len() > 0 {
        assert(wa =~= seq![a[0].rank_value() as int] + widen(rank_values(a.drop_first())));
        assert(wb =~= seq![b[0].rank_value() as int] + widen(rank_values(b.drop_first())));
        lemma_keys_head(a[0].rank_value() as int, widen(rank_values(a.drop_first())), b[0].rank_value() as int, widen(rank_values(b.drop_first())));
        lemma_keys_ranks(a.drop_first(), b.drop_first());
    } else {
        assert(wa.len() == 0 && wb.len() == 0);
    }
}

proof fn lemma_keys_one(x: int, y: int)
    ensures
        compare_keys(seq![x], seq![y]) == (if x < y { -1 } else if x > y { 1 } else { 0 }),
{
    assert(seq![x] =~= seq![x] + Seq::<int>::empty());
    assert(seq![y] =~= seq![y] + Seq::<int>::empty());
    lemma_keys_head(x, Seq::<int>::empty(), y, Seq::<int>::empty());
}

proof fn lemma_key_one_rank(k: int, x: CardRank, y: CardRank)
    ensures
        compare_keys(seq![k, x.rank_value() as int], seq![k, y.rank_value() as int]) == compare_ranks(x, y),
{
    let (vx, vy) = (x.rank_value() as int, y.rank_value() as int);
    assert(seq![k, vx] =~= seq![k] + seq![vx]);
    assert(seq![k, vy] =~= seq![k] + seq![vy]);
    lemma_keys_head(k, seq![vx], k, seq![vy]);
    lemma_keys_one(vx, vy);
}

proof fn lemma_key_two_ranks(k: int, x1: CardRank, x2: CardRank, y1: CardRank, y2: CardRank)
    ensures
        compare_keys(
            seq![k, x1.rank_value() as int, x2.rank_value() as int],
            seq![k, y1.rank_value() as int, y2.rank_value() as int],
        ) == lex(compare_ranks(x1, y1), compare_ranks(x2, y2)),
{
    let (a1, a2, b1, b2) = (x1.rank_value() as int, x2.rank_value() as int, y1.rank_value() as int, y2.rank_value() as int);
    assert(seq![k, a1, a2] =~= seq![k] + (seq![a1] + seq![a2]));
    assert(seq![k, b1, b2] =~= seq![k] + (seq![b1] + seq![b2]));
    lemma_keys_head(k, seq![a1] + seq![a2], k, seq![b1] + seq![b2]);
    lemma_keys_head(a1, seq![a2], b1, seq![b2]);
    lemma_keys_one(a2, b2);
}

proof fn lemma_key_three_ranks(k: int, x1: CardRank, x2: CardRank, x3: CardRank, y1: CardRank, y2: CardRank, y3: CardRank)
    ensures
        compare_keys(
            seq![k, x1.rank_value() as int, x2.rank_value() as int, x3.rank_value() as int],
            seq![k, y1.rank_value() as int, y2.rank_value() as int, y3.rank_value() as int],
        ) == lex(compare_ranks(x1, y1), lex(compare_ranks(x2, y2), compare_ranks(x3, y3))),
{
    let (a1, a2, a3) = (x1.rank_value() as int, x2.rank_value() as int, x3.rank_value() as int);
    let (b1, b2, b3) = (y1.rank_value() as int, y2.rank_value() as int, y3.rank_value() as int);
    assert(seq![k, a1, a2, a3] =~= seq![k] + (seq![a1] + (seq![a2] + seq![a3])));
    assert(seq![k, b1, b2, b3] =~= seq![k] + (seq![b1] + (seq![b2] + seq![b3])));
    lemma_keys_head(k, seq![a1] + (seq![a2] + seq![a3]), k, seq![b1] + (seq![b2] + seq![b3]));
    lemma_keys_head(a1, seq![a2] + seq![a3], b1, seq![b2] + seq![b3]);
    lemma_keys_head(a2, seq![a3], b2, seq![b3]);
    lemma_keys_one(a3, b3);
}

proof fn lemma_key_list(k: int, x: Seq<CardRank>, y: Seq<CardRank>)
    requires
        x.len() == y.len(),
    ensures
        compare_keys(seq![k] + widen(rank_values(x)), seq![k] + widen(rank_values(y))) == compare_rank_lists(x, y),
{
    lemma_keys_head(k, widen(rank_values(x)), k, widen(rank_values(y)));
    lemma_keys_ranks(x, y);
}

proof fn lemma_key_rank_list(k: int, a: CardRank, x: Seq<CardRank>, b: CardRank, y: Seq<CardRank>)
    requires
        x.len() == y.len(),
    ensures
        compare_keys(
            seq![k, a.rank_value() as int] + widen(rank_values(x)),
            seq![k, b.rank_value() as int] + widen(rank_values(y)),
        ) == lex(compare_ranks(a, b), compare_rank_lists(x, y)),
{
    let (va, vb) = (a.rank_value() as int, b.rank_value() as int);
    let (rx, ry) = (widen(rank_values(x)), widen(rank_values(y)));
    assert(seq![k, va] + rx =~= seq![k] + (seq![va] + rx));
    assert(seq![k, vb] + ry =~= seq![k] + (seq![vb] + ry));
    lemma_keys_head(k, seq![va] + rx, k, seq![vb] + ry);
    lemma_keys_head(va, rx, vb, ry);
    lemma_keys_ranks(x, y);
}

/// Hands compare as the rules of poker say, field by field: `compare_hands` is `poker_order`.
pub proof fn lemma_hand_order_by_the_rules(a: PokerHand, b: PokerHand)
    ensures
        compare_hands(a, b) == poker_order(a, b),
{
    let ka = a.hand_key();
    let kb = b.hand_key();
    if a.strength() != b.strength() {
        assert(ka[0] == a.strength() && kb[0] == b.strength());
        assert(poker_order(a, b) == (if a.strength() > b.strength() { 1int } else { -1int }));
    } else {
        match a {
            PokerHand::StraightFlush(x) => {
                if let PokerHand::StraightFlush(y) = b {
                    lemma_key_one_rank(8, x, y);
                }
            },
            PokerHand::Straight(x) => {
                if let PokerHand::Straight(y) = b {
                    lemma_key_one_rank(4, x, y);
                }
            },
            PokerHand::FourOfAKind { quad: q1, single: s1 } => {
                if let PokerHand::FourOfAKind { quad: q2, single: s2 } = b {
                    lemma_key_two_ranks(7, q1, s1, q2, s2);
                }
            },
            PokerHand::FullHouse { triad: t1, pair: p1 } => {
                if let PokerHand::FullHouse { triad: t2, pair: p2 } = b {
                    lemma_key_two_ranks(6, t1, p1, t2, p2);
                }
            },
            PokerHand::TwoPair { pair1: a1, pair2: a2, single: a3 } => {
                if let PokerHand::TwoPair { pair1: b1, pair2: b2, single: b3 } = b {
                    lemma_key_three_ranks(2, a1, a2, a3, b1, b2, b3);
                }
            },
            PokerHand::Flush(x) => {
                if let PokerHand::Flush(y) = b {
                    lemma_key_list(5, x@, y@);
                }
            },
            PokerHand::HighCard(x) => {
                if let PokerHand::HighCard(y) = b {
                    lemma_key_list(0, x@, y@);
                }
            },
            PokerHand::ThreeOfAKind { triad: t1, singles: s1 } => {
                if let PokerHand::ThreeOfAKind { triad: t2, singles: s2 } = b {
                    lemma_key_rank_list(3, t1, s1@, t2, s2@);
                }
            },
            PokerHand::OnePair { pair: p1, singles: s1 } => {
                if let PokerHand::OnePair { pair: p2, singles: s2 } = b {
                    lemma_key_rank_list(1, p1, s1@, p2, s2@);
                }
            },
        }
    }
}

/// Between two full houses with different triads the triad decides, whatever the pairs.
pub proof fn lemma_full_house_triad_decides(t1: CardRank, p1: CardRank, t2: CardRank, p2: CardRank)
    requires
        t1 != t2,
    ensures
        compare_hands(PokerHand::FullHouse { triad: t1, pair: p1 }, PokerHand::FullHouse { triad: t2, pair: p2 })
            == compare_ranks(t1, t2),
{
    lemma_hand_order_by_the_rules(PokerHand::FullHouse { triad: t1, pair: p1 }, PokerHand::FullHouse { triad: t2, pair: p2 });
    crate::cards::lemma_rank_value_injective(t1, t2);
}

/// Of two one-pair hands, the higher pair wins, whatever the other cards.
pub proof fn lemma_higher_pair_wins(p1: CardRank, s1: [CardRank; 3], p2: CardRank, s2: [CardRank; 3])
    requires
        p1.rank_value() > p2.rank_value(),
    ensures
        compare_hands(PokerHand::OnePair { pair: p1, singles: s1 }, PokerHand::OnePair { pair: p2, singles: s2 }) == 1,
{
    lemma_hand_order_by_the_rules(PokerHand::OnePair { pair: p1, singles: s1 }, PokerHand::OnePair { pair: p2, singles: s2 });
}

} // verus!
