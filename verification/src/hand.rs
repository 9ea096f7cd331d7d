//! The value of a five-card poker hand, and the order of poker hands.
use vstd::prelude::*;
use crate::cards::{CardHand, CardRank, NormalCard, lemma_rank_value_roundtrip};
use crate::random::{is_index_permutation, is_rearrangement};

verus! {

/// What a five-card hand is worth. The variants run from the best hand to the worst; the ranks
/// each one carries decide between two hands of the same kind, highest first.
#[derive(Clone, Copy, Debug)]
#[allow(inconsistent_fields)]
pub enum PokerHand {
    /// Five consecutive ranks of one suit, named by the highest rank.
    StraightFlush(CardRank),
    /// Four cards of one rank and one other card.
    FourOfAKind { quad: CardRank, single: CardRank },
    /// Three cards of one rank and two of another.
    FullHouse { triad: CardRank, pair: CardRank },
    /// Five cards of one suit, ranks from highest to lowest.
    Flush([CardRank; 5]),
    /// Five consecutive ranks, named by the highest rank.
    Straight(CardRank),
    /// Three cards of one rank; the two other ranks from highest to lowest.
    ThreeOfAKind { triad: CardRank, singles: [CardRank; 2] },
    /// Two pairs, the higher first, and the fifth card's rank.
    TwoPair { pair1: CardRank, pair2: CardRank, single: CardRank },
    /// One pair; the three other ranks from highest to lowest.
    OnePair { pair: CardRank, singles: [CardRank; 3] },
    /// Nothing better: the five ranks from highest to lowest.
    HighCard([CardRank; 5]),
}

/// How many cards of `h` have the rank of value `v`.
pub open spec fn rank_count(h: Seq<NormalCard>, v: int) -> nat
    decreases h.len(),
{
    if h.len() == 0 {
        0
    } else {
        rank_count(h.drop_last(), v) + if h.last().rank.rank_value() == v { 1nat } else { 0nat }
    }
}

/// The rank values from `top` down to 1 that occur exactly `k` times in `h`, highest first.
pub open spec fn ranks_with_count(h: Seq<NormalCard>, k: nat, top: int) -> Seq<u8>
    decreases top,
{
    if top <= 0 {
        Seq::empty()
    } else {
        (if rank_count(h, top) == k { seq![top as u8] } else { Seq::empty() }) + ranks_with_count(h, k, top - 1)
    }
}

/// The rank values from `top` down to 1 that occur in `h`, but not exactly `k` times, highest
/// first.
pub open spec fn ranks_present_except(h: Seq<NormalCard>, k: nat, top: int) -> Seq<u8>
    decreases top,
{
    if top <= 0 {
        Seq::empty()
    } else {
        (if rank_count(h, top) != k && rank_count(h, top) != 0 { seq![top as u8] } else { Seq::empty() })
            + ranks_present_except(h, k, top - 1)
    }
}

/// The rank values of the cards of `h` that are at most `top`, from highest to lowest.
pub open spec fn sorted_rank_values(h: Seq<NormalCard>, top: int) -> Seq<u8>
    decreases top,
{
    if top <= 0 {
        Seq::empty()
    } else {
        Seq::new(rank_count(h, top), |i: int| top as u8) + sorted_rank_values(h, top - 1)
    }
}

/// Every card of `h` has the suit of the first.
pub open spec fn all_same_suit(h: Seq<NormalCard>) -> bool {
    forall|i: int| 0 <= i < h.len() ==> #[trigger] h[i].suit == h[0].suit
}

/// Each value of `s` is one more than the next.
pub open spec fn consecutive_descending(s: Seq<u8>) -> bool {
    forall|i: int| 0 <= i < s.len() - 1 ==> #[trigger] s[i] == s[i + 1] + 1
}

/// The values of a sequence of ranks.
pub open spec fn rank_values(a: Seq<CardRank>) -> Seq<u8> {
    a.map_values(|r: CardRank| r.rank_value())
}

/// `p` is what the cards `h` are worth: the first of these that holds decides.
/// A straight flush; four of a kind beside a single; three of a kind beside a pair; a flush;
/// a straight; three of a kind; two pairs beside a single; one pair beside three singles;
/// otherwise high card.
pub open spec fn classifies_as(h: Seq<NormalCard>, p: PokerHand) -> bool {
    let s = sorted_rank_values(h, 13);
    let fours = ranks_with_count(h, 4, 13);
    let threes = ranks_with_count(h, 3, 13);
    let pairs = ranks_with_count(h, 2, 13);
    let ones = ranks_with_count(h, 1, 13);
    let not_three = ranks_present_except(h, 3, 13);
    let not_two = ranks_present_except(h, 2, 13);
    let flush = all_same_suit(h);
    let straight = consecutive_descending(s);
    if flush && straight {
        p == PokerHand::StraightFlush(CardRank::of_value(s[0] as int))
    } else if fours.len() > 0 && ones.len() > 0 {
        p == PokerHand::FourOfAKind {
            quad: CardRank::of_value(fours[0] as int),
            single: CardRank::of_value(ones[0] as int),
        }
    } else if threes.len() > 0 && pairs.len() > 0 {
        p == PokerHand::FullHouse {
            triad: CardRank::of_value(threes[0] as int),
            pair: CardRank::of_value(pairs[0] as int),
        }
    } else if flush {
        p matches PokerHand::Flush(a) && rank_values(a@) == s
    } else if straight {
        p == PokerHand::Straight(CardRank::of_value(s[0] as int))
    } else if threes.len() > 0 {
        p matches PokerHand::ThreeOfAKind { triad, singles } && triad == CardRank::of_value(threes[0] as int)
            && rank_values(singles@) == not_three
    } else if pairs.len() == 2 && not_two.len() == 1 {
        p == PokerHand::TwoPair {
            pair1: CardRank::of_value(pairs[0] as int),
            pair2: CardRank::of_value(pairs[1] as int),
            single: CardRank::of_value(not_two[0] as int),
        }
    } else if pairs.len() == 1 && not_two.len() == 3 {
        p matches PokerHand::OnePair { pair, singles } && pair == CardRank::of_value(pairs[0] as int)
            && rank_values(singles@) == not_two
    } else {
        p matches PokerHand::HighCard(a) && rank_values(a@) == s
    }
}

// ---------------------------------------------------------------------------------------------
// Counting lemmas
// ---------------------------------------------------------------------------------------------

/// The sum of the counts of the values 1 to `top`.
pub open spec fn count_total(h: Seq<NormalCard>, top: int) -> nat
    decreases top,
{
    if top <= 0 {
        0
    } else {
        rank_count(h, top) + count_total(h, top - 1)
    }
}

proof fn lemma_count_le_len(h: Seq<NormalCard>, v: int)
    ensures
        rank_count(h, v) <= h.len(),
    decreases h.len(),
{
    if h.len() > 0 {
        lemma_count_le_len(h.drop_last(), v);
    }
}

proof fn lemma_total_push(h: Seq<NormalCard>, top: int)
    requires
        h.len() > 0,
    ensures
        count_total(h, top) == count_total(h.drop_last(), top) + if 1 <= h.last().rank.rank_value()
            <= top { 1nat } else { 0nat },
    decreases top,
{
    if top > 0 {
        lemma_total_push(h, top - 1);
    }
}

proof fn lemma_total_empty(h: Seq<NormalCard>, top: int)
    requires
        h.len() == 0,
    ensures
        count_total(h, top) == 0,
    decreases top,
{
    if top > 0 {
        lemma_total_empty(h, top - 1);
    }
}

proof fn lemma_total_is_len(h: Seq<NormalCard>)
    ensures
        count_total(h, 13) == h.len(),
    decreases h.len(),
{
    if h.len() > 0 {
        lemma_total_is_len(h.drop_last());
        lemma_total_push(h, 13);
        lemma_rank_value_roundtrip(h.last().rank);
    } else {
        lemma_total_empty(h, 13);
    }
}

proof fn lemma_sorted_len(h: Seq<NormalCard>, top: int)
    ensures
        sorted_rank_values(h, top).len() == count_total(h, top),
    decreases top,
{
    if top > 0 {
        lemma_sorted_len(h, top - 1);
    }
}

/// Counting the ranks by how often they occur: each count is at most five.
proof fn lemma_partition(h: Seq<NormalCard>, top: int)
    requires
        forall|v: int| rank_count(h, v) <= 5,
    ensures
        count_total(h, top) == ranks_with_count(h, 1, top).len() + 2 * ranks_with_count(h, 2, top).len()
            + 3 * ranks_with_count(h, 3, top).len() + 4 * ranks_with_count(h, 4, top).len() + 5
            * ranks_with_count(h, 5, top).len(),
        ranks_present_except(h, 3, top).len() == ranks_with_count(h, 1, top).len() + ranks_with_count(
            h,
            2,
            top,
        ).len() + ranks_with_count(h, 4, top).len() + ranks_with_count(h, 5, top).len(),
    decreases top,
{
    if top > 0 {
        lemma_partition(h, top - 1);
        assert(rank_count(h, top) <= 5);
    }
}

// ---------------------------------------------------------------------------------------------
// Computing the value of a hand
// ---------------------------------------------------------------------------------------------

/// `counts[v]` is the number of cards of `h` with rank value `v`, for `v` from 0 to 13.
spec fn counts_of(counts: Seq<u8>, h: Seq<NormalCard>) -> bool {
    &&& counts.len() == 14
    &&& forall|v: int| 0 <= v < 14 ==> #[trigger] counts[v] == rank_count(h, v)
}

fn count_ranks(cards: &[NormalCard; 5]) -> (counts: Vec<u8>)
    ensures
        counts_of(counts@, cards@),
{
    let mut counts: Vec<u8> = Vec::new();
    let mut v: usize = 0;
    while v < 14
        invariant
            v <= 14,
            counts@.len() == v,
            forall|w: int| 0 <= w < v ==> #[trigger] counts@[w] == 0,
        decreases 14 - v,
    {
        counts.push(0);
        v = v + 1;
    }
    let mut i: usize = 0;
    while i < 5
        invariant
            i <= 5,
            counts@.len() == 14,
            forall|w: int| 0 <= w < 14 ==> #[trigger] counts@[w] == rank_count(cards@.take(i as int), w),
            forall|w: int| 0 <= w < 14 ==> #[trigger] counts@[w] <= i,
        decreases 5 - i,
    {
        let r = cards[i].rank.value();
        proof {
            assert(cards@.take(i + 1).drop_last() =~= cards@.take(i as int));
            assert forall|w: int| 0 <= w < 14 implies rank_count(cards@.take(i + 1), w) == rank_count(
                cards@.take(i as int),
                w,
            ) + if w == r { 1nat } else { 0nat } by {}
        }
        let c = counts[r as usize];
        counts.set(r as usize, c + 1);
        i = i + 1;
    }
    assert(cards@.take(5) =~= cards@);
    counts
}

/// The rank values from 13 down to 1 whose count is `k`, highest first.
fn values_with_count(counts: &Vec<u8>, k: u8, Ghost(h): Ghost<Seq<NormalCard>>) -> (out: Vec<u8>)
    requires
        counts_of(counts@, h),
    ensures
        out@ == ranks_with_count(h, k as nat, 13),
{
    let mut out: Vec<u8> = Vec::new();
    let mut v: usize = 13;
    while v > 0
        invariant
            v <= 13,
            counts_of(counts@, h),
            out@ + ranks_with_count(h, k as nat, v as int) == ranks_with_count(h, k as nat, 13),
        decreases v,
    {
        let ghost before = out@;
        if counts[v] == k {
            out.push(v as u8);
        }
        proof {
            assert(out@ + ranks_with_count(h, k as nat, v - 1) =~= before + ranks_with_count(
                h,
                k as nat,
                v as int,
            ));
        }
        v = v - 1;
    }
    assert(out@ + ranks_with_count(h, k as nat, 0) =~= out@);
    out
}

/// The rank values from 13 down to 1 that occur, but not `k` times, highest first.
fn values_present_except(counts: &Vec<u8>, k: u8, Ghost(h): Ghost<Seq<NormalCard>>) -> (out: Vec<u8>)
    requires
        counts_of(counts@, h),
    ensures
        out@ == ranks_present_except(h, k as nat, 13),
{
    let mut out: Vec<u8> = Vec::new();
    let mut v: usize = 13;
    while v > 0
        invariant
            v <= 13,
            counts_of(counts@, h),
            out@ + ranks_present_except(h, k as nat, v as int) == ranks_present_except(h, k as nat, 13),
        decreases v,
    {
        let ghost before = out@;
        if counts[v] != k && counts[v] != 0 {
            out.push(v as u8);
        }
        proof {
            assert(out@ + ranks_present_except(h, k as nat, v - 1) =~= before + ranks_present_except(
                h,
                k as nat,
                v as int,
            ));
        }
        v = v - 1;
    }
    assert(out@ + ranks_present_except(h, k as nat, 0) =~= out@);
    out
}

/// The rank values of the hand, from highest to lowest.
fn sorted_values(counts: &Vec<u8>, Ghost(h): Ghost<Seq<NormalCard>>) -> (out: Vec<u8>)
    requires
        counts_of(counts@, h),
    ensures
        out@ == sorted_rank_values(h, 13),
{
    let mut out: Vec<u8> = Vec::new();
    let mut v: usize = 13;
    while v > 0
        invariant
            v <= 13,
            counts_of(counts@, h),
            out@ + sorted_rank_values(h, v as int) == sorted_rank_values(h, 13),
        decreases v,
    {
        let ghost before = out@;
        let c = counts[v];
        let mut j: u8 = 0;
        while j < c
            invariant
                j <= c,
                c == rank_count(h, v as int),
                1 <= v <= 13,
                out@ == before + Seq::new(j as nat, |i: int| v as u8),
            decreases c - j,
        {
            out.push(v as u8);
            j = j + 1;
            assert(out@ =~= before + Seq::new(j as nat, |i: int| v as u8));
        }
        proof {
            assert(out@ + sorted_rank_values(h, v - 1) =~= before + sorted_rank_values(h, v as int));
        }
        v = v - 1;
    }
    assert(out@ + sorted_rank_values(h, 0) =~= out@);
    out
}

/// The ranks of the given values, in the same order.
fn ranks_of5(s: &Vec<u8>) -> (a: [CardRank; 5])
    requires
        s@.len() == 5,
        forall|i: int| 0 <= i < 5 ==> 1 <= #[trigger] s@[i] <= 13,
    ensures
        rank_values(a@) == s@,
{
    let a = [
        CardRank::from_value(s[0]),
        CardRank::from_value(s[1]),
        CardRank::from_value(s[2]),
        CardRank::from_value(s[3]),
        CardRank::from_value(s[4]),
    ];
    assert(rank_values(a@) =~= s@);
    a
}

proof fn lemma_ranks_in_range(h: Seq<NormalCard>, k: nat, top: int)
    requires
        top <= 13,
    ensures
        forall|i: int| 0 <= i < ranks_with_count(h, k, top).len() ==> 1 <= #[trigger] ranks_with_count(h, k, top)[i] <= top,
        forall|i: int| 0 <= i < ranks_present_except(h, k, top).len() ==> 1 <= #[trigger] ranks_present_except(h, k, top)[i] <= top,
        forall|i: int| 0 <= i < sorted_rank_values(h, top).len() ==> 1 <= #[trigger] sorted_rank_values(h, top)[i] <= top,
    decreases top,
{
    if top > 0 {
        lemma_ranks_in_range(h, k, top - 1);
        let a = ranks_with_count(h, k, top);
        let b = ranks_present_except(h, k, top);
        let c = sorted_rank_values(h, top);
        assert forall|i: int| 0 <= i < a.len() implies 1 <= #[trigger] a[i] <= top by {
            let head = if rank_count(h, top) == k { seq![top as u8] } else { Seq::<u8>::empty() };
            if i >= head.len() {
                assert(a[i] == ranks_with_count(h, k, top - 1)[i - head.len()]);
            }
        }
        assert forall|i: int| 0 <= i < b.len() implies 1 <= #[trigger] b[i] <= top by {
            let head = if rank_count(h, top) != k && rank_count(h, top) != 0 { seq![top as u8] } else { Seq::<u8>::empty() };
            if i >= head.len() {
                assert(b[i] == ranks_present_except(h, k, top - 1)[i - head.len()]);
            }
        }
        assert forall|i: int| 0 <= i < c.len() implies 1 <= #[trigger] c[i] <= top by {
            let head = Seq::new(rank_count(h, top), |j: int| top as u8);
            if i >= head.len() {
                assert(c[i] == sorted_rank_values(h, top - 1)[i - head.len()]);
            }
        }
    }
}

impl PokerHand {
    /// What the hand is worth.
    pub fn from(hand: CardHand) -> (p: PokerHand)
        ensures
            classifies_as(hand.0@, p),
    {
        let cards = hand.0;
        let ghost h = cards@;
        let counts = count_ranks(&cards);
        let sorted = sorted_values(&counts, Ghost(h));
        let fours = values_with_count(&counts, 4, Ghost(h));
        let threes = values_with_count(&counts, 3, Ghost(h));
        let pairs = values_with_count(&counts, 2, Ghost(h));
        let ones = values_with_count(&counts, 1, Ghost(h));
        let not_three = values_present_except(&counts, 3, Ghost(h));
        let not_two = values_present_except(&counts, 2, Ghost(h));
        proof {
            lemma_total_is_len(h);
            lemma_sorted_len(h, 13);
            lemma_ranks_in_range(h, 4, 13);
            lemma_ranks_in_range(h, 3, 13);
            lemma_ranks_in_range(h, 2, 13);
            lemma_ranks_in_range(h, 1, 13);
            assert forall|v: int| rank_count(h, v) <= 5 by {
                lemma_count_le_len(h, v);
            }
            lemma_partition(h, 13);
        }
        let max_rank = CardRank::from_value(sorted[0]);

        // all suits equal to the first
        let mut flush = true;
        let mut i: usize = 1;
        while i < 5
            invariant
                1 <= i <= 5,
                h == cards@,
                flush == (forall|j: int| 0 <= j < i ==> #[trigger] h[j].suit == h[0].suit),
            decreases 5 - i,
        {
            if cards[i].suit != cards[0].suit {
                flush = false;
            }
            i = i + 1;
        }

        // each rank one more than the next
        let mut straight = true;
        let mut i: usize = 0;
        while i < 4
            invariant
                i <= 4,
                sorted@.len() == 5,
                forall|j: int| 0 <= j < 5 ==> 1 <= #[trigger] sorted@[j] <= 13,
                straight == (forall|j: int| 0 <= j < i ==> #[trigger] sorted@[j] == sorted@[j + 1] + 1),
            decreases 4 - i,
        {
            if sorted[i] != sorted[i + 1] + 1 {
                straight = false;
            }
            i = i + 1;
        }
        assert(flush == all_same_suit(h));
        assert(straight == consecutive_descending(sorted@));

        if flush && straight {
            return PokerHand::StraightFlush(max_rank);
        }
        if fours.len() > 0 && ones.len() > 0 {
            return PokerHand::FourOfAKind {
                quad: CardRank::from_value(fours[0]),
                single: CardRank::from_value(ones[0]),
            };
        }
        if threes.len() > 0 && pairs.len() > 0 {
            return PokerHand::FullHouse {
                triad: CardRank::from_value(threes[0]),
                pair: CardRank::from_value(pairs[0]),
            };
        }
        if flush {
            return PokerHand::Flush(ranks_of5(&sorted));
        }
        if straight {
            return PokerHand::Straight(max_rank);
        }
        if threes.len() > 0 {
            let singles = [CardRank::from_value(not_three[0]), CardRank::from_value(not_three[1])];
            assert(rank_values(singles@) =~= not_three@);
            return PokerHand::ThreeOfAKind { triad: CardRank::from_value(threes[0]), singles };
        }
        if pairs.len() == 2 && not_two.len() == 1 {
            return PokerHand::TwoPair {
                pair1: CardRank::from_value(pairs[0]),
                pair2: CardRank::from_value(pairs[1]),
                single: CardRank::from_value(not_two[0]),
            };
        }
        if pairs.len() == 1 && not_two.len() == 3 {
            let singles = [
                CardRank::from_value(not_two[0]),
                CardRank::from_value(not_two[1]),
                CardRank::from_value(not_two[2]),
            ];
            assert(rank_values(singles@) =~= not_two@);
            return PokerHand::OnePair { pair: CardRank::from_value(pairs[0]), singles };
        }
        PokerHand::HighCard(ranks_of5(&sorted))
    }
}


// ---------------------------------------------------------------------------------------------
// The key by which hands are ordered
// ---------------------------------------------------------------------------------------------

/// A sequence of small numbers, widened to integers.
pub open spec fn widen(s: Seq<u8>) -> Seq<int> {
    s.map_values(|x: u8| x as int)
}

impl PokerHand {
    /// How strong the kind of hand is: 8 for a straight flush down to 0 for high card.
    pub open spec fn strength(self) -> int {
        match self {
            PokerHand::StraightFlush(_) => 8,
            PokerHand::FourOfAKind { .. } => 7,
            PokerHand::FullHouse { .. } => 6,
            PokerHand::Flush(_) => 5,
            PokerHand::Straight(_) => 4,
            PokerHand::ThreeOfAKind { .. } => 3,
            PokerHand::TwoPair { .. } => 2,
            PokerHand::OnePair { .. } => 1,
            PokerHand::HighCard(_) => 0,
        }
    }

    /// The strength of the hand followed by the values of its ranks, in the order in which they
    /// decide between two hands of the same kind.
    pub open spec fn hand_key(self) -> Seq<int> {
        match self {
            PokerHand::StraightFlush(r) => seq![8, r.rank_value() as int],
            PokerHand::FourOfAKind { quad, single } => seq![7, quad.rank_value() as int, single.rank_value() as int],
            PokerHand::FullHouse { triad, pair } => seq![6, triad.rank_value() as int, pair.rank_value() as int],
            PokerHand::Flush(a) => seq![5] + widen(rank_values(a@)),
            PokerHand::Straight(r) => seq![4, r.rank_value() as int],
            PokerHand::ThreeOfAKind { triad, singles } => seq![3, triad.rank_value() as int] + widen(
                rank_values(singles@),
            ),
            PokerHand::TwoPair { pair1, pair2, single } => seq![
                2,
                pair1.rank_value() as int,
                pair2.rank_value() as int,
                single.rank_value() as int,
            ],
            PokerHand::OnePair { pair, singles } => seq![1, pair.rank_value() as int] + widen(
                rank_values(singles@),
            ),
            PokerHand::HighCard(a) => seq![0] + widen(rank_values(a@)),
        }
    }

    /// The key of this hand, as small numbers.
    pub fn key_values(&self) -> (k: Vec<u8>)
        ensures
            widen(k@) == self.hand_key(),
    {
        let mut k: Vec<u8> = Vec::new();
        match self {
            PokerHand::StraightFlush(r) => {
                k.push(8);
                k.push(r.value());
            },
            PokerHand::FourOfAKind { quad, single } => {
                k.push(7);
                k.push(quad.value());
                k.push(single.value());
            },
            PokerHand::FullHouse { triad, pair } => {
                k.push(6);
                k.push(triad.value());
                k.push(pair.value());
            },
            PokerHand::Flush(a) => {
                k.push(5);
                k.push(a[0].value());
                k.push(a[1].value());
                k.push(a[2].value());
                k.push(a[3].value());
                k.push(a[4].value());
            },
            PokerHand::Straight(r) => {
                k.push(4);
                k.push(r.value());
            },
            PokerHand::ThreeOfAKind { triad, singles } => {
                k.push(3);
                k.push(triad.value());
                k.push(singles[0].value());
                k.push(singles[1].value());
            },
            PokerHand::TwoPair { pair1, pair2, single } => {
                k.push(2);
                k.push(pair1.value());
                k.push(pair2.value());
                k.push(single.value());
            },
            PokerHand::OnePair { pair, singles } => {
                k.push(1);
                k.push(pair.value());
                k.push(singles[0].value());
                k.push(singles[1].value());
                k.push(singles[2].value());
            },
            PokerHand::HighCard(a) => {
                k.push(0);
                k.push(a[0].value());
                k.push(a[1].value());
                k.push(a[2].value());
                k.push(a[3].value());
                k.push(a[4].value());
            },
        }
        assert(widen(k@) =~= self.hand_key());
        k
    }
}

proof fn lemma_rank_values_injective<const N: usize>(a: [CardRank; N], b: [CardRank; N])
    requires
        widen(rank_values(a@)) == widen(rank_values(b@)),
    ensures
        a == b,
{
    broadcast use vstd::array::group_array_axioms;
    assert forall|i: int| 0 <= i < N implies a[i] == b[i] by {
        assert(a@.len() == N && b@.len() == N);
        assert(widen(rank_values(a@))[i] == widen(rank_values(b@))[i]);
        assert(widen(rank_values(a@))[i] == a@[i].rank_value() as int);
        assert(widen(rank_values(b@))[i] == b@[i].rank_value() as int);
        crate::cards::lemma_rank_value_injective(a@[i], b@[i]);
    }
    assert(a =~= b);
}

/// Two hands with the same key are the same hand.
pub proof fn lemma_hand_key_injective(a: PokerHand, b: PokerHand)
    requires
        a.hand_key() == b.hand_key(),
    ensures
        a == b,
{
    let ka = a.hand_key();
    let kb = b.hand_key();
    assert(ka[0] == kb[0]);
    match (a, b) {
        (PokerHand::StraightFlush(x), PokerHand::StraightFlush(y)) => {
            assert(ka[1] == kb[1]);
            crate::cards::lemma_rank_value_injective(x, y);
        },
        (PokerHand::FourOfAKind { quad: q1, single: s1 }, PokerHand::FourOfAKind { quad: q2, single: s2 }) => {
            assert(ka[1] == kb[1] && ka[2] == kb[2]);
            crate::cards::lemma_rank_value_injective(q1, q2);
            crate::cards::lemma_rank_value_injective(s1, s2);
        },
        (PokerHand::FullHouse { triad: t1, pair: p1 }, PokerHand::FullHouse { triad: t2, pair: p2 }) => {
            assert(ka[1] == kb[1] && ka[2] == kb[2]);
            crate::cards::lemma_rank_value_injective(t1, t2);
            crate::cards::lemma_rank_value_injective(p1, p2);
        },
        (PokerHand::Flush(x), PokerHand::Flush(y)) => {
            assert(widen(rank_values(x@)) =~= ka.drop_first());
            assert(widen(rank_values(y@)) =~= kb.drop_first());
            lemma_rank_values_injective(x, y);
        },
        (PokerHand::Straight(x), PokerHand::Straight(y)) => {
            assert(ka[1] == kb[1]);
            crate::cards::lemma_rank_value_injective(x, y);
        },
        (PokerHand::ThreeOfAKind { triad: t1, singles: s1 }, PokerHand::ThreeOfAKind { triad: t2, singles: s2 }) => {
            assert(ka[1] == kb[1]);
            crate::cards::lemma_rank_value_injective(t1, t2);
            assert(widen(rank_values(s1@)) =~= ka.subrange(2, 4));
            assert(widen(rank_values(s2@)) =~= kb.subrange(2, 4));
            lemma_rank_values_injective(s1, s2);
        },
        (PokerHand::TwoPair { pair1: a1, pair2: b1, single: c1 }, PokerHand::TwoPair { pair1: a2, pair2: b2, single: c2 }) => {
            assert(ka[1] == kb[1] && ka[2] == kb[2] && ka[3] == kb[3]);
            crate::cards::lemma_rank_value_injective(a1, a2);
            crate::cards::lemma_rank_value_injective(b1, b2);
            crate::cards::lemma_rank_value_injective(c1, c2);
        },
        (PokerHand::OnePair { pair: p1, singles: s1 }, PokerHand::OnePair { pair: p2, singles: s2 }) => {
            assert(ka[1] == kb[1]);
            crate::cards::lemma_rank_value_injective(p1, p2);
            assert(widen(rank_values(s1@)) =~= ka.subrange(2, 5));
            assert(widen(rank_values(s2@)) =~= kb.subrange(2, 5));
            lemma_rank_values_injective(s1, s2);
        },
        (PokerHand::HighCard(x), PokerHand::HighCard(y)) => {
            assert(widen(rank_values(x@)) =~= ka.drop_first());
            assert(widen(rank_values(y@)) =~= kb.drop_first());
            lemma_rank_values_injective(x, y);
        },
        _ => {},
    }
}


proof fn lemma_rank_array_equal<const N: usize>(a: [CardRank; N], b: [CardRank; N])
    requires
        rank_values(a@) == rank_values(b@),
    ensures
        a == b,
{
    assert(widen(rank_values(a@)) =~= widen(rank_values(b@)));
    lemma_rank_values_injective(a, b);
}

/// A hand is worth exactly one thing: two values that both classify the same cards are equal.
pub proof fn lemma_classification_unique(h: Seq<NormalCard>, p: PokerHand, q: PokerHand)
    requires
        classifies_as(h, p),
        classifies_as(h, q),
    ensures
        p == q,
{
    match (p, q) {
        (PokerHand::Flush(a), PokerHand::Flush(b)) => {
            lemma_rank_array_equal(a, b);
        },
        (PokerHand::HighCard(a), PokerHand::HighCard(b)) => {
            lemma_rank_array_equal(a, b);
        },
        (PokerHand::ThreeOfAKind { singles: a, .. }, PokerHand::ThreeOfAKind { singles: b, .. }) => {
            lemma_rank_array_equal(a, b);
        },
        (PokerHand::OnePair { singles: a, .. }, PokerHand::OnePair { singles: b, .. }) => {
            lemma_rank_array_equal(a, b);
        },
        _ => {},
    }
}

/// The value of five cards, built from the first of the kinds that `classifies_as` lists.
pub open spec fn classify(h: Seq<NormalCard>) -> PokerHand {
    let s = sorted_rank_values(h, 13);
    let fours = ranks_with_count(h, 4, 13);
    let threes = ranks_with_count(h, 3, 13);
    let pairs = ranks_with_count(h, 2, 13);
    let ones = ranks_with_count(h, 1, 13);
    let not_three = ranks_present_except(h, 3, 13);
    let not_two = ranks_present_except(h, 2, 13);
    let flush = all_same_suit(h);
    let straight = consecutive_descending(s);
    let r = |x: u8| CardRank::of_value(x as int);
    if flush && straight {
        PokerHand::StraightFlush(r(s[0]))
    } else if fours.len() > 0 && ones.len() > 0 {
        PokerHand::FourOfAKind { quad: r(fours[0]), single: r(ones[0]) }
    } else if threes.len() > 0 && pairs.len() > 0 {
        PokerHand::FullHouse { triad: r(threes[0]), pair: r(pairs[0]) }
    } else if flush {
        PokerHand::Flush([r(s[0]), r(s[1]), r(s[2]), r(s[3]), r(s[4])])
    } else if straight {
        PokerHand::Straight(r(s[0]))
    } else if threes.len() > 0 {
        PokerHand::ThreeOfAKind { triad: r(threes[0]), singles: [r(not_three[0]), r(not_three[1])] }
    } else if pairs.len() == 2 && not_two.len() == 1 {
        PokerHand::TwoPair { pair1: r(pairs[0]), pair2: r(pairs[1]), single: r(not_two[0]) }
    } else if pairs.len() == 1 && not_two.len() == 3 {
        PokerHand::OnePair { pair: r(pairs[0]), singles: [r(not_two[0]), r(not_two[1]), r(not_two[2])] }
    } else {
        PokerHand::HighCard([r(s[0]), r(s[1]), r(s[2]), r(s[3]), r(s[4])])
    }
}

/// Every five cards are worth something: `classify` gives it.
pub proof fn lemma_classify(h: Seq<NormalCard>)
    requires
        h.len() == 5,
    ensures
        classifies_as(h, classify(h)),
{
    broadcast use vstd::array::group_array_axioms;
    lemma_total_is_len(h);
    lemma_sorted_len(h, 13);
    lemma_ranks_in_range(h, 4, 13);
    lemma_ranks_in_range(h, 3, 13);
    lemma_ranks_in_range(h, 2, 13);
    lemma_ranks_in_range(h, 1, 13);
    assert forall|v: int| rank_count(h, v) <= 5 by {
        lemma_count_le_len(h, v);
    }
    lemma_partition(h, 13);
    let s = sorted_rank_values(h, 13);
    let not_three = ranks_present_except(h, 3, 13);
    let not_two = ranks_present_except(h, 2, 13);
    let r = |x: u8| CardRank::of_value(x as int);
    let a5 = [r(s[0]), r(s[1]), r(s[2]), r(s[3]), r(s[4])];
    assert(rank_values(a5@) =~= s);
    if not_three.len() >= 2 {
        let a2 = [r(not_three[0]), r(not_three[1])];
        if not_three.len() == 2 {
            assert(rank_values(a2@) =~= not_three);
        }
    }
    if not_two.len() == 3 {
        let a3 = [r(not_two[0]), r(not_two[1]), r(not_two[2])];
        assert(rank_values(a3@) =~= not_two);
    }
}

/// What the hand is worth, as `PokerHand::from` computes it.
pub open spec fn hand_value(hand: CardHand) -> PokerHand {
    choose|p: PokerHand| classifies_as(hand.0@, p)
}

/// The value that classifies a hand is the hand's value.
pub proof fn lemma_hand_value(hand: CardHand, p: PokerHand)
    requires
        classifies_as(hand.0@, p),
    ensures
        hand_value(hand) == p,
{
    let q = hand_value(hand);
    assert(classifies_as(hand.0@, q));
    lemma_classification_unique(hand.0@, p, q);
}

impl PartialEq for PokerHand {
    fn eq(&self, other: &PokerHand) -> (r: bool) {
        let a = self.key_values();
        let b = other.key_values();
        let mut same = a.len() == b.len();
        assert(!same ==> widen(a@).len() != widen(b@).len());
        let mut i: usize = 0;
        while same && i < a.len()
            invariant
                same ==> a@.len() == b@.len(),
                i <= a@.len(),
                same ==> forall|j: int| 0 <= j < i ==> #[trigger] a@[j] == b@[j],
                !same ==> widen(a@) != widen(b@),
            decreases a@.len() - i,
        {
            if a[i] != b[i] {
                same = false;
                assert(widen(a@)[i as int] != widen(b@)[i as int]);
            }
            i = i + 1;
        }
        proof {
            if same {
                assert(widen(a@) =~= widen(b@));
                lemma_hand_key_injective(*self, *other);
            }
        }
        same
    }
}

impl vstd::std_specs::cmp::PartialEqSpecImpl for PokerHand {
    open spec fn obeys_eq_spec() -> bool {
        true
    }

    open spec fn eq_spec(&self, other: &PokerHand) -> bool {
        *self == *other
    }
}

impl Eq for PokerHand {

}

impl PokerHand {
    /// The name of the kind of hand, for the table. No kind has a name yet: the text is empty.
    pub fn print_variant(&self) -> (s: &'static str)
        ensures
            s@ == Seq::<char>::empty(),
    {
        proof { reveal_strlit(""); }
        ""
    }
}


// ---------------------------------------------------------------------------------------------
// The order of the cards does not matter
// ---------------------------------------------------------------------------------------------

proof fn lemma_count_remove(g: Seq<NormalCard>, j: int, v: int)
    requires
        0 <= j < g.len(),
    ensures
        rank_count(g, v) == rank_count(g.remove(j), v) + if g[j].rank.rank_value() == v { 1nat } else { 0nat },
    decreases g.len(),
{
    if j < g.len() - 1 {
        assert(g.remove(j).drop_last() =~= g.drop_last().remove(j));
        assert(g.remove(j).last() == g.last());
        lemma_count_remove(g.drop_last(), j, v);
    } else {
        assert(g.remove(j) =~= g.drop_last());
    }
}

proof fn lemma_count_rearranged(h: Seq<NormalCard>, g: Seq<NormalCard>, perm: Seq<int>, v: int)
    requires
        h.len() == g.len(),
        is_index_permutation(perm, g.len() as int),
        forall|i: int| 0 <= i < h.len() ==> #[trigger] h[i] == g[perm[i]],
    ensures
        rank_count(h, v) == rank_count(g, v),
    decreases h.len(),
{
    if h.len() > 0 {
        let n = h.len() as int;
        let j = perm[n - 1];
        let g2 = g.remove(j);
        let h2 = h.drop_last();
        let perm2 = Seq::new((n - 1) as nat, |i: int| if perm[i] < j { perm[i] } else { perm[i] - 1 });
        assert forall|i: int| 0 <= i < n - 1 implies 0 <= #[trigger] perm2[i] < n - 1 by {
            assert(perm[i] != j);
        }
        assert forall|a: int, b: int| 0 <= a < n - 1 && 0 <= b < n - 1 && a != b implies #[trigger] perm2[a] != #[trigger] perm2[b] by {
            assert(perm[a] != perm[b]);
            assert(perm[a] != j && perm[b] != j);
        }
        assert forall|i: int| 0 <= i < h2.len() implies #[trigger] h2[i] == g2[perm2[i]] by {
            assert(h2[i] == h[i]);
            assert(perm[i] != j);
        }
        lemma_count_rearranged(h2, g2, perm2, v);
        lemma_count_remove(g, j, v);
    }
}

proof fn lemma_lists_follow_counts(h: Seq<NormalCard>, g: Seq<NormalCard>, top: int)
    requires
        forall|v: int| rank_count(h, v) == rank_count(g, v),
    ensures
        forall|k: nat| #[trigger] ranks_with_count(h, k, top) == ranks_with_count(g, k, top),
        forall|k: nat| #[trigger] ranks_present_except(h, k, top) == ranks_present_except(g, k, top),
        sorted_rank_values(h, top) == sorted_rank_values(g, top),
    decreases top,
{
    if top > 0 {
        lemma_lists_follow_counts(h, g, top - 1);
        assert(rank_count(h, top) == rank_count(g, top));
        assert(sorted_rank_values(h, top) =~= sorted_rank_values(g, top));
        assert forall|k: nat| #[trigger] ranks_with_count(h, k, top) == ranks_with_count(g, k, top) by {
            assert(ranks_with_count(h, k, top - 1) == ranks_with_count(g, k, top - 1));
        }
        assert forall|k: nat| #[trigger] ranks_present_except(h, k, top) == ranks_present_except(g, k, top) by {
            assert(ranks_present_except(h, k, top - 1) == ranks_present_except(g, k, top - 1));
        }
    }
}

/// The value of a hand does not depend on the order of its cards.
pub proof fn lemma_hand_value_order_independent(g: CardHand, h: CardHand)
    requires
        is_rearrangement(h.0@, g.0@),
    ensures
        forall|p: PokerHand| classifies_as(h.0@, p) <==> classifies_as(g.0@, p),
        hand_value(h) == hand_value(g),
{
    let perm = choose|perm: Seq<int>|
        is_index_permutation(perm, g.0@.len() as int) && forall|i: int| 0 <= i < h.0@.len() ==> #[trigger] h.0@[i] == g.0@[perm[i]];
    assert forall|v: int| rank_count(h.0@, v) == rank_count(g.0@, v) by {
        lemma_count_rearranged(h.0@, g.0@, perm, v);
    }
    lemma_lists_follow_counts(h.0@, g.0@, 13);
    assert(all_same_suit(h.0@) == all_same_suit(g.0@)) by {
        if all_same_suit(g.0@) {
            assert forall|i: int| 0 <= i < h.0@.len() implies #[trigger] h.0@[i].suit == h.0@[0].suit by {
                assert(h.0@[i] == g.0@[perm[i]]);
                assert(h.0@[0] == g.0@[perm[0]]);
            }
        }
        if all_same_suit(h.0@) {
            // every card of `g` is some card of `h`: the permutation of five positions is onto
            assert forall|i: int| 0 <= i < g.0@.len() implies #[trigger] g.0@[i].suit == g.0@[0].suit by {
                lemma_permutation_onto(perm, g.0@.len() as int, i);
                lemma_permutation_onto(perm, g.0@.len() as int, 0);
                let a = choose|a: int| 0 <= a < perm.len() && perm[a] == i;
                let b = choose|b: int| 0 <= b < perm.len() && perm[b] == 0;
                assert(h.0@[a] == g.0@[i]);
                assert(h.0@[b] == g.0@[0]);
            }
        }
    }
    assert forall|p: PokerHand| classifies_as(h.0@, p) <==> classifies_as(g.0@, p) by {}
    lemma_classify(g.0@);
    lemma_hand_value(g, classify(g.0@));
    lemma_hand_value(h, classify(g.0@));
}

/// A one-to-one map of `n` positions onto themselves reaches every position.
proof fn lemma_permutation_onto(perm: Seq<int>, n: int, target: int)
    requires
        is_index_permutation(perm, n),
        0 <= target < n,
    ensures
        exists|a: int| 0 <= a < perm.len() && perm[a] == target,
{
    if forall|a: int| 0 <= a < perm.len() ==> perm[a] != target {
        // the n values of `perm` lie in a set of n - 1 positions
        let s = perm.to_set();
        assert(s.subset_of(vstd::set_lib::set_int_range(0, n).remove(target)));
        vstd::set_lib::lemma_int_range(0, n);
        vstd::set_lib::lemma_len_subset(s, vstd::set_lib::set_int_range(0, n).remove(target));
        assert(perm.no_duplicates());
        perm.unique_seq_to_set();
    }
}

} // verus!
