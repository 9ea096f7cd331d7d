//! Playing cards: ranks, suits, cards and five-card hands, with their texts.
use vstd::prelude::*;
use vstd::string::*;

verus! {

/// The rank of a card. Aces are low: an ace has value 1, a king 13.
#[derive(Clone, Copy, Debug, PartialEq, Eq, Hash, Structural)]
pub enum CardRank {
    Ace,
    Two,
    Three,
    Four,
    Five,
    Six,
    Seven,
    Eight,
    Nine,
    Ten,
    Jack,
    Queen,
    King,
}

/// The suit of a card.
#[derive(Clone, Copy, Debug, PartialEq, Eq, Hash, Structural)]
pub enum CardSuit {
    Diamonds,
    Clubs,
    Hearts,
    Spades,
}

/// A card of the ordinary 52-card deck.
#[derive(Clone, Copy, Debug, PartialEq, Eq, Structural)]
pub struct NormalCard {
    pub rank: CardRank,
    pub suit: CardSuit,
}

/// A card as it is shown to the players.
#[derive(Clone, Copy, Debug)]
pub enum PokerCard {
    Normal(NormalCard),
}

/// The five cards that a player holds.
#[derive(Clone, Copy, Debug)]
pub struct CardHand(pub [NormalCard; 5]);

impl CardRank {
    /// The numeric value of the rank: ace 1, two 2, ..., king 13.
    pub open spec fn rank_value(self) -> u8 {
        match self {
            CardRank::Ace => 1,
            CardRank::Two => 2,
            CardRank::Three => 3,
            CardRank::Four => 4,
            CardRank::Five => 5,
            CardRank::Six => 6,
            CardRank::Seven => 7,
            CardRank::Eight => 8,
            CardRank::Nine => 9,
            CardRank::Ten => 10,
            CardRank::Jack => 11,
            CardRank::Queen => 12,
            CardRank::King => 13,
        }
    }

    /// The rank whose value is `v` (meaningful for `1 <= v <= 13`).
    pub open spec fn of_value(v: int) -> CardRank {
        if v <= 1 {
            CardRank::Ace
        } else if v == 2 {
            CardRank::Two
        } else if v == 3 {
            CardRank::Three
        } else if v == 4 {
            CardRank::Four
        } else if v == 5 {
            CardRank::Five
        } else if v == 6 {
            CardRank::Six
        } else if v == 7 {
            CardRank::Seven
        } else if v == 8 {
            CardRank::Eight
        } else if v == 9 {
            CardRank::Nine
        } else if v == 10 {
            CardRank::Ten
        } else if v == 11 {
            CardRank::Jack
        } else if v == 12 {
            CardRank::Queen
        } else {
            CardRank::King
        }
    }

    /// The value of this rank.
    pub fn value(&self) -> (v: u8)
        ensures
            v == self.rank_value(),
            1 <= v <= 13,
    {
        match self {
            CardRank::Ace => 1,
            CardRank::Two => 2,
            CardRank::Three => 3,
            CardRank::Four => 4,
            CardRank::Five => 5,
            CardRank::Six => 6,
            CardRank::Seven => 7,
            CardRank::Eight => 8,
            CardRank::Nine => 9,
            CardRank::Ten => 10,
            CardRank::Jack => 11,
            CardRank::Queen => 12,
            CardRank::King => 13,
        }
    }

    /// The rank with value `v`.
    pub fn from_value(v: u8) -> (r: CardRank)
        requires
            1 <= v <= 13,
        ensures
            r.rank_value() == v,
            r == CardRank::of_value(v as int),
    {
        if v <= 1 {
            CardRank::Ace
        } else if v == 2 {
            CardRank::Two
        } else if v == 3 {
            CardRank::Three
        } else if v == 4 {
            CardRank::Four
        } else if v == 5 {
            CardRank::Five
        } else if v == 6 {
            CardRank::Six
        } else if v == 7 {
            CardRank::Seven
        } else if v == 8 {
            CardRank::Eight
        } else if v == 9 {
            CardRank::Nine
        } else if v == 10 {
            CardRank::Ten
        } else if v == 11 {
            CardRank::Jack
        } else if v == 12 {
            CardRank::Queen
        } else {
            CardRank::King
        }
    }

    /// The text of the rank: "A", "2", ..., "10", "J", "Q", "K".
    pub open spec fn rank_text(self) -> Seq<char> {
        match self {
            CardRank::Ace => seq!['A'],
            CardRank::Two => seq!['2'],
            CardRank::Three => seq!['3'],
            CardRank::Four => seq!['4'],
            CardRank::Five => seq!['5'],
            CardRank::Six => seq!['6'],
            CardRank::Seven => seq!['7'],
            CardRank::Eight => seq!['8'],
            CardRank::Nine => seq!['9'],
            CardRank::Ten => seq!['1', '0'],
            CardRank::Jack => seq!['J'],
            CardRank::Queen => seq!['Q'],
            CardRank::King => seq!['K'],
        }
    }

    /// The text of this rank, as the table shows it.
    pub fn text(&self) -> (s: &'static str)
        ensures
            s@ == self.rank_text(),
    {
        match self {
            CardRank::Ace => {
                proof { reveal_strlit("A"); }
                "A"
            },
            CardRank::Two => {
                proof { reveal_strlit("2"); }
                "2"
            },
            CardRank::Three => {
                proof { reveal_strlit("3"); }
                "3"
            },
            CardRank::Four => {
                proof { reveal_strlit("4"); }
                "4"
            },
            CardRank::Five => {
                proof { reveal_strlit("5"); }
                "5"
            },
            CardRank::Six => {
                proof { reveal_strlit("6"); }
                "6"
            },
            CardRank::Seven => {
                proof { reveal_strlit("7"); }
                "7"
            },
            CardRank::Eight => {
                proof { reveal_strlit("8"); }
                "8"
            },
            CardRank::Nine => {
                proof { reveal_strlit("9"); }
                "9"
            },
            CardRank::Ten => {
                proof { reveal_strlit("10"); }
                "10"
            },
            CardRank::Jack => {
                proof { reveal_strlit("J"); }
                "J"
            },
            CardRank::Queen => {
                proof { reveal_strlit("Q"); }
                "Q"
            },
            CardRank::King => {
                proof { reveal_strlit("K"); }
                "K"
            },
        }
    }
}

/// The value of a rank is between 1 and 13, and the rank of a value is that rank again.
pub proof fn lemma_rank_value_roundtrip(r: CardRank)
    ensures
        1 <= r.rank_value() <= 13,
        CardRank::of_value(r.rank_value() as int) == r,
{
}

/// Two ranks with the same value are the same rank.
pub proof fn lemma_rank_value_injective(a: CardRank, b: CardRank)
    ensures
        (a.rank_value() == b.rank_value()) <==> (a == b),
{
}

impl CardSuit {
    /// The symbol of the suit.
    pub open spec fn suit_text(self) -> Seq<char> {
        match self {
            CardSuit::Clubs => seq!['\u{2663}'],
            CardSuit::Diamonds => seq!['\u{2666}'],
            CardSuit::Hearts => seq!['\u{2665}'],
            CardSuit::Spades => seq!['\u{2660}'],
        }
    }

    /// The symbol of this suit, as the table shows it.
    pub fn text(&self) -> (s: &'static str)
        ensures
            s@ == self.suit_text(),
    {
        match self {
            CardSuit::Clubs => {
                proof { reveal_strlit("\u{2663}"); }
                "\u{2663}"
            },
            CardSuit::Diamonds => {
                proof { reveal_strlit("\u{2666}"); }
                "\u{2666}"
            },
            CardSuit::Hearts => {
                proof { reveal_strlit("\u{2665}"); }
                "\u{2665}"
            },
            CardSuit::Spades => {
                proof { reveal_strlit("\u{2660}"); }
                "\u{2660}"
            },
        }
    }
}

impl NormalCard {
    /// A card is shown as its rank followed by its suit, such as "10♥".
    pub open spec fn card_text(self) -> Seq<char> {
        self.rank.rank_text() + self.suit.suit_text()
    }

    /// The text of this card.
    pub fn text(&self) -> (s: String)
        ensures
            s@ == self.card_text(),
    {
        let mut s = String::new();
        s.append(self.rank.text());
        s.append(self.suit.text());
        s
    }
}

impl PokerCard {
    /// The text of a card on the table.
    pub open spec fn poker_card_text(self) -> Seq<char> {
        match self {
            PokerCard::Normal(c) => c.card_text(),
        }
    }

    /// The text of this card.
    pub fn text(&self) -> (s: String)
        ensures
            s@ == self.poker_card_text(),
    {
        match self {
            PokerCard::Normal(c) => c.text(),
        }
    }
}

/// The ace of diamonds.
pub open spec fn ace_of_diamonds() -> NormalCard {
    NormalCard { rank: CardRank::Ace, suit: CardSuit::Diamonds }
}

/// The hand a player holds before any card is dealt: five aces of diamonds.
pub open spec fn template_hand_spec() -> CardHand {
    CardHand([ace_of_diamonds(), ace_of_diamonds(), ace_of_diamonds(), ace_of_diamonds(), ace_of_diamonds()])
}

/// The hand a player holds before any card is dealt: five aces of diamonds.
pub fn template_hand() -> (h: CardHand)
    ensures
        h == template_hand_spec(),
{
    let c = NormalCard { rank: CardRank::Ace, suit: CardSuit::Diamonds };
    CardHand([c, c, c, c, c])
}

impl CardHand {
    /// The cards of the hand, separated by single spaces.
    pub open spec fn hand_text(self) -> Seq<char> {
        self.0@[0].card_text() + seq![' '] + self.0@[1].card_text() + seq![' '] + self.0@[2].card_text()
            + seq![' '] + self.0@[3].card_text() + seq![' '] + self.0@[4].card_text()
    }

    /// The text of the hand, such as "A♦ 10♥ K♠ 2♣ 2♦".
    pub fn print_hand(&self) -> (s: String)
        ensures
            s@ == self.hand_text(),
    {
        proof { reveal_strlit(" "); }
        let mut s = self.0[0].text();
        s.append(" ");
        let t1 = self.0[1].text();
        s.append(t1.as_str());
        s.append(" ");
        let t2 = self.0[2].text();
        s.append(t2.as_str());
        s.append(" ");
        let t3 = self.0[3].text();
        s.append(t3.as_str());
        s.append(" ");
        let t4 = self.0[4].text();
        s.append(t4.as_str());
        s
    }
}

/// The 52 cards of one deck, suit by suit (diamonds, clubs, hearts, spades), each suit from ace
/// to king.
pub open spec fn one_deck() -> Seq<NormalCard> {
    Seq::new(52, |i: int| NormalCard { rank: CardRank::of_value(i % 13 + 1), suit: suit_of_index(i / 13) })
}

/// The suit at position `i` of the order diamonds, clubs, hearts, spades.
pub open spec fn suit_of_index(i: int) -> CardSuit {
    if i == 0 {
        CardSuit::Diamonds
    } else if i == 1 {
        CardSuit::Clubs
    } else if i == 2 {
        CardSuit::Hearts
    } else {
        CardSuit::Spades
    }
}

/// The 104 cards that the table plays with: two decks, one after the other.
pub open spec fn double_deck() -> Seq<NormalCard> {
    one_deck() + one_deck()
}

fn suit_at(i: usize) -> (s: CardSuit)
    requires
        i < 4,
    ensures
        s == suit_of_index(i as int),
{
    if i == 0 {
        CardSuit::Diamonds
    } else if i == 1 {
        CardSuit::Clubs
    } else if i == 2 {
        CardSuit::Hearts
    } else {
        CardSuit::Spades
    }
}

/// The two decks the table plays with, in order: 104 cards.
pub fn full_deck() -> (deck: Vec<NormalCard>)
    ensures
        deck@ == double_deck(),
        deck@.len() == 104,
{
    let mut deck: Vec<NormalCard> = Vec::new();
    for s in 0..4usize
        invariant
            deck@.len() == 13 * s,
            forall|k: int| 0 <= k < deck@.len() ==> deck@[k] == one_deck()[k],
    {
        let suit = suit_at(s);
        for r in 0..13usize
            invariant
                s < 4,
                suit == suit_of_index(s as int),
                deck@.len() == 13 * s + r,
                forall|k: int| 0 <= k < deck@.len() ==> deck@[k] == one_deck()[k],
        {
            let rank = CardRank::from_value((r + 1) as u8);
            proof {
                let k = 13 * s + r;
                assert(k % 13 == r as int) by (nonlinear_arith)
                    requires k == 13 * s + r, r < 13;
                assert(k / 13 == s as int) by (nonlinear_arith)
                    requires k == 13 * s + r, r < 13;
            }
            deck.push(NormalCard { rank, suit });
        }
    }
    let first = deck.clone();
    let mut i: usize = 0;
    while i < 52
        invariant
            first@ == one_deck(),
            i <= 52,
            deck@.len() == 52 + i,
            forall|k: int| 0 <= k < deck@.len() ==> deck@[k] == double_deck()[k],
        decreases 52 - i,
    {
        deck.push(first[i]);
        i = i + 1;
    }
    assert(deck@ =~= double_deck());
    deck
}

} // verus!
