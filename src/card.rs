use vstd::prelude::*;
use vstd::string::*;

use crate::error::FreeCellError;

verus! {

/// The rank of a card, from ace (lowest) to king (highest).
#[derive(Clone, Copy, Debug, PartialEq, Eq, Hash, Structural)]
pub enum Rank {
    Ace,
    Two,
    Three,
    Four,
    Five,
    Six,
    Seven,
    Eight,
    Nine,
    Ten,
    Jack,
    Queen,
    King,
}

/// The suit of a card.
#[derive(Clone, Copy, Debug, PartialEq, Eq, Hash, Structural)]
pub enum Suit {
    /// Clubs, black.
    Clubs,
    /// Diamonds, red.
    Diamonds,
    /// Hearts, red.
    Hearts,
    /// Spades, black.
    Spades,
}

/// One of the 52 cards of the deck.
#[derive(Clone, Copy, Debug, PartialEq, Eq, Hash, Structural)]
pub struct Card {
    /// The suit of the card.
    pub suit: Suit,
    /// The rank of the card.
    pub rank: Rank,
}

impl Rank {
    /// The numeric value of the rank: 0 for the ace up to 12 for the king.
    pub open spec fn spec_value(self) -> int {
        match self {
            Rank::Ace => 0,
            Rank::Two => 1,
            Rank::Three => 2,
            Rank::Four => 3,
            Rank::Five => 4,
            Rank::Six => 5,
            Rank::Seven => 6,
            Rank::Eight => 7,
            Rank::Nine => 8,
            Rank::Ten => 9,
            Rank::Jack => 10,
            Rank::Queen => 11,
            Rank::King => 12,
        }
    }

    /// The rank whose value is `v`, for `v` in `0..13`.
    pub open spec fn spec_from_value(v: int) -> Rank {
        if v <= 0 {
            Rank::Ace
        } else if v == 1 {
            Rank::Two
        } else if v == 2 {
            Rank::Three
        } else if v == 3 {
            Rank::Four
        } else if v == 4 {
            Rank::Five
        } else if v == 5 {
            Rank::Six
        } else if v == 6 {
            Rank::Seven
        } else if v == 7 {
            Rank::Eight
        } else if v == 8 {
            Rank::Nine
        } else if v == 9 {
            Rank::Ten
        } else if v == 10 {
            Rank::Jack
        } else if v == 11 {
            Rank::Queen
        } else {
            Rank::King
        }
    }

    /// The character that stands for the rank in text.
    pub open spec fn spec_char(self) -> char {
        match self {
            Rank::Ace => 'A',
            Rank::Two => '2',
            Rank::Three => '3',
            Rank::Four => '4',
            Rank::Five => '5',
            Rank::Six => '6',
            Rank::Seven => '7',
            Rank::Eight => '8',
            Rank::Nine => '9',
            Rank::Ten => 'T',
            Rank::Jack => 'J',
            Rank::Queen => 'Q',
            Rank::King => 'K',
        }
    }

    /// The rank that the character `c` stands for, if any.
    pub open spec fn spec_parse(c: char) -> Option<Rank> {
        if c == 'A' {
            Some(Rank::Ace)
        } else if c == '2' {
            Some(Rank::Two)
        } else if c == '3' {
            Some(Rank::Three)
        } else if c == '4' {
            Some(Rank::Four)
        } else if c == '5' {
            Some(Rank::Five)
        } else if c == '6' {
            Some(Rank::Six)
        } else if c == '7' {
            Some(Rank::Seven)
        } else if c == '8' {
            Some(Rank::Eight)
        } else if c == '9' {
            Some(Rank::Nine)
        } else if c == 'T' {
            Some(Rank::Ten)
        } else if c == 'J' {
            Some(Rank::Jack)
        } else if c == 'Q' {
            Some(Rank::Queen)
        } else if c == 'K' {
            Some(Rank::King)
        } else {
            None
        }
    }

    /// Returns the numeric value of the rank, 0 for the ace up to 12 for the king.
    pub fn value(&self) -> (r: u8)
        ensures
            r == self.spec_value(),
    {
        match self {
            Rank::Ace => 0,
            Rank::Two => 1,
            Rank::Three => 2,
            Rank::Four => 3,
            Rank::Five => 4,
            Rank::Six => 5,
            Rank::Seven => 6,
            Rank::Eight => 7,
            Rank::Nine => 8,
            Rank::Ten => 9,
            Rank::Jack => 10,
            Rank::Queen => 11,
            Rank::King => 12,
        }
    }

    /// Returns the rank with the numeric value `v`, or `None` when `v > 12`.
    pub fn try_from(v: u8) -> (r: Option<Rank>)
        ensures
            r is Some <==> v < 13,
            r is Some ==> r->Some_0.spec_value() == v,
    {
        match v {
            0 => Some(Rank::Ace),
            1 => Some(Rank::Two),
            2 => Some(Rank::Three),
            3 => Some(Rank::Four),
            4 => Some(Rank::Five),
            5 => Some(Rank::Six),
            6 => Some(Rank::Seven),
            7 => Some(Rank::Eight),
            8 => Some(Rank::Nine),
            9 => Some(Rank::Ten),
            10 => Some(Rank::Jack),
            11 => Some(Rank::Queen),
            12 => Some(Rank::King),
            _ => None,
        }
    }

    /// Returns the rank that the character `c` stands for, if any.
    pub fn parse(c: char) -> (r: Option<Rank>)
        ensures
            r == Rank::spec_parse(c),
    {
        if c == 'A' {
            Some(Rank::Ace)
        } else if c == '2' {
            Some(Rank::Two)
        } else if c == '3' {
            Some(Rank::Three)
        } else if c == '4' {
            Some(Rank::Four)
        } else if c == '5' {
            Some(Rank::Five)
        } else if c == '6' {
            Some(Rank::Six)
        } else if c == '7' {
            Some(Rank::Seven)
        } else if c == '8' {
            Some(Rank::Eight)
        } else if c == '9' {
            Some(Rank::Nine)
        } else if c == 'T' {
            Some(Rank::Ten)
        } else if c == 'J' {
            Some(Rank::Jack)
        } else if c == 'Q' {
            Some(Rank::Queen)
        } else if c == 'K' {
            Some(Rank::King)
        } else {
            None
        }
    }

    /// Returns the one-character text of the rank.
    pub fn text(&self) -> (r: &'static str)
        ensures
            r@ == seq![self.spec_char()],
    {
        match self {
            Rank::Ace => {
                proof { reveal_strlit("A"); }
                "A"
            },
            Rank::Two => {
                proof { reveal_strlit("2"); }
                "2"
            },
            Rank::Three => {
                proof { reveal_strlit("3"); }
                "3"
            },
            Rank::Four => {
                proof { reveal_strlit("4"); }
                "4"
            },
            Rank::Five => {
                proof { reveal_strlit("5"); }
                "5"
            },
            Rank::Six => {
                proof { reveal_strlit("6"); }
                "6"
            },
            Rank::Seven => {
                proof { reveal_strlit("7"); }
                "7"
            },
            Rank::Eight => {
                proof { reveal_strlit("8"); }
                "8"
            },
            Rank::Nine => {
                proof { reveal_strlit("9"); }
                "9"
            },
            Rank::Ten => {
                proof { reveal_strlit("T"); }
                "T"
            },
            Rank::Jack => {
                proof { reveal_strlit("J"); }
                "J"
            },
            Rank::Queen => {
                proof { reveal_strlit("Q"); }
                "Q"
            },
            Rank::King => {
                proof { reveal_strlit("K"); }
                "K"
            },
        }
    }
}


impl Suit {
    /// The numeric value of the suit: clubs 0, diamonds 1, hearts 2, spades 3.
    pub open spec fn spec_value(self) -> int {
        match self {
            Suit::Clubs => 0,
            Suit::Diamonds => 1,
            Suit::Hearts => 2,
            Suit::Spades => 3,
        }
    }

    /// The suit whose value is `v`, for `v` in `0..4`.
    pub open spec fn spec_from_value(v: int) -> Suit {
        if v <= 0 {
            Suit::Clubs
        } else if v == 1 {
            Suit::Diamonds
        } else if v == 2 {
            Suit::Hearts
        } else {
            Suit::Spades
        }
    }

    /// Hearts and diamonds are red; clubs and spades are black.
    pub open spec fn spec_is_red(self) -> bool {
        self == Suit::Hearts || self == Suit::Diamonds
    }

    /// The symbol that stands for the suit in text.
    pub open spec fn spec_char(self) -> char {
        match self {
            Suit::Clubs => '♣',
            Suit::Diamonds => '♦',
            Suit::Hearts => '♥',
            Suit::Spades => '♠',
        }
    }

    /// The suit that the symbol `c` stands for, if any.
    pub open spec fn spec_parse(c: char) -> Option<Suit> {
        if c == '♣' {
            Some(Suit::Clubs)
        } else if c == '♦' {
            Some(Suit::Diamonds)
        } else if c == '♥' {
            Some(Suit::Hearts)
        } else if c == '♠' {
            Some(Suit::Spades)
        } else {
            None
        }
    }

    /// Returns the numeric value of the suit.
    pub fn value(&self) -> (r: u8)
        ensures
            r == self.spec_value(),
    {
        match self {
            Suit::Clubs => 0,
            Suit::Diamonds => 1,
            Suit::Hearts => 2,
            Suit::Spades => 3,
        }
    }

    /// Returns the suit with the numeric value `v`, or `None` when `v > 3`.
    pub fn try_from(v: u8) -> (r: Option<Suit>)
        ensures
            r is Some <==> v < 4,
            r is Some ==> r->Some_0.spec_value() == v,
    {
        match v {
            0 => Some(Suit::Clubs),
            1 => Some(Suit::Diamonds),
            2 => Some(Suit::Hearts),
            3 => Some(Suit::Spades),
            _ => None,
        }
    }

    /// Returns whether the suit is red.
    pub fn is_red(&self) -> (r: bool)
        ensures
            r == self.spec_is_red(),
    {
        match self {
            Suit::Hearts | Suit::Diamonds => true,
            _ => false,
        }
    }

    /// Returns the suit that the symbol `c` stands for, if any.
    pub fn parse(c: char) -> (r: Option<Suit>)
        ensures
            r == Suit::spec_parse(c),
    {
        if c == '♣' {
            Some(Suit::Clubs)
        } else if c == '♦' {
            Some(Suit::Diamonds)
        } else if c == '♥' {
            Some(Suit::Hearts)
        } else if c == '♠' {
            Some(Suit::Spades)
        } else {
            None
        }
    }

    /// Returns the one-symbol text of the suit.
    pub fn text(&self) -> (r: &'static str)
        ensures
            r@ == seq![self.spec_char()],
    {
        match self {
            Suit::Clubs => {
                proof { reveal_strlit("♣"); }
                "♣"
            },
            Suit::Diamonds => {
                proof { reveal_strlit("♦"); }
                "♦"
            },
            Suit::Hearts => {
                proof { reveal_strlit("♥"); }
                "♥"
            },
            Suit::Spades => {
                proof { reveal_strlit("♠"); }
                "♠"
            },
        }
    }
}

impl Card {
    /// The id of the card: `rank * 4 + suit`, in `0..52`.
    pub open spec fn spec_id(self) -> int {
        self.rank.spec_value() * 4 + self.suit.spec_value()
    }

    /// The card with the given id, for ids in `0..52`.
    pub open spec fn spec_from_id(id: int) -> Card {
        Card { rank: Rank::spec_from_value(id / 4), suit: Suit::spec_from_value(id % 4) }
    }

    /// The two-character text of the card: its rank character, then its suit symbol.
    pub open spec fn spec_text(self) -> Seq<char> {
        seq![self.rank.spec_char(), self.suit.spec_char()]
    }

    /// The card that a rank character followed by a suit symbol stands for, if any.
    pub open spec fn spec_parse_pair(a: char, b: char) -> Option<Card> {
        match (Rank::spec_parse(a), Suit::spec_parse(b)) {
            (Some(rank), Some(suit)) => Some(Card { suit, rank }),
            _ => None,
        }
    }

    /// The card that the text `s` stands for: exactly two characters, a rank
    /// character and a suit symbol.
    pub open spec fn spec_parse(s: Seq<char>) -> Option<Card> {
        if s.len() == 2 {
            Card::spec_parse_pair(s[0], s[1])
        } else {
            None
        }
    }

    /// Creates a card from a rank and a suit.
    pub fn new(rank: Rank, suit: Suit) -> (r: Card)
        ensures
            r == (Card { suit, rank }),
    {
        Card { suit, rank }
    }

    /// Returns the id of the card, `rank * 4 + suit`.
    pub fn id(&self) -> (r: u8)
        ensures
            r == self.spec_id(),
            r < 52,
    {
        self.rank.value() * 4 + self.suit.value()
    }

    /// Creates the card with the given id; ids above 51 are rejected.
    pub fn from_id(id: u8) -> (r: Result<Card, FreeCellError>)
        ensures
            r is Ok <==> id < 52,
            r is Ok ==> r->Ok_0 == Card::spec_from_id(id as int),
            r is Ok ==> r->Ok_0.spec_id() == id,
            r is Err ==> r->Err_0 == FreeCellError::InvalidCardId,
    {
        if id > 51 {
            return Err(FreeCellError::InvalidCardId);
        }
        let rank = match Rank::try_from(id / 4) {
            Some(rank) => rank,
            None => Rank::Ace,
        };
        let suit = match Suit::try_from(id % 4) {
            Some(suit) => suit,
            None => Suit::Clubs,
        };
        Ok(Card { suit, rank })
    }

    /// Returns whether the card is red.
    pub fn is_red(&self) -> (r: bool)
        ensures
            r == self.suit.spec_is_red(),
    {
        self.suit.is_red()
    }

    /// Parses a rank character followed by a suit symbol.
    pub fn parse_pair(a: char, b: char) -> (r: Option<Card>)
        ensures
            r == Card::spec_parse_pair(a, b),
    {
        match (Rank::parse(a), Suit::parse(b)) {
            (Some(rank), Some(suit)) => Some(Card { suit, rank }),
            _ => None,
        }
    }

    /// Parses the two-character text of a card, such as `"8♠"` or `"K♦"`.
    pub fn try_from(value: &str) -> (r: Result<Card, FreeCellError>)
        ensures
            r is Ok <==> Card::spec_parse(value@) is Some,
            r is Ok ==> Card::spec_parse(value@) == Some(r->Ok_0),
            r is Err ==> r->Err_0 == FreeCellError::InvalidCardText,
    {
        if value.unicode_len() != 2 {
            return Err(FreeCellError::InvalidCardText);
        }
        match Card::parse_pair(value.get_char(0), value.get_char(1)) {
            Some(card) => Ok(card),
            None => Err(FreeCellError::InvalidCardText),
        }
    }

    /// Creates a card from a text that is known to be the text of a card.
    pub fn from_str(representation: &str) -> (r: Card)
        requires
            Card::spec_parse(representation@) is Some,
        ensures
            Card::spec_parse(representation@) == Some(r),
    {
        match Card::try_from(representation) {
            Ok(card) => card,
            Err(_) => Card { suit: Suit::Clubs, rank: Rank::Ace },
        }
    }

    /// Returns the two-character text of the card.
    pub fn to_string(&self) -> (r: String)
        ensures
            r@ == self.spec_text(),
    {
        let mut r = String::from_str(self.rank.text());
        r.append(self.suit.text());
        r
    }
}

/// Each card has an id in `0..52`, and the id gives the card back.
pub proof fn lemma_card_id(c: Card)
    ensures
        0 <= c.spec_id() < 52,
        Card::spec_from_id(c.spec_id()) == c,
{
}

/// The text of a card parses back to the same card.
pub proof fn lemma_card_text_round_trip(c: Card)
    ensures
        Card::spec_parse(c.spec_text()) == Some(c),
{
}

/// Two distinct cards have distinct ids.
pub proof fn lemma_card_id_injective(a: Card, b: Card)
    ensures
        a.spec_id() == b.spec_id() ==> a == b,
{
    lemma_card_id(a);
    lemma_card_id(b);
}

} // verus!
