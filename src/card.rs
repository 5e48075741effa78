//! Cards as small integers: `rank * 4 + suit`.  Cards below 4 are the
//! blank cards of each suit, which stand for "nothing there yet".

use vstd::prelude::*;

verus! {

/// Number of suits.
pub const SUITS: usize = 4;

/// Number of stacks on a board.
pub const STACKS: usize = 8;

/// Largest number of ranks a board can hold.
pub const MAX_RANKS: usize = 13;

/// A card: an integer whose suit is `c % 4` and whose rank is `c / 4`.
pub type Card = usize;

/// The suit of a card, in `0..4` (clubs, diamonds, hearts, spades).
pub open spec fn suit_of(c: int) -> int {
    c % 4
}

/// The rank of a card; 0 is the blank card, 1 the ace, 13 the king.
pub open spec fn rank_of(c: int) -> int {
    c / 4
}

/// The letter shown for a suit.
pub open spec fn suit_glyph(s: int) -> char {
    if s == 0 {
        'C'
    } else if s == 1 {
        'D'
    } else if s == 2 {
        'H'
    } else {
        'S'
    }
}

/// The letter shown for a rank (`-` for a blank card).
pub open spec fn rank_glyph(r: int) -> char {
    if r == 0 {
        '-'
    } else if r == 1 {
        'A'
    } else if 2 <= r <= 9 {
        (r + 48) as char
    } else if r == 10 {
        'T'
    } else if r == 11 {
        'J'
    } else if r == 12 {
        'Q'
    } else {
        'K'
    }
}

/// The suit associated with a card.
pub fn card2suit(c: Card) -> (r: usize)
    ensures
        r == suit_of(c as int),
        r < 4,
{
    c % SUITS
}

/// The rank associated with a card.
pub fn card2rank(c: Card) -> (r: usize)
    ensures
        r == rank_of(c as int),
{
    c / SUITS
}

/// The suit of a card as a letter.
pub fn show_suit(c: Card) -> (r: char)
    ensures
        r == suit_glyph(suit_of(c as int)),
{
    match card2suit(c) {
        0 => 'C',
        1 => 'D',
        2 => 'H',
        _ => 'S',
    }
}

/// The rank of a card as a letter; the card's rank is at most 13.
pub fn show_rank(c: Card) -> (r: char)
    requires
        rank_of(c as int) <= 13,
    ensures
        r == rank_glyph(rank_of(c as int)),
{
    match card2rank(c) {
        0 => '-',
        1 => 'A',
        2 => '2',
        3 => '3',
        4 => '4',
        5 => '5',
        6 => '6',
        7 => '7',
        8 => '8',
        9 => '9',
        10 => 'T',
        11 => 'J',
        12 => 'Q',
        _ => 'K',
    }
}

} // verus!
