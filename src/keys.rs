//! Keys and the tokens they stand for: the alias table of the input side
//! and the digits used to label stacks.

use vstd::prelude::*;

verus! {

/// A canonical selector read from the player.
#[derive(Clone, Copy, Debug, PartialEq, Eq, Structural)]
pub enum Token {
    /// `0` selects the foundation, `1` to `8` a stack.
    Select(usize),
    /// Quit the game.
    Quit,
    /// Show the help text.
    Help,
}

/// The token a key stands for, aliases included; `None` for any other key.
pub open spec fn token_of(c: char) -> Option<Token> {
    if '0' <= c <= '8' {
        Some(Token::Select((c as int - '0' as int) as usize))
    } else if c == ' ' {
        Some(Token::Select(0))
    } else if c == 'j' {
        Some(Token::Select(1))
    } else if c == 'k' {
        Some(Token::Select(2))
    } else if c == 'l' {
        Some(Token::Select(3))
    } else if c == ';' {
        Some(Token::Select(4))
    } else if c == 'u' {
        Some(Token::Select(5))
    } else if c == 'i' {
        Some(Token::Select(6))
    } else if c == 'o' {
        Some(Token::Select(7))
    } else if c == 'p' {
        Some(Token::Select(8))
    } else if c == 'q' {
        Some(Token::Quit)
    } else if c == '?' {
        Some(Token::Help)
    } else {
        None
    }
}

/// Translate a key into a token: digits stand for themselves, space is
/// `0`, `j k l ;` are `1` to `4`, `u i o p` are `5` to `8`, `q` quits and
/// `?` asks for help.  Other keys are invalid.
pub fn key_to_token(c: char) -> (r: Option<Token>)
    ensures
        r == token_of(c),
{
    if '0' <= c && c <= '8' {
        Some(Token::Select(char2u(c)))
    } else {
        match c {
            ' ' => Some(Token::Select(0)),
            'j' => Some(Token::Select(1)),
            'k' => Some(Token::Select(2)),
            'l' => Some(Token::Select(3)),
            ';' => Some(Token::Select(4)),
            'u' => Some(Token::Select(5)),
            'i' => Some(Token::Select(6)),
            'o' => Some(Token::Select(7)),
            'p' => Some(Token::Select(8)),
            'q' => Some(Token::Quit),
            '?' => Some(Token::Help),
            _ => None,
        }
    }
}

/// The digit character for an integer in `0..=9`.
pub fn i2char(i: i32) -> (r: char)
    requires
        0 <= i <= 9,
    ensures
        r as int == '0' as int + i,
{
    match i {
        0 => '0',
        1 => '1',
        2 => '2',
        3 => '3',
        4 => '4',
        5 => '5',
        6 => '6',
        7 => '7',
        8 => '8',
        _ => '9',
    }
}

/// The integer for a digit character.
pub fn char2u(c: char) -> (r: usize)
    requires
        '0' <= c <= '9',
    ensures
        r == c as int - '0' as int,
{
    match c {
        '0' => 0,
        '1' => 1,
        '2' => 2,
        '3' => 3,
        '4' => 4,
        '5' => 5,
        '6' => 6,
        '7' => 7,
        '8' => 8,
        _ => 9,
    }
}

} // verus!
