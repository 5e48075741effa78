//! The rules of play and the decisions of a session: which moves are
//! legal, what a move does to the board, and how each token read from
//! the player advances a game.

use vstd::prelude::*;
use crate::board::{all_ordered, Board, BoardView};
use crate::card::{card2rank, card2suit, rank_of, suit_of, Card, MAX_RANKS, STACKS, SUITS};
use crate::keys::Token;

verus! {

/// Smallest number of ranks a game may be played with.
pub const MIN_RANKS: usize = 5;

/// How a game ended.
#[derive(Clone, Copy, Debug, PartialEq, Eq, Structural)]
pub enum Ans {
    Win,
    Lose,
}

/// Where a game stands between two tokens.
#[derive(Clone, Copy, Debug, PartialEq, Eq, Structural)]
pub enum Phase {
    /// Waiting for the stack to move a card from.
    AwaitingFrom,
    /// The top card `card` of stack `from` is picked up; waiting for
    /// where to put it.
    AwaitingTo { from: usize, card: Card },
    /// The game is over.
    Over(Ans),
}

/// What a step did, for the player to be told.  Stacks are numbered
/// from 0.
#[derive(Clone, Copy, Debug, PartialEq, Eq, Structural)]
pub enum Report {
    /// The key was not a token that fits here.
    BadInput,
    /// The chosen stack has no card.
    NoCard { from: usize },
    /// The top card of a stack was picked up.
    PickedUp { from: usize, card: Card },
    /// A card was moved, or could not be moved, to its foundation.
    ToFoundation { from: usize, card: Card, moved: bool },
    /// A card was moved, or could not be moved, to another stack.
    ToStack { from: usize, to: usize, card: Card, moved: bool },
    /// The help text was asked for.
    Help,
    /// The player quit the game.
    Quit,
}

/// Card `c` may go to its suit's foundation: it is the card just above
/// the one that foundation holds.
pub open spec fn can_found(b: BoardView, c: Card) -> bool {
    c == 4 + b.foundations[suit_of(c as int)]
}

/// Card `c` may go on stack `t`: the stack is empty, or its top card is
/// one rank higher than `c`.
pub open spec fn can_stack(b: BoardView, t: int, c: Card) -> bool {
    b.stacks[t].len() == 0 || rank_of(b.stacks[t].last() as int) == rank_of(c as int) + 1
}

/// The board after card `c` leaves stack `s` for its foundation.
pub open spec fn after_found(b: BoardView, s: int, c: Card) -> BoardView {
    BoardView {
        ranks: b.ranks,
        stacks: b.stacks.update(s, b.stacks[s].drop_last()),
        foundations: b.foundations.update(suit_of(c as int), c),
    }
}

/// The board after card `c` leaves stack `s` for stack `t`.
pub open spec fn after_stack(b: BoardView, s: int, t: int, c: Card) -> BoardView {
    let popped = b.stacks.update(s, b.stacks[s].drop_last());
    BoardView { ranks: b.ranks, stacks: popped.update(t, popped[t].push(c)), foundations: b.foundations }
}

/// Card `c` is the top card of stack `s`.
pub open spec fn is_top(b: BoardView, s: int, c: Card) -> bool {
    0 <= s < 8 && b.stacks[s].len() > 0 && b.stacks[s].last() == c
}

/// A phase that fits the board: a picked-up card is still on top of
/// its stack.
pub open spec fn phase_fits(b: BoardView, p: Phase) -> bool {
    match p {
        Phase::AwaitingTo { from, card } => is_top(b, from as int, card),
        _ => true,
    }
}

/// The phase a game settles in with the board as it is: won when every
/// stack is ordered, else waiting for the next move.
pub open spec fn settle(b: BoardView) -> Phase {
    if all_ordered(b.stacks) {
        Phase::Over(Ans::Win)
    } else {
        Phase::AwaitingFrom
    }
}

/// One step of a game: the board, phase and report that follow the
/// token `t` (`None` for an invalid key) read in phase `p`.
pub open spec fn transition(b: BoardView, p: Phase, t: Option<Token>) -> (BoardView, Phase, Report) {
    match t {
        Some(Token::Quit) => (b, Phase::Over(Ans::Lose), Report::Quit),
        Some(Token::Help) => (b, settle(b), Report::Help),
        None => (b, settle(b), Report::BadInput),
        Some(Token::Select(d)) => match p {
            Phase::AwaitingTo { from, card } => if d == 0 {
                if can_found(b, card) {
                    let nb = after_found(b, from as int, card);
                    (nb, settle(nb), Report::ToFoundation { from, card, moved: true })
                } else {
                    (b, settle(b), Report::ToFoundation { from, card, moved: false })
                }
            } else if d <= 8 {
                let to = (d - 1) as usize;
                if can_stack(b, to as int, card) {
                    let nb = after_stack(b, from as int, to as int, card);
                    (nb, settle(nb), Report::ToStack { from, to, card, moved: true })
                } else {
                    (b, settle(b), Report::ToStack { from, to, card, moved: false })
                }
            } else {
                (b, settle(b), Report::BadInput)
            },
            _ => if 1 <= d <= 8 {
                let from = (d - 1) as usize;
                if b.stacks[from as int].len() == 0 {
                    (b, settle(b), Report::NoCard { from })
                } else {
                    let card = b.stacks[from as int].last();
                    (b, Phase::AwaitingTo { from, card }, Report::PickedUp { from, card })
                }
            } else {
                (b, settle(b), Report::BadInput)
            },
        },
    }
}

/// The number of ranks a game may be played with: 5 to 13.
pub fn ranks_allowed(n: usize) -> (r: bool)
    ensures
        r == (MIN_RANKS <= n <= MAX_RANKS),
{
    MIN_RANKS <= n && n <= MAX_RANKS
}

/// Move the top card `c` of stack `s` to its suit's foundation when the
/// rules allow it; report whether it moved.  The board is unchanged when
/// it did not.
pub fn move_to_foundation(b: &mut Board, s: usize, c: Card) -> (moved: bool)
    requires
        old(b).wf(),
        is_top(old(b)@, s as int, c),
    ensures
        final(b).wf(),
        moved == can_found(old(b)@, c),
        moved ==> final(b)@ == after_found(old(b)@, s as int, c),
        !moved ==> final(b)@ == old(b)@,
{
    let to = card2suit(c);
    let f = b.foundation_ref(to);
    if c >= SUITS && c - SUITS == f {
        b.pop_card(s);
        b.foundation_set(to, c);
        true
    } else {
        false
    }
}

/// Whether card `c` may be moved onto stack `t`.
pub fn can_move_to_stack(b: &Board, t: usize, c: Card) -> (r: bool)
    requires
        b.wf(),
        t < STACKS,
    ensures
        r == can_stack(b@, t as int, c),
{
    match b.last_card(t) {
        None => true,
        Some(d) => card2rank(d) == 1 + card2rank(c),
    }
}

/// Move the top card `c` of stack `s` onto stack `t` when the rules allow
/// it; report whether it moved.  The board is unchanged when it did not.
pub fn move_to_stack(b: &mut Board, s: usize, t: usize, c: Card) -> (moved: bool)
    requires
        old(b).wf(),
        is_top(old(b)@, s as int, c),
        t < STACKS,
    ensures
        final(b).wf(),
        moved == can_stack(old(b)@, t as int, c),
        moved ==> final(b)@ == after_stack(old(b)@, s as int, t as int, c),
        !moved ==> final(b)@ == old(b)@,
{
    if can_move_to_stack(b, t, c) {
        b.pop_card(s);
        b.push_card(t, c);
        true
    } else {
        false
    }
}

/// The phase a game settles in with the board as it is.
pub fn begin(b: &Board) -> (p: Phase)
    requires
        b.wf(),
    ensures
        p == settle(b@),
{
    if b.is_done() {
        Phase::Over(Ans::Win)
    } else {
        Phase::AwaitingFrom
    }
}

/// Advance a game by one token read in phase `p` (`None` for an invalid
/// key): pick up a card, place it, or refuse, and say what happened.
pub fn step(b: &mut Board, p: Phase, t: Option<Token>) -> (r: (Phase, Report))
    requires
        old(b).wf(),
        phase_fits(old(b)@, p),
        !(p is Over),
    ensures
        final(b).wf(),
        phase_fits(final(b)@, r.0),
        (final(b)@, r.0, r.1) == transition(old(b)@, p, t),
{
    match t {
        Some(Token::Quit) => (Phase::Over(Ans::Lose), Report::Quit),
        Some(Token::Help) => (begin(b), Report::Help),
        None => (begin(b), Report::BadInput),
        Some(Token::Select(d)) => match p {
            Phase::AwaitingTo { from, card } => {
                if d == 0 {
                    let moved = move_to_foundation(b, from, card);
                    (begin(b), Report::ToFoundation { from, card, moved })
                } else if d <= STACKS {
                    let to = d - 1;
                    let moved = move_to_stack(b, from, to, card);
                    (begin(b), Report::ToStack { from, to, card, moved })
                } else {
                    (begin(b), Report::BadInput)
                }
            },
            _ => {
                if 1 <= d && d <= STACKS {
                    let from = d - 1;
                    match b.last_card(from) {
                        None => (begin(b), Report::NoCard { from }),
                        Some(card) => (Phase::AwaitingTo { from, card }, Report::PickedUp { from, card }),
                    }
                } else {
                    (begin(b), Report::BadInput)
                }
            },
        },
    }
}

/// What the player chose once a game is over.
#[derive(Clone, Copy, Debug, PartialEq, Eq, Structural)]
pub enum Replay {
    /// Deal again with the same number of ranks.
    Again,
    /// Leave the program.
    Exit,
    /// Change the number of ranks.
    Resize,
}

/// The outcome of a request to change the number of ranks.
#[derive(Clone, Copy, Debug, PartialEq, Eq, Structural)]
pub enum Resize {
    /// Play with this many ranks.
    Rank(usize),
    /// Play again without resizing.
    Again,
    /// Leave the program.
    Quit,
}

/// The choice a key makes at the replay prompt: space replays, `x` exits,
/// `r` resizes; other keys are ignored.
pub fn replay_choice(c: char) -> (r: Option<Replay>)
    ensures
        r == (if c == ' ' {
            Some(Replay::Again)
        } else if c == 'x' {
            Some(Replay::Exit)
        } else if c == 'r' {
            Some(Replay::Resize)
        } else {
            None
        }),
{
    match c {
        ' ' => Some(Replay::Again),
        'x' => Some(Replay::Exit),
        'r' => Some(Replay::Resize),
        _ => None,
    }
}

/// The rank a key names when choosing the largest rank: `5` to `9`, then
/// `t`, `j`, `q`, `k` for 10 to 13; `None` for any other key.
pub fn rank_key(c: char) -> (r: Option<usize>)
    ensures
        '5' <= c <= '9' ==> r == Some((c as int - '0' as int) as usize),
        c == 't' ==> r == Some(10usize),
        c == 'j' ==> r == Some(11usize),
        c == 'q' ==> r == Some(12usize),
        c == 'k' ==> r == Some(13usize),
        !('5' <= c <= '9' || c == 't' || c == 'j' || c == 'q' || c == 'k') ==> r is None,
        r matches Some(n) ==> MIN_RANKS <= n <= MAX_RANKS,
{
    match c {
        '5' => Some(5),
        '6' => Some(6),
        '7' => Some(7),
        '8' => Some(8),
        '9' => Some(9),
        't' => Some(10),
        'j' => Some(11),
        'q' => Some(12),
        'k' => Some(13),
        _ => None,
    }
}

/// What a key does after an invalid rank: space tries again (`None`), `x`
/// leaves the program, any other key resumes play without resizing.
pub fn after_bad_rank(c: char) -> (r: Option<Resize>)
    ensures
        r == (if c == ' ' {
            None
        } else if c == 'x' {
            Some(Resize::Quit)
        } else {
            Some(Resize::Again)
        }),
{
    match c {
        ' ' => None,
        'x' => Some(Resize::Quit),
        _ => Some(Resize::Again),
    }
}

/// The number of cards on the stacks.
pub open spec fn stacked_count(st: Seq<Seq<Card>>) -> int
    decreases st.len(),
{
    if st.len() == 0 {
        0
    } else {
        stacked_count(st.drop_last()) + st.last().len()
    }
}

/// The number of cards on the foundations: each holds as many cards as
/// the rank of its top card.
pub open spec fn founded_count(f: Seq<Card>) -> int
    decreases f.len(),
{
    if f.len() == 0 {
        0
    } else {
        founded_count(f.drop_last()) + rank_of(f.last() as int)
    }
}

/// Every card on the board, on the stacks or on the foundations.
pub open spec fn card_count(b: BoardView) -> int {
    stacked_count(b.stacks) + founded_count(b.foundations)
}

proof fn lemma_stacked_update(st: Seq<Seq<Card>>, i: int, x: Seq<Card>)
    requires
        0 <= i < st.len(),
    ensures
        stacked_count(st.update(i, x)) == stacked_count(st) - st[i].len() + x.len(),
    decreases st.len(),
{
    let u = st.update(i, x);
    if i == st.len() - 1 {
        assert(u.drop_last() =~= st.drop_last());
    } else {
        assert(u.drop_last() =~= st.drop_last().update(i, x));
        lemma_stacked_update(st.drop_last(), i, x);
    }
}

proof fn lemma_founded_update(f: Seq<Card>, i: int, c: Card)
    requires
        0 <= i < f.len(),
    ensures
        founded_count(f.update(i, c)) == founded_count(f) - rank_of(f[i] as int) + rank_of(c as int),
    decreases f.len(),
{
    let u = f.update(i, c);
    if i == f.len() - 1 {
        assert(u.drop_last() =~= f.drop_last());
    } else {
        assert(u.drop_last() =~= f.drop_last().update(i, c));
        lemma_founded_update(f.drop_last(), i, c);
    }
}

/// A legal move of card `c` from stack `s` to its foundation leaves one
/// card fewer on `s`, one more on the foundation of `c`'s suit, and as
/// many cards on the board as before.
pub proof fn lemma_foundation_move_conserves(b: BoardView, s: int, c: Card)
    requires
        b.stacks.len() == 8,
        b.foundations.len() == 4,
        is_top(b, s, c),
        can_found(b, c),
    ensures
        after_found(b, s, c).stacks[s].len() == b.stacks[s].len() - 1,
        rank_of(after_found(b, s, c).foundations[suit_of(c as int)] as int)
            == rank_of(b.foundations[suit_of(c as int)] as int) + 1,
        card_count(after_found(b, s, c)) == card_count(b),
{
    let a = after_found(b, s, c);
    let f = b.foundations[suit_of(c as int)];
    assert(rank_of(c as int) == rank_of(f as int) + 1);
    lemma_stacked_update(b.stacks, s, b.stacks[s].drop_last());
    lemma_founded_update(b.foundations, suit_of(c as int), c);
}

/// A legal move of card `c` from stack `s` onto stack `t` leaves one card
/// fewer on `s`, one more on `t`, and as many cards on the board as
/// before.
pub proof fn lemma_stack_move_conserves(b: BoardView, s: int, t: int, c: Card)
    requires
        b.stacks.len() == 8,
        is_top(b, s, c),
        0 <= t < 8,
        can_stack(b, t, c),
    ensures
        s != t,
        after_stack(b, s, t, c).stacks[s].len() == b.stacks[s].len() - 1,
        after_stack(b, s, t, c).stacks[t].len() == b.stacks[t].len() + 1,
        card_count(after_stack(b, s, t, c)) == card_count(b),
{
    let popped = b.stacks.update(s, b.stacks[s].drop_last());
    lemma_stacked_update(b.stacks, s, b.stacks[s].drop_last());
    lemma_stacked_update(popped, t, popped[t].push(c));
}

/// For a foundation holding a card of `c`'s suit, the foundation rule
/// says exactly that `c` is one rank above the foundation's card.
pub proof fn lemma_foundation_rule_by_rank(f: Card, c: Card)
    requires
        suit_of(f as int) == suit_of(c as int),
    ensures
        (c == 4 + f) <==> rank_of(c as int) == rank_of(f as int) + 1,
{
    assert((c == 4 + f) <==> c / 4 == f / 4 + 1) by (nonlinear_arith)
        requires
            c % 4 == f % 4,
            c >= 0,
            f >= 0,
    ;
}

} // verus!
