use saa::board::Board;
use saa::game::{
    after_bad_rank, begin, can_move_to_stack, move_to_foundation, move_to_stack, rank_key,
    ranks_allowed, replay_choice, step, Ans, Phase, Replay, Report, Resize,
};
use saa::keys::{char2u, i2char, key_to_token, Token};

fn snapshot(b: &Board) -> (Vec<Vec<usize>>, Vec<usize>) {
    let stacks = (0..8).map(|s| b.stack_iter(s).to_vec()).collect();
    let found = (0..4).map(|r| b.foundation_ref(r)).collect();
    (stacks, found)
}

fn card_count(b: &Board) -> usize {
    let on_stacks: usize = (0..8).map(|s| b.stack_len(s)).sum();
    let on_foundations: usize = (0..4).map(|r| b.foundation_ref(r) / 4).sum();
    on_stacks + on_foundations
}

#[test]
fn foundation_takes_ace_then_refuses_gap() {
    let mut b = Board::new(5);
    b.push_card(0, 12);
    b.push_card(0, 4);
    assert_eq!(b.foundation_ref(0), 0);
    assert!(move_to_foundation(&mut b, 0, 4));
    assert_eq!(b.foundation_ref(0), 4);
    assert_eq!(b.stack_len(0), 1);
    let before = snapshot(&b);
    assert!(!move_to_foundation(&mut b, 0, 12));
    assert_eq!(snapshot(&b), before);
    assert_eq!(b.foundation_ref(0), 4);
}

#[test]
fn foundation_refuses_other_suit() {
    let mut b = Board::new(5);
    b.push_card(4, 5); // ace of diamonds
    b.push_card(5, 8); // two of clubs
    assert!(!move_to_foundation(&mut b, 5, 8));
    assert!(move_to_foundation(&mut b, 4, 5));
    assert_eq!(b.foundation_ref(1), 5);
    assert_eq!(b.foundation_ref(0), 0);
}

#[test]
fn empty_stack_accepts_any_card() {
    let mut b = Board::new(13);
    b.push_card(0, 55);
    assert!(can_move_to_stack(&b, 1, 55));
    assert!(move_to_stack(&mut b, 0, 1, 55));
    assert_eq!(b.stack_len(0), 0);
    assert_eq!(b.last_card(1), Some(55));
}

#[test]
fn stack_topped_by_five_accepts_only_four() {
    let mut b = Board::new(13);
    b.push_card(0, 20); // rank 5
    b.push_card(1, 12); // rank 3
    b.push_card(2, 24); // rank 6
    b.push_card(3, 17); // rank 4
    let before = snapshot(&b);
    assert!(!move_to_stack(&mut b, 1, 0, 12));
    assert!(!move_to_stack(&mut b, 2, 0, 24));
    assert_eq!(snapshot(&b), before);
    assert!(move_to_stack(&mut b, 3, 0, 17));
    assert_eq!(b.stack_iter(0), &[20usize, 17][..]);
    assert_eq!(b.stack_len(3), 0);
}

#[test]
fn stack_move_onto_own_stack_is_refused() {
    let mut b = Board::new(5);
    b.push_card(0, 8);
    assert!(!move_to_stack(&mut b, 0, 0, 8));
    assert_eq!(b.stack_iter(0), &[8usize][..]);
}

#[test]
fn legal_moves_conserve_cards() {
    let mut b = Board::new(5);
    let picks: Vec<usize> = (0..20).collect();
    b.deal_with_picks(&picks);
    // Stack 0 is 4, 12, 20; stack 1 is 5, 13, 21; stack 4 is 8, 16.
    assert_eq!(card_count(&b), 20);
    assert!(move_to_stack(&mut b, 1, 0, 21) == false);
    assert!(move_to_stack(&mut b, 4, 0, 16));
    assert_eq!(b.stack_len(4), 1);
    assert_eq!(b.stack_len(0), 4);
    assert_eq!(card_count(&b), 20);
    b.push_card(6, 4);
    let n = card_count(&b);
    assert!(move_to_foundation(&mut b, 6, 4));
    assert_eq!(card_count(&b), n);
    assert_eq!(b.foundation_ref(0) / 4, 1);
}

#[test]
fn quit_while_choosing_source_loses_without_change() {
    let mut b = Board::new(5);
    b.deal();
    let before = snapshot(&b);
    let (p, r) = step(&mut b, Phase::AwaitingFrom, Some(Token::Quit));
    assert_eq!(p, Phase::Over(Ans::Lose));
    assert_eq!(r, Report::Quit);
    assert_eq!(snapshot(&b), before);
}

#[test]
fn quit_with_card_picked_up_loses_without_change() {
    let mut b = Board::new(5);
    b.push_card(0, 4);
    b.push_card(0, 8);
    let (p, r) = step(&mut b, Phase::AwaitingFrom, Some(Token::Select(1)));
    assert_eq!(p, Phase::AwaitingTo { from: 0, card: 8 });
    assert_eq!(r, Report::PickedUp { from: 0, card: 8 });
    let before = snapshot(&b);
    let (p, r) = step(&mut b, p, Some(Token::Quit));
    assert_eq!(p, Phase::Over(Ans::Lose));
    assert_eq!(r, Report::Quit);
    assert_eq!(snapshot(&b), before);
}

#[test]
fn step_reports_empty_stack_and_bad_input() {
    let mut b = Board::new(5);
    b.push_card(0, 4);
    b.push_card(0, 8);
    let (p, r) = step(&mut b, Phase::AwaitingFrom, Some(Token::Select(3)));
    assert_eq!(p, Phase::AwaitingFrom);
    assert_eq!(r, Report::NoCard { from: 2 });
    let (p, r) = step(&mut b, Phase::AwaitingFrom, Some(Token::Select(0)));
    assert_eq!(p, Phase::AwaitingFrom);
    assert_eq!(r, Report::BadInput);
    let (p, r) = step(&mut b, Phase::AwaitingFrom, None);
    assert_eq!(p, Phase::AwaitingFrom);
    assert_eq!(r, Report::BadInput);
    let (p, r) = step(&mut b, Phase::AwaitingTo { from: 0, card: 8 }, Some(Token::Select(9)));
    assert_eq!(p, Phase::AwaitingFrom);
    assert_eq!(r, Report::BadInput);
}

#[test]
fn help_cancels_picked_up_card() {
    let mut b = Board::new(5);
    b.push_card(0, 4);
    b.push_card(0, 8);
    let before = snapshot(&b);
    let (p, r) = step(&mut b, Phase::AwaitingTo { from: 0, card: 8 }, Some(Token::Help));
    assert_eq!(p, Phase::AwaitingFrom);
    assert_eq!(r, Report::Help);
    assert_eq!(snapshot(&b), before);
}

#[test]
fn step_moves_and_detects_win() {
    let mut b = Board::new(5);
    b.push_card(0, 4);
    b.push_card(0, 8);
    b.push_card(1, 16);
    assert_eq!(begin(&b), Phase::AwaitingFrom);
    let (p, _) = step(&mut b, Phase::AwaitingFrom, Some(Token::Select(1)));
    let (p, r) = step(&mut b, p, Some(Token::Select(2)));
    assert_eq!(r, Report::ToStack { from: 0, to: 1, card: 8, moved: false });
    assert_eq!(p, Phase::AwaitingFrom);
    let (p, _) = step(&mut b, p, Some(Token::Select(1)));
    let (p, r) = step(&mut b, p, Some(Token::Select(3)));
    assert_eq!(r, Report::ToStack { from: 0, to: 2, card: 8, moved: true });
    assert_eq!(p, Phase::Over(Ans::Win));
    assert!(b.is_done());
}

#[test]
fn step_to_foundation() {
    let mut b = Board::new(5);
    b.push_card(0, 8);
    b.push_card(0, 9);
    b.push_card(0, 4);
    let (p, _) = step(&mut b, Phase::AwaitingFrom, Some(Token::Select(1)));
    let (p, r) = step(&mut b, p, Some(Token::Select(0)));
    assert_eq!(r, Report::ToFoundation { from: 0, card: 4, moved: true });
    assert_eq!(p, Phase::AwaitingFrom);
    assert_eq!(b.foundation_ref(0), 4);
    let (p, _) = step(&mut b, p, Some(Token::Select(1)));
    let (p, r) = step(&mut b, p, Some(Token::Select(0)));
    assert_eq!(r, Report::ToFoundation { from: 0, card: 9, moved: false });
    assert_eq!(p, Phase::AwaitingFrom);
    assert_eq!(b.stack_len(0), 2);
}

#[test]
fn key_aliases() {
    assert_eq!(key_to_token(' '), Some(Token::Select(0)));
    assert_eq!(key_to_token('0'), Some(Token::Select(0)));
    assert_eq!(key_to_token('j'), Some(Token::Select(1)));
    assert_eq!(key_to_token('k'), Some(Token::Select(2)));
    assert_eq!(key_to_token('l'), Some(Token::Select(3)));
    assert_eq!(key_to_token(';'), Some(Token::Select(4)));
    assert_eq!(key_to_token('u'), Some(Token::Select(5)));
    assert_eq!(key_to_token('i'), Some(Token::Select(6)));
    assert_eq!(key_to_token('o'), Some(Token::Select(7)));
    assert_eq!(key_to_token('p'), Some(Token::Select(8)));
    assert_eq!(key_to_token('8'), Some(Token::Select(8)));
    assert_eq!(key_to_token('q'), Some(Token::Quit));
    assert_eq!(key_to_token('?'), Some(Token::Help));
    assert_eq!(key_to_token('9'), None);
    assert_eq!(key_to_token('z'), None);
}

#[test]
fn digit_conversions() {
    assert_eq!(i2char(0), '0');
    assert_eq!(i2char(7), '7');
    assert_eq!(i2char(9), '9');
    assert_eq!(char2u('0'), 0);
    assert_eq!(char2u('5'), 5);
    assert_eq!(char2u('9'), 9);
}

#[test]
fn replay_and_resize_keys() {
    assert_eq!(replay_choice(' '), Some(Replay::Again));
    assert_eq!(replay_choice('x'), Some(Replay::Exit));
    assert_eq!(replay_choice('r'), Some(Replay::Resize));
    assert_eq!(replay_choice('a'), None);
    assert_eq!(rank_key('5'), Some(5));
    assert_eq!(rank_key('9'), Some(9));
    assert_eq!(rank_key('t'), Some(10));
    assert_eq!(rank_key('j'), Some(11));
    assert_eq!(rank_key('q'), Some(12));
    assert_eq!(rank_key('k'), Some(13));
    assert_eq!(rank_key('4'), None);
    assert_eq!(rank_key('a'), None);
    assert_eq!(after_bad_rank(' '), None);
    assert_eq!(after_bad_rank('x'), Some(Resize::Quit));
    assert_eq!(after_bad_rank('y'), Some(Resize::Again));
}

#[test]
fn rank_bounds() {
    assert!(!ranks_allowed(4));
    assert!(ranks_allowed(5));
    assert!(ranks_allowed(11));
    assert!(ranks_allowed(13));
    assert!(!ranks_allowed(14));
}
