//! A Streets and Alleys board: eight stacks of cards and one foundation
//! per suit, with structural operations that check no rule of play.

use vstd::prelude::*;
use crate::card::{card2rank, rank_of, Card, MAX_RANKS, STACKS, SUITS};
use rand::Rng;

verus! {

/// What a board holds, as mathematical values.
pub struct BoardView {
    /// How many ranks of each suit a deal uses.
    pub ranks: nat,
    /// The stacks, bottom card first.
    pub stacks: Seq<Seq<Card>>,
    /// The top card of each suit's foundation (a blank card when empty).
    pub foundations: Seq<Card>,
}

/// Eight empty stacks.
pub open spec fn empty_stacks() -> Seq<Seq<Card>> {
    Seq::new(8, |k: int| Seq::<Card>::empty())
}

/// The four blank cards, one per suit.
pub open spec fn blank_foundations() -> Seq<Card> {
    Seq::new(4, |s: int| s as Card)
}

/// Every card of the stack is covered only by cards of lesser rank.
pub open spec fn stack_ordered(s: Seq<Card>) -> bool {
    forall|i: int| 1 <= i < s.len() ==> rank_of(#[trigger] s[i - 1] as int) > rank_of(s[i] as int)
}

/// Every stack is ordered: the game is won.
pub open spec fn all_ordered(st: Seq<Seq<Card>>) -> bool {
    forall|k: int| 0 <= k < st.len() ==> stack_ordered(#[trigger] st[k])
}

/// The deck before shuffling: the cards `4 .. n + 4` in order.
pub open spec fn fresh_deck(n: nat) -> Seq<Card> {
    Seq::new(n, |i: int| (i + 4) as Card)
}

/// `d` with the cards at positions `a` and `b` exchanged.
pub open spec fn swap_at(d: Seq<Card>, a: int, b: int) -> Seq<Card> {
    d.update(a, d[b]).update(b, d[a])
}

/// The deck after the first `m` exchanges of a shuffle: step `i`
/// exchanges position `i` with position `picks[i]`.
pub open spec fn shuffle_steps(d: Seq<Card>, picks: Seq<usize>, m: nat) -> Seq<Card>
    decreases m,
{
    if m == 0 {
        d
    } else {
        swap_at(shuffle_steps(d, picks, (m - 1) as nat), m - 1, picks[m - 1] as int)
    }
}

/// The shuffled deck of `n` cards for the given picks.
pub open spec fn shuffled(n: nat, picks: Seq<usize>) -> Seq<Card> {
    shuffle_steps(fresh_deck(n), picks, n)
}

/// How many of the first `n` cards dealt round-robin land on stack `k`.
pub open spec fn dealt_count(n: int, k: int) -> int {
    (n + 7 - k) / 8
}

/// The cards of `deck` that a round-robin deal puts on stack `k`.
pub open spec fn dealt_to(deck: Seq<Card>, k: int) -> Seq<Card> {
    Seq::new(dealt_count(deck.len() as int, k) as nat, |j: int| deck[k + 8 * j])
}

/// The eight stacks that a round-robin deal of `deck` makes.
pub open spec fn layout(deck: Seq<Card>) -> Seq<Seq<Card>> {
    Seq::new(8, |k: int| dealt_to(deck, k))
}

/// Some stack holds card `c`.
pub open spec fn holds(st: Seq<Seq<Card>>, c: Card) -> bool {
    exists|k: int, j: int| 0 <= k < st.len() && 0 <= j < st[k].len() && st[k][j] == c
}

/// The stacks hold each card `4 .. 4 * ranks + 4` exactly once and
/// nothing else.
pub open spec fn full_deal(st: Seq<Seq<Card>>, ranks: nat) -> bool {
    &&& forall|k: int, j: int|
        0 <= k < st.len() && 0 <= j < st[k].len() ==> 4 <= #[trigger] st[k][j] < 4 * ranks + 4
    &&& forall|k1: int, j1: int, k2: int, j2: int|
        0 <= k1 < st.len() && 0 <= j1 < st[k1].len() && 0 <= k2 < st.len() && 0 <= j2
            < st[k2].len() && (k1 != k2 || j1 != j2) ==> #[trigger] st[k1][j1] != #[trigger] st[k2][j2]
    &&& forall|c: Card| 4 <= c < 4 * ranks + 4 ==> #[trigger] holds(st, c)
}

/// The deck holds each card `4 .. n + 4` exactly once.
pub open spec fn is_full_deck(d: Seq<Card>, n: nat) -> bool {
    &&& d.len() == n
    &&& forall|i: int| 0 <= i < d.len() ==> 4 <= #[trigger] d[i] < n + 4
    &&& forall|i: int, j: int| 0 <= i < d.len() && 0 <= j < d.len() && i != j ==> #[trigger] d[i] != #[trigger] d[j]
    &&& forall|c: Card| 4 <= c < n + 4 ==> #[trigger] d.contains(c)
}

/// A Streets and Alleys board.
pub struct Board {
    ranks: usize,
    stack: Vec<Vec<Card>>,
    foundation: Vec<Card>,
}

impl View for Board {
    type V = BoardView;

    closed spec fn view(&self) -> BoardView {
        BoardView {
            ranks: self.ranks as nat,
            stacks: self.stack@.map_values(|v: Vec<Card>| v@),
            foundations: self.foundation@,
        }
    }
}

impl Board {
    /// Eight stacks, four foundations, and at most 13 ranks.
    pub open spec fn wf(&self) -> bool {
        &&& self@.stacks.len() == 8
        &&& self@.foundations.len() == 4
        &&& self@.ranks <= 13
    }

    /// All stacks are empty.
    pub open spec fn stacks_empty(&self) -> bool {
        forall|k: int| 0 <= k < self@.stacks.len() ==> (#[trigger] self@.stacks[k]).len() == 0
    }

    /// Create a fresh board for the given number of ranks: empty stacks,
    /// and each foundation holding its suit's blank card.
    pub fn new(ranks: usize) -> (b: Board)
        requires
            ranks <= MAX_RANKS,
        ensures
            b.wf(),
            b@.ranks == ranks,
            b@.stacks == empty_stacks(),
            b@.foundations == blank_foundations(),
    {
        let mut stack: Vec<Vec<Card>> = Vec::new();
        let mut k: usize = 0;
        while k < STACKS
            invariant
                k <= 8,
                stack@.len() == k,
                forall|i: int| 0 <= i < k ==> (#[trigger] stack@[i])@.len() == 0,
            decreases 8 - k,
        {
            stack.push(Vec::with_capacity(ranks));
            k = k + 1;
        }
        let mut foundation: Vec<Card> = Vec::new();
        let mut s: usize = 0;
        while s < SUITS
            invariant
                s <= 4,
                foundation@ == blank_foundations().take(s as int),
            decreases 4 - s,
        {
            foundation.push(s);
            proof {
                assert(blank_foundations().take(s + 1) =~= blank_foundations().take(s as int).push(s));
            }
            s = s + 1;
        }
        let b = Board { ranks, stack, foundation };
        assert forall|i: int| 0 <= i < 8 implies b@.stacks[i] =~= empty_stacks()[i] by {
            assert(stack@[i]@.len() == 0);
        }
        assert(b@.stacks =~= empty_stacks());
        assert(blank_foundations().take(4) =~= blank_foundations());
        b
    }

    /// Is the game done?  True when every stack is ordered.
    pub fn is_done(&self) -> (r: bool)
        requires
            self.wf(),
        ensures
            r == all_ordered(self@.stacks),
    {
        let mut k: usize = 0;
        while k < STACKS
            invariant
                self.wf(),
                k <= 8,
                forall|i: int| 0 <= i < k ==> stack_ordered(#[trigger] self@.stacks[i]),
            decreases 8 - k,
        {
            assert(self@.stacks[k as int] == self.stack@[k as int]@);
            if !is_stack_done(self.stack[k].as_slice()) {
                return false;
            }
            k = k + 1;
        }
        true
    }

    /// Add a card to the top of a stack.
    pub fn push_card(&mut self, s: usize, c: Card)
        requires
            old(self).wf(),
            s < STACKS,
        ensures
            final(self).wf(),
            final(self)@.ranks == old(self)@.ranks,
            final(self)@.foundations == old(self)@.foundations,
            final(self)@.stacks == old(self)@.stacks.update(s as int, old(self)@.stacks[s as int].push(c)),
    {
        self.stack[s].push(c);
        assert(self@.stacks =~= old(self)@.stacks.update(s as int, old(self)@.stacks[s as int].push(c)));
    }

    /// The number of cards in a stack.
    pub fn stack_len(&self, s: usize) -> (r: usize)
        requires
            self.wf(),
            s < STACKS,
        ensures
            r == self@.stacks[s as int].len(),
    {
        self.stack[s].len()
    }

    /// Remove the top card of a stack (`None` when the stack is empty).
    pub fn pop_card(&mut self, s: usize) -> (r: Option<Card>)
        requires
            old(self).wf(),
            s < STACKS,
        ensures
            final(self).wf(),
            final(self)@.ranks == old(self)@.ranks,
            final(self)@.foundations == old(self)@.foundations,
            old(self)@.stacks[s as int].len() == 0 ==> r is None && final(self)@.stacks == old(self)@.stacks,
            old(self)@.stacks[s as int].len() > 0 ==> r == Some(old(self)@.stacks[s as int].last())
                && final(self)@.stacks == old(self)@.stacks.update(s as int, old(self)@.stacks[s as int].drop_last()),
    {
        let r = self.stack[s].pop();
        assert(self@.stacks =~= old(self)@.stacks.update(s as int, self.stack@[s as int]@));
        if r.is_none() {
            assert(self@.stacks =~= old(self)@.stacks);
        }
        r
    }

    /// The top card of a stack (`None` when the stack is empty).
    pub fn last_card(&self, s: usize) -> (r: Option<Card>)
        requires
            self.wf(),
            s < STACKS,
        ensures
            self@.stacks[s as int].len() == 0 ==> r is None,
            self@.stacks[s as int].len() > 0 ==> r == Some(self@.stacks[s as int].last()),
    {
        let st: &Vec<Card> = &self.stack[s];
        let n = st.len();
        if n == 0 {
            None
        } else {
            Some(st[n - 1])
        }
    }

    /// The cards of a stack, bottom card first.
    pub fn stack_iter(&self, s: usize) -> (r: &[Card])
        requires
            self.wf(),
            s < STACKS,
        ensures
            r@ == self@.stacks[s as int],
    {
        self.stack[s].as_slice()
    }

    /// The top card of a suit's foundation.
    pub fn foundation_ref(&self, r: usize) -> (c: Card)
        requires
            self.wf(),
            r < SUITS,
        ensures
            c == self@.foundations[r as int],
    {
        self.foundation[r]
    }

    /// Set the top card of a suit's foundation.
    pub fn foundation_set(&mut self, r: usize, c: Card)
        requires
            old(self).wf(),
            r < SUITS,
        ensures
            final(self).wf(),
            final(self)@.ranks == old(self)@.ranks,
            final(self)@.stacks == old(self)@.stacks,
            final(self)@.foundations == old(self)@.foundations.update(r as int, c),
    {
        self.foundation[r] = c;
    }

    /// Empty every stack and put the blank cards back on the foundations,
    /// ready for a new deal with the same number of ranks.
    pub fn clear(&mut self)
        requires
            old(self).wf(),
        ensures
            final(self).wf(),
            final(self)@.ranks == old(self)@.ranks,
            final(self)@.stacks == empty_stacks(),
            final(self)@.foundations == blank_foundations(),
    {
        let mut k: usize = 0;
        while k < STACKS
            invariant
                self.wf(),
                self@.ranks == old(self)@.ranks,
                self@.foundations == old(self)@.foundations,
                k <= 8,
                forall|i: int| 0 <= i < k ==> (#[trigger] self@.stacks[i]).len() == 0,
            decreases 8 - k,
        {
            let ghost prev = self@.stacks;
            self.stack[k].clear();
            assert(self@.stacks =~= prev.update(k as int, Seq::empty()));
            k = k + 1;
        }
        let mut s: usize = 0;
        while s < SUITS
            invariant
                self.wf(),
                self@.ranks == old(self)@.ranks,
                self.stacks_empty(),
                s <= 4,
                forall|i: int| 0 <= i < s ==> self@.foundations[i] == i,
            decreases 4 - s,
        {
            self.foundation[s] = s;
            s = s + 1;
        }
        assert forall|i: int| 0 <= i < 8 implies self@.stacks[i] =~= empty_stacks()[i] by {
            assert(self@.stacks[i].len() == 0);
        }
        assert(self@.stacks =~= empty_stacks());
        assert(self@.foundations =~= blank_foundations());
    }

    /// Shuffle a fresh deck of `4 * ranks` cards and deal it round-robin
    /// onto the stacks, which must be empty.  Step `i` of the shuffle
    /// exchanges the cards at positions `i` and `picks[i]`.
    pub fn deal_with_picks(&mut self, picks: &Vec<usize>)
        requires
            old(self).wf(),
            old(self).stacks_empty(),
            picks@.len() == 4 * old(self)@.ranks,
            forall|i: int| 0 <= i < picks@.len() ==> #[trigger] picks@[i] < picks@.len(),
        ensures
            final(self).wf(),
            final(self)@.ranks == old(self)@.ranks,
            final(self)@.foundations == old(self)@.foundations,
            final(self)@.stacks == layout(shuffled(4 * old(self)@.ranks, picks@)),
            full_deal(final(self)@.stacks, final(self)@.ranks),
            forall|k: int| 0 <= k < 8 ==> (#[trigger] final(self)@.stacks[k]).len() == dealt_count(4 * old(self)@.ranks as int, k),
    {
        let size = self.ranks * SUITS;
        let ghost n = size as nat;
        let mut deck: Vec<Card> = Vec::with_capacity(size);
        let mut i: usize = 0;
        while i < size
            invariant
                size == n,
                n <= 52,
                i <= size,
                deck@ == fresh_deck(n).take(i as int),
            decreases size - i,
        {
            deck.push(i + SUITS);
            assert(deck@ =~= fresh_deck(n).take(i + 1));
            i = i + 1;
        }
        assert(deck@ =~= fresh_deck(n));
        let mut i: usize = 0;
        while i < size
            invariant
                size == n,
                n <= 52,
                i <= size,
                picks@.len() == n,
                forall|m: int| 0 <= m < picks@.len() ==> #[trigger] picks@[m] < picks@.len(),
                deck@ == shuffle_steps(fresh_deck(n), picks@, i as nat),
            decreases size - i,
        {
            proof {
                lemma_shuffle_full(n, picks@, i as nat);
            }
            let j = picks[i];
            let a = deck[i];
            let b = deck[j];
            deck[i] = b;
            deck[j] = a;
            assert(deck@ =~= swap_at(shuffle_steps(fresh_deck(n), picks@, i as nat), i as int, j as int));
            i = i + 1;
        }
        proof {
            lemma_shuffle_full(n, picks@, n);
        }
        let ghost d = deck@;
        assert forall|k: int| 0 <= k < 8 implies self@.stacks[k] =~= layout(d.take(0))[k] by {
            assert(self@.stacks[k].len() == 0);
            assert(dealt_count(0, k) == 0);
        }
        assert(self@.stacks =~= layout(d.take(0)));
        let mut i: usize = 0;
        while i < size
            invariant
                size == n,
                d == deck@,
                d.len() == n,
                i <= size,
                self.wf(),
                self@.ranks == old(self)@.ranks,
                self@.foundations == old(self)@.foundations,
                self@.stacks == layout(d.take(i as int)),
            decreases size - i,
        {
            proof {
                lemma_layout_step(d, i as int);
            }
            self.push_card(i % STACKS, deck[i]);
            i = i + 1;
        }
        assert(d.take(n as int) =~= d);
        proof {
            lemma_layout_full(d, self@.ranks);
        }
    }

    /// Shuffle a fresh deck with fresh randomness and deal it round-robin
    /// onto the stacks, which must be empty.
    pub fn deal(&mut self)
        requires
            old(self).wf(),
            old(self).stacks_empty(),
        ensures
            final(self).wf(),
            final(self)@.ranks == old(self)@.ranks,
            final(self)@.foundations == old(self)@.foundations,
            full_deal(final(self)@.stacks, final(self)@.ranks),
            forall|k: int| 0 <= k < 8 ==> (#[trigger] final(self)@.stacks[k]).len() == dealt_count(4 * old(self)@.ranks as int, k),
    {
        let size = self.ranks * SUITS;
        let mut picks: Vec<usize> = Vec::with_capacity(size);
        let mut i: usize = 0;
        while i < size
            invariant
                size == 4 * self@.ranks,
                i <= size,
                picks@.len() == i,
                forall|m: int| 0 <= m < picks@.len() ==> #[trigger] picks@[m] < size,
            decreases size - i,
        {
            let j = random_index(size);
            picks.push(j);
            i = i + 1;
        }
        self.deal_with_picks(&picks);
    }
}

/// Whether the game is won depends on the ranks of the cards alone: two
/// boards whose stacks hold cards of the same ranks, place for place, are
/// both won or both not.
pub proof fn lemma_done_ignores_suit(a: Seq<Seq<Card>>, b: Seq<Seq<Card>>)
    requires
        a.len() == b.len(),
        forall|k: int| 0 <= k < a.len() ==> (#[trigger] a[k]).len() == b[k].len(),
        forall|k: int, j: int|
            0 <= k < a.len() && 0 <= j < a[k].len() ==> rank_of(#[trigger] a[k][j] as int) == rank_of(b[k][j] as int),
    ensures
        all_ordered(a) == all_ordered(b),
{
    assert forall|k: int| 0 <= k < a.len() implies stack_ordered(#[trigger] a[k]) == stack_ordered(b[k]) by {
        if stack_ordered(a[k]) {
            assert forall|i: int| 1 <= i < b[k].len() implies rank_of(#[trigger] b[k][i - 1] as int) > rank_of(b[k][i] as int) by {
                assert(rank_of(a[k][i - 1] as int) > rank_of(a[k][i] as int));
                assert(rank_of(a[k][i - 1] as int) == rank_of(b[k][i - 1] as int));
            }
        }
        if stack_ordered(b[k]) {
            assert forall|i: int| 1 <= i < a[k].len() implies rank_of(#[trigger] a[k][i - 1] as int) > rank_of(a[k][i] as int) by {
                assert(rank_of(b[k][i - 1] as int) > rank_of(b[k][i] as int));
                assert(rank_of(a[k][i - 1] as int) == rank_of(b[k][i - 1] as int));
            }
        }
    }
    if all_ordered(a) {
        assert forall|k: int| 0 <= k < b.len() implies stack_ordered(#[trigger] b[k]) by {
            assert(stack_ordered(a[k]));
        }
    }
    if all_ordered(b) {
        assert forall|k: int| 0 <= k < a.len() implies stack_ordered(#[trigger] a[k]) by {
            assert(stack_ordered(b[k]));
        }
    }
}

/// Relies on rand's `Rng::gen_range` on the thread's generator: a value
/// drawn from `[0, n)`; it panics when the range is empty.
#[verifier::external_body]
fn random_index(n: usize) -> (r: usize)
    requires
        0 < n,
    ensures
        r < n,
{
    rand::thread_rng().gen_range(0, n)
}

proof fn lemma_count_step(n: int, k: int)
    requires
        0 <= n,
        0 <= k < 8,
    ensures
        dealt_count(n + 1, k) == dealt_count(n, k) + (if n % 8 == k { 1int } else { 0int }),
        n % 8 == k ==> k + 8 * dealt_count(n, k) == n,
{
    let q = n / 8;
    let r = n % 8;
    assert(n == 8 * q + r && 0 <= r < 8) by (nonlinear_arith)
        requires
            q == n / 8,
            r == n % 8,
            n >= 0,
    ;
    assert(dealt_count(n, k) == q + (if r > k { 1int } else { 0int })) by (nonlinear_arith)
        requires
            n == 8 * q + r,
            0 <= r < 8,
            0 <= k < 8,
            dealt_count(n, k) == (n + 7 - k) / 8,
    ;
    assert(dealt_count(n + 1, k) == q + (if r >= k { 1int } else { 0int })) by (nonlinear_arith)
        requires
            n == 8 * q + r,
            0 <= r < 8,
            0 <= k < 8,
            dealt_count(n + 1, k) == (n + 8 - k) / 8,
    ;
}

proof fn lemma_count_bounds(n: int, k: int, j: int)
    requires
        0 <= n,
        0 <= k < 8,
        0 <= j,
    ensures
        j < dealt_count(n, k) <==> k + 8 * j < n,
{
    assert(j < (n + 7 - k) / 8 <==> k + 8 * j < n) by (nonlinear_arith)
        requires
            0 <= n,
            0 <= k < 8,
            0 <= j,
    ;
}

proof fn lemma_fresh_full(n: nat)
    requires
        n + 4 <= usize::MAX,
    ensures
        is_full_deck(fresh_deck(n), n),
{
    let d = fresh_deck(n);
    assert forall|c: Card| 4 <= c < n + 4 implies #[trigger] d.contains(c) by {
        assert(d[c - 4] == c);
    }
}

proof fn lemma_swap_full(d: Seq<Card>, n: nat, a: int, b: int)
    requires
        is_full_deck(d, n),
        0 <= a < n,
        0 <= b < n,
    ensures
        is_full_deck(swap_at(d, a, b), n),
{
    let e = swap_at(d, a, b);
    assert forall|i: int| 0 <= i < e.len() implies e[i] == d[if i == a { b } else if i == b { a } else { i }] by {}
    assert forall|c: Card| 4 <= c < n + 4 implies #[trigger] e.contains(c) by {
        assert(d.contains(c));
        let i = choose|i: int| 0 <= i < d.len() && d[i] == c;
        let w = if i == a { b } else if i == b { a } else { i };
        assert(e[w] == c);
    }
}

proof fn lemma_shuffle_full(n: nat, picks: Seq<usize>, m: nat)
    requires
        m <= n,
        n + 4 <= usize::MAX,
        picks.len() == n,
        forall|i: int| 0 <= i < n ==> #[trigger] picks[i] < n,
    ensures
        is_full_deck(shuffle_steps(fresh_deck(n), picks, m), n),
    decreases m,
{
    if m == 0 {
        lemma_fresh_full(n);
    } else {
        lemma_shuffle_full(n, picks, (m - 1) as nat);
        lemma_swap_full(shuffle_steps(fresh_deck(n), picks, (m - 1) as nat), n, m - 1, picks[m - 1] as int);
    }
}

proof fn lemma_layout_step(d: Seq<Card>, i: int)
    requires
        0 <= i < d.len(),
    ensures
        layout(d.take(i + 1)) == layout(d.take(i)).update(i % 8, layout(d.take(i))[i % 8].push(d[i])),
{
    let a = layout(d.take(i + 1));
    let b = layout(d.take(i)).update(i % 8, layout(d.take(i))[i % 8].push(d[i]));
    assert forall|k: int| 0 <= k < 8 implies a[k] =~= b[k] by {
        lemma_count_step(i, k);
        assert forall|j: int| 0 <= j < a[k].len() implies a[k][j] == b[k][j] by {
            lemma_count_bounds(i + 1, k, j);
            lemma_count_bounds(i, k, j);
        }
    }
    assert(a =~= b);
}

proof fn lemma_layout_full(d: Seq<Card>, ranks: nat)
    requires
        is_full_deck(d, 4 * ranks),
    ensures
        full_deal(layout(d), ranks),
        forall|k: int| 0 <= k < 8 ==> (#[trigger] layout(d)[k]).len() == dealt_count(4 * ranks as int, k),
{
    let st = layout(d);
    let n: int = 4 * ranks as int;
    assert forall|k: int, j: int| 0 <= k < st.len() && 0 <= j < st[k].len() implies st[k][j] == d[k + 8 * j]
        && 0 <= k + 8 * j < n by {
        lemma_count_bounds(n, k, j);
    }
    assert forall|k1: int, j1: int, k2: int, j2: int|
        0 <= k1 < st.len() && 0 <= j1 < st[k1].len() && 0 <= k2 < st.len() && 0 <= j2 < st[k2].len()
            && (k1 != k2 || j1 != j2) implies #[trigger] st[k1][j1] != #[trigger] st[k2][j2] by {
        assert(st[k1][j1] == d[k1 + 8 * j1]);
        assert(st[k2][j2] == d[k2 + 8 * j2]);
        assert(k1 + 8 * j1 != k2 + 8 * j2) by (nonlinear_arith)
            requires
                0 <= k1 < 8,
                0 <= k2 < 8,
                k1 != k2 || j1 != j2,
        ;
    }
    assert forall|c: Card| 4 <= c < n + 4 implies #[trigger] holds(st, c) by {
        assert(d.contains(c));
        let i = choose|i: int| 0 <= i < d.len() && d[i] == c;
        let k = i % 8;
        let j = i / 8;
        assert(i == k + 8 * j && 0 <= k < 8 && 0 <= j) by (nonlinear_arith)
            requires
                k == i % 8,
                j == i / 8,
                i >= 0,
        ;
        lemma_count_bounds(n, k, j);
        assert(st[k][j] == c);
    }
}

/// A stack is done when no card is out of order.
fn is_stack_done(s: &[Card]) -> (r: bool)
    ensures
        r == stack_ordered(s@),
{
    let n = s.len();
    if n <= 1 {
        return true;
    }
    let mut i: usize = 1;
    while i < n
        invariant
            n == s@.len(),
            1 <= i <= n,
            forall|j: int| 1 <= j < i ==> rank_of(#[trigger] s@[j - 1] as int) > rank_of(s@[j] as int),
        decreases n - i,
    {
        if card2rank(s[i - 1]) <= card2rank(s[i]) {
            return false;
        }
        i = i + 1;
    }
    true
}

} // verus!
