//! Cards, the point and strength tables, and the fixed 40-card deck.

use vstd::prelude::*;

verus! {

/// The four suits of the Spanish-style deck.
#[derive(Clone, Copy, Debug, PartialEq, Eq, Structural)]
pub enum Suit {
    Coin,
    Cup,
    Baton,
    Sword,
}

/// A playing card; equality is by `(number, suit)`.
#[derive(Clone, Copy, Debug, PartialEq, Eq, Structural)]
pub struct Card {
    pub number: u8,
    pub suit: Suit,
}

/// The legal card numbers: 1 through 7, 10, 11 and 12.
pub open spec fn valid_number(n: u8) -> bool {
    1 <= n <= 7 || n == 10 || n == 11 || n == 12
}

pub open spec fn valid_card(c: Card) -> bool {
    valid_number(c.number)
}

/// Points a card is worth to the winner of the trick that captures it.
pub open spec fn card_points(c: Card) -> u8 {
    if c.number == 1 {
        11
    } else if c.number == 3 {
        10
    } else if c.number == 10 {
        2
    } else if c.number == 11 {
        3
    } else if c.number == 12 {
        4
    } else {
        0
    }
}

/// Within-suit ranking used to compare two cards of the same suit; higher wins.
pub open spec fn card_strength(c: Card) -> u8 {
    if c.number == 1 {
        9
    } else if c.number == 3 {
        8
    } else if c.number == 12 {
        7
    } else if c.number == 11 {
        6
    } else if c.number == 10 {
        5
    } else if c.number == 7 {
        4
    } else if c.number == 6 {
        3
    } else if c.number == 5 {
        2
    } else if c.number == 4 {
        1
    } else {
        0
    }
}

/// Executable point table.
pub fn points_of(c: &Card) -> (r: u8)
    ensures
        r == card_points(*c),
{
    if c.number == 1 {
        11
    } else if c.number == 3 {
        10
    } else if c.number == 10 {
        2
    } else if c.number == 11 {
        3
    } else if c.number == 12 {
        4
    } else {
        0
    }
}

/// Executable strength table.
pub fn strength_of(c: &Card) -> (r: u8)
    ensures
        r == card_strength(*c),
{
    if c.number == 1 {
        9
    } else if c.number == 3 {
        8
    } else if c.number == 12 {
        7
    } else if c.number == 11 {
        6
    } else if c.number == 10 {
        5
    } else if c.number == 7 {
        4
    } else if c.number == 6 {
        3
    } else if c.number == 5 {
        2
    } else if c.number == 4 {
        1
    } else {
        0
    }
}

/// The `k`-th legal number, for `0 <= k < 10`.
pub open spec fn nth_number(k: int) -> u8 {
    if k < 7 {
        (k + 1) as u8
    } else if k == 7 {
        10
    } else if k == 8 {
        11
    } else {
        12
    }
}

/// The `k`-th suit, for `0 <= k < 4`.
pub open spec fn nth_suit(k: int) -> Suit {
    if k == 0 {
        Suit::Coin
    } else if k == 1 {
        Suit::Cup
    } else if k == 2 {
        Suit::Baton
    } else {
        Suit::Sword
    }
}

/// The `i`-th card of the reference deck ordering, for `0 <= i < 40`:
/// ten numbers within each suit, suits in the fixed order.
pub open spec fn deck_card(i: int) -> Card {
    Card { number: nth_number(i % 10), suit: nth_suit(i / 10) }
}

/// The full deck as a sequence: exactly one card of each legal
/// `(number, suit)` combination, 40 in all.
pub open spec fn full_deck_seq() -> Seq<Card> {
    Seq::new(40, |i: int| deck_card(i))
}

/// Executable card for one position of the reference ordering.
fn deck_card_at(i: usize) -> (c: Card)
    requires
        i < 40,
    ensures
        c == deck_card(i as int),
{
    let k: usize = i % 10;
    let number: u8 = if k < 7 {
        (k + 1) as u8
    } else if k == 7 {
        10
    } else if k == 8 {
        11
    } else {
        12
    };
    let s: usize = i / 10;
    let suit = if s == 0 {
        Suit::Coin
    } else if s == 1 {
        Suit::Cup
    } else if s == 2 {
        Suit::Baton
    } else {
        Suit::Sword
    };
    Card { number, suit }
}

/// Builds the full 40-card deck in the reference order.
pub fn full_deck() -> (d: Vec<Card>)
    ensures
        d@ == full_deck_seq(),
{
    let mut d: Vec<Card> = Vec::new();
    let mut i: usize = 0;
    while i < 40
        invariant
            i <= 40,
            d@.len() == i,
            forall|j: int| 0 <= j < i ==> d@[j] == deck_card(j),
        decreases 40 - i,
    {
        d.push(deck_card_at(i));
        i = i + 1;
    }
    proof {
        assert(d@ =~= full_deck_seq());
    }
    d
}

/// Every card of the full deck is a legal card.
pub proof fn lemma_full_deck_valid()
    ensures
        forall|i: int| 0 <= i < 40 ==> valid_card(#[trigger] full_deck_seq()[i]),
{
}

/// Distinct positions of the reference ordering hold distinct cards: the
/// deck has no duplicates.
pub proof fn lemma_full_deck_distinct()
    ensures
        forall|i: int, j: int|
            0 <= i < 40 && 0 <= j < 40 && i != j ==> deck_card(i) != deck_card(j),
{
    assert forall|i: int, j: int|
        0 <= i < 40 && 0 <= j < 40 && i != j implies deck_card(i) != deck_card(j) by {
        if deck_card(i) == deck_card(j) {
            assert(nth_number(i % 10) == nth_number(j % 10));
            assert(nth_suit(i / 10) == nth_suit(j / 10));
            assert(i % 10 == j % 10);
            assert(i / 10 == j / 10);
            assert(i == (i / 10) * 10 + i % 10);
            assert(j == (j / 10) * 10 + j % 10);
        }
    }
}

/// Any card counted in the full deck's multiset is a legal card.
pub proof fn lemma_deck_member_valid(c: Card)
    requires
        full_deck_seq().to_multiset().count(c) > 0,
    ensures
        valid_card(c),
{
    broadcast use vstd::seq_lib::group_to_multiset_ensures;

    assert(full_deck_seq().contains(c));
    let i = choose|i: int| 0 <= i < full_deck_seq().len() && full_deck_seq()[i] == c;
    assert(full_deck_seq()[i] == deck_card(i));
}

} // verus!
