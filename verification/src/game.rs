//! Per-match state and its state machine: roster, dealing, turn-by-turn play
//! and round resolution.

use vstd::prelude::*;
use vstd::pervasive::VecAdditionalExecFns;
use vstd::multiset::Multiset;
use crate::cards::{Card, Suit, card_points, card_strength, full_deck_seq, valid_card, points_of, strength_of};
use crate::events::{Ev, Event, events_view};

verus! {

/// Why an operation on a game was rejected; the state is left unchanged.
#[derive(Clone, Copy, Debug, PartialEq, Eq, Structural)]
pub enum GameError {
    /// No game with the given identifier.
    NotFound,
    /// The room already holds its full complement of players.
    Full,
    /// The play came from a player whose turn it is not.
    NotYourTurn,
    /// The played card is not in the claimed player's hand.
    NotInHand,
}

/// One joined player: identifier, current hand, accumulated score, and the
/// ordered queue of events not yet delivered to them.
pub struct Player {
    pub id: String,
    pub hand: Vec<Card>,
    pub score: u16,
    pub outbox: Vec<Event>,
}

impl Player {
    /// The mathematical view of this player's pending events.
    pub open spec fn outbox_v(self) -> Seq<Ev> {
        events_view(self.outbox@)
    }
}

/// Where a game stands in its life cycle.
#[derive(Clone, Copy, Debug, PartialEq, Eq, Structural)]
pub enum Phase {
    /// The roster is still filling; no cards have been dealt.
    Waiting,
    /// All players joined, cards dealt, plays accepted.
    Active,
    /// The final round resolved; no further mutation is accepted.
    Finished,
}

/// Room sizes the ruleset supports: the deck must split evenly into rounds,
/// and the initial deal of three cards each must leave the trump undealt.
pub open spec fn valid_player_count(n: u8) -> bool {
    1 <= n && 40int % (n as int) == 0 && 3 * (n as int) < 40
}

/// The multiset of all cards currently held in the players' hands.
pub open spec fn hands_of(ps: Seq<Player>) -> Multiset<Card>
    decreases ps.len(),
{
    if ps.len() == 0 {
        Multiset::empty()
    } else {
        hands_of(ps.drop_last()).add(ps.last().hand@.to_multiset())
    }
}

/// The ordered player identifiers, in join order.
pub open spec fn roster_of(ps: Seq<Player>) -> Seq<Seq<char>> {
    ps.map_values(|p: Player| p.id@)
}

/// Sum of the point table over a trick.
pub open spec fn trick_points(t: Seq<Card>) -> int
    decreases t.len(),
{
    if t.len() == 0 {
        0
    } else {
        trick_points(t.drop_last()) + card_points(t.last())
    }
}

/// Index (within the trick) of the best card among the first `k` cards:
/// a card beats the current best if it has the same suit and higher
/// strength, or if it is a trump while the best is not.
pub open spec fn best_upto(t: Seq<Card>, trump: Suit, k: int) -> int
    decreases k,
{
    if k <= 1 {
        0
    } else {
        let b = best_upto(t, trump, k - 1);
        let c = t[k - 1];
        if c.suit == t[b].suit {
            if card_strength(c) > card_strength(t[b]) {
                k - 1
            } else {
                b
            }
        } else if c.suit == trump {
            k - 1
        } else {
            b
        }
    }
}

/// Index within the trick of the card that wins it.
pub open spec fn winning_index(t: Seq<Card>, trump: Suit) -> int {
    best_upto(t, trump, t.len() as int)
}

/// First index with a maximal score; ties go to the earlier joiner.
pub open spec fn champ_upto(scores: Seq<int>, k: int) -> int
    decreases k,
{
    if k <= 1 {
        0
    } else {
        let b = champ_upto(scores, k - 1);
        if scores[k - 1] > scores[b] {
            k - 1
        } else {
            b
        }
    }
}

/// Index of the game's overall winner: the first player with the top score.
pub open spec fn champion_idx(scores: Seq<int>) -> int {
    champ_upto(scores, scores.len() as int)
}

/// First position of `c` in `s` (meaningful when `s` contains `c`).
pub open spec fn first_index_of(s: Seq<Card>, c: Card) -> int
    decreases s.len(),
{
    if s.len() == 0 {
        0
    } else if s[0] == c {
        0
    } else {
        1 + first_index_of(s.drop_first(), c)
    }
}

/// How many cards remain undealt during round `round` of an `n`-player game:
/// the initial deal takes `3 * n`, and each resolved round took `n` more
/// until the deck ran out.
pub open spec fn expected_deck_len(n: int, round: int) -> int {
    if 40 - 3 * n - (round - 1) * n >= 0 {
        40 - 3 * n - (round - 1) * n
    } else {
        0
    }
}

/// One in-progress match.
///
/// All mutation goes through the methods, whose contracts assume and
/// re-establish [`Game::wf`]; unverified callers must not write the fields
/// directly.
pub struct Game {
    /// Registry-assigned identifier; never reused.
    pub id: u64,
    /// Target room size, fixed at creation.
    pub num_players: u8,
    /// Joined players, in join order; fixes turn rotation and dealing order.
    pub players: Vec<Player>,
    /// Undealt cards; the trump stays at the bottom until dealt last.
    pub remaining_deck: Vec<Card>,
    /// Card fixing the trump suit, drawn at game start.
    pub trump: Card,
    /// Cards played in the current round, in play order.
    pub trick: Vec<Card>,
    /// Index into `players` of whoever plays next.
    pub turn: u8,
    /// Current round number, 1-based once the game starts.
    pub round: u8,
    /// Life-cycle phase.
    pub phase: Phase,
    /// Cards captured in already-resolved tricks, in resolution order.
    pub resolved: Vec<Card>,
}

impl Game {
    /// Room size as a mathematical integer.
    pub open spec fn n(self) -> int {
        self.num_players as int
    }

    /// Every card of the 40-card deck sits in exactly one place: undealt,
    /// in some hand, in the current trick, or captured by a past trick.
    pub open spec fn cards_partition(self) -> bool {
        self.remaining_deck@.to_multiset().add(hands_of(self.players@)).add(
            self.trick@.to_multiset(),
        ).add(self.resolved@.to_multiset()) == full_deck_seq().to_multiset()
    }

    /// Well-formedness: the state invariant every operation preserves.
    pub open spec fn wf(self) -> bool {
        &&& valid_player_count(self.num_players)
        &&& self.players@.len() <= self.n()
        &&& match self.phase {
            Phase::Waiting => {
                &&& self.remaining_deck@.len() == 0
                &&& self.trick@.len() == 0
                &&& self.resolved@.len() == 0
                &&& self.turn == 0
                &&& self.round == 0
                &&& forall|i: int|
                    0 <= i < self.players@.len() ==> (#[trigger] self.players@[i]).hand@.len() == 0
                        && self.players@[i].score == 0
            },
            Phase::Active => {
                &&& self.players@.len() == self.n()
                &&& valid_card(self.trump)
                &&& 1 <= self.round as int <= 40int / self.n()
                &&& (self.turn as int) < self.n()
                &&& self.trick@.len() < self.n()
                &&& self.remaining_deck@.len() == expected_deck_len(self.n(), self.round as int)
                &&& self.resolved@.len() == self.n() * (self.round as int - 1)
                &&& self.cards_partition()
                &&& forall|i: int|
                    0 <= i < self.players@.len() ==> (#[trigger] self.players@[i]).score as int
                        <= 110 * (self.round as int - 1)
            },
            Phase::Finished => {
                &&& self.players@.len() == self.n()
                &&& valid_card(self.trump)
                &&& (self.turn as int) < self.n()
                &&& self.trick@.len() == 0
                &&& self.remaining_deck@.len() == 0
                &&& self.resolved@.len() == 40
                &&& self.cards_partition()
                &&& forall|i: int|
                    0 <= i < self.players@.len() ==> (#[trigger] self.players@[i]).score <= 4400
            },
        }
    }

    /// Creates an empty room of the given size.
    pub fn new(id: u64, num_players: u8) -> (g: Game)
        requires
            valid_player_count(num_players),
        ensures
            g.wf(),
            g.id == id,
            g.num_players == num_players,
            g.phase == Phase::Waiting,
            g.players@.len() == 0,
    {
        Game {
            id,
            num_players,
            players: Vec::new(),
            remaining_deck: Vec::new(),
            trump: Card { number: 1, suit: Suit::Coin },
            trick: Vec::new(),
            turn: 0,
            round: 0,
            phase: Phase::Waiting,
            resolved: Vec::new(),
        }
    }
}

/// Appending a player adds their hand to the union of hands.
pub proof fn lemma_hands_of_push(ps: Seq<Player>, p: Player)
    ensures
        hands_of(ps.push(p)) == hands_of(ps).add(p.hand@.to_multiset()),
{
    assert(ps.push(p).drop_last() =~= ps);
    assert(ps.push(p).last() == p);
}

/// Replacing one player exchanges exactly that player's hand within the
/// union of hands.
pub proof fn lemma_hands_of_update(ps: Seq<Player>, i: int, p: Player)
    requires
        0 <= i < ps.len(),
    ensures
        hands_of(ps.update(i, p)).add(ps[i].hand@.to_multiset()) == hands_of(ps).add(
            p.hand@.to_multiset(),
        ),
    decreases ps.len(),
{
    broadcast use vstd::multiset::group_multiset_axioms;

    let upd = ps.update(i, p);
    if i == ps.len() - 1 {
        assert(upd.drop_last() =~= ps.drop_last());
        assert(upd.last() == p);
        assert(ps.last() == ps[i]);
        assert(hands_of(upd) == hands_of(ps.drop_last()).add(p.hand@.to_multiset()));
        assert(hands_of(ps) == hands_of(ps.drop_last()).add(ps[i].hand@.to_multiset()));
        assert forall|c: Card|
            hands_of(upd).add(ps[i].hand@.to_multiset()).count(c) == hands_of(ps).add(
                p.hand@.to_multiset(),
            ).count(c) by {}
        assert(hands_of(upd).add(ps[i].hand@.to_multiset()) =~= hands_of(ps).add(
            p.hand@.to_multiset(),
        ));
    } else {
        assert(upd.drop_last() =~= ps.drop_last().update(i, p));
        assert(upd.last() == ps.last());
        assert(ps.drop_last()[i] == ps[i]);
        lemma_hands_of_update(ps.drop_last(), i, p);
        assert(hands_of(upd) == hands_of(ps.drop_last().update(i, p)).add(
            ps.last().hand@.to_multiset(),
        ));
        assert(hands_of(ps) == hands_of(ps.drop_last()).add(ps.last().hand@.to_multiset()));
        assert forall|c: Card|
            hands_of(upd).add(ps[i].hand@.to_multiset()).count(c) == hands_of(ps).add(
                p.hand@.to_multiset(),
            ).count(c) by {
            assert(hands_of(ps.drop_last().update(i, p)).add(ps[i].hand@.to_multiset()).count(c)
                == hands_of(ps.drop_last()).add(p.hand@.to_multiset()).count(c));
        }
        assert(hands_of(upd).add(ps[i].hand@.to_multiset()) =~= hands_of(ps).add(
            p.hand@.to_multiset(),
        ));
    }
}

/// Replacing a player with one holding the same cards leaves the union of
/// hands unchanged.
pub proof fn lemma_hands_of_update_same(ps: Seq<Player>, i: int, p: Player)
    requires
        0 <= i < ps.len(),
        p.hand@ == ps[i].hand@,
    ensures
        hands_of(ps.update(i, p)) == hands_of(ps),
{
    broadcast use vstd::multiset::group_multiset_axioms;

    lemma_hands_of_update(ps, i, p);
    assert forall|c: Card| hands_of(ps.update(i, p)).count(c) == hands_of(ps).count(c) by {
        assert(hands_of(ps.update(i, p)).add(ps[i].hand@.to_multiset()).count(c) == hands_of(
            ps,
        ).add(p.hand@.to_multiset()).count(c));
    }
    assert(hands_of(ps.update(i, p)) =~= hands_of(ps));
}

/// Replacing a player whose new hand has one more card `c` inserts `c`
/// into the union of hands.
pub proof fn lemma_hands_of_gain(ps: Seq<Player>, i: int, p: Player, c: Card)
    requires
        0 <= i < ps.len(),
        p.hand@ == ps[i].hand@.push(c),
    ensures
        hands_of(ps.update(i, p)) == hands_of(ps).insert(c),
{
    broadcast use vstd::multiset::group_multiset_axioms;
    broadcast use vstd::seq_lib::group_to_multiset_ensures;

    lemma_hands_of_update(ps, i, p);
    assert(p.hand@.to_multiset() =~= ps[i].hand@.to_multiset().insert(c));
    assert forall|x: Card|
        hands_of(ps.update(i, p)).count(x) == hands_of(ps).insert(c).count(x) by {
        assert(hands_of(ps.update(i, p)).add(ps[i].hand@.to_multiset()).count(x) == hands_of(
            ps,
        ).add(p.hand@.to_multiset()).count(x));
    }
    assert(hands_of(ps.update(i, p)) =~= hands_of(ps).insert(c));
}

/// Replacing a player whose new hand lost one copy of `c` removes one `c`
/// from the union of hands.
pub proof fn lemma_hands_of_lose(ps: Seq<Player>, i: int, p: Player, c: Card, k: int)
    requires
        0 <= i < ps.len(),
        0 <= k < ps[i].hand@.len(),
        ps[i].hand@[k] == c,
        p.hand@ == ps[i].hand@.remove(k),
    ensures
        hands_of(ps.update(i, p)) == hands_of(ps).remove(c),
        hands_of(ps).count(c) >= 1,
    decreases ps.len(),
{
    broadcast use vstd::multiset::group_multiset_axioms;
    broadcast use vstd::seq_lib::group_to_multiset_ensures;

    lemma_hands_of_update(ps, i, p);
    assert(p.hand@.to_multiset() =~= ps[i].hand@.to_multiset().remove(c));
    assert(ps[i].hand@.to_multiset().count(c) >= 1) by {
        assert(ps[i].hand@.contains(c));
    }
    lemma_hands_of_count_lower(ps, i, c);
    assert forall|x: Card|
        hands_of(ps.update(i, p)).count(x) == hands_of(ps).remove(c).count(x) by {
        assert(hands_of(ps.update(i, p)).add(ps[i].hand@.to_multiset()).count(x) == hands_of(
            ps,
        ).add(p.hand@.to_multiset()).count(x));
    }
    assert(hands_of(ps.update(i, p)) =~= hands_of(ps).remove(c));
}

/// The union of hands holds at least as many copies of a card as any one
/// player's hand does.
pub proof fn lemma_hands_of_count_lower(ps: Seq<Player>, i: int, c: Card)
    requires
        0 <= i < ps.len(),
    ensures
        hands_of(ps).count(c) >= ps[i].hand@.to_multiset().count(c),
    decreases ps.len(),
{
    broadcast use vstd::multiset::group_multiset_axioms;

    if i == ps.len() - 1 {
        assert(ps.last() == ps[i]);
    } else {
        lemma_hands_of_count_lower(ps.drop_last(), i, c);
        assert(ps.drop_last()[i] == ps[i]);
    }
}

/// A trick's points are bounded by eleven per card, and never negative.
pub proof fn lemma_trick_points_bounds(t: Seq<Card>)
    ensures
        0 <= trick_points(t) <= 11 * t.len(),
    decreases t.len(),
{
    if t.len() > 0 {
        lemma_trick_points_bounds(t.drop_last());
    }
}

/// The best-card index always points into the prefix it was taken over.
pub proof fn lemma_best_upto_bounds(t: Seq<Card>, trump: Suit, k: int)
    requires
        1 <= k,
    ensures
        0 <= best_upto(t, trump, k) < k,
    decreases k,
{
    if k > 1 {
        lemma_best_upto_bounds(t, trump, k - 1);
    }
}

/// The champion index points at a player, holds the maximal score, and is
/// the first to do so.
pub proof fn lemma_champion(scores: Seq<int>, k: int)
    requires
        1 <= k <= scores.len(),
    ensures
        0 <= champ_upto(scores, k) < k,
        forall|i: int| 0 <= i < k ==> #[trigger] scores[i] <= scores[champ_upto(scores, k)],
        forall|i: int|
            0 <= i < champ_upto(scores, k) ==> #[trigger] scores[i] < scores[champ_upto(scores, k)],
    decreases k,
{
    if k > 1 {
        lemma_champion(scores, k - 1);
    }
}

/// The first occurrence of a contained card: in range, a match, and with no
/// earlier match.
pub proof fn lemma_first_index_of(s: Seq<Card>, c: Card)
    requires
        s.contains(c),
    ensures
        0 <= first_index_of(s, c) < s.len(),
        s[first_index_of(s, c)] == c,
        forall|j: int| 0 <= j < first_index_of(s, c) ==> s[j] != c,
    decreases s.len(),
{
    if s.len() > 0 && s[0] != c {
        assert(s.drop_first().contains(c)) by {
            let w = choose|w: int| 0 <= w < s.len() && s[w] == c;
            assert(s.drop_first()[w - 1] == c);
        }
        lemma_first_index_of(s.drop_first(), c);
        assert forall|j: int| 0 <= j < first_index_of(s, c) implies s[j] != c by {
            if j > 0 {
                assert(s.drop_first()[j - 1] == s[j]);
            }
        }
    }
}


/// All fields except the player list agree between the two states.
pub open spec fn same_except_players(a: Game, b: Game) -> bool {
    &&& b.id == a.id
    &&& b.num_players == a.num_players
    &&& b.remaining_deck@ == a.remaining_deck@
    &&& b.trump == a.trump
    &&& b.trick@ == a.trick@
    &&& b.turn == a.turn
    &&& b.round == a.round
    &&& b.phase == a.phase
    &&& b.resolved@ == a.resolved@
}

/// The player is unchanged but for one event appended to their queue.
pub open spec fn gains_event(p0: Player, p1: Player, e: Ev) -> bool {
    &&& p1.id@ == p0.id@
    &&& p1.hand@ == p0.hand@
    &&& p1.score == p0.score
    &&& p1.outbox_v() == p0.outbox_v().push(e)
}

/// The player is unchanged but for one dealt card: it joins their hand and
/// is announced to them alone.
pub open spec fn gains_card(p0: Player, p1: Player, c: Card) -> bool {
    &&& p1.id@ == p0.id@
    &&& p1.hand@ == p0.hand@.push(c)
    &&& p1.score == p0.score
    &&& p1.outbox_v() == p0.outbox_v().push(Ev::NewCard(c))
}

/// Appending an event appends its view.
pub proof fn lemma_events_view_push(q: Seq<Event>, e: Event)
    ensures
        events_view(q.push(e)) == events_view(q).push(e@),
{
    assert(events_view(q.push(e)) =~= events_view(q).push(e@));
}

/// Pops the top card of a non-empty pile.
fn pop_card(deck: &mut Vec<Card>) -> (c: Card)
    requires
        old(deck)@.len() > 0,
    ensures
        c == old(deck)@.last(),
        final(deck)@ == old(deck)@.drop_last(),
{
    match deck.pop() {
        Some(c) => {
            proof {
                assert(final(deck)@ =~= old(deck)@.drop_last());
            }
            c
        },
        None => {
            proof {
                assert(false);
            }
            Card { number: 1, suit: Suit::Coin }
        },
    }
}

/// Copies a list of identifiers.
fn clone_string_vec(v: &Vec<String>) -> (r: Vec<String>)
    ensures
        r@.len() == v@.len(),
        forall|i: int| 0 <= i < v@.len() ==> #[trigger] r@[i]@ == v@[i]@,
        r.deep_view() == v.deep_view(),
{
    let mut r: Vec<String> = Vec::new();
    let mut j: usize = 0;
    while j < v.len()
        invariant
            j <= v@.len(),
            r@.len() == j,
            forall|i: int| 0 <= i < j ==> #[trigger] r@[i]@ == v@[i]@,
        decreases v@.len() - j,
    {
        r.push(v[j].clone());
        j = j + 1;
    }
    proof {
        assert(r.deep_view() =~= v.deep_view());
    }
    r
}

impl Game {
    /// Appends one event to player `i`'s queue; nothing else changes.
    fn push_event(&mut self, i: usize, e: Event)
        requires
            i < old(self).players@.len(),
        ensures
            final(self).players@.len() == old(self).players@.len(),
            forall|j: int|
                0 <= j < old(self).players@.len() && j != i ==> final(self).players@[j] == old(
                    self,
                ).players@[j],
            gains_event(old(self).players@[i as int], final(self).players@[i as int], e@),
            final(self).players@ == old(self).players@.update(
                i as int,
                final(self).players@[i as int],
            ),
            hands_of(final(self).players@) == hands_of(old(self).players@),
            same_except_players(*old(self), *final(self)),
    {
        let mut p = Player { id: String::new(), hand: Vec::new(), score: 0, outbox: Vec::new() };
        self.players.set_and_swap(i, &mut p);
        proof {
            lemma_events_view_push(p.outbox@, e);
        }
        p.outbox.push(e);
        self.players.set_and_swap(i, &mut p);
        proof {
            assert(final(self).players@ =~= old(self).players@.update(
                i as int,
                final(self).players@[i as int],
            ));
            lemma_hands_of_update_same(
                old(self).players@,
                i as int,
                final(self).players@[i as int],
            );
        }
    }

    /// Deals card `c` to player `i`: into their hand, with a `NewCard`
    /// notification to them alone.
    fn deal_to(&mut self, i: usize, c: Card)
        requires
            i < old(self).players@.len(),
        ensures
            final(self).players@.len() == old(self).players@.len(),
            forall|j: int|
                0 <= j < old(self).players@.len() && j != i ==> final(self).players@[j] == old(
                    self,
                ).players@[j],
            gains_card(old(self).players@[i as int], final(self).players@[i as int], c),
            final(self).players@ == old(self).players@.update(
                i as int,
                final(self).players@[i as int],
            ),
            hands_of(final(self).players@) == hands_of(old(self).players@).insert(c),
            same_except_players(*old(self), *final(self)),
    {
        let mut p = Player { id: String::new(), hand: Vec::new(), score: 0, outbox: Vec::new() };
        self.players.set_and_swap(i, &mut p);
        proof {
            lemma_events_view_push(p.outbox@, Event::NewCard(c));
        }
        p.hand.push(c);
        p.outbox.push(Event::NewCard(c));
        self.players.set_and_swap(i, &mut p);
        proof {
            assert(final(self).players@ =~= old(self).players@.update(
                i as int,
                final(self).players@[i as int],
            ));
            lemma_hands_of_gain(
                old(self).players@,
                i as int,
                final(self).players@[i as int],
                c,
            );
        }
    }

    /// The ordered identifiers of the joined players.
    pub fn roster(&self) -> (r: Vec<String>)
        ensures
            r@.len() == self.players@.len(),
            forall|i: int|
                0 <= i < self.players@.len() ==> #[trigger] r@[i]@ == self.players@[i].id@,
            r.deep_view() == roster_of(self.players@),
    {
        let mut r: Vec<String> = Vec::new();
        let mut j: usize = 0;
        while j < self.players.len()
            invariant
                j <= self.players@.len(),
                r@.len() == j,
                forall|i: int| 0 <= i < j ==> #[trigger] r@[i]@ == self.players@[i].id@,
            decreases self.players@.len() - j,
        {
            r.push(self.players[j].id.clone());
            j = j + 1;
        }
        proof {
            assert(r.deep_view() =~= roster_of(self.players@));
        }
        r
    }

    /// Admits one more player to a waiting room and broadcasts the updated
    /// roster to every joined player, the newcomer included. Returns whether
    /// this join brought the roster to capacity, in which case the caller
    /// deals the shuffled deck exactly once via [`Game::begin`].
    pub fn join(&mut self, player_id: String) -> (became_full: bool)
        requires
            old(self).wf(),
            old(self).phase == Phase::Waiting,
            old(self).players@.len() < old(self).n(),
        ensures
            final(self).wf(),
            final(self).phase == Phase::Waiting,
            same_except_players(*old(self), *final(self)),
            final(self).players@.len() == old(self).players@.len() + 1,
            became_full == (final(self).players@.len() == final(self).n()),
            roster_of(final(self).players@) == roster_of(old(self).players@).push(player_id@),
            final(self).players@.last().id@ == player_id@,
            final(self).players@.last().hand@.len() == 0,
            final(self).players@.last().score == 0,
            final(self).players@.last().outbox_v() == seq![
                Ev::Connected(roster_of(final(self).players@)),
            ],
            forall|j: int|
                0 <= j < old(self).players@.len() ==> gains_event(
                    old(self).players@[j],
                    final(self).players@[j],
                    Ev::Connected(roster_of(final(self).players@)),
                ),
    {
        let p = Player { id: player_id, hand: Vec::new(), score: 0, outbox: Vec::new() };
        self.players.push(p);
        proof {
            assert(roster_of(self.players@) =~= roster_of(old(self).players@).push(
                self.players@.last().id@,
            ));
        }
        let ghost mid = *self;
        let roster = self.roster();
        let ghost roster_v = roster_of(self.players@);
        let mut j: usize = 0;
        while j < self.players.len()
            invariant
                self.players@.len() == mid.players@.len(),
                j <= self.players@.len(),
                roster_v == roster_of(mid.players@),
                roster@.len() == mid.players@.len(),
                forall|i: int|
                    0 <= i < mid.players@.len() ==> #[trigger] roster@[i]@ == mid.players@[i].id@,
                roster.deep_view() == roster_v,
                forall|i: int|
                    j <= i < mid.players@.len() ==> #[trigger] self.players@[i] == mid.players@[i],
                forall|i: int|
                    0 <= i < j ==> gains_event(
                        mid.players@[i],
                        #[trigger] self.players@[i],
                        Ev::Connected(roster_v),
                    ),
                same_except_players(mid, *self),
            decreases self.players@.len() - j,
        {
            let ids = clone_string_vec(&roster);
            proof {
                assert(roster_of(self.players@) == roster_of(mid.players@)) by {
                    assert(roster_of(self.players@) =~= roster_of(mid.players@));
                }
            }
            self.push_event(j, Event::Connected(ids));
            j = j + 1;
        }
        proof {
            assert(roster_of(self.players@) =~= roster_of(mid.players@));
        }
        self.players.len() == self.num_players as usize
    }
}


/// Division facts about the supported room sizes: at least four rounds are
/// played, the rounds exhaust the deck exactly, and rooms hold at most ten.
pub proof fn lemma_count_facts(n: int)
    requires
        1 <= n,
        40int % n == 0,
        3 * n < 40,
    ensures
        4 <= 40int / n,
        n * (40int / n) == 40,
        n <= 10,
{
    vstd::arithmetic::div_mod::lemma_fundamental_div_mod(40, n);
    if 40int / n <= 3 {
        assert(n * (40int / n) <= n * 3) by (nonlinear_arith)
            requires
                n >= 1,
                40int / n <= 3,
        ;
        assert(false);
    }
    if n > 10 {
        assert(n * (40int / n) >= n * 4) by (nonlinear_arith)
            requires
                n >= 11,
                40int / n >= 4,
        ;
        assert(false);
    }
}

/// A sequence with no elements has an empty multiset.
pub proof fn lemma_empty_to_multiset(s: Seq<Card>)
    requires
        s.len() == 0,
    ensures
        s.to_multiset() == Multiset::<Card>::empty(),
{
    broadcast use vstd::multiset::group_multiset_axioms;
    broadcast use vstd::seq_lib::group_to_multiset_ensures;

    assert(s.to_multiset() =~= Multiset::<Card>::empty());
}

/// Moving one card from the undealt pile into a hand leaves the combined
/// card pool unchanged.
proof fn lemma_move_to_hand(d: Multiset<Card>, h: Multiset<Card>, c: Card)
    requires
        d.count(c) >= 1,
    ensures
        d.remove(c).add(h.insert(c)) == d.add(h),
{
    broadcast use vstd::multiset::group_multiset_axioms;

    assert(d.remove(c).add(h.insert(c)) =~= d.add(h));
}

/// What the initial deal leaves with player `j` of an `n`-player game dealt
/// from `deck0`: three cards popped off the deck's top in join order, each
/// announced to that player, then the trump announcement.
pub open spec fn post_deal_player(p0: Player, p1: Player, deck0: Seq<Card>, j: int) -> bool {
    &&& p1.id@ == p0.id@
    &&& p1.score == p0.score
    &&& p1.hand@ == seq![deck0[39 - 3 * j], deck0[38 - 3 * j], deck0[37 - 3 * j]]
    &&& p1.outbox_v() == p0.outbox_v() + seq![
        Ev::NewCard(deck0[39 - 3 * j]),
        Ev::NewCard(deck0[38 - 3 * j]),
        Ev::NewCard(deck0[37 - 3 * j]),
        Ev::GameStart(deck0[0]),
    ]
}

impl Game {
    /// Starts a full room on a shuffled deck: fixes the trump as the deck's
    /// bottom card, deals three cards to each player in join order from the
    /// deck's top, and announces the start to each player.
    ///
    /// Player `j` receives exactly the cards at positions `39 - 3j`,
    /// `38 - 3j`, `37 - 3j` of the shuffled deck, in that order, before any
    /// later player receives one: the deal is deterministic in the shuffle.
    pub fn begin(&mut self, deck: Vec<Card>)
        requires
            old(self).wf(),
            old(self).phase == Phase::Waiting,
            old(self).players@.len() == old(self).n(),
            deck@.to_multiset() == full_deck_seq().to_multiset(),
        ensures
            final(self).wf(),
            final(self).phase == Phase::Active,
            final(self).id == old(self).id,
            final(self).num_players == old(self).num_players,
            final(self).turn == 0,
            final(self).round == 1,
            final(self).trump == deck@[0],
            final(self).trick@.len() == 0,
            final(self).resolved@.len() == 0,
            final(self).remaining_deck@ == deck@.subrange(0, 40 - 3 * old(self).n()),
            final(self).players@.len() == old(self).players@.len(),
            forall|j: int|
                0 <= j < old(self).n() ==> post_deal_player(
                    old(self).players@[j],
                    #[trigger] final(self).players@[j],
                    deck@,
                    j,
                ),
    {
        proof {
            broadcast use vstd::seq_lib::group_to_multiset_ensures;

            assert(deck@.len() == deck@.to_multiset().len());
            assert(full_deck_seq().len() == full_deck_seq().to_multiset().len());
            lemma_count_facts(old(self).n());
        }
        let ghost deck0 = deck@;
        self.remaining_deck = deck;
        self.trump = self.remaining_deck[0];
        self.round = 1;
        self.phase = Phase::Active;
        let n = self.num_players as usize;
        proof {
            broadcast use vstd::multiset::group_multiset_axioms;

            assert(self.remaining_deck@ =~= deck0.subrange(0, 40 - 3 * 0));
            lemma_hands_of_all_empty(self.players@);
            assert(self.remaining_deck@.to_multiset().add(hands_of(self.players@))
                =~= deck0.to_multiset());
        }
        let mut i: usize = 0;
        while i < n
            invariant
                old(self).wf(),
                old(self).phase == Phase::Waiting,
                old(self).players@.len() == old(self).n(),
                valid_player_count(self.num_players),
                n == self.n(),
                i <= n,
                self.players@.len() == n,
                deck0.len() == 40,
                deck0.to_multiset() == full_deck_seq().to_multiset(),
                self.remaining_deck@ == deck0.subrange(0, 40 - 3 * i),
                self.remaining_deck@.to_multiset().add(hands_of(self.players@))
                    == deck0.to_multiset(),
                forall|j: int|
                    i <= j < n ==> #[trigger] self.players@[j] == old(self).players@[j],
                forall|j: int|
                    0 <= j < i ==> post_deal_player(
                        old(self).players@[j],
                        #[trigger] self.players@[j],
                        deck0,
                        j,
                    ),
                self.id == old(self).id,
                self.num_players == old(self).num_players,
                self.trump == deck0[0],
                self.turn == old(self).turn,
                self.round == 1,
                self.phase == Phase::Active,
                self.trick@ == old(self).trick@,
                self.resolved@ == old(self).resolved@,
            decreases n - i,
        {
            let ghost pre = *self;
            proof {
                broadcast use vstd::seq_lib::group_to_multiset_ensures;

                assert(3 * i + 3 <= 3 * n);
                assert(pre.players@[i as int] == old(self).players@[i as int]);
                assert(old(self).players@[i as int].hand@.len() == 0);
            }
            let c1 = pop_card(&mut self.remaining_deck);
            proof {
                assert(c1 == deck0[39 - 3 * i]);
                assert(self.remaining_deck@ =~= deck0.subrange(0, 39 - 3 * i));
                lemma_to_multiset_drop_last(pre.remaining_deck@);
                lemma_move_to_hand(
                    pre.remaining_deck@.to_multiset(),
                    hands_of(self.players@),
                    c1,
                );
            }
            self.deal_to(i, c1);
            let ghost s1 = *self;
            let c2 = pop_card(&mut self.remaining_deck);
            proof {
                assert(c2 == deck0[38 - 3 * i]);
                assert(self.remaining_deck@ =~= deck0.subrange(0, 38 - 3 * i));
                lemma_to_multiset_drop_last(s1.remaining_deck@);
                lemma_move_to_hand(
                    s1.remaining_deck@.to_multiset(),
                    hands_of(self.players@),
                    c2,
                );
            }
            self.deal_to(i, c2);
            let ghost s2 = *self;
            let c3 = pop_card(&mut self.remaining_deck);
            proof {
                assert(c3 == deck0[37 - 3 * i]);
                assert(self.remaining_deck@ =~= deck0.subrange(0, 37 - 3 * i));
                lemma_to_multiset_drop_last(s2.remaining_deck@);
                lemma_move_to_hand(
                    s2.remaining_deck@.to_multiset(),
                    hands_of(self.players@),
                    c3,
                );
            }
            self.deal_to(i, c3);
            let ghost s3 = *self;
            let t = self.trump;
            self.push_event(i, Event::GameStart(t));
            proof {
                lemma_hands_of_update_same(s3.players@, i as int, self.players@[i as int]);
                assert(pre.players@[i as int].hand@ =~= Seq::<Card>::empty());
                assert(self.players@[i as int].hand@ =~= seq![
                    deck0[39 - 3 * i],
                    deck0[38 - 3 * i],
                    deck0[37 - 3 * i],
                ]);
                assert(self.players@[i as int].outbox_v() =~= pre.players@[i as int].outbox_v()
                    + seq![
                    Ev::NewCard(deck0[39 - 3 * i]),
                    Ev::NewCard(deck0[38 - 3 * i]),
                    Ev::NewCard(deck0[37 - 3 * i]),
                    Ev::GameStart(deck0[0]),
                ]);
                assert(self.remaining_deck@ =~= deck0.subrange(0, 40 - 3 * (i + 1)));
            }
            i = i + 1;
        }
        proof {
            lemma_empty_to_multiset(self.trick@);
            lemma_empty_to_multiset(self.resolved@);
            broadcast use vstd::multiset::group_multiset_axioms;
            broadcast use vstd::seq_lib::group_to_multiset_ensures;

            assert(deck0.contains(deck0[0]));
            crate::cards::lemma_deck_member_valid(deck0[0]);

            assert(self.remaining_deck@.to_multiset().add(hands_of(self.players@)).add(
                self.trick@.to_multiset(),
            ).add(self.resolved@.to_multiset()) =~= full_deck_seq().to_multiset());
            assert(expected_deck_len(self.n(), 1) == 40 - 3 * self.n());
            assert(self.n() * (1 - 1) == 0) by (nonlinear_arith);
            assert(forall|i: int|
                0 <= i < self.players@.len() ==> (#[trigger] self.players@[i]).score as int <= 110
                    * (1 - 1));
        }
    }
}

/// If every player's hand is empty, the union of hands is empty.
pub proof fn lemma_hands_of_all_empty(ps: Seq<Player>)
    requires
        forall|i: int| 0 <= i < ps.len() ==> (#[trigger] ps[i]).hand@.len() == 0,
    ensures
        hands_of(ps) == Multiset::<Card>::empty(),
    decreases ps.len(),
{
    broadcast use vstd::multiset::group_multiset_axioms;

    if ps.len() > 0 {
        assert(forall|i: int|
            0 <= i < ps.drop_last().len() ==> (#[trigger] ps.drop_last()[i]).hand@.len() == 0);
        lemma_hands_of_all_empty(ps.drop_last());
        assert(ps.last() == ps[ps.len() - 1]);
        lemma_empty_to_multiset(ps.last().hand@);
        assert(hands_of(ps) =~= Multiset::<Card>::empty());
    }
}

/// Removing a sequence's last element removes that card from its multiset.
pub proof fn lemma_to_multiset_drop_last(s: Seq<Card>)
    requires
        s.len() > 0,
    ensures
        s.drop_last().to_multiset() == s.to_multiset().remove(s.last()),
        s.to_multiset().count(s.last()) >= 1,
{
    broadcast use vstd::seq_lib::group_to_multiset_ensures;

    assert(s.remove(s.len() - 1) =~= s.drop_last());
    assert(s.contains(s.last()));
}


/// Position of player `i` in the rotation that starts at player `w` of an
/// `n`-player table: `w` is at position 0, `w + 1` at position 1, and so on.
pub open spec fn rot_pos(i: int, w: int, n: int) -> int {
    if i >= w {
        i - w
    } else {
        i - w + n
    }
}

/// Each player's score, in join order.
pub open spec fn scores_of(ps: Seq<Player>) -> Seq<int> {
    ps.map_values(|p: Player| p.score as int)
}

/// Sums the point table over a completed trick.
pub fn compute_trick_points(t: &Vec<Card>) -> (s: u8)
    requires
        t@.len() <= 10,
    ensures
        s as int == trick_points(t@),
{
    let mut s: u8 = 0;
    let mut i: usize = 0;
    while i < t.len()
        invariant
            t@.len() <= 10,
            i <= t@.len(),
            s as int == trick_points(t@.take(i as int)),
            s <= 11 * i,
        decreases t@.len() - i,
    {
        proof {
            assert(t@.take(i + 1).drop_last() =~= t@.take(i as int));
            assert(t@.take(i + 1).last() == t@[i as int]);
        }
        s = s + points_of(&t[i]);
        i = i + 1;
    }
    proof {
        assert(t@.take(t@.len() as int) =~= t@);
    }
    s
}

/// Finds the index within the trick of the card that wins it.
pub fn compute_winning_index(t: &Vec<Card>, trump: Suit) -> (b: usize)
    requires
        t@.len() >= 1,
    ensures
        b as int == winning_index(t@, trump),
        b < t@.len(),
{
    let mut b: usize = 0;
    let mut i: usize = 1;
    while i < t.len()
        invariant
            1 <= i <= t@.len(),
            b < i,
            b as int == best_upto(t@, trump, i as int),
        decreases t@.len() - i,
    {
        let c = t[i];
        let best = t[b];
        if c.suit == best.suit {
            if strength_of(&c) > strength_of(&best) {
                b = i;
            }
        } else if c.suit == trump {
            b = i;
        }
        i = i + 1;
    }
    b
}

/// Finds the first player holding the maximal score.
pub fn compute_champion(players: &Vec<Player>) -> (w: usize)
    requires
        players@.len() >= 1,
    ensures
        w as int == champion_idx(scores_of(players@)),
        w < players@.len(),
{
    let mut w: usize = 0;
    let mut i: usize = 1;
    while i < players.len()
        invariant
            1 <= i <= players@.len(),
            w < i,
            w as int == champ_upto(scores_of(players@), i as int),
        decreases players@.len() - i,
    {
        if players[i].score > players[w].score {
            w = i;
        }
        i = i + 1;
    }
    w
}

/// Finds the first position of `c` in `hand`, if any.
fn find_card(hand: &Vec<Card>, c: Card) -> (r: Option<usize>)
    ensures
        match r {
            Some(k) => {
                &&& k < hand@.len()
                &&& hand@[k as int] == c
                &&& k as int == first_index_of(hand@, c)
            },
            None => !hand@.contains(c),
        },
{
    let mut i: usize = 0;
    while i < hand.len()
        invariant
            i <= hand@.len(),
            forall|j: int| 0 <= j < i ==> hand@[j] != c,
        decreases hand@.len() - i,
    {
        if hand[i] == c {
            proof {
                assert(hand@.contains(c));
                lemma_first_index_of(hand@, c);
            }
            return Some(i);
        }
        i = i + 1;
    }
    proof {
        if hand@.contains(c) {
            let k = choose|k: int| 0 <= k < hand@.len() && hand@[k] == c;
            assert(false);
        }
    }
    None
}

impl Game {
    /// Sends `PlayedCard(c)` to every player except `skip` (the one who
    /// played it).
    fn broadcast_played(&mut self, c: Card, skip: usize)
        requires
            skip < old(self).players@.len(),
        ensures
            final(self).players@.len() == old(self).players@.len(),
            final(self).players@[skip as int] == old(self).players@[skip as int],
            forall|j: int|
                0 <= j < old(self).players@.len() && j != skip ==> gains_event(
                    old(self).players@[j],
                    #[trigger] final(self).players@[j],
                    Ev::PlayedCard(c),
                ),
            hands_of(final(self).players@) == hands_of(old(self).players@),
            same_except_players(*old(self), *final(self)),
    {
        let mut j: usize = 0;
        while j < self.players.len()
            invariant
                skip < old(self).players@.len(),
                j <= self.players@.len(),
                self.players@.len() == old(self).players@.len(),
                forall|i: int|
                    j <= i < old(self).players@.len() ==> #[trigger] self.players@[i] == old(
                        self,
                    ).players@[i],
                self.players@[skip as int] == old(self).players@[skip as int],
                forall|i: int|
                    0 <= i < j && i != skip ==> gains_event(
                        old(self).players@[i],
                        #[trigger] self.players@[i],
                        Ev::PlayedCard(c),
                    ),
                hands_of(self.players@) == hands_of(old(self).players@),
                same_except_players(*old(self), *self),
            decreases self.players@.len() - j,
        {
            if j != skip {
                self.push_event(j, Event::PlayedCard(c));
            }
            j = j + 1;
        }
    }

    /// Sends `RoundEnd(w, s)` to every player.
    fn broadcast_round_end(&mut self, w: u8, s: u8)
        ensures
            final(self).players@.len() == old(self).players@.len(),
            forall|j: int|
                0 <= j < old(self).players@.len() ==> gains_event(
                    old(self).players@[j],
                    #[trigger] final(self).players@[j],
                    Ev::RoundEnd(w as int, s as int),
                ),
            hands_of(final(self).players@) == hands_of(old(self).players@),
            same_except_players(*old(self), *final(self)),
    {
        let mut j: usize = 0;
        while j < self.players.len()
            invariant
                j <= self.players@.len(),
                self.players@.len() == old(self).players@.len(),
                forall|i: int|
                    j <= i < old(self).players@.len() ==> #[trigger] self.players@[i] == old(
                        self,
                    ).players@[i],
                forall|i: int|
                    0 <= i < j ==> gains_event(
                        old(self).players@[i],
                        #[trigger] self.players@[i],
                        Ev::RoundEnd(w as int, s as int),
                    ),
                hands_of(self.players@) == hands_of(old(self).players@),
                same_except_players(*old(self), *self),
            decreases self.players@.len() - j,
        {
            self.push_event(j, Event::RoundEnd(w, s));
            j = j + 1;
        }
    }

    /// Sends `GameEnd` with the overall winner's identifier to every player.
    fn broadcast_game_end(&mut self, winner_id: &String)
        ensures
            final(self).players@.len() == old(self).players@.len(),
            forall|j: int|
                0 <= j < old(self).players@.len() ==> gains_event(
                    old(self).players@[j],
                    #[trigger] final(self).players@[j],
                    Ev::GameEnd(winner_id@),
                ),
            hands_of(final(self).players@) == hands_of(old(self).players@),
            same_except_players(*old(self), *final(self)),
    {
        let mut j: usize = 0;
        while j < self.players.len()
            invariant
                j <= self.players@.len(),
                self.players@.len() == old(self).players@.len(),
                forall|i: int|
                    j <= i < old(self).players@.len() ==> #[trigger] self.players@[i] == old(
                        self,
                    ).players@[i],
                forall|i: int|
                    0 <= i < j ==> gains_event(
                        old(self).players@[i],
                        #[trigger] self.players@[i],
                        Ev::GameEnd(winner_id@),
                    ),
                hands_of(self.players@) == hands_of(old(self).players@),
                same_except_players(*old(self), *self),
            decreases self.players@.len() - j,
        {
            let id = winner_id.clone();
            self.push_event(j, Event::GameEnd(id));
            j = j + 1;
        }
    }

    /// Deals one card to every player, the round's winner `w` first and then
    /// in rotation order, each announced to its recipient alone.
    fn redeal(&mut self, w: usize)
        requires
            valid_player_count(old(self).num_players),
            old(self).players@.len() == old(self).n(),
            w < old(self).players@.len(),
            old(self).remaining_deck@.len() >= old(self).n(),
        ensures
            final(self).players@.len() == old(self).players@.len(),
            final(self).remaining_deck@ == old(self).remaining_deck@.subrange(
                0,
                old(self).remaining_deck@.len() - old(self).n(),
            ),
            forall|i: int|
                0 <= i < old(self).n() ==> gains_card(
                    old(self).players@[i],
                    #[trigger] final(self).players@[i],
                    old(self).remaining_deck@[old(self).remaining_deck@.len() - 1 - rot_pos(
                        i,
                        w as int,
                        old(self).n(),
                    )],
                ),
            final(self).remaining_deck@.to_multiset().add(hands_of(final(self).players@)) == old(
                self,
            ).remaining_deck@.to_multiset().add(hands_of(old(self).players@)),
            final(self).id == old(self).id,
            final(self).num_players == old(self).num_players,
            final(self).trump == old(self).trump,
            final(self).trick@ == old(self).trick@,
            final(self).turn == old(self).turn,
            final(self).round == old(self).round,
            final(self).phase == old(self).phase,
            final(self).resolved@ == old(self).resolved@,
    {
        let n = self.players.len();
        let ghost deck0 = self.remaining_deck@;
        let mut j: usize = 0;
        while j < n
            invariant
                valid_player_count(self.num_players),
                n == self.n(),
                w < n,
                deck0.len() >= n,
                j <= n,
                self.players@.len() == n,
                old(self).players@.len() == n,
                self.remaining_deck@ == deck0.subrange(0, deck0.len() - j),
                forall|i: int|
                    0 <= i < n && rot_pos(i, w as int, n as int) >= j ==> #[trigger] self.players@[i]
                        == old(self).players@[i],
                forall|i: int|
                    0 <= i < n && rot_pos(i, w as int, n as int) < j ==> gains_card(
                        old(self).players@[i],
                        #[trigger] self.players@[i],
                        deck0[deck0.len() - 1 - rot_pos(i, w as int, n as int)],
                    ),
                self.remaining_deck@.to_multiset().add(hands_of(self.players@)) == deck0
                    .to_multiset().add(hands_of(old(self).players@)),
                self.id == old(self).id,
                self.num_players == old(self).num_players,
                self.trump == old(self).trump,
                self.trick@ == old(self).trick@,
                self.turn == old(self).turn,
                self.round == old(self).round,
                self.phase == old(self).phase,
                self.resolved@ == old(self).resolved@,
            decreases n - j,
        {
            let ghost pre = *self;
            let c = pop_card(&mut self.remaining_deck);
            proof {
                assert(self.remaining_deck@ =~= deck0.subrange(0, deck0.len() - (j + 1)));
                lemma_to_multiset_drop_last(pre.remaining_deck@);
                lemma_move_to_hand(
                    pre.remaining_deck@.to_multiset(),
                    hands_of(self.players@),
                    c,
                );
            }
            let idx = if w + j < n {
                w + j
            } else {
                w + j - n
            };
            proof {
                assert(rot_pos(idx as int, w as int, n as int) == j);
            }
            self.deal_to(idx, c);
            proof {
                assert forall|i: int|
                    0 <= i < n && rot_pos(i, w as int, n as int) < j + 1 implies gains_card(
                        old(self).players@[i],
                        #[trigger] self.players@[i],
                        deck0[deck0.len() - 1 - rot_pos(i, w as int, n as int)],
                    ) by {
                    if i != idx {
                        assert(rot_pos(i, w as int, n as int) != j);
                    }
                }
            }
            j = j + 1;
        }
    }
}


/// Neither the players nor any other field changed.
pub open spec fn unchanged_game(a: Game, b: Game) -> bool {
    &&& same_except_players(a, b)
    &&& b.players@ == a.players@
}

impl Game {
    /// A play is accepted exactly when the game is running, it is the
    /// claimed player's turn, and the card is in their hand.
    pub open spec fn can_play(self, pid: Seq<char>, card: Card) -> bool {
        &&& self.phase == Phase::Active
        &&& self.players@[self.turn as int].id@ == pid
        &&& self.players@[self.turn as int].hand@.contains(card)
    }

    /// Which error a rejected play reports: `NotYourTurn` when the game is
    /// not running or the claimant is not the player whose turn it is,
    /// `NotInHand` when it is their turn but the card is not theirs.
    pub open spec fn play_rejection(self, pid: Seq<char>, card: Card) -> GameError {
        if self.phase != Phase::Active || self.players@[self.turn as int].id@ != pid {
            GameError::NotYourTurn
        } else {
            GameError::NotInHand
        }
    }

    /// The trick as it stands once `card` is appended.
    pub open spec fn played_trick(self, card: Card) -> Seq<Card> {
        self.trick@.push(card)
    }

    /// Whether this play completes the trick and resolves the round.
    pub open spec fn play_resolves(self, card: Card) -> bool {
        self.played_trick(card).len() == self.n()
    }

    /// Absolute index of the round's winner: the relative winning position
    /// within the trick, shifted by who led the round.
    pub open spec fn play_winner(self, card: Card) -> int {
        (winning_index(self.played_trick(card), self.trump.suit) + self.turn as int + 1) % self.n()
    }

    /// Points the completed trick awards its winner.
    pub open spec fn play_score(self, card: Card) -> int {
        trick_points(self.played_trick(card))
    }

    /// Whether resolution is followed by dealing one card per player.
    pub open spec fn play_deals(self, card: Card) -> bool {
        self.play_resolves(card) && self.remaining_deck@.len() > 0
    }

    /// Whether this play resolves the final round and ends the game.
    pub open spec fn play_finishes(self, card: Card) -> bool {
        self.play_resolves(card) && self.remaining_deck@.len() == 0 && self.round as int
            == 40int / self.n()
    }

    /// The card player `i` receives in the redeal after this resolution.
    pub open spec fn dealt_card(self, card: Card, i: int) -> Card {
        self.remaining_deck@[self.remaining_deck@.len() - 1 - rot_pos(
            i,
            self.play_winner(card),
            self.n(),
        )]
    }

    /// Every player's score once the trick's points go to its winner.
    pub open spec fn scores_after(self, card: Card) -> Seq<int> {
        Seq::new(
            self.players@.len(),
            |i: int|
                if i == self.play_winner(card) {
                    self.players@[i].score + self.play_score(card)
                } else {
                    self.players@[i].score as int
                },
        )
    }

    /// Identifier of the game's overall winner, decided when the final
    /// round resolves: the first player in join order holding the top score.
    pub open spec fn champion_id(self, card: Card) -> Seq<char> {
        self.players@[champion_idx(self.scores_after(card))].id@
    }

    /// The events an accepted play appends to player `i`'s queue: the card
    /// announcement to everyone else; then, if the trick is complete, the
    /// round result to everyone, followed by either the dealt card or, after
    /// the final round, the end-of-game announcement.
    pub open spec fn play_events_for(self, card: Card, i: int) -> Seq<Ev> {
        let pc: Seq<Ev> = if i == self.turn as int {
            Seq::empty()
        } else {
            seq![Ev::PlayedCard(card)]
        };
        if !self.play_resolves(card) {
            pc
        } else {
            let re = pc.push(Ev::RoundEnd(self.play_winner(card), self.play_score(card)));
            if self.play_deals(card) {
                re.push(Ev::NewCard(self.dealt_card(card, i)))
            } else if self.play_finishes(card) {
                re.push(Ev::GameEnd(self.champion_id(card)))
            } else {
                re
            }
        }
    }

    /// Player `i`'s hand after an accepted play: the first matching copy of
    /// the card leaves the playing player's hand, and each hand gains its
    /// dealt card if the resolution deals.
    pub open spec fn play_hand_after(self, card: Card, i: int) -> Seq<Card> {
        let base = if i == self.turn as int {
            self.players@[i].hand@.remove(first_index_of(self.players@[i].hand@, card))
        } else {
            self.players@[i].hand@
        };
        if self.play_deals(card) {
            base.push(self.dealt_card(card, i))
        } else {
            base
        }
    }
}

/// Everything an accepted play does, stated over the prior state: the trick
/// grows or resolves, the turn advances or passes to the winner, the winner
/// is scored, cards move only as dealt or played, and every player's queue
/// gains exactly the events of this play.
pub open spec fn play_success_post(pre: Game, post: Game, card: Card) -> bool {
    &&& post.id == pre.id
    &&& post.num_players == pre.num_players
    &&& post.trump == pre.trump
    &&& post.phase == (if pre.play_finishes(card) {
        Phase::Finished
    } else {
        Phase::Active
    })
    &&& post.turn as int == (if pre.play_resolves(card) {
        pre.play_winner(card)
    } else {
        (pre.turn as int + 1) % pre.n()
    })
    &&& post.round as int == (if pre.play_resolves(card) && !pre.play_finishes(card) {
        pre.round + 1
    } else {
        pre.round as int
    })
    &&& post.trick@ == (if pre.play_resolves(card) {
        Seq::<Card>::empty()
    } else {
        pre.played_trick(card)
    })
    &&& post.resolved@ == (if pre.play_resolves(card) {
        pre.resolved@ + pre.played_trick(card)
    } else {
        pre.resolved@
    })
    &&& post.remaining_deck@ == (if pre.play_deals(card) {
        pre.remaining_deck@.subrange(0, pre.remaining_deck@.len() - pre.n())
    } else {
        pre.remaining_deck@
    })
    &&& post.players@.len() == pre.players@.len()
    &&& forall|i: int|
        0 <= i < pre.players@.len() ==> {
            &&& (#[trigger] post.players@[i]).id@ == pre.players@[i].id@
            &&& post.players@[i].hand@ == pre.play_hand_after(card, i)
            &&& post.players@[i].score as int == (if pre.play_resolves(card) && i
                == pre.play_winner(card) {
                pre.players@[i].score + pre.play_score(card)
            } else {
                pre.players@[i].score as int
            })
            &&& post.players@[i].outbox_v() == pre.players@[i].outbox_v() + pre.play_events_for(
                card,
                i,
            )
        }
}

/// Round arithmetic for the supported room sizes: while cards remain they
/// suffice for a full deal, one deal consumes exactly `n`, and the deck can
/// only be non-empty well before the final round.
proof fn lemma_deck_len_step(n: int, r: int)
    requires
        1 <= n,
        40int % n == 0,
        3 * n < 40,
        1 <= r,
    ensures
        expected_deck_len(n, r) > 0 ==> expected_deck_len(n, r) >= n,
        expected_deck_len(n, r) > 0 ==> expected_deck_len(n, r) - n == expected_deck_len(n, r + 1),
        expected_deck_len(n, r) > 0 ==> r <= 40int / n - 3,
        expected_deck_len(n, r) == 0 ==> expected_deck_len(n, r + 1) == 0,
{
    lemma_count_facts(n);
    let q = 40int / n;
    assert(40 - 3 * n - (r - 1) * n == n * (q - 2 - r)) by (nonlinear_arith)
        requires
            n * q == 40,
    ;
    assert(40 - 3 * n - r * n == n * (q - 3 - r)) by (nonlinear_arith)
        requires
            n * q == 40,
    ;
    if expected_deck_len(n, r) > 0 {
        let m = q - 2 - r;
        assert(n * m > 0);
        assert(m >= 1) by (nonlinear_arith)
            requires
                n >= 1,
                n * m > 0,
        ;
        assert(n * m >= n && n * (m - 1) >= 0 && n * (m - 1) == n * m - n) by (nonlinear_arith)
            requires
                n >= 1,
                m >= 1,
        ;
    } else {
        let m = q - 2 - r;
        assert(n * m <= 0);
        assert(m <= 0) by (nonlinear_arith)
            requires
                n >= 1,
                n * m <= 0,
        ;
        assert(n * (m - 1) <= 0) by (nonlinear_arith)
            requires
                n >= 1,
                m <= 0,
        ;
    }
}

/// Resolved-pile arithmetic: one more resolved round adds `n` cards.
proof fn lemma_resolved_len_step(n: int, r: int)
    ensures
        n * (r - 1) + n == n * ((r + 1) - 1),
{
    assert(n * (r - 1) + n == n * ((r + 1) - 1)) by (nonlinear_arith);
}


impl Game {
    /// Validates and applies one play.
    ///
    /// Rejected plays (`NotYourTurn` out of turn or when the game is not
    /// running, `NotInHand` when the card is absent) leave the state
    /// untouched. An accepted play removes the first matching copy from the
    /// player's hand, announces it to the other players, and appends it to
    /// the trick; then either the turn passes to the next player in
    /// rotation, or — when every player has played — the round resolves:
    /// its winner is computed against the trump, announced and scored, the
    /// winner leads the next round, and one card each is dealt while the
    /// deck lasts, or the game ends after the final round with the overall
    /// winner announced to everyone.
    #[verifier::rlimit(100)]
    #[verifier::spinoff_prover]
    pub fn play(&mut self, player_id: &String, card: Card) -> (r: Result<(), GameError>)
        requires
            old(self).wf(),
        ensures
            final(self).wf(),
            match r {
                Ok(()) => old(self).can_play(player_id@, card) && play_success_post(
                    *old(self),
                    *final(self),
                    card,
                ),
                Err(e) => {
                    &&& !old(self).can_play(player_id@, card)
                    &&& e == old(self).play_rejection(player_id@, card)
                    &&& unchanged_game(*old(self), *final(self))
                },
            },
    {
        match self.phase {
            Phase::Active => {},
            _ => {
                return Err(GameError::NotYourTurn);
            },
        }
        let t_idx = self.turn as usize;
        let n = self.players.len();
        if !(self.players[t_idx].id == *player_id) {
            return Err(GameError::NotYourTurn);
        }
        let hand_idx = match find_card(&self.players[t_idx].hand, card) {
            Some(k) => k,
            None => {
                return Err(GameError::NotInHand);
            },
        };
        proof {
            broadcast use vstd::seq_lib::group_to_multiset_ensures;
            broadcast use vstd::multiset::group_multiset_axioms;

            lemma_count_facts(old(self).n());
            assert(old(self).players@[t_idx as int].hand@.contains(card));
            assert(old(self).can_play(player_id@, card));
        }
        let ghost g0 = *old(self);
        // remove the first matching copy from the player's hand
        let mut p = Player { id: String::new(), hand: Vec::new(), score: 0, outbox: Vec::new() };
        self.players.set_and_swap(t_idx, &mut p);
        let _played = p.hand.remove(hand_idx);
        self.players.set_and_swap(t_idx, &mut p);
        proof {
            assert(self.players@ =~= g0.players@.update(
                t_idx as int,
                self.players@[t_idx as int],
            ));
            lemma_hands_of_lose(
                g0.players@,
                t_idx as int,
                self.players@[t_idx as int],
                card,
                hand_idx as int,
            );
        }
        // announce the play to the other players
        self.broadcast_played(card, t_idx);
        // the card joins the trick
        self.trick.push(card);
        let ghost g3 = *self;
        proof {
            broadcast use vstd::seq_lib::group_to_multiset_ensures;
            broadcast use vstd::multiset::group_multiset_axioms;

            assert(hands_of(g3.players@) == hands_of(g0.players@).remove(card));
            assert(hands_of(g0.players@).count(card) >= 1);
            assert(g3.trick@.to_multiset() == g0.trick@.to_multiset().insert(card));
            assert forall|x: Card|
                g3.remaining_deck@.to_multiset().add(hands_of(g3.players@)).add(
                    g3.trick@.to_multiset(),
                ).add(g3.resolved@.to_multiset()).count(x) == full_deck_seq().to_multiset().count(
                x,
            ) by {
                assert(g0.remaining_deck@.to_multiset().add(hands_of(g0.players@)).add(
                    g0.trick@.to_multiset(),
                ).add(g0.resolved@.to_multiset()).count(x) == full_deck_seq().to_multiset().count(
                    x,
                ));
            }
            assert(g3.remaining_deck@.to_multiset().add(hands_of(g3.players@)).add(
                g3.trick@.to_multiset(),
            ).add(g3.resolved@.to_multiset()) =~= full_deck_seq().to_multiset());
        }
        if self.trick.len() < n {
            self.turn = ((t_idx + 1) % n) as u8;
            proof {
                assert forall|i: int| 0 <= i < g0.players@.len() implies {
                    &&& (#[trigger] self.players@[i]).id@ == g0.players@[i].id@
                    &&& self.players@[i].hand@ == g0.play_hand_after(card, i)
                    &&& self.players@[i].score as int == g0.players@[i].score as int
                    &&& self.players@[i].outbox_v() == g0.players@[i].outbox_v()
                        + g0.play_events_for(card, i)
                } by {
                    if i == t_idx {
                        assert(self.players@[i].outbox_v() =~= g0.players@[i].outbox_v()
                            + Seq::<Ev>::empty());
                    } else {
                        assert(self.players@[i].outbox_v() =~= g0.players@[i].outbox_v() + seq![
                            Ev::PlayedCard(card),
                        ]);
                    }
                }
            }
            return Ok(());
        }
        // --- every player has played: resolve the round ---
        let b = compute_winning_index(&self.trick, self.trump.suit);
        let w = (b + t_idx + 1) % n;
        let s = compute_trick_points(&self.trick);
        proof {
            lemma_trick_points_bounds(self.trick@);
            assert(w as int == g0.play_winner(card));
            assert(s as int == g0.play_score(card));
        }
        self.broadcast_round_end(w as u8, s);
        let ghost g4 = *self;
        // the winner takes the trick's points
        let mut p2 = Player { id: String::new(), hand: Vec::new(), score: 0, outbox: Vec::new() };
        self.players.set_and_swap(w, &mut p2);
        p2.score = p2.score + (s as u16);
        self.players.set_and_swap(w, &mut p2);
        proof {
            assert(self.players@ =~= g4.players@.update(w as int, self.players@[w as int]));
            lemma_hands_of_update_same(g4.players@, w as int, self.players@[w as int]);
        }
        // the winner leads the next round
        self.turn = w as u8;
        // the trick's cards join the resolved pile
        self.resolved.append(&mut self.trick);
        let ghost g6 = *self;
        proof {
            broadcast use vstd::multiset::group_multiset_axioms;

            vstd::seq_lib::lemma_multiset_commutative(g0.resolved@, g3.trick@);
            lemma_empty_to_multiset(g6.trick@);
            assert(scores_of(g6.players@) =~= g0.scores_after(card));
            assert(g6.remaining_deck@.to_multiset().add(hands_of(g6.players@)).add(
                g6.trick@.to_multiset(),
            ).add(g6.resolved@.to_multiset()) =~= full_deck_seq().to_multiset());
            lemma_deck_len_step(g0.n(), g0.round as int);
            lemma_resolved_len_step(g0.n(), g0.round as int);
        }
        if self.remaining_deck.len() > 0 {
            self.round = self.round + 1;
            self.redeal(w);
            proof {
                broadcast use vstd::multiset::group_multiset_axioms;

                assert(final(self).remaining_deck@ =~= g0.remaining_deck@.subrange(
                    0,
                    g0.remaining_deck@.len() - g0.n(),
                ));
                assert(final(self).remaining_deck@.to_multiset().add(
                    hands_of(final(self).players@),
                ).add(final(self).trick@.to_multiset()).add(final(self).resolved@.to_multiset())
                    =~= full_deck_seq().to_multiset());
                assert forall|i: int| 0 <= i < g0.players@.len() implies {
                    &&& (#[trigger] final(self).players@[i]).id@ == g0.players@[i].id@
                    &&& final(self).players@[i].hand@ == g0.play_hand_after(card, i)
                    &&& final(self).players@[i].score as int == (if i == g0.play_winner(card) {
                        g0.players@[i].score + g0.play_score(card)
                    } else {
                        g0.players@[i].score as int
                    })
                    &&& final(self).players@[i].outbox_v() == g0.players@[i].outbox_v()
                        + g0.play_events_for(card, i)
                } by {
                    assert(gains_card(
                        g6.players@[i],
                        final(self).players@[i],
                        g6.remaining_deck@[g6.remaining_deck@.len() - 1 - rot_pos(
                            i,
                            w as int,
                            g6.n(),
                        )],
                    ));
                    assert(g6.remaining_deck@ == g0.remaining_deck@);
                    assert(final(self).players@[i].hand@ == g6.players@[i].hand@.push(
                        g0.dealt_card(card, i),
                    ));
                    assert(final(self).players@[i].outbox_v() =~= g0.players@[i].outbox_v()
                        + g0.play_events_for(card, i));
                }
                assert(final(self).wf());
            }
            return Ok(());
        }
        if (self.round as usize) == 40 / n {
            // final round resolved: the game is over
            let champ = compute_champion(&self.players);
            proof {
                assert(champ as int == champion_idx(g0.scores_after(card)));
            }
            let champ_id = self.players[champ].id.clone();
            self.broadcast_game_end(&champ_id);
            self.phase = Phase::Finished;
            proof {
                broadcast use vstd::multiset::group_multiset_axioms;

                lemma_count_facts(g0.n());
                assert(g0.n() * (g0.round as int) == 40) by (nonlinear_arith)
                    requires
                        g0.n() * (40int / g0.n()) == 40,
                        g0.round as int == 40int / g0.n(),
                ;
                assert forall|i: int| 0 <= i < g0.players@.len() implies {
                    &&& (#[trigger] final(self).players@[i]).id@ == g0.players@[i].id@
                    &&& final(self).players@[i].hand@ == g0.play_hand_after(card, i)
                    &&& final(self).players@[i].score as int == (if i == g0.play_winner(card) {
                        g0.players@[i].score + g0.play_score(card)
                    } else {
                        g0.players@[i].score as int
                    })
                    &&& final(self).players@[i].outbox_v() == g0.players@[i].outbox_v()
                        + g0.play_events_for(card, i)
                } by {
                    assert(gains_event(
                        g6.players@[i],
                        final(self).players@[i],
                        Ev::GameEnd(champ_id@),
                    ));
                    assert(champ_id@ == g0.champion_id(card));
                    assert(final(self).players@[i].outbox_v() =~= g0.players@[i].outbox_v()
                        + g0.play_events_for(card, i));
                }
                assert(final(self).wf());
            }
            return Ok(());
        }
        // deck exhausted but rounds remain: play on without dealing
        self.round = self.round + 1;
        proof {
            broadcast use vstd::multiset::group_multiset_axioms;

            assert forall|i: int| 0 <= i < g0.players@.len() implies {
                &&& (#[trigger] final(self).players@[i]).id@ == g0.players@[i].id@
                &&& final(self).players@[i].hand@ == g0.play_hand_after(card, i)
                &&& final(self).players@[i].score as int == (if i == g0.play_winner(card) {
                    g0.players@[i].score + g0.play_score(card)
                } else {
                    g0.players@[i].score as int
                })
                &&& final(self).players@[i].outbox_v() == g0.players@[i].outbox_v()
                    + g0.play_events_for(card, i)
            } by {
                assert(final(self).players@[i].outbox_v() =~= g0.players@[i].outbox_v()
                    + g0.play_events_for(card, i));
            }
            assert(final(self).wf());
        }
        Ok(())
    }
}


impl Game {
    /// Whether the final round has resolved and no further play is accepted.
    pub fn finished(&self) -> (b: bool)
        ensures
            b == (self.phase == Phase::Finished),
    {
        match self.phase {
            Phase::Finished => true,
            _ => false,
        }
    }

    /// Drains player `i`'s queued events, in the order they were emitted;
    /// the game state is otherwise untouched.
    pub fn take_outbox(&mut self, i: usize) -> (evs: Vec<Event>)
        requires
            old(self).wf(),
            i < old(self).players@.len(),
        ensures
            final(self).wf(),
            evs@ == old(self).players@[i as int].outbox@,
            final(self).players@.len() == old(self).players@.len(),
            forall|j: int|
                0 <= j < old(self).players@.len() && j != i ==> final(self).players@[j] == old(
                    self,
                ).players@[j],
            final(self).players@[i as int].id@ == old(self).players@[i as int].id@,
            final(self).players@[i as int].hand@ == old(self).players@[i as int].hand@,
            final(self).players@[i as int].score == old(self).players@[i as int].score,
            final(self).players@[i as int].outbox@.len() == 0,
            same_except_players(*old(self), *final(self)),
    {
        let mut p = Player { id: String::new(), hand: Vec::new(), score: 0, outbox: Vec::new() };
        self.players.set_and_swap(i, &mut p);
        let mut evs: Vec<Event> = Vec::new();
        core::mem::swap(&mut p.outbox, &mut evs);
        self.players.set_and_swap(i, &mut p);
        proof {
            assert(self.players@ =~= old(self).players@.update(
                i as int,
                self.players@[i as int],
            ));
            lemma_hands_of_update_same(old(self).players@, i as int, self.players@[i as int]);
        }
        evs
    }
}

} // verus!
