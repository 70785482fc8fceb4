//! The registry of in-progress games: identifier allocation, joining,
//! playing, listing, and draining each player's event queue.

use vstd::prelude::*;
use rand::seq::SliceRandom;
use crate::cards::{Card, full_deck, full_deck_seq};
use crate::events::{Ev, Event};
use crate::game::{
    Game, GameError, Phase, gains_event, play_success_post, roster_of, same_except_players,
    unchanged_game, valid_player_count,
};

verus! {

/// A row of the open-games listing: identifier and target room size.
#[derive(Clone, Debug, PartialEq)]
pub struct GameInfo {
    pub id: String,
    pub num_players: u8,
}

/// Decimal digits of `n`.
pub uninterp spec fn decimal_of(n: u64) -> Seq<char>;

/// Relies on `u64`'s `Display` through `ToString::to_string`: the decimal
/// digits of the number, a function of its value alone.
#[verifier::external_body]
fn u64_to_string(n: u64) -> (r: String)
    ensures
        r@ == decimal_of(n),
{
    n.to_string()
}

/// Relies on rand's `SliceRandom::shuffle` with `rand::thread_rng`: a
/// Fisher-Yates in-place permutation, so the deck holds exactly the same
/// cards afterwards, in an order this contract leaves open.
#[verifier::external_body]
fn shuffle_cards(deck: &mut Vec<Card>)
    ensures
        final(deck)@.to_multiset() == old(deck)@.to_multiset(),
{
    deck.shuffle(&mut rand::thread_rng());
}

/// The four initial-deal notifications player `j` receives: their three
/// cards off the shuffled deck's top, then the trump announcement.
pub open spec fn deal_events(deck: Seq<Card>, j: int) -> Seq<Ev> {
    seq![
        Ev::NewCard(deck[39 - 3 * j]),
        Ev::NewCard(deck[38 - 3 * j]),
        Ev::NewCard(deck[37 - 3 * j]),
        Ev::GameStart(deck[0]),
    ]
}

/// What admitting `pid` to a still-unfilled room does: the roster grows by
/// them, empty-handed and scoreless, and everyone (the newcomer included)
/// is told the new roster.
pub open spec fn roster_grew(pre: Game, post: Game, pid: Seq<char>) -> bool {
    &&& post.players@.len() == pre.players@.len() + 1
    &&& roster_of(post.players@) == roster_of(pre.players@).push(pid)
    &&& post.players@.last().id@ == pid
    &&& post.players@.last().hand@.len() == 0
    &&& post.players@.last().score == 0
    &&& post.players@.last().outbox_v() == seq![Ev::Connected(roster_of(post.players@))]
    &&& forall|j: int|
        0 <= j < pre.players@.len() ==> gains_event(
            pre.players@[j],
            #[trigger] post.players@[j],
            Ev::Connected(roster_of(post.players@)),
        )
}

/// What the join that fills the room does, for the particular shuffled deck
/// `deck`: everyone learns the new roster, then the deal of `deck` runs
/// exactly once — three cards per player in join order, the trump fixed as
/// `deck[0]`, the game active on round 1 with player 0 to lead.
pub open spec fn started_with(pre: Game, post: Game, pid: Seq<char>, deck: Seq<Card>) -> bool {
    let ids = roster_of(pre.players@).push(pid);
    &&& post.phase == Phase::Active
    &&& post.round == 1
    &&& post.turn == 0
    &&& post.trump == deck[0]
    &&& post.remaining_deck@ == deck.subrange(0, 40 - 3 * pre.n())
    &&& post.players@.len() == pre.players@.len() + 1
    &&& roster_of(post.players@) == ids
    &&& forall|j: int|
        0 <= j < post.players@.len() ==> (#[trigger] post.players@[j]).hand@ == seq![
            deck[39 - 3 * j],
            deck[38 - 3 * j],
            deck[37 - 3 * j],
        ]
    &&& forall|j: int|
        0 <= j < pre.players@.len() ==> (#[trigger] post.players@[j]).outbox_v()
            == pre.players@[j].outbox_v() + seq![Ev::Connected(ids)] + deal_events(
            deck,
            j,
        )
    &&& post.players@.last().outbox_v() == seq![Ev::Connected(ids)] + deal_events(
        deck,
        pre.players@.len() as int,
    )
}

/// A successful join: the roster grew; and exactly when that brought it to
/// capacity, some shuffled arrangement of the full deck was dealt.
pub open spec fn join_post(pre: Game, post: Game, pid: Seq<char>) -> bool {
    if pre.players@.len() + 1 < pre.n() {
        &&& post.phase == Phase::Waiting
        &&& roster_grew(pre, post, pid)
    } else {
        exists|deck: Seq<Card>|
            {
                &&& deck.to_multiset() == full_deck_seq().to_multiset()
                &&& #[trigger] started_with(pre, post, pid, deck)
            }
    }
}

/// Whether some game in the registry carries this identifier.
pub open spec fn has_game(games: Seq<Game>, id: u64) -> bool {
    exists|i: int| 0 <= i < games.len() && (#[trigger] games[i]).id == id
}

/// The position of the game carrying this identifier.
pub open spec fn game_index(games: Seq<Game>, id: u64) -> int {
    choose|i: int| 0 <= i < games.len() && (#[trigger] games[i]).id == id
}

/// The open-games listing over the registry's games, oldest first: the
/// identifier's digits and the target size of each room still below
/// capacity.
pub open spec fn open_infos(games: Seq<Game>) -> Seq<(Seq<char>, u8)>
    decreases games.len(),
{
    if games.len() == 0 {
        Seq::empty()
    } else {
        let rest = open_infos(games.drop_last());
        if games.last().players@.len() < games.last().n() {
            rest.push((decimal_of(games.last().id), games.last().num_players))
        } else {
            rest
        }
    }
}

/// With strictly increasing identifiers, at most one game carries any
/// identifier, so any position holding it is the chosen one.
proof fn lemma_index_unique(games: Seq<Game>, id: u64, k: int)
    requires
        forall|i: int, j: int|
            0 <= i < j < games.len() ==> (#[trigger] games[i]).id < (#[trigger] games[j]).id,
        0 <= k < games.len(),
        games[k].id == id,
    ensures
        game_index(games, id) == k,
{
    assert(has_game(games, id));
    let c = game_index(games, id);
    assert(0 <= c < games.len() && games[c].id == id);
}

/// The registry: owns every in-progress game and the identifier counter.
///
/// A server serializes operations on it (one lock suffices for this core;
/// operations never block on delivery, since events are queued per player
/// and drained outside via [`Registry::take_events`]).
pub struct Registry {
    /// The next identifier to hand out; identifiers strictly increase and
    /// are never reused.
    pub next_id: u64,
    /// Every game created so far, in creation order.
    pub games: Vec<Game>,
}

impl Registry {
    /// Every game is well-formed, identifiers are strictly increasing and
    /// below the counter, and no room sits waiting at capacity (the join
    /// that fills a room deals at once).
    pub open spec fn wf(self) -> bool {
        &&& forall|i: int| 0 <= i < self.games@.len() ==> (#[trigger] self.games@[i]).wf()
        &&& forall|i: int|
            0 <= i < self.games@.len() ==> (#[trigger] self.games@[i]).id < self.next_id
        &&& forall|i: int, j: int|
            0 <= i < j < self.games@.len() ==> (#[trigger] self.games@[i]).id
                < (#[trigger] self.games@[j]).id
        &&& forall|i: int|
            0 <= i < self.games@.len() && (#[trigger] self.games@[i]).phase == Phase::Waiting
                ==> self.games@[i].players@.len() < self.games@[i].n()
    }

    /// An empty registry.
    pub fn new() -> (r: Registry)
        ensures
            r.wf(),
            r.games@.len() == 0,
            r.next_id == 1,
    {
        Registry { next_id: 1, games: Vec::new() }
    }

    /// Creates an empty room of the given size and returns its fresh
    /// identifier, strictly greater than every identifier handed out before.
    pub fn create(&mut self, num_players: u8) -> (id: u64)
        requires
            old(self).wf(),
            valid_player_count(num_players),
            old(self).next_id < u64::MAX,
        ensures
            final(self).wf(),
            id == old(self).next_id,
            final(self).next_id == old(self).next_id + 1,
            final(self).games@.len() == old(self).games@.len() + 1,
            forall|i: int|
                0 <= i < old(self).games@.len() ==> final(self).games@[i] == old(self).games@[i],
            final(self).games@.last().id == id,
            final(self).games@.last().num_players == num_players,
            final(self).games@.last().phase == Phase::Waiting,
            final(self).games@.last().players@.len() == 0,
            has_game(final(self).games@, id),
    {
        let id = self.next_id;
        self.next_id = self.next_id + 1;
        let g = Game::new(id, num_players);
        self.games.push(g);
        proof {
            assert(final(self).games@[final(self).games@.len() - 1].id == id);
        }
        id
    }

    /// Finds the position of the game with this identifier.
    fn find(&self, game_id: u64) -> (r: Option<usize>)
        ensures
            match r {
                Some(k) => {
                    &&& k < self.games@.len()
                    &&& self.games@[k as int].id == game_id
                    &&& has_game(self.games@, game_id)
                },
                None => !has_game(self.games@, game_id),
            },
    {
        let mut k: usize = 0;
        while k < self.games.len()
            invariant
                k <= self.games@.len(),
                forall|i: int| 0 <= i < k ==> (#[trigger] self.games@[i]).id != game_id,
            decreases self.games@.len() - k,
        {
            if self.games[k].id == game_id {
                proof {
                    assert(has_game(self.games@, game_id));
                }
                return Some(k);
            }
            k = k + 1;
        }
        None
    }
}


impl Registry {
    /// Admits `player_id` to the identified game and returns the roster
    /// after the join; the join that fills the room also shuffles and deals
    /// (exactly once — a dealt game can never be joined again). Rejects an
    /// unknown identifier with `NotFound` and a room at capacity with
    /// `Full`, leaving everything unchanged.
    pub fn join(&mut self, game_id: u64, player_id: String) -> (r: Result<
        Vec<String>,
        GameError,
    >)
        requires
            old(self).wf(),
        ensures
            final(self).wf(),
            final(self).next_id == old(self).next_id,
            final(self).games@.len() == old(self).games@.len(),
            match r {
                Err(e) => {
                    &&& final(self).games@ == old(self).games@
                    &&& (e == GameError::NotFound || e == GameError::Full)
                    &&& (e == GameError::NotFound <==> !has_game(old(self).games@, game_id))
                    &&& (e == GameError::Full ==> old(self).games@[game_index(
                        old(self).games@,
                        game_id,
                    )].players@.len() == old(self).games@[game_index(
                        old(self).games@,
                        game_id,
                    )].n())
                },
                Ok(roster) => {
                    let gi = game_index(old(self).games@, game_id);
                    &&& has_game(old(self).games@, game_id)
                    &&& old(self).games@[gi].players@.len() < old(self).games@[gi].n()
                    &&& forall|j: int|
                        0 <= j < old(self).games@.len() && j != gi ==> final(self).games@[j]
                            == old(self).games@[j]
                    &&& join_post(old(self).games@[gi], final(self).games@[gi], player_id@)
                    &&& roster.deep_view() == roster_of(final(self).games@[gi].players@)
                },
            },
    {
        let k = match self.find(game_id) {
            Some(k) => k,
            None => {
                return Err(GameError::NotFound);
            },
        };
        proof {
            lemma_index_unique(self.games@, game_id, k as int);
        }
        if self.games[k].players.len() == self.games[k].num_players as usize {
            return Err(GameError::Full);
        }
        let ghost pre = self.games@[k as int];
        let mut g = Game::new(0, 1);
        self.games.set_and_swap(k, &mut g);
        proof {
            assert(g.wf());
            assert(g == pre);
        }
        let became_full = g.join(player_id);
        let ghost mid = g;
        if became_full {
            let mut deck = full_deck();
            shuffle_cards(&mut deck);
            let ghost d = deck@;
            g.begin(deck);
            proof {
                let ids = roster_of(pre.players@).push(player_id@);
                assert(roster_of(mid.players@) == ids);
                assert(roster_of(g.players@) =~= roster_of(mid.players@));
                assert forall|j: int| 0 <= j < pre.players@.len() implies
                    (#[trigger] g.players@[j]).outbox_v() == pre.players@[j].outbox_v() + seq![
                        Ev::Connected(ids),
                    ] + deal_events(d, j) by {
                    assert(mid.players@[j].outbox_v() == pre.players@[j].outbox_v().push(
                        Ev::Connected(ids),
                    ));
                    assert(g.players@[j].outbox_v() =~= pre.players@[j].outbox_v() + seq![
                        Ev::Connected(ids),
                    ] + deal_events(d, j));
                }
                assert(g.players@.last().outbox_v() =~= seq![Ev::Connected(ids)] + deal_events(
                    d,
                    pre.players@.len() as int,
                ));
                assert(started_with(pre, g, player_id@, d));
                assert(join_post(pre, g, player_id@));
            }
        } else {
            proof {
                assert(join_post(pre, g, player_id@));
            }
        }
        let roster = g.roster();
        self.games.set_and_swap(k, &mut g);
        proof {
            assert(self.games@ =~= old(self).games@.update(k as int, self.games@[k as int]));
        }
        Ok(roster)
    }

    /// Forwards one play to the identified game under the registry's
    /// exclusive access; rejections (`NotFound`, `NotYourTurn`, `NotInHand`)
    /// leave every game unchanged.
    pub fn play(&mut self, game_id: u64, player_id: &String, card: Card) -> (r: Result<
        (),
        GameError,
    >)
        requires
            old(self).wf(),
        ensures
            final(self).wf(),
            final(self).next_id == old(self).next_id,
            final(self).games@.len() == old(self).games@.len(),
            match r {
                Ok(()) => {
                    let gi = game_index(old(self).games@, game_id);
                    &&& has_game(old(self).games@, game_id)
                    &&& old(self).games@[gi].can_play(player_id@, card)
                    &&& play_success_post(
                        old(self).games@[gi],
                        final(self).games@[gi],
                        card,
                    )
                    &&& forall|j: int|
                        0 <= j < old(self).games@.len() && j != gi ==> final(self).games@[j]
                            == old(self).games@[j]
                },
                Err(e) => {
                    if e == GameError::NotFound {
                        &&& !has_game(old(self).games@, game_id)
                        &&& final(self).games@ == old(self).games@
                    } else {
                        let gi = game_index(old(self).games@, game_id);
                        &&& has_game(old(self).games@, game_id)
                        &&& !old(self).games@[gi].can_play(player_id@, card)
                        &&& e == old(self).games@[gi].play_rejection(player_id@, card)
                        &&& unchanged_game(old(self).games@[gi], final(self).games@[gi])
                        &&& forall|j: int|
                            0 <= j < old(self).games@.len() && j != gi ==> final(self).games@[j]
                                == old(self).games@[j]
                    }
                },
            },
    {
        let k = match self.find(game_id) {
            Some(k) => k,
            None => {
                return Err(GameError::NotFound);
            },
        };
        proof {
            lemma_index_unique(self.games@, game_id, k as int);
        }
        let mut g = Game::new(0, 1);
        self.games.set_and_swap(k, &mut g);
        let res = g.play(player_id, card);
        self.games.set_and_swap(k, &mut g);
        proof {
            assert(self.games@ =~= old(self).games@.update(k as int, self.games@[k as int]));
        }
        res
    }

    /// Lists the rooms still below capacity: each one's identifier (as its
    /// digits) and target size, in creation order.
    pub fn list_open(&self) -> (r: Vec<GameInfo>)
        ensures
            r@.map_values(|gi: GameInfo| (gi.id@, gi.num_players)) == open_infos(self.games@),
    {
        let mut r: Vec<GameInfo> = Vec::new();
        let mut k: usize = 0;
        while k < self.games.len()
            invariant
                k <= self.games@.len(),
                r@.map_values(|gi: GameInfo| (gi.id@, gi.num_players)) == open_infos(
                    self.games@.subrange(0, k as int),
                ),
            decreases self.games@.len() - k,
        {
            let open = self.games[k].players.len() < self.games[k].num_players as usize;
            if open {
                let id = u64_to_string(self.games[k].id);
                let num_players = self.games[k].num_players;
                r.push(GameInfo { id, num_players });
            }
            proof {
                assert(self.games@.subrange(0, k + 1).drop_last() =~= self.games@.subrange(
                    0,
                    k as int,
                ));
                assert(self.games@.subrange(0, k + 1).last() == self.games@[k as int]);
                assert(r@.map_values(|gi: GameInfo| (gi.id@, gi.num_players)) =~= open_infos(
                    self.games@.subrange(0, k + 1),
                ));
            }
            k = k + 1;
        }
        proof {
            assert(self.games@.subrange(0, self.games@.len() as int) =~= self.games@);
        }
        r
    }

    /// Drains the queued events of one player of one game, oldest first;
    /// delivery failure is then the caller's affair and never reaches the
    /// game. A position beyond the roster yields no events.
    pub fn take_events(&mut self, game_id: u64, player: usize) -> (r: Result<
        Vec<Event>,
        GameError,
    >)
        requires
            old(self).wf(),
        ensures
            final(self).wf(),
            final(self).next_id == old(self).next_id,
            final(self).games@.len() == old(self).games@.len(),
            match r {
                Err(e) => {
                    &&& e == GameError::NotFound
                    &&& !has_game(old(self).games@, game_id)
                    &&& final(self).games@ == old(self).games@
                },
                Ok(evs) => {
                    let gi = game_index(old(self).games@, game_id);
                    &&& has_game(old(self).games@, game_id)
                    &&& forall|j: int|
                        0 <= j < old(self).games@.len() && j != gi ==> final(self).games@[j]
                            == old(self).games@[j]
                    &&& if player < old(self).games@[gi].players@.len() {
                        &&& evs@ == old(self).games@[gi].players@[player as int].outbox@
                        &&& final(self).games@[gi].players@[player as int].outbox@.len() == 0
                        &&& same_except_players(old(self).games@[gi], final(self).games@[gi])
                        &&& final(self).games@[gi].players@.len()
                            == old(self).games@[gi].players@.len()
                        &&& forall|j: int|
                            0 <= j < old(self).games@[gi].players@.len() && j != player
                                ==> final(self).games@[gi].players@[j]
                                == old(self).games@[gi].players@[j]
                    } else {
                        &&& evs@.len() == 0
                        &&& final(self).games@[gi] == old(self).games@[gi]
                    }
                },
            },
    {
        let k = match self.find(game_id) {
            Some(k) => k,
            None => {
                return Err(GameError::NotFound);
            },
        };
        proof {
            lemma_index_unique(self.games@, game_id, k as int);
        }
        if player >= self.games[k].players.len() {
            return Ok(Vec::new());
        }
        let mut g = Game::new(0, 1);
        self.games.set_and_swap(k, &mut g);
        let evs = g.take_outbox(player);
        self.games.set_and_swap(k, &mut g);
        proof {
            assert(self.games@ =~= old(self).games@.update(k as int, self.games@[k as int]));
        }
        Ok(evs)
    }

    /// Whether the identified game has ended: its final round resolved and
    /// every pending event, the end announcement included, already queued.
    pub fn is_finished(&self, game_id: u64) -> (r: Result<bool, GameError>)
        requires
            self.wf(),
        ensures
            match r {
                Err(e) => e == GameError::NotFound && !has_game(self.games@, game_id),
                Ok(b) => {
                    &&& has_game(self.games@, game_id)
                    &&& b == (self.games@[game_index(self.games@, game_id)].phase
                        == Phase::Finished)
                },
            },
    {
        match self.find(game_id) {
            Some(k) => {
                proof {
                    lemma_index_unique(self.games@, game_id, k as int);
                }
                Ok(self.games[k].finished())
            },
            None => Err(GameError::NotFound),
        }
    }

    /// How many players have joined the identified game.
    pub fn player_count(&self, game_id: u64) -> (r: Result<usize, GameError>)
        requires
            self.wf(),
        ensures
            match r {
                Err(e) => e == GameError::NotFound && !has_game(self.games@, game_id),
                Ok(c) => {
                    &&& has_game(self.games@, game_id)
                    &&& c == self.games@[game_index(self.games@, game_id)].players@.len()
                },
            },
    {
        match self.find(game_id) {
            Some(k) => {
                proof {
                    lemma_index_unique(self.games@, game_id, k as int);
                }
                Ok(self.games[k].players.len())
            },
            None => Err(GameError::NotFound),
        }
    }
}

} // verus!
