//! The library's standing guarantees, stated as proof functions over the
//! contracts of `Game`'s operations.

use vstd::prelude::*;
use crate::cards::{Card, full_deck_seq, lemma_full_deck_distinct};
use crate::events::Ev;
use crate::game::{
    Game, Phase, hands_of, lemma_best_upto_bounds, play_success_post, trick_points,
};

verus! {

/// Card conservation: at every instant of a dealt game, the undealt pile,
/// all hands, the trick in progress and the cards captured by past tricks
/// together form exactly the 40-card deck — 40 cards, no card duplicated,
/// none lost.
pub proof fn lemma_card_conservation(g: Game)
    requires
        g.wf(),
        g.phase != Phase::Waiting,
    ensures
        g.remaining_deck@.to_multiset().add(hands_of(g.players@)).add(g.trick@.to_multiset()).add(
            g.resolved@.to_multiset(),
        ) == full_deck_seq().to_multiset(),
        forall|c: Card| full_deck_seq().to_multiset().count(c) <= 1,
        full_deck_seq().to_multiset().len() == 40,
{
    broadcast use vstd::seq_lib::group_to_multiset_ensures;
    broadcast use vstd::multiset::group_multiset_axioms;

    lemma_full_deck_distinct();
    assert(full_deck_seq().no_duplicates());
    full_deck_seq().lemma_multiset_has_no_duplicates();
    assert forall|c: Card| full_deck_seq().to_multiset().count(c) <= 1 by {
        if full_deck_seq().to_multiset().count(c) > 0 {
            assert(full_deck_seq().to_multiset().contains(c));
        }
    }
}

/// Turn rotation: the turn pointer always addresses a player, and a play
/// that leaves the trick incomplete advances it by exactly one seat — so
/// after `N` such plays it stands `N` seats past where the trick started.
pub proof fn lemma_turn_rotation(pre: Game, post: Game, card: Card)
    requires
        pre.wf(),
        pre.phase == Phase::Active,
        play_success_post(pre, post, card),
        !pre.play_resolves(card),
    ensures
        post.turn as int == (pre.turn as int + 1) % pre.n(),
        (post.turn as int) < pre.n(),
{
}

/// Round scoring: when a play completes the trick, the whole trick's
/// points — the point table summed over every card played this round — go
/// to the round's winner, and to no one else.
pub proof fn lemma_round_scoring(pre: Game, post: Game, card: Card)
    requires
        pre.wf(),
        pre.phase == Phase::Active,
        play_success_post(pre, post, card),
        pre.play_resolves(card),
    ensures
        0 <= pre.play_winner(card) < pre.n(),
        post.players@[pre.play_winner(card)].score == pre.players@[pre.play_winner(card)].score
            + trick_points(pre.played_trick(card)),
        forall|i: int|
            0 <= i < pre.players@.len() && i != pre.play_winner(card)
                ==> (#[trigger] post.players@[i]).score == pre.players@[i].score,
{
    lemma_best_upto_bounds(pre.played_trick(card), pre.trump.suit, pre.played_trick(card).len() as int);
}

/// Game end: the play that resolves the final round marks the game
/// finished, and appends to every player's queue exactly one end-of-game
/// announcement — as the last event, naming the champion — and no
/// announcement before it.
pub proof fn lemma_game_end(pre: Game, post: Game, card: Card, i: int)
    requires
        pre.wf(),
        pre.phase == Phase::Active,
        play_success_post(pre, post, card),
        pre.play_finishes(card),
        0 <= i < pre.players@.len(),
    ensures
        post.phase == Phase::Finished,
        post.players@[i].outbox_v() == pre.players@[i].outbox_v() + pre.play_events_for(card, i),
        pre.play_events_for(card, i).last() == Ev::GameEnd(pre.champion_id(card)),
        forall|k: int|
            0 <= k < pre.play_events_for(card, i).len() - 1 ==> !(#[trigger] pre.play_events_for(
                card,
                i,
            )[k] is GameEnd),
{
    let evs = pre.play_events_for(card, i);
    assert(!pre.play_deals(card));
    if i == pre.turn as int {
        assert(evs =~= seq![
            Ev::RoundEnd(pre.play_winner(card), pre.play_score(card)),
            Ev::GameEnd(pre.champion_id(card)),
        ]);
    } else {
        assert(evs =~= seq![
            Ev::PlayedCard(card),
            Ev::RoundEnd(pre.play_winner(card), pre.play_score(card)),
            Ev::GameEnd(pre.champion_id(card)),
        ]);
    }
}

} // verus!
