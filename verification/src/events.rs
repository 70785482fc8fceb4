//! Notifications a game emits to its players, and their mathematical view.

use vstd::prelude::*;
use crate::cards::Card;

verus! {

/// A notification pushed onto one player's outbound queue.
#[derive(Clone, Debug, PartialEq)]
pub enum Event {
    /// The updated roster, in join order, sent to every joined player.
    Connected(Vec<String>),
    /// A card dealt to this player only.
    NewCard(Card),
    /// The game has started; carries the trump card.
    GameStart(Card),
    /// A card some other player just played.
    PlayedCard(Card),
    /// A trick resolved: winning player index and the points it scored.
    RoundEnd(u8, u8),
    /// The game is over; carries the id of the player with the top score.
    GameEnd(String),
}

/// The mathematical shape of an [`Event`], with strings as character
/// sequences, used by contracts.
pub enum Ev {
    Connected(Seq<Seq<char>>),
    NewCard(Card),
    GameStart(Card),
    PlayedCard(Card),
    RoundEnd(int, int),
    GameEnd(Seq<char>),
}

impl View for Event {
    type V = Ev;

    open spec fn view(&self) -> Ev {
        match self {
            Event::Connected(ids) => Ev::Connected(ids.deep_view()),
            Event::NewCard(c) => Ev::NewCard(*c),
            Event::GameStart(c) => Ev::GameStart(*c),
            Event::PlayedCard(c) => Ev::PlayedCard(*c),
            Event::RoundEnd(w, s) => Ev::RoundEnd(*w as int, *s as int),
            Event::GameEnd(id) => Ev::GameEnd(id@),
        }
    }
}

/// The views of a queue of events, oldest first.
pub open spec fn events_view(q: Seq<Event>) -> Seq<Ev> {
    q.map_values(|e: Event| e@)
}

} // verus!
