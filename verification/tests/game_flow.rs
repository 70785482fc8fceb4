use brisca::cards::{full_deck, Card, Suit};
use brisca::events::Event;
use brisca::game::{Game, GameError};

/// A deck with chosen cards at chosen positions and every other card of the
/// full deck filling the remaining slots.
fn deck_with(placed: &[(usize, Card)]) -> Vec<Card> {
    let mut deck: Vec<Option<Card>> = vec![None; 40];
    for (pos, card) in placed {
        assert!(deck[*pos].is_none());
        deck[*pos] = Some(*card);
    }
    let mut rest: Vec<Card> = full_deck()
        .into_iter()
        .filter(|c| placed.iter().all(|(_, p)| p != c))
        .collect();
    for slot in deck.iter_mut() {
        if slot.is_none() {
            *slot = Some(rest.pop().unwrap());
        }
    }
    deck.into_iter().map(|c| c.unwrap()).collect()
}

fn new_two_player_started() -> Game {
    let mut g = Game::new(7, 2);
    assert!(!g.join(String::from("A")));
    assert!(g.join(String::from("B")));
    g.begin(full_deck());
    g
}

#[test]
fn two_player_join_and_deal() {
    let mut g = new_two_player_started();

    let roster = g.roster();
    assert_eq!(roster, vec![String::from("A"), String::from("B")]);

    // the reference deck ends ... Sword 5,6,7,10,11,12; dealing pops its top
    let trump = Card { number: 1, suit: Suit::Coin };
    assert_eq!(g.trump, trump);
    assert_eq!(g.players[0].hand, vec![
        Card { number: 12, suit: Suit::Sword },
        Card { number: 11, suit: Suit::Sword },
        Card { number: 10, suit: Suit::Sword },
    ]);
    assert_eq!(g.players[1].hand, vec![
        Card { number: 7, suit: Suit::Sword },
        Card { number: 6, suit: Suit::Sword },
        Card { number: 5, suit: Suit::Sword },
    ]);

    // player A saw both rosters, then three cards, then the game start
    let a_events = g.take_outbox(0);
    assert_eq!(a_events, vec![
        Event::Connected(vec![String::from("A")]),
        Event::Connected(vec![String::from("A"), String::from("B")]),
        Event::NewCard(Card { number: 12, suit: Suit::Sword }),
        Event::NewCard(Card { number: 11, suit: Suit::Sword }),
        Event::NewCard(Card { number: 10, suit: Suit::Sword }),
        Event::GameStart(trump),
    ]);
    // player B joined later: one roster, three cards, the game start
    let b_events = g.take_outbox(1);
    assert_eq!(b_events, vec![
        Event::Connected(vec![String::from("A"), String::from("B")]),
        Event::NewCard(Card { number: 7, suit: Suit::Sword }),
        Event::NewCard(Card { number: 6, suit: Suit::Sword }),
        Event::NewCard(Card { number: 5, suit: Suit::Sword }),
        Event::GameStart(trump),
    ]);
    // a second drain finds nothing
    assert_eq!(g.take_outbox(0), vec![]);
}

#[test]
fn playing_out_of_turn_is_rejected_without_any_change() {
    let mut g = new_two_player_started();
    let card = g.players[1].hand[0];
    let before_hands = (g.players[0].hand.clone(), g.players[1].hand.clone());
    let r = g.play(&String::from("B"), card);
    assert_eq!(r, Err(GameError::NotYourTurn));
    assert_eq!(g.turn, 0);
    assert_eq!(g.trick.len(), 0);
    assert_eq!(g.players[0].hand, before_hands.0);
    assert_eq!(g.players[1].hand, before_hands.1);
}

#[test]
fn playing_a_card_not_in_hand_is_rejected_without_any_change() {
    let mut g = new_two_player_started();
    // player A holds only swords at this point
    let card = Card { number: 1, suit: Suit::Coin };
    let before_hand = g.players[0].hand.clone();
    let r = g.play(&String::from("A"), card);
    assert_eq!(r, Err(GameError::NotInHand));
    assert_eq!(g.turn, 0);
    assert_eq!(g.trick.len(), 0);
    assert_eq!(g.players[0].hand, before_hand);
}

#[test]
fn turn_advances_by_one_seat_per_play() {
    let mut g = Game::new(9, 4);
    for id in ["A", "B", "C", "D"] {
        g.join(String::from(id));
    }
    g.begin(full_deck());
    for expected_turn in 0..3u8 {
        assert_eq!(g.turn, expected_turn);
        let pid = g.players[expected_turn as usize].id.clone();
        let card = g.players[expected_turn as usize].hand[0];
        assert_eq!(g.play(&pid, card), Ok(()));
        if expected_turn < 2 {
            assert_eq!(g.turn, expected_turn + 1);
        }
    }
}

#[test]
fn example_trick_scores_twenty_three_for_the_trump_player() {
    // trump is a cup; the four players lead 1 Coin, 3 Cup, 10 Baton, 4 Sword
    let deck = deck_with(&[
        (0, Card { number: 2, suit: Suit::Cup }),
        (39, Card { number: 1, suit: Suit::Coin }),
        (36, Card { number: 3, suit: Suit::Cup }),
        (33, Card { number: 10, suit: Suit::Baton }),
        (30, Card { number: 4, suit: Suit::Sword }),
    ]);
    let mut g = Game::new(11, 4);
    for id in ["A", "B", "C", "D"] {
        g.join(String::from(id));
    }
    g.begin(deck);
    for i in 0..4usize {
        let pid = g.players[i].id.clone();
        let card = g.players[i].hand[0];
        assert_eq!(g.play(&pid, card), Ok(()));
    }
    // 11 + 10 + 2 + 0 points, won by the only trump card played
    assert_eq!(g.players[1].score, 23);
    assert_eq!(g.players[0].score, 0);
    assert_eq!(g.turn, 1);
    assert_eq!(g.round, 2);
    let events = g.take_outbox(0);
    assert!(events.contains(&Event::RoundEnd(1, 23)));
}

#[test]
fn a_second_trump_beats_an_earlier_weaker_trump() {
    // three trump cards in one trick: the strongest trump must win
    let deck = deck_with(&[
        (0, Card { number: 2, suit: Suit::Cup }),
        (39, Card { number: 2, suit: Suit::Sword }),
        (36, Card { number: 4, suit: Suit::Cup }),
        (33, Card { number: 7, suit: Suit::Cup }),
        (30, Card { number: 1, suit: Suit::Cup }),
    ]);
    let mut g = Game::new(13, 4);
    for id in ["A", "B", "C", "D"] {
        g.join(String::from(id));
    }
    g.begin(deck);
    for i in 0..4usize {
        let pid = g.players[i].id.clone();
        let card = g.players[i].hand[0];
        assert_eq!(g.play(&pid, card), Ok(()));
    }
    assert_eq!(g.players[3].score, 11);
    assert_eq!(g.turn, 3);
    let events = g.take_outbox(0);
    assert!(events.contains(&Event::RoundEnd(3, 11)));
}

#[test]
fn full_game_finishes_after_twenty_rounds_with_one_game_end_each() {
    let mut g = new_two_player_started();
    let mut plays = 0;
    while !g.finished() {
        let t = g.turn as usize;
        let pid = g.players[t].id.clone();
        let card = g.players[t].hand[0];
        assert_eq!(g.play(&pid, card), Ok(()));
        plays += 1;
        assert!(plays <= 40);
    }
    assert_eq!(plays, 40);
    assert_eq!(g.round, 20);
    assert_eq!(g.remaining_deck.len(), 0);
    assert_eq!(g.trick.len(), 0);
    assert!(g.players[0].hand.is_empty());
    assert!(g.players[1].hand.is_empty());

    // every card was captured exactly once
    assert_eq!(g.resolved.len(), 40);
    let mut seen = g.resolved.clone();
    seen.sort_by_key(|c| (c.number, c.suit as u8));
    let mut all = full_deck();
    all.sort_by_key(|c| (c.number, c.suit as u8));
    assert_eq!(seen, all);

    // the round scores sum to the deck's 120 points
    let total: u32 = g.players.iter().map(|p| p.score as u32).sum();
    assert_eq!(total, 120);

    // exactly one end-of-game announcement per player, as the last event
    for i in 0..2usize {
        let events = g.take_outbox(i);
        let ends: Vec<&Event> = events
            .iter()
            .filter(|e| matches!(e, Event::GameEnd(_)))
            .collect();
        assert_eq!(ends.len(), 1);
        assert!(matches!(events.last().unwrap(), Event::GameEnd(_)));
    }

    // a late play is rejected and changes nothing
    let r = g.play(&String::from("A"), Card { number: 1, suit: Suit::Coin });
    assert_eq!(r, Err(GameError::NotYourTurn));
}
