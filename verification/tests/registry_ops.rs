use brisca::cards::Card;
use brisca::events::Event;
use brisca::game::GameError;
use brisca::registry::Registry;

#[test]
fn identifiers_strictly_increase() {
    let mut reg = Registry::new();
    let a = reg.create(2);
    let b = reg.create(4);
    let c = reg.create(2);
    assert_eq!(a, 1);
    assert_eq!(b, 2);
    assert_eq!(c, 3);
}

#[test]
fn joining_an_unknown_game_is_not_found() {
    let mut reg = Registry::new();
    assert_eq!(reg.join(77, String::from("A")), Err(GameError::NotFound));
    assert_eq!(reg.play(77, &String::from("A"), Card { number: 1, suit: brisca::cards::Suit::Coin }),
        Err(GameError::NotFound));
    assert_eq!(reg.take_events(77, 0), Err(GameError::NotFound));
}

#[test]
fn the_filling_join_deals_and_a_late_join_is_full() {
    let mut reg = Registry::new();
    let id = reg.create(2);

    let roster_a = reg.join(id, String::from("A")).unwrap();
    assert_eq!(roster_a, vec![String::from("A")]);
    let roster_b = reg.join(id, String::from("B")).unwrap();
    assert_eq!(roster_b, vec![String::from("A"), String::from("B")]);

    // the room is at capacity now
    assert_eq!(reg.join(id, String::from("C")), Err(GameError::Full));
    assert_eq!(reg.player_count(id), Ok(2));

    // player A: both rosters, three cards, then the start with the trump
    let a_events = reg.take_events(id, 0).unwrap();
    assert_eq!(a_events.len(), 6);
    assert_eq!(a_events[0], Event::Connected(vec![String::from("A")]));
    assert_eq!(a_events[1], Event::Connected(vec![String::from("A"), String::from("B")]));
    assert!(matches!(a_events[2], Event::NewCard(_)));
    assert!(matches!(a_events[3], Event::NewCard(_)));
    assert!(matches!(a_events[4], Event::NewCard(_)));
    let trump_a = match &a_events[5] {
        Event::GameStart(c) => *c,
        other => panic!("expected the game start, got {:?}", other),
    };

    // player B: one roster, three cards, then the start with the same trump
    let b_events = reg.take_events(id, 1).unwrap();
    assert_eq!(b_events.len(), 5);
    assert_eq!(b_events[0], Event::Connected(vec![String::from("A"), String::from("B")]));
    let trump_b = match &b_events[4] {
        Event::GameStart(c) => *c,
        other => panic!("expected the game start, got {:?}", other),
    };
    assert_eq!(trump_a, trump_b);

    // dealing happened exactly once: no further events appear unprompted
    assert_eq!(reg.take_events(id, 0).unwrap(), vec![]);
    assert_eq!(reg.take_events(id, 1).unwrap(), vec![]);
}

#[test]
fn listing_shows_only_rooms_below_capacity() {
    let mut reg = Registry::new();
    let open_id = reg.create(4);
    let full_id = reg.create(2);
    reg.join(full_id, String::from("A")).unwrap();
    reg.join(full_id, String::from("B")).unwrap();

    let listing = reg.list_open();
    assert_eq!(listing.len(), 1);
    assert_eq!(listing[0].id, open_id.to_string());
    assert_eq!(listing[0].num_players, 4);
}

#[test]
fn a_whole_match_runs_through_the_registry() {
    let mut reg = Registry::new();
    let id = reg.create(2);
    reg.join(id, String::from("A")).unwrap();
    reg.join(id, String::from("B")).unwrap();

    // replay each player's hand from their own event stream
    let mut hands: [Vec<Card>; 2] = [Vec::new(), Vec::new()];
    let mut turn: usize = 0;
    let mut game_over = false;
    let mut rounds = 0;
    for p in 0..2usize {
        for e in reg.take_events(id, p).unwrap() {
            if let Event::NewCard(c) = e {
                hands[p].push(c);
            }
        }
    }
    let names = [String::from("A"), String::from("B")];
    let mut plays = 0;
    while !game_over {
        let card = hands[turn][0];
        assert_eq!(reg.play(id, &names[turn], card), Ok(()));
        plays += 1;
        assert!(plays <= 40);
        hands[turn].remove(0);
        let mut next = (turn + 1) % 2;
        for p in 0..2usize {
            for e in reg.take_events(id, p).unwrap() {
                match e {
                    Event::NewCard(c) => hands[p].push(c),
                    Event::RoundEnd(winner, _) => {
                        next = winner as usize;
                        if p == 0 {
                            rounds += 1;
                        }
                    },
                    Event::GameEnd(_) => game_over = true,
                    _ => {},
                }
            }
        }
        turn = next;
    }
    assert_eq!(plays, 40);
    assert_eq!(rounds, 20);
    // the finished game no longer accepts plays, under either name
    let any_card = Card { number: 1, suit: brisca::cards::Suit::Coin };
    assert_eq!(reg.play(id, &names[0], any_card), Err(GameError::NotYourTurn));
    assert_eq!(reg.play(id, &names[1], any_card), Err(GameError::NotYourTurn));
}
