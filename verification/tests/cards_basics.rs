use brisca::cards::{full_deck, points_of, strength_of, Card, Suit};

#[test]
fn full_deck_has_forty_distinct_legal_cards() {
    let d = full_deck();
    assert_eq!(d.len(), 40);
    for i in 0..d.len() {
        let legal = matches!(d[i].number, 1..=7 | 10 | 11 | 12);
        assert!(legal);
        for j in 0..i {
            assert!(d[i] != d[j]);
        }
    }
}

#[test]
fn point_table_matches_the_rules() {
    let expected = [(1, 11), (2, 0), (3, 10), (4, 0), (5, 0), (6, 0), (7, 0), (10, 2), (11, 3), (12, 4)];
    for (number, points) in expected {
        let c = Card { number, suit: Suit::Baton };
        assert_eq!(points_of(&c), points);
    }
}

#[test]
fn strength_table_matches_the_rules() {
    let expected = [(1, 9), (3, 8), (12, 7), (11, 6), (10, 5), (7, 4), (6, 3), (5, 2), (4, 1), (2, 0)];
    for (number, strength) in expected {
        let c = Card { number, suit: Suit::Sword };
        assert_eq!(strength_of(&c), strength);
    }
}
