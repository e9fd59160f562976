use shared_lib::data_structures::{
    BullyingAction, Card, EngineError, GameStateBullying, Player, Suit,
};

fn players(names: &[&str]) -> Vec<Player> {
    names.iter().map(|s| Player::new((*s).to_string())).collect()
}

fn c(suit: Suit, value: u8) -> Card {
    Card::new(suit, value)
}

/// Stock for three players with two cards each: player 0 holds the two of
/// hearts, player 1 the two of spades, player 2 no two; the seven of hearts
/// opens the pile.
fn chain_stock() -> Vec<Card> {
    vec![
        c(Suit::Clubs, 3),
        c(Suit::Clubs, 6),
        c(Suit::Clubs, 8),
        c(Suit::Clubs, 10),
        c(Suit::Clubs, 12),
        c(Suit::Hearts, 7),
        c(Suit::Diamonds, 5),
        c(Suit::Clubs, 4),
        c(Suit::Diamonds, 9),
        c(Suit::Spades, 2),
        c(Suit::Clubs, 9),
        c(Suit::Hearts, 2),
    ]
}

#[test]
fn test_bullying() {
    let game = GameStateBullying::new_game_default(players(&["a", "b", "c"])).unwrap();
    let player_games = game.get_player_states();
    assert_eq!(player_games.len(), 3);
    assert_eq!(player_games, game.get_player_states());
    for (i, view) in player_games.iter().enumerate() {
        assert_eq!(view.cards, game.cards_of_players[i]);
        assert_eq!(view.cards.len(), 7);
        assert_eq!(view.card_amount_of_players, vec![7, 7, 7]);
        assert_eq!(view.games_won_of_players, vec![0, 0, 0]);
        assert!(!view.game_over);
    }
    assert_eq!(game.cards_in_stock.len(), 58 - 21 - 1);
}

#[test]
fn full_stock_is_ordered_with_jokers_last() {
    let s = Card::full_stock(2);
    assert_eq!(s.len(), 58);
    assert_eq!(s[0], c(Suit::Clubs, 1));
    assert_eq!(s[13], c(Suit::Clubs, 14));
    assert_eq!(s[14], c(Suit::Diamonds, 1));
    assert_eq!(s[55], c(Suit::Spades, 14));
    assert_eq!(s[56], Card::new_joker());
    assert_eq!(s[57], Card::Joker);
    assert_eq!(Card::full_stock(0).len(), 56);
}

#[test]
fn n_full_stocks_concatenates_decks() {
    let s = Card::n_full_stocks(3, 1);
    assert_eq!(s.len(), 3 * 57);
    assert_eq!(s[57], c(Suit::Clubs, 1));
    assert_eq!(s[56], Card::Joker);
    assert!(Card::n_full_stocks(0, 2).is_empty());
}

#[test]
fn bully_cards_and_draw_amounts() {
    for v in [1u8, 2, 7, 8, 10, 11] {
        assert!(c(Suit::Hearts, v).bullying_is_bully_card());
    }
    for v in [3u8, 4, 5, 6, 9, 12, 13, 14] {
        assert!(!c(Suit::Hearts, v).bullying_is_bully_card());
    }
    assert!(Card::Joker.bullying_is_bully_card());
    assert_eq!(Card::Joker.bullying_get_draw_amount(), 5);
    assert_eq!(c(Suit::Clubs, 2).bullying_get_draw_amount(), 2);
    assert_eq!(c(Suit::Clubs, 7).bullying_get_draw_amount(), 0);
}

#[test]
fn playable_cards_follow_the_rules() {
    let hand = vec![
        c(Suit::Hearts, 3),
        c(Suit::Clubs, 9),
        c(Suit::Spades, 11),
        c(Suit::Diamonds, 2),
        Card::Joker,
        c(Suit::Spades, 9),
    ];
    let on_h9 = GameStateBullying::playable_cards(0, c(Suit::Hearts, 9), &hand);
    assert_eq!(
        on_h9,
        vec![c(Suit::Hearts, 3), c(Suit::Clubs, 9), c(Suit::Spades, 11), Card::Joker, c(Suit::Spades, 9)]
    );
    let pending = GameStateBullying::playable_cards(2, c(Suit::Hearts, 9), &hand);
    assert_eq!(pending, vec![c(Suit::Diamonds, 2), Card::Joker]);
    let on_joker = GameStateBullying::playable_cards(0, Card::Joker, &hand);
    assert_eq!(on_joker, hand);
    assert!(GameStateBullying::playable_cards(0, c(Suit::Clubs, 1), &[]).is_empty());
}

#[test]
fn two_player_bully_chain_scenario() {
    let stock = vec![
        c(Suit::Diamonds, 8),
        c(Suit::Spades, 2),
        c(Suit::Clubs, 5),
        c(Suit::Hearts, 2),
    ];
    let mut g = GameStateBullying::new_game_from_stock(players(&["ann", "bob"]), stock, 1).unwrap();
    assert_eq!(g.cards_of_players[0], vec![c(Suit::Hearts, 2)]);
    assert_eq!(g.cards_of_players[1], vec![c(Suit::Clubs, 5)]);
    assert_eq!(g.cards_played, vec![c(Suit::Spades, 2)]);
    assert_eq!(
        g.available_actions(0),
        vec![BullyingAction::PlayCard(c(Suit::Hearts, 2)), BullyingAction::Wait]
    );
    g.next_state(&vec![BullyingAction::PlayCard(c(Suit::Hearts, 2)), BullyingAction::Wait])
        .unwrap();
    assert_eq!(g.draw_stack, 2);
    assert_eq!(g.current_turn, 1);
    // The first player has no card left, so the game is over.
    let second = g.available_actions(1);
    assert_eq!(second, vec![BullyingAction::Wait]);
    assert!(!second.contains(&BullyingAction::DrawCard));
    assert!(g.get_player_states()[1].game_over);
}

#[test]
fn two_player_bully_chain_with_cards_left() {
    let stock = vec![
        c(Suit::Diamonds, 8),
        c(Suit::Spades, 2),
        c(Suit::Clubs, 7),
        c(Suit::Clubs, 5),
        c(Suit::Hearts, 9),
        c(Suit::Hearts, 2),
    ];
    let mut g = GameStateBullying::new_game_from_stock(players(&["ann", "bob"]), stock, 2).unwrap();
    g.next_state(&vec![BullyingAction::PlayCard(c(Suit::Hearts, 2)), BullyingAction::Wait])
        .unwrap();
    let second = g.available_actions(1);
    assert_eq!(second, vec![BullyingAction::DrawBullyCards(2), BullyingAction::Wait]);
    assert!(!second.contains(&BullyingAction::DrawCard));
    assert_eq!(g.available_actions(0), vec![BullyingAction::Wait]);
}

#[test]
fn penalty_stacking_scenario() {
    let mut g =
        GameStateBullying::new_game_from_stock(players(&["a", "b", "c"]), chain_stock(), 2).unwrap();
    assert_eq!(g.draw_stack, 0);
    g.next_state(&vec![
        BullyingAction::PlayCard(c(Suit::Hearts, 2)),
        BullyingAction::Wait,
        BullyingAction::Wait,
    ])
    .unwrap();
    assert_eq!(g.draw_stack, 2);
    assert_eq!(
        g.available_actions(1),
        vec![
            BullyingAction::PlayCard(c(Suit::Spades, 2)),
            BullyingAction::DrawBullyCards(2),
            BullyingAction::Wait
        ]
    );
    g.next_state(&vec![
        BullyingAction::Wait,
        BullyingAction::PlayCard(c(Suit::Spades, 2)),
        BullyingAction::Wait,
    ])
    .unwrap();
    assert_eq!(g.draw_stack, 4);
    assert_eq!(
        g.available_actions(2),
        vec![BullyingAction::DrawBullyCards(4), BullyingAction::Wait]
    );
    let before = g.cards_of_players[2].len();
    g.next_state(&vec![
        BullyingAction::Wait,
        BullyingAction::Wait,
        BullyingAction::DrawBullyCards(4),
    ])
    .unwrap();
    assert_eq!(g.cards_of_players[2].len(), before + 4);
    assert_eq!(g.draw_stack, 0);
    assert_eq!(g.current_turn, 2);
}

#[test]
fn illegal_batches_leave_the_state_alone() {
    let mut g =
        GameStateBullying::new_game_from_stock(players(&["a", "b", "c"]), chain_stock(), 2).unwrap();
    let hands = g.cards_of_players.clone();
    let r = g.next_state(&vec![BullyingAction::Wait, BullyingAction::Wait]);
    assert_eq!(r, Err(EngineError::ActionCountMismatch));
    let r = g.next_state(&vec![
        BullyingAction::DrawCard,
        BullyingAction::Wait,
        BullyingAction::Wait,
    ]);
    assert_eq!(r, Err(EngineError::IllegalAction(0)));
    let r = g.next_state(&vec![
        BullyingAction::PlayCard(c(Suit::Hearts, 2)),
        BullyingAction::DrawCard,
        BullyingAction::Wait,
    ]);
    assert_eq!(r, Err(EngineError::IllegalAction(1)));
    assert_eq!(g.cards_of_players, hands);
    assert_eq!(g.current_turn, 0);
    assert_eq!(g.draw_stack, 0);
}

#[test]
fn draw_without_playable_card_ends_the_turn() {
    let stock = vec![
        c(Suit::Hearts, 4),
        c(Suit::Diamonds, 13),
        c(Suit::Clubs, 5),
        c(Suit::Spades, 3),
    ];
    let mut g = GameStateBullying::new_game_from_stock(players(&["a", "b"]), stock, 1).unwrap();
    assert_eq!(g.available_actions(0), vec![BullyingAction::DrawCard, BullyingAction::Wait]);
    g.next_state(&vec![BullyingAction::DrawCard, BullyingAction::Wait]).unwrap();
    assert_eq!(g.cards_of_players[0], vec![c(Suit::Spades, 3), c(Suit::Hearts, 4)]);
    assert_eq!(g.current_turn, 1);
    assert_eq!(g.available_actions(0), vec![BullyingAction::Wait]);
}

#[test]
fn draw_with_playable_card_keeps_the_turn() {
    let stock = vec![
        c(Suit::Diamonds, 4),
        c(Suit::Diamonds, 13),
        c(Suit::Clubs, 5),
        c(Suit::Spades, 3),
    ];
    let mut g = GameStateBullying::new_game_from_stock(players(&["a", "b"]), stock, 1).unwrap();
    g.next_state(&vec![BullyingAction::DrawCard, BullyingAction::Wait]).unwrap();
    assert_eq!(g.current_turn, 0);
    assert_eq!(
        g.available_actions(0),
        vec![BullyingAction::PlayCard(c(Suit::Diamonds, 4)), BullyingAction::Wait]
    );
    let hands = g.cards_of_players.clone();
    let stock = g.cards_in_stock.clone();
    // A batch of waits is accepted and changes nothing on the board.
    g.next_state(&vec![BullyingAction::Wait, BullyingAction::Wait]).unwrap();
    assert_eq!(g.cards_of_players, hands);
    assert_eq!(g.cards_in_stock, stock);
    assert_eq!(g.current_turn, 0);
    assert_eq!(g.draw_stack, 0);
}

#[test]
fn reflect_card_turns_direction() {
    let stock = vec![
        c(Suit::Hearts, 4),
        c(Suit::Diamonds, 13),
        c(Suit::Clubs, 6),
        c(Suit::Clubs, 5),
        c(Suit::Spades, 11),
    ];
    let mut g = GameStateBullying::new_game_from_stock(players(&["a", "b", "c"]), stock, 1).unwrap();
    assert!(g.going_clock_wise);
    g.next_state(&vec![
        BullyingAction::PlayCard(c(Suit::Spades, 11)),
        BullyingAction::Wait,
        BullyingAction::Wait,
    ])
    .unwrap();
    assert!(!g.going_clock_wise);
    assert_eq!(g.current_turn, 2);
    assert_eq!(g.cards_played.last(), Some(&c(Suit::Spades, 11)));
    assert!(g.game_over());
    assert!(g.get_player_states()[1].game_over);
    assert_eq!(g.available_actions(2), vec![BullyingAction::Wait]);
}

#[test]
fn empty_stock_is_refilled_from_the_pile() {
    let stock = vec![c(Suit::Clubs, 5), c(Suit::Clubs, 7), c(Suit::Clubs, 9)];
    let mut g = GameStateBullying::new_game_from_stock(players(&["a", "b"]), stock, 1).unwrap();
    assert!(g.cards_in_stock.is_empty());
    g.cards_played.insert(0, c(Suit::Hearts, 1));
    let drawn = g.draw_card();
    assert_eq!(drawn, Some(c(Suit::Hearts, 1)));
    assert_eq!(g.cards_played, vec![c(Suit::Clubs, 5)]);
    assert_eq!(g.draw_card(), None);
}

#[test]
fn bad_setups_are_refused() {
    let one = GameStateBullying::new_game(players(&["a"]), 1, 0, 5);
    assert!(matches!(one, Err(EngineError::InvalidSetup)));
    let no_deck = GameStateBullying::new_game(players(&["a", "b"]), 0, 0, 5);
    assert!(matches!(no_deck, Err(EngineError::InvalidSetup)));
    let no_cards = GameStateBullying::new_game(players(&["a", "b"]), 1, 0, 0);
    assert!(matches!(no_cards, Err(EngineError::InvalidSetup)));
    let too_many = GameStateBullying::new_game(players(&["a", "b"]), 1, 0, 28);
    assert!(matches!(too_many, Err(EngineError::InvalidSetup)));
    let just_enough = GameStateBullying::new_game(players(&["a", "b"]), 1, 1, 28).unwrap();
    assert_eq!(just_enough.cards_in_stock.len(), 0);
    assert_eq!(just_enough.cards_played.len(), 1);
}

#[test]
fn shuffled_game_keeps_every_card() {
    let g = GameStateBullying::new_game(players(&["a", "b", "c"]), 2, 2, 5).unwrap();
    let mut all: Vec<String> = g.cards_in_stock.iter().map(|c| format!("{:?}", c)).collect();
    all.extend(g.cards_played.iter().map(|c| format!("{:?}", c)));
    for h in &g.cards_of_players {
        all.extend(h.iter().map(|c| format!("{:?}", c)));
    }
    let mut expected: Vec<String> = Card::n_full_stocks(2, 2).iter().map(|c| format!("{:?}", c)).collect();
    all.sort();
    expected.sort();
    assert_eq!(all, expected);
}

#[test]
fn projection_is_stable_and_hides_other_hands() {
    let g = GameStateBullying::new_game_from_stock(players(&["a", "b", "c"]), chain_stock(), 2).unwrap();
    let v1 = g.get_player_states();
    let v2 = g.get_player_states();
    assert_eq!(v1, v2);
    assert_eq!(v1[1].cards, vec![c(Suit::Spades, 2), c(Suit::Diamonds, 9)]);
    assert_eq!(v1[1].card_amount_of_players, vec![2, 2, 2]);
    assert_eq!(v1[1].last_played_card, Some(c(Suit::Hearts, 7)));
    assert_eq!(v1[1].available_moves, vec![BullyingAction::Wait]);
    assert_eq!(
        v1[0].available_moves,
        vec![BullyingAction::PlayCard(c(Suit::Hearts, 2)), BullyingAction::Wait]
    );
    assert!(!v1[1].cards.contains(&c(Suit::Hearts, 2)));
    assert_eq!(v1[2].players[1].id, "b");
}
