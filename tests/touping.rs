use shared_lib::data_structures::touping::{
    is_dirty_wash, Action, Card, HitCard, Phase, ServerState, Suit,
};
use shared_lib::data_structures::EngineError;

fn c(suit: Suit, value: u8) -> Card {
    Card::new(suit, value)
}

fn names(n: usize) -> Vec<String> {
    (0..n).map(|i| format!("p{}", i)).collect()
}

/// A game of `n` players whose first round is dealt from the ordered deck:
/// player 0 holds spades 8 to 5, player 1 spades 4 to 1, player 2 hearts 8 to 5.
fn dealt(n: usize) -> ServerState {
    let mut s = ServerState::new(names(n)).unwrap();
    s.next_state_with_deck(vec![Action::Wait; n], Card::full_stock()).unwrap();
    s
}

/// As `dealt`, with the dirty-wash window closed by everyone waiting.
fn playing(n: usize) -> ServerState {
    let mut s = dealt(n);
    s.next_state_with_deck(vec![Action::Wait; n], Card::full_stock()).unwrap();
    s
}

#[test]
fn dirty_wash_judgement() {
    let hand = |vs: &[u8]| -> Vec<Card> { vs.iter().map(|v| c(Suit::Hearts, *v)).collect() };
    assert!(is_dirty_wash(&hand(&[1, 2, 3, 4, 5])));
    assert!(!is_dirty_wash(&hand(&[1, 2, 3, 4, 5, 5])));
    assert!(!is_dirty_wash(&hand(&[1, 2, 3, 4, 6])));
    assert!(is_dirty_wash(&[]));
}

#[test]
fn touping_deck_has_thirty_two_cards() {
    let d = Card::full_stock();
    assert_eq!(d.len(), 32);
    assert_eq!(d[0], c(Suit::Clubs, 1));
    assert_eq!(d[7], c(Suit::Clubs, 8));
    assert_eq!(d[31], c(Suit::Spades, 8));
    let mut shuffled: Vec<String> = Card::full_stock_shuffled().iter().map(|c| format!("{:?}", c)).collect();
    let mut ordered: Vec<String> = d.iter().map(|c| format!("{:?}", c)).collect();
    shuffled.sort();
    ordered.sort();
    assert_eq!(shuffled, ordered);
}

#[test]
fn touping_setup_needs_two_to_eight_players() {
    assert!(matches!(ServerState::new(names(1)), Err(EngineError::InvalidSetup)));
    assert!(matches!(ServerState::new(names(9)), Err(EngineError::InvalidSetup)));
    let s = ServerState::new(names(8)).unwrap();
    assert_eq!(s.round_last_raising_player, None);
    assert!(s.hit_cards_played.is_empty());
    assert!(s.round_cards_played.is_empty());
    assert_eq!(s.round_phase, Phase::Idle);
    assert_eq!(s.legal_actions(3), vec![Action::NotResponded, Action::Wait]);
    assert_eq!(s.round_stock_cards.len(), 32);
}

#[test]
fn first_batch_deals_a_round() {
    let s = dealt(3);
    assert_eq!(s.round_phase, Phase::DirtyWashWindow);
    assert_eq!(s.round_players, vec![0, 1, 2]);
    assert_eq!(
        s.round_player_cards[0],
        vec![c(Suit::Spades, 8), c(Suit::Spades, 7), c(Suit::Spades, 6), c(Suit::Spades, 5)]
    );
    assert_eq!(s.round_player_cards[2][0], c(Suit::Hearts, 8));
    assert_eq!(s.round_stock_cards.len(), 20);
    assert_eq!(s.round_current_turn, 0);
    assert_eq!(s.round_bet, 1);
    assert_eq!(s.round_action_history.len(), 1);
    assert_eq!(
        s.available_actions[1],
        vec![Action::NotResponded, Action::CallDirtyWash, Action::Wait]
    );
}

#[test]
fn touping_rejects_bad_batches() {
    let mut s = dealt(3);
    let r = s.next_state_with_deck(vec![Action::Wait; 2], Card::full_stock());
    assert_eq!(r, Err(EngineError::ActionCountMismatch));
    let r = s.next_state_with_deck(
        vec![Action::Wait, Action::RaiseBet, Action::Wait],
        Card::full_stock(),
    );
    assert_eq!(r, Err(EngineError::IllegalAction(1)));
    assert_eq!(s.round_phase, Phase::DirtyWashWindow);
    assert_eq!(s.round_action_history.len(), 1);
}

#[test]
fn bet_cycle_closure() {
    let mut s = playing(3);
    assert_eq!(s.round_phase, Phase::TrickPlay);
    assert!(s.legal_actions(0).contains(&Action::RaiseBet));
    s.next_state_with_deck(vec![Action::RaiseBet, Action::Wait, Action::Wait], Card::full_stock())
        .unwrap();
    assert_eq!(s.round_phase, Phase::Betting);
    assert_eq!(s.round_bet, 2);
    assert_eq!(s.round_bet_current_turn, Some(1));
    assert_eq!(s.legal_actions(1), vec![Action::NotResponded, Action::AcceptBet, Action::Retreat]);
    assert_eq!(s.legal_actions(0), vec![Action::NotResponded, Action::Wait]);
    s.next_state_with_deck(vec![Action::Wait, Action::AcceptBet, Action::Wait], Card::full_stock())
        .unwrap();
    assert_eq!(s.round_bet_current_turn, Some(2));
    s.next_state_with_deck(vec![Action::Wait, Action::Wait, Action::AcceptBet], Card::full_stock())
        .unwrap();
    assert_eq!(s.round_bet_current_turn, None);
    assert_eq!(s.round_phase, Phase::TrickPlay);
    let turn = s.legal_actions(0);
    assert_eq!(turn[0], Action::NotResponded);
    assert!(turn.contains(&Action::PlayCard(c(Suit::Spades, 8))));
    assert!(!turn.contains(&Action::RaiseBet));
    assert!(s.legal_actions(1).contains(&Action::RaiseBet));
    assert!(s.legal_actions(2).contains(&Action::RaiseBet));
}

#[test]
fn retreat_banks_the_bet_and_leaves_the_round() {
    let mut s = playing(3);
    s.next_state_with_deck(
        vec![Action::NotResponded, Action::Wait, Action::RaiseBet],
        Card::full_stock(),
    )
    .unwrap();
    assert_eq!(s.round_bet_current_turn, Some(0));
    s.next_state_with_deck(vec![Action::Retreat, Action::Wait, Action::Wait], Card::full_stock())
        .unwrap();
    assert_eq!(s.player_points, vec![2, 0, 0]);
    assert_eq!(s.round_players, vec![1, 2]);
    assert_eq!(s.round_current_turn, 1);
    assert_eq!(s.round_bet_current_turn, Some(1));
    assert_eq!(s.legal_actions(0), vec![Action::NotResponded, Action::Wait]);
}

#[test]
fn last_retreat_starts_a_new_round() {
    let mut s = playing(2);
    s.next_state_with_deck(vec![Action::RaiseBet, Action::Wait], Card::full_stock()).unwrap();
    s.next_state_with_deck(vec![Action::Wait, Action::Retreat], Card::full_stock()).unwrap();
    assert_eq!(s.player_points, vec![0, 2]);
    assert_eq!(s.round_players, vec![0, 1]);
    assert_eq!(s.round_phase, Phase::DirtyWashWindow);
    assert_eq!(s.round_bet, 1);
}

#[test]
fn cards_follow_the_led_suit_and_tricks_go_to_the_winner() {
    let mut s = playing(3);
    s.next_state_with_deck(
        vec![Action::PlayCard(c(Suit::Spades, 6)), Action::Wait, Action::Wait],
        Card::full_stock(),
    )
    .unwrap();
    assert_eq!(s.round_current_turn, 1);
    let second = s.legal_actions(1);
    assert_eq!(second.len(), 6);
    s.next_state_with_deck(
        vec![Action::Wait, Action::PlayCard(c(Suit::Spades, 4)), Action::Wait],
        Card::full_stock(),
    )
    .unwrap();
    assert_eq!(s.round_current_turn, 2);
    let third = s.legal_actions(2);
    assert_eq!(third.len(), 6);
    s.next_state_with_deck(
        vec![Action::Wait, Action::Wait, Action::PlayCard(c(Suit::Hearts, 8))],
        Card::full_stock(),
    )
    .unwrap();
    assert!(s.hit_cards_played.is_empty());
    assert_eq!(s.round_cards_played.len(), 3);
    assert_eq!(s.round_current_turn, 0);
    assert_eq!(s.player_points, vec![0, 0, 0]);
}

#[test]
fn off_suit_trick_falls_back_to_the_highest_card() {
    // Player 0 gets spades 8 to 5, player 1 hearts 8 to 5, player 2 diamonds 8 to 5.
    let mut deck: Vec<Card> = (1..=8).map(|v| c(Suit::Clubs, v)).collect();
    deck.extend((1..=4).map(|v| c(Suit::Spades, v)));
    deck.extend((1..=4).map(|v| c(Suit::Hearts, v)));
    deck.extend((1..=8).map(|v| c(Suit::Diamonds, v)));
    deck.extend((5..=8).map(|v| c(Suit::Hearts, v)));
    deck.extend((5..=8).map(|v| c(Suit::Spades, v)));
    let mut s = ServerState::new(names(3)).unwrap();
    s.next_state_with_deck(vec![Action::Wait; 3], deck.clone()).unwrap();
    s.next_state_with_deck(vec![Action::Wait; 3], deck.clone()).unwrap();
    assert_eq!(s.round_player_cards[2][0], c(Suit::Diamonds, 8));
    s.next_state_with_deck(
        vec![Action::PlayCard(c(Suit::Spades, 6)), Action::Wait, Action::Wait],
        deck.clone(),
    )
    .unwrap();
    s.next_state_with_deck(vec![Action::Wait, Action::RaiseBet, Action::Wait], deck.clone()).unwrap();
    s.next_state_with_deck(vec![Action::Wait, Action::Wait, Action::AcceptBet], deck.clone()).unwrap();
    s.next_state_with_deck(vec![Action::Retreat, Action::Wait, Action::Wait], deck.clone()).unwrap();
    assert_eq!(s.round_players, vec![1, 2]);
    assert_eq!(s.player_points, vec![2, 0, 0]);
    assert_eq!(s.round_phase, Phase::TrickPlay);
    assert_eq!(s.round_current_turn, 1);
    assert_eq!(s.legal_actions(1).len(), 5);
    s.next_state_with_deck(
        vec![Action::Wait, Action::PlayCard(c(Suit::Hearts, 5)), Action::Wait],
        deck.clone(),
    )
    .unwrap();
    s.next_state_with_deck(
        vec![Action::Wait, Action::Wait, Action::PlayCard(c(Suit::Diamonds, 8))],
        deck.clone(),
    )
    .unwrap();
    assert!(s.hit_cards_played.is_empty());
    assert_eq!(s.round_current_turn, 2);
}

#[test]
fn last_trick_pays_out_and_deals_again() {
    let mut s = playing(2);
    let deck = Card::full_stock;
    for k in 0..4 {
        let lead = c(Suit::Spades, 8 - k);
        let follow = c(Suit::Spades, 4 - k);
        s.next_state_with_deck(vec![Action::PlayCard(lead), Action::Wait], deck()).unwrap();
        s.next_state_with_deck(vec![Action::Wait, Action::PlayCard(follow)], deck()).unwrap();
    }
    assert_eq!(s.player_points, vec![0, 1]);
    assert_eq!(s.round_phase, Phase::DirtyWashWindow);
    assert_eq!(s.round_player_cards[0].len(), 4);
    assert_eq!(s.round_action_history.len(), 10);
}

#[test]
fn challenged_clean_hand_is_opened_and_challenger_scores() {
    let mut s = dealt(3);
    s.next_state_with_deck(vec![Action::CallDirtyWash, Action::Wait, Action::Wait], Card::full_stock())
        .unwrap();
    assert_eq!(s.round_phase, Phase::DirtyWashCalled(0));
    assert_eq!(
        s.legal_actions(1),
        vec![
            Action::NotResponded,
            Action::ChallengeDirtyWash(0),
            Action::AllowDirtyWash(0),
            Action::Wait
        ]
    );
    assert_eq!(s.legal_actions(0), vec![Action::NotResponded, Action::Wait]);
    s.next_state_with_deck(
        vec![Action::Wait, Action::ChallengeDirtyWash(0), Action::Wait],
        Card::full_stock(),
    )
    .unwrap();
    assert_eq!(s.player_points, vec![0, 1, 0]);
    assert_eq!(s.round_show_open_cards, vec![0]);
    assert_eq!(s.round_phase, Phase::DirtyWashWindow);
}

#[test]
fn challenged_dirty_wash_is_replaced() {
    let mut s = dealt(3);
    s.next_state_with_deck(vec![Action::Wait, Action::CallDirtyWash, Action::Wait], Card::full_stock())
        .unwrap();
    s.next_state_with_deck(
        vec![Action::ChallengeDirtyWash(1), Action::Wait, Action::Wait],
        Card::full_stock(),
    )
    .unwrap();
    assert_eq!(s.player_points, vec![0, 1, 0]);
    assert_eq!(s.round_player_cards[1].len(), 4);
    assert_eq!(s.round_player_cards[1][0], c(Suit::Hearts, 4));
    assert_eq!(s.round_stock_cards.len(), 16);
    assert_eq!(s.round_cards_played.len(), 4);
}

#[test]
fn allowed_dirty_wash_is_replaced() {
    let mut s = dealt(3);
    s.next_state_with_deck(vec![Action::Wait, Action::Wait, Action::CallDirtyWash], Card::full_stock())
        .unwrap();
    s.next_state_with_deck(
        vec![Action::AllowDirtyWash(2), Action::AllowDirtyWash(2), Action::Wait],
        Card::full_stock(),
    )
    .unwrap();
    assert_eq!(s.player_points, vec![0, 0, 1]);
    assert_eq!(s.round_stock_cards.len(), 16);
}

#[test]
fn turn_stays_with_a_player_of_the_round() {
    let mut s = playing(3);
    s.next_state_with_deck(
        vec![Action::NotResponded, Action::RaiseBet, Action::Wait],
        Card::full_stock(),
    )
    .unwrap();
    s.next_state_with_deck(vec![Action::Wait, Action::Wait, Action::AcceptBet], Card::full_stock())
        .unwrap();
    s.next_state_with_deck(vec![Action::Retreat, Action::Wait, Action::Wait], Card::full_stock())
        .unwrap();
    assert_eq!(s.round_players, vec![1, 2]);
    assert!(s.round_players.contains(&s.round_current_turn));
    assert_eq!(s.round_phase, Phase::TrickPlay);
}

#[test]
fn shuffled_deck_changes_order() {
    let ordered = Card::full_stock();
    let moved = (0..5).any(|_| Card::full_stock_shuffled() != ordered);
    assert!(moved);
}

#[test]
fn poverty_is_one_point_short_of_the_limit() {
    let mut s = ServerState::new(names(3)).unwrap();
    assert!(!s.is_poverty());
    s.player_points[2] = 14;
    assert!(s.is_on_poverty(2));
    assert!(!s.is_on_poverty(0));
    assert_eq!(s.players_on_poverty(), vec![2]);
    assert!(s.is_poverty());
}

#[test]
fn eight_players_are_dealt_the_whole_deck_without_a_dirty_wash_window() {
    let s = dealt(8);
    assert_eq!(s.round_players.len(), 8);
    assert!(s.round_stock_cards.is_empty());
    assert_eq!(s.round_phase, Phase::TrickPlay);
    assert_eq!(s.round_player_cards[7].len(), 4);
}

#[test]
fn a_round_whose_hands_are_played_out_pays_on_the_next_batch() {
    let mut s = playing(2);
    s.round_player_cards[0].clear();
    s.round_player_cards[1].clear();
    s.hit_cards_played.push(HitCard { player: 0, card: c(Suit::Spades, 8) });
    s.next_state_with_deck(vec![Action::NotResponded, Action::NotResponded], Card::full_stock())
        .unwrap();
    assert_eq!(s.player_points, vec![0, 1]);
    assert_eq!(s.round_phase, Phase::DirtyWashWindow);
    assert_eq!(s.round_player_cards[0].len(), 4);
    assert!(s.hit_cards_played.is_empty());
}

#[test]
fn raiser_stays_barred_after_the_next_card() {
    let mut s = playing(3);
    s.next_state_with_deck(vec![Action::RaiseBet, Action::Wait, Action::Wait], Card::full_stock())
        .unwrap();
    s.next_state_with_deck(vec![Action::Wait, Action::AcceptBet, Action::Wait], Card::full_stock())
        .unwrap();
    s.next_state_with_deck(vec![Action::Wait, Action::Wait, Action::AcceptBet], Card::full_stock())
        .unwrap();
    s.next_state_with_deck(
        vec![Action::PlayCard(c(Suit::Spades, 8)), Action::Wait, Action::Wait],
        Card::full_stock(),
    )
    .unwrap();
    assert_eq!(s.round_last_raising_player, Some(0));
    assert!(!s.legal_actions(0).contains(&Action::RaiseBet));
    assert!(s.legal_actions(1).contains(&Action::RaiseBet));
    assert_eq!(s.round_bet, 2);
}
