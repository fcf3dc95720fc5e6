use std::collections::HashMap;

use rust_bot::basics::action::PerformAction;
use rust_bot::basics::card::{Card, CardStatus, Identity};
use rust_bot::basics::endgame::{advance_state, find_must_plays, remove_remaining, RemainingEntry};
use rust_bot::basics::state::State;
use rust_bot::basics::variant::{Variant, VariantOpts};

fn no_variant() -> Variant {
    Variant::new(0, "No Variant", &["Red", "Yellow", "Green", "Blue", "Purple"], &["r", "y", "g", "b", "p"], VariantOpts::default())
}

/// Two players, Alice holding orders 0..3 (slot 1 first) and Bob orders 3..6, with the
/// deck showing the given identities.
fn state_with(ids: &[Option<(usize, usize)>]) -> State {
    let mut state = State::new(vec!["Alice".to_string(), "Bob".to_string()], 0, no_variant());
    for (order, id) in ids.iter().enumerate() {
        let base = id.map(|(suit_index, rank)| Identity { suit_index, rank });
        state.deck.push(Card::new(base, order, 0));
    }
    state.hands[0] = vec![0, 1, 2];
    state.hands[1] = vec![3, 4, 5];
    state.card_order = ids.len();
    state.cards_left = 50 - ids.len();
    state.turn_count = 1;
    state
}

#[test]
fn it_removes_one_copy() {
    let r1 = Identity { suit_index: 0, rank: 1 };
    let r5 = Identity { suit_index: 0, rank: 5 };
    let mut remaining = HashMap::new();
    remaining.insert(r1.to_ord(), RemainingEntry { missing: 2, all: false });
    remaining.insert(r5.to_ord(), RemainingEntry { missing: 1, all: true });

    let fewer = remove_remaining(&remaining, r1);
    assert_eq!(fewer[&r1.to_ord()].missing, 1);
    assert!(!fewer[&r1.to_ord()].all);

    let gone = remove_remaining(&remaining, r5);
    assert!(!gone.contains_key(&r5.to_ord()));
    assert_eq!(gone.len(), 1);
}

#[test]
fn a_playable_card_lands_and_the_next_card_is_drawn() {
    let state = state_with(&[Some((0, 1)), None, None, Some((1, 1)), Some((1, 3)), None]);
    let next = advance_state(state, &PerformAction::Play { target: 0 }, 0, None);
    assert_eq!(next.play_stacks, vec![1, 0, 0, 0, 0]);
    assert_eq!(next.strikes, 0);
    assert_eq!(next.turn_count, 2);
    assert_eq!(next.hands[0], vec![6, 1, 2]);
    assert_eq!(next.deck.len(), 7);
    assert_eq!(next.deck[6].base, None);
    assert_eq!(next.deck[6].order, 6);
    assert_eq!(next.card_order, 7);
    assert_eq!(next.cards_left, 43);
}

#[test]
fn a_misplay_strikes_and_discards() {
    let state = state_with(&[Some((0, 2)), None, None, None, None, None]);
    let tokens = state.clue_tokens;
    let next = advance_state(state, &PerformAction::Play { target: 0 }, 0, Some(Card::new(Some(Identity { suit_index: 2, rank: 2 }), 6, 1)));
    assert_eq!(next.play_stacks, vec![0, 0, 0, 0, 0]);
    assert_eq!(next.strikes, 1);
    assert_eq!(next.discard_stacks[0][1], 1);
    assert_eq!(next.clue_tokens, tokens);
    assert_eq!(next.deck[6].base, Some(Identity { suit_index: 2, rank: 2 }));
}

#[test]
fn a_discard_regains_a_token_up_to_eight() {
    let mut state = state_with(&[None, None, None, Some((3, 4)), None, None]);
    state.clue_tokens = 7;
    let next = advance_state(state, &PerformAction::Discard { target: 3 }, 1, None);
    assert_eq!(next.clue_tokens, 8);
    assert_eq!(next.discard_stacks[3][3], 1);
    assert_eq!(next.hands[1], vec![6, 4, 5]);
    let again = advance_state(next, &PerformAction::Discard { target: 4 }, 1, None);
    assert_eq!(again.clue_tokens, 8);
}

#[test]
fn a_clue_spends_a_token_and_a_turn_of_the_endgame() {
    let mut state = state_with(&[None, None, None, None, None, None]);
    state.endgame_turns = Some(2);
    let hands = state.hands.clone();
    let next = advance_state(state, &PerformAction::Rank { target: 1, value: 3 }, 0, None);
    assert_eq!(next.clue_tokens, 7);
    assert_eq!(next.endgame_turns, Some(1));
    assert_eq!(next.hands, hands);
}

#[test]
fn the_last_card_starts_the_endgame() {
    let mut state = state_with(&[None, None, None, None, None, None]);
    state.cards_left = 1;
    let next = advance_state(state, &PerformAction::Discard { target: 1 }, 0, None);
    assert_eq!(next.cards_left, 0);
    assert_eq!(next.endgame_turns, Some(2));
}

#[test]
fn it_finds_the_cards_that_must_be_played() {
    // Bob holds the only r5 and one of three y1s; Alice's r5 duplicate is not there.
    let state = state_with(&[None, None, None, Some((0, 5)), Some((1, 1)), Some((2, 4))]);
    let hand = state.hands[1].clone();
    let must = find_must_plays(&state, &hand);
    assert_eq!(must, vec![Identity { suit_index: 0, rank: 5 }]);
    let mut discarded = state_with(&[None, None, None, Some((0, 5)), Some((1, 1)), Some((2, 4))]);
    discarded.discard_stacks[2][3] = 1;
    let must = find_must_plays(&discarded, &hand);
    assert_eq!(must, vec![Identity { suit_index: 0, rank: 5 }, Identity { suit_index: 2, rank: 4 }]);
    assert_eq!(CardStatus::CalledToPlay.fmt(), "called to play");
}
