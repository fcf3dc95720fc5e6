use rust_bot::basics;
use rust_bot::basics::action::{Action, ClueAction, DiscardAction, PerformAction, PlayAction, TurnAction};
use rust_bot::basics::card::{ConvData, CardStatus, Identity};
use rust_bot::basics::clue::{BaseClue, CardClue, ClueKind};
use rust_bot::basics::game::{Convention, Game};
use rust_bot::basics::identity_set::IdentitySet;
use rust_bot::basics::player::WaitingConnection;
use rust_bot::basics::state::State;
use rust_bot::basics::variant::{all_ids, id_touched, Variant, VariantOpts};
use rust_bot::fix::{check_fix, connectable_simple};
use rust_bot::reactor::{ClueInterp, Reactor};

/// A convention that reads nothing into the actions, so that only the common rules act.
struct Plain;

impl Convention for Plain {
    fn interpret_clue(&self, _prev: &Game, _game: &mut Game, _action: &ClueAction) {}
    fn interpret_discard(&self, _prev: &Game, _game: &mut Game, _action: &DiscardAction) {}
    fn interpret_play(&self, _prev: &Game, _game: &mut Game, _action: &PlayAction) {}
    fn take_action(&self, _game: &Game) -> PerformAction {
        PerformAction::Discard { target: 0 }
    }
    fn update_turn(&self, _prev: &Game, _game: &mut Game, _action: &TurnAction) {}
    fn find_all_clues(&self, _game: &Game, _player_index: usize) -> Vec<PerformAction> {
        Vec::new()
    }
    fn find_all_discards(&self, _game: &Game, _player_index: usize) -> Vec<PerformAction> {
        Vec::new()
    }
}

const ALICE: usize = 0;
const BOB: usize = 1;
const CATHY: usize = 2;
const DONALD: usize = 3;

const NAMES: [&str; 5] = ["Alice", "Bob", "Cathy", "Donald", "Emily"];

fn variant(name: &str) -> Variant {
    match name {
        "6 Suits" => Variant::new(0, "6 Suits", &["Red", "Yellow", "Green", "Blue", "Purple", "Teal"], &["r", "y", "g", "b", "p", "t"], VariantOpts::default()),
        _ => Variant::new(0, "No Variant", &["Red", "Yellow", "Green", "Blue", "Purple"], &["r", "y", "g", "b", "p"], VariantOpts::default()),
    }
}

struct Options {
    play_stacks: Option<Vec<usize>>,
    discarded: Vec<&'static str>,
    starting: usize,
    variant: &'static str,
}

impl Default for Options {
    fn default() -> Self {
        Options { play_stacks: None, discarded: Vec::new(), starting: ALICE, variant: "No Variant" }
    }
}

/// A game from Alice's seat with the given hands (slot 1 first; "xx" is unknown).
fn setup(hands: &[&[&str]], options: Options, init: impl Fn(&mut Game)) -> Game {
    let names: Vec<String> = NAMES[..hands.len()].iter().map(|n| n.to_string()).collect();
    let state = State::new(names, 0, variant(options.variant));
    let mut game = Game::new(0, state, false);
    game.catchup = true;

    if let Some(stacks) = &options.play_stacks {
        game.state.play_stacks = stacks.clone();
    }
    let stacks = game.state.play_stacks.clone();
    for player in game.players.iter_mut() {
        player.hypo_stacks = stacks.clone();
    }
    game.common.hypo_stacks = stacks;

    let mut order = 0;
    for (player_index, hand) in hands.iter().enumerate() {
        for &short in hand.iter().rev() {
            let (suit_index, rank) = if short == "xx" {
                (-1, -1)
            } else {
                let id = game.state.expand_short(short);
                (id.suit_index as i32, id.rank as i32)
            };
            assert!(game.handle_checked(&Action::draw(player_index, order, suit_index, rank), &Plain));
            order += 1;
        }
    }

    for short in &options.discarded {
        let id = game.state.expand_short(short);
        game.state.discard_stacks[id.suit_index][id.rank - 1] += 1;
        if game.state.discard_stacks[id.suit_index][id.rank - 1] > game.state.card_count(id) {
            game.state.max_ranks[id.suit_index] = std::cmp::min(game.state.max_ranks[id.suit_index], id.rank - 1);
        }
    }
    game.state.cards_left -= game.state.score() + options.discarded.len();
    game.state.current_player_index = options.starting;

    init(&mut game);
    basics::elim(&mut game, true);
    game
}

/// Marks a card as clued with the given clues, as if they had been given earlier.
fn pre_clue(game: &mut Game, player: usize, slot: usize, clues: &[(ClueKind, usize, usize)]) {
    let order = game.state.hands[player][slot - 1];
    let ids: Vec<Identity> = all_ids(&game.state.variant)
        .into_iter()
        .filter(|id| clues.iter().all(|&(kind, value, _)| id_touched(*id, &game.state.variant, &BaseClue { kind, value })))
        .collect();
    let possibilities = IdentitySet::from_iter(ids);
    game.common.thoughts[order].inferred = possibilities;
    game.common.thoughts[order].possible = possibilities;
    game.state.deck[order].clued = true;
    game.state.deck[order].clues = clues.iter().map(|&(kind, value, giver)| CardClue { kind, value, giver, turn: 0 }).collect();
}

/// A clue, then the turn passing to the next player. Slots are given for clues to Alice,
/// whose cards are unknown.
fn give_clue(game: &mut Game, giver: usize, target: usize, clue: BaseClue, slots: Option<&[usize]>) {
    let list: Vec<usize> = match slots {
        Some(slots) => slots.iter().map(|s| game.state.hands[target][s - 1]).collect(),
        None => game.state.clue_touched(&game.state.hands[target], &clue),
    };
    assert!(!list.is_empty());
    game.catchup = true;
    assert!(game.handle_checked(&Action::clue(giver, target, clue, list), &Plain));
    let next = game.state.next_player_index(giver);
    assert!(game.handle_checked(&Action::turn(game.state.turn_count, next as i32), &Plain));
    game.catchup = false;
}

fn colour(value: usize) -> BaseClue {
    BaseClue { kind: ClueKind::COLOUR, value }
}

fn rank(value: usize) -> BaseClue {
    BaseClue { kind: ClueKind::RANK, value }
}

fn has_possible(game: &Game, who: Option<usize>, target: usize, slot: usize, ids: &[&str]) {
    let order = game.state.hands[target][slot - 1];
    let player = match who {
        Some(p) => &game.players[p],
        None => &game.common,
    };
    let thought = &player.thoughts[order];
    assert!(
        thought.possible.len() == ids.len() && ids.iter().all(|&i| thought.possible.contains(game.state.expand_short(i))),
        "Differing possibilities. Expected {}, got {}",
        ids.join(","),
        player.str_poss(&game.state, order)
    );
}

fn has_inferences(game: &Game, who: Option<usize>, target: usize, slot: usize, ids: &[&str]) {
    let order = game.state.hands[target][slot - 1];
    let player = match who {
        Some(p) => &game.players[p],
        None => &game.common,
    };
    let thought = &player.thoughts[order];
    assert!(
        thought.inferred.len() == ids.len() && ids.iter().all(|&i| thought.inferred.contains(game.state.expand_short(i))),
        "Differing inferences. Expected {}, got {}",
        ids.join(","),
        player.str_infs(&game.state, order)
    );
}

#[test]
fn it_elims_from_count() {
    let mut game = setup(&[
        &["xx", "xx", "xx", "xx", "xx"],
        &["r1", "r1", "r1", "r2", "r2"],
    ], Options { starting: BOB, ..Options::default() }, |_| {});

    give_clue(&mut game, BOB, ALICE, colour(0), Some(&[5]));

    has_possible(&game, Some(ALICE), ALICE, 5, &["r3", "r4", "r5"]);
}

#[test]
fn it_visibly_elims_5s() {
    let mut game = setup(&[
        &["xx", "xx", "xx", "xx"],
        &["g2", "b1", "r1", "g5"],
        &["g3", "p1", "b3", "b5"],
        &["r3", "b2", "r1", "y5"],
    ], Options { starting: DONALD, play_stacks: Some(vec![5, 0, 0, 0, 0, 0]), variant: "6 Suits", ..Options::default() }, |_| {});

    give_clue(&mut game, DONALD, ALICE, colour(2), Some(&[1]));
    give_clue(&mut game, ALICE, BOB, rank(5), None);
    give_clue(&mut game, BOB, CATHY, rank(5), None);
    give_clue(&mut game, CATHY, DONALD, rank(5), None);
    give_clue(&mut game, DONALD, ALICE, rank(5), Some(&[3, 4]));

    has_possible(&game, None, ALICE, 3, &["p5", "t5"]);
    has_possible(&game, None, ALICE, 4, &["p5", "t5"]);
    has_possible(&game, None, BOB, 4, &["g5"]);
    has_possible(&game, None, CATHY, 4, &["b5"]);
    has_possible(&game, None, DONALD, 4, &["y5"]);
}

#[test]
fn it_visibly_elims_mixed_cards() {
    let game = setup(&[
        &["xx", "xx", "xx", "xx", "xx"],
        &["g2", "b1", "r4", "r5", "y3"],
        &["y5", "p1", "b3", "b5", "g3"],
    ], Options {
        starting: DONALD,
        play_stacks: Some(vec![3, 0, 0, 0, 0]),
        discarded: vec!["r1", "r1", "r2", "r3"],
        ..Options::default()
    }, |game| {
        // Alice's slot 5 is clued red.
        pre_clue(game, ALICE, 5, &[(ClueKind::COLOUR, 0, CATHY)]);
        // Bob's slots 3 and 4 are clued red.
        pre_clue(game, BOB, 3, &[(ClueKind::COLOUR, 0, CATHY)]);
        pre_clue(game, BOB, 4, &[(ClueKind::COLOUR, 0, CATHY)]);
    });

    // Everyone knows that Alice's card is known r4.
    has_possible(&game, None, ALICE, 5, &["r4"]);

    // Bob's cards could be r4 or r5.
    has_possible(&game, None, BOB, 3, &["r4", "r5"]);
    has_possible(&game, None, BOB, 4, &["r4", "r5"]);
}

#[test]
fn it_doesnt_elim_when_giver_holds_dupes() {
    let mut game = setup(&[
        &["xx", "xx", "xx", "xx"],
        &["g5", "b1", "g2", "r2"],
        &["r3", "y5", "r1", "r2"],
        &["g3", "p1", "b3", "b5"],
    ], Options { play_stacks: Some(vec![0, 2, 0, 2, 0]), ..Options::default() }, |_| {});

    give_clue(&mut game, ALICE, BOB, rank(2), None);
    give_clue(&mut game, BOB, CATHY, rank(2), None);

    // Bob's cards could be r2, g2 or p2.
    has_inferences(&game, None, BOB, 3, &["r2", "g2", "p2"]);
    has_inferences(&game, None, BOB, 4, &["r2", "g2", "p2"]);

    // Cathy's card could be r2, g2 or p2.
    has_inferences(&game, None, CATHY, 4, &["r2", "g2", "p2"]);
}

#[test]
fn drawing_puts_the_card_in_slot_one() {
    let game = setup(&[
        &["xx", "xx", "xx", "xx", "xx"],
        &["r1", "y2", "g3", "b4", "p5"],
    ], Options::default(), |_| {});

    // Bob's hand was drawn from slot 5 to slot 1, so slot 1 is the last card drawn.
    assert_eq!(game.state.hands[BOB], vec![9, 8, 7, 6, 5]);
    assert_eq!(game.state.deck[9].base, Some(Identity { suit_index: 0, rank: 1 }));
    assert_eq!(game.state.cards_left, 50 - 10);
    assert_eq!(game.state.card_order, 10);
    // Alice does not see her own cards; Bob sees them.
    assert_eq!(game.state.deck[0].base, None);
}

#[test]
fn a_clue_touches_and_narrows() {
    let mut game = setup(&[
        &["xx", "xx", "xx", "xx", "xx"],
        &["r1", "y2", "g3", "r4", "p5"],
    ], Options::default(), |_| {});

    give_clue(&mut game, ALICE, BOB, colour(0), None);
    // Red touches Bob's slots 1 and 4.
    let touched: Vec<usize> = game.state.hands[BOB].iter().copied().filter(|&o| game.state.deck[o].clued).collect();
    assert_eq!(touched, vec![game.state.hands[BOB][0], game.state.hands[BOB][3]]);
    assert_eq!(game.state.clue_tokens, 7);
    // The untouched cards are known not to be red.
    let untouched = game.state.hands[BOB][1];
    assert!(!game.common.thoughts[untouched].possible.contains(Identity { suit_index: 0, rank: 2 }));
    // The touched cards are red.
    has_possible(&game, None, BOB, 1, &["r1", "r2", "r3", "r4", "r5"]);
}

#[test]
fn checking_a_fix_finds_no_reset_for_a_fresh_clue() {
    let mut game = setup(&[
        &["xx", "xx", "xx", "xx", "xx"],
        &["r1", "y2", "g3", "r4", "p5"],
    ], Options::default(), |_| {});
    let prev = game.clone();
    let list = game.state.clue_touched(&game.state.hands[BOB], &colour(0));
    let action = ClueAction { giver: ALICE, target: BOB, clue: colour(0), list: list.clone() };
    give_clue(&mut game, ALICE, BOB, colour(0), None);
    let (resets, dupes) = check_fix(&prev, &game, &action);
    assert!(resets.is_empty());
    assert!(dupes.is_empty());
}

#[test]
fn connectable_when_the_identity_is_playable() {
    let game = setup(&[
        &["xx", "xx", "xx", "xx", "xx"],
        &["r1", "y2", "g3", "r4", "p5"],
    ], Options::default(), |_| {});
    assert!(connectable_simple(&game, ALICE, BOB, Some(Identity { suit_index: 0, rank: 1 })));
    // Nobody knows of a playable card, and r2 is not playable.
    assert!(!connectable_simple(&game, ALICE, BOB, Some(Identity { suit_index: 0, rank: 2 })));
}

#[test]
fn simulating_a_clue_leaves_the_game_alone() {
    let game = setup(&[
        &["xx", "xx", "xx", "xx", "xx"],
        &["r1", "y2", "g3", "r4", "p5"],
    ], Options::default(), |_| {});
    let list = game.state.clue_touched(&game.state.hands[BOB], &rank(1));
    let action = ClueAction { giver: ALICE, target: BOB, clue: rank(1), list };
    let hypo = game.clone().simulate_clue(&action, &Plain);
    assert_eq!(game.state.clue_tokens, 8);
    assert_eq!(hypo.state.clue_tokens, 7);
    assert!(!hypo.catchup);
    assert_eq!(hypo.state.turn_count, game.state.turn_count + 1);
}

#[test]
fn notes_are_queued_while_live() {
    let mut game = setup(&[
        &["xx", "xx", "xx", "xx", "xx"],
        &["r1", "y2", "g3", "r4", "p5"],
    ], Options::default(), |_| {});
    game.in_progress = true;
    game.table_id = 42;
    let list = game.state.clue_touched(&game.state.hands[BOB], &colour(0));
    assert!(game.handle_checked(&Action::clue(ALICE, BOB, colour(0), list), &Plain));
    game.catchup = false;
    assert!(game.handle_checked(&Action::turn(game.state.turn_count, BOB as i32), &Plain));

    assert_eq!(game.queued_cmds.len(), 2);
    for cmd in &game.queued_cmds {
        assert_eq!(cmd.cmd, "note");
        let v: serde_json::Value = serde_json::from_str(&cmd.arg).unwrap();
        assert_eq!(v["tableID"], 42);
        assert!(v["order"].as_u64().is_some());
        assert!(v["note"].as_str().unwrap().starts_with("t"));
    }
    let order = game.state.hands[BOB][0];
    assert!(game.notes.contains_key(&order));
    assert_eq!(game.notes[&order].turn, game.state.turn_count);
}

#[test]
fn a_play_reaction_clears_playables_from_the_receiver() {
    let game = setup(&[
        &["xx", "xx", "xx", "xx", "xx"],
        &["r1", "y2", "g3", "r4", "p5"],
        &["b1", "y1", "g1", "r2", "p1"],
    ], Options::default(), |_| {});
    let mut common = game.common.clone();
    let mut meta: Vec<ConvData> = game.meta.clone();
    let receiver_hand = game.state.hands[CATHY].clone();
    // Bob reacts; Cathy's slots before slot 3 are narrowed.
    Reactor::elim_play_play(&game.state, &mut common, &mut meta, BOB, &receiver_hand, 1, 3);
    for slot in 1..=2 {
        let order = receiver_hand[slot - 1];
        let inferred = common.thoughts[order].inferred;
        // Bob's answering card could be any 1: every 1 is playable, so no 1 is kept.
        assert!(!inferred.contains(Identity { suit_index: 2, rank: 1 }));
        assert!(inferred.contains(Identity { suit_index: 2, rank: 3 }));
    }
    // The target slot and those after it are untouched.
    let order = receiver_hand[2];
    assert_eq!(common.thoughts[order].inferred, game.common.thoughts[order].inferred);
    assert!(meta.iter().all(|m| !m.trash));
    assert!(meta.iter().all(|m| m.status == CardStatus::NoStatus));
}

#[test]
fn the_answering_slots_go_round_the_hand() {
    assert_eq!(Reactor::calc_slot(1, 1), 5);
    assert_eq!(Reactor::calc_slot(3, 1), 2);
    assert_eq!(Reactor::calc_slot(5, 2), 3);
    let mut seen: Vec<usize> = (1..=5).map(|s| Reactor::calc_slot(2, s)).collect();
    seen.sort();
    assert_eq!(seen, vec![1, 2, 3, 4, 5]);
}

#[test]
fn navigating_replays_up_to_the_turn() {
    let names: Vec<String> = NAMES[..2].iter().map(|n| n.to_string()).collect();
    let mut game = Game::new(0, State::new(names, 0, variant("No Variant")), false);
    game.base = rust_bot::basics::game::GameStart {
        state: game.state.clone(),
        players: game.players.clone(),
        common: game.common.clone(),
    };
    let bob = ["r1", "y2", "g3", "r4", "p5"];
    let mut order = 0;
    for _ in 0..5 {
        assert!(game.handle_checked(&Action::draw(ALICE, order, -1, -1), &Plain));
        order += 1;
    }
    for short in bob.iter().rev() {
        let id = game.state.expand_short(short);
        assert!(game.handle_checked(&Action::draw(BOB, order, id.suit_index as i32, id.rank as i32), &Plain));
        order += 1;
    }
    assert_eq!(game.state.turn_count, 1);
    give_clue(&mut game, ALICE, BOB, colour(0), None);
    let actions = game.state.action_list.len();
    assert_eq!(actions, 12);

    // The first turn of the first player: the opening draws only.
    let opening = game.clone().navigate(1, &Plain);
    assert_eq!(opening.state.action_list.len(), actions);
    assert_eq!(opening.state.hands[BOB].len(), 5);
    assert_eq!(opening.state.clue_tokens, 8);

    // Turn 2: the clue of turn 1 is replayed too.
    let later = game.navigate(2, &Plain);
    assert_eq!(later.state.clue_tokens, 7);
    assert_eq!(later.state.turn_count, 2);
}

#[test]
fn a_clue_keeps_every_true_identity_possible() {
    let mut game = setup(&[
        &["xx", "xx", "xx", "xx", "xx"],
        &["r1", "y2", "g3", "r4", "p5"],
    ], Options::default(), |_| {});
    give_clue(&mut game, ALICE, BOB, colour(0), None);
    give_clue(&mut game, BOB, ALICE, rank(1), Some(&[2]));
    for &order in &game.state.hands[BOB] {
        let id = game.state.deck[order].base.unwrap();
        assert!(game.common.thoughts[order].possible.contains(id));
        assert!(game.players[ALICE].thoughts[order].possible.contains(id));
    }
}

#[test]
fn it_counts_the_copies_still_to_come() {
    let game = setup(&[
        &["xx", "xx", "xx", "xx", "xx"],
        &["r1", "r1", "r1", "r2", "r2"],
    ], Options::default(), |_| {});
    let (remaining, own) = basics::endgame::find_remaining_ids(&game);
    let r1 = Identity { suit_index: 0, rank: 1 };
    let r3 = Identity { suit_index: 0, rank: 3 };
    let b1 = Identity { suit_index: 3, rank: 1 };
    // Alice sees every r1 and r2 in Bob's hand.
    assert!(!remaining.contains_key(&r1.to_ord()));
    assert_eq!(remaining.len(), 23);
    assert_eq!(remaining[&r3.to_ord()].missing, 2);
    assert!(remaining[&r3.to_ord()].all);
    assert_eq!(remaining[&b1.to_ord()].missing, 3);
    // Alice knows none of her own cards.
    assert_eq!(own.len(), 5);
    assert!(own.iter().all(|(_, id)| id.is_none()));
    assert_eq!(own[0].0, game.state.hands[ALICE][0]);
}

#[test]
fn the_expected_discard_is_slot_one_without_known_trash() {
    let game = setup(&[
        &["xx", "xx", "xx", "xx", "xx"],
        &["r1", "y2", "g3", "r4", "p5"],
    ], Options::default(), |_| {});
    let discards = Reactor.find_all_discards(&game, BOB);
    assert_eq!(discards, vec![PerformAction::Discard { target: game.state.hands[BOB][0] }]);
}

#[test]
fn turn_order_goes_round() {
    let game = setup(&[
        &["xx", "xx", "xx", "xx"],
        &["r1", "y2", "g3", "r4"],
        &["b1", "y1", "g1", "r2"],
    ], Options::default(), |_| {});
    for p in 0..3 {
        assert_eq!(game.state.last_player_index(game.state.next_player_index(p)), p);
        assert_eq!(game.state.next_player_index(game.state.last_player_index(p)), p);
    }
    assert_eq!(game.state.next_player_index(2), 0);
    assert_eq!(game.state.last_player_index(0), 2);
}

#[test]
fn a_discard_clue_calls_the_next_unclued_card() {
    let mut game = setup(&[
        &["xx", "xx", "xx", "xx", "xx"],
        &["r1", "y2", "g3", "r4", "p5"],
    ], Options::default(), |_| {});
    let prev = game.clone();
    let bob = game.state.hands[BOB].clone();
    give_clue(&mut game, ALICE, BOB, rank(2), None);
    let action = ClueAction { giver: ALICE, target: BOB, list: vec![bob[1]], clue: rank(2) };
    assert_eq!(Reactor::ref_discard(&prev, &mut game, &action, false), Some(ClueInterp::RefDiscard));
    // Slot 3 comes after the clued slot 2.
    assert_eq!(game.meta[bob[2]].status, CardStatus::CalledToDiscard);
    assert!(game.meta[bob[2]].trash);
    assert_eq!(game.meta[bob[2]].reasoning, vec![game.state.turn_count]);
    assert_eq!(game.meta[bob[3]].status, CardStatus::NoStatus);
}

#[test]
fn a_clue_on_the_lowest_new_card_locks() {
    let mut game = setup(&[
        &["xx", "xx", "xx", "xx", "xx"],
        &["r1", "y2", "g3", "r4", "p5"],
    ], Options::default(), |_| {});
    let prev = game.clone();
    let bob = game.state.hands[BOB].clone();
    give_clue(&mut game, ALICE, BOB, colour(4), None);
    let action = ClueAction { giver: ALICE, target: BOB, list: vec![bob[4]], clue: colour(4) };

    let mut stalled = game.clone();
    assert_eq!(Reactor::ref_discard(&prev, &mut stalled, &action, true), Some(ClueInterp::Stall));
    assert!(stalled.meta.iter().all(|m| m.status == CardStatus::NoStatus));

    assert_eq!(Reactor::ref_discard(&prev, &mut game, &action, false), Some(ClueInterp::Lock));
    for slot in 0..4 {
        assert_eq!(game.meta[bob[slot]].status, CardStatus::ChopMoved);
    }
    assert_eq!(game.meta[bob[4]].status, CardStatus::NoStatus);
}

#[test]
fn the_reactive_focus_is_the_newest_touched_card() {
    let game = setup(&[
        &["xx", "xx", "xx", "xx", "xx"],
        &["r1", "y2", "g3", "r4", "p5"],
    ], Options::default(), |_| {});
    let bob = game.state.hands[BOB].clone();
    let clue = ClueAction { giver: ALICE, target: BOB, list: vec![bob[1], bob[3]], clue: colour(0) };
    assert_eq!(Reactor::reactive_focus(&game.state, BOB, &clue), 2);
    // The card in slot 1 counts least.
    let clue = ClueAction { giver: ALICE, target: BOB, list: vec![bob[0], bob[3]], clue: rank(4) };
    assert_eq!(Reactor::reactive_focus(&game.state, BOB, &clue), 4);
}

#[test]
fn calling_a_card_to_discard_drops_its_critical_inferences() {
    let mut game = setup(&[
        &["xx", "xx", "xx", "xx", "xx"],
        &["r1", "y2", "g3", "r4", "p5"],
    ], Options::default(), |_| {});
    let order = game.state.hands[BOB][2];
    let action = ClueAction { giver: ALICE, target: BOB, list: vec![order], clue: colour(2) };
    Reactor::target_discard(&mut game, &action, order, true);
    let inferred = game.common.thoughts[order].inferred;
    assert!(!inferred.contains(Identity { suit_index: 0, rank: 5 }));
    assert!(inferred.contains(Identity { suit_index: 0, rank: 1 }));
    assert_eq!(game.meta[order].status, CardStatus::CalledToDiscard);
    assert!(game.meta[order].trash && game.meta[order].urgent);
}

#[test]
fn a_known_last_card_wins_the_final_round() {
    let mut game = setup(&[
        &["xx", "xx", "xx", "xx", "xx"],
        &["p5", "r1", "r1", "r1", "r2"],
    ], Options { play_stacks: Some(vec![5, 5, 5, 5, 4]), ..Options::default() }, |_| {});
    let p5 = Identity { suit_index: 4, rank: 5 };
    let order = game.state.hands[BOB][0];
    let known = IdentitySet::empty().with(p5);
    game.players[BOB].thoughts[order].possible = known;
    game.players[BOB].thoughts[order].inferred = known;
    game.state.endgame_turns = Some(2);

    match basics::endgame::trivially_winnable(&game, BOB) {
        Ok((actions, rate)) => {
            assert_eq!(actions, vec![PerformAction::Play { target: order }]);
            assert_eq!((rate.num, rate.den), (1, 1));
        },
        Err(e) => panic!("should be winnable: {e}"),
    }
    // From Alice's turn, Alice has nothing to play and gives up her slot 1 card.
    match basics::endgame::trivially_winnable(&game, ALICE) {
        Ok((actions, _)) => assert_eq!(actions, vec![PerformAction::Discard { target: game.state.hands[ALICE][0] }]),
        Err(e) => panic!("should be winnable: {e}"),
    }
    // With one turn left, Alice's turn is the last.
    game.state.endgame_turns = Some(1);
    assert_eq!(basics::endgame::trivially_winnable(&game, ALICE).err(), Some(""));
    // Before the final round, nothing is trivially won.
    game.state.endgame_turns = None;
    assert!(basics::endgame::trivially_winnable(&game, BOB).is_err());
}

fn reactive_wait(game: &Game, clue: BaseClue) -> WaitingConnection {
    WaitingConnection {
        giver: ALICE,
        reacter: BOB,
        receiver: CATHY,
        receiver_hand: game.state.hands[CATHY].clone(),
        clue,
        focus_slot: 1,
    }
}

#[test]
fn a_discard_reaction_to_a_colour_clue_calls_the_answered_card_to_play() {
    let mut game = setup(&[
        &["xx", "xx", "xx", "xx", "xx"],
        &["r1", "y2", "g3", "r4", "p5"],
        &["b1", "y1", "g1", "r2", "p1"],
    ], Options::default(), |_| {});
    let prev = game.clone();
    let wc = reactive_wait(&game, colour(0));
    let order = game.state.hands[BOB][2];
    Reactor::react_discard(&prev, &mut game, BOB, order, &wc);

    // Bob's slot 3 answers Cathy's slot 3 (counted back from the focus slot 1).
    let target = wc.receiver_hand[2];
    assert_eq!(game.meta[target].status, CardStatus::CalledToPlay);
    assert!(game.meta[target].focused);
    assert_eq!(game.meta[target].reasoning, vec![game.state.turn_count]);
    has_inferences(&game, None, CATHY, 3, &["r1", "y1", "g1", "b1", "p1"]);
    // The slots before it lose their playable identities.
    for slot in 1..=2 {
        let inferred = game.common.thoughts[wc.receiver_hand[slot - 1]].inferred;
        assert_eq!(inferred.len(), 20);
        assert!(!inferred.contains(Identity { suit_index: 0, rank: 1 }));
    }
    // The slots after it are untouched.
    for slot in 4..=5 {
        let order = wc.receiver_hand[slot - 1];
        assert_eq!(game.common.thoughts[order].inferred, prev.common.thoughts[order].inferred);
        assert_eq!(game.meta[order].status, CardStatus::NoStatus);
    }
    // The cards outside Cathy's hand are left alone.
    for player in [ALICE, BOB] {
        for &o in &game.state.hands[player] {
            assert_eq!(game.common.thoughts[o].inferred, prev.common.thoughts[o].inferred);
            assert_eq!(game.meta[o].status, CardStatus::NoStatus);
            assert!(!game.meta[o].trash);
        }
    }
}

#[test]
fn a_play_reaction_to_a_colour_clue_calls_the_answered_card_to_discard() {
    let mut game = setup(&[
        &["xx", "xx", "xx", "xx", "xx"],
        &["r1", "y2", "g3", "r4", "p5"],
        &["b1", "y1", "g1", "r2", "p1"],
    ], Options::default(), |_| {});
    let prev = game.clone();
    let wc = reactive_wait(&game, colour(0));
    let order = game.state.hands[BOB][2];
    Reactor::react_play(&prev, &mut game, BOB, order, &wc);

    let target = wc.receiver_hand[2];
    assert_eq!(game.meta[target].status, CardStatus::CalledToDiscard);
    assert!(!game.meta[target].trash);
    // The target loses only the critical 5s; being called, it keeps its 1s.
    let inferred = game.common.thoughts[target].inferred;
    assert_eq!(inferred.len(), 20);
    assert!(!inferred.contains(Identity { suit_index: 0, rank: 5 }));
    assert!(inferred.contains(Identity { suit_index: 0, rank: 1 }));
    // The rest of the hand is taken as unplayable.
    for slot in [1, 2, 4, 5] {
        let inferred = game.common.thoughts[wc.receiver_hand[slot - 1]].inferred;
        assert_eq!(inferred.len(), 20);
        assert!(!inferred.contains(Identity { suit_index: 4, rank: 1 }));
    }
}

#[test]
fn a_card_of_another_player_is_no_reaction() {
    let mut game = setup(&[
        &["xx", "xx", "xx", "xx", "xx"],
        &["r1", "y2", "g3", "r4", "p5"],
        &["b1", "y1", "g1", "r2", "p1"],
    ], Options::default(), |_| {});
    let prev = game.clone();
    let wc = reactive_wait(&game, rank(1));
    let order = game.state.hands[CATHY][0];
    Reactor::react_play(&prev, &mut game, CATHY, order, &wc);
    for o in 0..game.meta.len() {
        assert_eq!(game.meta[o].status, CardStatus::NoStatus);
        assert_eq!(game.common.thoughts[o].inferred, prev.common.thoughts[o].inferred);
    }
}

/// Plays or discards the reacter's card, then reads it as the reaction to the clue that
/// Alice gave Cathy, focused on the given slot.
fn react(game: &mut Game, clue: BaseClue, focus_slot: usize, slot: usize, play: bool) {
    let order = game.state.hands[BOB][slot - 1];
    let id = game.state.deck[order].base.unwrap();
    let wc = WaitingConnection {
        giver: ALICE,
        reacter: BOB,
        receiver: CATHY,
        receiver_hand: game.state.hands[CATHY].clone(),
        clue,
        focus_slot,
    };
    let prev = game.clone();
    let action = if play {
        Action::play(BOB, order, id.suit_index as i32, id.rank as i32)
    } else {
        Action::discard(BOB, order, id.suit_index as i32, id.rank as i32, false)
    };
    assert!(game.handle_checked(&action, &Plain));
    if play {
        Reactor::react_play(&prev, game, BOB, order, &wc);
    } else {
        Reactor::react_discard(&prev, game, BOB, order, &wc);
    }
}

fn lacks(game: &Game, slot: usize, ids: &[&str]) -> bool {
    let order = game.state.hands[CATHY][slot - 1];
    ids.iter().all(|i| !game.common.thoughts[order].inferred.contains(game.state.expand_short(i)))
}

fn keeps(game: &Game, slot: usize, ids: &[&str]) -> bool {
    let order = game.state.hands[CATHY][slot - 1];
    ids.iter().all(|i| game.common.thoughts[order].inferred.contains(game.state.expand_short(i)))
}

#[test]
fn a_reactive_play_play_narrows_by_what_bob_could_play() {
    let mut game = setup(&[
        &["xx", "xx", "xx", "xx", "xx"],
        &["b1", "g2", "r2", "y3", "g5"],
        &["g3", "b5", "p2", "b1", "g4"],
    ], Options::default(), |game| {
        // Bob's r2 is clued with red, his y3 with 3.
        pre_clue(game, BOB, 3, &[(ClueKind::COLOUR, 0, ALICE)]);
        pre_clue(game, BOB, 4, &[(ClueKind::RANK, 3, ALICE)]);
    });
    // Alice clues 4 to Cathy, touching her g4 in slot 5; Bob plays b1 from slot 1.
    give_clue(&mut game, ALICE, CATHY, rank(4), None);
    react(&mut game, rank(4), 5, 1, true);

    assert_eq!(game.meta[game.state.hands[CATHY][3]].status, CardStatus::CalledToPlay);
    // Bob could not play a known 3, so slot 1 keeps its playables.
    assert!(keeps(&game, 1, &["r1", "y1", "g1", "b1", "p1"]));
    // Bob could play only r1 from his red card, so slot 2 keeps r1 alone.
    assert!(lacks(&game, 2, &["y1", "g1", "b1", "p1"]));
    assert!(keeps(&game, 2, &["r1"]));
    // Bob could play his slot 2, so slot 3 has no playable left.
    assert!(lacks(&game, 3, &["r1", "y1", "g1", "b1", "p1"]));
}

#[test]
fn a_reactive_dc_play_narrows_by_what_bob_could_discard() {
    let mut game = setup(&[
        &["xx", "xx", "xx", "xx", "xx"],
        &["b1", "g2", "r2", "g5", "y3"],
        &["b3", "b5", "p2", "b1", "g4"],
    ], Options { play_stacks: Some(vec![1, 1, 1, 0, 0]), ..Options::default() }, |game| {
        // Bob's r2 is clued with red, his g5 with 5.
        pre_clue(game, BOB, 3, &[(ClueKind::COLOUR, 0, ALICE)]);
        pre_clue(game, BOB, 4, &[(ClueKind::RANK, 5, ALICE)]);
    });
    // Alice clues green to Cathy, touching her g4 in slot 5; Bob discards b1 from slot 1.
    give_clue(&mut game, ALICE, CATHY, colour(2), None);
    react(&mut game, colour(2), 5, 1, false);

    assert_eq!(game.meta[game.state.hands[CATHY][3]].status, CardStatus::CalledToPlay);
    // Bob could not discard a known 5, so slot 1 keeps its playables.
    assert!(keeps(&game, 1, &["r1", "r2", "y1", "b1"]));
    // Bob could discard his other cards, so slots 2 and 3 have no playable left.
    assert!(lacks(&game, 2, &["r2", "y2", "g2", "b1", "p1"]));
    assert!(lacks(&game, 3, &["r2", "y2", "g2", "b1", "p1"]));
}

#[test]
fn an_urgent_card_decides_our_move() {
    let mut game = setup(&[
        &["xx", "xx", "xx", "xx", "xx"],
        &["r1", "y2", "g3", "r4", "p5"],
    ], Options::default(), |_| {});
    assert!(Reactor.urgent_action(&game).is_none());

    let second = game.state.hands[ALICE][1];
    let fourth = game.state.hands[ALICE][3];
    game.meta[fourth].urgent = true;
    game.meta[fourth].status = CardStatus::CalledToDiscard;
    assert!(matches!(Reactor.urgent_action(&game), Some(PerformAction::Discard { target }) if target == fourth));

    // The first urgent card of the hand counts.
    game.meta[second].urgent = true;
    game.meta[second].status = CardStatus::CalledToPlay;
    assert!(matches!(Reactor.urgent_action(&game), Some(PerformAction::Play { target }) if target == second));

    // A card called to play that can only be trash is not played.
    let trash = IdentitySet::from_iter(vec![Identity { suit_index: 0, rank: 1 }]);
    let mut stacks = game.state.play_stacks.clone();
    stacks[0] = 1;
    game.state.play_stacks = stacks;
    game.players[ALICE].thoughts[second].possible = trash;
    assert!(Reactor.urgent_action(&game).is_none());
}

#[test]
fn simulating_a_play_passes_the_turn_and_draws() {
    let mut game = setup(&[
        &["xx", "xx", "xx", "xx", "xx"],
        &["r1", "y2", "g3", "r4", "p5"],
    ], Options::default(), |_| {});
    game.state.current_player_index = BOB;
    let order = game.state.hands[BOB][0];
    let hypo = game.clone().simulate_action(&Action::play(BOB, order, 0, 1), &Plain);
    assert_eq!(hypo.state.turn_count, game.state.turn_count + 1);
    assert!(!hypo.state.hands[BOB].contains(&order));
    assert_eq!(hypo.state.hands[BOB][0], game.state.card_order);
    assert_eq!(hypo.state.cards_left, game.state.cards_left - 1);
    assert_eq!(hypo.state.play_stacks[0], 1);
    assert!(!hypo.catchup);
}

#[test]
fn the_candidates_are_clues_then_plays_then_discards() {
    let mut game = setup(&[
        &["xx", "xx", "xx", "xx", "xx"],
        &["r1", "y2", "g3", "r4", "p5"],
    ], Options::default(), |_| {});
    // With every clue token we may not discard: every clue that touches Bob's hand.
    let all = Reactor.candidate_actions(&game);
    assert_eq!(all.len(), 9);
    let r1 = game.state.hands[BOB][0];
    assert_eq!(all[0].0, PerformAction::Rank { target: BOB, value: 1 });
    assert_eq!(all[0].1, Action::clue(ALICE, BOB, BaseClue { kind: ClueKind::RANK, value: 1 }, vec![r1]));
    assert_eq!(all[5].0, PerformAction::Colour { target: BOB, value: 0 });
    assert!(all.iter().all(|(p, _)| !matches!(p, PerformAction::Play { .. } | PerformAction::Discard { .. })));

    // With no clue token and nothing known, only the chop is left.
    game.state.clue_tokens = 0;
    let chop = game.state.hands[ALICE][0];
    let none = Reactor.candidate_actions(&game);
    assert_eq!(none, vec![(PerformAction::Discard { target: chop }, Action::discard(ALICE, chop, -1, -1, false))]);

    // A card Alice knows to be r1 is a play; without a clue token the chop stays a choice.
    let slot3 = game.state.hands[ALICE][2];
    let r1_id = IdentitySet::empty().with(Identity { suit_index: 0, rank: 1 });
    game.players[ALICE].thoughts[slot3].possible = r1_id;
    game.players[ALICE].thoughts[slot3].inferred = r1_id;
    let play = Reactor.candidate_actions(&game);
    assert_eq!(play, vec![
        (PerformAction::Play { target: slot3 }, Action::play(ALICE, slot3, 0, 1)),
        (PerformAction::Discard { target: chop }, Action::discard(ALICE, chop, -1, -1, false)),
    ]);
    // With a clue token to spend, the play is enough.
    game.state.clue_tokens = 1;
    let with_token = Reactor.candidate_actions(&game);
    assert_eq!(with_token.len(), 10);
    assert_eq!(with_token[9], (PerformAction::Play { target: slot3 }, Action::play(ALICE, slot3, 0, 1)));
}

#[test]
fn the_last_missing_card_is_played_to_win() {
    let mut game = setup(&[
        &["xx", "xx", "xx", "xx", "xx"],
        &["r1", "r1", "r1", "r2", "r2"],
    ], Options { play_stacks: Some(vec![5, 5, 5, 5, 4]), ..Options::default() }, |_| {});
    let mut solver = basics::endgame::EndgameSolver::new(true);
    assert_eq!(solver.solve_game(&game).err(), Some("couldn't find a winning line".to_string()));

    let slot2 = game.state.hands[ALICE][1];
    let p5 = IdentitySet::empty().with(Identity { suit_index: 4, rank: 5 });
    game.players[ALICE].thoughts[slot2].possible = p5;
    game.players[ALICE].thoughts[slot2].inferred = p5;
    match solver.solve_game(&game) {
        Ok((perform, rate)) => {
            assert_eq!(perform, PerformAction::Play { target: slot2 });
            assert_eq!((rate.num, rate.den), (1, 1));
        },
        Err(e) => panic!("should win: {e}"),
    }
    // The Reactor asks the solver only in the endgame.
    assert_eq!(Reactor.endgame_action(&game), None);
    game.state.cards_left = 0;
    assert_eq!(Reactor.endgame_action(&game), Some(PerformAction::Play { target: slot2 }));
}

#[test]
fn an_endgame_missing_too_many_cards_is_given_up() {
    let game = setup(&[
        &["xx", "xx", "xx", "xx", "xx"],
        &["r1", "r1", "r1", "r2", "r2"],
    ], Options::default(), |_| {});
    let mut solver = basics::endgame::EndgameSolver::new(true);
    let e = solver.solve_game(&game).err().unwrap();
    // Every copy of the other suits is missing, with no card of theirs in sight.
    assert!(e.starts_with("couldn't find any "));
    assert!(e.contains("y1,y2,y3,y4,y5,g1,"));
    assert!(e.ends_with(",p5!"));
}

#[test]
fn a_known_playable_touched_card_raises_the_hypothetical_stack() {
    let mut game = setup(&[
        &["xx", "xx", "xx", "xx", "xx"],
        &["r1", "y2", "g3", "r4", "p5"],
    ], Options::default(), |_| {});
    let order = game.state.hands[BOB][0];
    pre_clue(&mut game, BOB, 1, &[(ClueKind::RANK, 1, ALICE)]);
    let r1 = IdentitySet::empty().with(Identity { suit_index: 0, rank: 1 });
    game.common.thoughts[order].possible = r1;
    game.common.thoughts[order].inferred = r1;
    let frame = rust_bot::basics::game::frame::Frame::new(&game.state, &game.meta);

    let mut common = game.common.clone();
    common.update_hypo_stacks(&frame, &[]);
    assert_eq!(common.hypo_stacks[0], 1);
    assert_eq!(common.hypo_plays, vec![order]);

    // Ignored, the card plays nothing in thought.
    let mut ignoring = game.common.clone();
    ignoring.update_hypo_stacks(&frame, &[order]);
    assert!(ignoring.hypo_plays.is_empty());
    assert_eq!(ignoring.hypo_stacks[0], 0);
}

#[test]
fn more_cards_than_their_inferences_form_a_link() {
    let mut game = setup(&[
        &["xx", "xx", "xx", "xx", "xx"],
        &["r1", "y2", "g3", "r4", "p5"],
    ], Options::default(), |_| {});
    let fives = IdentitySet::empty().with(Identity { suit_index: 0, rank: 5 }).with(Identity { suit_index: 1, rank: 5 });
    let orders: Vec<usize> = game.state.hands[ALICE][..3].to_vec();
    for &o in &orders {
        game.common.thoughts[o].possible = fives;
        game.common.thoughts[o].inferred = fives;
    }
    let frame = rust_bot::basics::game::frame::Frame::new(&game.state, &game.meta);
    let mut common = game.common.clone();
    let before = common.links.len();
    common.find_links(&frame, true);
    assert_eq!(common.links.len(), before + 1);
    match &common.links[before] {
        rust_bot::basics::player::Link::Unpromised { orders: linked, ids } => {
            let mut sorted = linked.clone();
            sorted.sort();
            let mut expected = orders.clone();
            expected.sort();
            assert_eq!(sorted, expected);
            assert_eq!(ids.len(), 2);
        },
        _ => panic!("expected an unpromised link"),
    }
}
