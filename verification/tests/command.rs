use rust_bot::basics::action::{Action, ClueAction, DiscardAction, PerformAction, PlayAction, TurnAction};
use rust_bot::basics::card::Identity;
use rust_bot::basics::clue::ClueKind;
use rust_bot::basics::game::{Convention, Game};
use rust_bot::basics::state::State;
use rust_bot::basics::variant::{Variant, VariantOpts};
use rust_bot::command::{chat_replies, has_prefix, nav_turn, player_position, should_act, ChatReply, TableInfo};
use rust_bot::console::NavArg;
use rust_bot::replay::load_replay;

struct Plain;

impl Convention for Plain {
    fn interpret_clue(&self, _prev: &Game, _game: &mut Game, _action: &ClueAction) {}
    fn interpret_discard(&self, _prev: &Game, _game: &mut Game, _action: &DiscardAction) {}
    fn interpret_play(&self, _prev: &Game, _game: &mut Game, _action: &PlayAction) {}
    fn take_action(&self, _game: &Game) -> PerformAction {
        PerformAction::Discard { target: 0 }
    }
    fn update_turn(&self, _prev: &Game, _game: &mut Game, _action: &TurnAction) {}
    fn find_all_clues(&self, _game: &Game, _player_index: usize) -> Vec<PerformAction> {
        Vec::new()
    }
    fn find_all_discards(&self, _game: &Game, _player_index: usize) -> Vec<PerformAction> {
        Vec::new()
    }
}

fn table(id: u32, protected: bool, replay: bool, players: &[&str], spectators: &[&str]) -> TableInfo {
    TableInfo {
        id,
        password_protected: protected,
        shared_replay: replay,
        players: players.iter().map(|s| s.to_string()).collect(),
        spectators: spectators.iter().map(|s| s.to_string()).collect(),
    }
}

fn lobby() -> Vec<TableInfo> {
    vec![
        table(3, false, false, &["Ann", "bot"], &[]),
        table(8, true, false, &["Ann"], &[]),
        table(5, false, true, &["Cy"], &[]),
        table(6, false, false, &["Dee"], &["Cy"]),
    ]
}

fn only(replies: Vec<ChatReply>) -> ChatReply {
    assert_eq!(replies.len(), 1);
    replies.into_iter().next().unwrap()
}

#[test]
fn it_checks_prefixes() {
    assert!(has_prefix("/join pw", "/join"));
    assert!(!has_prefix("/jo", "/join"));
    assert!(has_prefix("anything", ""));
}

#[test]
fn it_answers_in_a_room() {
    let tables = lobby();
    match only(chat_replies("/setall", "Ann", "", "table3", "bot", &tables, false)) {
        ChatReply::TableChat(text) => assert_eq!(text, "Currently playing with Reactor 1.0 conventions."),
        other => panic!("unexpected {other:?}"),
    }
    assert!(matches!(only(chat_replies("/leaveall", "Ann", "", "table3", "bot", &tables, false)), ChatReply::LeaveRoom));
    assert!(chat_replies("hello", "Ann", "", "table3", "bot", &tables, false).is_empty());
    // Messages for someone else are ignored.
    assert!(chat_replies("/version", "Ann", "other", "lobby", "bot", &tables, false).is_empty());
}

#[test]
fn it_joins_the_latest_table() {
    let tables = lobby();
    // Ann plays at tables 3 and 8; 8 is protected.
    match only(chat_replies("/join secret", "Ann", "bot", "lobby", "bot", &tables, false)) {
        ChatReply::JoinTable(id, password) => {
            assert_eq!(id, 8);
            assert_eq!(password, Some("secret".to_string()));
        },
        other => panic!("unexpected {other:?}"),
    }
    match only(chat_replies("/join", "Ann", "bot", "lobby", "bot", &tables, false)) {
        ChatReply::Pm(to, text) => {
            assert_eq!(to, "Ann");
            assert_eq!(text, "Room is password protected, please provide a password.");
        },
        other => panic!("unexpected {other:?}"),
    }
    // Cy plays only in a shared replay, but watches table 6.
    match only(chat_replies("/join", "Cy", "bot", "lobby", "bot", &tables, false)) {
        ChatReply::JoinTable(id, password) => {
            assert_eq!(id, 6);
            assert_eq!(password, None);
        },
        other => panic!("unexpected {other:?}"),
    }
    match only(chat_replies("/join", "Eve", "bot", "lobby", "bot", &tables, false)) {
        ChatReply::Pm(_, text) => assert_eq!(text, "Could not join, as you are not in a room."),
        other => panic!("unexpected {other:?}"),
    }
}

#[test]
fn it_rejoins_and_tells_its_version() {
    let tables = lobby();
    let replies = chat_replies("/rejoin", "Ann", "bot", "lobby", "bot", &tables, true);
    assert_eq!(replies.len(), 2);
    assert!(matches!(&replies[0], ChatReply::Pm(_, text) if text == "Could not rejoin, as the bot is already in a game."));
    assert!(matches!(&replies[1], ChatReply::Reattend(3)));
    match only(chat_replies("/rejoin", "Ann", "nobody", "lobby", "nobody", &tables, false)) {
        ChatReply::Pm(_, text) => assert_eq!(text, "Could not rejoin, as the bot is not a player in any currently open room."),
        other => panic!("unexpected {other:?}"),
    }
    match only(chat_replies("/version", "Ann", "bot", "lobby", "bot", &tables, false)) {
        ChatReply::Pm(to, text) => {
            assert_eq!(to, "Ann");
            assert_eq!(text, "v0.7.0 (rust-bot)");
        },
        other => panic!("unexpected {other:?}"),
    }
}

#[test]
fn it_finds_the_turn_to_navigate_to() {
    assert_eq!(nav_turn(&NavArg::Turn(4), 2, 3, 10), Some(4));
    assert_eq!(nav_turn(&NavArg::Next, 2, 3, 10), Some(3));
    assert_eq!(nav_turn(&NavArg::NextRound, 2, 3, 10), Some(5));
    assert_eq!(nav_turn(&NavArg::Prev, 2, 3, 10), Some(1));
    assert_eq!(nav_turn(&NavArg::PrevRound, 2, 3, 10), None);
    assert_eq!(nav_turn(&NavArg::Turn(10), 2, 3, 10), None);
    assert_eq!(nav_turn(&NavArg::Prev, 0, 3, 10), None);
}

#[test]
fn it_finds_players_by_name() {
    let names = vec!["Alice".to_string(), "Bob".to_string()];
    assert_eq!(player_position(&names, "Bob"), Some(1));
    assert_eq!(player_position(&names, "bob"), None);
}

#[test]
fn it_reads_the_servers_numbers() {
    assert_eq!(PerformAction::from_parts(0, 3, None), Some(PerformAction::Play { target: 3 }));
    assert_eq!(PerformAction::from_parts(2, 1, Some(4)), Some(PerformAction::Colour { target: 1, value: 4 }));
    assert_eq!(PerformAction::from_parts(3, 1, None), None);
    assert_eq!(PerformAction::from_parts(7, 1, Some(1)), None);
    assert_eq!(ClueKind::from_num(0), Some(ClueKind::COLOUR));
    assert_eq!(ClueKind::from_num(1), Some(ClueKind::RANK));
    assert_eq!(ClueKind::from_num(2), None);
}

fn no_variant() -> Variant {
    Variant::new(0, "No Variant", &["Red", "Yellow", "Green", "Blue", "Purple"], &["r", "y", "g", "b", "p"], VariantOpts::default())
}

#[test]
fn it_replays_a_game() {
    let ids = [(0, 1), (0, 2), (1, 1), (2, 1), (3, 1), (0, 3), (1, 2), (2, 2), (3, 2), (4, 1), (4, 2), (4, 3)];
    let deck: Vec<Identity> = ids.iter().map(|&(suit_index, rank)| Identity { suit_index, rank }).collect();
    // Alice plays her slot 5 (order 0, r1); Bob clues red to Alice.
    let actions = vec![PerformAction::Play { target: 0 }, PerformAction::Colour { target: 0, value: 0 }];
    let game = load_replay(vec!["Alice".to_string(), "Bob".to_string()], 0, no_variant(), &deck, &actions, &Plain);
    assert!(!game.catchup);
    assert_eq!(game.state.play_stacks[0], 1);
    assert_eq!(game.state.clue_tokens, 7);
    assert_eq!(game.state.hands[0][0], 10);
    // Alice does not see her own cards.
    assert_eq!(game.state.deck[10].base, None);
    assert_eq!(game.state.current_player_index, 0);
    assert!(should_act(&game, &Action::turn(game.state.turn_count, 0)));
    assert!(!should_act(&game, &Action::game_over(0, 0)));
}

#[test]
fn a_private_leave_makes_the_bot_leave() {
    let tables = lobby();
    assert!(matches!(only(chat_replies("/leave", "Ann", "bot", "lobby", "bot", &tables, true)), ChatReply::LeaveRoom));
    // For someone else it is nothing.
    assert!(chat_replies("/leave", "Ann", "other", "lobby", "bot", &tables, true).is_empty());
}
