use rust_bot::basics::action::PerformAction;
use rust_bot::basics::util::{clue_to_perform, players_between};
use rust_bot::basics::clue::{Clue, ClueKind};

fn fields(text: &str) -> serde_json::Value {
    serde_json::from_str(text).unwrap()
}

#[test]
fn it_writes_a_play_command() {
    let v = fields(&PerformAction::Play { target: 3 }.json(7));
    assert_eq!(v["tableID"], 7);
    assert_eq!(v["type"], 0);
    assert_eq!(v["target"], 3);
    assert!(v.get("value").is_none());
}

#[test]
fn it_writes_a_clue_command() {
    let v = fields(&PerformAction::Rank { target: 1, value: 4 }.json(12));
    assert_eq!(v["tableID"], 12);
    assert_eq!(v["type"], 3);
    assert_eq!(v["target"], 1);
    assert_eq!(v["value"], 4);
    let v = fields(&PerformAction::Colour { target: 2, value: 0 }.json(12));
    assert_eq!(v["type"], 2);
    let v = fields(&PerformAction::Discard { target: 9 }.json(1));
    assert_eq!(v["type"], 1);
    let v = fields(&PerformAction::Terminate { target: 0, value: 0 }.json(1));
    assert_eq!(v["type"], 4);
}

#[test]
fn it_turns_a_clue_into_an_action() {
    let clue = Clue { kind: ClueKind::COLOUR, value: 2, target: 1 };
    assert_eq!(clue_to_perform(&clue), PerformAction::Colour { target: 1, value: 2 });
    let clue = Clue { kind: ClueKind::RANK, value: 5, target: 0 };
    assert_eq!(clue_to_perform(&clue), PerformAction::Rank { target: 0, value: 5 });
    assert!(clue_to_perform(&clue).is_clue());
    assert!(!PerformAction::Play { target: 0 }.is_clue());
}

#[test]
fn it_lists_the_players_between() {
    assert_eq!(players_between(4, 1, 3), vec![2, 3]);
    assert_eq!(players_between(4, 3, 1), vec![0, 1]);
}
