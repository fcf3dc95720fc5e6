use vstd::prelude::*;

use crate::basics::card::Identity;
use crate::basics::clue::{BaseClue, ClueKind};
use crate::basics::state::State;
use crate::basics::game::Game;
use crate::basics::clue::clue_text;
use crate::basics::identity_set::ids_of;
use crate::basics::player::id_names;
use crate::text::joined;
use crate::text::{decimal, lowercase, to_lower, usize_to_string};
use crate::reactor::ClueInterp;

verus! {

/// The server's report of the clue count and the score.
#[derive(Debug, Clone, PartialEq)]
pub struct StatusAction {
    pub clues: usize,
    pub score: usize,
    pub max_score: usize,
}

/// A new turn and whose it is (-1 when nobody's).
#[derive(Debug, Clone, PartialEq)]
pub struct TurnAction {
    pub num: usize,
    pub current_player_index: i32,
}

/// A clue given, with the orders of the cards it touched.
#[derive(Debug, Clone, PartialEq)]
pub struct ClueAction {
    pub giver: usize,
    pub target: usize,
    pub list: Vec<usize>,
    pub clue: BaseClue,
}

/// A card drawn; suit and rank are -1 when the drawer cannot see it.
#[derive(Debug, Clone, PartialEq)]
pub struct DrawAction {
    pub player_index: usize,
    pub order: usize,
    pub suit_index: i32,
    pub rank: i32,
}

/// A card played successfully.
#[derive(Debug, Clone, PartialEq)]
pub struct PlayAction {
    pub player_index: usize,
    pub order: usize,
    pub suit_index: i32,
    pub rank: i32,
}

/// A card discarded, or played unsuccessfully when `failed`.
#[derive(Debug, Clone, PartialEq)]
pub struct DiscardAction {
    pub player_index: usize,
    pub order: usize,
    pub suit_index: i32,
    pub rank: i32,
    pub failed: bool,
}

/// A strike.
#[derive(Debug, Clone, PartialEq)]
pub struct StrikeAction {
    pub num: usize,
    pub turn: usize,
    pub order: usize,
}

/// The end of the game.
#[derive(Debug, Clone, PartialEq)]
pub struct GameOverAction {
    pub end_condition: usize,
    pub player_index: usize,
}

/// A forced interpretation of the next clue.
#[derive(Debug, Clone, PartialEq)]
pub struct InterpAction {
    pub interp: ClueInterp,
}

/// Something that happened in the game.
#[derive(Debug, Clone, PartialEq)]
pub enum Action {
    Status(StatusAction),
    Turn(TurnAction),
    Clue(ClueAction),
    Draw(DrawAction),
    Play(PlayAction),
    Discard(DiscardAction),
    Strike(StrikeAction),
    GameOver(GameOverAction),
    Interp(InterpAction),
}

impl Action {
    pub fn play(player_index: usize, order: usize, suit_index: i32, rank: i32) -> (r: Self)
        ensures
            r == Action::Play(PlayAction { player_index, order, suit_index, rank }),
    {
        Action::Play(PlayAction { player_index, order, suit_index, rank })
    }

    pub fn discard(player_index: usize, order: usize, suit_index: i32, rank: i32, failed: bool) -> (r: Self)
        ensures
            r == Action::Discard(DiscardAction { player_index, order, suit_index, rank, failed }),
    {
        Action::Discard(DiscardAction { player_index, order, suit_index, rank, failed })
    }

    pub fn clue(giver: usize, target: usize, clue: BaseClue, list: Vec<usize>) -> (r: Self)
        ensures
            r == Action::Clue(ClueAction { giver, target, clue, list }),
    {
        Action::Clue(ClueAction { giver, target, clue, list })
    }

    pub fn draw(player_index: usize, order: usize, suit_index: i32, rank: i32) -> (r: Self)
        ensures
            r == Action::Draw(DrawAction { player_index, order, suit_index, rank }),
    {
        Action::Draw(DrawAction { player_index, order, suit_index, rank })
    }

    pub fn turn(num: usize, current_player_index: i32) -> (r: Self)
        ensures
            r == Action::Turn(TurnAction { num, current_player_index }),
    {
        Action::Turn(TurnAction { num, current_player_index })
    }

    pub fn status(clues: usize, score: usize, max_score: usize) -> (r: Self)
        ensures
            r == Action::Status(StatusAction { clues, score, max_score }),
    {
        Action::Status(StatusAction { clues, score, max_score })
    }

    pub fn game_over(end_condition: usize, player_index: usize) -> (r: Self)
        ensures
            r == Action::GameOver(GameOverAction { end_condition, player_index }),
    {
        Action::GameOver(GameOverAction { end_condition, player_index })
    }

    pub fn interp(interp: ClueInterp) -> (r: Self)
        ensures
            r == Action::Interp(InterpAction { interp }),
    {
        Action::Interp(InterpAction { interp })
    }
}

/// An action that a player can take on their turn.
#[derive(Debug, Clone, Copy, PartialEq, Eq, Hash, Structural)]
pub enum PerformAction {
    Play { target: usize },
    Discard { target: usize },
    Colour { target: usize, value: usize },
    Rank { target: usize, value: usize },
    Terminate { target: usize, value: usize },
}

impl PerformAction {
    pub fn is_clue(&self) -> (r: bool)
        ensures
            r == (self is Colour || self is Rank),
    {
        match self {
            PerformAction::Colour { .. } | PerformAction::Rank { .. } => true,
            _ => false,
        }
    }
}

/// What `serde_json` writes for an object of the given fields, each a name and a number.
pub uninterp spec fn numbers_json(fields: Seq<(Seq<char>, u64)>) -> Seq<char>;

/// Writes an object of number fields as JSON with `serde_json`.
#[verifier::external_body]
fn numbers_object(fields: &Vec<(&str, u64)>) -> (r: String)
    ensures
        r@ == numbers_json(fields@.map_values(|f: (&str, u64)| (f.0@, f.1))),
{
    let mut m = serde_json::Map::new();
    for (k, v) in fields {
        m.insert(k.to_string(), serde_json::Value::from(*v));
    }
    serde_json::Value::Object(m).to_string()
}

impl PerformAction {
    /// The number by which the server knows the kind of action.
    pub open spec fn kind_num(&self) -> u64 {
        match self {
            PerformAction::Play { .. } => 0,
            PerformAction::Discard { .. } => 1,
            PerformAction::Colour { .. } => 2,
            PerformAction::Rank { .. } => 3,
            PerformAction::Terminate { .. } => 4,
        }
    }

    /// The fields of the server's action command: the table, the kind and the target,
    /// and the value where the action has one.
    pub open spec fn json_fields(&self, table_id: u32) -> Seq<(Seq<char>, u64)> {
        match self {
            PerformAction::Play { target } | PerformAction::Discard { target } =>
                seq![("tableID"@, table_id as u64), ("type"@, self.kind_num()), ("target"@, *target as u64)],
            PerformAction::Colour { target, value } | PerformAction::Rank { target, value }
            | PerformAction::Terminate { target, value } =>
                seq![("tableID"@, table_id as u64), ("type"@, self.kind_num()), ("target"@, *target as u64),
                    ("value"@, *value as u64)],
        }
    }

    /// The action that the server writes with the kind's number, the target and the
    /// value; `None` for an unknown kind, or a clue without a value.
    pub fn from_parts(kind: u64, target: usize, value: Option<usize>) -> (r: Option<PerformAction>)
        ensures
            r == match (kind, value) {
                (0, _) => Some(PerformAction::Play { target }),
                (1, _) => Some(PerformAction::Discard { target }),
                (2, Some(v)) => Some(PerformAction::Colour { target, value: v }),
                (3, Some(v)) => Some(PerformAction::Rank { target, value: v }),
                (4, Some(v)) => Some(PerformAction::Terminate { target, value: v }),
                _ => None,
            },
            r matches Some(a) ==> a.kind_num() == kind,
    {
        match (kind, value) {
            (0, _) => Some(PerformAction::Play { target }),
            (1, _) => Some(PerformAction::Discard { target }),
            (2, Some(v)) => Some(PerformAction::Colour { target, value: v }),
            (3, Some(v)) => Some(PerformAction::Rank { target, value: v }),
            (4, Some(v)) => Some(PerformAction::Terminate { target, value: v }),
            _ => None,
        }
    }

    /// The server's command for taking the action at the table, as JSON text.
    pub fn json(&self, table_id: u32) -> (r: String)
        ensures
            r@ == numbers_json(self.json_fields(table_id)),
    {
        let mut fields: Vec<(&str, u64)> = Vec::new();
        fields.push(("tableID", table_id as u64));
        match self {
            PerformAction::Play { target } => {
                fields.push(("type", 0));
                fields.push(("target", *target as u64));
            },
            PerformAction::Discard { target } => {
                fields.push(("type", 1));
                fields.push(("target", *target as u64));
            },
            PerformAction::Colour { target, value } => {
                fields.push(("type", 2));
                fields.push(("target", *target as u64));
                fields.push(("value", *value as u64));
            },
            PerformAction::Rank { target, value } => {
                fields.push(("type", 3));
                fields.push(("target", *target as u64));
                fields.push(("value", *value as u64));
            },
            PerformAction::Terminate { target, value } => {
                fields.push(("type", 4));
                fields.push(("target", *target as u64));
                fields.push(("value", *value as u64));
            },
        }
        proof {
            assert(fields@.map_values(|f: (&str, u64)| (f.0@, f.1)) =~= self.json_fields(table_id));
        }
        numbers_object(&fields)
    }
}

/// A card as the log writes it: its short name, or "xx" where it is not shown.
pub open spec fn id_text(state: State, suit_index: i32, rank: i32) -> Seq<char> {
    if suit_index == -1 || rank == -1 {
        "xx"@
    } else {
        state.log_id_spec(Identity { suit_index: suit_index as usize, rank: rank as usize })
    }
}

/// The card can be written: it is hidden, or its suit has a short name.
pub open spec fn id_writable(state: State, suit_index: i32, rank: i32) -> bool {
    suit_index == -1 || rank == -1 || (0 <= suit_index < state.variant.short_forms.unwrap()@.len() && 0 <= rank)
}

/// The name of the player.
pub open spec fn name_of(state: State, p: int) -> Seq<char> {
    state.player_names@[p]@
}

/// Writes a card as the log does.
fn write_id(state: &State, suit_index: i32, rank: i32) -> (r: String)
    requires
        state.variant.short_forms is Some,
        id_writable(*state, suit_index, rank),
    ensures
        r@ == id_text(*state, suit_index, rank),
{
    if suit_index == -1 || rank == -1 {
        String::from_str("xx")
    } else {
        state.log_id(Identity { suit_index: suit_index as usize, rank: rank as usize })
    }
}

impl Action {
    /// The action as the log writes it.
    pub open spec fn fmt_spec(&self, state: State) -> Seq<char> {
        match *self {
            Action::Clue(c) => name_of(state, c.giver as int) + " clues "@ + (if c.clue.kind == ClueKind::COLOUR {
                lowercase(state.variant.colourable_suits.unwrap()@[c.clue.value as int]@)
            } else {
                decimal(c.clue.value as nat)
            }) + " to "@ + name_of(state, c.target as int),
            Action::Play(p) => name_of(state, p.player_index as int) + " plays "@ + id_text(state, p.suit_index, p.rank) + " ("@
                + decimal(p.order as nat) + ")"@,
            Action::Discard(d) => name_of(state, d.player_index as int) + (if d.failed { " bombs "@ } else { " discards "@ })
                + id_text(state, d.suit_index, d.rank) + " ("@ + decimal(d.order as nat) + ")"@,
            Action::Draw(d) => name_of(state, d.player_index as int) + " draws "@ + id_text(state, d.suit_index, d.rank) + " ("@
                + decimal(d.order as nat) + ")"@,
            Action::Turn(t) => "Turn "@ + decimal(t.num as nat) + " ("@ + name_of(state, t.current_player_index as int) + ")"@,
            Action::Status(st) => "Status! Clues: "@ + decimal(st.clues as nat) + ", Score: "@ + decimal(st.score as nat) + "/"@
                + decimal(st.max_score as nat),
            Action::GameOver(_) => "Game over!"@,
            _ => Seq::empty(),
        }
    }

    /// What the action needs of the state to be written.
    pub open spec fn fmt_ok(&self, state: State) -> bool {
        let names = state.player_names@.len();
        &&& state.variant.short_forms is Some
        &&& state.variant.colourable_suits is Some
        &&& match *self {
            Action::Clue(c) => c.giver < names && c.target < names && (c.clue.kind == ClueKind::COLOUR ==> c.clue.value
                < state.variant.colourable_suits.unwrap()@.len()),
            Action::Play(p) => p.player_index < names && id_writable(state, p.suit_index, p.rank),
            Action::Discard(d) => d.player_index < names && id_writable(state, d.suit_index, d.rank),
            Action::Draw(d) => d.player_index < names && id_writable(state, d.suit_index, d.rank),
            Action::Turn(t) => 0 <= t.current_player_index < names,
            _ => true,
        }
    }

    /// The action as the log writes it.
    pub fn fmt(&self, state: &State) -> (r: String)
        requires
            self.fmt_ok(*state),
        ensures
            r@ == self.fmt_spec(*state),
    {
        match self {
            Action::Clue(c) => {
                let value = match c.clue.kind {
                    ClueKind::COLOUR => {
                        let suits = match &state.variant.colourable_suits {
                            Some(v) => v,
                            None => { return String::new(); },
                        };
                        to_lower(suits[c.clue.value].as_str())
                    },
                    ClueKind::RANK => usize_to_string(c.clue.value),
                };
                let mut r = state.player_names[c.giver].clone();
                r.append(" clues ");
                r.append(value.as_str());
                r.append(" to ");
                r.append(state.player_names[c.target].as_str());
                proof {
                    assert(r@ =~= self.fmt_spec(*state));
                }
                r
            },
            Action::Play(p) => {
                let mut r = state.player_names[p.player_index].clone();
                r.append(" plays ");
                r.append(write_id(state, p.suit_index, p.rank).as_str());
                r.append(" (");
                r.append(usize_to_string(p.order).as_str());
                r.append(")");
                proof {
                    assert(r@ =~= self.fmt_spec(*state));
                }
                r
            },
            Action::Discard(d) => {
                let mut r = state.player_names[d.player_index].clone();
                if d.failed {
                    r.append(" bombs ");
                } else {
                    r.append(" discards ");
                }
                r.append(write_id(state, d.suit_index, d.rank).as_str());
                r.append(" (");
                r.append(usize_to_string(d.order).as_str());
                r.append(")");
                proof {
                    assert(r@ =~= self.fmt_spec(*state));
                }
                r
            },
            Action::Draw(d) => {
                let mut r = state.player_names[d.player_index].clone();
                r.append(" draws ");
                r.append(write_id(state, d.suit_index, d.rank).as_str());
                r.append(" (");
                r.append(usize_to_string(d.order).as_str());
                r.append(")");
                proof {
                    assert(r@ =~= self.fmt_spec(*state));
                }
                r
            },
            Action::Turn(t) => {
                let mut r = String::from_str("Turn ");
                r.append(usize_to_string(t.num).as_str());
                r.append(" (");
                r.append(state.player_names[t.current_player_index as usize].as_str());
                r.append(")");
                proof {
                    assert(r@ =~= self.fmt_spec(*state));
                }
                r
            },
            Action::Status(st) => {
                let mut r = String::from_str("Status! Clues: ");
                r.append(usize_to_string(st.clues).as_str());
                r.append(", Score: ");
                r.append(usize_to_string(st.score).as_str());
                r.append("/");
                r.append(usize_to_string(st.max_score).as_str());
                proof {
                    assert(r@ =~= self.fmt_spec(*state));
                }
                r
            },
            Action::GameOver(_) => String::from_str("Game over!"),
            _ => String::new(),
        }
    }
}

/// The first position of the card in the hand.
pub open spec fn slot_of(hand: Seq<usize>, order: usize) -> int {
    choose|i: int| 0 <= i < hand.len() && hand[i] == order && forall|j: int| 0 <= j < i ==> hand[j] != order
}

/// The first position of the card in the hand, which holds it.
fn position(hand: &Vec<usize>, order: usize) -> (r: usize)
    requires
        hand@.contains(order),
    ensures
        r == slot_of(hand@, order),
        r < hand@.len(),
        r < usize::MAX,
{
    let n = hand.len();
    let mut i: usize = 0;
    while hand[i] != order
        invariant
            hand@.contains(order),
            n == hand@.len(),
            i < hand@.len(),
            forall|j: int| 0 <= j < i ==> hand@[j] != order,
        decreases hand@.len() - i,
    {
        i += 1;
        if i == n {
            proof {
                let j = choose|j: int| 0 <= j < hand@.len() && hand@[j] == order;
                assert(false);
            }
        }
    }
    proof {
        let k = slot_of(hand@, order);
        assert(0 <= k < hand@.len() && hand@[k] == order && forall|j: int| 0 <= j < k ==> hand@[j] != order);
        if k < i {
            assert(hand@[k] != order);
        } else if k > i {
            assert(hand@[i as int] != order);
        }
    }
    i
}

impl PerformAction {
    /// What the action needs of the game to be written.
    pub open spec fn fmt_ok(&self, game: Game) -> bool {
        let state = game.state;
        &&& game.wf()
        &&& state.our_player_index < state.hands@.len()
        &&& match *self {
            PerformAction::Play { target } => state.hands@[state.our_player_index as int]@.contains(target),
            PerformAction::Discard { target } => state.hands@[state.our_player_index as int]@.contains(target),
            PerformAction::Colour { target, value } => value < state.variant.suits@.len() && target < state.player_names@.len(),
            PerformAction::Rank { target, .. } => target < state.player_names@.len(),
            PerformAction::Terminate { .. } => true,
        }
    }

    /// The inferences of the card, as the log writes them.
    pub open spec fn infs_text(game: Game, target: usize) -> Seq<char> {
        joined(id_names(game.state, ids_of(game.common.thoughts@[target as int].inferred.bits())), seq![','])
    }

    /// The action as the log writes it for the player choosing it.
    pub open spec fn fmt_spec(&self, game: Game) -> Seq<char> {
        let state = game.state;
        let hand = state.hands@[state.our_player_index as int]@;
        match *self {
            PerformAction::Play { target } => "Play slot "@ + decimal((slot_of(hand, target) + 1) as nat) + ", inferences "@
                + Self::infs_text(game, target),
            PerformAction::Discard { target } => "Discard slot "@ + decimal((slot_of(hand, target) + 1) as nat) + ", inferences "@
                + Self::infs_text(game, target),
            PerformAction::Colour { target, value } => clue_text(state, ClueKind::COLOUR, value, target),
            PerformAction::Rank { target, value } => clue_text(state, ClueKind::RANK, value, target),
            PerformAction::Terminate { target, value } => "Game ended: "@ + decimal(target as nat) + " "@ + decimal(value as nat),
        }
    }

    /// The action as the log writes it for the player choosing it.
    pub fn fmt(&self, game: &Game) -> (r: String)
        requires
            self.fmt_ok(*game),
        ensures
            r@ == self.fmt_spec(*game),
    {
        let state = &game.state;
        match self {
            PerformAction::Play { target } => {
                let hand = &state.hands[state.our_player_index];
                let slot = position(hand, *target);
                proof {
                    assert(hand@[slot as int] < state.deck@.len());
                }
                let mut r = String::from_str("Play slot ");
                r.append(usize_to_string(slot + 1).as_str());
                r.append(", inferences ");
                r.append(game.common.str_infs(state, *target).as_str());
                proof {
                    assert(r@ =~= self.fmt_spec(*game));
                }
                r
            },
            PerformAction::Discard { target } => {
                let hand = &state.hands[state.our_player_index];
                let slot = position(hand, *target);
                proof {
                    assert(hand@[slot as int] < state.deck@.len());
                }
                let mut r = String::from_str("Discard slot ");
                r.append(usize_to_string(slot + 1).as_str());
                r.append(", inferences ");
                r.append(game.common.str_infs(state, *target).as_str());
                proof {
                    assert(r@ =~= self.fmt_spec(*game));
                }
                r
            },
            PerformAction::Colour { target, value } => BaseClue { kind: ClueKind::COLOUR, value: *value }.fmt(state, *target),
            PerformAction::Rank { target, value } => BaseClue { kind: ClueKind::RANK, value: *value }.fmt(state, *target),
            PerformAction::Terminate { target, value } => {
                let mut r = String::from_str("Game ended: ");
                r.append(usize_to_string(*target).as_str());
                r.append(" ");
                r.append(usize_to_string(*value).as_str());
                proof {
                    assert(r@ =~= self.fmt_spec(*game));
                }
                r
            },
        }
    }

    /// What the action needs of the game to be written for another player.
    pub open spec fn fmt_obj_ok(&self, game: Game, player_index: usize) -> bool {
        let state = game.state;
        &&& game.wf()
        &&& player_index < state.player_names@.len()
        &&& match *self {
            PerformAction::Play { target } => target < game.deck_ids@.len(),
            PerformAction::Discard { target } => target < game.deck_ids@.len(),
            PerformAction::Colour { target, value } => value < state.variant.suits@.len() && target < state.player_names@.len(),
            PerformAction::Rank { target, .. } => target < state.player_names@.len(),
            PerformAction::Terminate { .. } => true,
        }
    }

    /// The action as the log writes it for an onlooker, with the player taking it.
    pub open spec fn fmt_obj_spec(&self, game: Game, player_index: usize) -> Seq<char> {
        let state = game.state;
        let action_type = match *self {
            PerformAction::Play { target } => "play "@ + state.log_oid_spec(game.deck_ids@[target as int]) + ", order "@
                + decimal(target as nat),
            PerformAction::Discard { target } => "discard "@ + state.log_oid_spec(game.deck_ids@[target as int]) + ", order "@
                + decimal(target as nat),
            PerformAction::Colour { target, value } => clue_text(state, ClueKind::COLOUR, value, target),
            PerformAction::Rank { target, value } => clue_text(state, ClueKind::RANK, value, target),
            PerformAction::Terminate { target, value } => "Game ended: "@ + decimal(target as nat) + " "@ + decimal(value as nat),
        };
        action_type + " ("@ + state.player_names@[player_index as int]@ + ")"@
    }

    /// The action as the log writes it for an onlooker, with the player taking it.
    pub fn fmt_obj(&self, game: &Game, player_index: usize) -> (r: String)
        requires
            self.fmt_obj_ok(*game, player_index),
        ensures
            r@ == self.fmt_obj_spec(*game, player_index),
    {
        let state = &game.state;
        let mut r = match self {
            PerformAction::Play { target } => {
                proof {
                    assert(game.deck_ids@[*target as int] matches Some(i) ==> state.id_ok(i));
                }
                let mut a = String::from_str("play ");
                a.append(state.log_oid(&game.deck_ids[*target]).as_str());
                a.append(", order ");
                a.append(usize_to_string(*target).as_str());
                a
            },
            PerformAction::Discard { target } => {
                proof {
                    assert(game.deck_ids@[*target as int] matches Some(i) ==> state.id_ok(i));
                }
                let mut a = String::from_str("discard ");
                a.append(state.log_oid(&game.deck_ids[*target]).as_str());
                a.append(", order ");
                a.append(usize_to_string(*target).as_str());
                a
            },
            PerformAction::Colour { target, value } => BaseClue { kind: ClueKind::COLOUR, value: *value }.fmt(state, *target),
            PerformAction::Rank { target, value } => BaseClue { kind: ClueKind::RANK, value: *value }.fmt(state, *target),
            PerformAction::Terminate { target, value } => {
                let mut a = String::from_str("Game ended: ");
                a.append(usize_to_string(*target).as_str());
                a.append(" ");
                a.append(usize_to_string(*value).as_str());
                a
            },
        };
        r.append(" (");
        r.append(state.player_names[player_index].as_str());
        r.append(")");
        proof {
            assert(r@ =~= self.fmt_obj_spec(*game, player_index));
        }
        r
    }
}

} // verus!
