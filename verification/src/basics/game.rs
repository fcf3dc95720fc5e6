use vstd::prelude::*;

use std::collections::HashMap;

use crate::basics::action::{Action, ClueAction, DiscardAction, DrawAction, PerformAction, PlayAction, TurnAction};
use crate::basics::card::CardStatus;
use crate::basics::clue::CardClue;
use crate::basics::player::Link;
use crate::basics::{elim, on_clue, on_discard, on_draw, on_play, shown_id, drawn_id};
use crate::text::{decimal, join, joined, usize_to_string};
use crate::basics::card::{Card, ConvData, Identity};
use crate::basics::player::Player;
use crate::basics::state::State;
use crate::basics::variant::all_id_set;
use crate::reactor::ReactorInterp;
use self::frame::Frame;

pub mod frame;

verus! {

/// What the last move was taken to mean.
#[derive(Debug, Clone, Copy, PartialEq, Eq, Hash, Structural)]
pub enum Interp {
    Reactor(ReactorInterp),
}

/// The note written on a card, when, and all notes so far.
#[derive(Debug, Clone)]
pub struct Note {
    pub turn: usize,
    pub last: String,
    pub full: String,
}

/// A game in progress, as one player sees it.
#[derive(Clone)]
pub struct Game {
    pub table_id: u32,
    pub state: State,
    pub players: Vec<Player>,
    pub common: Player,
    pub meta: Vec<ConvData>,
    /// The identities of the deck as far as they are known, by order.
    pub deck_ids: Vec<Option<Identity>>,
    /// The state and the players at the start, to replay from.
    pub base: GameStart,
    pub in_progress: bool,
    pub catchup: bool,
    pub notes: HashMap<usize, Note>,
    pub last_move: Option<Interp>,
    pub queued_cmds: Vec<QueuedCmd>,
}

/// The state and the players at the start of a game.
#[derive(Clone)]
pub struct GameStart {
    pub state: State,
    pub players: Vec<Player>,
    pub common: Player,
}

/// A command for the server, with its argument.
#[derive(Debug, Clone)]
pub struct QueuedCmd {
    pub cmd: String,
    pub arg: String,
}

/// The table after a clue: a clue token is spent (and a turn of the final round), the
/// cards it touches in the target's hand are clued with it, and nothing else on the
/// table changes.
pub open spec fn clue_taken(old: State, new: State, action: ClueAction) -> bool {
    &&& crate::basics::state_frame_same(new, old)
    &&& new.hands@ == old.hands@
    &&& new.play_stacks@ == old.play_stacks@
    &&& new.discard_stacks@ == old.discard_stacks@
    &&& new.max_ranks@ == old.max_ranks@
    &&& new.strikes == old.strikes
    &&& new.card_order == old.card_order
    &&& new.cards_left == old.cards_left
    &&& new.clue_tokens == old.clue_tokens - 1
    &&& new.endgame_turns == match old.endgame_turns {
        Some(t) => Some((t - 1) as usize),
        None => None,
    }
    &&& new.deck@.len() == old.deck@.len()
    &&& forall|o: int| 0 <= o < old.deck@.len() ==> {
        let touched = old.hands@[action.target as int]@.contains(o as usize) && action.list@.contains(o as usize);
        &&& touched ==> (#[trigger] new.deck@[o]).clued && new.deck@[o].clues@ == old.deck@[o].clues@.push(CardClue {
            kind: action.clue.kind, value: action.clue.value, giver: action.giver, turn: old.turn_count })
        &&& !touched ==> new.deck@[o] == old.deck@[o]
    }
}

/// The game after an action is taken in: for each kind, what the common rules change
/// on the table, and the game kept well formed where the convention reads the action.
pub open spec fn action_taken(old: Game, new: Game, action: Action) -> bool {
    match action {
        Action::Draw(d) => {
            &&& new.wf()
            &&& new.state.deck@.len() == d.order + 1
            &&& new.state.deck@[d.order as int].base == drawn_id(d)
            &&& new.state.hands@[d.player_index as int]@ == seq![d.order] + old.state.hands@[d.player_index as int]@
            &&& new.state.cards_left == old.state.cards_left - 1
            &&& new.state.action_list@.len() == old.state.action_list@.len() + 1
            &&& new.state.turn_count == if old.state.turn_count == 0 && forall|p: int| 0 <= p < new.state.hands@.len()
                ==> #[trigger] new.state.hands@[p]@.len() == (if new.state.num_players < 2 { 0int } else if new.state.num_players < 4 { 5int } else if new.state.num_players < 6 { 4int } else { 3int }) {
                1
            } else {
                old.state.turn_count
            }
        },
        Action::GameOver(_) => {
            &&& new.wf()
            &&& !new.in_progress
            &&& new.state.action_list@.len() == old.state.action_list@.len() + 1
            &&& new.common == old.common
            &&& new.players == old.players
        },
        Action::Status(_) | Action::Strike(_) | Action::Interp(_) => {
            &&& new.wf()
            &&& new.in_progress == old.in_progress
            &&& new.state.action_list@.len() == old.state.action_list@.len() + 1
            &&& new.common == old.common
            &&& new.players == old.players
        },
        Action::Clue(c) => {
            &&& new.state.action_list@.len() == old.state.action_list@.len() + 1
            &&& new.state.turn_count == old.state.turn_count
            &&& new.state.hands@ == old.state.hands@
            &&& new.state.play_stacks@ == old.state.play_stacks@
            &&& new.state.discard_stacks@ == old.state.discard_stacks@
            &&& new.state.clue_tokens == old.state.clue_tokens - 1
            &&& new.state.deck@.len() == old.state.deck@.len()
            &&& forall|o: int| 0 <= o < old.state.deck@.len() ==> {
                let touched = old.state.hands@[c.target as int]@.contains(o as usize) && c.list@.contains(o as usize);
                &&& touched ==> (#[trigger] new.state.deck@[o]).clued && !new.state.deck@[o].newly_clued
                    && new.state.deck@[o].clues@ == old.state.deck@[o].clues@.push(CardClue {
                        kind: c.clue.kind, value: c.clue.value, giver: c.giver, turn: old.state.turn_count })
                &&& !touched ==> new.state.deck@[o].clued == old.state.deck@[o].clued
            }
        },
        Action::Play(p) => {
            &&& new.wf()
            &&& new.state.action_list@.len() == old.state.action_list@.len() + 1
            &&& new.state.turn_count == old.state.turn_count
            &&& new.state.hands@[p.player_index as int]@ == old.state.hands@[p.player_index as int]@.filter(|o: usize| o != p.order)
            &&& new.state.play_stacks@ == match shown_id(p.suit_index, p.rank) {
                Some(id) => old.state.play_stacks@.update(id.suit_index as int, id.rank),
                None => old.state.play_stacks@,
            }
            &&& new.state.clue_tokens == if p.rank == 5 && old.state.clue_tokens < 8 {
                (old.state.clue_tokens + 1) as usize } else { old.state.clue_tokens }
            &&& new.state.cards_left == old.state.cards_left
            &&& new.state.card_order == old.state.card_order
            &&& new.state.deck@.len() == old.state.deck@.len()
            &&& new.state.num_players == old.state.num_players
        },
        Action::Discard(d) => {
            &&& new.wf()
            &&& new.state.action_list@.len() == old.state.action_list@.len() + 1
            &&& new.state.turn_count == old.state.turn_count
            &&& new.state.play_stacks@ == old.state.play_stacks@
            &&& new.state.strikes == if d.failed { (old.state.strikes + 1) as u8 } else { old.state.strikes }
            &&& new.state.clue_tokens == if d.failed { old.state.clue_tokens } else if old.state.clue_tokens + 1 < 8 {
                (old.state.clue_tokens + 1) as usize } else { 8 }
            &&& shown_id(d.suit_index, d.rank) is Some ==> new.state.hands@[d.player_index as int]@
                == old.state.hands@[d.player_index as int]@.filter(|o: usize| o != d.order)
            &&& new.state.cards_left == old.state.cards_left
            &&& new.state.card_order == old.state.card_order
            &&& new.state.deck@.len() == old.state.deck@.len()
            &&& new.state.num_players == old.state.num_players
        },
        Action::Turn(t) => {
            &&& new.wf()
            &&& new.state.action_list@.len() == old.state.action_list@.len() + 1
            &&& new.state.turn_count == t.num + 1
            &&& new.state.current_player_index == if t.current_player_index >= 0 {
                t.current_player_index as usize } else { old.state.current_player_index }
            &&& new.state.hands@ == old.state.hands@
            &&& new.state.play_stacks@ == old.state.play_stacks@
            &&& new.state.cards_left == old.state.cards_left
            &&& new.state.card_order == old.state.card_order
            &&& new.state.deck@.len() == old.state.deck@.len()
            &&& new.state.num_players == old.state.num_players
        },
    }
}

/// The rules by which a convention reads the actions and chooses its own. A reading
/// changes what the players think and the convention's data on the cards, never the
/// state of the table, and it keeps the game well formed.
pub trait Convention {
    fn interpret_clue(&self, prev: &Game, game: &mut Game, action: &ClueAction)
        requires
            old(game).wf(),
        ensures
            final(game).wf(),
            final(game).state == old(game).state;

    fn interpret_discard(&self, prev: &Game, game: &mut Game, action: &DiscardAction)
        requires
            old(game).wf(),
        ensures
            final(game).wf(),
            final(game).state == old(game).state;

    fn interpret_play(&self, prev: &Game, game: &mut Game, action: &PlayAction)
        requires
            old(game).wf(),
        ensures
            final(game).wf(),
            final(game).state == old(game).state;

    fn take_action(&self, game: &Game) -> PerformAction;

    fn update_turn(&self, prev: &Game, game: &mut Game, action: &TurnAction)
        requires
            old(game).wf(),
        ensures
            final(game).wf(),
            final(game).state == old(game).state;

    fn find_all_clues(&self, game: &Game, player_index: usize) -> Vec<PerformAction>;

    fn find_all_discards(&self, game: &Game, player_index: usize) -> Vec<PerformAction>;
}

impl Game {
    /// The state is well formed, everyone has one thought and the conventions one entry
    /// per card of the deck, and every known identity is one of the state's.
    pub open spec fn wf(&self) -> bool {
        &&& self.state.wf()
        &&& self.common.wf(self.state)
        &&& self.common.thoughts@.len() == self.state.deck@.len()
        &&& self.players@.len() == self.state.num_players
        &&& forall|i: int|
            0 <= i < self.players@.len() ==> (#[trigger] self.players@[i]).wf(self.state)
                && self.players@[i].thoughts@.len() == self.state.deck@.len()
        &&& self.meta@.len() == self.state.deck@.len()
        &&& self.deck_ids@.len() >= self.state.deck@.len()
        &&& forall|o: int| 0 <= o < self.deck_ids@.len() ==> ((#[trigger] self.deck_ids@[o]) matches Some(id) ==> self.state.id_ok(id))
        &&& self.state.deck@.len() + 5 <= usize::MAX
    }

    /// A game at the start of the state, with every identity possible for everyone.
    pub fn new(table_id: u32, state: State, in_progress: bool) -> (r: Self)
        requires
            5 * state.variant.suits@.len() <= usize::BITS,
        ensures
            r.table_id == table_id,
            r.state == state,
            r.in_progress == in_progress,
            !r.catchup,
            r.last_move is None,
            r.meta@.len() == 0,
            r.deck_ids@.len() == 0,
            r.queued_cmds@.len() == 0,
            r.players@.len() == state.num_players,
            forall|i: int| 0 <= i < state.num_players ==> {
                let p = #[trigger] r.players@[i];
                &&& p.player_index == i
                &&& !p.is_common
                &&& p.thoughts@.len() == 0
                &&& p.all_possible@ == Set::new(|o: int| 0 <= o < 5 * state.variant.suits@.len())
                &&& p.all_inferred == p.all_possible
                &&& p.hypo_stacks@ == Seq::new(state.variant.suits@.len(), |s: int| 0usize)
                &&& p.links@.len() == 0
            },
            r.common.is_common,
            r.common.thoughts@.len() == 0,
            r.common.all_possible@ == Set::new(|o: int| 0 <= o < 5 * state.variant.suits@.len()),
            r.common.all_inferred == r.common.all_possible,
            r.common.hypo_stacks@ == Seq::new(state.variant.suits@.len(), |s: int| 0usize),
            r.common.links@.len() == 0,
            state.wf() && state.deck@.len() == 0 ==> r.wf(),
    {
        let num_players = state.num_players;
        let all_possible = all_id_set(&state.variant);
        let n = state.variant.suits.len();
        let mut players: Vec<Player> = Vec::new();
        let mut i: usize = 0;
        while i < num_players
            invariant
                i <= num_players,
                n == state.variant.suits@.len(),
                all_possible@ == Set::new(|o: int| 0 <= o < 5 * n),
                players@.len() == i,
                forall|j: int| 0 <= j < i ==> {
                    let p = #[trigger] players@[j];
                    &&& p.player_index == j
                    &&& !p.is_common
                    &&& p.thoughts@.len() == 0
                    &&& p.all_possible == all_possible
                    &&& p.all_inferred == all_possible
                    &&& p.hypo_stacks@ == Seq::new(n as nat, |s: int| 0usize)
                    &&& p.links@.len() == 0
                    &&& p.hypo_plays@.len() == 0
                },
            decreases num_players - i,
        {
            let stacks = zero_stacks(n);
            players.push(Player::new(Some(i), all_possible, stacks));
            i += 1;
        }
        let common = Player::new(None, all_possible, zero_stacks(n));
        let base_players = copy_players(&players);
        let base = GameStart { state: state.clone(), players: base_players, common: common.clone() };
        Game {
            table_id,
            state,
            players,
            common,
            meta: Vec::new(),
            deck_ids: Vec::new(),
            base,
            in_progress,
            catchup: false,
            notes: HashMap::new(),
            last_move: None,
            queued_cmds: Vec::new(),
        }
    }

    /// The state with the conventions' data.
    pub open spec fn frame_spec(&self) -> Frame {
        Frame { state: &self.state, meta: &self.meta }
    }

    /// The state with the conventions' data.
    pub fn frame(&self) -> (r: Frame)
        ensures
            r.state == &self.state,
            r.meta@ == self.meta@,
            r == self.frame_spec(),
    {
        Frame::new(&self.state, &self.meta)
    }

    /// The player whose turn it is.
    pub fn me(&self) -> (r: &Player)
        requires
            self.state.current_player_index < self.players@.len(),
        ensures
            *r == self.players@[self.state.current_player_index as int],
    {
        &self.players[self.state.current_player_index]
    }
}

/// A hypothetical stack of nothing for each of `n` suits.
fn zero_stacks(n: usize) -> (r: Vec<usize>)
    ensures
        r@ == Seq::new(n as nat, |s: int| 0usize),
{
    let mut r: Vec<usize> = Vec::new();
    let mut i: usize = 0;
    while i < n
        invariant
            i <= n,
            r@ == Seq::new(i as nat, |s: int| 0usize),
        decreases n - i,
    {
        r.push(0);
        proof {
            assert(r@ =~= Seq::new((i + 1) as nat, |s: int| 0usize));
        }
        i += 1;
    }
    r
}

/// A copy of each player.
fn copy_players(players: &Vec<Player>) -> (r: Vec<Player>)
    ensures
        r@.len() == players@.len(),
{
    let mut r: Vec<Player> = Vec::new();
    let mut i: usize = 0;
    while i < players.len()
        invariant
            i <= players@.len(),
            r@.len() == i,
        decreases players@.len() - i,
    {
        r.push(players[i].clone());
        i += 1;
    }
    r
}

/// The identities that the promised links holding the card name, in link order, as the
/// log writes them.
pub open spec fn link_names(state: State, links: Seq<Link>, order: usize) -> Seq<Seq<char>>
    decreases links.len(),
{
    if links.len() == 0 {
        Seq::empty()
    } else {
        let rest = link_names(state, links.drop_last(), order);
        match links.last() {
            Link::Promised { orders, id, .. } => if orders@.contains(order) { rest.push(state.log_id_spec(id)) } else { rest },
            Link::Unpromised { .. } => rest,
        }
    }
}

/// The note for the card: what everyone thinks of it, and where links promise it
/// identities, those too, each with a question mark.
pub open spec fn note_text(game: Game, order: usize) -> Seq<char> {
    let n = game.frame_spec().get_note_spec(game.common, order as int);
    let ln = joined(link_names(game.state, game.common.links@, order), "? "@);
    if ln.len() == 0 {
        n
    } else if n.contains(']') {
        n + "?"@
    } else {
        "["@ + n + "] "@ + ln + "?"@
    }
}

/// The card's note is written this turn: it has none yet, or its note changed since an
/// earlier turn.
pub open spec fn note_written(game: Game, o: usize) -> bool {
    !game.notes@.contains_key(o) || (note_text(game, o) != game.notes@[o].last@ && game.state.turn_count > game.notes@[o].turn)
}

/// All the card's notes so far with this turn's added: the turn, then the note.
pub open spec fn note_full(game: Game, o: usize) -> Seq<char> {
    (if game.notes@.contains_key(o) { game.notes@[o].full@ + " | "@ } else { Seq::empty() })
        + "t"@ + decimal(game.state.turn_count as nat) + ": "@ + note_text(game, o)
}

/// What the notes hold of the card afterwards: the new note where it is written, else
/// the old one.
pub open spec fn note_result(game: Game, notes: Map<usize, Note>, o: usize) -> bool {
    &&& notes.contains_key(o)
    &&& if note_written(game, o) {
        &&& notes[o].last@ == note_text(game, o)
        &&& notes[o].turn == game.state.turn_count
        &&& notes[o].full@ == note_full(game, o)
    } else {
        notes[o] == game.notes@[o]
    }
}

/// The arguments of the note commands that a pass over the cards queues, in order: one
/// for each card that gets a note and whose note is written, the first time it comes.
pub open spec fn note_args(game: Game, orders: Seq<usize>) -> Seq<Seq<char>>
    decreases orders.len(),
{
    if orders.len() == 0 {
        Seq::empty()
    } else {
        let o = orders.last();
        let rest = note_args(game, orders.drop_last());
        if noted_card(game, o) && note_written(game, o) && !orders.drop_last().contains(o) {
            rest.push(note_json(game.table_id, o, note_full(game, o)))
        } else {
            rest
        }
    }
}

/// The card gets a note: it is clued or the convention gave it a status.
pub open spec fn noted_card(game: Game, o: usize) -> bool {
    game.state.deck@[o as int].clued || game.meta@[o as int].status != CardStatus::NoStatus
}

/// The card is in a hand and gets a note.
pub open spec fn noted_in_hand(game: Game, o: usize) -> bool {
    crate::basics::hands_flat(game.state.hands@).contains(o) && noted_card(game, o)
}

/// The text of the server's note command for the card.
pub uninterp spec fn note_json(table_id: u32, order: usize, full: Seq<char>) -> Seq<char>;

/// Writes the server's note command for the card as a JSON object with `serde_json`.
#[verifier::external_body]
fn note_command(table_id: u32, order: usize, full: &str) -> (r: String)
    ensures
        r@ == note_json(table_id, order, full@),
{
    let mut m = serde_json::Map::new();
    m.insert("tableID".to_string(), serde_json::Value::from(table_id));
    m.insert("order".to_string(), serde_json::Value::from(order));
    m.insert("note".to_string(), serde_json::Value::from(full));
    serde_json::Value::Object(m).to_string()
}

/// Whether the text holds a closing bracket.
fn has_close_bracket(s: &str) -> (r: bool)
    ensures
        r == s@.contains(']'),
{
    let n = s.unicode_len();
    let mut i: usize = 0;
    while i < n
        invariant
            n == s@.len(),
            i <= n,
            forall|j: int| 0 <= j < i ==> s@[j] != ']',
        decreases n - i,
    {
        if s.get_char(i) == ']' {
            return true;
        }
        i += 1;
    }
    false
}

impl Game {
    /// What an action needs of the game to be taken in.
    pub open spec fn action_ok(&self, action: Action) -> bool {
        let s = self.state;
        match action {
            Action::Clue(c) => c.target < s.num_players && s.clue_ok(c.clue) && s.clue_tokens > 0 && s.endgame_turns != Some(0usize),
            Action::Discard(d) => {
                &&& d.player_index < s.num_players
                &&& s.endgame_turns != Some(0usize)
                &&& d.failed ==> s.strikes < 255
                &&& !d.failed ==> s.clue_tokens < usize::MAX
                &&& d.suit_index != -1 && d.rank != -1 ==> d.order < s.deck@.len() && 0 <= d.suit_index < s.num_suits()
                    && 1 <= d.rank <= 5 && s.discard_stacks@[d.suit_index as int]@[d.rank - 1] < usize::MAX
            },
            Action::Play(p) => p.player_index < s.num_players && s.endgame_turns != Some(0usize) && (p.suit_index != -1 && p.rank != -1
                ==> p.order < s.deck@.len() && 0 <= p.suit_index < s.num_suits() && 1 <= p.rank <= 5),
            Action::Draw(d) => {
                &&& d.order == s.deck@.len()
                &&& d.order + 6 <= usize::MAX
                &&& d.order == s.card_order
                &&& d.order <= self.deck_ids@.len()
                &&& d.player_index < s.num_players
                &&& s.num_players <= 6
                &&& s.cards_left > 0
                &&& d.suit_index != -1 ==> 0 <= d.suit_index < s.num_suits() && 1 <= d.rank <= 5
                &&& d.suit_index != -1 && d.order < self.deck_ids@.len() ==> (self.deck_ids@[d.order as int] matches Some(x) ==> Some(x) == drawn_id(d))
            },
            Action::Turn(t) => t.num < usize::MAX,
            _ => true,
        }
    }

    /// The player whose turn it is, to change.
    pub fn me_mut(&mut self) -> (r: &mut Player)
        requires
            old(self).state.current_player_index < old(self).players@.len(),
        ensures
            *r == old(self).players@[old(self).state.current_player_index as int],
            final(self).players@ == old(self).players@.update(old(self).state.current_player_index as int, *final(r)),
            final(self).state == old(self).state,
            final(self).common == old(self).common,
            final(self).meta == old(self).meta,
    {
        &mut self.players[self.state.current_player_index]
    }

    /// The action that the convention chooses.
    pub fn take_action<C: Convention>(&self, convention: &C) -> PerformAction {
        convention.take_action(self)
    }

    /// Takes in a clue: its touches, then what everyone and each player can now tell, then
    /// what the convention reads into it.
    pub fn handle_clue<C: Convention>(&mut self, copy: &Game, action: &ClueAction, convention: &C)
        requires
            old(self).wf(),
            old(self).state.consistent(),
            old(self).action_ok(Action::Clue(*action)),
        ensures
            final(self).wf(),
            clue_taken(old(self).state, final(self).state, *action),
    {
        let ghost before = self.state;
        let ghost old_game = *self;
        on_clue(self, action);
        let ghost clued = *self;
        proof {
            crate::basics::state::lemma_consistent_same(before, self.state);
            assert forall|o: int| 0 <= o < before.deck@.len() implies {
                let touched = before.hands@[action.target as int]@.contains(o as usize) && action.list@.contains(o as usize);
                &&& touched ==> (#[trigger] clued.state.deck@[o]).clued && clued.state.deck@[o].clues@ == before.deck@[o].clues@.push(CardClue {
                    kind: action.clue.kind, value: action.clue.value, giver: action.giver, turn: before.turn_count })
                &&& !touched ==> clued.state.deck@[o] == before.deck@[o]
            } by {
                assert(old_game.common.thoughts@[o] == old_game.common.thoughts@[o]);
                let u = clued.common.thoughts@[o];
            }
            assert(clue_taken(before, clued.state, *action));
        }
        elim(self, true);
        convention.interpret_clue(copy, self, action);
    }

    /// Writes on every card in a hand that is clued or was given a status the note for it,
    /// with the identities that links promise, where it changed since an earlier turn,
    /// and queues the server command for it while the game is live.
    pub fn update_notes(&mut self)
        requires
            old(self).wf(),
        ensures
            final(self).state == old(self).state,
            final(self).common == old(self).common,
            final(self).players == old(self).players,
            final(self).meta == old(self).meta,
            final(self).deck_ids == old(self).deck_ids,
            final(self).in_progress == old(self).in_progress,
            final(self).catchup == old(self).catchup,
            final(self).table_id == old(self).table_id,
            final(self).queued_cmds@.len() >= old(self).queued_cmds@.len(),
            forall|j: int| 0 <= j < old(self).queued_cmds@.len() ==> #[trigger] final(self).queued_cmds@[j] == old(self).queued_cmds@[j],
            forall|j: int| old(self).queued_cmds@.len() <= j < final(self).queued_cmds@.len() ==> (#[trigger] final(self).queued_cmds@[j]).cmd@ == "note"@,
            old(self).catchup || !old(self).in_progress ==> final(self).queued_cmds@ == old(self).queued_cmds@,
            forall|o: usize| noted_in_hand(*old(self), o) ==> #[trigger] final(self).notes@.contains_key(o),
            forall|o: usize| noted_in_hand(*old(self), o) ==> #[trigger] note_result(*old(self), final(self).notes@, o),
            !old(self).catchup && old(self).in_progress ==> final(self).queued_cmds@.skip(old(self).queued_cmds@.len() as int).map_values(|q: QueuedCmd| q.arg@)
                == note_args(*old(self), crate::basics::hands_flat(old(self).state.hands@)),
            forall|o: usize| !noted_in_hand(*old(self), o) ==> #[trigger] final(self).notes@.contains_key(o) == old(self).notes@.contains_key(o),
            forall|o: usize| !noted_in_hand(*old(self), o) && old(self).notes@.contains_key(o) ==> #[trigger] final(self).notes@[o] == old(self).notes@[o],
    {
        broadcast use vstd::std_specs::hash::group_hash_axioms;
        let ghost old_self = *self;
        let orders = crate::basics::all_hand_cards(&self.state);
        let mut k: usize = 0;
        while k < orders.len()
            invariant
                self.state == old_self.state,
                self.common == old_self.common,
                self.players == old_self.players,
                self.meta == old_self.meta,
                self.deck_ids == old_self.deck_ids,
                self.in_progress == old_self.in_progress,
                self.catchup == old_self.catchup,
                self.table_id == old_self.table_id,
                self.wf(),
                forall|j: int| 0 <= j < orders@.len() ==> #[trigger] orders@[j] < self.state.deck@.len(),
                self.queued_cmds@.len() >= old_self.queued_cmds@.len(),
                forall|j: int| 0 <= j < old_self.queued_cmds@.len() ==> #[trigger] self.queued_cmds@[j] == old_self.queued_cmds@[j],
                forall|j: int| old_self.queued_cmds@.len() <= j < self.queued_cmds@.len() ==> (#[trigger] self.queued_cmds@[j]).cmd@ == "note"@,
                old_self.catchup || !old_self.in_progress ==> self.queued_cmds@ == old_self.queued_cmds@,
                k <= orders@.len(),
                orders@ == crate::basics::hands_flat(old_self.state.hands@),
                forall|o: usize| orders@.take(k as int).contains(o) && noted_card(old_self, o) ==> #[trigger] self.notes@.contains_key(o),
                forall|o: usize| orders@.take(k as int).contains(o) && noted_card(old_self, o) ==> #[trigger] note_result(old_self, self.notes@, o),
                !old_self.catchup && old_self.in_progress ==> self.queued_cmds@.skip(old_self.queued_cmds@.len() as int).map_values(|q: QueuedCmd| q.arg@)
                    == note_args(old_self, orders@.take(k as int)),
                forall|o: usize| !(orders@.take(k as int).contains(o) && noted_card(old_self, o)) ==> (#[trigger] self.notes@.contains_key(o)
                    == old_self.notes@.contains_key(o) && (old_self.notes@.contains_key(o) ==> self.notes@[o] == old_self.notes@[o])),
            decreases orders@.len() - k,
        {
            let order = orders[k];
            let ghost notes_start = self.notes@;
            proof {
                assert(orders@.take(k + 1) =~= orders@.take(k as int).push(order));
            }
            if self.state.deck[order].clued || self.meta[order].status != CardStatus::NoStatus {
                let frame = self.frame();
                let mut note = frame.get_note(&self.common, order);
                // The identities that links promise for the card
                let mut parts: Vec<String> = Vec::new();
                let mut l: usize = 0;
                while l < self.common.links.len()
                    invariant
                        self.wf(),
                        l <= self.common.links@.len(),
                        parts@.map_values(|p: String| p@) == link_names(self.state, self.common.links@.take(l as int), order),
                    decreases self.common.links@.len() - l,
                {
                    proof {
                        assert(crate::basics::player::link_ok(self.common.links@[l as int], self.state));
                    }
                    match &self.common.links[l] {
                        Link::Promised { orders: link_orders, id, .. } => {
                            if crate::basics::vec_has(link_orders, order) {
                                parts.push(self.state.log_id(*id));
                            }
                        },
                        Link::Unpromised { .. } => {},
                    }
                    proof {
                        assert(self.common.links@.take(l + 1).drop_last() =~= self.common.links@.take(l as int));
                        assert(parts@.map_values(|p: String| p@) =~= link_names(self.state, self.common.links@.take(l + 1), order));
                    }
                    l += 1;
                }
                proof {
                    assert(self.common.links@.take(self.common.links@.len() as int) =~= self.common.links@);
                }
                let link_note = join(&parts, "? ");
                if link_note.as_str().unicode_len() != 0 {
                    if has_close_bracket(note.as_str()) {
                        note.append("?");
                    } else {
                        let mut n = String::from_str("[");
                        n.append(note.as_str());
                        n.append("] ");
                        n.append(link_note.as_str());
                        n.append("?");
                        note = n;
                    }
                }
                proof {
                    reveal_strlit("?");
                    reveal_strlit("[");
                    reveal_strlit("] ");
                    reveal_strlit("? ");
                    assert(note@ == note_text(old_self, order));
                }
                let turn = self.state.turn_count;
                let write_note = match self.notes.get(&order) {
                    Some(prev) => note != prev.last && turn > prev.turn,
                    None => true,
                };
                if write_note {
                    let ghost notes0 = self.notes@;
                    let mut full = match self.notes.remove(&order) {
                        Some(prev) => {
                            let mut f = prev.full;
                            f.append(" | ");
                            f
                        },
                        None => String::new(),
                    };
                    proof {
                        reveal_strlit(" | ");
                        assert(full@ == (if notes_start.contains_key(order) { notes_start[order].full@ + " | "@ } else { Seq::empty() }));
                    }
                    full.append("t");
                    full.append(usize_to_string(turn).as_str());
                    full.append(": ");
                    full.append(note.as_str());
                    let arg = note_command(self.table_id, order, full.as_str());
                    self.notes.insert(order, Note { last: note, turn, full });
                    proof {
                        assert(self.notes@.contains_key(order));
                        assert forall|o: usize| o != order implies #[trigger] self.notes@.contains_key(o) == notes0.contains_key(o)
                            && (notes0.contains_key(o) ==> self.notes@[o] == notes0[o]) by {}
                    }
                    proof {
                        reveal_strlit("t");
                        reveal_strlit(": ");
                        assert(self.notes@[order].full@ == (if notes_start.contains_key(order) { notes_start[order].full@ + " | "@ } else { Seq::empty() })
                            + "t"@ + decimal(turn as nat) + ": "@ + note_text(old_self, order));
                    }
                    if !self.catchup && self.in_progress {
                        let ghost before = self.queued_cmds@;
                        self.queued_cmds.push(QueuedCmd { cmd: String::from_str("note"), arg });
                        proof {
                            reveal_strlit("note");
                            assert(self.queued_cmds@.skip(old_self.queued_cmds@.len() as int) =~= before.skip(old_self.queued_cmds@.len() as int).push(self.queued_cmds@.last()));
                        }
                    }
                }
                proof {
                    let was = orders@.take(k as int).contains(order) && noted_card(old_self, order);
                    if !was {
                        assert(notes_start.contains_key(order) == old_self.notes@.contains_key(order));
                        assert(old_self.notes@.contains_key(order) ==> notes_start[order] == old_self.notes@[order]);
                    } else {
                        assert(note_result(old_self, notes_start, order));
                    }
                    assert(note_result(old_self, self.notes@, order));
                }
            }
            proof {
                assert forall|o: usize| o != order implies #[trigger] self.notes@.contains_key(o) == notes_start.contains_key(o)
                    && (notes_start.contains_key(o) ==> self.notes@[o] == notes_start[o]) by {}
                assert(!noted_card(old_self, order) ==> self.notes@ == notes_start);
                assert forall|o: usize| !(orders@.take(k + 1).contains(o) && noted_card(old_self, o)) implies (#[trigger] self.notes@.contains_key(o)
                    == old_self.notes@.contains_key(o) && (old_self.notes@.contains_key(o) ==> self.notes@[o] == old_self.notes@[o])) by {
                    assert(orders@.take(k + 1)[k as int] == order);
                    if orders@.take(k as int).contains(o) {
                        let w = choose|w: int| 0 <= w < k && orders@.take(k as int)[w] == o;
                        assert(orders@.take(k + 1)[w] == o);
                    }
                    assert(notes_start.contains_key(o) == old_self.notes@.contains_key(o));
                    assert(old_self.notes@.contains_key(o) ==> notes_start[o] == old_self.notes@[o]);
                }
                assert(orders@.take(k + 1).drop_last() =~= orders@.take(k as int));
                assert(orders@.take(k + 1).last() == order);
                assert forall|o: usize| orders@.take(k + 1).contains(o) && noted_card(old_self, o) implies #[trigger] note_result(old_self, self.notes@, o) by {
                    if o != order {
                        let w = choose|w: int| 0 <= w < k + 1 && #[trigger] orders@.take(k + 1)[w] == o;
                        assert(w != k as int);
                        assert(orders@.take(k as int)[w] == o);
                        assert(note_result(old_self, notes_start, o));
                        assert(self.notes@.contains_key(o) == notes_start.contains_key(o));
                        assert(self.notes@[o] == notes_start[o]);
                    }
                }
            }
            k += 1;
        }
        proof {
            assert(orders@.take(orders@.len() as int) =~= orders@);
            assert forall|o: usize| !noted_in_hand(old_self, o) implies (#[trigger] self.notes@.contains_key(o)
                == old_self.notes@.contains_key(o) && (old_self.notes@.contains_key(o) ==> self.notes@[o] == old_self.notes@[o])) by {
                assert(!(orders@.take(orders@.len() as int).contains(o) && noted_card(old_self, o)));
                assert(self.notes@.contains_key(o) == old_self.notes@.contains_key(o));
                assert(old_self.notes@.contains_key(o) ==> self.notes@[o] == old_self.notes@[o]);
            }
            assert forall|o: usize| !noted_in_hand(old_self, o) && old_self.notes@.contains_key(o) implies #[trigger] self.notes@[o] == old_self.notes@[o] by {
                assert(self.notes@.contains_key(o) == old_self.notes@.contains_key(o));
            }
        }
    }

    /// Takes in an action: the state changes it makes, and what the convention reads into it.
    pub fn handle_action<C: Convention>(&mut self, action: &Action, convention: &C)
        requires
            old(self).wf(),
            (*action matches Action::Clue(_)) ==> old(self).state.consistent(),
            old(self).action_ok(*action),
        ensures
            action_taken(*old(self), *final(self), *action),
    {
        let prev = self.clone();
        let ghost before = self.state;
        self.state.action_list.push(action.clone());
        proof {
            if before.consistent() {
                crate::basics::state::lemma_consistent_same(before, self.state);
            }
        }
        match action {
            Action::Clue(clue) => {
                self.handle_clue(&prev, clue, convention);
                let ghost mid = self.state;
                let mut i: usize = 0;
                while i < clue.list.len()
                    invariant
                        i <= clue.list@.len(),
                        self.state == (State { deck: self.state.deck, ..mid }),
                        self.state.deck@.len() == mid.deck@.len(),
                        forall|o: int| 0 <= o < mid.deck@.len() ==> (#[trigger] self.state.deck@[o]) == (Card {
                            newly_clued: self.state.deck@[o].newly_clued, ..mid.deck@[o] }),
                        forall|j: int| 0 <= j < i && clue.list@[j] < mid.deck@.len() ==> !self.state.deck@[#[trigger] clue.list@[j] as int].newly_clued,
                    decreases clue.list@.len() - i,
                {
                    let order = clue.list[i];
                    if order < self.state.deck.len() {
                        let ghost d0 = self.state.deck@;
                        self.state.deck[order].newly_clued = false;
                        proof {
                            assert forall|o: int| 0 <= o < mid.deck@.len() implies (#[trigger] self.state.deck@[o]) == (Card {
                                newly_clued: self.state.deck@[o].newly_clued, ..mid.deck@[o] }) by {
                                if o != order as int {
                                    assert(self.state.deck@[o] == d0[o]);
                                }
                            }
                        }
                    }
                    i += 1;
                }
                proof {
                    assert forall|o: int| 0 <= o < mid.deck@.len() && clue.list@.contains(o as usize) implies !(#[trigger] self.state.deck@[o]).newly_clued by {
                        let j = choose|j: int| 0 <= j < clue.list@.len() && clue.list@[j] == o as usize;
                        assert(!self.state.deck@[clue.list@[j] as int].newly_clued);
                    }
                }
            },
            Action::Discard(discard) => {
                on_discard(self, discard);
                convention.interpret_discard(&prev, self, discard);
            },
            Action::Play(play) => {
                on_play(self, play);
                convention.interpret_play(&prev, self, play);
            },
            Action::Draw(draw) => {
                on_draw(self, draw);
                if self.state.turn_count == 0 {
                    let size = self.state.hand_size();
                    let mut full = true;
                    let mut p: usize = 0;
                    while p < self.state.hands.len()
                        invariant
                            p <= self.state.hands@.len(),
                            full == forall|q: int| 0 <= q < p ==> #[trigger] self.state.hands@[q]@.len() == size,
                        decreases self.state.hands@.len() - p,
                    {
                        if self.state.hands[p].len() != size {
                            full = false;
                        }
                        p += 1;
                    }
                    if full {
                        self.state.turn_count = self.state.turn_count + 1;
                    }
                }
            },
            Action::GameOver(_) => {
                self.in_progress = false;
            },
            Action::Turn(turn) => {
                if turn.current_player_index >= 0 {
                    self.state.current_player_index = turn.current_player_index as usize;
                }
                self.state.turn_count = turn.num + 1;
                convention.update_turn(&prev, self, turn);
                if self.check_wf() {
                    self.update_notes();
                }
            },
            _ => {},
        }
    }

    /// A copy of the game for trying moves on: caught up, and with no card newly clued.
    pub fn simulate_clean(self) -> (r: Game)
        ensures
            r.catchup,
            r.state == (State { deck: r.state.deck, ..self.state }),
            r.state.deck@.len() == self.state.deck@.len(),
            forall|o: int| 0 <= o < self.state.deck@.len() ==> {
                let c = #[trigger] r.state.deck@[o];
                let d = self.state.deck@[o];
                &&& c.base == d.base && c.order == d.order && c.drawn_index == d.drawn_index && c.clued == d.clued
                &&& c.clues@ == d.clues@
                &&& (!c.newly_clued || d.newly_clued)
            },
            r.common == self.common,
            r.players == self.players,
            r.meta == self.meta,
            r.deck_ids == self.deck_ids,
            self.wf() ==> r.wf(),
    {
        let ghost start = self;
        let mut g = self;
        g.catchup = true;
        let mut p: usize = 0;
        while p < g.state.hands.len()
            invariant
                g.catchup,
                g.state == (State { deck: g.state.deck, ..start.state }),
                g.state.deck@.len() == start.state.deck@.len(),
                forall|o: int| 0 <= o < start.state.deck@.len() ==> {
                    let c = #[trigger] g.state.deck@[o];
                    let d = start.state.deck@[o];
                    &&& c.base == d.base && c.order == d.order && c.drawn_index == d.drawn_index && c.clued == d.clued
                    &&& c.clues@ == d.clues@
                    &&& (!c.newly_clued || d.newly_clued)
                },
                g.common == start.common,
                g.players == start.players,
                g.meta == start.meta,
                g.deck_ids == start.deck_ids,
                p <= g.state.hands@.len(),
            decreases g.state.hands@.len() - p,
        {
            let n = g.state.hands[p].len();
            let mut i: usize = 0;
            while i < n
                invariant
                    g.catchup,
                    g.state == (State { deck: g.state.deck, ..start.state }),
                    g.state.deck@.len() == start.state.deck@.len(),
                    forall|o: int| 0 <= o < start.state.deck@.len() ==> {
                        let c = #[trigger] g.state.deck@[o];
                        let d = start.state.deck@[o];
                        &&& c.base == d.base && c.order == d.order && c.drawn_index == d.drawn_index && c.clued == d.clued
                        &&& c.clues@ == d.clues@
                        &&& (!c.newly_clued || d.newly_clued)
                    },
                    g.common == start.common,
                    g.players == start.players,
                    g.meta == start.meta,
                    g.deck_ids == start.deck_ids,
                    p < g.state.hands@.len(),
                    n == g.state.hands@[p as int]@.len(),
                    i <= n,
                decreases n - i,
            {
                let order = g.state.hands[p][i];
                if order < g.state.deck.len() {
                    let ghost before = g.state.deck@;
                    g.state.deck[order].newly_clued = false;
                    proof {
                        assert forall|o: int| 0 <= o < start.state.deck@.len() implies {
                            let c = #[trigger] g.state.deck@[o];
                            let d = start.state.deck@[o];
                            &&& c.base == d.base && c.order == d.order && c.drawn_index == d.drawn_index && c.clued == d.clued
                            &&& c.clues@ == d.clues@
                            &&& (!c.newly_clued || d.newly_clued)
                        } by {
                            if o != order as int {
                                assert(g.state.deck@[o] == before[o]);
                            }
                        }
                    }
                }
                i += 1;
            }
            p += 1;
        }
        proof {
            if start.wf() {
                let s = g.state;
                assert forall|o: int| 0 <= o < s.deck@.len() implies ((#[trigger] s.deck@[o]).base matches Some(x) ==> s.id_ok(x)) by {
                    assert(start.state.deck@[o].base == s.deck@[o].base);
                }
                assert(s.wf());
                assert forall|o: int| 0 <= o < g.common.thoughts@.len() implies crate::basics::player::thought_ok(#[trigger] g.common.thoughts@[o], o, s) by {
                    assert(crate::basics::player::thought_ok(start.common.thoughts@[o], o, start.state));
                }
                assert forall|l: int| 0 <= l < g.common.links@.len() implies crate::basics::player::link_ok(#[trigger] g.common.links@[l], s) by {
                    assert(crate::basics::player::link_ok(start.common.links@[l], start.state));
                }
                assert forall|j: int| 0 <= j < g.players@.len() implies (#[trigger] g.players@[j]).wf(s) by {
                    let q = g.players@[j];
                    assert(q.wf(start.state));
                    assert forall|o: int| 0 <= o < q.thoughts@.len() implies crate::basics::player::thought_ok(#[trigger] q.thoughts@[o], o, s) by {
                        assert(crate::basics::player::thought_ok(q.thoughts@[o], o, start.state));
                    }
                    assert forall|l: int| 0 <= l < q.links@.len() implies crate::basics::player::link_ok(#[trigger] q.links@[l], s) by {
                        assert(crate::basics::player::link_ok(q.links@[l], start.state));
                    }
                }
            }
        }
        g
    }

    /// The game after a clue, tried on a copy.
    pub fn simulate_clue<C: Convention>(self, action: &ClueAction, convention: &C) -> (r: Game)
        requires
            self.wf(),
            self.state.consistent(),
            self.action_ok(Action::Clue(*action)),
        ensures
            !r.catchup,
            r.wf(),
            self.state.turn_count < usize::MAX ==> r.state.turn_count == self.state.turn_count + 1,
            r.state.hands@ == self.state.hands@,
            r.state.clue_tokens == self.state.clue_tokens - 1,
            r.state.play_stacks@ == self.state.play_stacks@,
            r.state.discard_stacks@ == self.state.discard_stacks@,
            r.state.strikes == self.state.strikes,
            r.state.cards_left == self.state.cards_left,
            r.state.card_order == self.state.card_order,
            r.state.deck@.len() == self.state.deck@.len(),
            forall|o: int| 0 <= o < self.state.deck@.len() ==> {
                let touched = self.state.hands@[action.target as int]@.contains(o as usize) && action.list@.contains(o as usize);
                &&& touched ==> (#[trigger] r.state.deck@[o]).clued && r.state.deck@[o].clues@ == self.state.deck@[o].clues@.push(CardClue {
                    kind: action.clue.kind, value: action.clue.value, giver: action.giver, turn: self.state.turn_count })
                &&& !touched ==> r.state.deck@[o].clued == self.state.deck@[o].clued && r.state.deck@[o].clues@ == self.state.deck@[o].clues@
            },
    {
        let prev = self.clone();
        let ghost before = self.state;
        let ghost start = self;
        let mut hypo = self.simulate_clean();
        let ghost clean = hypo.state;
        proof {
            crate::basics::state::lemma_consistent_same(before, hypo.state);
        }
        hypo.handle_clue(&prev, action, convention);
        let ghost clued = hypo.state;
        proof {
            assert forall|o: int| 0 <= o < start.state.deck@.len() implies {
                let touched = start.state.hands@[action.target as int]@.contains(o as usize) && action.list@.contains(o as usize);
                &&& touched ==> (#[trigger] clued.deck@[o]).clued && clued.deck@[o].clues@ == start.state.deck@[o].clues@.push(CardClue {
                    kind: action.clue.kind, value: action.clue.value, giver: action.giver, turn: start.state.turn_count })
                &&& !touched ==> clued.deck@[o].clued == start.state.deck@[o].clued && clued.deck@[o].clues@ == start.state.deck@[o].clues@
            } by {
                assert(clean.deck@[o].clued == start.state.deck@[o].clued);
                assert(clean.deck@[o].clues@ == start.state.deck@[o].clues@);
            }
        }
        hypo.catchup = false;
        if hypo.state.turn_count < usize::MAX {
            hypo.state.turn_count = hypo.state.turn_count + 1;
            proof {
                assert(hypo.wf()) by {
                    assert forall|o: int| 0 <= o < hypo.common.thoughts@.len() implies crate::basics::player::thought_ok(#[trigger] hypo.common.thoughts@[o], o, hypo.state) by {
                        assert(crate::basics::player::thought_ok(hypo.common.thoughts@[o], o, clued));
                    }
                }
            }
        }
        hypo
    }

    /// Takes in the action where the game is well formed, consistent and can take it in;
    /// else leaves the game as it is. Says whether it took the action in.
    pub fn handle_checked<C: Convention>(&mut self, action: &Action, convention: &C) -> (r: bool)
        ensures
            r == (old(self).wf() && ((*action matches Action::Clue(_)) ==> old(self).state.consistent()) && old(self).action_ok(*action)),
            !r ==> *final(self) == *old(self),
            r ==> action_taken(*old(self), *final(self), *action),
    {
        let is_clue = match action {
            Action::Clue(_) => true,
            _ => false,
        };
        if self.check_wf() && (!is_clue || self.state.check_consistent()) && self.check_action_ok(action) {
            self.handle_action(action, convention);
            true
        } else {
            false
        }
    }

    /// The game after an action, tried on a copy. After a play or a discard, the turn
    /// passes to the player who made it and that player draws the next card of the deck,
    /// where the game can still take these in.
    pub fn simulate_action<C: Convention>(self, action: &Action, convention: &C) -> (r: Game)
        requires
            self.wf(),
            self.state.consistent(),
            self.action_ok(*action),
        ensures
            !r.catchup,
            match *action {
                Action::Play(pa) => {
                    let h = self.state.hands@[pa.player_index as int]@.filter(|o: usize| o != pa.order);
                    self.state.turn_count < usize::MAX && pa.player_index <= i32::MAX ==> {
                        &&& r.state.turn_count == self.state.turn_count + 1
                        &&& r.state.hands@[pa.player_index as int]@ == h || (r.state.hands@[pa.player_index as int]@ == seq![self.state.card_order] + h
                            && self.state.cards_left > 0 && r.state.cards_left == self.state.cards_left - 1)
                        &&& self.state.cards_left == 0 ==> r.state.hands@[pa.player_index as int]@ == h
                        &&& self.state.cards_left > 0 && self.state.card_order == self.state.deck@.len() && self.state.card_order + 6 <= usize::MAX
                            && self.state.num_players <= 6 ==> r.state.hands@[pa.player_index as int]@ == seq![self.state.card_order] + h
                            && r.state.cards_left == self.state.cards_left - 1
                    }
                },
                Action::Discard(d) => {
                    let h = self.state.hands@[d.player_index as int]@.filter(|o: usize| o != d.order);
                    shown_id(d.suit_index, d.rank) is Some && self.state.turn_count < usize::MAX && d.player_index <= i32::MAX ==> {
                        &&& r.state.turn_count == self.state.turn_count + 1
                        &&& r.state.hands@[d.player_index as int]@ == h || (r.state.hands@[d.player_index as int]@ == seq![self.state.card_order] + h
                            && self.state.cards_left > 0 && r.state.cards_left == self.state.cards_left - 1)
                        &&& self.state.cards_left == 0 ==> r.state.hands@[d.player_index as int]@ == h
                        &&& self.state.cards_left > 0 && self.state.card_order == self.state.deck@.len() && self.state.card_order + 6 <= usize::MAX
                            && self.state.num_players <= 6 ==> r.state.hands@[d.player_index as int]@ == seq![self.state.card_order] + h
                            && r.state.cards_left == self.state.cards_left - 1
                    }
                },
                _ => true,
            },
    {
        let ghost before = self.state;
        let ghost start = self;
        let mut hypo = self.simulate_clean();
        let ghost clean = hypo;
        proof {
            crate::basics::state::lemma_consistent_same(before, hypo.state);
        }
        hypo.handle_action(action, convention);
        let ghost acted = hypo;
        proof {
            if let Action::Play(pa) = action {
                assert(acted.state.hands@[pa.player_index as int]@ == start.state.hands@[pa.player_index as int]@.filter(|o: usize| o != pa.order));
                assert(acted.state.turn_count == start.state.turn_count);
                assert(acted.state.card_order == start.state.card_order);
                assert(acted.state.cards_left == start.state.cards_left);
            }
        }
        let player = match action {
            Action::Play(p) => Some(p.player_index),
            Action::Discard(d) => Some(d.player_index),
            _ => None,
        };
        if let Some(pi) = player {
            if pi <= i32::MAX as usize {
                let turn = Action::turn(hypo.state.turn_count, pi as i32);
                let took = hypo.handle_checked(&turn, convention);
                proof {
                    if acted.state.turn_count < usize::MAX {
                        assert(acted.wf());
                        assert(acted.action_ok(turn));
                        assert(took);
                    }
                }
                let ghost turned = hypo;
                if hypo.state.cards_left > 0 {
                    let order = hypo.state.card_order;
                    let known = if order < hypo.state.deck.len() {
                        hypo.state.deck[order].base
                    } else {
                        None
                    };
                    match known {
                        Some(id) => {
                            if id.suit_index <= i32::MAX as usize && id.rank <= i32::MAX as usize {
                                let draw = Action::draw(pi, order, id.suit_index as i32, id.rank as i32);
                                hypo.handle_checked(&draw, convention);
                            }
                        },
                        None => {
                            let draw = Action::draw(pi, order, -1, -1);
                            hypo.handle_checked(&draw, convention);
                        },
                    }
                }
                proof {
                    let h = acted.state.hands@[pi as int]@;
                    if acted.state.turn_count < usize::MAX {
                        assert(turned.state.turn_count == acted.state.turn_count + 1);
                        assert(turned.state.hands@[pi as int]@ == h);
                        assert(hypo.state.turn_count == acted.state.turn_count + 1);
                        assert(hypo.state.hands@[pi as int]@ == h || (hypo.state.hands@[pi as int]@ == seq![acted.state.card_order] + h
                            && acted.state.cards_left > 0 && hypo.state.cards_left == acted.state.cards_left - 1));
                    }
                }
            }
        }
        hypo.catchup = false;
        proof {
            if let Action::Play(pa) = action {
                assert(player == Some(pa.player_index));
                let h = start.state.hands@[pa.player_index as int]@.filter(|o: usize| o != pa.order);
                assert(acted.state.hands@[pa.player_index as int]@ == h);
                if start.state.turn_count < usize::MAX && pa.player_index <= i32::MAX {
                    assert(hypo.state.turn_count == start.state.turn_count + 1);
                    assert(start.state.cards_left == 0 ==> hypo.state.hands@[pa.player_index as int]@ == h);
                    assert(hypo.state.hands@[pa.player_index as int]@ == h || (hypo.state.hands@[pa.player_index as int]@ == seq![start.state.card_order] + h
                        && start.state.cards_left > 0 && hypo.state.cards_left == start.state.cards_left - 1));
                }
            }
        }
        hypo
    }

    /// The game replayed from its start up to the given turn (see `navigated`): a fresh
    /// game on the recorded start takes in the recorded actions in order, only the opening
    /// draws for the first turn of the first player and otherwise until the turn count
    /// reaches the turn. The replay stops early at an action that the replayed game cannot
    /// take in. The result keeps the whole list of actions, so that it can be navigated
    /// again.
    pub fn navigate<C: Convention>(self, turn: usize, convention: &C) -> (r: Game)
        requires
            1 <= turn,
            5 * self.base.state.variant.suits@.len() <= usize::BITS,
        ensures
            exists|gs: Seq<Game>| navigated(self, turn, gs, r),
    {
        let ghost old_game = self;
        let Game { table_id, state, base, in_progress, catchup, .. } = self;
        let GameStart { state: start, players, common } = base;
        let first = turn == 1 && start.our_player_index == 0;
        let actions = state.action_list;
        let mut g = Game::new(table_id, start, in_progress);
        g.players = players;
        g.common = common;
        let mut k: usize = g.state.action_list.len();
        let ghost k0 = k as int;
        let ghost mut gs: Seq<Game> = seq![g];
        let mut stop = false;
        while !stop && k < actions.len() && (first || g.state.turn_count < turn)
            invariant
                first == (turn == 1 && old_game.base.state.our_player_index == 0),
                actions@ == old_game.state.action_list@,
                k0 == old_game.base.state.action_list@.len(),
                fresh_from(old_game, gs[0]),
                gs.len() >= 1,
                gs.last() == g,
                k == k0 + gs.len() - 1,
                replay_run(gs, actions@, k0),
                first ==> forall|i: int| k0 <= i < k ==> (#[trigger] actions@[i]) is Draw,
                !first ==> forall|i: int| 0 <= i < gs.len() - 1 ==> (#[trigger] gs[i]).state.turn_count < turn,
                stop ==> k < actions@.len() && ((first && !(actions@[k as int] is Draw)) || !takes_in(g, actions@[k as int])),
            decreases (actions@.len() - k) * 2 + if stop { 0int } else { 1int },
        {
            let is_draw = match &actions[k] {
                Action::Draw(_) => true,
                _ => false,
            };
            if first && !is_draw {
                stop = true;
            } else {
                let ghost before = g;
                if g.handle_checked(&actions[k], convention) {
                    proof {
                        let prev = gs;
                        gs = gs.push(g);
                        assert(takes_in(before, actions@[k as int]));
                        assert forall|i: int| 0 <= i < gs.len() - 1 implies #[trigger] run_step(gs, actions@, k0, i) by {
                            assert(run_step(prev, actions@, k0, i) || i == gs.len() - 2);
                            if i < gs.len() - 2 {
                                assert(gs[i] == prev[i]);
                                assert(gs[i + 1] == prev[i + 1]);
                            } else {
                                assert(gs[i] == before);
                            }
                        }
                        assert(replay_run(gs, actions@, k0));
                    }
                    k += 1;
                } else {
                    stop = true;
                }
            }
        }
        g.catchup = catchup;
        g.table_id = table_id;
        g.state.action_list = actions;
        proof {
            assert(navigated(old_game, turn, gs, g));
        }
        g
    }
}

/// The game can take in the action: well formed, consistent before a clue, and the
/// action fits it.
pub open spec fn takes_in(g: Game, action: Action) -> bool {
    &&& g.wf()
    &&& (action matches Action::Clue(_)) ==> g.state.consistent()
    &&& g.action_ok(action)
}

/// Each game of the run took in the next action, from position `k0` of the list on,
/// and became the next game.
pub open spec fn replay_run(gs: Seq<Game>, actions: Seq<Action>, k0: int) -> bool {
    &&& gs.len() >= 1
    &&& k0 >= 0
    &&& forall|i: int| 0 <= i < gs.len() - 1 ==> #[trigger] run_step(gs, actions, k0, i)
}

/// The `i`-th game of the run took in the action at position `k0 + i` and became the
/// next game.
pub open spec fn run_step(gs: Seq<Game>, actions: Seq<Action>, k0: int, i: int) -> bool {
    &&& k0 + i < actions.len()
    &&& takes_in(gs[i], actions[k0 + i])
    &&& action_taken(gs[i], gs[i + 1], actions[k0 + i])
}

/// The game is a fresh one on the recorded start of the given game.
pub open spec fn fresh_from(old: Game, g: Game) -> bool {
    &&& g.state == old.base.state
    &&& g.players == old.base.players
    &&& g.common == old.base.common
    &&& g.table_id == old.table_id
    &&& g.in_progress == old.in_progress
    &&& !g.catchup
    &&& g.meta@.len() == 0
    &&& g.deck_ids@.len() == 0
    &&& g.last_move is None
}

/// The result is the given game replayed up to the turn through the run of games `gs`:
/// from a fresh game on the start, the recorded actions were taken in one by one, only
/// opening draws for the first turn of the first player, otherwise while the turn count
/// was below the turn; the run stops at the end of the list, at the turn, at the first
/// action that is not a draw on the first turn, or at an action the game cannot take in.
/// The result is the last game of the run with the whole list of actions, the table and
/// the catch-up mode of the given game.
pub open spec fn navigated(old: Game, turn: usize, gs: Seq<Game>, r: Game) -> bool {
    let actions = old.state.action_list@;
    let first = turn == 1 && old.base.state.our_player_index == 0;
    let k0 = old.base.state.action_list@.len() as int;
    let k = k0 + gs.len() - 1;
    let last = gs.last();
    &&& gs.len() >= 1
    &&& fresh_from(old, gs[0])
    &&& replay_run(gs, actions, k0)
    &&& first ==> forall|i: int| k0 <= i < k ==> (#[trigger] actions[i]) is Draw
    &&& !first ==> forall|i: int| 0 <= i < gs.len() - 1 ==> (#[trigger] gs[i]).state.turn_count < turn
    &&& {
        ||| k >= actions.len()
        ||| !first && last.state.turn_count >= turn
        ||| first && !(actions[k] is Draw)
        ||| !takes_in(last, actions[k])
    }
    &&& r == (Game { catchup: old.catchup, table_id: old.table_id, state: State { action_list: old.state.action_list, ..last.state }, ..last })
}

} // verus!
