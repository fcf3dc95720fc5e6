use vstd::prelude::*;

use crate::basics::action::Action;
use crate::basics::game::Game;
use crate::console::{split_words, words, NavArg};
use crate::text::text_eq;

verus! {

/// The conventions the bot plays with.
pub const CONVENTION: &'static str = "Reactor 1.0";

/// What the bot answers when asked for its settings.
pub const SETTINGS_TEXT: &'static str = "Currently playing with Reactor 1.0 conventions.";

/// What the bot answers when asked for its version.
pub const VERSION_TEXT: &'static str = "v0.7.0 (rust-bot)";

/// What the bot answers to a join into a protected room without a password.
pub const NEEDS_PASSWORD: &'static str = "Room is password protected, please provide a password.";

/// What the bot answers to a join from someone in no room.
pub const NOT_IN_ROOM: &'static str = "Could not join, as you are not in a room.";

/// What the bot answers to a rejoin while it plays.
pub const ALREADY_PLAYING: &'static str = "Could not rejoin, as the bot is already in a game.";

/// What the bot answers to a rejoin when it sits at no open table.
pub const NOT_SEATED: &'static str = "Could not rejoin, as the bot is not a player in any currently open room.";

/// A table of the lobby, as far as the bot's commands need it.
#[derive(Debug, Clone)]
pub struct TableInfo {
    pub id: u32,
    pub password_protected: bool,
    pub shared_replay: bool,
    pub players: Vec<String>,
    pub spectators: Vec<String>,
}

/// What the bot does in answer to a chat message.
#[derive(Debug, Clone)]
pub enum ChatReply {
    /// A message to the chat of the bot's table.
    TableChat(String),
    /// A private message to a user.
    Pm(String, String),
    /// Join the table, with the password where one was given.
    JoinTable(u32, Option<String>),
    /// Sit back down at the table.
    Reattend(u32),
    /// Leave the bot's table.
    LeaveRoom,
}

/// A reply with its texts as character sequences.
pub enum ReplyView {
    TableChat(Seq<char>),
    Pm(Seq<char>, Seq<char>),
    JoinTable(u32, Option<Seq<char>>),
    Reattend(u32),
    LeaveRoom,
}

impl View for ChatReply {
    type V = ReplyView;

    open spec fn view(&self) -> ReplyView {
        match self {
            ChatReply::TableChat(t) => ReplyView::TableChat(t@),
            ChatReply::Pm(to, t) => ReplyView::Pm(to@, t@),
            ChatReply::JoinTable(id, p) => ReplyView::JoinTable(*id, match p {
                Some(p) => Some(p@),
                None => None,
            }),
            ChatReply::Reattend(id) => ReplyView::Reattend(*id),
            ChatReply::LeaveRoom => ReplyView::LeaveRoom,
        }
    }
}

/// The text starts with the prefix.
pub open spec fn starts_with(s: Seq<char>, prefix: Seq<char>) -> bool {
    prefix.len() <= s.len() && s.subrange(0, prefix.len() as int) == prefix
}

/// Whether the text starts with the prefix.
pub fn has_prefix(s: &str, prefix: &str) -> (r: bool)
    ensures
        r == starts_with(s@, prefix@),
{
    let n = prefix.unicode_len();
    if n > s.unicode_len() {
        return false;
    }
    let head = s.substring_char(0, n);
    text_eq(head, prefix)
}

/// The names of the list.
pub open spec fn names(v: Seq<String>) -> Seq<Seq<char>> {
    v.map_values(|s: String| s@)
}

/// The user sits at the table as a player of a live game, or watches it.
pub open spec fn joinable(t: TableInfo, who: Seq<char>) -> bool {
    (names(t.players@).contains(who) && !t.shared_replay) || names(t.spectators@).contains(who)
}

/// The user sits at the table as a player.
pub open spec fn seated(t: TableInfo, who: Seq<char>) -> bool {
    names(t.players@).contains(who)
}

/// The table of greatest id among those that pass; of several, the last.
pub open spec fn best_table(tables: Seq<TableInfo>, pass: spec_fn(TableInfo) -> bool) -> Option<int>
    decreases tables.len(),
{
    if tables.len() == 0 {
        None
    } else {
        let before = best_table(tables.drop_last(), pass);
        if pass(tables.last()) && (before matches Some(b) ==> tables[b].id <= tables.last().id) {
            Some(tables.len() - 1)
        } else {
            before
        }
    }
}

/// What the bot answers to a chat message: in a table's room, `/setall` and `/leaveall`;
/// in a private message to the bot, `/join`, `/rejoin`, `/version` and `/leave`.
pub open spec fn chat_spec(msg: Seq<char>, who: Seq<char>, recipient: Seq<char>, room: Seq<char>, username: Seq<char>,
    tables: Seq<TableInfo>, in_game: bool) -> Seq<ReplyView> {
    if recipient.len() == 0 && starts_with(room, "table"@) {
        if starts_with(msg, "/setall"@) {
            seq![ReplyView::TableChat(SETTINGS_TEXT@)]
        } else if starts_with(msg, "/leaveall"@) {
            seq![ReplyView::LeaveRoom]
        } else {
            Seq::empty()
        }
    } else if recipient != username {
        Seq::empty()
    } else if starts_with(msg, "/join"@) {
        match best_table(tables, |t: TableInfo| joinable(t, who)) {
            Some(i) => if tables[i].password_protected {
                let ws = words(msg);
                if ws.len() > 1 {
                    seq![ReplyView::JoinTable(tables[i].id, Some(ws[1]))]
                } else {
                    seq![ReplyView::Pm(who, NEEDS_PASSWORD@)]
                }
            } else {
                seq![ReplyView::JoinTable(tables[i].id, None)]
            },
            None => seq![ReplyView::Pm(who, NOT_IN_ROOM@)],
        }
    } else if starts_with(msg, "/rejoin"@) {
        let first = if in_game { seq![ReplyView::Pm(who, ALREADY_PLAYING@)] } else { Seq::empty() };
        first + match best_table(tables, |t: TableInfo| seated(t, username)) {
            Some(i) => seq![ReplyView::Reattend(tables[i].id)],
            None => seq![ReplyView::Pm(who, NOT_SEATED@)],
        }
    } else if starts_with(msg, "/version"@) {
        seq![ReplyView::Pm(who, VERSION_TEXT@)]
    } else if starts_with(msg, "/leave"@) {
        seq![ReplyView::LeaveRoom]
    } else {
        Seq::empty()
    }
}

/// Whether the name is in the list.
fn has_name(list: &Vec<String>, name: &str) -> (r: bool)
    ensures
        r == names(list@).contains(name@),
{
    let mut i: usize = 0;
    while i < list.len()
        invariant
            i <= list@.len(),
            forall|j: int| 0 <= j < i ==> list@[j]@ != name@,
        decreases list@.len() - i,
    {
        if text_eq(list[i].as_str(), name) {
            proof {
                assert(names(list@)[i as int] == name@);
            }
            return true;
        }
        i += 1;
    }
    proof {
        if names(list@).contains(name@) {
            let j = choose|j: int| 0 <= j < names(list@).len() && names(list@)[j] == name@;
            assert(list@[j]@ == name@);
        }
    }
    false
}

/// The table of greatest id at which the user may join the bot; of several, the last.
fn join_target(tables: &Vec<TableInfo>, who: &str) -> (r: Option<usize>)
    ensures
        r matches Some(i) ==> i < tables@.len() && best_table(tables@, |t: TableInfo| joinable(t, who@)) == Some(i as int),
        r is None ==> best_table(tables@, |t: TableInfo| joinable(t, who@)) is None,
{
    let ghost pass = |t: TableInfo| joinable(t, who@);
    let mut best: Option<usize> = None;
    let mut i: usize = 0;
    while i < tables.len()
        invariant
            i <= tables@.len(),
            pass == (|t: TableInfo| joinable(t, who@)),
            best matches Some(b) ==> b < i && best_table(tables@.take(i as int), pass) == Some(b as int),
            best is None ==> best_table(tables@.take(i as int), pass) is None,
        decreases tables@.len() - i,
    {
        proof {
            assert(tables@.take(i + 1).drop_last() =~= tables@.take(i as int));
        }
        let t = &tables[i];
        let ok = (has_name(&t.players, who) && !t.shared_replay) || has_name(&t.spectators, who);
        let better = match best {
            Some(b) => tables[b].id <= t.id,
            None => true,
        };
        if ok && better {
            best = Some(i);
        }
        i += 1;
    }
    proof {
        assert(tables@.take(tables@.len() as int) =~= tables@);
    }
    best
}

/// The table of greatest id at which the user is seated; of several, the last.
fn seat_target(tables: &Vec<TableInfo>, who: &str) -> (r: Option<usize>)
    ensures
        r matches Some(i) ==> i < tables@.len() && best_table(tables@, |t: TableInfo| seated(t, who@)) == Some(i as int),
        r is None ==> best_table(tables@, |t: TableInfo| seated(t, who@)) is None,
{
    let ghost pass = |t: TableInfo| seated(t, who@);
    let mut best: Option<usize> = None;
    let mut i: usize = 0;
    while i < tables.len()
        invariant
            i <= tables@.len(),
            pass == (|t: TableInfo| seated(t, who@)),
            best matches Some(b) ==> b < i && best_table(tables@.take(i as int), pass) == Some(b as int),
            best is None ==> best_table(tables@.take(i as int), pass) is None,
        decreases tables@.len() - i,
    {
        proof {
            assert(tables@.take(i + 1).drop_last() =~= tables@.take(i as int));
        }
        let t = &tables[i];
        let ok = has_name(&t.players, who);
        let better = match best {
            Some(b) => tables[b].id <= t.id,
            None => true,
        };
        if ok && better {
            best = Some(i);
        }
        i += 1;
    }
    proof {
        assert(tables@.take(tables@.len() as int) =~= tables@);
    }
    best
}

/// What the bot answers to a chat message (see `chat_spec`).
pub fn chat_replies(msg: &str, who: &str, recipient: &str, room: &str, username: &str, tables: &Vec<TableInfo>, in_game: bool) -> (r: Vec<ChatReply>)
    ensures
        r@.map_values(|x: ChatReply| x@) == chat_spec(msg@, who@, recipient@, room@, username@, tables@, in_game),
{
    let mut r: Vec<ChatReply> = Vec::new();
    proof {
        reveal_strlit("table");
        reveal_strlit("/setall");
        reveal_strlit("/leaveall");
        reveal_strlit("/join");
        reveal_strlit("/rejoin");
        reveal_strlit("/version");
        reveal_strlit("/leave");
    }
    if recipient.unicode_len() == 0 && has_prefix(room, "table") {
        if has_prefix(msg, "/setall") {
            r.push(ChatReply::TableChat(String::from_str(SETTINGS_TEXT)));
        } else if has_prefix(msg, "/leaveall") {
            r.push(ChatReply::LeaveRoom);
        }
        proof {
            assert(r@.map_values(|x: ChatReply| x@) =~= chat_spec(msg@, who@, recipient@, room@, username@, tables@, in_game));
        }
        return r;
    }
    if !text_eq(recipient, username) {
        proof {
            assert(r@.map_values(|x: ChatReply| x@) =~= chat_spec(msg@, who@, recipient@, room@, username@, tables@, in_game));
        }
        return r;
    }
    if has_prefix(msg, "/join") {
        match join_target(tables, who) {
            Some(i) => {
                let t = &tables[i];
                if t.password_protected {
                    let ws = split_words(msg);
                    proof {
                        assert(ws@.map_values(|w: String| w@).len() == ws@.len());
                    }
                    if ws.len() > 1 {
                        proof {
                            assert(ws@.map_values(|w: String| w@)[1] == ws@[1]@);
                        }
                        r.push(ChatReply::JoinTable(t.id, Some(ws[1].clone())));
                    } else {
                        r.push(ChatReply::Pm(String::from_str(who), String::from_str(NEEDS_PASSWORD)));
                    }
                } else {
                    r.push(ChatReply::JoinTable(t.id, None));
                }
            },
            None => {
                r.push(ChatReply::Pm(String::from_str(who), String::from_str(NOT_IN_ROOM)));
            },
        }
        proof {
            assert(r@.map_values(|x: ChatReply| x@) =~= chat_spec(msg@, who@, recipient@, room@, username@, tables@, in_game));
        }
        return r;
    }
    if has_prefix(msg, "/rejoin") {
        if in_game {
            r.push(ChatReply::Pm(String::from_str(who), String::from_str(ALREADY_PLAYING)));
        }
        let ghost first = r@;
        match seat_target(tables, username) {
            Some(i) => {
                r.push(ChatReply::Reattend(tables[i].id));
            },
            None => {
                r.push(ChatReply::Pm(String::from_str(who), String::from_str(NOT_SEATED)));
            },
        }
        proof {
            assert(r@.map_values(|x: ChatReply| x@) =~= chat_spec(msg@, who@, recipient@, room@, username@, tables@, in_game));
        }
        return r;
    }
    if has_prefix(msg, "/version") {
        r.push(ChatReply::Pm(String::from_str(who), String::from_str(VERSION_TEXT)));
    } else if has_prefix(msg, "/leave") {
        r.push(ChatReply::LeaveRoom);
    }
    proof {
        assert(r@.map_values(|x: ChatReply| x@) =~= chat_spec(msg@, who@, recipient@, room@, username@, tables@, in_game));
    }
    r
}

/// The turn that a move in the replay leads to: a given turn, or one turn or one round
/// on or back (not before turn 0). `None` where that turn was not played.
pub open spec fn nav_spec(arg: NavArg, turn_count: int, num_players: int, num_actions: int) -> Option<int> {
    let turn = match arg {
        NavArg::Turn(t) => t as int,
        NavArg::NextRound => turn_count + num_players,
        NavArg::Next => turn_count + 1,
        NavArg::Prev => if turn_count >= 1 { turn_count - 1 } else { 0 },
        NavArg::PrevRound => if turn_count >= num_players { turn_count - num_players } else { 0 },
    };
    if turn < 1 || turn >= num_actions { None } else { Some(turn) }
}

/// The turn that a move in the replay leads to (see `nav_spec`).
pub fn nav_turn(arg: &NavArg, turn_count: usize, num_players: usize, num_actions: usize) -> (r: Option<usize>)
    requires
        turn_count + num_players <= usize::MAX,
        turn_count < usize::MAX,
    ensures
        match nav_spec(*arg, turn_count as int, num_players as int, num_actions as int) {
            Some(t) => r == Some(t as usize),
            None => r is None,
        },
{
    let turn = match arg {
        NavArg::Turn(t) => *t,
        NavArg::NextRound => turn_count + num_players,
        NavArg::Next => turn_count + 1,
        NavArg::Prev => turn_count.saturating_sub(1),
        NavArg::PrevRound => turn_count.saturating_sub(num_players),
    };
    if turn < 1 || turn >= num_actions {
        None
    } else {
        Some(turn)
    }
}

/// The bot acts after an action where the game is live to it, it is its turn, the game
/// goes on, and the action opens a turn: a new turn, or the last draw of the deal.
pub open spec fn acts_after(game: Game, action: Action) -> bool {
    &&& !game.catchup
    &&& game.state.current_player_index == game.state.our_player_index
    &&& !(game.state.strikes == 3 || game.state.endgame_turns == Some(0usize))
    &&& match action {
        Action::Turn(_) => true,
        Action::Draw(_) => game.state.turn_count == 1,
        _ => false,
    }
}

/// Whether the bot acts after the action (see `acts_after`).
pub fn should_act(game: &Game, action: &Action) -> (r: bool)
    ensures
        r == acts_after(*game, *action),
{
    let state = &game.state;
    !game.catchup && state.current_player_index == state.our_player_index && !state.ended() && match action {
        Action::Turn(_) => true,
        Action::Draw(_) => state.turn_count == 1,
        _ => false,
    }
}

/// The position of the name among the players.
pub fn player_position(player_names: &Vec<String>, name: &str) -> (r: Option<usize>)
    ensures
        r matches Some(i) ==> i < player_names@.len() && player_names@[i as int]@ == name@
            && forall|j: int| 0 <= j < i ==> player_names@[j]@ != name@,
        r is None ==> !names(player_names@).contains(name@),
{
    let mut i: usize = 0;
    while i < player_names.len()
        invariant
            i <= player_names@.len(),
            forall|j: int| 0 <= j < i ==> player_names@[j]@ != name@,
        decreases player_names@.len() - i,
    {
        if text_eq(player_names[i].as_str(), name) {
            return Some(i);
        }
        i += 1;
    }
    proof {
        if names(player_names@).contains(name@) {
            let j = choose|j: int| 0 <= j < names(player_names@).len() && names(player_names@)[j] == name@;
            assert(player_names@[j]@ == name@);
        }
    }
    None
}

} // verus!
