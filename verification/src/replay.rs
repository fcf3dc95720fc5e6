use vstd::prelude::*;

use crate::basics::action::{Action, DrawAction, GameOverAction, PerformAction, TurnAction};
use crate::basics::card::Identity;
use crate::basics::clue::{BaseClue, ClueKind};
use crate::basics::game::{action_taken, takes_in, Convention, Game};
use crate::basics::state::State;
use crate::basics::util::{deck_ok, perform_to_action, performed};
use crate::basics::variant::Variant;

verus! {

/// Whether the deck, as the replay lists it, holds identities of the state at every order
/// of the state's deck.
fn deck_fits(state: &State, deck: &Vec<Identity>) -> (r: bool)
    ensures
        r == deck_ok(*state, Some(deck@)),
{
    if deck.len() < state.deck.len() {
        return false;
    }
    let n = state.variant.suits.len();
    let mut o: usize = 0;
    while o < state.deck.len()
        invariant
            n == state.num_suits(),
            deck@.len() >= state.deck@.len(),
            o <= state.deck@.len(),
            forall|k: int| 0 <= k < o ==> state.id_ok(#[trigger] deck@[k]),
        decreases state.deck@.len() - o,
    {
        let id = deck[o];
        if id.suit_index >= n || id.rank < 1 || id.rank > 5 {
            return false;
        }
        o += 1;
    }
    true
}

/// The state can read the action: its target is a card of the deck or a player, and a
/// clue names a colour or rank of the variant.
pub open spec fn readable(state: State, action: PerformAction) -> bool {
    match action {
        PerformAction::Play { target } => target < state.deck@.len(),
        PerformAction::Discard { target } => target < state.deck@.len(),
        PerformAction::Colour { target, value } => target < state.hands@.len() && state.clue_ok(BaseClue { kind: ClueKind::COLOUR, value }),
        PerformAction::Rank { target, value } => target < state.hands@.len() && state.clue_ok(BaseClue { kind: ClueKind::RANK, value }),
        PerformAction::Terminate { .. } => true,
    }
}

/// Whether the state can read the action: its target is a card of the deck or a player,
/// and a clue names a colour or rank of the variant.
fn action_fits(state: &State, action: &PerformAction) -> (r: bool)
    ensures
        r == readable(*state, *action),
{
    let colours = match &state.variant.colourable_suits {
        Some(c) => Some(c.len()),
        None => None,
    };
    match action {
        PerformAction::Play { target } | PerformAction::Discard { target } => *target < state.deck.len(),
        PerformAction::Colour { target, value } => *target < state.hands.len() && match colours {
            Some(n) => *value < n,
            None => false,
        },
        PerformAction::Rank { target, .. } => *target < state.hands.len() && colours.is_some(),
        PerformAction::Terminate { .. } => true,
    }
}

/// The card drawn at the order, as the player sees it: hidden for the viewer's own cards.
fn draw_of(player_index: usize, order: usize, deck: &Vec<Identity>, viewer: usize) -> (r: Action)
    requires
        order < deck@.len(),
    ensures
        r == drawn(player_index, order, deck@, viewer),
{
    if player_index == viewer {
        Action::draw(player_index, order, -1, -1)
    } else {
        Action::draw(player_index, order, deck[order].suit_index as i32, deck[order].rank as i32)
    }
}

/// The draw of the card at the order by the player, hidden from the viewer.
pub open spec fn drawn(player: usize, order: usize, deck: Seq<Identity>, viewer: usize) -> Action {
    if player == viewer {
        Action::Draw(DrawAction { player_index: player, order, suit_index: -1i32, rank: -1i32 })
    } else {
        Action::Draw(DrawAction { player_index: player, order, suit_index: deck[order as int].suit_index as i32, rank: deck[order as int].rank as i32 })
    }
}

/// The game took in the action where it could, and is as it was otherwise.
pub open spec fn attempted(g: Game, a: Action, g2: Game) -> bool {
    if takes_in(g, a) { action_taken(g, g2, a) } else { g2 == g }
}

/// The card at the next order is dealt to the player, where the deck has it.
pub open spec fn deal_step(g: Game, g2: Game, player: usize, deck: Seq<Identity>, viewer: usize) -> bool {
    if g.state.card_order < deck.len() {
        attempted(g, drawn(player, g.state.card_order, deck, viewer), g2)
    } else {
        g2 == g
    }
}

/// The `k`-th card of the player's hand is dealt from run position `p * size + k`.
pub open spec fn dealt(gs: Seq<Game>, size: int, p: int, k: int, deck: Seq<Identity>, viewer: usize) -> bool {
    deal_step(gs[p * size + k], gs[p * size + k + 1], p as usize, deck, viewer)
}

/// The number of cards in each hand at the start, for a game of up to six players.
pub open spec fn start_size(num_players: nat) -> int {
    if num_players < 2 { 0 } else if num_players < 4 { 5 } else if num_players < 6 { 4 } else { 3 }
}

/// The four steps that replay one recorded action from run position `b`: the action as
/// the game reads it, where it can; the draw after a play or a discard, where the deck
/// has a card; the end of the game at a third strike after a play; and the turn passing
/// to the next player.
pub open spec fn action_steps(gs: Seq<Game>, b: int, action: PerformAction, deck: Seq<Identity>, viewer: usize) -> bool {
    let p = gs[b].state.current_player_index;
    let g3 = gs[b + 3];
    let c = g3.state.current_player_index;
    &&& if gs[b].wf() && deck_ok(gs[b].state, Some(deck)) && readable(gs[b].state, action) {
        exists|a: Action| #[trigger] performed(gs[b].state, action, p, Some(deck), a) && attempted(gs[b], a, gs[b + 1])
    } else {
        gs[b + 1] == gs[b]
    }
    &&& if (action is Play || action is Discard) && gs[b + 1].state.card_order < deck.len() {
        attempted(gs[b + 1], drawn(p, gs[b + 1].state.card_order, deck, viewer), gs[b + 2])
    } else {
        gs[b + 2] == gs[b + 1]
    }
    &&& if action is Play && gs[b + 2].state.strikes == 3 {
        attempted(gs[b + 2], Action::GameOver(GameOverAction { end_condition: 0, player_index: p }), g3)
    } else {
        g3 == gs[b + 2]
    }
    &&& if g3.state.num_players >= 1 && c < usize::MAX && c + 1 <= i32::MAX {
        attempted(g3, Action::Turn(TurnAction { num: g3.state.turn_count, current_player_index: ((c + 1) % (g3.state.num_players as int)) as i32 }), gs[b + 4])
    } else {
        gs[b + 4] == g3
    }
}

/// The `i`-th recorded action is replayed from run position `d + 4 * i`.
pub open spec fn action_at(gs: Seq<Game>, d: int, i: int, action: PerformAction, deck: Seq<Identity>, viewer: usize) -> bool {
    action_steps(gs, d + 4 * i, action, deck, viewer)
}

/// The result is the replay through the run of games `gs`: from a fresh game on a new
/// state for the players, the seat and the variant, in catch-up mode, the deal (for up
/// to six players: each player in seat order draws a hand), then each recorded action
/// in four steps (see `action_steps`); the result is the last game, out of catch-up mode.
pub open spec fn replayed(players: Vec<String>, index: usize, variant: Variant, deck: Seq<Identity>, actions: Seq<PerformAction>, gs: Seq<Game>, r: Game) -> bool {
    let s0 = gs[0].state;
    let n = s0.num_players;
    let size = start_size(n as nat);
    let d = if n <= 6 { n * size } else { 0 };
    &&& gs.len() == d + 4 * actions.len() + 1
    &&& s0.player_names == players
    &&& s0.num_players == players@.len()
    &&& s0.our_player_index == index
    &&& s0.variant == variant
    &&& s0.deck@.len() == 0
    &&& s0.card_order == 0
    &&& s0.turn_count == 0
    &&& s0.current_player_index == 0
    &&& s0.action_list@.len() == 0
    &&& gs[0].catchup
    &&& gs[0].table_id == 0
    &&& !gs[0].in_progress
    &&& n <= 6 ==> forall|p: int, k: int| 0 <= p < n && 0 <= k < size ==> #[trigger] dealt(gs.take(d + 1), size, p, k, deck, index)
    &&& forall|i: int| 0 <= i < actions.len() ==> #[trigger] action_at(gs, d, i, actions[i], deck, index)
    &&& r == (Game { catchup: false, ..gs.last() })
}

/// Replays one recorded action on the game (see `action_steps`), giving the run of
/// games it went through.
fn replay_action<C: Convention>(game: &mut Game, action: &PerformAction, deck: &Vec<Identity>, index: usize, convention: &C) -> (steps: Ghost<Seq<Game>>)
    ensures
        steps@.len() == 5,
        steps@[0] == *old(game),
        steps@[4] == *final(game),
        action_steps(steps@, 0, *action, deck@, index),
{
    let ghost g0 = *game;
    let player_index = game.state.current_player_index;
    let ghost mut chosen: Action = Action::Turn(TurnAction { num: 0, current_player_index: 0 });
    if game.check_wf() && deck_fits(&game.state, deck) && action_fits(&game.state, action) {
        let taken = perform_to_action(&game.state, action, player_index, Some(deck.as_slice()));
        proof {
            chosen = taken;
        }
        game.handle_checked(&taken, convention);
    }
    let ghost g1 = *game;
    let is_play = match action {
        PerformAction::Play { .. } => true,
        _ => false,
    };
    let gives_up = match action {
        PerformAction::Play { .. } | PerformAction::Discard { .. } => true,
        _ => false,
    };
    if gives_up && game.state.card_order < deck.len() {
        let draw = draw_of(player_index, game.state.card_order, deck, index);
        game.handle_checked(&draw, convention);
    }
    let ghost g2 = *game;
    if is_play && game.state.strikes == 3 {
        game.handle_checked(&Action::game_over(0, player_index), convention);
    }
    let ghost g3 = *game;
    let n_now = game.state.num_players;
    let current = game.state.current_player_index;
    if n_now >= 1 && current < usize::MAX && current + 1 <= i32::MAX as usize {
        let next = game.state.next_player_index(current);
        game.handle_checked(&Action::turn(game.state.turn_count, next as i32), convention);
    }
    let ghost steps = seq![g0, g1, g2, g3, *game];
    proof {
        if g0.wf() && deck_ok(g0.state, Some(deck@)) && readable(g0.state, *action) {
            assert(performed(g0.state, *action, player_index, Some(deck@), chosen));
        }
    }
    Ghost(steps)
}

/// A finished game, replayed from its deck and its actions as the player at `index`
/// saw it: the deal, then each action with the card drawn after a play or a discard, the
/// end of the game at a third strike, and the turn passing to the next player. A step
/// that the game cannot take in is left out.
pub fn load_replay<C: Convention>(
    players: Vec<String>,
    index: usize,
    variant: Variant,
    deck: &Vec<Identity>,
    actions: &Vec<PerformAction>,
    convention: &C,
) -> (r: Game)
    requires
        5 * variant.suits@.len() <= usize::BITS,
    ensures
        exists|gs: Seq<Game>| replayed(players, index, variant, deck@, actions@, gs, r),
{
    let ghost names = players;
    let ghost var = variant;
    let state = State::new(players, index, variant);
    let mut game = Game::new(0, state, false);
    game.catchup = true;
    let ghost mut gs: Seq<Game> = seq![game];
    let ghost g_init = game;
    let num_players = game.state.num_players;
    let ghost n = num_players as int;
    let ghost size = start_size(num_players as nat);
    if num_players <= 6 {
        let size_x = game.state.hand_size();
        let mut p: usize = 0;
        while p < num_players
            invariant
                n == num_players,
                size == size_x,
                num_players <= 6,
                p <= num_players,
                gs.len() == p * size + 1,
                gs.last() == game,
                gs[0] == g_init,
                forall|q: int, k: int| 0 <= q < p && 0 <= k < size ==> #[trigger] dealt(gs, size, q, k, deck@, index),
            decreases num_players - p,
        {
            let mut k: usize = 0;
            while k < size_x
                invariant
                    n == num_players,
                    size == size_x,
                    p < num_players,
                    k <= size_x,
                    gs.len() == p * size + k + 1,
                    gs.last() == game,
                    gs[0] == g_init,
                    forall|q: int, k2: int| 0 <= q < p && 0 <= k2 < size ==> #[trigger] dealt(gs, size, q, k2, deck@, index),
                    forall|k2: int| 0 <= k2 < k ==> #[trigger] dealt(gs, size, p as int, k2, deck@, index),
                decreases size_x - k,
            {
                let ghost before = game;
                let order = game.state.card_order;
                if order < deck.len() {
                    let draw = draw_of(p, order, deck, index);
                    game.handle_checked(&draw, convention);
                }
                proof {
                    let prev = gs;
                    gs = gs.push(game);
                    assert(gs[p * size + k] == before);
                    assert(dealt(gs, size, p as int, k as int, deck@, index));
                    assert forall|q: int, k2: int| 0 <= q < p && 0 <= k2 < size implies #[trigger] dealt(gs, size, q, k2, deck@, index) by {
                        assert(dealt(prev, size, q, k2, deck@, index));
                        assert(q * size + k2 + 1 <= (p - 1) * size + size) by (nonlinear_arith)
                            requires 0 <= q < p, 0 <= k2 < size;
                        assert((p - 1) * size + size == p * size) by (nonlinear_arith);
                        assert(gs[q * size + k2] == prev[q * size + k2]);
                        assert(gs[q * size + k2 + 1] == prev[q * size + k2 + 1]);
                    }
                    assert forall|k2: int| 0 <= k2 < k + 1 implies #[trigger] dealt(gs, size, p as int, k2, deck@, index) by {
                        if k2 < k {
                            assert(dealt(prev, size, p as int, k2, deck@, index));
                            assert(gs[p * size + k2] == prev[p * size + k2]);
                            assert(gs[p * size + k2 + 1] == prev[p * size + k2 + 1]);
                        }
                    }
                }
                k += 1;
            }
            proof {
                assert(p * size + size == (p + 1) * size) by (nonlinear_arith);
            }
            p += 1;
        }
    }
    let ghost d = if n <= 6 { n * size } else { 0 };
    assert(gs.len() == d + 1);
    let ghost dgs = gs;
    assert(n <= 6 ==> forall|q: int, k: int| 0 <= q < n && 0 <= k < size ==> #[trigger] dealt(dgs, size, q, k, deck@, index));
    let mut i: usize = 0;
    while i < actions.len()
        invariant
            i <= actions@.len(),
            gs.len() == d + 4 * i + 1,
            d >= 0,
            gs.last() == game,
            gs[0] == g_init,
            g_init.state.num_players == n,
            gs.take(d + 1) == dgs,
            dgs.len() == d + 1,
            forall|j: int| 0 <= j < i ==> #[trigger] action_at(gs, d, j, actions@[j], deck@, index),
        decreases actions@.len() - i,
    {
        let ghost prev = gs;
        let steps = replay_action(&mut game, &actions[i], deck, index, convention);
        proof {
            let b = d + 4 * i;
            gs = prev + steps@.subrange(1, 5);
            assert(gs[b] == steps@[0]);
            assert(gs[b + 1] == steps@[1]);
            assert(gs[b + 2] == steps@[2]);
            assert(gs[b + 3] == steps@[3]);
            assert(gs[b + 4] == steps@[4]);
            assert(gs[0] == prev[0]);
            assert(gs.take(d + 1) =~= prev.take(d + 1));
            assert(action_at(gs, d, i as int, actions@[i as int], deck@, index));
            assert forall|j: int| 0 <= j < i implies #[trigger] action_at(gs, d, j, actions@[j], deck@, index) by {
                assert(action_at(prev, d, j, actions@[j], deck@, index));
                let bj = d + 4 * j;
                assert(gs[bj] == prev[bj]);
                assert(gs[bj + 1] == prev[bj + 1]);
                assert(gs[bj + 2] == prev[bj + 2]);
                assert(gs[bj + 3] == prev[bj + 3]);
                assert(gs[bj + 4] == prev[bj + 4]);
            }
        }
        i += 1;
    }
    game.catchup = false;
    proof {
        assert(dgs.take(d + 1) =~= dgs);
        assert(replayed(names, index, var, deck@, actions@, gs, game));
    }
    game
}

} // verus!
