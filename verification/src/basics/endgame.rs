use vstd::prelude::*;

use std::collections::HashMap;

use crate::basics::action::PerformAction;
use crate::basics::card::{Card, IdOptions, Identifiable, Identity};
use crate::basics::game::Game;
use crate::basics::player::lemma_identity_ok;
use crate::basics::clue::CardClue;
use crate::basics::state::State;
use crate::basics::without;

verus! {

broadcast use vstd::std_specs::hash::group_hash_axioms;

/// How many copies of an identity are still to be drawn, and whether that is every copy.
#[derive(Debug, Clone, Copy)]
pub struct RemainingEntry {
    pub missing: usize,
    pub all: bool,
}

/// Whether a game can be won whatever is drawn, only with some draws, or not at all.
#[derive(Debug, Clone)]
pub enum SimpleResult {
    AlwaysWinnable,
    WinnableWithDraws(Vec<Identity>),
    Unwinnable,
}

/// The copies still to be drawn after one copy of the identity (keyed by its position)
/// is drawn: the entry goes where it was the last copy, and loses one copy otherwise.
pub fn remove_remaining(remaining: &HashMap<usize, RemainingEntry>, id: Identity) -> (r: HashMap<usize, RemainingEntry>)
    requires
        id.valid(),
        remaining@.contains_key((id.ord() as usize)),
        remaining@[(id.ord() as usize)].missing >= 1,
    ensures
        r@ == if remaining@[(id.ord() as usize)].missing == 1 {
            remaining@.remove((id.ord() as usize))
        } else {
            remaining@.insert((id.ord() as usize), RemainingEntry { missing: (remaining@[(id.ord() as usize)].missing - 1) as usize, all: remaining@[(id.ord() as usize)].all })
        },
{
    let k = id.to_ord();
    let entry = *remaining.get(&k).unwrap();
    let mut new_remaining = remaining.clone();
    if entry.missing == 1 {
        new_remaining.remove(&k);
    } else {
        new_remaining.insert(k, RemainingEntry { missing: entry.missing - 1, all: entry.all });
    }
    new_remaining
}

/// The card at `target` is played onto its stack: its identity is known and playable.
pub open spec fn lands(state: State, target: int) -> bool {
    state.deck@[target].base matches Some(x) && state.is_playable_spec(x)
}

/// Any order but `target`.
pub open spec fn other_than(target: usize) -> spec_fn(usize) -> bool {
    |o: usize| o != target
}

/// A card that was never clued, with the order and the turn it was drawn on.
pub open spec fn fresh_card(c: Card, base: Option<Identity>, order: usize, drawn_index: usize) -> bool {
    &&& c.base == base
    &&& c.order == order
    &&& c.drawn_index == drawn_index
    &&& !c.clued
    &&& !c.newly_clued
    &&& c.clues@ == Seq::<CardClue>::empty()
}

/// What the action needs of the state: the target is a card of the deck, the counts do
/// not overflow, a card can still be drawn, and a clue has a token to spend.
pub open spec fn advance_ok(state: State, action: PerformAction, player_index: usize) -> bool {
    &&& state.wf()
    &&& state.turn_count < usize::MAX
    &&& match action {
        PerformAction::Play { target } | PerformAction::Discard { target } => {
            &&& player_index < state.hands@.len()
            &&& target < state.deck@.len()
            &&& state.clue_tokens < usize::MAX
            &&& (state.deck@[target as int].base matches Some(x) ==> state.discard_stacks@[x.suit_index as int]@[x.rank - 1] < usize::MAX)
            &&& (action is Play && !lands(state, target as int) ==> state.strikes < 255)
            &&& match state.endgame_turns {
                Some(t) => t >= 1,
                None => state.card_order < usize::MAX && state.cards_left >= 1,
            }
        },
        PerformAction::Colour { .. } | PerformAction::Rank { .. } => {
            &&& state.clue_tokens >= 1
            &&& state.endgame_turns != Some(0usize)
        },
        PerformAction::Terminate { .. } => true,
    }
}

/// The clue tokens after one is regained, at most 8.
pub open spec fn regained(tokens: usize) -> usize {
    if tokens + 1 < 8 { (tokens + 1) as usize } else { 8 }
}

/// `r` is `state` after the player gave up the card at `target` and drew the next card:
/// the hand loses the card and gains the next order at its front, the count of turns
/// left or of cards left goes down, and the deck holds the drawn card (the given one,
/// or an unknown one) where it did not show the next card yet.
pub open spec fn drew_after(state: State, r: State, player_index: int, target: usize, draw: Option<Card>) -> bool {
    let order = state.card_order;
    &&& r.hands@.len() == state.hands@.len()
    &&& forall|p: int| 0 <= p < state.hands@.len() && p != player_index ==> #[trigger] r.hands@[p] == state.hands@[p]
    &&& r.hands@[player_index]@ == seq![order] + state.hands@[player_index]@.filter(other_than(target))
    &&& match state.endgame_turns {
        Some(t) => {
            &&& r.endgame_turns == Some((t - 1) as usize)
            &&& r.card_order == order
            &&& r.cards_left == state.cards_left
        },
        None => {
            &&& r.card_order == order + 1
            &&& r.cards_left == state.cards_left - 1
            &&& r.endgame_turns == if state.cards_left == 1 { Some(state.num_players) } else { None }
        },
    }
    &&& if order < state.deck@.len() && state.deck@[order as int].base is Some {
        r.deck@ == state.deck@
    } else {
        let k = if order < state.deck@.len() { order as int } else { state.deck@.len() as int };
        &&& r.deck@.len() == if order < state.deck@.len() { state.deck@.len() } else { state.deck@.len() + 1 }
        &&& forall|j: int| 0 <= j < state.deck@.len() && j != k ==> #[trigger] r.deck@[j] == state.deck@[j]
        &&& match draw {
            Some(c) => r.deck@[k] == c,
            None => fresh_card(r.deck@[k], None, order, state.turn_count),
        }
    }
}

/// The state after a player takes an action, in a search that looks ahead: a play lands
/// on its stack or strikes and is discarded, a discard regains a token, a clue spends
/// one, and after a play or a discard the player draws `draw`, or an unknown card,
/// where the deck does not show the next card.
pub fn advance_state(state: State, action: &PerformAction, player_index: usize, draw: Option<Card>) -> (r: State)
    requires
        advance_ok(state, *action, player_index),
    ensures
        r.turn_count == state.turn_count + 1,
        r.variant == state.variant,
        r.num_players == state.num_players,
        r.player_names == state.player_names,
        r.our_player_index == state.our_player_index,
        r.max_ranks == state.max_ranks,
        r.card_count == state.card_count,
        r.current_player_index == state.current_player_index,
        r.play_stacks@.len() == state.play_stacks@.len(),
        forall|s: int| 0 <= s < state.play_stacks@.len() ==> #[trigger] r.play_stacks@[s] >= state.play_stacks@[s],
        match *action {
            PerformAction::Play { target } => {
                let id = state.deck@[target as int].base;
                let landed = lands(state, target as int);
                &&& r.play_stacks@ == if landed { state.play_stacks@.update(id.unwrap().suit_index as int, id.unwrap().rank) } else { state.play_stacks@ }
                &&& r.clue_tokens == if landed && id.unwrap().rank == 5 { regained(state.clue_tokens) } else { state.clue_tokens }
                &&& r.strikes == if landed { state.strikes } else { (state.strikes + 1) as u8 }
                &&& r.discard_stacks@.len() == state.discard_stacks@.len()
                &&& forall|s: int| 0 <= s < state.discard_stacks@.len() ==> #[trigger] r.discard_stacks@[s]@ ==
                    if !landed && (id matches Some(x) && x.suit_index == s) {
                        state.discard_stacks@[s]@.update(id.unwrap().rank - 1, (state.discard_stacks@[s]@[id.unwrap().rank - 1] + 1) as usize)
                    } else {
                        state.discard_stacks@[s]@
                    }
                &&& drew_after(state, r, player_index as int, target, draw)
            },
            PerformAction::Discard { target } => {
                let id = state.deck@[target as int].base;
                &&& r.play_stacks@ == state.play_stacks@
                &&& r.clue_tokens == regained(state.clue_tokens)
                &&& r.strikes == state.strikes
                &&& r.discard_stacks@.len() == state.discard_stacks@.len()
                &&& forall|s: int| 0 <= s < state.discard_stacks@.len() ==> #[trigger] r.discard_stacks@[s]@ ==
                    if id matches Some(x) && x.suit_index == s {
                        state.discard_stacks@[s]@.update(id.unwrap().rank - 1, (state.discard_stacks@[s]@[id.unwrap().rank - 1] + 1) as usize)
                    } else {
                        state.discard_stacks@[s]@
                    }
                &&& drew_after(state, r, player_index as int, target, draw)
            },
            PerformAction::Colour { .. } | PerformAction::Rank { .. } => {
                &&& r.play_stacks@ == state.play_stacks@
                &&& r.discard_stacks@ == state.discard_stacks@
                &&& r.clue_tokens == state.clue_tokens - 1
                &&& r.strikes == state.strikes
                &&& r.hands@ == state.hands@
                &&& r.deck@ == state.deck@
                &&& r.card_order == state.card_order
                &&& r.cards_left == state.cards_left
                &&& r.endgame_turns == match state.endgame_turns {
                    Some(t) => Some((t - 1) as usize),
                    None => None,
                }
            },
            PerformAction::Terminate { .. } => {
                &&& r.play_stacks@ == state.play_stacks@
                &&& r.discard_stacks@ == state.discard_stacks@
                &&& r.clue_tokens == state.clue_tokens
                &&& r.strikes == state.strikes
                &&& r.hands@ == state.hands@
                &&& r.deck@ == state.deck@
                &&& r.card_order == state.card_order
                &&& r.cards_left == state.cards_left
                &&& r.endgame_turns == state.endgame_turns
            },
        },
{
    let ghost old_state = state;
    let turn = state.turn_count;
    let mut new_state = state;
    new_state.turn_count = new_state.turn_count + 1;
    match action {
        PerformAction::Play { target } | PerformAction::Discard { target } => {
            let target = *target;
            let is_play = match action {
                PerformAction::Play { .. } => true,
                _ => false,
            };
            match new_state.deck[target].base {
                None => {
                    if is_play {
                        new_state.strikes = new_state.strikes + 1;
                    }
                },
                Some(id) => {
                    proof {
                        assert(old_state.id_ok(id));
                    }
                    let landed = is_play && new_state.play_stacks[id.suit_index] + 1 == id.rank;
                    if landed {
                        new_state.play_stacks.set(id.suit_index, id.rank);
                        if id.rank == 5 {
                            new_state.clue_tokens = if new_state.clue_tokens + 1 < 8 { new_state.clue_tokens + 1 } else { 8 };
                        }
                    } else {
                        if is_play {
                            new_state.strikes = new_state.strikes + 1;
                        }
                        let count = new_state.discard_stacks[id.suit_index][id.rank - 1] + 1;
                        new_state.discard_stacks[id.suit_index].set(id.rank - 1, count);
                    }
                },
            }
            if !is_play {
                new_state.clue_tokens = if new_state.clue_tokens + 1 < 8 { new_state.clue_tokens + 1 } else { 8 };
            }
            // The player gives up the card and draws the next one.
            let order = new_state.card_order;
            let mut hand = without(&new_state.hands[player_index], target);
            hand.insert(0, order);
            new_state.hands.set(player_index, hand);
            proof {
                assert(other_than(target) =~= (|o: usize| o != target));
                assert(new_state.hands@[player_index as int]@ =~= seq![order] + old_state.hands@[player_index as int]@.filter(other_than(target)));
            }
            match new_state.endgame_turns {
                Some(t) => {
                    new_state.endgame_turns = Some(t - 1);
                },
                None => {
                    new_state.card_order = order + 1;
                    new_state.cards_left = new_state.cards_left - 1;
                    if new_state.cards_left == 0 {
                        new_state.endgame_turns = Some(new_state.num_players);
                    }
                },
            }
            let shown = order < new_state.deck.len() && new_state.deck[order].base.is_some();
            if !shown {
                let card = match draw {
                    Some(c) => c,
                    None => Card::new(None, order, turn),
                };
                if order < new_state.deck.len() {
                    new_state.deck.set(order, card);
                } else {
                    new_state.deck.push(card);
                }
            }
        },
        PerformAction::Colour { .. } | PerformAction::Rank { .. } => {
            new_state.clue_tokens = new_state.clue_tokens - 1;
            new_state.endgame_turns = match new_state.endgame_turns {
                Some(t) => Some(t - 1),
                None => None,
            };
        },
        PerformAction::Terminate { .. } => {},
    }
    new_state
}

/// How many cards of the hand the deck shows as the identity.
pub open spec fn copies_in(state: State, hand: Seq<usize>, id: Identity) -> nat {
    hand.filter(|o: usize| state.deck@[o as int].base == Some(id)).len()
}

/// The hand holds every copy of the identity that is left, and the identity is still
/// needed: each of those copies must be played.
pub open spec fn must_play(state: State, hand: Seq<usize>, id: Identity) -> bool {
    &&& copies_in(state, hand, id) >= 1
    &&& !state.is_basic_trash_spec(id)
    &&& state.card_count_spec(id) - state.base_count_spec(id) == copies_in(state, hand, id)
}

/// The identities that the hand must play: those of which it holds, as the deck shows,
/// every copy left, and that are not yet trash. Each comes once, in the order of the
/// hand.
pub fn find_must_plays(state: &State, hand: &[usize]) -> (r: Vec<Identity>)
    requires
        state.wf(),
        state.consistent(),
        forall|i: int| 0 <= i < hand@.len() ==> #[trigger] hand@[i] < state.deck@.len(),
    ensures
        r@.no_duplicates(),
        forall|id: Identity| r@.contains(id) <==> must_play(*state, hand@, id),
{
    let mut r: Vec<Identity> = Vec::new();
    let mut seen: Vec<Identity> = Vec::new();
    let mut i: usize = 0;
    while i < hand.len()
        invariant
            state.wf(),
            state.consistent(),
            forall|i: int| 0 <= i < hand@.len() ==> #[trigger] hand@[i] < state.deck@.len(),
            i <= hand@.len(),
            r@.no_duplicates(),
            forall|id: Identity| #[trigger] seen@.contains(id) <==> exists|j: int| 0 <= j < i && state.deck@[hand@[j] as int].base == Some(id),
            forall|id: Identity| #[trigger] r@.contains(id) <==> seen@.contains(id) && must_play(*state, hand@, id),
        decreases hand@.len() - i,
    {
        let order = hand[i];
        match state.deck[order].base {
            None => {
                proof {
                    assert forall|id: Identity| #[trigger] seen@.contains(id) <==> exists|j: int| 0 <= j < i + 1 && state.deck@[hand@[j] as int].base == Some(id) by {
                        if exists|j: int| 0 <= j < i + 1 && state.deck@[hand@[j] as int].base == Some(id) {
                            let j = choose|j: int| 0 <= j < i + 1 && state.deck@[hand@[j] as int].base == Some(id);
                            assert(j != i);
                        }
                    }
                }
            },
            Some(id) => {
                if !has_id(&seen, id) {
                    proof {
                        assert(state.id_ok(id));
                    }
                    let copies = count_shown(state, hand, id);
                    let total = state.card_count(id);
                    proof {
                        assert(state.base_count_spec(id) <= state.card_count_spec(id));
                    }
                    let base = state.base_count(id);
                    let ghost prev_r = r@;
                    let ghost prev_seen = seen@;
                    if !state.is_basic_trash(id) && total - base == copies {
                        r.push(id);
                        proof {
                            assert(!prev_r.contains(id));
                        }
                    }
                    seen.push(id);
                    proof {
                        assert(copies_in(*state, hand@, id) >= 1) by {
                            crate::text::lemma_filter_nonempty(hand@, |o: usize| state.deck@[o as int].base == Some(id));
                            assert(hand@[i as int] == order);
                        }
                        assert forall|x: Identity| #[trigger] seen@.contains(x) <==> exists|j: int| 0 <= j < i + 1 && state.deck@[hand@[j] as int].base == Some(x) by {
                            if seen@.contains(x) && x != id {
                                assert(prev_seen.contains(x)) by {
                                    let k = choose|k: int| 0 <= k < seen@.len() && seen@[k] == x;
                                    assert(k < prev_seen.len());
                                    assert(prev_seen[k] == x);
                                }
                            }
                            if x == id {
                                assert(state.deck@[hand@[i as int] as int].base == Some(x));
                                assert(seen@[prev_seen.len() as int] == id);
                            }
                            if exists|j: int| 0 <= j < i && state.deck@[hand@[j] as int].base == Some(x) {
                                assert(prev_seen.contains(x));
                                let k = choose|k: int| 0 <= k < prev_seen.len() && prev_seen[k] == x;
                                assert(seen@[k] == x);
                            }
                        }
                        assert forall|x: Identity| #[trigger] r@.contains(x) <==> seen@.contains(x) && must_play(*state, hand@, x) by {
                            if r@.contains(x) && x != id {
                                let k = choose|k: int| 0 <= k < r@.len() && r@[k] == x;
                                assert(k < prev_r.len());
                                assert(prev_r.contains(x));
                            }
                            if prev_r.contains(x) {
                                let k = choose|k: int| 0 <= k < prev_r.len() && prev_r[k] == x;
                                assert(r@[k] == x);
                            }
                            if prev_seen.contains(x) {
                                let k = choose|k: int| 0 <= k < prev_seen.len() && prev_seen[k] == x;
                                assert(seen@[k] == x);
                            }
                            if x == id && must_play(*state, hand@, x) {
                                assert(r@[prev_r.len() as int] == id);
                            }
                            if seen@.contains(x) && x != id {
                                let k = choose|k: int| 0 <= k < seen@.len() && seen@[k] == x;
                                assert(k < prev_seen.len());
                                assert(prev_seen.contains(x));
                            }
                        }
                    }
                } else {
                    proof {
                        assert forall|x: Identity| #[trigger] seen@.contains(x) <==> exists|j: int| 0 <= j < i + 1 && state.deck@[hand@[j] as int].base == Some(x) by {
                            if exists|j: int| 0 <= j < i + 1 && state.deck@[hand@[j] as int].base == Some(x) {
                                let j = choose|j: int| 0 <= j < i + 1 && state.deck@[hand@[j] as int].base == Some(x);
                                if j == i {
                                    assert(x == id);
                                }
                            }
                        }
                    }
                }
            },
        }
        i += 1;
    }
    proof {
        assert forall|id: Identity| must_play(*state, hand@, id) implies #[trigger] r@.contains(id) by {
            crate::text::lemma_filter_nonempty(hand@, |o: usize| state.deck@[o as int].base == Some(id));
            let j = choose|j: int| 0 <= j < hand@.len() && state.deck@[hand@[j] as int].base == Some(id);
            assert(seen@.contains(id));
        }
    }
    r
}

/// Whether the identity is in the list.
fn has_id(list: &Vec<Identity>, id: Identity) -> (r: bool)
    ensures
        r == list@.contains(id),
{
    let mut i: usize = 0;
    while i < list.len()
        invariant
            i <= list@.len(),
            forall|j: int| 0 <= j < i ==> list@[j] != id,
        decreases list@.len() - i,
    {
        if list[i].suit_index == id.suit_index && list[i].rank == id.rank {
            proof {
                assert(list@[i as int] == id);
            }
            return true;
        }
        i += 1;
    }
    false
}

/// How many cards of the hand the deck shows as the identity.
fn count_shown(state: &State, hand: &[usize], id: Identity) -> (r: usize)
    requires
        forall|i: int| 0 <= i < hand@.len() ==> #[trigger] hand@[i] < state.deck@.len(),
    ensures
        r == copies_in(*state, hand@, id),
{
    let ghost f = |o: usize| state.deck@[o as int].base == Some(id);
    let mut n: usize = 0;
    let mut i: usize = 0;
    while i < hand.len()
        invariant
            forall|i: int| 0 <= i < hand@.len() ==> #[trigger] hand@[i] < state.deck@.len(),
            f == (|o: usize| state.deck@[o as int].base == Some(id)),
            i <= hand@.len(),
            n == hand@.take(i as int).filter(f).len(),
            n <= i,
        decreases hand@.len() - i,
    {
        proof {
            assert(hand@.take(i + 1) =~= hand@.take(i as int).push(hand@[i as int]));
            hand@.take(i as int).lemma_filter_push(hand@[i as int], f);
        }
        match state.deck[hand[i]].base {
            Some(x) => {
                if x.suit_index == id.suit_index && x.rank == id.rank {
                    n += 1;
                }
            },
            None => {},
        }
        i += 1;
    }
    proof {
        assert(hand@.take(hand@.len() as int) =~= hand@);
    }
    n
}

/// The player whose turn it is, who looks at the cards.
pub open spec fn viewer(game: Game) -> crate::basics::player::Player {
    game.players@[game.state.current_player_index as int]
}

/// The card's identity as the viewer knows it for certain.
pub open spec fn certain_of(game: Game, o: usize) -> Option<Identity> {
    viewer(game).thoughts@[o as int].identity_spec(IdOptions { infer: false, symmetric: false })
}

/// The card's identity as the viewer knows or infers it.
pub open spec fn inferred_of(game: Game, o: usize) -> Option<Identity> {
    viewer(game).thoughts@[o as int].identity_spec(IdOptions { infer: true, symmetric: false })
}

/// How many cards of the hand the viewer knows for certain to be the identity.
pub open spec fn shown_in(game: Game, hand: Seq<usize>, id: Identity) -> nat {
    hand.filter(|o: usize| certain_of(game, o) == Some(id)).len()
}

/// How many cards of the first `p` hands the viewer knows for certain to be the identity.
pub open spec fn seen_upto(game: Game, id: Identity, p: int) -> nat
    decreases p,
{
    if p <= 0 {
        0
    } else {
        seen_upto(game, id, p - 1) + shown_in(game, game.state.hands@[p - 1]@, id)
    }
}

/// The cards of our hand that the viewer does not know but infers to be the identity.
pub open spec fn guessed(game: Game, id: Identity) -> Seq<usize> {
    game.state.hands@[game.state.our_player_index as int]@.filter(|o: usize| certain_of(game, o) is None && inferred_of(game, o) == Some(id))
}

/// The inferences would make more copies of the identity than the deck holds.
pub open spec fn too_many(game: Game, id: Identity) -> bool {
    seen_upto(game, id, game.state.num_players as int) + guessed(game, id).len() + game.state.base_count_spec(id) > game.state.card_count_spec(id)
}

/// The copies of the identity that the viewer accounts for in the hands: those known,
/// and those inferred where they do not make too many.
pub open spec fn seen_total(game: Game, id: Identity) -> int {
    seen_upto(game, id, game.state.num_players as int) + if too_many(game, id) { 0int } else { guessed(game, id).len() as int }
}

/// The copies of the identity that are neither played, discarded nor accounted for.
pub open spec fn missing_of(game: Game, id: Identity) -> int {
    game.state.card_count_spec(id) - game.state.base_count_spec(id) - seen_total(game, id)
}

/// The identities (by position) below `k` with copies missing, and how many.
pub open spec fn remaining_upto(game: Game, k: int) -> Map<usize, RemainingEntry> {
    Map::new(
        |key: usize| key < k && missing_of(game, Identity::of_ord(key as int)) > 0,
        |key: usize| RemainingEntry {
            missing: missing_of(game, Identity::of_ord(key as int)) as usize,
            all: missing_of(game, Identity::of_ord(key as int)) == game.state.card_count_spec(Identity::of_ord(key as int)),
        },
    )
}

/// Our cards that need no inference: known for certain, or not inferred at all.
pub open spec fn own_plain(game: Game) -> Seq<(usize, Option<Identity>)> {
    game.state.hands@[game.state.our_player_index as int]@.filter(|o: usize| certain_of(game, o) is Some || inferred_of(game, o) is None)
        .map_values(|o: usize| (o, certain_of(game, o)))
}

/// Our inferred cards, identity by identity up to position `k`: each with its inferred
/// identity, or with none where the inferences make too many.
pub open spec fn own_guessed(game: Game, k: int) -> Seq<(usize, Option<Identity>)>
    decreases k,
{
    if k <= 0 {
        Seq::empty()
    } else {
        let id = Identity::of_ord(k - 1);
        own_guessed(game, k - 1) + guessed(game, id).map_values(|o: usize| (o, if too_many(game, id) { None } else { Some(id) }))
    }
}

/// The counts never go below zero: no identity has more copies played, discarded and
/// known in the hands than the deck holds.
pub open spec fn counts_fit(game: Game) -> bool {
    forall|id: Identity| #[trigger] game.state.id_ok(id) ==> game.state.base_count_spec(id) + seen_upto(game, id, game.state.num_players as int) <= game.state.card_count_spec(id)
}

proof fn lemma_seen_mono(game: Game, id: Identity, p: int, q: int)
    requires
        0 <= p <= q,
    ensures
        seen_upto(game, id, p) <= seen_upto(game, id, q),
    decreases q - p,
{
    if p < q {
        lemma_seen_mono(game, id, p, q - 1);
    }
}

/// How many cards of the first `p` hands the viewer knows for certain to be the identity.
fn count_seen(game: &Game, id: Identity) -> (r: usize)
    requires
        game.wf(),
        game.state.current_player_index < game.players@.len(),
        seen_upto(*game, id, game.state.num_players as int) <= 3,
    ensures
        r == seen_upto(*game, id, game.state.num_players as int),
{
    let state = &game.state;
    let me = game.me();
    proof {
        assert(viewer(*game).wf(game.state));
    }
    let mut total: usize = 0;
    let mut p: usize = 0;
    while p < state.num_players
        invariant
            game.wf(),
            *state == game.state,
            game.state.current_player_index < game.players@.len(),
            *me == viewer(*game),
            me.thoughts@.len() == game.state.deck@.len(),
            seen_upto(*game, id, game.state.num_players as int) <= 3,
            p <= state.num_players,
            total == seen_upto(*game, id, p as int),
        decreases state.num_players - p,
    {
        let hand = &state.hands[p];
        let ghost f = |o: usize| certain_of(*game, o) == Some(id);
        let mut c: usize = 0;
        let mut i: usize = 0;
        proof {
            lemma_seen_mono(*game, id, p + 1, game.state.num_players as int);
        }
        while i < hand.len()
            invariant
                game.wf(),
                *me == viewer(*game),
                me.thoughts@.len() == game.state.deck@.len(),
                p < game.state.hands@.len(),
                *hand == game.state.hands@[p as int],
                f == (|o: usize| certain_of(*game, o) == Some(id)),
                i <= hand@.len(),
                c == hand@.take(i as int).filter(f).len(),
                total + hand@.filter(f).len() <= 3,
            decreases hand@.len() - i,
        {
            let o = hand[i];
            proof {
                assert(hand@.take(i + 1) =~= hand@.take(i as int).push(o));
                hand@.take(i as int).lemma_filter_push(o, f);
                assert(o < game.state.deck@.len());
                assert(hand@.take(i + 1).filter(f).len() <= hand@.filter(f).len()) by {
                    lemma_filter_prefix_len(hand@, f, i + 1);
                }
            }
            let known = me.thoughts[o].id();
            match known {
                Some(x) => {
                    if x.suit_index == id.suit_index && x.rank == id.rank {
                        c += 1;
                    }
                },
                None => {},
            }
            i += 1;
        }
        proof {
            assert(hand@.take(hand@.len() as int) =~= hand@);
        }
        total = total + c;
        p += 1;
    }
    total
}

/// A filter of a prefix keeps no more than the filter of the whole.
proof fn lemma_filter_prefix_len(s: Seq<usize>, f: spec_fn(usize) -> bool, n: int)
    requires
        0 <= n <= s.len(),
    ensures
        s.take(n).filter(f).len() <= s.filter(f).len(),
    decreases s.len() - n,
{
    if n < s.len() {
        lemma_filter_prefix_len(s, f, n + 1);
        assert(s.take(n + 1) =~= s.take(n).push(s[n]));
        s.take(n).lemma_filter_push(s[n], f);
    } else {
        assert(s.take(n) =~= s);
    }
}

/// The cards of our hand that the viewer does not know but infers to be the identity.
fn guessed_orders(game: &Game, id: Identity) -> (r: Vec<usize>)
    requires
        game.wf(),
        game.state.current_player_index < game.players@.len(),
        game.state.our_player_index < game.state.num_players,
    ensures
        r@ == guessed(*game, id),
{
    let state = &game.state;
    let me = game.me();
    let hand = &state.hands[state.our_player_index];
    let ghost f = |o: usize| certain_of(*game, o) is None && inferred_of(*game, o) == Some(id);
    let inferred = IdOptions { infer: true, symmetric: false };
    proof {
        assert(viewer(*game).wf(game.state));
    }
    let mut r: Vec<usize> = Vec::new();
    let mut i: usize = 0;
    while i < hand.len()
        invariant
            game.wf(),
            *me == viewer(*game),
            me.thoughts@.len() == game.state.deck@.len(),
            *hand == game.state.hands@[game.state.our_player_index as int],
            game.state.our_player_index < game.state.hands@.len(),
            inferred == (IdOptions { infer: true, symmetric: false }),
            f == (|o: usize| certain_of(*game, o) is None && inferred_of(*game, o) == Some(id)),
            i <= hand@.len(),
            r@ == hand@.take(i as int).filter(f),
        decreases hand@.len() - i,
    {
        let o = hand[i];
        proof {
            assert(hand@.take(i + 1) =~= hand@.take(i as int).push(o));
            hand@.take(i as int).lemma_filter_push(o, f);
            assert(o < game.state.deck@.len());
        }
        let known = me.thoughts[o].id();
        if known.is_none() {
            match me.thoughts[o].identity(&inferred) {
                Some(x) => {
                    if x.suit_index == id.suit_index && x.rank == id.rank {
                        r.push(o);
                    }
                },
                None => {},
            }
        }
        i += 1;
    }
    proof {
        assert(hand@.take(hand@.len() as int) =~= hand@);
    }
    r
}

/// What the viewer can tell of the cards still to come, for the endgame: each identity
/// (by position) with copies neither played, discarded nor accounted for in the hands,
/// how many, and whether that is every copy; and each card of our hand with the
/// identity we know or infer for it (none where unknown, or where the inferences make
/// too many copies), first the cards that need no inference in hand order, then the
/// inferred ones identity by identity.
pub fn find_remaining_ids(game: &Game) -> (r: (HashMap<usize, RemainingEntry>, Vec<(usize, Option<Identity>)>))
    requires
        game.wf(),
        game.state.consistent(),
        game.state.current_player_index < game.players@.len(),
        game.state.our_player_index < game.state.num_players,
        counts_fit(*game),
    ensures
        r.0@ == remaining_upto(*game, 5 * game.state.num_suits() as int),
        r.1@ == own_plain(*game) + own_guessed(*game, 5 * game.state.num_suits() as int),
{
    let state = &game.state;
    let me = game.me();
    let hand = &state.hands[state.our_player_index];
    let plain = IdOptions { infer: false, symmetric: false };
    let inferred = IdOptions { infer: true, symmetric: false };
    let ghost fp = |o: usize| certain_of(*game, o) is Some || inferred_of(*game, o) is None;
    let ghost mp = |o: usize| (o, certain_of(*game, o));
    proof {
        assert(viewer(*game).wf(game.state));
    }
    let mut own: Vec<(usize, Option<Identity>)> = Vec::new();
    let mut i: usize = 0;
    while i < hand.len()
        invariant
            game.wf(),
            *me == viewer(*game),
            me.thoughts@.len() == game.state.deck@.len(),
            *hand == game.state.hands@[game.state.our_player_index as int],
            game.state.our_player_index < game.state.hands@.len(),
            plain == (IdOptions { infer: false, symmetric: false }),
            inferred == (IdOptions { infer: true, symmetric: false }),
            fp == (|o: usize| certain_of(*game, o) is Some || inferred_of(*game, o) is None),
            mp == (|o: usize| (o, certain_of(*game, o))),
            i <= hand@.len(),
            own@ == hand@.take(i as int).filter(fp).map_values(mp),
        decreases hand@.len() - i,
    {
        let o = hand[i];
        proof {
            assert(hand@.take(i + 1) =~= hand@.take(i as int).push(o));
            hand@.take(i as int).lemma_filter_push(o, fp);
            assert(o < game.state.deck@.len());
        }
        let known = me.thoughts[o].identity(&plain);
        let guess = me.thoughts[o].identity(&inferred);
        if known.is_some() || guess.is_none() {
            let ghost before = own@;
            own.push((o, known));
            proof {
                assert(own@ =~= hand@.take(i + 1).filter(fp).map_values(mp));
            }
        }
        i += 1;
    }
    proof {
        assert(hand@.take(hand@.len() as int) =~= hand@);
    }
    let n = state.variant.suits.len();
    let mut remaining: HashMap<usize, RemainingEntry> = HashMap::new();
    let ghost plain_part = own@;
    let mut k: usize = 0;
    while k < 5 * n
        invariant
            game.wf(),
            *state == game.state,
            game.state.consistent(),
            game.state.current_player_index < game.players@.len(),
            game.state.our_player_index < game.state.num_players,
            counts_fit(*game),
            n == game.state.num_suits(),
            5 * n <= usize::BITS,
            k <= 5 * n,
            plain_part == own_plain(*game),
            own@ == plain_part + own_guessed(*game, k as int),
            remaining@ == remaining_upto(*game, k as int),
        decreases 5 * n - k,
    {
        let id = Identity::from_ord(k);
        proof {
            crate::basics::card::lemma_of_ord_valid(k as int);
            assert(id.suit_index < n) by (nonlinear_arith)
                requires id.suit_index == k / 5, k < 5 * n;
            assert(game.state.id_ok(id));
            assert(game.state.base_count_spec(id) + seen_upto(*game, id, game.state.num_players as int) <= game.state.card_count_spec(id));
            assert(game.state.base_count_spec(id) <= game.state.card_count_spec(id));
        }
        let total = state.card_count(id);
        let base = state.base_count(id);
        let seen = count_seen(game, id);
        let guesses = guessed_orders(game, id);
        let room = total - base - seen;
        let over = guesses.len() > room;
        let ghost g = |o: usize| (o, if too_many(*game, id) { None } else { Some(id) });
        let mut j: usize = 0;
        let ghost own_before = own@;
        while j < guesses.len()
            invariant
                over == too_many(*game, id),
                g == (|o: usize| (o, if too_many(*game, id) { None } else { Some(id) })),
                j <= guesses@.len(),
                own@ == own_before + guesses@.take(j as int).map_values(g),
            decreases guesses@.len() - j,
        {
            let value = if over { None } else { Some(id) };
            own.push((guesses[j], value));
            proof {
                assert(guesses@.take(j + 1) =~= guesses@.take(j as int).push(guesses@[j as int]));
                assert(own@ =~= own_before + guesses@.take(j + 1).map_values(g));
            }
            j += 1;
        }
        proof {
            assert(guesses@.take(guesses@.len() as int) =~= guesses@);
            assert(own_guessed(*game, k + 1) == own_guessed(*game, k as int) + guessed(*game, id).map_values(g));
            assert(own@ =~= plain_part + own_guessed(*game, k + 1));
        }
        let accounted = if over { seen } else { seen + guesses.len() };
        let missing = total - base - accounted;
        if missing > 0 {
            remaining.insert(k, RemainingEntry { missing, all: missing == total });
        }
        proof {
            assert(missing == missing_of(*game, id));
            assert(remaining@ =~= remaining_upto(*game, k + 1));
        }
        k += 1;
    }
    (remaining, own)
}

/// A chance of winning, as a fraction.
#[derive(Debug, Clone, Copy, PartialEq, Eq, Structural)]
pub struct WinRate {
    pub num: u64,
    pub den: u64,
}

/// The first card of the player's hand that they think is playable now.
pub open spec fn first_playable(game: Game, p: int) -> Option<usize> {
    let f = game.state.hands@[p]@.filter(|o: usize| game.players@[p].playable_order(game.frame_spec(), o));
    if f.len() > 0 { Some(f[0]) } else { None }
}

/// The play stacks after `k` turns from the player's, each player playing the first card
/// they think playable where the deck shows what it is.
pub open spec fn trivial_stacks(game: Game, player_turn: int, k: int) -> Seq<usize>
    decreases k,
{
    if k <= 0 {
        game.state.play_stacks@
    } else {
        let prev = trivial_stacks(game, player_turn, k - 1);
        let p = (player_turn + k - 1) % (game.state.num_players as int);
        match first_playable(game, p) {
            Some(o) => match game.state.deck@[o as int].base {
                Some(id) => prev.update(id.suit_index as int, id.rank),
                None => prev,
            },
            None => prev,
        }
    }
}

/// The action that starts such a run: the player's first card they think playable
/// where the deck shows it and a turn is left, else their card in slot 1.
pub open spec fn trivial_action(game: Game, player_turn: int, turns: int) -> PerformAction {
    if turns > 0 && (first_playable(game, player_turn) matches Some(o) && game.state.deck@[o as int].base is Some) {
        PerformAction::Play { target: first_playable(game, player_turn).unwrap() }
    } else {
        PerformAction::Discard { target: game.state.hands@[player_turn]@[0] }
    }
}

/// The final round has begun and every card still needed is played if each player in
/// turn plays what they think playable.
pub open spec fn trivially_won(game: Game, player_turn: int) -> bool {
    &&& game.state.endgame_turns matches Some(t)
    &&& game.state.max_score_spec() - game.state.score_spec() <= t
    &&& crate::basics::state::sum_of(trivial_stacks(game, player_turn, t as int)) == game.state.max_score_spec()
}

/// Whether the final round is won just by everyone playing what they know is playable:
/// the first action of that run, with certainty, or an empty error.
pub fn trivially_winnable(game: &Game, player_turn: usize) -> (r: Result<(Vec<PerformAction>, WinRate), &'static str>)
    requires
        game.wf(),
        game.state.consistent(),
        player_turn < game.state.num_players,
        game.state.score_spec() <= game.state.max_score_spec(),
        game.state.endgame_turns matches Some(t) ==> player_turn + t <= usize::MAX,
        game.state.hands@[player_turn as int]@.len() > 0,
    ensures
        match r {
            Ok((actions, rate)) => trivially_won(*game, player_turn as int)
                && actions@ == seq![trivial_action(*game, player_turn as int, game.state.endgame_turns.unwrap() as int)]
                && rate == (WinRate { num: 1, den: 1 }),
            Err(e) => !trivially_won(*game, player_turn as int) && e@ == ""@,
        },
{
    let state = &game.state;
    let turns = match state.endgame_turns {
        None => {
            return Err("");
        },
        Some(t) => t,
    };
    if state.rem_score() > turns {
        return Err("");
    }
    let frame = game.frame();
    let mut play_stacks = state.play_stacks.clone();
    let mut action = PerformAction::Discard { target: state.hands[player_turn][0] };
    let ghost n = state.num_players;
    let mut i: usize = 0;
    proof {
        assert(play_stacks@ == trivial_stacks(*game, player_turn as int, 0));
    }
    while i < turns
        invariant
            game.wf(),
            game.state.consistent(),
            *state == game.state,
            frame == game.frame_spec(),
            player_turn < game.state.num_players,
            game.state.endgame_turns == Some(turns),
            player_turn + turns <= usize::MAX,
            game.state.hands@[player_turn as int]@.len() > 0,
            i <= turns,
            play_stacks@ == trivial_stacks(*game, player_turn as int, i as int),
            play_stacks@.len() == game.state.num_suits(),
            forall|s: int| 0 <= s < play_stacks@.len() ==> play_stacks@[s] <= 5,
            action == if i > 0 { trivial_action(*game, player_turn as int, turns as int) } else {
                PerformAction::Discard { target: game.state.hands@[player_turn as int]@[0] }
            },
        decreases turns - i,
    {
        let p = (player_turn + i) % state.num_players;
        proof {
            if i == 0 {
                vstd::arithmetic::div_mod::lemma_small_mod(player_turn as nat, game.state.num_players as nat);
            }
        }
        let playables = game.players[p].thinks_playables(&frame, p);
        proof {
            assert(game.players@[p as int].wf(game.state));
            let f = |o: usize| game.players@[p as int].playable_order(game.frame_spec(), o);
            assert(playables@ == game.state.hands@[p as int]@.filter(f));
        }
        if playables.len() != 0 {
            let o = playables[0];
            proof {
                let hand = game.state.hands@[p as int]@;
                let f = |o: usize| game.players@[p as int].playable_order(game.frame_spec(), o);
                assert(hand.filter(f)[0] == o);
                assert(hand.filter(f).contains(o));
                hand.lemma_filter_contains_rev(f, o);
                let k = choose|k: int| 0 <= k < hand.len() && hand[k] == o;
                assert(game.state.hands@[p as int]@[k] < game.state.deck@.len());
            }
            match state.deck[o].base {
                None => {},
                Some(id) => {
                    proof {
                        assert(game.state.id_ok(id));
                    }
                    if i == 0 {
                        action = PerformAction::Play { target: o };
                    }
                    play_stacks.set(id.suit_index, id.rank);
                },
            }
        }
        i += 1;
    }
    proof {
        if turns == 0 {
            assert(action == trivial_action(*game, player_turn as int, turns as int));
        }
    }
    if sum_stacks_of(&play_stacks) == state.max_score() {
        let mut actions: Vec<PerformAction> = Vec::new();
        actions.push(action);
        proof {
            assert(actions@ =~= seq![trivial_action(*game, player_turn as int, turns as int)]);
        }
        Ok((actions, WinRate { num: 1, den: 1 }))
    } else {
        Err("")
    }
}

/// The sum of the stacks.
fn sum_stacks_of(stacks: &Vec<usize>) -> (r: usize)
    requires
        forall|s: int| 0 <= s < stacks@.len() ==> stacks@[s] <= 5,
        5 * stacks@.len() <= usize::BITS,
    ensures
        r == crate::basics::state::sum_of(stacks@),
{
    crate::basics::state::sum_stacks(stacks)
}

} // verus!

verus! {

/// The index of the first card of our hand, from `i` on, that the viewer takes (falling
/// back on an inference) to be an identity playable now.
pub open spec fn first_sure_play(game: Game, i: int) -> Option<int>
    decreases game.state.hands@[game.state.our_player_index as int]@.len() - i,
{
    let hand = game.state.hands@[game.state.our_player_index as int]@;
    if i < 0 || i >= hand.len() {
        None
    } else if inferred_of(game, hand[i]) matches Some(id) && game.state.is_playable_spec(id) {
        Some(i)
    } else {
        first_sure_play(game, i + 1)
    }
}

/// Whether the identity at position `k` is still missing, useful, and missing in
/// every copy.
pub open spec fn unfound(game: Game, k: int) -> bool {
    let id = Identity::of_ord(k);
    missing_of(game, id) > 0 && !game.state.is_basic_trash_spec(id) && missing_of(game, id) == game.state.card_count_spec(id)
}

/// How many identities below position `k` are `unfound`.
pub open spec fn unfound_upto(game: Game, k: int) -> nat
    decreases k,
{
    if k <= 0 {
        0
    } else {
        unfound_upto(game, k - 1) + if unfound(game, k - 1) { 1nat } else { 0nat }
    }
}

/// The short forms of the useful identities below position `k` that still have copies
/// missing.
pub open spec fn missing_names(game: Game, k: int) -> Seq<Seq<char>>
    decreases k,
{
    if k <= 0 {
        Seq::empty()
    } else {
        let id = Identity::of_ord(k - 1);
        missing_names(game, k - 1) + if missing_of(game, id) > 0 && !game.state.is_basic_trash_spec(id) {
            seq![game.state.log_id_spec(id)]
        } else {
            Seq::empty()
        }
    }
}

/// More than two useful identities have every copy still missing: the endgame cannot be
/// worked out.
pub open spec fn too_much_unfound(game: Game) -> bool {
    unfound_upto(game, 5 * game.state.num_suits() as int) > 2
}

/// Looks for a winning line in the endgame.
pub struct EndgameSolver {
    pub monte_carlo: bool,
}

impl EndgameSolver {
    pub fn new(monte_carlo: bool) -> (r: Self)
        ensures
            r.monte_carlo == monte_carlo,
    {
        EndgameSolver { monte_carlo }
    }

    /// The move that wins the endgame for the player whose turn it is, with its chance.
    /// One card short of the maximum score, the first card of our hand that we take to be
    /// playable wins for certain. Otherwise the endgame cannot be worked out where more
    /// than two useful identities have every copy still missing, and the error names the
    /// useful identities that are missing. Past these two checks lies a search over the
    /// arrangements of the unknown cards; that search is not part of this solver, which
    /// then answers that it found no winning line.
    pub fn solve_game(&mut self, game: &Game) -> (r: Result<(PerformAction, WinRate), String>)
        requires
            game.wf(),
            game.state.consistent(),
            counts_fit(*game),
            game.state.our_player_index < game.state.num_players,
            game.state.current_player_index < game.state.num_players,
        ensures
            *final(self) == *old(self),
            ({
                let hand = game.state.hands@[game.state.our_player_index as int]@;
                let n = 5 * game.state.num_suits() as int;
                if game.state.score_spec() + 1 == game.state.max_score_spec() && first_sure_play(*game, 0) is Some {
                    r == Ok::<(PerformAction, WinRate), String>((PerformAction::Play { target: hand[first_sure_play(*game, 0).unwrap()] }, WinRate { num: 1, den: 1 }))
                } else if too_much_unfound(*game) {
                    r matches Err(e) && e@ == "couldn't find any "@ + crate::text::joined(missing_names(*game, n), ","@) + "!"@
                } else {
                    r matches Err(e) && e@ == "couldn't find a winning line"@
                }
            }),
    {
        let state = &game.state;
        let our = state.our_player_index;
        if state.score() + 1 == state.max_score() {
            let hand = state.our_hand();
            let me = game.me();
            let mut i: usize = 0;
            while i < hand.len()
                invariant
                    game.wf(),
                    *state == game.state,
                    *hand == game.state.hands@[our as int],
                    our == game.state.our_player_index,
                    our < game.state.num_players,
                    game.state.current_player_index < game.state.num_players,
                    game.state.score_spec() + 1 == game.state.max_score_spec(),
                    *me == viewer(*game),
                    i <= hand@.len(),
                    first_sure_play(*game, 0) == first_sure_play(*game, i as int),
                decreases hand@.len() - i,
            {
                let o = hand[i];
                proof {
                    assert(viewer(*game).wf(game.state));
                    assert(game.state.hands@[our as int]@[i as int] < game.state.deck@.len());
                }
                match me.thoughts[o].identity(&IdOptions { infer: true, symmetric: false }) {
                    Some(id) => {
                        proof {
                            lemma_identity_ok(viewer(*game).thoughts@[o as int], o as int, game.state, IdOptions { infer: true, symmetric: false });
                        }
                        if state.is_playable(id) {
                            proof {
                                assert(inferred_of(*game, hand@[i as int]) == Some(id));
                                assert(first_sure_play(*game, i as int) == Some(i as int));
                                assert(first_sure_play(*game, 0) == Some(i as int));
                                assert(game.state.hands@[game.state.our_player_index as int]@[i as int] == o);
                                assert(game.state.score_spec() + 1 == game.state.max_score_spec());
                            }
                            return Ok((PerformAction::Play { target: o }, WinRate { num: 1, den: 1 }));
                        }
                    },
                    None => {},
                }
                i += 1;
            }
        }
        let (remaining, _own) = find_remaining_ids(game);
        let n = 5 * state.variant.suits.len();
        let mut count: usize = 0;
        let mut names: Vec<String> = Vec::new();
        let mut k: usize = 0;
        while k < n
            invariant
                game.wf(),
                *state == game.state,
                n == 5 * game.state.num_suits(),
                remaining@ == remaining_upto(*game, n as int),
                k <= n,
                count == unfound_upto(*game, k as int),
                count <= k,
                names@.map_values(|p: String| p@) == missing_names(*game, k as int),
            decreases n - k,
        {
            match remaining.get(&k) {
                Some(entry) => {
                    let id = Identity::from_ord(k);
                    if !state.is_basic_trash(id) {
                        names.push(state.log_id(id));
                        if entry.all {
                            count += 1;
                        }
                    }
                },
                None => {},
            }
            k += 1;
        }
        if count > 2 {
            let mut msg = String::from_str("couldn't find any ");
            msg.append(crate::text::join(&names, ",").as_str());
            msg.append("!");
            return Err(msg);
        }
        Err(String::from_str("couldn't find a winning line"))
    }
}

} // verus!
