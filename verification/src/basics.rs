use vstd::prelude::*;

use crate::basics::action::{ClueAction, DiscardAction, DrawAction, PlayAction};
use crate::basics::card::{Card, CardStatus, ConvData, Identity, Thought, first_id, single_of};
use crate::basics::game::frame::Frame;
use crate::basics::player::elim::shrinks;
use crate::basics::clue::{BaseClue, CardClue, ClueKind};
use crate::basics::identity_set::IdentitySet;
use crate::basics::variant::{Variant, all_id_set, id_touched, id_touched_spec, touch_defined};
use crate::basics::player::{in_range, lemma_in_range_ids};
use crate::basics::state::lemma_id_ok_valid;
use crate::basics::game::Game;
use crate::basics::player::{Player, thought_ok, link_ok};
use crate::basics::state::State;

pub mod action;
pub mod card;
pub mod clue;
pub mod clue_result;
pub mod endgame;
pub mod game;
pub mod identity_set;
pub mod player;
pub mod state;
pub mod util;
pub mod validity;
pub mod variant;

verus! {

/// The identity that a draw shows, if the drawer's partners see it.
pub open spec fn drawn_id(action: DrawAction) -> Option<Identity> {
    if action.suit_index != -1 {
        Some(Identity { suit_index: action.suit_index as usize, rank: action.rank as usize })
    } else {
        None
    }
}

/// The fields of the state that only the hands, the deck, the stacks, the tokens and
/// the end of the game change.
pub open spec fn state_frame_same(a: State, b: State) -> bool {
    &&& a.turn_count == b.turn_count
    &&& a.variant == b.variant
    &&& a.all_ids == b.all_ids
    &&& a.player_names@ == b.player_names@
    &&& a.num_players == b.num_players
    &&& a.our_player_index == b.our_player_index
    &&& a.action_list@ == b.action_list@
    &&& a.current_player_index == b.current_player_index
    &&& a.card_count@ == b.card_count@
}

/// Everything but the thoughts is the same.
pub open spec fn player_same_but_thoughts(a: Player, b: Player) -> bool {
    &&& a.player_index == b.player_index
    &&& a.is_common == b.is_common
    &&& a.all_possible == b.all_possible
    &&& a.all_inferred == b.all_inferred
    &&& a.hypo_stacks@ == b.hypo_stacks@
    &&& a.links@ == b.links@
    &&& a.unknown_plays@ == b.unknown_plays@
    &&& a.hypo_plays@ == b.hypo_plays@
}

/// A card is drawn: it goes to the front of the drawer's hand and the end of the deck,
/// everyone gets a thought about it (the drawer's partners see it where it is shown),
/// and the deck shrinks; the last card starts the final round.
pub fn on_draw(game: &mut Game, action: &DrawAction)
    requires
        old(game).wf(),
        action.order == old(game).state.deck@.len(),
        action.order + 6 <= usize::MAX,
        action.order == old(game).state.card_order,
        action.order <= old(game).deck_ids@.len(),
        action.player_index < old(game).state.num_players,
        old(game).state.cards_left > 0,
        action.suit_index != -1 ==> 0 <= action.suit_index < old(game).state.num_suits() && 1 <= action.rank <= 5,
        action.suit_index != -1 && action.order < old(game).deck_ids@.len() ==> (old(game).deck_ids@[action.order as int] matches Some(d) ==> Some(d) == drawn_id(*action)),
    ensures
        final(game).wf(),
        state_frame_same(final(game).state, old(game).state),
        final(game).state.deck@.len() == action.order + 1,
        final(game).state.deck@.take(action.order as int) == old(game).state.deck@,
        final(game).state.deck@[action.order as int].base == drawn_id(*action),
        final(game).state.deck@[action.order as int].order == action.order,
        final(game).state.deck@[action.order as int].drawn_index == old(game).state.turn_count,
        !final(game).state.deck@[action.order as int].clued,
        !final(game).state.deck@[action.order as int].newly_clued,
        final(game).state.deck@[action.order as int].clues@.len() == 0,
        final(game).state.hands@.len() == old(game).state.hands@.len(),
        final(game).state.hands@[action.player_index as int]@ == seq![action.order] + old(game).state.hands@[action.player_index as int]@,
        forall|p: int| 0 <= p < old(game).state.hands@.len() && p != action.player_index ==> #[trigger] final(game).state.hands@[p]@ == old(game).state.hands@[p]@,
        final(game).state.card_order == action.order + 1,
        final(game).state.cards_left == old(game).state.cards_left - 1,
        final(game).state.endgame_turns == if old(game).state.cards_left == 1 { Some(old(game).state.num_players) } else { old(game).state.endgame_turns },
        final(game).state.clue_tokens == old(game).state.clue_tokens,
        final(game).state.strikes == old(game).state.strikes,
        final(game).state.play_stacks@ == old(game).state.play_stacks@,
        final(game).state.discard_stacks@ == old(game).state.discard_stacks@,
        final(game).state.max_ranks@ == old(game).state.max_ranks@,
        final(game).deck_ids@ == if old(game).deck_ids@.len() == action.order { old(game).deck_ids@.push(drawn_id(*action)) } else { old(game).deck_ids@.update(action.order as int, drawn_id(*action)) },
        final(game).common.thoughts@ == old(game).common.thoughts@.push(Thought {
            order: action.order, base: None, possible: old(game).common.all_possible, inferred: old(game).common.all_possible, info_lock: None, reset: false }),
        player_same_but_thoughts(final(game).common, old(game).common),
        final(game).players@.len() == old(game).players@.len(),
        forall|i: int| 0 <= i < old(game).players@.len() ==> {
            let p = #[trigger] final(game).players@[i];
            let q = old(game).players@[i];
            &&& player_same_but_thoughts(p, q)
            &&& p.thoughts@ == q.thoughts@.push(Thought {
                order: action.order,
                base: if i != action.player_index { drawn_id(*action) } else { None },
                possible: q.all_possible,
                inferred: q.all_possible,
                info_lock: None,
                reset: false,
            })
        },
        final(game).meta@.len() == action.order + 1,
        final(game).meta@.take(action.order as int) == old(game).meta@,
        final(game).meta@[action.order as int].order == action.order,
        final(game).meta@[action.order as int].status == crate::basics::card::CardStatus::NoStatus,
{
    let order = action.order;
    let player_index = action.player_index;
    let ghost old_game = *game;
    let id = if action.suit_index != -1 {
        Some(Identity { suit_index: action.suit_index as usize, rank: action.rank as usize })
    } else {
        None
    };
    if game.deck_ids.len() == order {
        game.deck_ids.push(id);
    } else {
        game.deck_ids.set(order, id);
    }
    let turn = game.state.turn_count;
    game.state.hands[player_index].insert(0, order);
    game.state.deck.push(Card::new(id, order, turn));
    game.state.card_order = order + 1;
    game.state.cards_left = game.state.cards_left - 1;
    if game.state.cards_left == 0 {
        game.state.endgame_turns = Some(game.state.num_players);
    }
    let ghost mid = *game;
    let mut i: usize = 0;
    while i < game.players.len()
        invariant
            game.state == mid.state,
            game.common == mid.common,
            game.meta == mid.meta,
            game.deck_ids == mid.deck_ids,
            i <= game.players@.len(),
            game.players@.len() == old_game.players@.len(),
            forall|j: int| 0 <= j < game.players@.len() ==> {
                let p = #[trigger] game.players@[j];
                let q = old_game.players@[j];
                &&& player_same_but_thoughts(p, q)
                &&& p.thoughts@ == if j < i { q.thoughts@.push(Thought {
                    order,
                    base: if j != player_index { id } else { None },
                    possible: q.all_possible,
                    inferred: q.all_possible,
                    info_lock: None,
                    reset: false,
                }) } else { q.thoughts@ }
            },
        decreases game.players@.len() - i,
    {
        let pid = if i != player_index { id } else { None };
        let poss = game.players[i].all_possible;
        game.players[i].thoughts.push(Thought::new(order, pid, poss));
        i += 1;
    }
    let poss = game.common.all_possible;
    game.common.thoughts.push(Thought::new(order, None, poss));
    game.meta.push(ConvData::new(order));
    proof {
        let s = game.state;
        let os = old_game.state;
        assert(s.deck@ == os.deck@.push(s.deck@[order as int]));
        assert(s.deck@.take(order as int) =~= os.deck@);
        assert(game.meta@.take(order as int) =~= old_game.meta@);
        assert(s.hands@[player_index as int]@ =~= seq![order] + os.hands@[player_index as int]@);
        // The hands hold cards of the deck, each once.
        assert forall|p: int, i: int| 0 <= p < s.hands@.len() && 0 <= i < s.hands@[p]@.len() implies #[trigger] s.hands@[p]@[i] < s.deck@.len() by {
            if p == player_index as int && i == 0 {
            } else if p == player_index as int {
                assert(s.hands@[p]@[i] == os.hands@[p]@[i - 1]);
            } else {
                assert(s.hands@[p] == os.hands@[p]);
            }
        }
        assert forall|p1: int, i1: int, p2: int, i2: int|
            0 <= p1 < s.hands@.len() && 0 <= i1 < s.hands@[p1]@.len() && 0 <= p2 < s.hands@.len() && 0 <= i2 < s.hands@[p2]@.len()
                && #[trigger] s.hands@[p1]@[i1] == #[trigger] s.hands@[p2]@[i2] implies p1 == p2 && i1 == i2 by {
            let a = if p1 == player_index as int { if i1 == 0 { -1int } else { i1 - 1 } } else { i1 };
            let b = if p2 == player_index as int { if i2 == 0 { -1int } else { i2 - 1 } } else { i2 };
            if a >= 0 {
                assert(s.hands@[p1]@[i1] == os.hands@[p1]@[a]);
                assert(os.hands@[p1]@[a] < os.deck@.len());
            }
            if b >= 0 {
                assert(s.hands@[p2]@[i2] == os.hands@[p2]@[b]);
                assert(os.hands@[p2]@[b] < os.deck@.len());
            }
            if a >= 0 && b >= 0 {
                assert(os.hands@[p1]@[a] == os.hands@[p2]@[b]);
            }
        }
        assert forall|o: int| 0 <= o < s.deck@.len() implies ((#[trigger] s.deck@[o]).base matches Some(x) ==> s.id_ok(x)) by {
            if o < os.deck@.len() {
                assert(s.deck@[o] == os.deck@[o]);
            }
        }
        assert(s.wf());
        // Every thought speaks of the state's cards and identities.
        assert forall|o: int| 0 <= o < game.common.thoughts@.len() implies thought_ok(#[trigger] game.common.thoughts@[o], o, s) by {
            if o < old_game.common.thoughts@.len() {
                assert(game.common.thoughts@[o] == old_game.common.thoughts@[o]);
                assert(thought_ok(old_game.common.thoughts@[o], o, os));
            }
        }
        assert forall|l: int| 0 <= l < game.common.links@.len() implies link_ok(#[trigger] game.common.links@[l], s) by {
            assert(link_ok(old_game.common.links@[l], os));
        }
        assert(game.common.wf(s));
        assert forall|j: int| 0 <= j < game.players@.len() implies (#[trigger] game.players@[j]).wf(s) && game.players@[j].thoughts@.len() == s.deck@.len() by {
            let p = game.players@[j];
            let q = old_game.players@[j];
            assert(q.wf(os));
            assert forall|o: int| 0 <= o < p.thoughts@.len() implies thought_ok(#[trigger] p.thoughts@[o], o, s) by {
                if o < q.thoughts@.len() {
                    assert(p.thoughts@[o] == q.thoughts@[o]);
                    assert(thought_ok(q.thoughts@[o], o, os));
                }
            }
            assert forall|l: int| 0 <= l < p.links@.len() implies link_ok(#[trigger] p.links@[l], s) by {
                assert(link_ok(q.links@[l], os));
            }
        }
        assert forall|o: int| 0 <= o < game.deck_ids@.len() implies ((#[trigger] game.deck_ids@[o]) matches Some(x) ==> s.id_ok(x)) by {
            if o != order as int {
                assert(game.deck_ids@[o] == old_game.deck_ids@[o]);
            }
        }
    }
}

/// The positions of the variant's identities that the clue touches.
pub open spec fn touch_ords(variant: Variant, clue: BaseClue) -> Set<int> {
    Set::new(|o: int| 0 <= o < 5 * variant.suits@.len() && id_touched_spec(Identity::of_ord(o), variant, clue))
}

/// A clue given as the deck shows the cards never rules out a card's identity: the
/// cards it touches are those whose identities it touches, so a touched card keeps its
/// identity among those the clue touches, and a card it misses keeps it among the rest.
pub proof fn lemma_clue_keeps_identity(state: State, clue: BaseClue, list: Seq<usize>, target: int, o: usize, t: Thought, u: Thought)
    requires
        state.wf(),
        0 <= target < state.hands@.len(),
        state.hands@[target]@.contains(o),
        list == state.hands@[target]@.filter(|x: usize| state.touched_by(x as int, clue)),
        state.deck@[o as int].base is Some,
        t.possible@.contains(state.deck@[o as int].base.unwrap().ord()),
        clue_thought(t, list.contains(o), touch_ords(state.variant, clue), u),
    ensures
        u.possible@.contains(state.deck@[o as int].base.unwrap().ord()),
{
    let hand = state.hands@[target]@;
    let f = |x: usize| state.touched_by(x as int, clue);
    let id = state.deck@[o as int].base.unwrap();
    let k = choose|k: int| 0 <= k < hand.len() && hand[k] == o;
    assert(state.hands@[target]@[k] < state.deck@.len());
    assert(state.id_ok(id));
    lemma_id_ok_valid(state, id);
    crate::basics::card::lemma_ord_roundtrip(id);
    assert(f(o) == id_touched_spec(id, state.variant, clue));
    assert(touch_ords(state.variant, clue).contains(id.ord()) == id_touched_spec(id, state.variant, clue));
    if f(o) {
        hand.lemma_filter_contains(f, k);
    }
    if list.contains(o) {
        let j = choose|j: int| 0 <= j < list.len() && list[j] == o;
        hand.lemma_filter_pred(f, j);
    }
    assert(list.contains(o) == touch_ords(state.variant, clue).contains(id.ord()));
}

/// `u` is `t` after a clue that touched its card, or did not.
pub open spec fn clue_thought(t: Thought, touched: bool, tset: Set<int>, u: Thought) -> bool {
    &&& u.order == t.order
    &&& u.base == t.base
    &&& u.info_lock == t.info_lock
    &&& u.reset == t.reset
    &&& if touched {
        u.possible@ == t.possible@.intersect(tset) && u.inferred@ == t.inferred@.intersect(tset)
    } else {
        u.possible@ == t.possible@.difference(tset) && u.inferred@ == t.inferred@.difference(tset)
    }
}

/// `d` is the card `c` once clued, known where one possibility is left.
pub open spec fn clued_card(c: Card, cc: CardClue, possible: IdentitySet, d: Card) -> bool {
    &&& d.clued
    &&& d.clues@ == c.clues@.push(cc)
    &&& d.order == c.order
    &&& d.drawn_index == c.drawn_index
    &&& d.newly_clued == c.newly_clued
    &&& d.base == if possible@.len() == 1 { Some(first_id(possible)) } else { c.base }
}

/// The convention data after a clue: the turn is noted where the clue narrowed the inferences.
pub open spec fn reasoned(m: ConvData, narrowed: bool, turn: usize, n: ConvData) -> bool {
    &&& n.order == m.order
    &&& n.focused == m.focused
    &&& n.urgent == m.urgent
    &&& n.trash == m.trash
    &&& n.status == m.status
    &&& n.depends_on == m.depends_on
    &&& n.reasoning@ == if narrowed { m.reasoning@.push(turn) } else { m.reasoning@ }
}

/// A clue is given: every touched card of the target's hand keeps only the identities
/// that the clue touches, is marked clued with the clue, and becomes known where one
/// possibility is left; every other card of the hand loses those identities.
pub fn on_clue(game: &mut Game, action: &ClueAction)
    requires
        old(game).wf(),
        action.target < old(game).state.num_players,
        old(game).state.clue_ok(action.clue),
        old(game).state.clue_tokens > 0,
        old(game).state.endgame_turns != Some(0usize),
    ensures
        final(game).wf(),
        state_frame_same(final(game).state, old(game).state),
        final(game).state.hands@ == old(game).state.hands@,
        final(game).state.play_stacks@ == old(game).state.play_stacks@,
        final(game).state.discard_stacks@ == old(game).state.discard_stacks@,
        final(game).state.max_ranks@ == old(game).state.max_ranks@,
        final(game).state.strikes == old(game).state.strikes,
        final(game).state.card_order == old(game).state.card_order,
        final(game).state.cards_left == old(game).state.cards_left,
        final(game).state.clue_tokens == old(game).state.clue_tokens - 1,
        final(game).state.endgame_turns == match old(game).state.endgame_turns {
            Some(t) => Some((t - 1) as usize),
            None => None,
        },
        final(game).state.deck@.len() == old(game).state.deck@.len(),
        final(game).common.thoughts@.len() == old(game).common.thoughts@.len(),
        final(game).meta@.len() == old(game).meta@.len(),
        final(game).deck_ids@.len() == old(game).deck_ids@.len(),
        player_same_but_thoughts(final(game).common, old(game).common),
        final(game).players@ == old(game).players@,
        forall|o: int| 0 <= o < old(game).state.deck@.len() ==> {
            let in_hand = old(game).state.hands@[action.target as int]@.contains(o as usize);
            let touched = in_hand && action.list@.contains(o as usize);
            let t = old(game).common.thoughts@[o];
            let u = #[trigger] final(game).common.thoughts@[o];
            let tset = touch_ords(old(game).state.variant, action.clue);
            if in_hand {
                &&& clue_thought(t, touched, tset, u)
                &&& touched ==> clued_card(old(game).state.deck@[o], CardClue {
                    kind: action.clue.kind, value: action.clue.value, giver: action.giver, turn: old(game).state.turn_count }, u.possible, final(game).state.deck@[o])
                &&& touched ==> reasoned(old(game).meta@[o], u.inferred@.len() < t.inferred@.len(), old(game).state.turn_count, final(game).meta@[o])
                &&& touched ==> final(game).deck_ids@[o] == if u.possible@.len() == 1 { Some(first_id(u.possible)) } else { old(game).deck_ids@[o] }
                &&& !touched ==> final(game).state.deck@[o] == old(game).state.deck@[o] && final(game).meta@[o] == old(game).meta@[o]
                    && final(game).deck_ids@[o] == old(game).deck_ids@[o]
            } else {
                &&& u == t
                &&& final(game).state.deck@[o] == old(game).state.deck@[o]
                &&& final(game).meta@[o] == old(game).meta@[o]
                &&& final(game).deck_ids@[o] == old(game).deck_ids@[o]
            }
        },
        forall|o: int| old(game).state.deck@.len() <= o < old(game).deck_ids@.len() ==> #[trigger] final(game).deck_ids@[o] == old(game).deck_ids@[o],
{
    let ghost old_game = *game;
    let clue = action.clue;
    let target = action.target;
    let turn = game.state.turn_count;
    let all = all_id_set(&game.state.variant);
    let variant = &game.state.variant;
    proof {
        assert forall|o: int| #[trigger] all@.contains(o) implies touch_defined(Identity::of_ord(o), *variant, clue) by {
            crate::basics::card::lemma_of_ord_valid(o);
            assert(o / 5 < variant.suits@.len()) by (nonlinear_arith)
                requires 0 <= o < 5 * variant.suits@.len();
        }
    }
    let new_possible = all.filter(|i: Identity| -> (b: bool)
        requires touch_defined(i, *variant, clue)
        ensures b == id_touched_spec(i, *variant, clue)
        { id_touched(i, variant, &clue) });
    proof {
        assert(new_possible@ =~= touch_ords(*variant, clue)) by {
            assert forall|o: int| new_possible@.contains(o) <==> touch_ords(*variant, clue).contains(o) by {
                if all@.contains(o) {
                    assert(new_possible@.contains(o) ==> id_touched_spec(Identity::of_ord(o), *variant, clue));
                    assert(!new_possible@.contains(o) ==> !id_touched_spec(Identity::of_ord(o), *variant, clue));
                }
            }
        }
    }
    let ghost tset = new_possible@;
    let card_clue = CardClue { kind: clue.kind, value: clue.value, giver: action.giver, turn };
    let hand_len = game.state.hands[target].len();
    let mut i: usize = 0;
    while i < hand_len
        invariant
            i <= hand_len,
            hand_len == old_game.state.hands@[target as int]@.len(),
            target < old_game.state.num_players,
            old_game.wf(),
            tset == touch_ords(old_game.state.variant, clue),
            new_possible@ == tset,
            card_clue == (CardClue { kind: clue.kind, value: clue.value, giver: action.giver, turn: old_game.state.turn_count }),
            clue == action.clue,
            turn == old_game.state.turn_count,
            game.state.hands == old_game.state.hands,
            state_frame_same(game.state, old_game.state),
            game.state.play_stacks == old_game.state.play_stacks,
            game.state.discard_stacks == old_game.state.discard_stacks,
            game.state.max_ranks == old_game.state.max_ranks,
            game.state.strikes == old_game.state.strikes,
            game.state.card_order == old_game.state.card_order,
            game.state.cards_left == old_game.state.cards_left,
            game.state.clue_tokens == old_game.state.clue_tokens,
            game.state.endgame_turns == old_game.state.endgame_turns,
            game.state.deck@.len() == old_game.state.deck@.len(),
            game.common.thoughts@.len() == old_game.common.thoughts@.len(),
            game.meta@.len() == old_game.meta@.len(),
            game.deck_ids@.len() == old_game.deck_ids@.len(),
            player_same_but_thoughts(game.common, old_game.common),
            game.players == old_game.players,
            forall|o: int| 0 <= o < old_game.state.deck@.len() ==> {
                let done = old_game.state.hands@[target as int]@.take(i as int).contains(o as usize);
                let touched = done && action.list@.contains(o as usize);
                let t = old_game.common.thoughts@[o];
                let u = #[trigger] game.common.thoughts@[o];
                if done {
                    &&& clue_thought(t, touched, tset, u)
                    &&& touched ==> clued_card(old_game.state.deck@[o], card_clue, u.possible, game.state.deck@[o])
                    &&& touched ==> reasoned(old_game.meta@[o], u.inferred@.len() < t.inferred@.len(), turn, game.meta@[o])
                    &&& touched ==> game.deck_ids@[o] == if u.possible@.len() == 1 { Some(first_id(u.possible)) } else { old_game.deck_ids@[o] }
                    &&& !touched ==> game.state.deck@[o] == old_game.state.deck@[o] && game.meta@[o] == old_game.meta@[o]
                        && game.deck_ids@[o] == old_game.deck_ids@[o]
                } else {
                    &&& u == t
                    &&& game.state.deck@[o] == old_game.state.deck@[o]
                    &&& game.meta@[o] == old_game.meta@[o]
                    &&& game.deck_ids@[o] == old_game.deck_ids@[o]
                }
            },
            forall|o: int| old_game.state.deck@.len() <= o < old_game.deck_ids@.len() ==> #[trigger] game.deck_ids@[o] == old_game.deck_ids@[o],
            game.wf(),
        decreases hand_len - i,
    {
        let order = game.state.hands[target][i];
        let ghost before = *game;
        proof {
            assert(old_game.state.hands@[target as int]@[i as int] == order);
            assert(order < old_game.state.deck@.len());
            assert(!old_game.state.hands@[target as int]@.take(i as int).contains(order)) by {
                if old_game.state.hands@[target as int]@.take(i as int).contains(order) {
                    let j = choose|j: int| 0 <= j < i && #[trigger] old_game.state.hands@[target as int]@.take(i as int)[j] == order;
                    assert(old_game.state.hands@[target as int]@[j] == order);
                }
            }
            assert(old_game.state.hands@[target as int]@.take(i + 1) =~= old_game.state.hands@[target as int]@.take(i as int).push(order));
            assert(game.common.thoughts@[order as int] == old_game.common.thoughts@[order as int]);
            assert(thought_ok(old_game.common.thoughts@[order as int], order as int, old_game.state));
        }
        let mut t = game.common.thoughts[order];
        if vec_has(&action.list, order) {
            let new_inferred = t.inferred.intersect(&new_possible);
            let new_reasoning = new_inferred.len() < t.inferred.len();
            t.inferred = new_inferred;
            t.possible = t.possible.intersect(&new_possible);
            game.state.deck[order].clued = true;
            game.state.deck[order].clues.push(card_clue);
            if t.possible.len() == 1 {
                let id = single_of(&t.possible);
                proof {
                    lemma_in_range_ids(t.possible, game.state);
                    crate::basics::card::lemma_ord_roundtrip(id);
                }
                game.state.deck[order].base = Some(id);
                game.deck_ids.set(order, Some(id));
            }
            if new_reasoning {
                game.meta[order].reasoning.push(turn);
            }
        } else {
            t.inferred = t.inferred.difference(&new_possible);
            t.possible = t.possible.difference(&new_possible);
        }
        game.common.thoughts.set(order, t);
        proof {
            lemma_take_push_contains(old_game.state.hands@[target as int]@, i as int);
            assert forall|o: int| 0 <= o < game.common.thoughts@.len() implies thought_ok(#[trigger] game.common.thoughts@[o], o, game.state) by {
                if o != order as int {
                    assert(game.common.thoughts@[o] == before.common.thoughts@[o]);
                }
            }
            assert forall|o: int| 0 <= o < game.state.deck@.len() implies ((#[trigger] game.state.deck@[o]).base matches Some(x) ==> game.state.id_ok(x)) by {
                if o != order as int {
                    assert(game.state.deck@[o] == before.state.deck@[o]);
                }
            }
            assert forall|o: int| 0 <= o < game.deck_ids@.len() implies ((#[trigger] game.deck_ids@[o]) matches Some(x) ==> game.state.id_ok(x)) by {
                if o != order as int {
                    assert(game.deck_ids@[o] == before.deck_ids@[o]);
                }
            }
            assert forall|l: int| 0 <= l < game.common.links@.len() implies link_ok(#[trigger] game.common.links@[l], game.state) by {
                assert(link_ok(before.common.links@[l], before.state));
            }
            assert forall|j: int| 0 <= j < game.players@.len() implies (#[trigger] game.players@[j]).wf(game.state) by {
                let p = game.players@[j];
                assert(p.wf(before.state));
                assert forall|o: int| 0 <= o < p.thoughts@.len() implies thought_ok(#[trigger] p.thoughts@[o], o, game.state) by {
                    assert(thought_ok(p.thoughts@[o], o, before.state));
                }
                assert forall|l: int| 0 <= l < p.links@.len() implies link_ok(#[trigger] p.links@[l], game.state) by {
                    assert(link_ok(p.links@[l], before.state));
                }
            }
            assert forall|o: int| 0 <= o < old_game.state.deck@.len() implies {
                let done = old_game.state.hands@[target as int]@.take(i + 1).contains(o as usize);
                let touched = done && action.list@.contains(o as usize);
                let t = old_game.common.thoughts@[o];
                let u = #[trigger] game.common.thoughts@[o];
                if done {
                    &&& clue_thought(t, touched, tset, u)
                    &&& touched ==> clued_card(old_game.state.deck@[o], card_clue, u.possible, game.state.deck@[o])
                    &&& touched ==> reasoned(old_game.meta@[o], u.inferred@.len() < t.inferred@.len(), turn, game.meta@[o])
                    &&& touched ==> game.deck_ids@[o] == if u.possible@.len() == 1 { Some(first_id(u.possible)) } else { old_game.deck_ids@[o] }
                    &&& !touched ==> game.state.deck@[o] == old_game.state.deck@[o] && game.meta@[o] == old_game.meta@[o]
                        && game.deck_ids@[o] == old_game.deck_ids@[o]
                } else {
                    &&& u == t
                    &&& game.state.deck@[o] == old_game.state.deck@[o]
                    &&& game.meta@[o] == old_game.meta@[o]
                    &&& game.deck_ids@[o] == old_game.deck_ids@[o]
                }
            } by {
                if o != order as int {
                    assert(game.common.thoughts@[o] == before.common.thoughts@[o]);
                    assert(game.state.deck@[o] == before.state.deck@[o]);
                    assert(game.meta@[o] == before.meta@[o]);
                    assert(game.deck_ids@[o] == before.deck_ids@[o]);
                }
            }
            assert forall|o: int| old_game.state.deck@.len() <= o < old_game.deck_ids@.len() implies #[trigger] game.deck_ids@[o] == old_game.deck_ids@[o] by {
                assert(game.deck_ids@[o] == before.deck_ids@[o]);
            }
        }
        i += 1;
    }
    proof {
        assert(old_game.state.hands@[target as int]@.take(hand_len as int) =~= old_game.state.hands@[target as int]@);
    }
    game.state.endgame_turns = match game.state.endgame_turns {
        Some(t) => Some(t - 1),
        None => None,
    };
    game.state.clue_tokens = game.state.clue_tokens - 1;
}

/// An element is in the first `i + 1` elements exactly when it is the element at `i`
/// or in the first `i`.
pub proof fn lemma_take_push_contains<A>(s: Seq<A>, i: int)
    requires
        0 <= i < s.len(),
    ensures
        forall|x: A| #[trigger] s.take(i + 1).contains(x) <==> s.take(i).contains(x) || x == s[i],
{
    assert(s.take(i + 1) =~= s.take(i).push(s[i]));
    assert forall|x: A| #[trigger] s.take(i + 1).contains(x) <==> s.take(i).contains(x) || x == s[i] by {
        if s.take(i + 1).contains(x) && x != s[i] {
            let j = choose|j: int| 0 <= j < i + 1 && #[trigger] s.take(i + 1)[j] == x;
            assert(s.take(i)[j] == x);
        }
        if s.take(i).contains(x) {
            let j = choose|j: int| 0 <= j < i && #[trigger] s.take(i)[j] == x;
            assert(s.take(i + 1)[j] == x);
        }
        if x == s[i] {
            assert(s.take(i + 1)[i] == x);
        }
    }
}

/// An element is in a sequence with one more element at its end exactly when it is that
/// element or was in the sequence.
pub proof fn lemma_push_contains<A>(s: Seq<A>, a: A, x: A)
    ensures
        s.push(a).contains(x) <==> s.contains(x) || x == a,
{
    if s.push(a).contains(x) && x != a {
        let j = choose|j: int| 0 <= j < s.push(a).len() && s.push(a)[j] == x;
        assert(s[j] == x);
    }
    if s.contains(x) {
        let j = choose|j: int| 0 <= j < s.len() && s[j] == x;
        assert(s.push(a)[j] == x);
    }
    if x == a {
        assert(s.push(a)[s.len() as int] == a);
    }
}

/// Whether the list holds the value.
pub fn vec_has(v: &Vec<usize>, x: usize) -> (r: bool)
    ensures
        r == v@.contains(x),
{
    let mut i: usize = 0;
    while i < v.len()
        invariant
            i <= v@.len(),
            forall|j: int| 0 <= j < i ==> v@[j] != x,
        decreases v@.len() - i,
    {
        if v[i] == x {
            return true;
        }
        i += 1;
    }
    false
}

/// The list without the value, in order.
pub fn without(v: &Vec<usize>, x: usize) -> (r: Vec<usize>)
    ensures
        r@ == v@.filter(|o: usize| o != x),
        forall|j: int| 0 <= j < r@.len() ==> v@.contains(#[trigger] r@[j]),
        v@.no_duplicates() ==> r@.no_duplicates(),
{
    let ghost f = |o: usize| o != x;
    let mut r: Vec<usize> = Vec::new();
    let mut i: usize = 0;
    while i < v.len()
        invariant
            i <= v@.len(),
            f == (|o: usize| o != x),
            r@ == v@.take(i as int).filter(f),
            forall|j: int| 0 <= j < r@.len() ==> v@.take(i as int).contains(#[trigger] r@[j]),
            v@.no_duplicates() ==> r@.no_duplicates(),
        decreases v@.len() - i,
    {
        let ghost prev = r@;
        proof {
            assert(v@.take(i + 1) =~= v@.take(i as int).push(v@[i as int]));
            v@.take(i as int).lemma_filter_push(v@[i as int], f);
            lemma_take_push_contains(v@, i as int);
        }
        if v[i] != x {
            r.push(v[i]);
            proof {
                if v@.no_duplicates() {
                    assert(!prev.contains(v@[i as int])) by {
                        if prev.contains(v@[i as int]) {
                            let j = choose|j: int| 0 <= j < prev.len() && prev[j] == v@[i as int];
                            assert(v@.take(i as int).contains(prev[j]));
                            let k = choose|k: int| 0 <= k < i && #[trigger] v@.take(i as int)[k] == prev[j];
                            assert(v@[k] == v@[i as int]);
                        }
                    }
                    assert forall|a: int, b: int| 0 <= a < r@.len() && 0 <= b < r@.len() && a != b implies r@[a] != r@[b] by {
                        if a < prev.len() && b < prev.len() {
                            assert(r@[a] == prev[a] && r@[b] == prev[b]);
                        } else if a < prev.len() {
                            assert(prev.contains(r@[a]));
                        } else if b < prev.len() {
                            assert(prev.contains(r@[b]));
                        }
                    }
                }
                assert forall|j: int| 0 <= j < r@.len() implies v@.take(i + 1).contains(#[trigger] r@[j]) by {
                    if j < prev.len() {
                        assert(r@[j] == prev[j]);
                    }
                }
            }
        } else {
            proof {
                assert forall|j: int| 0 <= j < r@.len() implies v@.take(i + 1).contains(#[trigger] r@[j]) by {}
            }
        }
        i += 1;
    }
    proof {
        assert(v@.take(v@.len() as int) =~= v@);
    }
    r
}

/// Replacing a hand by a list of some of its cards, each once, keeps the cards distinct.
proof fn lemma_hand_narrowed(s: State, t: State, p: int)
    requires
        s.hands_distinct(),
        s.hands_in_deck(),
        0 <= p < s.hands@.len(),
        t.hands@.len() == s.hands@.len(),
        t.deck@.len() >= s.deck@.len(),
        forall|q: int| 0 <= q < s.hands@.len() && q != p ==> #[trigger] t.hands@[q]@ == s.hands@[q]@,
        forall|j: int| 0 <= j < t.hands@[p]@.len() ==> s.hands@[p]@.contains(#[trigger] t.hands@[p]@[j]),
        t.hands@[p]@.no_duplicates(),
    ensures
        t.hands_distinct(),
        t.hands_in_deck(),
{
    assert forall|q: int, i: int| 0 <= q < t.hands@.len() && 0 <= i < t.hands@[q]@.len() implies #[trigger] t.hands@[q]@[i] < t.deck@.len() by {
        if q == p {
            let k = choose|k: int| 0 <= k < s.hands@[p]@.len() && s.hands@[p]@[k] == t.hands@[p]@[i];
            assert(s.hands@[p]@[k] < s.deck@.len());
        } else {
            assert(t.hands@[q]@[i] == s.hands@[q]@[i]);
            assert(s.hands@[q]@[i] < s.deck@.len());
        }
    }
    assert forall|p1: int, i1: int, p2: int, i2: int|
        0 <= p1 < t.hands@.len() && 0 <= i1 < t.hands@[p1]@.len() && 0 <= p2 < t.hands@.len() && 0 <= i2 < t.hands@[p2]@.len()
            && #[trigger] t.hands@[p1]@[i1] == #[trigger] t.hands@[p2]@[i2] implies p1 == p2 && i1 == i2 by {
        let k1 = if p1 == p {
            choose|k: int| 0 <= k < s.hands@[p]@.len() && s.hands@[p]@[k] == t.hands@[p]@[i1]
        } else {
            i1
        };
        let k2 = if p2 == p {
            choose|k: int| 0 <= k < s.hands@[p]@.len() && s.hands@[p]@[k] == t.hands@[p]@[i2]
        } else {
            i2
        };
        if p1 != p {
            assert(t.hands@[p1]@[i1] == s.hands@[p1]@[i1]);
        }
        if p2 != p {
            assert(t.hands@[p2]@[i2] == s.hands@[p2]@[i2]);
        }
        assert(s.hands@[p1]@[k1] == s.hands@[p2]@[k2]);
        if p1 == p && p2 == p {
            assert(t.hands@[p]@[i1] == t.hands@[p]@[i2]);
        }
    }
}

/// The identity an action shows, where both its suit and its rank are known.
pub open spec fn shown_id(suit_index: i32, rank: i32) -> Option<Identity> {
    if suit_index != -1 && rank != -1 {
        Some(Identity { suit_index: suit_index as usize, rank: rank as usize })
    } else {
        None
    }
}

/// `u` is `t` known to be the identity.
pub open spec fn known_thought(t: Thought, id: Identity, set_base: bool, u: Thought) -> bool {
    &&& u.order == t.order
    &&& u.base == if set_base { Some(id) } else { t.base }
    &&& u.info_lock == t.info_lock
    &&& u.reset == t.reset
    &&& u.possible@ == set![id.ord()]
    &&& u.inferred@ == set![id.ord()]
}

/// `d` is the card `c` known to be the identity.
pub open spec fn known_card(c: Card, id: Identity, d: Card) -> bool {
    &&& d.base == Some(id)
    &&& d.order == c.order
    &&& d.drawn_index == c.drawn_index
    &&& d.clued == c.clued
    &&& d.newly_clued == c.newly_clued
    &&& d.clues@ == c.clues@
}

/// A card is discarded, or bombed when `failed`: where shown, it leaves the hand, joins
/// the discards, and is known to everyone, and a suit whose last copy of a rank is gone
/// can reach that rank no more; a bomb costs a strike, a discard gains a clue up to 8.
pub fn on_discard(game: &mut Game, action: &DiscardAction)
    requires
        old(game).wf(),
        action.player_index < old(game).state.num_players,
        old(game).state.endgame_turns != Some(0usize),
        action.failed ==> old(game).state.strikes < 255,
        !action.failed ==> old(game).state.clue_tokens < usize::MAX,
        shown_id(action.suit_index, action.rank) matches Some(id) ==> {
            &&& action.order < old(game).state.deck@.len()
            &&& old(game).state.id_ok(id)
            &&& old(game).state.discard_stacks@[id.suit_index as int]@[id.rank - 1] < usize::MAX
        },
    ensures
        final(game).wf(),
        state_frame_same(final(game).state, old(game).state),
        final(game).state.play_stacks@ == old(game).state.play_stacks@,
        final(game).state.card_order == old(game).state.card_order,
        final(game).state.cards_left == old(game).state.cards_left,
        final(game).state.endgame_turns == match old(game).state.endgame_turns {
            Some(t) => Some((t - 1) as usize),
            None => None,
        },
        final(game).state.strikes == if action.failed { (old(game).state.strikes + 1) as u8 } else { old(game).state.strikes },
        final(game).state.clue_tokens == if action.failed { old(game).state.clue_tokens } else if old(game).state.clue_tokens + 1 < 8 {
            (old(game).state.clue_tokens + 1) as usize } else { 8 },
        final(game).players@ == old(game).players@,
        final(game).meta@ == old(game).meta@,
        player_same_but_thoughts(final(game).common, old(game).common),
        final(game).state.deck@.len() == old(game).state.deck@.len(),
        final(game).deck_ids@.len() == old(game).deck_ids@.len(),
        match shown_id(action.suit_index, action.rank) {
            None => {
                &&& final(game).state.hands@ == old(game).state.hands@
                &&& final(game).state.discard_stacks@ == old(game).state.discard_stacks@
                &&& final(game).state.max_ranks@ == old(game).state.max_ranks@
                &&& final(game).state.deck@ == old(game).state.deck@
                &&& final(game).deck_ids@ == old(game).deck_ids@
                &&& final(game).common.thoughts@ == old(game).common.thoughts@
            },
            Some(id) => {
                let count = old(game).state.discard_stacks@[id.suit_index as int]@[id.rank - 1] + 1;
                let s = id.suit_index as int;
                &&& final(game).state.hands@.len() == old(game).state.hands@.len()
                &&& final(game).state.hands@[action.player_index as int]@ == old(game).state.hands@[action.player_index as int]@.filter(|o: usize| o != action.order)
                &&& forall|p: int| 0 <= p < old(game).state.hands@.len() && p != action.player_index ==> #[trigger] final(game).state.hands@[p]@ == old(game).state.hands@[p]@
                &&& final(game).state.discard_stacks@.len() == old(game).state.discard_stacks@.len()
                &&& final(game).state.discard_stacks@[s]@ == old(game).state.discard_stacks@[s]@.update(id.rank - 1, count as usize)
                &&& forall|t: int| 0 <= t < old(game).state.discard_stacks@.len() && t != s ==> #[trigger] final(game).state.discard_stacks@[t]@ == old(game).state.discard_stacks@[t]@
                &&& final(game).state.max_ranks@ == if count == old(game).state.card_count_spec(id) {
                    old(game).state.max_ranks@.update(s, if old(game).state.max_ranks@[s] < id.rank - 1 { old(game).state.max_ranks@[s] } else { (id.rank - 1) as usize })
                } else {
                    old(game).state.max_ranks@
                }
                &&& known_card(old(game).state.deck@[action.order as int], id, final(game).state.deck@[action.order as int])
                &&& forall|o: int| 0 <= o < old(game).state.deck@.len() && o != action.order ==> #[trigger] final(game).state.deck@[o] == old(game).state.deck@[o]
                &&& final(game).deck_ids@ == old(game).deck_ids@.update(action.order as int, Some(id))
                &&& known_thought(old(game).common.thoughts@[action.order as int], id, false, final(game).common.thoughts@[action.order as int])
                &&& forall|o: int| 0 <= o < old(game).common.thoughts@.len() && o != action.order ==> #[trigger] final(game).common.thoughts@[o] == old(game).common.thoughts@[o]
            },
        },
{
    let ghost old_game = *game;
    if action.suit_index != -1 && action.rank != -1 {
        let id = Identity { suit_index: action.suit_index as usize, rank: action.rank as usize };
        let order = action.order;
        let pi = action.player_index;
        proof {
            lemma_id_ok_valid(old_game.state, id);
        }
        let new_hand = without(&game.state.hands[pi], order);
        game.state.hands.set(pi, new_hand);
        let count = game.state.discard_stacks[id.suit_index][id.rank - 1] + 1;
        game.state.discard_stacks[id.suit_index].set(id.rank - 1, count);
        game.state.deck[order].base = Some(id);
        game.deck_ids.set(order, Some(id));
        proof {
            assert(game.state.counts() == old_game.state.counts());
        }
        if count == game.state.card_count(id) {
            let m = game.state.max_ranks[id.suit_index];
            let v = if m < id.rank - 1 { m } else { id.rank - 1 };
            game.state.max_ranks.set(id.suit_index, v);
        }
        let mut t = game.common.thoughts[order];
        let single = IdentitySet::single(id);
        t.possible = single;
        t.inferred = single;
        game.common.thoughts.set(order, t);
        proof {
            let s = game.state;
            let os = old_game.state;
            lemma_hand_narrowed(os, s, pi as int);
            assert(s.wf()) by {
                assert forall|o: int| 0 <= o < s.deck@.len() implies ((#[trigger] s.deck@[o]).base matches Some(x) ==> s.id_ok(x)) by {
                    if o != order as int {
                        assert(s.deck@[o] == os.deck@[o]);
                    }
                }
                assert forall|t: int| 0 <= t < s.num_suits() implies (#[trigger] s.discard_stacks@[t])@.len() == 5 by {
                    assert(os.discard_stacks@[t]@.len() == 5);
                }
                assert forall|t: int| 0 <= t < s.num_suits() implies #[trigger] s.max_ranks@[t] <= 5 by {
                    assert(os.max_ranks@[t] <= 5);
                }
            }
            assert(thought_ok(t, order as int, s)) by {
                assert(id.ord() < 5 * s.num_suits()) by (nonlinear_arith)
                    requires id.suit_index < s.num_suits(), 1 <= id.rank <= 5, id.ord() == id.suit_index * 5 + id.rank - 1;
                assert(thought_ok(old_game.common.thoughts@[order as int], order as int, os));
            }
            assert forall|o: int| 0 <= o < game.common.thoughts@.len() implies thought_ok(#[trigger] game.common.thoughts@[o], o, s) by {
                if o != order as int {
                    assert(game.common.thoughts@[o] == old_game.common.thoughts@[o]);
                    assert(thought_ok(old_game.common.thoughts@[o], o, os));
                }
            }
            assert forall|l: int| 0 <= l < game.common.links@.len() implies link_ok(#[trigger] game.common.links@[l], s) by {
                assert(link_ok(old_game.common.links@[l], os));
            }
            assert forall|j: int| 0 <= j < game.players@.len() implies (#[trigger] game.players@[j]).wf(s) by {
                let p = game.players@[j];
                assert(p.wf(os));
                assert forall|o: int| 0 <= o < p.thoughts@.len() implies thought_ok(#[trigger] p.thoughts@[o], o, s) by {
                    assert(thought_ok(p.thoughts@[o], o, os));
                }
                assert forall|l: int| 0 <= l < p.links@.len() implies link_ok(#[trigger] p.links@[l], s) by {
                    assert(link_ok(p.links@[l], os));
                }
            }
            assert forall|o: int| 0 <= o < game.deck_ids@.len() implies ((#[trigger] game.deck_ids@[o]) matches Some(x) ==> s.id_ok(x)) by {
                if o != order as int {
                    assert(game.deck_ids@[o] == old_game.deck_ids@[o]);
                }
            }
            assert forall|t: int| 0 <= t < os.discard_stacks@.len() && t != id.suit_index as int implies #[trigger] s.discard_stacks@[t]@ == os.discard_stacks@[t]@ by {}
        }
    }
    game.state.endgame_turns = match game.state.endgame_turns {
        Some(t) => Some(t - 1),
        None => None,
    };
    if action.failed {
        game.state.strikes = game.state.strikes + 1;
    } else {
        let c = game.state.clue_tokens + 1;
        game.state.clue_tokens = if c < 8 { c } else { 8 };
    }
}

/// A card is played: it leaves the hand; where shown, it goes on its stack and is known
/// to everyone; a 5 gains a clue while there are fewer than 8.
pub fn on_play(game: &mut Game, action: &PlayAction)
    requires
        old(game).wf(),
        action.player_index < old(game).state.num_players,
        old(game).state.endgame_turns != Some(0usize),
        shown_id(action.suit_index, action.rank) matches Some(id) ==> action.order < old(game).state.deck@.len()
            && old(game).state.id_ok(id),
    ensures
        final(game).wf(),
        state_frame_same(final(game).state, old(game).state),
        final(game).state.discard_stacks@ == old(game).state.discard_stacks@,
        final(game).state.max_ranks@ == old(game).state.max_ranks@,
        final(game).state.card_order == old(game).state.card_order,
        final(game).state.cards_left == old(game).state.cards_left,
        final(game).state.strikes == old(game).state.strikes,
        final(game).state.endgame_turns == match old(game).state.endgame_turns {
            Some(t) => Some((t - 1) as usize),
            None => None,
        },
        final(game).state.clue_tokens == if action.rank == 5 && old(game).state.clue_tokens < 8 {
            (old(game).state.clue_tokens + 1) as usize } else { old(game).state.clue_tokens },
        final(game).state.hands@.len() == old(game).state.hands@.len(),
        final(game).state.hands@[action.player_index as int]@ == old(game).state.hands@[action.player_index as int]@.filter(|o: usize| o != action.order),
        forall|p: int| 0 <= p < old(game).state.hands@.len() && p != action.player_index ==> #[trigger] final(game).state.hands@[p]@ == old(game).state.hands@[p]@,
        final(game).players@ == old(game).players@,
        final(game).meta@ == old(game).meta@,
        player_same_but_thoughts(final(game).common, old(game).common),
        final(game).state.deck@.len() == old(game).state.deck@.len(),
        final(game).deck_ids@.len() == old(game).deck_ids@.len(),
        match shown_id(action.suit_index, action.rank) {
            None => {
                &&& final(game).state.play_stacks@ == old(game).state.play_stacks@
                &&& final(game).state.deck@ == old(game).state.deck@
                &&& final(game).deck_ids@ == old(game).deck_ids@
                &&& final(game).common.thoughts@ == old(game).common.thoughts@
            },
            Some(id) => {
                &&& final(game).state.play_stacks@ == old(game).state.play_stacks@.update(id.suit_index as int, id.rank)
                &&& known_card(old(game).state.deck@[action.order as int], id, final(game).state.deck@[action.order as int])
                &&& forall|o: int| 0 <= o < old(game).state.deck@.len() && o != action.order ==> #[trigger] final(game).state.deck@[o] == old(game).state.deck@[o]
                &&& final(game).deck_ids@ == old(game).deck_ids@.update(action.order as int, Some(id))
                &&& known_thought(old(game).common.thoughts@[action.order as int], id, true, final(game).common.thoughts@[action.order as int])
                &&& forall|o: int| 0 <= o < old(game).common.thoughts@.len() && o != action.order ==> #[trigger] final(game).common.thoughts@[o] == old(game).common.thoughts@[o]
            },
        },
{
    let ghost old_game = *game;
    let order = action.order;
    let pi = action.player_index;
    let new_hand = without(&game.state.hands[pi], order);
    game.state.hands.set(pi, new_hand);
    proof {
        lemma_hand_narrowed(old_game.state, game.state, pi as int);
    }
    if action.suit_index != -1 && action.rank != -1 {
        let id = Identity { suit_index: action.suit_index as usize, rank: action.rank as usize };
        proof {
            lemma_id_ok_valid(old_game.state, id);
        }
        game.state.play_stacks.set(id.suit_index, id.rank);
        game.state.deck[order].base = Some(id);
        game.deck_ids.set(order, Some(id));
        let mut t = game.common.thoughts[order];
        let single = IdentitySet::single(id);
        t.base = Some(id);
        t.possible = single;
        t.inferred = single;
        game.common.thoughts.set(order, t);
        proof {
            let s = game.state;
            let os = old_game.state;
            assert(s.wf()) by {
                assert forall|o: int| 0 <= o < s.deck@.len() implies ((#[trigger] s.deck@[o]).base matches Some(x) ==> s.id_ok(x)) by {
                    if o != order as int {
                        assert(s.deck@[o] == os.deck@[o]);
                    }
                }
                assert forall|t: int| 0 <= t < s.num_suits() implies #[trigger] s.play_stacks@[t] <= 5 by {
                    assert(os.play_stacks@[t] <= 5);
                }
            }
            assert(thought_ok(t, order as int, s)) by {
                assert(id.ord() < 5 * s.num_suits()) by (nonlinear_arith)
                    requires id.suit_index < s.num_suits(), 1 <= id.rank <= 5, id.ord() == id.suit_index * 5 + id.rank - 1;
                assert(thought_ok(old_game.common.thoughts@[order as int], order as int, os));
            }
            assert forall|o: int| 0 <= o < game.common.thoughts@.len() implies thought_ok(#[trigger] game.common.thoughts@[o], o, s) by {
                if o != order as int {
                    assert(game.common.thoughts@[o] == old_game.common.thoughts@[o]);
                    assert(thought_ok(old_game.common.thoughts@[o], o, os));
                }
            }
            assert forall|o: int| 0 <= o < game.deck_ids@.len() implies ((#[trigger] game.deck_ids@[o]) matches Some(x) ==> s.id_ok(x)) by {
                if o != order as int {
                    assert(game.deck_ids@[o] == old_game.deck_ids@[o]);
                }
            }
        }
    }
    proof {
        let s = game.state;
        let os = old_game.state;
        assert forall|l: int| 0 <= l < game.common.links@.len() implies link_ok(#[trigger] game.common.links@[l], s) by {
            assert(link_ok(old_game.common.links@[l], os));
        }
        assert forall|o: int| 0 <= o < game.common.thoughts@.len() implies thought_ok(#[trigger] game.common.thoughts@[o], o, s) by {
            if !(shown_id(action.suit_index, action.rank) is Some) || o != order as int {
                assert(game.common.thoughts@[o] == old_game.common.thoughts@[o]);
                assert(thought_ok(old_game.common.thoughts@[o], o, os));
            }
        }
        assert forall|j: int| 0 <= j < game.players@.len() implies (#[trigger] game.players@[j]).wf(s) by {
            let p = game.players@[j];
            assert(p.wf(os));
            assert forall|o: int| 0 <= o < p.thoughts@.len() implies thought_ok(#[trigger] p.thoughts@[o], o, s) by {
                assert(thought_ok(p.thoughts@[o], o, os));
            }
            assert forall|l: int| 0 <= l < p.links@.len() implies link_ok(#[trigger] p.links@[l], s) by {
                assert(link_ok(p.links@[l], os));
            }
        }
    }
    game.state.endgame_turns = match game.state.endgame_turns {
        Some(t) => Some(t - 1),
        None => None,
    };
    if action.rank == 5 && game.state.clue_tokens < 8 {
        game.state.clue_tokens = game.state.clue_tokens + 1;
    }
}

/// What everyone knows, and then what each player knows, is brought up to date: cards out
/// of inferences start over, then empathy, good touch where it holds, the links and the
/// hypothetical stacks, first in common and then for each player from the common thoughts.
/// A card started over that was called to play is no longer.
pub fn elim(game: &mut Game, good_touch: bool)
    requires
        old(game).wf(),
        old(game).state.consistent(),
    ensures
        final(game).wf(),
        final(game).state == old(game).state,
        final(game).deck_ids@ == old(game).deck_ids@,
        shrinks(old(game).common.thoughts@, final(game).common.thoughts@),
        final(game).players@.len() == old(game).players@.len(),
        forall|j: int, o: int| 0 <= j < final(game).players@.len() && 0 <= o < final(game).state.deck@.len() ==>
            (#[trigger] final(game).players@[j].thoughts@[o]).possible@.subset_of(final(game).common.thoughts@[o].possible@),
        final(game).meta@.len() == old(game).meta@.len(),
        forall|o: int| 0 <= o < old(game).meta@.len() ==> {
            let m = #[trigger] final(game).meta@[o];
            let n = old(game).meta@[o];
            &&& m.status == n.status || m.status == CardStatus::NoStatus
            &&& m.order == n.order && m.focused == n.focused && m.urgent == n.urgent && m.trash == n.trash
            &&& m.depends_on == n.depends_on && m.reasoning@ == n.reasoning@
        },
        forall|x: int| 0 <= x < 5 * old(game).state.num_suits() && #[trigger] crate::basics::player::elim::all_accounted(old(game).state, old(game).common, x)
            ==> crate::basics::player::elim::eliminated(old(game).state, old(game).common, final(game).common, x)
                || crate::basics::player::elim::newly_certain(old(game).state, old(game).common, final(game).common, x),
{
    let ghost old_game = *game;
    let orders = all_hand_cards(&game.state);
    let mut k: usize = 0;
    while k < orders.len()
        invariant
            game.state == old_game.state,
            game.players == old_game.players,
            game.deck_ids == old_game.deck_ids,
            game.wf(),
            k <= orders@.len(),
            forall|j: int| 0 <= j < orders@.len() ==> #[trigger] orders@[j] < game.state.deck@.len(),
            shrinks(old_game.common.thoughts@, game.common.thoughts@),
            forall|o: int| 0 <= o < old_game.common.thoughts@.len() ==> (#[trigger] game.common.thoughts@[o]).possible == old_game.common.thoughts@[o].possible
                && game.common.thoughts@[o].base == old_game.common.thoughts@[o].base,
            player_same_but_thoughts(game.common, old_game.common),
            game.meta@.len() == old_game.meta@.len(),
            forall|o: int| 0 <= o < old_game.meta@.len() ==> {
                let m = #[trigger] game.meta@[o];
                let n = old_game.meta@[o];
                &&& m.status == n.status || m.status == CardStatus::NoStatus
                &&& m.order == n.order && m.focused == n.focused && m.urgent == n.urgent && m.trash == n.trash
                &&& m.depends_on == n.depends_on && m.reasoning@ == n.reasoning@
            },
        decreases orders@.len() - k,
    {
        let order = orders[k];
        let t = game.common.thoughts[order];
        if t.inferred.is_empty() && !t.reset {
            let ghost before = game.common.thoughts@;
            let mut u = t;
            u.reset_inferences();
            game.common.thoughts.set(order, u);
            game.meta[order].status = CardStatus::NoStatus;
            proof {
                assert(thought_ok(t, order as int, game.state));
                assert forall|o: int| 0 <= o < game.common.thoughts@.len() implies thought_ok(#[trigger] game.common.thoughts@[o], o, game.state) by {
                    if o != order as int {
                        assert(game.common.thoughts@[o] == before[o]);
                    }
                }
                assert forall|o: int| 0 <= o < old_game.common.thoughts@.len() implies (#[trigger] game.common.thoughts@[o]).possible == old_game.common.thoughts@[o].possible
                    && game.common.thoughts@[o].base == old_game.common.thoughts@[o].base by {
                    if o != order as int {
                        assert(game.common.thoughts@[o] == before[o]);
                    }
                }
                assert forall|o: int| 0 <= o < old_game.common.thoughts@.len() implies (#[trigger] game.common.thoughts@[o]).possible@.subset_of(old_game.common.thoughts@[o].possible@)
                    && game.common.thoughts@[o].inferred@.subset_of(old_game.common.thoughts@[o].inferred@.union(old_game.common.thoughts@[o].possible@))
                    && (old_game.common.thoughts@[o].reset ==> game.common.thoughts@[o].reset) by {
                    if o != order as int {
                        assert(game.common.thoughts@[o] == before[o]);
                    }
                }
            }
        }
        k += 1;
    }
    let ghost after_resets = game.common.thoughts@;
    let ghost common_r = game.common;
    let mut resets = game.common.card_elim(&game.state);
    let ghost common_c = game.common;
    proof {
        crate::basics::player::elim::lemma_shrinks_trans(old_game.common.thoughts@, after_resets, game.common.thoughts@);
    }
    let frame = Frame::new(&game.state, &game.meta);
    if good_touch {
        let ghost before = game.common.thoughts@;
        let more = game.common.good_touch_elim(&frame);
        proof {
            crate::basics::player::elim::lemma_shrinks_trans(old_game.common.thoughts@, before, game.common.thoughts@);
        }
        let mut i: usize = 0;
        while i < more.len()
            invariant
                i <= more@.len(),
                forall|j: int| 0 <= j < more@.len() ==> #[trigger] more@[j] < game.state.deck@.len(),
                forall|j: int| 0 <= j < resets@.len() ==> #[trigger] resets@[j] < game.state.deck@.len(),
            decreases more@.len() - i,
        {
            resets.push(more[i]);
            i += 1;
        }
    }
    let ghost before = game.common.thoughts@;
    game.common.refresh_links(&frame, good_touch);
    proof {
        crate::basics::player::elim::lemma_shrinks_trans(old_game.common.thoughts@, before, game.common.thoughts@);
    }
    let none: Vec<usize> = Vec::new();
    game.common.update_hypo_stacks(&frame, none.as_slice());
    let ghost common_fin = game.common;
    proof {
        lemma_elimination_kept(game.state, old_game.common, common_r, common_c, common_fin);
    }
    let mut j: usize = 0;
    while j < game.players.len()
        invariant
            game.common == common_fin,
            game.state == old_game.state,
            frame.state == &game.state,
            frame.meta@ == game.meta@,
            game.deck_ids == old_game.deck_ids,
            game.state.wf(),
            game.state.consistent(),
            game.state.deck@.len() + 5 <= usize::MAX,
            game.common.wf(game.state),
            game.common.thoughts@.len() == game.state.deck@.len(),
            game.players@.len() == old_game.players@.len(),
            game.players@.len() == game.state.num_players,
            game.meta@.len() == game.state.deck@.len(),
            j <= game.players@.len(),
            forall|i: int| 0 <= i < game.players@.len() ==> (#[trigger] game.players@[i]).wf(game.state)
                && game.players@[i].thoughts@.len() == game.state.deck@.len(),
            forall|i: int, o: int| 0 <= i < j && 0 <= o < game.state.deck@.len() ==>
                (#[trigger] game.players@[i].thoughts@[o]).possible@.subset_of(game.common.thoughts@[o].possible@),
            forall|j: int| 0 <= j < resets@.len() ==> #[trigger] resets@[j] < game.state.deck@.len(),
        decreases game.players@.len() - j,
    {
        let n = game.players[j].thoughts.len();
        let mut i: usize = 0;
        while i < n
            invariant
                game.common == common_fin,
                game.state == old_game.state,
                game.deck_ids == old_game.deck_ids,
                frame.state == &game.state,
                frame.meta@ == game.meta@,
                game.state.wf(),
                game.common.wf(game.state),
                game.common.thoughts@.len() == game.state.deck@.len(),
                game.players@.len() == game.state.num_players,
                j < game.players@.len(),
                n == game.players@[j as int].thoughts@.len(),
                n == game.state.deck@.len(),
                i <= n,
                forall|i: int| 0 <= i < game.players@.len() ==> (#[trigger] game.players@[i]).wf(game.state)
                    && game.players@[i].thoughts@.len() == game.state.deck@.len(),
                forall|o: int| 0 <= o < i ==> (#[trigger] game.players@[j as int].thoughts@[o]).possible == game.common.thoughts@[o].possible,
                forall|i: int, o: int| 0 <= i < j && 0 <= o < game.state.deck@.len() ==>
                    (#[trigger] game.players@[i].thoughts@[o]).possible@.subset_of(game.common.thoughts@[o].possible@),
            decreases n - i,
        {
            let c = game.common.thoughts[i];
            let mut t = game.players[j].thoughts[i];
            t.possible = c.possible;
            t.inferred = c.inferred;
            t.info_lock = c.info_lock;
            t.reset = c.reset;
            let ghost before = game.players@[j as int];
            game.players[j].thoughts.set(i, t);
            proof {
                assert(thought_ok(c, i as int, game.state));
                assert(thought_ok(before.thoughts@[i as int], i as int, game.state));
                let p = game.players@[j as int];
                assert forall|o: int| 0 <= o < p.thoughts@.len() implies thought_ok(#[trigger] p.thoughts@[o], o, game.state) by {
                    if o != i as int {
                        assert(p.thoughts@[o] == before.thoughts@[o]);
                    }
                }
                assert(p.wf(game.state));
            }
            i += 1;
        }
        let ghost copied = game.players@[j as int].thoughts@;
        game.players[j].card_elim(&game.state);
        if good_touch {
            let ghost before = game.players@[j as int].thoughts@;
            game.players[j].good_touch_elim(&frame);
            proof {
                crate::basics::player::elim::lemma_shrinks_trans(copied, before, game.players@[j as int].thoughts@);
            }
        }
        let ghost before = game.players@[j as int].thoughts@;
        game.players[j].refresh_links(&frame, good_touch);
        proof {
            crate::basics::player::elim::lemma_shrinks_trans(copied, before, game.players@[j as int].thoughts@);
        }
        game.players[j].update_hypo_stacks(&frame, none.as_slice());
        proof {
            assert forall|o: int| 0 <= o < game.state.deck@.len() implies (#[trigger] game.players@[j as int].thoughts@[o]).possible@.subset_of(game.common.thoughts@[o].possible@) by {
                assert(copied[o].possible == game.common.thoughts@[o].possible);
            }
        }
        j += 1;
    }
    let ghost fin = *game;
    let mut k: usize = 0;
    while k < resets.len()
        invariant
            game.state == fin.state,
            game.players == fin.players,
            game.common == fin.common,
            game.deck_ids == fin.deck_ids,
            k <= resets@.len(),
            forall|j: int| 0 <= j < resets@.len() ==> #[trigger] resets@[j] < game.meta@.len(),
            game.meta@.len() == old_game.meta@.len(),
            forall|o: int| 0 <= o < old_game.meta@.len() ==> {
                let m = #[trigger] game.meta@[o];
                let n = old_game.meta@[o];
                &&& m.status == n.status || m.status == CardStatus::NoStatus
                &&& m.order == n.order && m.focused == n.focused && m.urgent == n.urgent && m.trash == n.trash
                &&& m.depends_on == n.depends_on && m.reasoning@ == n.reasoning@
            },
        decreases resets@.len() - k,
    {
        let order = resets[k];
        if game.meta[order].status == CardStatus::CalledToPlay {
            game.meta[order].status = CardStatus::NoStatus;
        }
        k += 1;
    }
}

/// The cards of the hands, hand by hand, each hand from slot 1.
pub open spec fn hands_flat(hands: Seq<Vec<usize>>) -> Seq<usize>
    decreases hands.len(),
{
    if hands.len() == 0 {
        Seq::empty()
    } else {
        hands_flat(hands.drop_last()) + hands.last()@
    }
}

/// The cards of the hands, hand by hand.
pub(crate) fn all_hand_cards(state: &State) -> (r: Vec<usize>)
    requires
        state.wf(),
    ensures
        r@ == crate::basics::hands_flat(state.hands@),
        forall|j: int| 0 <= j < r@.len() ==> #[trigger] r@[j] < state.deck@.len(),
{
    let mut r: Vec<usize> = Vec::new();
    let mut p: usize = 0;
    while p < state.hands.len()
        invariant
            state.wf(),
            p <= state.hands@.len(),
            r@ == crate::basics::hands_flat(state.hands@.take(p as int)),
            forall|j: int| 0 <= j < r@.len() ==> #[trigger] r@[j] < state.deck@.len(),
        decreases state.hands@.len() - p,
    {
        let hand = &state.hands[p];
        let mut i: usize = 0;
        while i < hand.len()
            invariant
                state.wf(),
                p < state.hands@.len(),
                *hand == state.hands@[p as int],
                i <= hand@.len(),
                r@ == crate::basics::hands_flat(state.hands@.take(p as int)) + hand@.take(i as int),
                forall|j: int| 0 <= j < r@.len() ==> #[trigger] r@[j] < state.deck@.len(),
            decreases hand@.len() - i,
        {
            proof {
                assert(state.hands@[p as int]@[i as int] < state.deck@.len());
            }
            r.push(hand[i]);
            proof {
                assert(hand@.take(i + 1) =~= hand@.take(i as int).push(hand@[i as int]));
            }
            i += 1;
        }
        proof {
            assert(state.hands@.take(p + 1).drop_last() =~= state.hands@.take(p as int));
            assert(hand@.take(hand@.len() as int) =~= hand@);
        }
        p += 1;
    }
    proof {
        assert(state.hands@.take(state.hands@.len() as int) =~= state.hands@);
    }
    r
}

/// Every card of the flattened hands is a card of some hand.
proof fn lemma_flat_member(hands: Seq<Vec<usize>>, m: int)
    requires
        0 <= m < hands_flat(hands).len(),
    ensures
        exists|p: int, i: int| 0 <= p < hands.len() && 0 <= i < hands[p]@.len() && hands[p]@[i] == hands_flat(hands)[m],
    decreases hands.len(),
{
    if hands.len() > 0 {
        let rest = hands_flat(hands.drop_last());
        if m < rest.len() {
            lemma_flat_member(hands.drop_last(), m);
            let (p, i) = choose|p: int, i: int| 0 <= p < hands.drop_last().len() && 0 <= i < hands.drop_last()[p]@.len()
                && hands.drop_last()[p]@[i] == rest[m];
            assert(hands[p] == hands.drop_last()[p]);
        } else {
            assert(hands[hands.len() - 1]@[m - rest.len()] == hands_flat(hands)[m]);
        }
    }
}

/// Filters by predicates that agree on the sequence's elements give the same.
proof fn lemma_filter_agree<A>(s: Seq<A>, f: spec_fn(A) -> bool, g: spec_fn(A) -> bool)
    requires
        forall|i: int| 0 <= i < s.len() ==> f(#[trigger] s[i]) == g(s[i]),
    ensures
        s.filter(f) == s.filter(g),
    decreases s.len(),
{
    reveal(Seq::filter);
    if s.len() > 0 {
        assert forall|i: int| 0 <= i < s.drop_last().len() implies f(#[trigger] s.drop_last()[i]) == g(s.drop_last()[i]) by {
            assert(s.drop_last()[i] == s[i]);
        }
        lemma_filter_agree(s.drop_last(), f, g);
        assert(f(s.last()) == g(s.last()));
    }
}

/// The elimination that empathy made in common stands through what follows it: the
/// cards known at the start were the same before the inferences started over, and
/// afterwards the possibilities only shrink and the overall sets stay.
proof fn lemma_elimination_kept(
    state: State,
    start: crate::basics::player::Player,
    reset: crate::basics::player::Player,
    elimmed: crate::basics::player::Player,
    fin: crate::basics::player::Player,
)
    requires
        state.wf(),
        start.is_common == reset.is_common,
        start.thoughts@.len() == reset.thoughts@.len(),
        start.thoughts@.len() >= state.deck@.len(),
        forall|o: int| 0 <= o < start.thoughts@.len() ==> (#[trigger] reset.thoughts@[o]).possible == start.thoughts@[o].possible
            && reset.thoughts@[o].base == start.thoughts@[o].base,
        forall|x: int| 0 <= x < 5 * state.num_suits() && #[trigger] crate::basics::player::elim::all_accounted(state, reset, x)
            ==> crate::basics::player::elim::eliminated(state, reset, elimmed, x) || crate::basics::player::elim::newly_certain(state, reset, elimmed, x),
        shrinks(elimmed.thoughts@, fin.thoughts@),
        elimmed.thoughts@.len() == start.thoughts@.len(),
        fin.all_possible@.subset_of(elimmed.all_possible@),
        fin.all_inferred@.subset_of(elimmed.all_inferred@),
    ensures
        forall|x: int| 0 <= x < 5 * state.num_suits() && #[trigger] crate::basics::player::elim::all_accounted(state, start, x)
            ==> crate::basics::player::elim::eliminated(state, start, fin, x) || crate::basics::player::elim::newly_certain(state, start, fin, x),
{
    assert forall|x: int| 0 <= x < 5 * state.num_suits() && #[trigger] crate::basics::player::elim::all_accounted(state, start, x)
        implies crate::basics::player::elim::eliminated(state, start, fin, x) || crate::basics::player::elim::newly_certain(state, start, fin, x) by {
        assert forall|o: int| 0 <= o < start.thoughts@.len() implies crate::basics::player::elim::known_as(start, o, x) == crate::basics::player::elim::known_as(reset, o, x) by {
            assert(reset.thoughts@[o].possible == start.thoughts@[o].possible);
        }
        let flat = hands_flat(state.hands@);
        let f = |o: usize| crate::basics::player::elim::known_as(start, o as int, x);
        let g = |o: usize| crate::basics::player::elim::known_as(reset, o as int, x);
        assert forall|m: int| 0 <= m < flat.len() implies f(#[trigger] flat[m]) == g(flat[m]) by {
            lemma_flat_member(state.hands@, m);
            let (p, i) = choose|p: int, i: int| 0 <= p < state.hands@.len() && 0 <= i < state.hands@[p]@.len() && state.hands@[p]@[i] == flat[m];
            assert(state.hands@[p]@[i] < state.deck@.len());
        }
        lemma_filter_agree(flat, f, g);
        assert(f =~= (|o: usize| crate::basics::player::elim::known_as(start, o as int, x)));
        assert(g =~= (|o: usize| crate::basics::player::elim::known_as(reset, o as int, x)));
        assert(crate::basics::player::elim::all_accounted(state, reset, x));
        if crate::basics::player::elim::eliminated(state, reset, elimmed, x) {
            assert forall|p: int, i: int| 0 <= p < state.hands@.len() && 0 <= i < state.hands@[p]@.len()
                && (forall|j: int| 0 <= j < state.hands@[p]@.len() ==> !crate::basics::player::elim::known_as(start, #[trigger] state.hands@[p]@[j] as int, x))
                implies !fin.thoughts@[#[trigger] state.hands@[p]@[i] as int].possible@.contains(x) by {
                assert forall|j: int| 0 <= j < state.hands@[p]@.len() implies !crate::basics::player::elim::known_as(reset, #[trigger] state.hands@[p]@[j] as int, x) by {
                    assert(state.hands@[p]@[j] < state.deck@.len());
                    assert(!crate::basics::player::elim::known_as(start, state.hands@[p]@[j] as int, x));
                }
                let o = state.hands@[p]@[i] as int;
                assert(o < state.deck@.len());
                assert(fin.thoughts@[o].possible@.subset_of(elimmed.thoughts@[o].possible@));
            }
        } else {
            let o = choose|o: int| 0 <= o < elimmed.thoughts@.len() && !crate::basics::player::elim::known_cards(state, reset, x).contains(o as usize)
                && (#[trigger] elimmed.thoughts@[o]).possible@.subset_of(set![x]);
            assert(fin.thoughts@[o].possible@.subset_of(elimmed.thoughts@[o].possible@));
        }
    }
}

} // verus!
