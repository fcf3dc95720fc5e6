use vstd::prelude::*;

use crate::basics::card::{CardStatus, Identifiable, IdOptions, Identity, MatchOptions, match_result};
use crate::basics::game::Game;
use crate::basics::game::frame::Frame;
use crate::basics::player::thought_ok;
use crate::basics::state::lemma_id_ok_valid;

verus! {

/// The cards of the hand that a clue newly touched, filled in, or narrowed.
pub struct ElimResult {
    pub new_touched: Vec<usize>,
    pub fill: Vec<usize>,
    pub elim: Vec<usize>,
}

/// How the clue changed the card: 1 newly touched, 2 filled in, 3 narrowed, 0 none of these.
pub open spec fn elim_kind(prev: Game, game: Game, list: Seq<usize>, order: int) -> int {
    let thought = game.common.thoughts@[order];
    let card = game.state.deck@[order];
    let status = game.meta@[order].status;
    let consistent = game.state.has_consistent_inferences_spec(thought);
    if card.clued && status != CardStatus::CalledToDiscard && thought.possible@.len() < prev.common.thoughts@[order].possible@.len() {
        if card.newly_clued && !prev.frame_spec().is_blind_playing_spec(order) && !game.common.order_kt_spec(game.frame_spec(), order) {
            1
        } else if list.contains(order as usize) && consistent && status != CardStatus::CalledToPlay {
            2
        } else if consistent {
            3
        } else {
            0
        }
    } else {
        0
    }
}

/// Both games are well formed and hold the same cards.
pub open spec fn same_deck(prev: Game, game: Game) -> bool {
    &&& prev.wf()
    &&& game.wf()
    &&& prev.state.deck@.len() == game.state.deck@.len()
}

/// Sorts the cards of the hand by what the clue did to them.
pub fn elim_result(prev: &Game, game: &Game, hand: &[usize], list: &[usize]) -> (r: ElimResult)
    requires
        same_deck(*prev, *game),
        forall|j: int| 0 <= j < hand@.len() ==> #[trigger] hand@[j] < game.state.deck@.len(),
    ensures
        r.new_touched@ == hand@.filter(|o: usize| elim_kind(*prev, *game, list@, o as int) == 1),
        r.fill@ == hand@.filter(|o: usize| elim_kind(*prev, *game, list@, o as int) == 2),
        r.elim@ == hand@.filter(|o: usize| elim_kind(*prev, *game, list@, o as int) == 3),
{
    let ghost f1 = |o: usize| elim_kind(*prev, *game, list@, o as int) == 1;
    let ghost f2 = |o: usize| elim_kind(*prev, *game, list@, o as int) == 2;
    let ghost f3 = |o: usize| elim_kind(*prev, *game, list@, o as int) == 3;
    let mut new_touched: Vec<usize> = Vec::new();
    let mut fill: Vec<usize> = Vec::new();
    let mut elim: Vec<usize> = Vec::new();
    let prev_frame = prev.frame();
    let frame = game.frame();
    let mut i: usize = 0;
    while i < hand.len()
        invariant
            same_deck(*prev, *game),
            forall|j: int| 0 <= j < hand@.len() ==> #[trigger] hand@[j] < game.state.deck@.len(),
            prev_frame == prev.frame_spec(),
            frame == game.frame_spec(),
            i <= hand@.len(),
            f1 == (|o: usize| elim_kind(*prev, *game, list@, o as int) == 1),
            f2 == (|o: usize| elim_kind(*prev, *game, list@, o as int) == 2),
            f3 == (|o: usize| elim_kind(*prev, *game, list@, o as int) == 3),
            new_touched@ == hand@.take(i as int).filter(f1),
            fill@ == hand@.take(i as int).filter(f2),
            elim@ == hand@.take(i as int).filter(f3),
        decreases hand@.len() - i,
    {
        let order = hand[i];
        proof {
            assert(hand@.take(i + 1) =~= hand@.take(i as int).push(order));
            hand@.take(i as int).lemma_filter_push(order, f1);
            hand@.take(i as int).lemma_filter_push(order, f2);
            hand@.take(i as int).lemma_filter_push(order, f3);
            assert(thought_ok(game.common.thoughts@[order as int], order as int, game.state));
        }
        let thought = game.common.thoughts[order];
        let card = &game.state.deck[order];
        let status = game.meta[order].status;
        if card.clued && status != CardStatus::CalledToDiscard && thought.possible.len() < prev.common.thoughts[order].possible.len() {
            if card.newly_clued && !prev_frame.is_blind_playing(order) && !game.common.order_kt(&frame, order) {
                new_touched.push(order);
            } else if contains_slice(list, order) && game.state.has_consistent_inferences(&thought) && status != CardStatus::CalledToPlay {
                fill.push(order);
            } else if game.state.has_consistent_inferences(&thought) {
                elim.push(order);
            }
        }
        i += 1;
    }
    proof {
        assert(hand@.take(hand@.len() as int) =~= hand@);
    }
    ElimResult { new_touched, fill, elim }
}

/// Whether the slice holds the value.
fn contains_slice(v: &[usize], x: usize) -> (r: bool)
    ensures
        r == v@.contains(x),
{
    let mut i: usize = 0;
    while i < v.len()
        invariant
            i <= v@.len(),
            forall|j: int| 0 <= j < i ==> v@[j] != x,
        decreases v@.len() - i,
    {
        if v[i] == x {
            return true;
        }
        i += 1;
    }
    false
}

/// The cards newly thought playable, and those among them newly blind played.
pub struct PlayablesResult {
    pub blind_plays: Vec<usize>,
    pub playables: Vec<usize>,
}

/// The cards that the current player now thinks will be played and did not before,
/// and among them those newly blind played.
pub fn playables_result(prev: &Game, game: &Game) -> (r: PlayablesResult)
    requires
        same_deck(*prev, *game),
        prev.state.current_player_index < prev.players@.len(),
        game.state.current_player_index < game.players@.len(),
    ensures
        ({
            let plays = game.players@[game.state.current_player_index as int].hypo_plays@;
            let old_plays = prev.players@[prev.state.current_player_index as int].hypo_plays@;
            let fresh = plays.filter(|o: usize| !old_plays.contains(o));
            &&& r.playables@ == fresh
            &&& r.blind_plays@ == fresh.filter(|o: usize| game.frame_spec().is_blind_playing_spec(o as int)
                && !prev.frame_spec().is_blind_playing_spec(o as int))
        }),
{
    let me = game.me();
    let prev_me = prev.me();
    let prev_frame = prev.frame();
    let frame = game.frame();
    let ghost old_plays = prev_me.hypo_plays@;
    let ghost f = |o: usize| !old_plays.contains(o);
    let ghost g = |o: usize| game.frame_spec().is_blind_playing_spec(o as int) && !prev.frame_spec().is_blind_playing_spec(o as int);
    let mut blind_plays: Vec<usize> = Vec::new();
    let mut playables: Vec<usize> = Vec::new();
    let mut i: usize = 0;
    proof {
        assert(me.wf(game.state));
    }
    while i < me.hypo_plays.len()
        invariant
            same_deck(*prev, *game),
            *me == game.players@[game.state.current_player_index as int],
            *prev_me == prev.players@[prev.state.current_player_index as int],
            old_plays == prev_me.hypo_plays@,
            me.wf(game.state),
            prev_frame == prev.frame_spec(),
            frame == game.frame_spec(),
            f == (|o: usize| !old_plays.contains(o)),
            g == (|o: usize| game.frame_spec().is_blind_playing_spec(o as int) && !prev.frame_spec().is_blind_playing_spec(o as int)),
            i <= me.hypo_plays@.len(),
            playables@ == me.hypo_plays@.take(i as int).filter(f),
            blind_plays@ == me.hypo_plays@.take(i as int).filter(f).filter(g),
        decreases me.hypo_plays@.len() - i,
    {
        let order = me.hypo_plays[i];
        proof {
            assert(me.hypo_plays@.take(i + 1) =~= me.hypo_plays@.take(i as int).push(order));
            me.hypo_plays@.take(i as int).lemma_filter_push(order, f);
            me.hypo_plays@.take(i as int).filter(f).lemma_filter_push(order, g);
        }
        if !contains_vec(&prev_me.hypo_plays, order) {
            if frame.is_blind_playing(order) && !prev_frame.is_blind_playing(order) {
                blind_plays.push(order);
            }
            playables.push(order);
        }
        i += 1;
    }
    proof {
        assert(me.hypo_plays@.take(me.hypo_plays@.len() as int) =~= me.hypo_plays@);
    }
    PlayablesResult { blind_plays, playables }
}

/// Whether the list holds the value.
fn contains_vec(v: &Vec<usize>, x: usize) -> (r: bool)
    ensures
        r == v@.contains(x),
{
    contains_slice(v.as_slice(), x)
}

/// The cards that a clue chop moved.
pub struct CMResult {
    pub cm: Vec<usize>,
}

/// The cards that everyone thinks will be played and that became chop moved.
pub fn cm_result(prev: &Game, game: &Game) -> (r: CMResult)
    requires
        same_deck(*prev, *game),
    ensures
        r.cm@ == game.common.hypo_plays@.filter(|o: usize| game.meta@[o as int].status == CardStatus::ChopMoved
            && prev.meta@[o as int].status != CardStatus::ChopMoved),
{
    let plays = &game.common.hypo_plays;
    let ghost f = |o: usize| game.meta@[o as int].status == CardStatus::ChopMoved && prev.meta@[o as int].status != CardStatus::ChopMoved;
    let mut cm: Vec<usize> = Vec::new();
    let mut i: usize = 0;
    while i < plays.len()
        invariant
            same_deck(*prev, *game),
            *plays == game.common.hypo_plays,
            f == (|o: usize| game.meta@[o as int].status == CardStatus::ChopMoved && prev.meta@[o as int].status != CardStatus::ChopMoved),
            i <= plays@.len(),
            cm@ == plays@.take(i as int).filter(f),
        decreases plays@.len() - i,
    {
        let order = plays[i];
        proof {
            assert(plays@.take(i + 1) =~= plays@.take(i as int).push(order));
            plays@.take(i as int).lemma_filter_push(order, f);
        }
        if game.meta[order].cm() && !prev.meta[order].cm() {
            cm.push(order);
        }
        i += 1;
    }
    proof {
        assert(plays@.take(plays@.len() as int) =~= plays@);
    }
    CMResult { cm }
}

/// The cards of a clue that touched trash or duplicates, those known trash, and how many
/// more duplicates the giver made than the player who could have made the fewest.
pub struct BadTouchResult {
    pub bad_touch: Vec<usize>,
    pub trash: Vec<usize>,
    pub avoidable_dupe: usize,
}

/// The identity of a newly clued card that is shown and not trash.
pub open spec fn dupe_id(game: Game, o: usize) -> Option<Identity> {
    let card = game.state.deck@[o as int];
    match card.base {
        Some(id) => if card.newly_clued && !game.state.is_basic_trash_spec(id) { Some(id) } else { None },
        None => None,
    }
}

/// The clued cards of the hand that may be, among others, the identity.
pub open spec fn dupe_count(game: Game, hand: Seq<usize>, id: Identity) -> nat
    decreases hand.len(),
{
    if hand.len() == 0 {
        0
    } else {
        let o = hand.last();
        let t = game.common.thoughts@[o as int];
        dupe_count(game, hand.drop_last(), id) + if game.state.deck@[o as int].clued && t.inferred@.len() > 1 && t.inferred@.contains(id.ord()) {
            1nat
        } else {
            0nat
        }
    }
}

/// The cards of the player's hand that the clued cards of the target hand could duplicate.
pub open spec fn dupe_sum(game: Game, target_hand: Seq<usize>, hand: Seq<usize>) -> nat
    decreases target_hand.len(),
{
    if target_hand.len() == 0 {
        0
    } else {
        dupe_sum(game, target_hand.drop_last(), hand) + match dupe_id(game, target_hand.last()) {
            Some(id) => dupe_count(game, hand, id),
            None => 0,
        }
    }
}

/// The duplicates that a clue from the player to the target would make; the target
/// cannot clue itself.
pub open spec fn dupe_score(game: Game, target: int, i: int) -> int {
    if i == target {
        99
    } else {
        dupe_sum(game, game.state.hands@[target]@, game.state.hands@[i]@) as int
    }
}

/// Some touched card, thought by the current player to be the card's identity, is in
/// another hand or before it in the target's hand.
pub open spec fn duplicated(prev: Game, game: Game, target: int, order: usize) -> bool {
    exists|p: int, i: int|
        0 <= p < game.state.hands@.len() && 0 <= i < game.state.hands@[p]@.len() && {
            let o = #[trigger] game.state.hands@[p]@[i];
            &&& prev.frame_spec().is_touched_spec(o as int) || game.frame_spec().is_touched_spec(o as int)
            &&& match_result(
                game.players@[game.state.current_player_index as int].thoughts@[o as int].identity_spec(IdOptions { infer: true, symmetric: false }),
                game.state.deck@[order as int].base,
                false,
            )
            &&& (p != target || o < order)
        }
}

/// Sorts out the trash and the duplicates that a clue from the giver to the target touched.
pub fn bad_touch_result(prev: &Game, game: &Game, giver: usize, target: usize) -> (r: BadTouchResult)
    requires
        same_deck(*prev, *game),
        prev.state.num_players == game.state.num_players,
        giver < game.state.num_players,
        target < game.state.num_players,
        game.state.current_player_index < game.state.num_players,
        forall|p: int| 0 <= p < game.state.hands@.len() ==> (#[trigger] game.state.hands@[p])@.len() < 65536,
    ensures
        exists|k: int| {
            &&& 0 <= k < game.state.num_players
            &&& forall|i: int| 0 <= i < game.state.num_players ==> dupe_score(*game, target as int, k) <= #[trigger] dupe_score(*game, target as int, i)
            &&& r.avoidable_dupe == dupe_score(*game, target as int, giver as int) - dupe_score(*game, target as int, k)
        },
        r.trash@ == game.state.hands@[target as int]@.filter(|o: usize| game.state.deck@[o as int].newly_clued
            && game.common.order_kt_spec(game.frame_spec(), o as int)),
        forall|o: usize| #[trigger] r.bad_touch@.contains(o) <==> {
            &&& game.state.hands@[target as int]@.contains(o)
            &&& game.state.deck@[o as int].newly_clued
            &&& !game.common.order_kt_spec(game.frame_spec(), o as int)
            &&& (game.state.deck@[o as int].base matches Some(id) && game.state.is_basic_trash_spec(id)) || duplicated(*prev, *game, target as int, o)
        },
{
    let state = &game.state;
    let hand = &state.hands[target];
    proof {
        assert forall|j: int| 0 <= j < hand@.len() implies #[trigger] hand@[j] < state.deck@.len() by {
            assert(state.hands@[target as int]@[j] < state.deck@.len());
        }
    }
    // The duplicates each player's clue would make
    let mut scores: Vec<usize> = Vec::new();
    let mut i: usize = 0;
    while i < prev.players.len()
        invariant
            same_deck(*prev, *game),
            *state == game.state,
            *hand == state.hands@[target as int],
            forall|j: int| 0 <= j < hand@.len() ==> #[trigger] hand@[j] < state.deck@.len(),
            prev.players@.len() == state.num_players,
            target < state.num_players,
            forall|p: int| 0 <= p < state.hands@.len() ==> (#[trigger] state.hands@[p])@.len() < 65536,
            i <= prev.players@.len(),
            scores@.len() == i,
            forall|j: int| 0 <= j < i ==> #[trigger] scores@[j] == dupe_score(*game, target as int, j),
        decreases prev.players@.len() - i,
    {
        if i == target {
            scores.push(99);
        } else {
            let other = &state.hands[i];
            let mut score: usize = 0;
            let mut k: usize = 0;
            while k < hand.len()
                invariant
                    same_deck(*prev, *game),
                    *state == game.state,
                    *hand == state.hands@[target as int],
                    *other == state.hands@[i as int],
                    i < state.hands@.len(),
                    forall|j: int| 0 <= j < hand@.len() ==> #[trigger] hand@[j] < state.deck@.len(),
                    hand@.len() < 65536,
                    other@.len() < 65536,
                    k <= hand@.len(),
                    score == dupe_sum(*game, hand@.take(k as int), other@),
                    score <= k * other@.len(),
                decreases hand@.len() - k,
            {
                let order = hand[k];
                proof {
                    assert(hand@.take(k + 1).drop_last() =~= hand@.take(k as int));
                    assert(hand@.take(k + 1).last() == order);
                }
                let card = &state.deck[order];
                let mut add: usize = 0;
                if card.newly_clued {
                    match card.id() {
                        Some(id) => {
                            proof {
                                lemma_id_ok_valid(*state, id);
                            }
                            if !state.is_basic_trash(id) {
                                let mut c: usize = 0;
                                while c < other.len()
                                    invariant
                                        same_deck(*prev, *game),
                                        *state == game.state,
                                        *other == state.hands@[i as int],
                                        i < state.hands@.len(),
                                        id.valid(),
                                        c <= other@.len(),
                                        add == dupe_count(*game, other@.take(c as int), id),
                                        add <= c,
                                    decreases other@.len() - c,
                                {
                                    let o = other[c];
                                    proof {
                                        assert(other@.take(c + 1).drop_last() =~= other@.take(c as int));
                                        assert(state.hands@[i as int]@[c as int] < state.deck@.len());
                                    }
                                    let t = game.common.thoughts[o];
                                    if state.deck[o].clued && t.inferred.len() > 1 && t.inferred.contains(id) {
                                        add += 1;
                                    }
                                    c += 1;
                                }
                                proof {
                                    assert(other@.take(other@.len() as int) =~= other@);
                                }
                            }
                        },
                        None => {},
                    }
                }
                proof {
                    assert((k + 1) * other@.len() == k * other@.len() + other@.len()) by (nonlinear_arith);
                    assert((k + 1) * other@.len() <= 65535 * 65535) by (nonlinear_arith)
                        requires k + 1 <= 65535, other@.len() <= 65535;
                }
                score = score + add;
                k += 1;
            }
            proof {
                assert(hand@.take(hand@.len() as int) =~= hand@);
            }
            scores.push(score);
        }
        i += 1;
    }
    let mut min_dupe: usize = scores[0];
    let mut best: usize = 0;
    let mut i: usize = 1;
    while i < scores.len()
        invariant
            scores@.len() == state.num_players,
            1 <= i <= scores@.len(),
            best < i,
            min_dupe == scores@[best as int],
            forall|j: int| 0 <= j < scores@.len() ==> #[trigger] scores@[j] == dupe_score(*game, target as int, j),
            forall|j: int| 0 <= j < i ==> min_dupe <= #[trigger] scores@[j],
        decreases scores@.len() - i,
    {
        if scores[i] < min_dupe {
            min_dupe = scores[i];
            best = i;
        }
        i += 1;
    }
    let avoidable_dupe = scores[giver] - min_dupe;
    proof {
        assert forall|i: int| 0 <= i < game.state.num_players implies dupe_score(*game, target as int, best as int) <= #[trigger] dupe_score(*game, target as int, i) by {
            assert(scores@[i] == dupe_score(*game, target as int, i));
        }
        assert(scores@[giver as int] == dupe_score(*game, target as int, giver as int));
    }
    let frame = game.frame();
    let prev_frame = prev.frame();
    let ghost ft = |o: usize| game.state.deck@[o as int].newly_clued && game.common.order_kt_spec(game.frame_spec(), o as int);
    let mut bad_touch: Vec<usize> = Vec::new();
    let mut trash: Vec<usize> = Vec::new();
    let mut k: usize = 0;
    while k < hand.len()
        invariant
            same_deck(*prev, *game),
            *state == game.state,
            frame == game.frame_spec(),
            *hand == state.hands@[target as int],
            forall|j: int| 0 <= j < hand@.len() ==> #[trigger] hand@[j] < state.deck@.len(),
            k <= hand@.len(),
            ft == (|o: usize| game.state.deck@[o as int].newly_clued && game.common.order_kt_spec(game.frame_spec(), o as int)),
            trash@ == hand@.take(k as int).filter(ft),
            forall|o: usize| #[trigger] bad_touch@.contains(o) <==> hand@.take(k as int).contains(o) && state.deck@[o as int].newly_clued
                && !game.common.order_kt_spec(game.frame_spec(), o as int)
                && (state.deck@[o as int].base matches Some(id) && state.is_basic_trash_spec(id)),
        decreases hand@.len() - k,
    {
        let order = hand[k];
        let ghost before = bad_touch@;
        proof {
            assert(hand@.take(k + 1) =~= hand@.take(k as int).push(order));
            hand@.take(k as int).lemma_filter_push(order, ft);
            crate::basics::lemma_take_push_contains(hand@, k as int);
        }
        let card = &state.deck[order];
        if card.newly_clued {
            if game.common.order_kt(&frame, order) {
                trash.push(order);
            } else {
                match card.id() {
                    Some(id) => {
                        proof {
                            lemma_id_ok_valid(*state, id);
                        }
                        if state.is_basic_trash(id) {
                            bad_touch.push(order);
                        }
                    },
                    None => {},
                }
            }
        }
        proof {
            assert forall|o: usize| #[trigger] bad_touch@.contains(o) <==> hand@.take(k + 1).contains(o) && state.deck@[o as int].newly_clued
                && !game.common.order_kt_spec(game.frame_spec(), o as int)
                && (state.deck@[o as int].base matches Some(id) && state.is_basic_trash_spec(id)) by {
                crate::basics::lemma_push_contains(before, order, o);
            }
        }
        k += 1;
    }
    proof {
        assert(hand@.take(hand@.len() as int) =~= hand@);
    }
    let me = game.me();
    let opts = MatchOptions { infer: true, symmetric: false, assumed: false };
    let ghost first = bad_touch@;
    let mut k: usize = 0;
    while k < hand.len()
        invariant
            same_deck(*prev, *game),
            *state == game.state,
            frame == game.frame_spec(),
            prev_frame == prev.frame_spec(),
            *me == game.players@[game.state.current_player_index as int],
            game.state.current_player_index < game.state.num_players,
            opts == (MatchOptions { infer: true, symmetric: false, assumed: false }),
            *hand == state.hands@[target as int],
            target < state.num_players,
            forall|j: int| 0 <= j < hand@.len() ==> #[trigger] hand@[j] < state.deck@.len(),
            k <= hand@.len(),
            ft == (|o: usize| game.state.deck@[o as int].newly_clued && game.common.order_kt_spec(game.frame_spec(), o as int)),
            trash@ == hand@.filter(ft),
            forall|o: usize| #[trigger] first.contains(o) <==> hand@.contains(o) && state.deck@[o as int].newly_clued
                && !game.common.order_kt_spec(game.frame_spec(), o as int)
                && (state.deck@[o as int].base matches Some(id) && state.is_basic_trash_spec(id)),
            forall|o: usize| #[trigger] bad_touch@.contains(o) <==> first.contains(o) || (hand@.take(k as int).contains(o)
                && state.deck@[o as int].newly_clued && !game.common.order_kt_spec(game.frame_spec(), o as int)
                && duplicated(*prev, *game, target as int, o)),
        decreases hand@.len() - k,
    {
        let order = hand[k];
        let ghost before = bad_touch@;
        proof {
            crate::basics::lemma_take_push_contains(hand@, k as int);
            assert(me.wf(game.state));
        }
        let card = &state.deck[order];
        let skip = !card.newly_clued || contains_vec(&bad_touch, order) || contains_vec(&trash, order);
        if !skip {
            let mut p: usize = 0;
            while p < state.hands.len()
                invariant
                    same_deck(*prev, *game),
                    *state == game.state,
                    frame == game.frame_spec(),
                    prev_frame == prev.frame_spec(),
                    *me == game.players@[game.state.current_player_index as int],
                    me.wf(game.state),
                    opts == (MatchOptions { infer: true, symmetric: false, assumed: false }),
                    order < state.deck@.len(),
                    *card == state.deck@[order as int],
                    p <= state.hands@.len(),
                    forall|o: usize| #[trigger] bad_touch@.contains(o) <==> before.contains(o) || (o == order && exists|p2: int, i2: int|
                        0 <= p2 < p && 0 <= i2 < game.state.hands@[p2]@.len() && {
                            let o2 = #[trigger] game.state.hands@[p2]@[i2];
                            &&& prev.frame_spec().is_touched_spec(o2 as int) || game.frame_spec().is_touched_spec(o2 as int)
                            &&& match_result(
                                game.players@[game.state.current_player_index as int].thoughts@[o2 as int].identity_spec(IdOptions { infer: true, symmetric: false }),
                                game.state.deck@[order as int].base,
                                false,
                            )
                            &&& (p2 != target || o2 < order)
                        }),
                decreases state.hands@.len() - p,
            {
                let other = &state.hands[p];
                let mut i: usize = 0;
                while i < other.len()
                    invariant
                        same_deck(*prev, *game),
                        *state == game.state,
                        frame == game.frame_spec(),
                        prev_frame == prev.frame_spec(),
                        *me == game.players@[game.state.current_player_index as int],
                        me.wf(game.state),
                        opts == (MatchOptions { infer: true, symmetric: false, assumed: false }),
                        order < state.deck@.len(),
                        *card == state.deck@[order as int],
                        p < state.hands@.len(),
                        *other == state.hands@[p as int],
                        i <= other@.len(),
                        forall|o: usize| #[trigger] bad_touch@.contains(o) <==> before.contains(o) || (o == order && exists|p2: int, i2: int|
                            0 <= p2 < state.hands@.len() && 0 <= i2 < game.state.hands@[p2]@.len() && (p2 < p || (p2 == p && i2 < i)) && {
                                let o2 = #[trigger] game.state.hands@[p2]@[i2];
                                &&& prev.frame_spec().is_touched_spec(o2 as int) || game.frame_spec().is_touched_spec(o2 as int)
                                &&& match_result(
                                    game.players@[game.state.current_player_index as int].thoughts@[o2 as int].identity_spec(IdOptions { infer: true, symmetric: false }),
                                    game.state.deck@[order as int].base,
                                    false,
                                )
                                &&& (p2 != target || o2 < order)
                            }),
                    decreases other@.len() - i,
                {
                    let o = other[i];
                    proof {
                        assert(state.hands@[p as int]@[i as int] < state.deck@.len());
                        assert(state.hands@[p as int]@[i as int] == o);
                    }
                    let ghost mid = bad_touch@;
                    let duplicated = (prev_frame.is_touched(o) || frame.is_touched(o)) && me.thoughts[o].matches(card, &opts)
                        && (p != target || o < order);
                    if duplicated {
                        bad_touch.push(order);
                    }
                    proof {
                        assert forall|x: usize| #[trigger] bad_touch@.contains(x) <==> before.contains(x) || (x == order && exists|p2: int, i2: int|
                            0 <= p2 < state.hands@.len() && 0 <= i2 < game.state.hands@[p2]@.len() && (p2 < p || (p2 == p && i2 < i + 1)) && {
                                let o2 = #[trigger] game.state.hands@[p2]@[i2];
                                &&& prev.frame_spec().is_touched_spec(o2 as int) || game.frame_spec().is_touched_spec(o2 as int)
                                &&& match_result(
                                    game.players@[game.state.current_player_index as int].thoughts@[o2 as int].identity_spec(IdOptions { infer: true, symmetric: false }),
                                    game.state.deck@[order as int].base,
                                    false,
                                )
                                &&& (p2 != target || o2 < order)
                            }) by {
                            crate::basics::lemma_push_contains(mid, order, x);
                        }
                    }
                    i += 1;
                }
                p += 1;
            }
        }
        proof {
            broadcast use vstd::seq_lib::group_filter_ensures;
            assert(!hand@.take(k as int).contains(order)) by {
                if hand@.take(k as int).contains(order) {
                    let j = choose|j: int| 0 <= j < k && #[trigger] hand@.take(k as int)[j] == order;
                    assert(state.hands@[target as int]@[j] == state.hands@[target as int]@[k as int]);
                }
            }
            assert(hand@.contains(order)) by {
                assert(hand@[k as int] == order);
            }
            if trash@.contains(order) {
                let j = choose|j: int| 0 <= j < trash@.len() && trash@[j] == order;
                hand@.lemma_filter_pred(ft, j);
                assert(ft(order));
            }
            if card.newly_clued && game.common.order_kt_spec(game.frame_spec(), order as int) {
                assert(ft(hand@[k as int]));
                hand@.lemma_filter_contains(ft, k as int);
            }
            assert(trash@.contains(order) ==> game.common.order_kt_spec(game.frame_spec(), order as int));
            assert(card.newly_clued && game.common.order_kt_spec(game.frame_spec(), order as int) ==> trash@.contains(order));
            assert forall|o: usize| #[trigger] bad_touch@.contains(o) <==> first.contains(o) || (hand@.take(k + 1).contains(o)
                && state.deck@[o as int].newly_clued && !game.common.order_kt_spec(game.frame_spec(), o as int)
                && duplicated(*prev, *game, target as int, o)) by {
                if o != order {
                    assert(hand@.take(k + 1).contains(o) == hand@.take(k as int).contains(o));
                    if skip {
                        assert(bad_touch@ == before);
                    }
                } else if !skip {
                    assert(!before.contains(order));
                    assert(!first.contains(order));
                }
            }
        }
        k += 1;
    }
    proof {
        assert(hand@.take(hand@.len() as int) =~= hand@);
        assert forall|o: usize| #[trigger] bad_touch@.contains(o) <==> {
            &&& game.state.hands@[target as int]@.contains(o)
            &&& game.state.deck@[o as int].newly_clued
            &&& !game.common.order_kt_spec(game.frame_spec(), o as int)
            &&& (game.state.deck@[o as int].base matches Some(id) && game.state.is_basic_trash_spec(id)) || duplicated(*prev, *game, target as int, o)
        } by {}
    }
    BadTouchResult { bad_touch, trash, avoidable_dupe }
}

} // verus!
