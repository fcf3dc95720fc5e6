use vstd::prelude::*;
use crate::basics::action::ClueAction;
use crate::basics::card::{match_result, IdOptions, Identifiable, Identity, MatchOptions};
use crate::basics::game::Game;

verus! {

/// Everyone's inferences on the card were reset by the clue.
pub open spec fn clued_reset(prev: Game, game: Game, order: int) -> bool {
    !prev.common.thoughts@[order].reset && game.common.thoughts@[order].reset
}

/// `other` is another card that was clued before, is the same card as `order` now,
/// and that everyone did not already take for the same identity.
pub open spec fn dupe_partner(prev: Game, game: Game, order: int, other: int) -> bool {
    &&& other != order
    &&& prev.state.deck@[other].clued
    &&& match_result(
        game.state.deck@[order].identity_spec(IdOptions { infer: false, symmetric: false }),
        game.state.deck@[other].identity_spec(IdOptions { infer: false, symmetric: false }),
        false,
    )
    &&& !match_result(
        prev.common.thoughts@[order].identity_spec(IdOptions { infer: true, symmetric: false }),
        prev.common.thoughts@[other].identity_spec(IdOptions { infer: true, symmetric: false }),
        false,
    )
}

/// The clue showed that the card, clued before, duplicates another touched card.
pub open spec fn revealed_duplicate(prev: Game, game: Game, list: Seq<usize>, order: int) -> bool {
    &&& prev.state.deck@[order].clued
    &&& exists|j: int| 0 <= j < list.len() && dupe_partner(prev, game, order, #[trigger] list[j] as int)
}

/// The two lists of cards a clue must fix: the touched cards whose inferences it reset,
/// and, of the others, those it showed to duplicate another touched card.
pub open spec fn fix_lists(prev: Game, game: Game, list: Seq<usize>, resets: Seq<usize>, dupes: Seq<usize>) -> bool {
    &&& resets == list.filter(|o: usize| clued_reset(prev, game, o as int))
    &&& dupes == list.filter(|o: usize| !clued_reset(prev, game, o as int) && revealed_duplicate(prev, game, list, o as int))
}

/// The touched cards that a clue must fix: those whose inferences it reset, and those
/// (of the others) that it showed to duplicate another touched card.
pub fn check_fix(prev: &Game, game: &Game, action: &ClueAction) -> (r: (Vec<usize>, Vec<usize>))
    requires
        prev.wf(),
        game.wf(),
        prev.state.deck@.len() <= game.state.deck@.len(),
        forall|i: int| 0 <= i < action.list@.len() ==> #[trigger] action.list@[i] < prev.state.deck@.len(),
    ensures
        r.0@ == action.list@.filter(|o: usize| clued_reset(*prev, *game, o as int)),
        r.1@ == action.list@.filter(|o: usize| !clued_reset(*prev, *game, o as int)
            && revealed_duplicate(*prev, *game, action.list@, o as int)),
        fix_lists(*prev, *game, action.list@, r.0@, r.1@),
        forall|o: usize| r.0@.contains(o) ==> !r.1@.contains(o),
{
    let list = &action.list;
    let ghost f = |o: usize| clued_reset(*prev, *game, o as int);
    let ghost g = |o: usize| !clued_reset(*prev, *game, o as int) && revealed_duplicate(*prev, *game, list@, o as int);
    let plain = IdOptions { infer: false, symmetric: false };
    let inferred = MatchOptions { infer: true, symmetric: false, assumed: false };
    let mut clued_resets: Vec<usize> = Vec::new();
    let mut duplicate_reveals: Vec<usize> = Vec::new();
    let mut i: usize = 0;
    while i < list.len()
        invariant
            prev.wf(),
            game.wf(),
            prev.state.deck@.len() <= game.state.deck@.len(),
            forall|i: int| 0 <= i < list@.len() ==> #[trigger] list@[i] < prev.state.deck@.len(),
            plain == (IdOptions { infer: false, symmetric: false }),
            inferred == (MatchOptions { infer: true, symmetric: false, assumed: false }),
            f == (|o: usize| clued_reset(*prev, *game, o as int)),
            g == (|o: usize| !clued_reset(*prev, *game, o as int) && revealed_duplicate(*prev, *game, list@, o as int)),
            i <= list@.len(),
            clued_resets@ == list@.take(i as int).filter(f),
            duplicate_reveals@ == list@.take(i as int).filter(g),
        decreases list@.len() - i,
    {
        let order = list[i];
        let mut found = false;
        if prev.state.deck[order].clued {
            let mut j: usize = 0;
            while j < list.len()
                invariant
                    prev.wf(),
                    game.wf(),
                    prev.state.deck@.len() <= game.state.deck@.len(),
                    forall|i: int| 0 <= i < list@.len() ==> #[trigger] list@[i] < prev.state.deck@.len(),
                    plain == (IdOptions { infer: false, symmetric: false }),
                    inferred == (MatchOptions { infer: true, symmetric: false, assumed: false }),
                    order < prev.state.deck@.len(),
                    j <= list@.len(),
                    found == exists|k: int| 0 <= k < j && dupe_partner(*prev, *game, order as int, #[trigger] list@[k] as int),
                decreases list@.len() - j,
            {
                let o = list[j];
                if o != order && prev.state.deck[o].clued && game.state.deck[order].is(&game.state.deck[o])
                    && !prev.common.thoughts[order].matches(&prev.common.thoughts[o], &inferred) {
                    found = true;
                }
                j += 1;
            }
        }
        proof {
            assert(list@.take(i + 1) =~= list@.take(i as int).push(order));
            list@.take(i as int).lemma_filter_push(order, f);
            list@.take(i as int).lemma_filter_push(order, g);
            assert(found == revealed_duplicate(*prev, *game, list@, order as int));
        }
        if !prev.common.thoughts[order].reset && game.common.thoughts[order].reset {
            clued_resets.push(order);
        } else if found {
            duplicate_reveals.push(order);
        }
        i += 1;
    }
    proof {
        assert(list@.take(list@.len() as int) =~= list@);
        assert forall|o: usize| clued_resets@.contains(o) implies !duplicate_reveals@.contains(o) by {
            let i = choose|i: int| 0 <= i < clued_resets@.len() && clued_resets@[i] == o;
            list@.lemma_filter_pred(f, i);
            if duplicate_reveals@.contains(o) {
                let j = choose|j: int| 0 <= j < duplicate_reveals@.len() && duplicate_reveals@[j] == o;
                list@.lemma_filter_pred(g, j);
            }
        }
    }
    (clued_resets, duplicate_reveals)
}

/// The player thinks some card of their hand is playable now.
pub open spec fn thinks_any_playable(game: Game, player: int) -> bool {
    let hand = game.state.hands@[player]@;
    exists|i: int| 0 <= i < hand.len() && game.players@[player].playable_order(game.frame_spec(), #[trigger] hand[i])
}

/// The identity is playable now, or the target thinks some card of theirs is.
pub open spec fn connectable_spec(game: Game, target: int, id: Option<Identity>) -> bool {
    ||| id matches Some(x) && game.state.is_playable_spec(x)
    ||| thinks_any_playable(game, target)
}

/// How many turns pass from the player's turn to the target's.
pub open spec fn turns_between(n: int, from: int, target: int) -> int {
    if target >= from { target - from } else { target + n - from }
}

/// Whether the identity connects for the target: it is playable now, or, going round
/// the table from the start player, each player in turn plays what they think is
/// playable until the target thinks a card of theirs is playable.
pub fn connectable_simple(game: &Game, start: usize, target: usize, id: Option<Identity>) -> (r: bool)
    requires
        game.wf(),
        game.state.consistent(),
        start < game.state.num_players,
        target < game.state.num_players,
        id matches Some(x) ==> game.state.id_ok(x),
    ensures
        r == connectable_spec(*game, target as int, id),
{
    let n = game.state.num_players;
    let steps = if target >= start { target - start } else { n - (start - target) };
    connect_from(game, start, target, id, steps)
}

fn connect_from(game: &Game, start: usize, target: usize, id: Option<Identity>, steps: usize) -> (r: bool)
    requires
        game.wf(),
        game.state.consistent(),
        start < game.state.num_players,
        target < game.state.num_players,
        id matches Some(x) ==> game.state.id_ok(x),
        steps == turns_between(game.state.num_players as int, start as int, target as int),
    ensures
        r == connectable_spec(*game, target as int, id),
    decreases steps,
{
    let state = &game.state;
    if let Some(x) = id {
        if state.is_playable(x) {
            return true;
        }
    }
    let frame = game.frame();
    if start == target {
        let playables = game.players[target].thinks_playables(&frame, target);
        proof {
            let hand = state.hands@[target as int]@;
            crate::text::lemma_filter_nonempty(hand, |o: usize| game.players@[target as int].playable_order(frame, o));
        }
        return playables.len() != 0;
    }
    let next = state.next_player_index(start);
    proof {
        let n = state.num_players as int;
        if start + 1 < n {
            vstd::arithmetic::div_mod::lemma_small_mod((start + 1) as nat, n as nat);
        } else {
            vstd::arithmetic::div_mod::lemma_mod_self_0(n);
        }
    }
    let player = &game.players[start];
    let playables = player.thinks_playables(&frame, start);
    proof {
        let hand = state.hands@[start as int]@;
        let f = |o: usize| player.playable_order(frame, o);
        assert forall|i: int| 0 <= i < playables@.len() implies #[trigger] playables@[i] < game.common.thoughts@.len() by {
            assert(hand.filter(f)[i] == playables@[i]);
            assert(hand.filter(f).contains(playables@[i]));
            hand.lemma_filter_contains_rev(f, playables@[i]);
            let k = choose|k: int| 0 <= k < hand.len() && hand[k] == playables@[i];
            assert(state.hands@[start as int]@[k] < state.deck@.len());
        }
    }
    let inferred = IdOptions { infer: true, symmetric: false };
    let mut i: usize = 0;
    while i < playables.len()
        invariant
            game.wf(),
            game.state.consistent(),
            next < game.state.num_players,
            target < game.state.num_players,
            start < game.state.num_players,
            id matches Some(x) ==> game.state.id_ok(x),
            steps >= 1,
            steps - 1 == turns_between(game.state.num_players as int, next as int, target as int),
            *player == game.players@[start as int],
            forall|i: int| 0 <= i < playables@.len() ==> #[trigger] playables@[i] < game.common.thoughts@.len(),
            i <= playables@.len(),
        decreases playables@.len() - i,
    {
        // Each card the player thinks playable and can name is tried; the try goes on
        // from the next player.
        let order = playables[i];
        let named = player.thoughts[order].identity(&inferred);
        if named.is_some() {
            if connect_from(game, next, target, id, steps - 1) {
                return true;
            }
        }
        i += 1;
    }
    connect_from(game, next, target, id, steps - 1)
}

/// Two cards are duplicate partners exactly when they are different cards, the partner
/// was already clued before the clue, the deck shows both as the same identity, and
/// everyone did not already take them for one same identity.
pub proof fn law_dupe_partner(prev: Game, game: Game, order: int, other: int)
    ensures
        dupe_partner(prev, game, order, other) <==> {
            &&& other != order
            &&& prev.state.deck@[other].clued
            &&& game.state.deck@[order].base is Some
            &&& game.state.deck@[order].base == game.state.deck@[other].base
            &&& !(prev.common.thoughts@[order].identity_spec(IdOptions { infer: true, symmetric: false }) is Some
                && prev.common.thoughts@[order].identity_spec(IdOptions { infer: true, symmetric: false })
                == prev.common.thoughts@[other].identity_spec(IdOptions { infer: true, symmetric: false }))
        },
{
}

/// What a clue must fix. A card is in the first list exactly when it is touched and the
/// clue reset everyone's inferences on it. A card is in the second list exactly when it
/// is touched, was clued before, was not reset, and some other touched card, itself
/// clued before the clue, shows the same identity that everyone did not already take
/// both for. No card is in both lists.
pub proof fn law_check_fix(prev: Game, game: Game, list: Seq<usize>, resets: Seq<usize>, dupes: Seq<usize>, o: usize)
    requires
        fix_lists(prev, game, list, resets, dupes),
    ensures
        resets.contains(o) <==> (list.contains(o) && !prev.common.thoughts@[o as int].reset && game.common.thoughts@[o as int].reset),
        dupes.contains(o) <==> {
            &&& list.contains(o)
            &&& !(!prev.common.thoughts@[o as int].reset && game.common.thoughts@[o as int].reset)
            &&& prev.state.deck@[o as int].clued
            &&& exists|j: int| 0 <= j < list.len() && {
                let other = #[trigger] list[j] as int;
                &&& other != o as int
                &&& prev.state.deck@[other].clued
                &&& game.state.deck@[o as int].base is Some
                &&& game.state.deck@[o as int].base == game.state.deck@[other].base
                &&& !(prev.common.thoughts@[o as int].identity_spec(IdOptions { infer: true, symmetric: false }) is Some
                    && prev.common.thoughts@[o as int].identity_spec(IdOptions { infer: true, symmetric: false })
                    == prev.common.thoughts@[other].identity_spec(IdOptions { infer: true, symmetric: false }))
            }
        },
        !(resets.contains(o) && dupes.contains(o)),
{
    let f = |x: usize| clued_reset(prev, game, x as int);
    let g = |x: usize| !clued_reset(prev, game, x as int) && revealed_duplicate(prev, game, list, x as int);
    if resets.contains(o) {
        list.lemma_filter_contains_rev(f, o);
        let i = choose|i: int| 0 <= i < resets.len() && resets[i] == o;
        list.lemma_filter_pred(f, i);
    }
    if list.contains(o) && f(o) {
        let i = choose|i: int| 0 <= i < list.len() && list[i] == o;
        list.lemma_filter_contains(f, i);
    }
    if dupes.contains(o) {
        list.lemma_filter_contains_rev(g, o);
        let i = choose|i: int| 0 <= i < dupes.len() && dupes[i] == o;
        list.lemma_filter_pred(g, i);
        let j = choose|j: int| 0 <= j < list.len() && dupe_partner(prev, game, o as int, #[trigger] list[j] as int);
        law_dupe_partner(prev, game, o as int, list[j] as int);
    }
    if list.contains(o) && !f(o) && prev.state.deck@[o as int].clued && exists|j: int| 0 <= j < list.len() && {
        let other = #[trigger] list[j] as int;
        &&& other != o as int
        &&& prev.state.deck@[other].clued
        &&& game.state.deck@[o as int].base is Some
        &&& game.state.deck@[o as int].base == game.state.deck@[other].base
        &&& !(prev.common.thoughts@[o as int].identity_spec(IdOptions { infer: true, symmetric: false }) is Some
            && prev.common.thoughts@[o as int].identity_spec(IdOptions { infer: true, symmetric: false })
            == prev.common.thoughts@[other].identity_spec(IdOptions { infer: true, symmetric: false }))
    } {
        let j = choose|j: int| 0 <= j < list.len() && {
            let other = #[trigger] list[j] as int;
            &&& other != o as int
            &&& prev.state.deck@[other].clued
            &&& game.state.deck@[o as int].base is Some
            &&& game.state.deck@[o as int].base == game.state.deck@[other].base
            &&& !(prev.common.thoughts@[o as int].identity_spec(IdOptions { infer: true, symmetric: false }) is Some
                && prev.common.thoughts@[o as int].identity_spec(IdOptions { infer: true, symmetric: false })
                == prev.common.thoughts@[other].identity_spec(IdOptions { infer: true, symmetric: false }))
        };
        law_dupe_partner(prev, game, o as int, list[j] as int);
        assert(dupe_partner(prev, game, o as int, list[j] as int));
        assert(revealed_duplicate(prev, game, list, o as int));
        let i = choose|i: int| 0 <= i < list.len() && list[i] == o;
        list.lemma_filter_contains(g, i);
    }
}

} // verus!
