use vstd::prelude::*;

use crate::basics::action::ClueAction;
use crate::basics::card::{CardStatus, ConvData, Identity, Thought};
use crate::basics::clue::ClueKind;
use crate::basics::game::Game;
use crate::basics::player::{thought_ok, lemma_in_range_ids};
use crate::basics::state::State;
use crate::basics::variant::{pattern_matches, PINKISH, RAINBOWISH};
use crate::reactor::{ClueInterp, Reactor};

verus! {

/// Some suit of the variant matches the pattern.
pub open spec fn has_suit_like(state: State, pattern: Seq<char>) -> bool {
    exists|s: int| 0 <= s < state.variant.suits@.len() && pattern_matches(pattern, #[trigger] state.variant.suits@[s]@)
}

/// The key by which a clue's focus is chosen: the card in slot 1 counts least, every
/// other card by its order.
pub open spec fn focus_key(hand: Seq<usize>, o: usize) -> int {
    if o == hand[0] { 0 } else { o as int }
}

/// The index of the touched card with the greatest key among the first `n` cards of the
/// hand; of several, the last.
pub open spec fn focus_upto(hand: Seq<usize>, list: Seq<usize>, n: int) -> Option<int>
    decreases n,
{
    if n <= 0 {
        None
    } else {
        let before = focus_upto(hand, list, n - 1);
        if list.contains(hand[n - 1]) && (before matches Some(b) ==> focus_key(hand, hand[b]) <= focus_key(hand, hand[n - 1])) {
            Some(n - 1)
        } else {
            before
        }
    }
}

/// The slot that a reactive clue focuses: for a colour clue in a variant with a
/// rainbow-like suit, the slot one past the colour's number; for a rank clue in a
/// variant with a pink-like suit, the rank's slot; else the slot of the focused card.
pub open spec fn reactive_focus_spec(state: State, receiver: int, action: ClueAction) -> int {
    let focus = focus_upto(state.hands@[receiver]@, action.list@, state.hands@[receiver]@.len() as int).unwrap();
    match action.clue.kind {
        ClueKind::COLOUR => if has_suit_like(state, RAINBOWISH@) { action.clue.value + 1 } else { focus + 1 },
        ClueKind::RANK => if has_suit_like(state, PINKISH@) { action.clue.value as int } else { focus + 1 },
    }
}

/// `new` is `old` with the card `target` called to discard: everyone stops thinking it
/// any of the critical identities, it becomes trash, urgent where asked, and the turn is
/// noted; nothing else changes in everyone's thoughts or the conventions' data.
pub open spec fn discard_called(old: Game, new: Game, target: int, urgent: bool) -> bool {
    &&& new.common.thoughts@ == old.common.thoughts@.update(target, Thought {
        inferred: new.common.thoughts@[target].inferred,
        ..old.common.thoughts@[target]
    })
    &&& new.common.thoughts@[target].inferred@ == old.common.thoughts@[target].inferred@.filter(
        |x: int| !old.state.is_critical_spec(Identity::of_ord(x)))
    &&& new.meta@ == old.meta@.update(target, ConvData {
        reasoning: new.meta@[target].reasoning,
        ..called_to_discard(old.meta@[target], urgent, old.state.turn_count)
    })
    &&& new.meta@[target].reasoning@ == noted(old.meta@[target].reasoning@, old.state.turn_count)
}

/// The reasoning with the turn noted, where it is not the last turn noted already.
pub open spec fn noted(reasoning: Seq<usize>, turn: usize) -> Seq<usize> {
    if reasoning.len() > 0 && reasoning.last() == turn { reasoning } else { reasoning.push(turn) }
}

/// The card of the hand with the lowest order that was not clued before.
pub open spec fn lock_of(prev: State, hand: Seq<usize>) -> Option<usize> {
    if exists|i: int| 0 <= i < hand.len() && !prev.deck@[hand[i] as int].clued {
        Some(choose|m: usize| hand.contains(m) && !prev.deck@[m as int].clued
            && forall|j: int| 0 <= j < hand.len() && !prev.deck@[hand[j] as int].clued ==> m <= hand[j])
    } else {
        None
    }
}

/// The convention's data after a card is called to discard: trash, with the turn noted.
pub open spec fn called_to_discard(m: ConvData, urgent: bool, turn: usize) -> ConvData {
    ConvData {
        status: CardStatus::CalledToDiscard,
        trash: true,
        urgent: m.urgent || urgent,
        reasoning: m.reasoning,
        ..m
    }
}

/// Whether the reasoning already ends with the turn.
pub(crate) fn ends_with_turn(reasoning: &Vec<usize>, turn: usize) -> (r: bool)
    ensures
        r == (reasoning@.len() > 0 && reasoning@.last() == turn),
{
    reasoning.len() > 0 && reasoning[reasoning.len() - 1] == turn
}

impl Reactor {
    /// The slot that a reactive clue focuses (see `reactive_focus_spec`).
    pub fn reactive_focus(state: &State, receiver: usize, action: &ClueAction) -> (r: usize)
        requires
            receiver < state.hands@.len(),
            exists|i: int| 0 <= i < state.hands@[receiver as int]@.len() && action.list@.contains(#[trigger] state.hands@[receiver as int]@[i]),
            action.clue.value < usize::MAX,
            state.hands@[receiver as int]@.len() < usize::MAX,
        ensures
            r == reactive_focus_spec(*state, receiver as int, *action),
    {
        let hand = &state.hands[receiver];
        let mut best: Option<usize> = None;
        let mut i: usize = 0;
        while i < hand.len()
            invariant
                *hand == state.hands@[receiver as int],
                i <= hand@.len(),
                best matches Some(b) ==> b < i && focus_upto(hand@, action.list@, i as int) == Some(b as int),
                best is None ==> focus_upto(hand@, action.list@, i as int) is None,
            decreases hand@.len() - i,
        {
            let o = hand[i];
            let touched = crate::basics::vec_has(&action.list, o);
            let key = if o == hand[0] { 0 } else { o };
            let better = match best {
                Some(b) => {
                    let bk = if hand[b] == hand[0] { 0 } else { hand[b] };
                    bk <= key
                },
                None => true,
            };
            if touched && better {
                best = Some(i);
            }
            i += 1;
        }
        proof {
            let k = choose|k: int| 0 <= k < hand@.len() && action.list@.contains(#[trigger] hand@[k]);
            lemma_focus_found(hand@, action.list@, k, hand@.len() as int);
        }
        let focus = match best {
            Some(b) => b,
            None => 0,
        };
        match action.clue.kind {
            ClueKind::COLOUR => if state.includes_variant(RAINBOWISH) { action.clue.value + 1 } else { focus + 1 },
            ClueKind::RANK => if state.includes_variant(PINKISH) { action.clue.value } else { focus + 1 },
        }
    }

    /// Calls the card to discard: everyone stops thinking it critical, and it becomes
    /// trash, urgent where asked, with the turn noted.
    pub fn target_discard(game: &mut Game, action: &ClueAction, target: usize, urgent: bool)
        requires
            old(game).wf(),
            old(game).state.consistent(),
            target < old(game).state.deck@.len(),
        ensures
            final(game).wf(),
            final(game).state == old(game).state,
            crate::basics::player_same_but_thoughts(final(game).common, old(game).common),
            discard_called(*old(game), *final(game), target as int, urgent),
            final(game).players == old(game).players,
            final(game).deck_ids == old(game).deck_ids,
    {
        let ghost old_game = *game;
        let mut t = game.common.thoughts[target];
        proof {
            assert(thought_ok(t, target as int, game.state));
            lemma_in_range_ids(t.inferred, game.state);
        }
        let state = &game.state;
        t.inferred.retain(|x: Identity| -> (b: bool)
            requires state.wf() && state.id_ok(x)
            ensures b == !state.is_critical_spec(x)
            { !state.is_critical(x) });
        proof {
            assert(t.inferred@ =~= old_game.common.thoughts@[target as int].inferred@.filter(
                |x: int| !old_game.state.is_critical_spec(Identity::of_ord(x)))) by {
                assert forall|x: int| t.inferred@.contains(x) <==> old_game.common.thoughts@[target as int].inferred@.contains(x)
                    && !old_game.state.is_critical_spec(Identity::of_ord(x)) by {
                    if old_game.common.thoughts@[target as int].inferred@.contains(x) {
                        assert(t.inferred@.contains(x) ==> !state.is_critical_spec(Identity::of_ord(x)));
                        assert(!t.inferred@.contains(x) ==> state.is_critical_spec(Identity::of_ord(x)));
                    }
                }
            }
        }
        game.common.thoughts.set(target, t);
        let turn = game.state.turn_count;
        game.meta[target].status = CardStatus::CalledToDiscard;
        game.meta[target].trash = true;
        if urgent {
            game.meta[target].urgent = true;
        }
        if !ends_with_turn(&game.meta[target].reasoning, turn) {
            game.meta[target].reasoning.push(turn);
        }
        proof {
            assert(thought_ok(t, target as int, game.state));
            assert forall|o: int| 0 <= o < game.common.thoughts@.len() implies thought_ok(#[trigger] game.common.thoughts@[o], o, game.state) by {
                if o != target as int {
                    assert(game.common.thoughts@[o] == old_game.common.thoughts@[o]);
                }
            }
            assert(game.common.thoughts@ =~= old_game.common.thoughts@.update(target as int, Thought {
                inferred: game.common.thoughts@[target as int].inferred,
                ..old_game.common.thoughts@[target as int]
            }));
            assert(game.meta@ =~= old_game.meta@.update(target as int, ConvData {
                reasoning: game.meta@[target as int].reasoning,
                ..called_to_discard(old_game.meta@[target as int], urgent, old_game.state.turn_count)
            }));
        }
    }
}

/// Once some touched card is among the first `n`, one of them is the focus.
proof fn lemma_focus_found(hand: Seq<usize>, list: Seq<usize>, k: int, n: int)
    requires
        0 <= k < n <= hand.len(),
        list.contains(hand[k]),
    ensures
        focus_upto(hand, list, n) is Some,
    decreases n,
{
    if k < n - 1 {
        lemma_focus_found(hand, list, k, n - 1);
    }
}

/// The newest card that the clue touched: the touched card of greatest order that was
/// not clued before.
pub open spec fn newest_touched(prev: State, list: Seq<usize>) -> usize {
    choose|m: usize| list.contains(m) && !prev.deck@[m as int].clued
        && forall|j: int| 0 <= j < list.len() && !prev.deck@[list[j] as int].clued ==> list[j] <= m
}

/// The first index of the order in the hand.
pub open spec fn first_index(hand: Seq<usize>, o: usize) -> int {
    choose|i: int| 0 <= i < hand.len() && hand[i] == o && forall|j: int| 0 <= j < i ==> hand[j] != o
}

/// The first index after `after` of a card that is not clued.
pub open spec fn first_unclued_after(state: State, hand: Seq<usize>, after: int) -> int {
    choose|i: int| after < i < hand.len() && !state.deck@[hand[i] as int].clued
        && forall|j: int| after < j < i ==> state.deck@[hand[j] as int].clued
}

/// The clue locks the hand: it touches the card of lowest order that was not clued.
pub open spec fn locks(prev: State, game: Game, action: ClueAction) -> bool {
    lock_of(prev, game.state.hands@[action.target as int]@) matches Some(l) && action.list@.contains(l)
}

/// A referential discard clue can be read: where it does not lock the hand, it touched a
/// new card of the hand, and an unclued card comes after the newest one.
pub open spec fn ref_discard_ok(prev: State, game: Game, action: ClueAction) -> bool {
    let hand = game.state.hands@[action.target as int]@;
    !locks(prev, game, action) ==> {
        &&& exists|j: int| 0 <= j < action.list@.len() && !prev.deck@[action.list@[j] as int].clued
        &&& hand.contains(newest_touched(prev, action.list@))
        &&& exists|i: int| first_index(hand, newest_touched(prev, action.list@)) < i < hand.len() && !game.state.deck@[hand[i] as int].clued
    }
}

/// The convention's data of a card that a lock moves off the chop.
pub open spec fn chop_moved(m: ConvData, turn: usize) -> ConvData {
    ConvData { status: CardStatus::ChopMoved, reasoning: m.reasoning, ..m }
}

/// Moves the hand's cards that are neither clued nor called off the chop, noting the turn.
fn chop_move(meta: &mut Vec<ConvData>, state: &State, hand: &Vec<usize>, turn: usize)
    requires
        old(meta)@.len() == state.deck@.len(),
        state.deck@.len() < usize::MAX,
        hand@.no_duplicates(),
        forall|j: int| 0 <= j < hand@.len() ==> #[trigger] hand@[j] < state.deck@.len(),
    ensures
        final(meta)@.len() == old(meta)@.len(),
        forall|o: int| 0 <= o < old(meta)@.len() ==> {
            let m = old(meta)@[o];
            let moved = hand@.contains(o as usize) && !state.deck@[o].clued && m.status == CardStatus::NoStatus;
            &&& (#[trigger] final(meta)@[o]) == if moved {
                ConvData { reasoning: final(meta)@[o].reasoning, ..chop_moved(m, turn) }
            } else {
                m
            }
            &&& final(meta)@[o].reasoning@ == if moved { noted(m.reasoning@, turn) } else { m.reasoning@ }
        },
{
    let ghost start = meta@;
    let mut k: usize = 0;
    while k < hand.len()
        invariant
            k <= hand@.len(),
            meta@.len() == start.len(),
            start.len() == state.deck@.len(),
            state.deck@.len() < usize::MAX,
            hand@.no_duplicates(),
            forall|j: int| 0 <= j < hand@.len() ==> #[trigger] hand@[j] < state.deck@.len(),
            forall|o: int| 0 <= o < start.len() ==> {
                let m = start[o];
                let moved = hand@.take(k as int).contains(o as usize) && !state.deck@[o].clued && m.status == CardStatus::NoStatus;
                &&& (#[trigger] meta@[o]) == if moved {
                    ConvData { reasoning: meta@[o].reasoning, ..chop_moved(m, turn) }
                } else {
                    m
                }
                &&& meta@[o].reasoning@ == if moved { noted(m.reasoning@, turn) } else { m.reasoning@ }
            },
        decreases hand@.len() - k,
    {
        let o = hand[k];
        proof {
            crate::basics::lemma_take_push_contains(hand@, k as int);
            assert(!hand@.take(k as int).contains(o)) by {
                if hand@.take(k as int).contains(o) {
                    let j = choose|j: int| 0 <= j < k && hand@.take(k as int)[j] == o;
                    assert(hand@[j] == hand@[k as int]);
                }
            }
        }
        let ghost before = meta@;
        let ghost was = start[o as int];
        proof {
            assert(before[o as int] == was);
        }
        if !state.deck[o].clued && meta[o].status == CardStatus::NoStatus {
            meta[o].status = CardStatus::ChopMoved;
            if !ends_with_turn(&meta[o].reasoning, turn) {
                meta[o].reasoning.push(turn);
            }
        }
        proof {
            assert forall|x: int| 0 <= x < start.len() implies {
                let m = start[x];
                let moved = hand@.take(k + 1).contains(x as usize) && !state.deck@[x].clued && m.status == CardStatus::NoStatus;
                &&& (#[trigger] meta@[x]) == if moved {
                    ConvData { reasoning: meta@[x].reasoning, ..chop_moved(m, turn) }
                } else {
                    m
                }
                &&& meta@[x].reasoning@ == if moved { noted(m.reasoning@, turn) } else { m.reasoning@ }
            } by {
                let m = start[x];
                assert(before[x] == if hand@.take(k as int).contains(x as usize) && !state.deck@[x].clued && m.status == CardStatus::NoStatus {
                    ConvData { reasoning: before[x].reasoning, ..chop_moved(m, turn) }
                } else {
                    m
                });
                if x != o as int {
                    assert(meta@[x] == before[x]);
                    assert(hand@.take(k + 1).contains(x as usize) == hand@.take(k as int).contains(x as usize));
                } else {
                    assert(hand@.take(k + 1).contains(x as usize));
                }
            }
        }
        k += 1;
    }
    proof {
        assert(hand@.take(hand@.len() as int) =~= hand@);
    }
}

/// The hand's card of lowest order that was not clued before.
fn lock_order(prev: &State, hand: &Vec<usize>) -> (r: Option<usize>)
    requires
        forall|j: int| 0 <= j < hand@.len() ==> #[trigger] hand@[j] < prev.deck@.len(),
    ensures
        r == lock_of(*prev, hand@),
{
    let mut lock: Option<usize> = None;
    let mut i: usize = 0;
    while i < hand.len()
        invariant
            i <= hand@.len(),
            forall|k: int| 0 <= k < hand@.len() ==> #[trigger] hand@[k] < prev.deck@.len(),
            lock matches Some(l) ==> hand@.take(i as int).contains(l) && !prev.deck@[l as int].clued
                && forall|j: int| 0 <= j < i && !prev.deck@[hand@[j] as int].clued ==> l <= hand@[j],
            lock is None ==> forall|j: int| 0 <= j < i ==> prev.deck@[hand@[j] as int].clued,
        decreases hand@.len() - i,
    {
        let o = hand[i];
        proof {
            crate::basics::lemma_take_push_contains(hand@, i as int);
        }
        if !prev.deck[o].clued {
            let lower = match lock {
                Some(l) => o < l,
                None => true,
            };
            if lower {
                lock = Some(o);
            }
        }
        i += 1;
    }
    proof {
        assert(hand@.take(hand@.len() as int) =~= hand@);
        match lock {
            Some(l) => {
                let kl = choose|k: int| 0 <= k < hand@.len() && hand@[k] == l;
                assert(exists|k: int| 0 <= k < hand@.len() && !prev.deck@[hand@[k] as int].clued) by {
                    assert(!prev.deck@[hand@[kl] as int].clued);
                }
                let m = choose|m: usize| hand@.contains(m) && !prev.deck@[m as int].clued
                    && forall|j: int| 0 <= j < hand@.len() && !prev.deck@[hand@[j] as int].clued ==> m <= hand@[j];
                assert(hand@.contains(l) && !prev.deck@[l as int].clued
                    && forall|j: int| 0 <= j < hand@.len() && !prev.deck@[hand@[j] as int].clued ==> l <= hand@[j]);
                let km = choose|k: int| 0 <= k < hand@.len() && hand@[k] == m;
                assert(l <= hand@[km]);
                assert(m <= hand@[kl]);
            },
            None => {},
        }
    }
    lock
}

/// The newest card that the clue touched (see `newest_touched`).
fn newest(prev: &State, list: &Vec<usize>) -> (r: usize)
    requires
        forall|x: int| 0 <= x < list@.len() ==> #[trigger] list@[x] < prev.deck@.len(),
        exists|j: int| 0 <= j < list@.len() && !prev.deck@[list@[j] as int].clued,
    ensures
        r == newest_touched(*prev, list@),
{
    let mut focus: usize = 0;
    let mut found = false;
    let mut j: usize = 0;
    while j < list.len()
        invariant
            j <= list@.len(),
            forall|x: int| 0 <= x < list@.len() ==> #[trigger] list@[x] < prev.deck@.len(),
            found ==> list@.take(j as int).contains(focus) && !prev.deck@[focus as int].clued
                && forall|x: int| 0 <= x < j && !prev.deck@[list@[x] as int].clued ==> list@[x] <= focus,
            !found ==> forall|x: int| 0 <= x < j ==> prev.deck@[list@[x] as int].clued,
        decreases list@.len() - j,
    {
        let o = list[j];
        proof {
            crate::basics::lemma_take_push_contains(list@, j as int);
        }
        if !prev.deck[o].clued && (!found || o > focus) {
            focus = o;
            found = true;
        }
        j += 1;
    }
    proof {
        assert(list@.take(list@.len() as int) =~= list@);
        let w = choose|x: int| 0 <= x < list@.len() && !prev.deck@[list@[x] as int].clued;
        assert(found);
        let m = newest_touched(*prev, list@);
        assert(list@.contains(focus) && !prev.deck@[focus as int].clued
            && forall|x: int| 0 <= x < list@.len() && !prev.deck@[list@[x] as int].clued ==> list@[x] <= focus);
        let km = choose|x: int| 0 <= x < list@.len() && list@[x] == m;
        let kf = choose|x: int| 0 <= x < list@.len() && list@[x] == focus;
        assert(list@[kf] <= m);
        assert(list@[km] <= focus);
    }
    focus
}

/// The first index of the order in the hand, which holds it.
fn index_in(hand: &Vec<usize>, o: usize) -> (r: usize)
    requires
        hand@.contains(o),
    ensures
        r == first_index(hand@, o),
        r < hand@.len(),
{
    let mut pos: usize = 0;
    while pos < hand.len() && hand[pos] != o
        invariant
            pos <= hand@.len(),
            hand@.contains(o),
            forall|x: int| 0 <= x < pos ==> hand@[x] != o,
        decreases hand@.len() - pos,
    {
        pos += 1;
    }
    proof {
        if pos == hand@.len() {
            let x = choose|x: int| 0 <= x < hand@.len() && hand@[x] == o;
        }
        let fi = first_index(hand@, o);
        assert(0 <= pos < hand@.len() && hand@[pos as int] == o && forall|x: int| 0 <= x < pos ==> hand@[x] != o);
        if fi < pos {
            assert(hand@[fi] != o);
        } else if fi > pos {
            assert(hand@[pos as int] != o);
        }
    }
    pos
}

/// The first index after `after` of a card that is not clued, where there is one.
fn unclued_after(state: &State, hand: &Vec<usize>, after: usize) -> (r: usize)
    requires
        forall|x: int| 0 <= x < hand@.len() ==> #[trigger] hand@[x] < state.deck@.len(),
        exists|i: int| after < i < hand@.len() && !state.deck@[hand@[i] as int].clued,
    ensures
        r == first_unclued_after(*state, hand@, after as int),
        after < r < hand@.len(),
{
    let mut t: usize = after + 1;
    while t < hand.len() && state.deck[hand[t]].clued
        invariant
            after < t <= hand@.len(),
            forall|x: int| 0 <= x < hand@.len() ==> #[trigger] hand@[x] < state.deck@.len(),
            forall|x: int| after < x < t ==> state.deck@[hand@[x] as int].clued,
            exists|i: int| after < i < hand@.len() && !state.deck@[hand@[i] as int].clued,
        decreases hand@.len() - t,
    {
        t += 1;
    }
    proof {
        if t == hand@.len() {
            let x = choose|x: int| after < x < hand@.len() && !state.deck@[hand@[x] as int].clued;
        }
        let ti = first_unclued_after(*state, hand@, after as int);
        assert(after < t < hand@.len() && !state.deck@[hand@[t as int] as int].clued
            && forall|x: int| after < x < t ==> state.deck@[hand@[x] as int].clued);
        if ti < t {
            assert(state.deck@[hand@[ti] as int].clued);
        } else if ti > t {
            assert(state.deck@[hand@[t as int] as int].clued);
        }
    }
    t
}

impl Reactor {
    /// Reads a referential discard clue. Where the clue touches the hand's lowest new
    /// card, it locks the hand: a stall where stalling and the receiver plays just
    /// before the giver; else the hand's new cards are chop moved (and, for a rank clue
    /// with a pink-like suit, the lock card keeps only that rank and is focused). Else it
    /// calls to discard the first unclued card after the newest touched card.
    #[verifier::spinoff_prover]
    #[verifier::rlimit(60)]
    pub fn ref_discard(prev: &Game, game: &mut Game, action: &ClueAction, stall: bool) -> (r: Option<ClueInterp>)
        requires
            old(game).wf(),
            prev.state.deck@.len() == old(game).state.deck@.len(),
            action.target < old(game).state.num_players,
            forall|j: int| 0 <= j < action.list@.len() ==> #[trigger] action.list@[j] < old(game).state.deck@.len(),
            ref_discard_ok(prev.state, *old(game), *action),
        ensures
            ({
                let hand = old(game).state.hands@[action.target as int]@;
                let turn = old(game).state.turn_count;
                if locks(prev.state, *old(game), *action) {
                    let lock = lock_of(prev.state, hand).unwrap();
                    if stall && (action.target + 1) % (old(game).state.num_players as int) == action.giver {
                        r == Some(ClueInterp::Stall) && *final(game) == *old(game)
                    } else {
                        let pink = action.clue.kind == ClueKind::RANK && has_suit_like(old(game).state, PINKISH@);
                        &&& r == Some(ClueInterp::Lock)
                        &&& final(game).state == old(game).state
                        &&& crate::basics::player_same_but_thoughts(final(game).common, old(game).common)
                        &&& final(game).common.thoughts@ == old(game).common.thoughts@.update(lock as int, Thought {
                            inferred: final(game).common.thoughts@[lock as int].inferred,
                            ..old(game).common.thoughts@[lock as int]
                        })
                        &&& final(game).common.thoughts@[lock as int].inferred@ == if pink {
                            old(game).common.thoughts@[lock as int].inferred@.filter(|x: int| Identity::of_ord(x).rank == action.clue.value)
                        } else {
                            old(game).common.thoughts@[lock as int].inferred@
                        }
                        &&& final(game).meta@.len() == old(game).meta@.len()
                        &&& forall|o: int| 0 <= o < old(game).meta@.len() ==> {
                            let m = old(game).meta@[o];
                            let f = if pink && o == lock { ConvData { focused: true, ..m } } else { m };
                            let moved = hand.contains(o as usize) && !old(game).state.deck@[o].clued && m.status == CardStatus::NoStatus;
                            &&& (#[trigger] final(game).meta@[o]) == if moved {
                                ConvData { reasoning: final(game).meta@[o].reasoning, ..chop_moved(f, turn) }
                            } else {
                                f
                            }
                            &&& final(game).meta@[o].reasoning@ == if moved { noted(m.reasoning@, turn) } else { m.reasoning@ }
                        }
                        &&& final(game).players == old(game).players
                        &&& final(game).deck_ids == old(game).deck_ids
                    }
                } else {
                    let focus = newest_touched(prev.state, action.list@);
                    let t = hand[first_unclued_after(old(game).state, hand, first_index(hand, focus))];
                    &&& r == Some(ClueInterp::RefDiscard)
                    &&& final(game).state == old(game).state
                    &&& final(game).common == old(game).common
                    &&& final(game).meta@ == old(game).meta@.update(t as int, ConvData {
                        reasoning: final(game).meta@[t as int].reasoning,
                        ..called_to_discard(old(game).meta@[t as int], false, turn)
                    })
                    &&& final(game).meta@[t as int].reasoning@ == noted(old(game).meta@[t as int].reasoning@, turn)
                    &&& final(game).players == old(game).players
                    &&& final(game).deck_ids == old(game).deck_ids
                }
            }),
    {
        let ghost old_game = *game;
        let receiver = action.target;
        let hand = game.state.hands[receiver].clone();
        let turn = game.state.turn_count;
        proof {
            assert(hand@ == old_game.state.hands@[receiver as int]@);
            assert forall|i: int| 0 <= i < hand@.len() implies #[trigger] hand@[i] < old_game.state.deck@.len() by {
                assert(old_game.state.hands@[receiver as int]@[i] < old_game.state.deck@.len());
            }
        }
        let lock = lock_order(&prev.state, &hand);
        let is_lock = match lock {
            Some(l) => crate::basics::vec_has(&action.list, l),
            None => false,
        };
        if is_lock {
            let l = lock.unwrap();
            if stall && game.state.next_player_index(receiver) == action.giver {
                return Some(ClueInterp::Stall);
            }
            let pink = match action.clue.kind {
                ClueKind::RANK => game.state.includes_variant(PINKISH),
                ClueKind::COLOUR => false,
            };
            if pink {
                Reactor::promise_rank(game, l, action.clue.value);
            }
            proof {
                assert(hand@.no_duplicates()) by {
                    assert forall|a: int, b: int| 0 <= a < hand@.len() && 0 <= b < hand@.len() && a != b implies hand@[a] != hand@[b] by {
                        if hand@[a] == hand@[b] {
                            assert(old_game.state.hands@[receiver as int]@[a] == old_game.state.hands@[receiver as int]@[b]);
                        }
                    }
                }
            }
            chop_move(&mut game.meta, &game.state, &hand, turn);
            return Some(ClueInterp::Lock);
        }
        let focus = newest(&prev.state, &action.list);
        let pos = index_in(&hand, focus);
        let t_index = unclued_after(&game.state, &hand, pos);
        let target = hand[t_index];
        game.meta[target].status = CardStatus::CalledToDiscard;
        game.meta[target].trash = true;
        if !ends_with_turn(&game.meta[target].reasoning, turn) {
            game.meta[target].reasoning.push(turn);
        }
        proof {
            assert(game.meta@ =~= old_game.meta@.update(target as int, ConvData {
                reasoning: game.meta@[target as int].reasoning,
                ..called_to_discard(old_game.meta@[target as int], false, turn)
            }));
        }
        Some(ClueInterp::RefDiscard)
    }

    /// A pink promise on the lock card: it keeps only the clue's rank, and is focused.
    fn promise_rank(game: &mut Game, lock: usize, value: usize)
        requires
            old(game).wf(),
            lock < old(game).state.deck@.len(),
        ensures
            final(game).wf(),
            final(game).state == old(game).state,
            crate::basics::player_same_but_thoughts(final(game).common, old(game).common),
            final(game).common.thoughts@ == old(game).common.thoughts@.update(lock as int, Thought {
                inferred: final(game).common.thoughts@[lock as int].inferred,
                ..old(game).common.thoughts@[lock as int]
            }),
            final(game).common.thoughts@[lock as int].inferred@
                == old(game).common.thoughts@[lock as int].inferred@.filter(|x: int| Identity::of_ord(x).rank == value),
            final(game).meta@ == old(game).meta@.update(lock as int, ConvData { focused: true, ..old(game).meta@[lock as int] }),
            final(game).players == old(game).players,
            final(game).deck_ids == old(game).deck_ids,
    {
        let ghost old_game = *game;
        let mut t = game.common.thoughts[lock];
        t.inferred.retain(|x: Identity| -> (b: bool)
            ensures b == (x.rank == value)
            { x.rank == value });
        proof {
            assert(thought_ok(old_game.common.thoughts@[lock as int], lock as int, old_game.state));
            lemma_in_range_ids(old_game.common.thoughts@[lock as int].inferred, old_game.state);
            assert(t.inferred@ =~= old_game.common.thoughts@[lock as int].inferred@.filter(|x: int| Identity::of_ord(x).rank == value)) by {
                assert forall|x: int| t.inferred@.contains(x) <==> old_game.common.thoughts@[lock as int].inferred@.contains(x)
                    && Identity::of_ord(x).rank == value by {
                    if old_game.common.thoughts@[lock as int].inferred@.contains(x) {
                        assert(t.inferred@.contains(x) ==> Identity::of_ord(x).rank == value);
                        assert(!t.inferred@.contains(x) ==> Identity::of_ord(x).rank != value);
                    }
                }
            }
        }
        game.common.thoughts.set(lock, t);
        game.meta[lock].focused = true;
        proof {
            assert(thought_ok(t, lock as int, game.state));
            assert forall|o: int| 0 <= o < game.common.thoughts@.len() implies thought_ok(#[trigger] game.common.thoughts@[o], o, game.state) by {
                if o != lock as int {
                    assert(game.common.thoughts@[o] == old_game.common.thoughts@[o]);
                }
            }
            assert(game.common.thoughts@ =~= old_game.common.thoughts@.update(lock as int, Thought {
                inferred: game.common.thoughts@[lock as int].inferred,
                ..old_game.common.thoughts@[lock as int]
            }));
            assert(game.meta@ =~= old_game.meta@.update(lock as int, ConvData { focused: true, ..old_game.meta@[lock as int] }));
        }
    }
}

/// The weight of the card at index `j` of the hand when a clue's focus is chosen: the
/// card in slot 1 weighs least, any other card weighs its order.
pub open spec fn focus_weight(hand: Seq<usize>, j: int) -> int {
    if hand[j] == hand[0] { 0 } else { hand[j] as int }
}

proof fn lemma_focus_upto_max(hand: Seq<usize>, list: Seq<usize>, n: int)
    requires
        0 <= n <= hand.len(),
    ensures
        focus_upto(hand, list, n) matches Some(b) ==> {
            &&& 0 <= b < n
            &&& list.contains(hand[b])
            &&& forall|j: int| 0 <= j < n && list.contains(hand[j]) ==> focus_weight(hand, j) <= focus_weight(hand, b)
            &&& forall|j: int| b < j < n && list.contains(hand[j]) ==> focus_weight(hand, j) < focus_weight(hand, b)
        },
        focus_upto(hand, list, n) is None ==> forall|j: int| 0 <= j < n ==> !list.contains(hand[j]),
    decreases n,
{
    if n > 0 {
        lemma_focus_upto_max(hand, list, n - 1);
    }
}

/// The slot a reactive clue focuses. A colour clue in a variant with a rainbow-like suit
/// focuses the slot one past its colour's position, and a rank clue in a variant with a
/// pink-like suit the slot of its rank, whatever cards they touch. Otherwise the focus
/// is the slot of the touched card that weighs most (see `focus_weight`), the newest
/// such card where several weigh the same.
pub proof fn law_reactive_focus(state: State, receiver: int, action: ClueAction)
    requires
        0 <= receiver < state.hands@.len(),
        exists|i: int| 0 <= i < state.hands@[receiver]@.len() && action.list@.contains(#[trigger] state.hands@[receiver]@[i]),
    ensures
        action.clue.kind == ClueKind::COLOUR && has_suit_like(state, RAINBOWISH@) ==> reactive_focus_spec(state, receiver, action) == action.clue.value + 1,
        action.clue.kind == ClueKind::RANK && has_suit_like(state, PINKISH@) ==> reactive_focus_spec(state, receiver, action) == action.clue.value,
        !(action.clue.kind == ClueKind::COLOUR && has_suit_like(state, RAINBOWISH@))
            && !(action.clue.kind == ClueKind::RANK && has_suit_like(state, PINKISH@)) ==> {
            let hand = state.hands@[receiver]@;
            let f = reactive_focus_spec(state, receiver, action) - 1;
            &&& 0 <= f < hand.len()
            &&& action.list@.contains(hand[f])
            &&& forall|j: int| 0 <= j < hand.len() && action.list@.contains(hand[j]) ==> focus_weight(hand, j) <= focus_weight(hand, f)
            &&& forall|j: int| f < j < hand.len() && action.list@.contains(hand[j]) ==> focus_weight(hand, j) < focus_weight(hand, f)
        },
{
    let hand = state.hands@[receiver]@;
    let k = choose|i: int| 0 <= i < hand.len() && action.list@.contains(#[trigger] hand[i]);
    lemma_focus_found(hand, action.list@, k, hand.len() as int);
    lemma_focus_upto_max(hand, action.list@, hand.len() as int);
}

/// Calling a card to discard: it keeps exactly the inferences that are not critical; it
/// is called to discard and trash, urgent where asked or already urgent, with its other
/// data kept and the turn noted last; every other card is as it was.
pub proof fn law_discard_called(old: Game, new: Game, target: int, urgent: bool)
    requires
        0 <= target < old.common.thoughts@.len(),
        0 <= target < old.meta@.len(),
        discard_called(old, new, target, urgent),
    ensures
        forall|x: int| new.common.thoughts@[target].inferred@.contains(x) <==>
            (old.common.thoughts@[target].inferred@.contains(x) && !old.state.is_critical_spec(Identity::of_ord(x))),
        new.common.thoughts@[target].possible == old.common.thoughts@[target].possible,
        new.meta@[target].status == CardStatus::CalledToDiscard,
        new.meta@[target].trash,
        new.meta@[target].urgent == (old.meta@[target].urgent || urgent),
        new.meta@[target].order == old.meta@[target].order,
        new.meta@[target].focused == old.meta@[target].focused,
        new.meta@[target].reasoning@.len() > 0 && new.meta@[target].reasoning@.last() == old.state.turn_count,
        new.meta@[target].reasoning@.len() <= old.meta@[target].reasoning@.len() + 1,
        forall|o: int| 0 <= o < old.meta@.len() && o != target ==> new.meta@[o] == old.meta@[o],
        forall|o: int| 0 <= o < old.common.thoughts@.len() && o != target ==> new.common.thoughts@[o] == old.common.thoughts@[o],
{
}

/// The lock card is the card of the hand with the lowest order that was not clued
/// before; a hand with every card clued has none.
pub proof fn law_lock_of(prev: State, hand: Seq<usize>)
    ensures
        lock_of(prev, hand) matches Some(l) ==> hand.contains(l) && !prev.deck@[l as int].clued
            && forall|j: int| 0 <= j < hand.len() && !prev.deck@[hand[j] as int].clued ==> l <= hand[j],
        lock_of(prev, hand) is None <==> forall|j: int| 0 <= j < hand.len() ==> prev.deck@[hand[j] as int].clued,
{
    if exists|i: int| 0 <= i < hand.len() && !prev.deck@[hand[i] as int].clued {
        lemma_min_unclued(prev, hand, hand.len() as int);
    }
}

proof fn lemma_min_unclued(prev: State, hand: Seq<usize>, n: int)
    requires
        0 <= n <= hand.len(),
        exists|i: int| 0 <= i < n && !prev.deck@[hand[i] as int].clued,
    ensures
        exists|m: usize| hand.contains(m) && !prev.deck@[m as int].clued
            && forall|j: int| 0 <= j < n && !prev.deck@[hand[j] as int].clued ==> m <= hand[j],
    decreases n,
{
    if exists|i: int| 0 <= i < n - 1 && !prev.deck@[hand[i] as int].clued {
        lemma_min_unclued(prev, hand, n - 1);
        let m = choose|m: usize| hand.contains(m) && !prev.deck@[m as int].clued
            && forall|j: int| 0 <= j < n - 1 && !prev.deck@[hand[j] as int].clued ==> m <= hand[j];
        if !prev.deck@[hand[n - 1] as int].clued && hand[n - 1] < m {
            assert(hand.contains(hand[n - 1]));
        } else {
            assert(hand.contains(m));
        }
    } else {
        assert(hand.contains(hand[n - 1]));
    }
}

/// The newest touched card is a touched card that was not clued before, with the
/// greatest order among such cards.
pub proof fn law_newest_touched(prev: State, list: Seq<usize>)
    requires
        exists|j: int| 0 <= j < list.len() && !prev.deck@[list[j] as int].clued,
    ensures
        list.contains(newest_touched(prev, list)),
        !prev.deck@[newest_touched(prev, list) as int].clued,
        forall|j: int| 0 <= j < list.len() && !prev.deck@[list[j] as int].clued ==> list[j] <= newest_touched(prev, list),
{
    lemma_max_new(prev, list, list.len() as int);
}

proof fn lemma_max_new(prev: State, list: Seq<usize>, n: int)
    requires
        0 <= n <= list.len(),
        exists|i: int| 0 <= i < n && !prev.deck@[list[i] as int].clued,
    ensures
        exists|m: usize| list.contains(m) && !prev.deck@[m as int].clued
            && forall|j: int| 0 <= j < n && !prev.deck@[list[j] as int].clued ==> list[j] <= m,
    decreases n,
{
    if exists|i: int| 0 <= i < n - 1 && !prev.deck@[list[i] as int].clued {
        lemma_max_new(prev, list, n - 1);
        let m = choose|m: usize| list.contains(m) && !prev.deck@[m as int].clued
            && forall|j: int| 0 <= j < n - 1 && !prev.deck@[list[j] as int].clued ==> list[j] <= m;
        if !prev.deck@[list[n - 1] as int].clued && list[n - 1] > m {
            assert(list.contains(list[n - 1]));
        } else {
            assert(list.contains(m));
        }
    } else {
        assert(list.contains(list[n - 1]));
    }
}

/// The first index of a card that the hand holds is where it first stands.
pub proof fn law_first_index(hand: Seq<usize>, o: usize)
    requires
        hand.contains(o),
    ensures
        0 <= first_index(hand, o) < hand.len(),
        hand[first_index(hand, o)] == o,
        forall|j: int| 0 <= j < first_index(hand, o) ==> hand[j] != o,
{
    lemma_first_at(hand, o, hand.len() as int);
}

proof fn lemma_first_at(hand: Seq<usize>, o: usize, n: int)
    requires
        0 <= n <= hand.len(),
        exists|i: int| 0 <= i < n && hand[i] == o,
    ensures
        exists|i: int| 0 <= i < hand.len() && hand[i] == o && forall|j: int| 0 <= j < i ==> hand[j] != o,
    decreases n,
{
    if exists|i: int| 0 <= i < n - 1 && hand[i] == o {
        lemma_first_at(hand, o, n - 1);
    } else {
        assert(hand[n - 1] == o);
        assert(forall|j: int| 0 <= j < n - 1 ==> hand[j] != o);
    }
}

/// The first unclued card after an index is unclued, after it, and every card between
/// them is clued.
pub proof fn law_first_unclued_after(state: State, hand: Seq<usize>, after: int)
    requires
        exists|i: int| after < i < hand.len() && !state.deck@[hand[i] as int].clued,
    ensures
        after < first_unclued_after(state, hand, after) < hand.len(),
        !state.deck@[hand[first_unclued_after(state, hand, after)] as int].clued,
        forall|j: int| after < j < first_unclued_after(state, hand, after) ==> state.deck@[hand[j] as int].clued,
{
    lemma_first_unclued(state, hand, after, hand.len() as int);
}

proof fn lemma_first_unclued(state: State, hand: Seq<usize>, after: int, n: int)
    requires
        n <= hand.len(),
        exists|i: int| after < i < n && !state.deck@[hand[i] as int].clued,
    ensures
        exists|i: int| after < i < hand.len() && !state.deck@[hand[i] as int].clued
            && forall|j: int| after < j < i ==> state.deck@[hand[j] as int].clued,
    decreases n - after,
{
    if exists|i: int| after < i < n - 1 && !state.deck@[hand[i] as int].clued {
        lemma_first_unclued(state, hand, after, n - 1);
    } else {
        assert(!state.deck@[hand[n - 1] as int].clued);
        assert(forall|j: int| after < j < n - 1 ==> state.deck@[hand[j] as int].clued);
    }
}

/// A card called to discard is called to discard and trash, urgent where asked or
/// already, and keeps its other data; a card moved off the chop is chop moved and keeps
/// its other data.
pub proof fn law_called_and_moved(m: ConvData, urgent: bool, turn: usize)
    ensures
        called_to_discard(m, urgent, turn).status == CardStatus::CalledToDiscard,
        called_to_discard(m, urgent, turn).trash,
        called_to_discard(m, urgent, turn).urgent == (m.urgent || urgent),
        called_to_discard(m, urgent, turn).order == m.order,
        called_to_discard(m, urgent, turn).focused == m.focused,
        called_to_discard(m, urgent, turn).depends_on == m.depends_on,
        chop_moved(m, turn).status == CardStatus::ChopMoved,
        chop_moved(m, turn).trash == m.trash,
        chop_moved(m, turn).urgent == m.urgent,
        chop_moved(m, turn).order == m.order,
        chop_moved(m, turn).focused == m.focused,
{
}

/// Noting a turn leaves it the last one noted, adding it only where it is not already.
pub proof fn law_noted(reasoning: Seq<usize>, turn: usize)
    ensures
        noted(reasoning, turn).len() > 0,
        noted(reasoning, turn).last() == turn,
        reasoning.len() > 0 && reasoning.last() == turn ==> noted(reasoning, turn) == reasoning,
        !(reasoning.len() > 0 && reasoning.last() == turn) ==> noted(reasoning, turn) == reasoning.push(turn),
{
}

} // verus!
