use vstd::prelude::*;

use crate::basics::card::{CardStatus, ConvData, Identity, Thought};
use crate::basics::identity_set::IdentitySet;
use crate::basics::game::Game;
use crate::basics::player::{Player, WaitingConnection, thought_ok, lemma_in_range_ids};
use crate::basics::player_same_but_thoughts;
use crate::basics::state::State;
use crate::basics::clue::ClueKind;
use crate::reactor::Reactor;
use crate::reactor::interpret_clue::{ends_with_turn, first_index, noted};

verus! {

/// The slot of the reacting hand that answers a slot of the receiving hand: counted
/// back from the focus slot, round the five slots, from 1 to 5.
pub open spec fn slot_for(focus_slot: int, slot: int) -> int {
    let other = (focus_slot + 5 - slot) % 5;
    if other == 0 { 5 } else { other }
}

/// Each of the five slots of the receiving hand is answered by its own slot of the
/// reacting hand, from 1 to 5: two different slots are never answered by the same one.
pub proof fn lemma_slot_for_distinct(focus_slot: int, a: int, b: int)
    requires
        focus_slot >= 0,
        1 <= a <= 5,
        1 <= b <= 5,
        a != b,
    ensures
        1 <= slot_for(focus_slot, a) <= 5,
        slot_for(focus_slot, a) != slot_for(focus_slot, b),
{
    let x = focus_slot + 5 - a;
    let y = focus_slot + 5 - b;
    assert(x % 5 != y % 5) by {
        vstd::arithmetic::div_mod::lemma_fundamental_div_mod(x, 5);
        vstd::arithmetic::div_mod::lemma_fundamental_div_mod(y, 5);
        assert(x - y == b - a);
        if x % 5 == y % 5 {
            assert(5 * (x / 5) - 5 * (y / 5) == b - a);
            assert(5 * (x / 5 - y / 5) == b - a) by (nonlinear_arith)
                requires 5 * (x / 5) - 5 * (y / 5) == b - a;
            assert(false) by (nonlinear_arith)
                requires 5 * (x / 5 - y / 5) == b - a, 1 <= a <= 5, 1 <= b <= 5, a != b;
        }
    }
}

/// The reacter's card that answers the receiver's card at index `i`, where the reacter
/// holds that slot.
pub open spec fn react_at(state: State, reacter: int, focus_slot: int, i: int) -> Option<usize> {
    let rs = slot_for(focus_slot, i + 1);
    if rs - 1 < state.hands@[reacter]@.len() {
        Some(state.hands@[reacter]@[rs - 1])
    } else {
        None
    }
}

/// The card was already called to play or to discard.
pub open spec fn called(meta: Seq<ConvData>, order: usize) -> bool {
    meta[order as int].status == CardStatus::CalledToPlay || meta[order as int].status == CardStatus::CalledToDiscard
}

/// The positions of the identities that the thought finds possible and that are playable.
pub open spec fn playable_poss(state: State, t: Thought) -> Set<int> {
    t.possible@.filter(|x: int| state.is_playable_spec(Identity::of_ord(x)))
}

/// Every identity that the thought finds possible is critical.
pub open spec fn all_critical(state: State, t: Thought) -> bool {
    forall|x: int| #[trigger] t.possible@.contains(x) ==> state.is_critical_spec(Identity::of_ord(x))
}

/// The identities of `s` that every active step for the card `o` keeps.
pub open spec fn kept(s: Set<int>, hand: Seq<usize>, o: int, steps: int, active: spec_fn(int) -> bool, keep: spec_fn(int, int) -> bool) -> Set<int> {
    s.filter(|x: int| forall|i: int| 0 <= i < steps && hand[i] == o && #[trigger] active(i) ==> keep(i, x))
}

/// Some active step reached the card `o`.
pub open spec fn reached(hand: Seq<usize>, o: int, steps: int, active: spec_fn(int) -> bool) -> bool {
    exists|i: int| 0 <= i < steps && hand[i] == o && #[trigger] active(i)
}

/// `new` is `old` with each card's inferences cut down to what the active steps for
/// it keep (the receiver's card at index `i` is that of step `i`).
pub open spec fn narrowed_by(
    old: Player,
    new: Player,
    hand: Seq<usize>,
    steps: int,
    active: spec_fn(int) -> bool,
    keep: spec_fn(int, int) -> bool,
) -> bool {
    &&& player_same_but_thoughts(new, old)
    &&& new.thoughts@.len() == old.thoughts@.len()
    &&& forall|o: int| 0 <= o < old.thoughts@.len() ==> (#[trigger] new.thoughts@[o]) == (Thought {
        inferred: new.thoughts@[o].inferred,
        ..old.thoughts@[o]
    })
    &&& forall|o: int| 0 <= o < old.thoughts@.len() ==> (#[trigger] new.thoughts@[o].inferred@) == kept(old.thoughts@[o].inferred@, hand, o, steps, active, keep)
}

/// `new` is `old` with cards marked as trash: those that an active step reached and
/// that were left with no inference.
pub open spec fn trash_marked(
    old: Seq<ConvData>,
    new: Seq<ConvData>,
    hand: Seq<usize>,
    steps: int,
    active: spec_fn(int) -> bool,
    keep: spec_fn(int, int) -> bool,
    common: Player,
) -> bool {
    &&& new.len() == old.len()
    &&& forall|o: int| 0 <= o < old.len() ==> (#[trigger] new[o]) == (ConvData { trash: new[o].trash, ..old[o] })
    &&& forall|o: int| 0 <= o < old.len() ==> (#[trigger] new[o].trash) == (old[o].trash || (reached(hand, o, steps, active)
        && kept(common.thoughts@[o].inferred@, hand, o, steps, active, keep) == Set::<int>::empty()))
}

/// What the reactions need: the players' cards are cards of the deck, everyone's
/// thoughts and the conventions' data cover the deck, and every slot the steps count
/// back from is reachable from the focus slot.
pub open spec fn reaction_ok(state: State, common: Player, meta: Seq<ConvData>, reacter: int, hand: Seq<usize>, focus_slot: int, target_slot: int) -> bool {
    &&& state.wf()
    &&& common.wf(state)
    &&& common.thoughts@.len() == state.deck@.len()
    &&& meta.len() == state.deck@.len()
    &&& 0 <= reacter < state.hands@.len()
    &&& forall|i: int| 0 <= i < hand.len() ==> #[trigger] hand[i] < state.deck@.len()
    &&& 1 <= target_slot
    &&& focus_slot + 6 <= usize::MAX
    &&& steps_of(hand, target_slot) <= focus_slot + 5
}

/// The number of steps: the receiver's cards before the target slot.
pub open spec fn steps_of(hand: Seq<usize>, target_slot: int) -> int {
    if target_slot - 1 < hand.len() { target_slot - 1 } else { hand.len() as int }
}

/// The four ways a reaction narrows the receiver's cards.
#[derive(Clone, Copy, PartialEq, Eq, Structural)]
pub enum Narrowing {
    /// A play reaction to a play clue: the playable identities go, but for the reacting
    /// card's only playable identity.
    PlayPlay,
    /// A discard reaction to a play clue: the playable identities go.
    DcPlay,
    /// A discard reaction to a discard clue: the trash goes.
    DcTrash,
    /// A play reaction to a discard clue: the trash goes.
    PlayTrash,
}

/// The step for the receiver's card at index `i` is active: the card was not already
/// called, the reacter holds the answering slot, and that card could have been
/// playable (for a play reaction) or not critical (for a discard reaction).
pub open spec fn step_active(kind: Narrowing, state: State, common: Player, meta: Seq<ConvData>, reacter: int, hand: Seq<usize>, focus_slot: int, i: int) -> bool {
    &&& !called(meta, hand[i])
    &&& react_at(state, reacter, focus_slot, i) matches Some(r) && match kind {
        Narrowing::PlayPlay | Narrowing::PlayTrash => playable_poss(state, common.thoughts@[r as int]).len() > 0,
        Narrowing::DcPlay | Narrowing::DcTrash => !all_critical(state, common.thoughts@[r as int]),
    }
}

/// Whether the step keeps the identity at position `x`.
pub open spec fn step_keep(kind: Narrowing, state: State, common: Player, reacter: int, focus_slot: int, i: int, x: int) -> bool {
    match kind {
        Narrowing::PlayPlay => match react_at(state, reacter, focus_slot, i) {
            Some(r) => {
                let p = playable_poss(state, common.thoughts@[r as int]);
                !state.is_playable_spec(Identity::of_ord(x)) || (p.len() == 1 && p.contains(x))
            },
            None => true,
        },
        Narrowing::DcPlay => !state.is_playable_spec(Identity::of_ord(x)),
        Narrowing::DcTrash | Narrowing::PlayTrash => !state.is_basic_trash_spec(Identity::of_ord(x)),
    }
}

/// The reaction marks the cards it leaves with no inference as trash.
pub open spec fn marks_trash(kind: Narrowing) -> bool {
    kind == Narrowing::PlayPlay || kind == Narrowing::DcPlay
}

/// The steps of a reaction of the kind.
pub open spec fn actives(kind: Narrowing, state: State, common: Player, meta: Seq<ConvData>, reacter: int, hand: Seq<usize>, focus_slot: int) -> spec_fn(int) -> bool {
    |i: int| step_active(kind, state, common, meta, reacter, hand, focus_slot, i)
}

/// What the steps of a reaction of the kind keep.
pub open spec fn keeps(kind: Narrowing, state: State, common: Player, reacter: int, focus_slot: int) -> spec_fn(int, int) -> bool {
    |i: int, x: int| step_keep(kind, state, common, reacter, focus_slot, i, x)
}

/// The reaction of the kind over the receiver's cards before the target slot: each
/// card's inferences are cut down, and, for a play clue, a card left with none is trash.
pub open spec fn reaction_done(kind: Narrowing, state: State, old: Player, new: Player, old_meta: Seq<ConvData>, new_meta: Seq<ConvData>,
    reacter: int, hand: Seq<usize>, focus_slot: int, target_slot: int) -> bool {
    let steps = steps_of(hand, target_slot);
    let active = actives(kind, state, old, old_meta, reacter, hand, focus_slot);
    let keep = keeps(kind, state, old, reacter, focus_slot);
    &&& new.wf(state)
    &&& narrowed_by(old, new, hand, steps, active, keep)
    &&& if marks_trash(kind) {
        trash_marked(old_meta, new_meta, hand, steps, active, keep, old)
    } else {
        new_meta == old_meta
    }
}

/// The receiver's slot (from 1) that the reaction with the card `order` answers: that of
/// the receiver's hand as the clue found it, counted back from the focus slot by the
/// reacting card's first slot in the reacter's hand before the reaction; `None` where
/// that hand had no such slot, or the receiver no longer holds the card.
pub open spec fn target_slot_of(prev: State, now: State, order: usize, wc: WaitingConnection) -> Option<int> {
    let k = first_index(prev.hands@[wc.reacter as int]@, order);
    let ts = slot_for(wc.focus_slot as int, k + 1);
    if ts - 1 < wc.receiver_hand@.len() && now.hands@[wc.receiver as int]@.contains(wc.receiver_hand@[ts - 1]) {
        Some(ts)
    } else {
        None
    }
}

/// `new` is `old` with the card `order` called to play: it keeps the identities that
/// are playable now, and it is focused, with the turn noted.
pub open spec fn target_called_to_play(old: Game, new: Game, order: int) -> bool {
    &&& new == (Game { common: new.common, meta: new.meta, ..old })
    &&& player_same_but_thoughts(new.common, old.common)
    &&& new.common.thoughts@ == old.common.thoughts@.update(order, Thought {
        inferred: new.common.thoughts@[order].inferred,
        ..old.common.thoughts@[order]
    })
    &&& new.common.thoughts@[order].inferred@ == old.common.thoughts@[order].inferred@.filter(
        |x: int| old.state.is_playable_spec(Identity::of_ord(x)))
    &&& new.meta@ == old.meta@.update(order, ConvData {
        status: CardStatus::CalledToPlay,
        focused: true,
        reasoning: new.meta@[order].reasoning,
        ..old.meta@[order]
    })
    &&& new.meta@[order].reasoning@ == noted(old.meta@[order].reasoning@, old.state.turn_count)
}

/// `new` is `old` with the card `order` called to discard: it loses the identities that
/// were critical before the reaction, it is trash where none is left, and the turn is
/// noted.
pub open spec fn target_called_to_discard(prev: State, old: Game, new: Game, order: int) -> bool {
    &&& new == (Game { common: new.common, meta: new.meta, ..old })
    &&& player_same_but_thoughts(new.common, old.common)
    &&& new.common.thoughts@ == old.common.thoughts@.update(order, Thought {
        inferred: new.common.thoughts@[order].inferred,
        ..old.common.thoughts@[order]
    })
    &&& new.common.thoughts@[order].inferred@ == old.common.thoughts@[order].inferred@.filter(
        |x: int| !prev.is_critical_spec(Identity::of_ord(x)))
    &&& new.meta@ == old.meta@.update(order, ConvData {
        status: CardStatus::CalledToDiscard,
        trash: old.meta@[order].trash || new.common.thoughts@[order].inferred@ == Set::<int>::empty(),
        reasoning: new.meta@[order].reasoning,
        ..old.meta@[order]
    })
    &&& new.meta@[order].reasoning@ == noted(old.meta@[order].reasoning@, old.state.turn_count)
}

/// The whole receiving hand is first taken as unplayable (as after a play reaction to a
/// play clue), then the reaction of the kind narrows the cards before the target slot.
pub open spec fn unplayable_then(kind: Narrowing, state: State, old: Player, new: Player, old_meta: Seq<ConvData>, new_meta: Seq<ConvData>,
    reacter: int, hand: Seq<usize>, focus_slot: int, target_slot: int) -> bool {
    exists|mid: Player, mid_meta: Seq<ConvData>| {
        &&& #[trigger] reaction_done(Narrowing::PlayPlay, state, old, mid, old_meta, mid_meta, reacter, hand, focus_slot, hand.len() + 1int)
        &&& reaction_done(kind, state, mid, new, mid_meta, new_meta, reacter, hand, focus_slot, target_slot)
    }
}

/// What a reaction needs: where the player is the reacter, the game before the reaction
/// holds the card, the game is well formed and everyone's thoughts fit the state before
/// it too, the deck is the same, and the slots the reaction counts back from the focus
/// slot are reachable.
pub open spec fn reaction_ready(prev: Game, game: Game, player_index: usize, order: usize, wc: WaitingConnection) -> bool {
    player_index == wc.reacter ==> {
        &&& game.wf()
        &&& prev.state.wf()
        &&& game.common.wf(prev.state)
        &&& prev.state.deck@.len() == game.state.deck@.len()
        &&& wc.reacter < prev.state.hands@.len()
        &&& wc.receiver < game.state.hands@.len()
        &&& prev.state.hands@[wc.reacter as int]@.contains(order)
        &&& prev.state.hands@[wc.reacter as int]@.len() <= wc.focus_slot + 5
        &&& forall|i: int| 0 <= i < wc.receiver_hand@.len() ==> #[trigger] wc.receiver_hand@[i] < game.state.deck@.len()
        &&& wc.receiver_hand@.len() <= wc.focus_slot + 5
        &&& wc.focus_slot + 6 <= usize::MAX
    }
}

/// The reaction went through `mid`: the target was called (to play where `play` is a
/// play reaction to a rank clue or a discard reaction to a colour clue, else to
/// discard), then the receiver's other cards were narrowed by the reaction's kind.
pub open spec fn reacted_via(play: bool, prev: Game, old: Game, mid: Game, new: Game, wc: WaitingConnection, ts: int) -> bool {
    let t = wc.receiver_hand@[ts - 1] as int;
    let calls_play = play == (wc.clue.kind == ClueKind::RANK);
    let r = wc.reacter as int;
    let hand = wc.receiver_hand@;
    let f = wc.focus_slot as int;
    &&& if calls_play { target_called_to_play(old, mid, t) } else { target_called_to_discard(prev.state, old, mid, t) }
    &&& new == (Game { common: new.common, meta: new.meta, ..mid })
    &&& if play {
        if calls_play {
            reaction_done(Narrowing::PlayPlay, prev.state, mid.common, new.common, mid.meta@, new.meta@, r, hand, f, ts)
        } else {
            unplayable_then(Narrowing::PlayTrash, prev.state, mid.common, new.common, mid.meta@, new.meta@, r, hand, f, ts)
        }
    } else {
        if calls_play {
            reaction_done(Narrowing::DcPlay, prev.state, mid.common, new.common, mid.meta@, new.meta@, r, hand, f, ts)
        } else {
            unplayable_then(Narrowing::DcTrash, prev.state, mid.common, new.common, mid.meta@, new.meta@, r, hand, f, ts)
        }
    }
}

/// The game after the card `order` of the player was played (`play`) or discarded:
/// nothing changes where the player is not the reacter or the reaction has no target
/// (see `target_slot_of`); else the reaction went through some `mid` (see `reacted_via`).
pub open spec fn reacted(play: bool, prev: Game, old: Game, new: Game, player_index: usize, order: usize, wc: WaitingConnection) -> bool {
    if player_index != wc.reacter {
        new == old
    } else {
        match target_slot_of(prev.state, old.state, order, wc) {
            None => new == old,
            Some(ts) => exists|mid: Game| #[trigger] reacted_via(play, prev, old, mid, new, wc, ts),
        }
    }
}

impl Reactor {
    /// The slot of the reacting hand that answers a slot of the receiving hand.
    pub fn calc_slot(focus_slot: usize, slot: usize) -> (r: usize)
        requires
            slot <= focus_slot + 5,
            focus_slot + 5 <= usize::MAX,
        ensures
            r == slot_for(focus_slot as int, slot as int),
            1 <= r <= 5,
    {
        let other = (focus_slot + 5 - slot) % 5;
        if other == 0 { 5 } else { other }
    }

    /// The slots of a reaction: that of the reacting card (the first place of `order` in
    /// the reacter's hand before the reaction, from 1) and the receiver's slot it
    /// answers; `None` where the receiver's hand as the clue found it has no such slot,
    /// or where the receiver no longer holds that card.
    pub fn calc_target_slot(prev: &Game, game: &Game, order: usize, wc: &WaitingConnection) -> (r: Option<(usize, usize)>)
        requires
            wc.reacter < prev.state.hands@.len(),
            wc.receiver < game.state.hands@.len(),
            prev.state.hands@[wc.reacter as int]@.contains(order),
            prev.state.hands@[wc.reacter as int]@.len() <= wc.focus_slot + 5,
            wc.focus_slot + 5 <= usize::MAX,
        ensures
            match r {
                Some((rs, ts)) => {
                    &&& target_slot_of(prev.state, game.state, order, *wc) == Some(ts as int)
                    &&& rs == first_index(prev.state.hands@[wc.reacter as int]@, order) + 1
                },
                None => target_slot_of(prev.state, game.state, order, *wc) is None,
            },
    {
        let hand = &prev.state.hands[wc.reacter];
        let mut k: usize = 0;
        while k < hand.len() && hand[k] != order
            invariant
                k <= hand@.len(),
                hand@.contains(order),
                forall|j: int| 0 <= j < k ==> hand@[j] != order,
            decreases hand@.len() - k,
        {
            k += 1;
        }
        proof {
            if k == hand@.len() {
                let j = choose|j: int| 0 <= j < hand@.len() && hand@[j] == order;
                assert(false);
            }
            let fi = first_index(hand@, order);
            assert(0 <= k < hand@.len() && hand@[k as int] == order && forall|j: int| 0 <= j < k ==> hand@[j] != order);
            assert(fi == k) by {
                assert(0 <= fi < hand@.len() && hand@[fi] == order && forall|j: int| 0 <= j < fi ==> hand@[j] != order);
                if fi < k {
                    assert(hand@[fi] != order);
                }
                if k < fi {
                    assert(hand@[k as int] != order);
                }
            }
        }
        let react_slot = k + 1;
        let target_slot = Reactor::calc_slot(wc.focus_slot, react_slot);
        if target_slot - 1 >= wc.receiver_hand.len() {
            return None;
        }
        let receive_order = wc.receiver_hand[target_slot - 1];
        if !crate::basics::vec_has(&game.state.hands[wc.receiver], receive_order) {
            return None;
        }
        Some((react_slot, target_slot))
    }

    /// The playable identities that the thought finds possible.
    fn playable_set(state: &State, t: &Thought) -> (r: IdentitySet)
        requires
            state.wf(),
            crate::basics::player::in_range(t.possible, state.num_suits()),
        ensures
            r@ == playable_poss(*state, *t),
            r@.finite(),
    {
        proof {
            lemma_in_range_ids(t.possible, *state);
        }
        let r = t.possible.filter(|i: Identity| -> (b: bool)
            requires state.wf() && state.id_ok(i)
            ensures b == state.is_playable_spec(i)
            { state.is_playable(i) });
        proof {
            assert(r@ =~= playable_poss(*state, *t)) by {
                assert forall|x: int| r@.contains(x) <==> playable_poss(*state, *t).contains(x) by {
                    if t.possible@.contains(x) {
                        assert(r@.contains(x) ==> state.is_playable_spec(Identity::of_ord(x)));
                        assert(!r@.contains(x) ==> !state.is_playable_spec(Identity::of_ord(x)));
                    }
                }
            }
            lemma_in_range_ids(r, *state);
        }
        let _ = r.len();
        r
    }

    /// Whether every identity that the thought finds possible is critical.
    fn all_critical_of(state: &State, t: &Thought) -> (r: bool)
        requires
            state.wf(),
            crate::basics::player::in_range(t.possible, state.num_suits()),
        ensures
            r == all_critical(*state, *t),
    {
        proof {
            lemma_in_range_ids(t.possible, *state);
        }
        let rest = t.possible.filter(|i: Identity| -> (b: bool)
            requires state.wf() && state.id_ok(i)
            ensures b == !state.is_critical_spec(i)
            { !state.is_critical(i) });
        let r = rest.is_empty();
        proof {
            if r {
                assert forall|x: int| #[trigger] t.possible@.contains(x) implies state.is_critical_spec(Identity::of_ord(x)) by {
                    assert(!rest@.contains(x));
                }
            } else {
                assert(exists|x: int| rest@.contains(x)) by {
                    if !(exists|x: int| rest@.contains(x)) {
                        assert(rest@ =~= Set::<int>::empty());
                    }
                }
                let x = choose|x: int| rest@.contains(x);
                assert(t.possible@.contains(x));
            }
        }
        r
    }

    /// Narrows the receiver's cards before the target slot by the reaction of the kind.
    fn narrow(
        kind: Narrowing,
        state: &State,
        common: &mut Player,
        meta: &mut Vec<ConvData>,
        reacter: usize,
        receiver_hand: &[usize],
        focus_slot: usize,
        target_slot: usize,
    )
        requires
            reaction_ok(*state, *old(common), old(meta)@, reacter as int, receiver_hand@, focus_slot as int, target_slot as int),
        ensures
            reaction_done(kind, *state, *old(common), *final(common), old(meta)@, final(meta)@, reacter as int, receiver_hand@,
                focus_slot as int, target_slot as int),
    {
        let ghost old_common = *common;
        let ghost old_meta = meta@;
        let ghost hand = receiver_hand@;
        let ghost active = actives(kind, *state, old_common, old_meta, reacter as int, hand, focus_slot as int);
        let ghost keep = keeps(kind, *state, old_common, reacter as int, focus_slot as int);
        let steps = if target_slot - 1 < receiver_hand.len() { target_slot - 1 } else { receiver_hand.len() };
        proof {
            lemma_no_steps(old_common, old_meta, hand, active, keep);
        }
        let mut i: usize = 0;
        while i < steps
            invariant
                reaction_ok(*state, old_common, old_meta, reacter as int, hand, focus_slot as int, target_slot as int),
                hand == receiver_hand@,
                steps == steps_of(hand, target_slot as int),
                steps <= hand.len(),
                i <= steps,
                active == actives(kind, *state, old_common, old_meta, reacter as int, hand, focus_slot as int),
                keep == keeps(kind, *state, old_common, reacter as int, focus_slot as int),
                common.wf(*state),
                narrowed_by(old_common, *common, hand, i as int, active, keep),
                marks_trash(kind) ==> trash_marked(old_meta, meta@, hand, i as int, active, keep, old_common),
                !marks_trash(kind) ==> meta@ == old_meta,
            decreases steps - i,
        {
            let order = receiver_hand[i];
            let ghost before = *common;
            let ghost meta_before = meta@;
            let mut go = false;
            if meta[order].status != CardStatus::CalledToPlay && meta[order].status != CardStatus::CalledToDiscard {
                let react_slot = Reactor::calc_slot(focus_slot, i + 1);
                if react_slot - 1 < state.hands[reacter].len() {
                    let react = state.hands[reacter][react_slot - 1];
                    proof {
                        assert(state.hands@[reacter as int]@[react_slot - 1] < state.deck@.len());
                        assert(thought_ok(common.thoughts@[react as int], react as int, *state));
                        assert(common.thoughts@[react as int].possible == old_common.thoughts@[react as int].possible);
                        assert(react_at(*state, reacter as int, focus_slot as int, i as int) == Some(react));
                    }
                    let mut t = common.thoughts[order];
                    proof {
                        assert(thought_ok(t, order as int, *state));
                        lemma_in_range_ids(t.inferred, *state);
                    }
                    match kind {
                        Narrowing::PlayPlay | Narrowing::PlayTrash => {
                            let plays = Reactor::playable_set(state, &common.thoughts[react]);
                            let n = plays.len();
                            if n != 0 {
                                go = true;
                                match kind {
                                    Narrowing::PlayPlay => {
                                        if n == 1 {
                                            let only = crate::basics::card::single_of(&plays);
                                            t.inferred.retain(|x: Identity| -> (b: bool)
                                                requires state.wf() && state.id_ok(x)
                                                ensures b == (!state.is_playable_spec(x) || x == only)
                                                { !state.is_playable(x) || (x.suit_index == only.suit_index && x.rank == only.rank) });
                                        } else {
                                            t.inferred.retain(|x: Identity| -> (b: bool)
                                                requires state.wf() && state.id_ok(x)
                                                ensures b == !state.is_playable_spec(x)
                                                { !state.is_playable(x) });
                                        }
                                        proof {
                                            let p = playable_poss(*state, old_common.thoughts@[react as int]);
                                            assert forall|x: int| #[trigger] t.inferred@.contains(x) <==> before.thoughts@[order as int].inferred@.contains(x) && keep(i as int, x) by {
                                                if before.thoughts@[order as int].inferred@.contains(x) {
                                                    crate::basics::card::lemma_ord_roundtrip(Identity::of_ord(x));
                                                    if n == 1 {
                                                        let only = crate::basics::card::first_id(plays);
                                                        crate::basics::card::lemma_ord_roundtrip(only);
                                                        assert(p.contains(x) <==> x == only.ord()) by {
                                                            if p.contains(x) && x != only.ord() {
                                                                assert(p.contains(only.ord()));
                                                                assert(p.remove(only.ord()).contains(x));
                                                            }
                                                        }
                                                    }
                                                }
                                            }
                                        }
                                    },
                                    _ => {
                                        t.inferred.retain(|x: Identity| -> (b: bool)
                                            requires state.wf() && state.id_ok(x)
                                            ensures b == !state.is_basic_trash_spec(x)
                                            { !state.is_basic_trash(x) });
                                    },
                                }
                            }
                        },
                        Narrowing::DcPlay | Narrowing::DcTrash => {
                            if !Reactor::all_critical_of(state, &common.thoughts[react]) {
                                go = true;
                                match kind {
                                    Narrowing::DcPlay => {
                                        t.inferred.retain(|x: Identity| -> (b: bool)
                                            requires state.wf() && state.id_ok(x)
                                            ensures b == !state.is_playable_spec(x)
                                            { !state.is_playable(x) });
                                    },
                                    _ => {
                                        t.inferred.retain(|x: Identity| -> (b: bool)
                                            requires state.wf() && state.id_ok(x)
                                            ensures b == !state.is_basic_trash_spec(x)
                                            { !state.is_basic_trash(x) });
                                    },
                                }
                            }
                        },
                    }
                    if go {
                        proof {
                            assert(active(i as int));
                            assert forall|x: int| #[trigger] t.inferred@.contains(x) <==> before.thoughts@[order as int].inferred@.contains(x) && keep(i as int, x) by {
                                if before.thoughts@[order as int].inferred@.contains(x) {
                                    crate::basics::card::lemma_ord_roundtrip(Identity::of_ord(x));
                                }
                            }
                        }
                        let ghost new_t = t;
                        common.thoughts.set(order, t);
                        let empty = common.thoughts[order].inferred.is_empty();
                        let marks = match kind {
                            Narrowing::PlayPlay | Narrowing::DcPlay => true,
                            _ => false,
                        };
                        if marks && empty {
                            meta[order].trash = true;
                        }
                        proof {
                            lemma_step_active(old_common, before, *common, hand, i as int, active, keep);
                            if marks_trash(kind) {
                                lemma_step_marks(old_common, before, *common, old_meta, meta_before, meta@, hand, i as int, active, keep);
                            }
                            assert(thought_ok(new_t, order as int, *state));
                            assert forall|o: int| 0 <= o < common.thoughts@.len() implies thought_ok(#[trigger] common.thoughts@[o], o, *state) by {
                                if o != order as int {
                                    assert(common.thoughts@[o] == before.thoughts@[o]);
                                }
                            }
                        }
                    }
                }
            }
            if !go {
                proof {
                    assert(!active(i as int));
                    lemma_step_skipped(old_common, *common, old_meta, meta@, hand, i as int, active, keep, marks_trash(kind));
                }
            }
            i += 1;
        }
    }

    /// After a play reaction to a play clue, the receiver's cards before the target slot
    /// lose the playable identities that their reacting cards could have shown, keeping
    /// a reacting card's only playable identity; a card left with no inference is trash.
    pub fn elim_play_play(state: &State, common: &mut Player, meta: &mut Vec<ConvData>, reacter: usize, receiver_hand: &[usize], focus_slot: usize, target_slot: usize)
        requires
            reaction_ok(*state, *old(common), old(meta)@, reacter as int, receiver_hand@, focus_slot as int, target_slot as int),
        ensures
            reaction_done(Narrowing::PlayPlay, *state, *old(common), *final(common), old(meta)@, final(meta)@, reacter as int,
                receiver_hand@, focus_slot as int, target_slot as int),
    {
        Reactor::narrow(Narrowing::PlayPlay, state, common, meta, reacter, receiver_hand, focus_slot, target_slot);
    }

    /// After a discard reaction to a play clue, the receiver's cards before the target
    /// slot whose reacting cards were not all critical lose their playable identities; a
    /// card left with no inference is trash.
    pub fn elim_dc_play(state: &State, common: &mut Player, meta: &mut Vec<ConvData>, reacter: usize, receiver_hand: &[usize], focus_slot: usize, target_slot: usize)
        requires
            reaction_ok(*state, *old(common), old(meta)@, reacter as int, receiver_hand@, focus_slot as int, target_slot as int),
        ensures
            reaction_done(Narrowing::DcPlay, *state, *old(common), *final(common), old(meta)@, final(meta)@, reacter as int,
                receiver_hand@, focus_slot as int, target_slot as int),
    {
        Reactor::narrow(Narrowing::DcPlay, state, common, meta, reacter, receiver_hand, focus_slot, target_slot);
    }

    /// After a discard reaction to a discard clue: the whole receiving hand is taken as
    /// unplayable (as after a play reaction to a play clue), then the receiver's cards
    /// before the target slot whose reacting cards were not all critical lose the trash.
    pub fn elim_dc_dc(state: &State, common: &mut Player, meta: &mut Vec<ConvData>, reacter: usize, receiver_hand: &[usize], focus_slot: usize, target_slot: usize)
        requires
            reaction_ok(*state, *old(common), old(meta)@, reacter as int, receiver_hand@, focus_slot as int, target_slot as int),
            reaction_ok(*state, *old(common), old(meta)@, reacter as int, receiver_hand@, focus_slot as int, receiver_hand@.len() + 1int),
        ensures
            unplayable_then(Narrowing::DcTrash, *state, *old(common), *final(common), old(meta)@, final(meta)@, reacter as int,
                receiver_hand@, focus_slot as int, target_slot as int),
    {
        let ghost start = *common;
        let ghost start_meta = meta@;
        Reactor::narrow(Narrowing::PlayPlay, state, common, meta, reacter, receiver_hand, focus_slot, receiver_hand.len() + 1);
        let ghost mid = *common;
        let ghost mid_meta = meta@;
        proof {
            lemma_reaction_ok_kept(*state, start, mid, start_meta, mid_meta, reacter as int, receiver_hand@, focus_slot as int, target_slot as int);
        }
        Reactor::narrow(Narrowing::DcTrash, state, common, meta, reacter, receiver_hand, focus_slot, target_slot);
    }

    /// After a play reaction to a discard clue: the whole receiving hand is taken as
    /// unplayable (as after a play reaction to a play clue), then the receiver's cards
    /// before the target slot whose reacting cards could have been playable lose the trash.
    pub fn elim_play_dc(state: &State, common: &mut Player, meta: &mut Vec<ConvData>, reacter: usize, receiver_hand: &[usize], focus_slot: usize, target_slot: usize)
        requires
            reaction_ok(*state, *old(common), old(meta)@, reacter as int, receiver_hand@, focus_slot as int, target_slot as int),
            reaction_ok(*state, *old(common), old(meta)@, reacter as int, receiver_hand@, focus_slot as int, receiver_hand@.len() + 1int),
        ensures
            unplayable_then(Narrowing::PlayTrash, *state, *old(common), *final(common), old(meta)@, final(meta)@, reacter as int,
                receiver_hand@, focus_slot as int, target_slot as int),
    {
        let ghost start = *common;
        let ghost start_meta = meta@;
        Reactor::narrow(Narrowing::PlayPlay, state, common, meta, reacter, receiver_hand, focus_slot, receiver_hand.len() + 1);
        let ghost mid = *common;
        let ghost mid_meta = meta@;
        proof {
            lemma_reaction_ok_kept(*state, start, mid, start_meta, mid_meta, reacter as int, receiver_hand@, focus_slot as int, target_slot as int);
        }
        Reactor::narrow(Narrowing::PlayTrash, state, common, meta, reacter, receiver_hand, focus_slot, target_slot);
    }
}

impl Reactor {
    /// Reads a discard of the reacter as the reaction the clue waited for (see `reacted`).
    pub fn react_discard(prev: &Game, game: &mut Game, player_index: usize, order: usize, wc: &WaitingConnection)
        requires
            reaction_ready(*prev, *old(game), player_index, order, *wc),
        ensures
            reacted(false, *prev, *old(game), *final(game), player_index, order, *wc),
    {
        Reactor::react(false, prev, game, player_index, order, wc);
    }

    /// Reads a play of the reacter as the reaction the clue waited for (see `reacted`).
    pub fn react_play(prev: &Game, game: &mut Game, player_index: usize, order: usize, wc: &WaitingConnection)
        requires
            reaction_ready(*prev, *old(game), player_index, order, *wc),
        ensures
            reacted(true, *prev, *old(game), *final(game), player_index, order, *wc),
    {
        Reactor::react(true, prev, game, player_index, order, wc);
    }

    /// The reaction to a play (`play`) or a discard of the card `order`.
    fn react(play: bool, prev: &Game, game: &mut Game, player_index: usize, order: usize, wc: &WaitingConnection)
        requires
            reaction_ready(*prev, *old(game), player_index, order, *wc),
        ensures
            reacted(play, *prev, *old(game), *final(game), player_index, order, *wc),
    {
        if player_index != wc.reacter {
            return;
        }
        let target_slot = match Reactor::calc_target_slot(prev, game, order, wc) {
            Some((_, ts)) => ts,
            None => return,
        };
        let ghost old_game = *game;
        let ghost t = wc.receiver_hand@[target_slot - 1] as int;
        let calls_play = play == (wc.clue.kind == ClueKind::RANK);
        if calls_play {
            Reactor::target_iplay(game, wc, target_slot);
        } else {
            Reactor::target_idiscard(&prev.state, game, wc, target_slot);
        }
        let ghost mid = *game;
        proof {
            lemma_one_narrowed_ok(prev.state, old_game.common, mid.common, t);
        }
        if play {
            if calls_play {
                Reactor::elim_play_play(&prev.state, &mut game.common, &mut game.meta, wc.reacter, wc.receiver_hand.as_slice(), wc.focus_slot, target_slot);
            } else {
                Reactor::elim_play_dc(&prev.state, &mut game.common, &mut game.meta, wc.reacter, wc.receiver_hand.as_slice(), wc.focus_slot, target_slot);
            }
        } else {
            if calls_play {
                Reactor::elim_dc_play(&prev.state, &mut game.common, &mut game.meta, wc.reacter, wc.receiver_hand.as_slice(), wc.focus_slot, target_slot);
            } else {
                Reactor::elim_dc_dc(&prev.state, &mut game.common, &mut game.meta, wc.reacter, wc.receiver_hand.as_slice(), wc.focus_slot, target_slot);
            }
        }
        proof {
            let tso = target_slot_of(prev.state, old_game.state, order, *wc);
            assert(tso->0 == target_slot as int);
            assert(reacted_via(play, *prev, old_game, mid, *game, *wc, tso->0));
        }
    }

    /// Calls the receiver's card at the target slot to play: it keeps the identities
    /// that are playable now, and it is focused, with the turn noted.
    fn target_iplay(game: &mut Game, wc: &WaitingConnection, target_slot: usize)
        requires
            old(game).wf(),
            1 <= target_slot <= wc.receiver_hand@.len(),
            wc.receiver_hand@[target_slot - 1] < old(game).state.deck@.len(),
        ensures
            target_called_to_play(*old(game), *final(game), wc.receiver_hand@[target_slot - 1] as int),
    {
        let ghost old_game = *game;
        let order = wc.receiver_hand[target_slot - 1];
        let mut t = game.common.thoughts[order];
        proof {
            assert(thought_ok(t, order as int, game.state));
            lemma_in_range_ids(t.inferred, game.state);
        }
        let state = &game.state;
        t.inferred.retain(|x: Identity| -> (b: bool)
            requires state.wf() && state.id_ok(x)
            ensures b == state.is_playable_spec(x)
            { state.is_playable(x) });
        proof {
            let before = old_game.common.thoughts@[order as int].inferred@;
            assert(t.inferred@ =~= before.filter(|x: int| old_game.state.is_playable_spec(Identity::of_ord(x)))) by {
                assert forall|x: int| t.inferred@.contains(x) <==> before.contains(x)
                    && old_game.state.is_playable_spec(Identity::of_ord(x)) by {
                    if before.contains(x) {
                        assert(t.inferred@.contains(x) ==> state.is_playable_spec(Identity::of_ord(x)));
                        assert(!t.inferred@.contains(x) ==> !state.is_playable_spec(Identity::of_ord(x)));
                    }
                }
            }
        }
        game.common.thoughts.set(order, t);
        let turn = game.state.turn_count;
        game.meta[order].status = CardStatus::CalledToPlay;
        game.meta[order].focused = true;
        if !ends_with_turn(&game.meta[order].reasoning, turn) {
            game.meta[order].reasoning.push(turn);
        }
        proof {
            assert(game.common.thoughts@ =~= old_game.common.thoughts@.update(order as int, Thought {
                inferred: game.common.thoughts@[order as int].inferred,
                ..old_game.common.thoughts@[order as int]
            }));
            assert(game.meta@ =~= old_game.meta@.update(order as int, ConvData {
                status: CardStatus::CalledToPlay,
                focused: true,
                reasoning: game.meta@[order as int].reasoning,
                ..old_game.meta@[order as int]
            }));
        }
    }

    /// Calls the receiver's card at the target slot to discard: it loses the identities
    /// that were critical before the reaction, it is trash where none is left, and the
    /// turn is noted.
    fn target_idiscard(prev: &State, game: &mut Game, wc: &WaitingConnection, target_slot: usize)
        requires
            prev.wf(),
            old(game).common.wf(*prev),
            old(game).common.thoughts@.len() == old(game).meta@.len(),
            1 <= target_slot <= wc.receiver_hand@.len(),
            wc.receiver_hand@[target_slot - 1] < old(game).common.thoughts@.len(),
        ensures
            target_called_to_discard(*prev, *old(game), *final(game), wc.receiver_hand@[target_slot - 1] as int),
    {
        let ghost old_game = *game;
        let order = wc.receiver_hand[target_slot - 1];
        let mut t = game.common.thoughts[order];
        proof {
            assert(thought_ok(t, order as int, *prev));
            lemma_in_range_ids(t.inferred, *prev);
        }
        t.inferred.retain(|x: Identity| -> (b: bool)
            requires prev.wf() && prev.id_ok(x)
            ensures b == !prev.is_critical_spec(x)
            { !prev.is_critical(x) });
        proof {
            let before = old_game.common.thoughts@[order as int].inferred@;
            assert(t.inferred@ =~= before.filter(|x: int| !prev.is_critical_spec(Identity::of_ord(x)))) by {
                assert forall|x: int| t.inferred@.contains(x) <==> before.contains(x)
                    && !prev.is_critical_spec(Identity::of_ord(x)) by {
                    if before.contains(x) {
                        assert(t.inferred@.contains(x) ==> !prev.is_critical_spec(Identity::of_ord(x)));
                        assert(!t.inferred@.contains(x) ==> prev.is_critical_spec(Identity::of_ord(x)));
                    }
                }
            }
        }
        let none_left = t.inferred.is_empty();
        game.common.thoughts.set(order, t);
        let turn = game.state.turn_count;
        game.meta[order].status = CardStatus::CalledToDiscard;
        if none_left {
            game.meta[order].trash = true;
        }
        if !ends_with_turn(&game.meta[order].reasoning, turn) {
            game.meta[order].reasoning.push(turn);
        }
        proof {
            assert(game.common.thoughts@ =~= old_game.common.thoughts@.update(order as int, Thought {
                inferred: game.common.thoughts@[order as int].inferred,
                ..old_game.common.thoughts@[order as int]
            }));
            assert(game.meta@ =~= old_game.meta@.update(order as int, ConvData {
                status: CardStatus::CalledToDiscard,
                trash: old_game.meta@[order as int].trash || game.common.thoughts@[order as int].inferred@ == Set::<int>::empty(),
                reasoning: game.meta@[order as int].reasoning,
                ..old_game.meta@[order as int]
            }));
        }
    }
}

/// Narrowing one card's inferences keeps the thoughts fitting the state.
proof fn lemma_one_narrowed_ok(state: State, old: Player, new: Player, o: int)
    requires
        old.wf(state),
        0 <= o < old.thoughts@.len(),
        player_same_but_thoughts(new, old),
        new.thoughts@ == old.thoughts@.update(o, Thought { inferred: new.thoughts@[o].inferred, ..old.thoughts@[o] }),
        new.thoughts@[o].inferred@.subset_of(old.thoughts@[o].inferred@),
    ensures
        new.wf(state),
{
    assert forall|p: int| 0 <= p < new.thoughts@.len() implies thought_ok(#[trigger] new.thoughts@[p], p, state) by {
        if p != o {
            assert(new.thoughts@[p] == old.thoughts@[p]);
        } else {
            assert(thought_ok(old.thoughts@[o], o, state));
        }
    }
}

/// A reaction leaves alone every card outside the receiver's hand as the clue found
/// it: what everyone thinks of it and the convention's data on it stay as they were,
/// and so do the state and each player's own thoughts.
pub proof fn lemma_reaction_keeps_other_cards(
    play: bool,
    prev: Game,
    old: Game,
    new: Game,
    player_index: usize,
    order: usize,
    wc: WaitingConnection,
    o: int,
)
    requires
        reaction_ready(prev, old, player_index, order, wc),
        reacted(play, prev, old, new, player_index, order, wc),
        0 <= o < old.common.thoughts@.len(),
        o < old.meta@.len(),
        !wc.receiver_hand@.contains(o as usize),
    ensures
        new.common.thoughts@[o] == old.common.thoughts@[o],
        new.meta@[o] == old.meta@[o],
        new.state == old.state,
        new.players == old.players,
{
    if player_index == wc.reacter {
        if let Some(ts) = target_slot_of(prev.state, old.state, order, wc) {
            let mid = choose|mid: Game| #[trigger] reacted_via(play, prev, old, mid, new, wc, ts);
            let t = wc.receiver_hand@[ts - 1] as int;
            assert(wc.receiver_hand@.contains(t as usize));
            assert(t != o);
            assert(mid.common.thoughts@[o] == old.common.thoughts@[o]);
            assert(mid.meta@[o] == old.meta@[o]);
            let calls_play = play == (wc.clue.kind == ClueKind::RANK);
            let (r, hand, f) = (wc.reacter as int, wc.receiver_hand@, wc.focus_slot as int);
            let (pass, kind) = if play {
                if calls_play { (false, Narrowing::PlayPlay) } else { (true, Narrowing::PlayTrash) }
            } else {
                if calls_play { (false, Narrowing::DcPlay) } else { (true, Narrowing::DcTrash) }
            };
            if pass {
                let (c, m) = choose|c: Player, m: Seq<ConvData>| {
                    &&& #[trigger] reaction_done(Narrowing::PlayPlay, prev.state, mid.common, c, mid.meta@, m, r, hand, f, hand.len() + 1int)
                    &&& reaction_done(kind, prev.state, c, new.common, m, new.meta@, r, hand, f, ts)
                };
                lemma_narrowing_outside(Narrowing::PlayPlay, prev.state, mid.common, c, mid.meta@, m, r, hand, f, hand.len() + 1int, o);
                lemma_narrowing_outside(kind, prev.state, c, new.common, m, new.meta@, r, hand, f, ts, o);
            } else {
                lemma_narrowing_outside(kind, prev.state, mid.common, new.common, mid.meta@, new.meta@, r, hand, f, ts, o);
            }
        }
    }
}

/// A narrowing leaves alone every card outside the receiver's hand.
proof fn lemma_narrowing_outside(kind: Narrowing, state: State, old: Player, new: Player, old_meta: Seq<ConvData>, new_meta: Seq<ConvData>,
    reacter: int, hand: Seq<usize>, focus_slot: int, target_slot: int, o: int)
    requires
        reaction_done(kind, state, old, new, old_meta, new_meta, reacter, hand, focus_slot, target_slot),
        0 <= o < old.thoughts@.len(),
        o < old_meta.len(),
        !hand.contains(o as usize),
    ensures
        new.thoughts@[o] == old.thoughts@[o],
        new_meta[o] == old_meta[o],
{
    let steps = steps_of(hand, target_slot);
    let active = actives(kind, state, old, old_meta, reacter, hand, focus_slot);
    let keep = keeps(kind, state, old, reacter, focus_slot);
    assert forall|i: int| 0 <= i < steps implies hand[i] != o by {
        if hand[i] == o {
            assert(hand.contains(o as usize));
        }
    }
    let before = old.thoughts@[o].inferred;
    assert(kept(before@, hand, o, steps, active, keep) =~= before@);
    IdentitySet::lemma_view_ext(new.thoughts@[o].inferred, before);
    assert(!reached(hand, o, steps, active));
}

/// A reaction keeps what the next one needs: the thoughts still cover the deck, and
/// the conventions' data too.
proof fn lemma_reaction_ok_kept(state: State, old: Player, new: Player, old_meta: Seq<ConvData>, new_meta: Seq<ConvData>,
    reacter: int, hand: Seq<usize>, focus_slot: int, target_slot: int)
    requires
        reaction_ok(state, old, old_meta, reacter, hand, focus_slot, target_slot),
        new.wf(state),
        new.thoughts@.len() == old.thoughts@.len(),
        new_meta.len() == old_meta.len(),
    ensures
        reaction_ok(state, new, new_meta, reacter, hand, focus_slot, target_slot),
{
}

/// Before any step, nothing is cut down and nothing is marked.
proof fn lemma_no_steps(common: Player, meta: Seq<ConvData>, hand: Seq<usize>, active: spec_fn(int) -> bool, keep: spec_fn(int, int) -> bool)
    requires
        meta.len() == common.thoughts@.len(),
    ensures
        narrowed_by(common, common, hand, 0, active, keep),
        trash_marked(meta, meta, hand, 0, active, keep, common),
{
    assert forall|o: int| 0 <= o < common.thoughts@.len() implies (#[trigger] common.thoughts@[o].inferred@) == kept(common.thoughts@[o].inferred@, hand, o, 0, active, keep) by {
        assert(common.thoughts@[o].inferred@ =~= kept(common.thoughts@[o].inferred@, hand, o, 0, active, keep));
    }
}

/// An active step cuts the card's inferences down to what it keeps.
proof fn lemma_step_active(
    old_common: Player,
    before: Player,
    after: Player,
    hand: Seq<usize>,
    i: int,
    active: spec_fn(int) -> bool,
    keep: spec_fn(int, int) -> bool,
)
    requires
        0 <= i < hand.len(),
        0 <= hand[i] < old_common.thoughts@.len(),
        active(i),
        narrowed_by(old_common, before, hand, i, active, keep),
        player_same_but_thoughts(after, before),
        after.thoughts@.len() == before.thoughts@.len(),
        forall|o: int| 0 <= o < before.thoughts@.len() && o != hand[i] ==> #[trigger] after.thoughts@[o] == before.thoughts@[o],
        after.thoughts@[hand[i] as int] == (Thought { inferred: after.thoughts@[hand[i] as int].inferred, ..before.thoughts@[hand[i] as int] }),
        forall|x: int| #[trigger] after.thoughts@[hand[i] as int].inferred@.contains(x) <==> before.thoughts@[hand[i] as int].inferred@.contains(x) && keep(i, x),
    ensures
        narrowed_by(old_common, after, hand, i + 1, active, keep),
{
    let order = hand[i] as int;
    assert forall|o: int| 0 <= o < old_common.thoughts@.len() implies (#[trigger] after.thoughts@[o].inferred@) == kept(old_common.thoughts@[o].inferred@, hand, o, i + 1, active, keep) by {
        let a = kept(old_common.thoughts@[o].inferred@, hand, o, i, active, keep);
        let b = kept(old_common.thoughts@[o].inferred@, hand, o, i + 1, active, keep);
        assert(before.thoughts@[o].inferred@ == a);
        if o == order {
            assert forall|x: int| after.thoughts@[o].inferred@.contains(x) <==> b.contains(x) by {
                if a.contains(x) && keep(i, x) {
                    assert forall|j: int| 0 <= j < i + 1 && hand[j] == o && #[trigger] active(j) implies keep(j, x) by {
                        if j < i {
                            assert(a.contains(x));
                        }
                    }
                }
            }
            assert(after.thoughts@[o].inferred@ =~= b);
        } else {
            assert(after.thoughts@[o] == before.thoughts@[o]);
            assert(a =~= b);
        }
    }
    assert forall|o: int| 0 <= o < old_common.thoughts@.len() implies (#[trigger] after.thoughts@[o]) == (Thought { inferred: after.thoughts@[o].inferred, ..old_common.thoughts@[o] }) by {
        assert(before.thoughts@[o] == (Thought { inferred: before.thoughts@[o].inferred, ..old_common.thoughts@[o] }));
    }
}

/// An active step marks its card as trash where no inference is left.
proof fn lemma_step_marks(
    old_common: Player,
    before: Player,
    after: Player,
    old_meta: Seq<ConvData>,
    meta_before: Seq<ConvData>,
    meta_after: Seq<ConvData>,
    hand: Seq<usize>,
    i: int,
    active: spec_fn(int) -> bool,
    keep: spec_fn(int, int) -> bool,
)
    requires
        0 <= i < hand.len(),
        0 <= hand[i] < old_common.thoughts@.len(),
        active(i),
        narrowed_by(old_common, after, hand, i + 1, active, keep),
        trash_marked(old_meta, meta_before, hand, i, active, keep, old_common),
        old_meta.len() == old_common.thoughts@.len(),
        meta_after == if after.thoughts@[hand[i] as int].inferred@ == Set::<int>::empty() {
            meta_before.update(hand[i] as int, ConvData { trash: true, ..meta_before[hand[i] as int] })
        } else {
            meta_before
        },
    ensures
        trash_marked(old_meta, meta_after, hand, i + 1, active, keep, old_common),
{
    let order = hand[i] as int;
    assert forall|o: int| 0 <= o < old_meta.len() implies (#[trigger] meta_after[o].trash) == (old_meta[o].trash || (reached(hand, o, i + 1, active)
        && kept(old_common.thoughts@[o].inferred@, hand, o, i + 1, active, keep) == Set::<int>::empty())) by {
        let a = kept(old_common.thoughts@[o].inferred@, hand, o, i, active, keep);
        let b = kept(old_common.thoughts@[o].inferred@, hand, o, i + 1, active, keep);
        assert(b.subset_of(a));
        if o == order {
            assert(reached(hand, o, i + 1, active)) by {
                assert(hand[i] == o && active(i));
            }
            if a == Set::<int>::empty() {
                assert(b =~= Set::<int>::empty());
            }
        } else {
            assert(a =~= b);
            if reached(hand, o, i + 1, active) {
                let j = choose|j: int| 0 <= j < i + 1 && hand[j] == o && #[trigger] active(j);
                assert(j < i);
            }
        }
    }
    assert forall|o: int| 0 <= o < old_meta.len() implies (#[trigger] meta_after[o]) == (ConvData { trash: meta_after[o].trash, ..old_meta[o] }) by {
        assert(meta_before[o] == (ConvData { trash: meta_before[o].trash, ..old_meta[o] }));
    }
}

/// A step that is not active changes nothing: what held of the steps before holds of
/// them and this one.
proof fn lemma_step_skipped(
    old_common: Player,
    common: Player,
    old_meta: Seq<ConvData>,
    meta: Seq<ConvData>,
    hand: Seq<usize>,
    i: int,
    active: spec_fn(int) -> bool,
    keep: spec_fn(int, int) -> bool,
    marking: bool,
)
    requires
        !active(i),
        narrowed_by(old_common, common, hand, i, active, keep),
        marking ==> trash_marked(old_meta, meta, hand, i, active, keep, old_common),
    ensures
        narrowed_by(old_common, common, hand, i + 1, active, keep),
        marking ==> trash_marked(old_meta, meta, hand, i + 1, active, keep, old_common),
{
    assert forall|o: int| 0 <= o < old_common.thoughts@.len() implies (#[trigger] common.thoughts@[o].inferred@) == kept(old_common.thoughts@[o].inferred@, hand, o, i + 1, active, keep) by {
        assert(kept(old_common.thoughts@[o].inferred@, hand, o, i, active, keep) =~= kept(old_common.thoughts@[o].inferred@, hand, o, i + 1, active, keep));
    }
    if marking {
        assert forall|o: int| 0 <= o < old_meta.len() implies (#[trigger] meta[o].trash) == (old_meta[o].trash || (reached(hand, o, i + 1, active)
            && kept(old_common.thoughts@[o].inferred@, hand, o, i + 1, active, keep) == Set::<int>::empty())) by {
            assert(kept(old_common.thoughts@[o].inferred@, hand, o, i, active, keep) =~= kept(old_common.thoughts@[o].inferred@, hand, o, i + 1, active, keep));
            if reached(hand, o, i + 1, active) {
                let j = choose|j: int| 0 <= j < i + 1 && hand[j] == o && #[trigger] active(j);
                assert(j < i);
            }
        }
    }
}

/// How a reaction narrows the receiver's card at index `i` before the target slot, where
/// its step is active: the card keeps only inferences it had; a reaction to a discard
/// clue (of either kind) leaves it no trash identity, and keeps every other one it had;
/// a discard reaction to a play clue leaves it no playable identity, and keeps the
/// others; a play reaction to a play clue leaves it no playable identity but the
/// reacting card's only playable possibility, and keeps the unplayable ones.
pub proof fn law_reaction_narrows(kind: Narrowing, state: State, old: Player, new: Player, old_meta: Seq<ConvData>,
    new_meta: Seq<ConvData>, reacter: int, hand: Seq<usize>, focus_slot: int, target_slot: int, i: int)
    requires
        reaction_done(kind, state, old, new, old_meta, new_meta, reacter, hand, focus_slot, target_slot),
        0 <= i < steps_of(hand, target_slot),
        0 <= i < hand.len(),
        hand[i] < old.thoughts@.len(),
        step_active(kind, state, old, old_meta, reacter, hand, focus_slot, i),
    ensures
        ({
            let o = hand[i] as int;
            let before = old.thoughts@[o].inferred@;
            let after = new.thoughts@[o].inferred@;
            &&& after.subset_of(before)
            &&& new.thoughts@[o].possible == old.thoughts@[o].possible
            &&& (kind == Narrowing::DcTrash || kind == Narrowing::PlayTrash) ==>
                forall|x: int| after.contains(x) ==> !state.is_basic_trash_spec(Identity::of_ord(x))
            &&& kind == Narrowing::DcPlay ==> forall|x: int| after.contains(x) ==> !state.is_playable_spec(Identity::of_ord(x))
            &&& kind == Narrowing::PlayPlay ==> forall|x: int| after.contains(x) && state.is_playable_spec(Identity::of_ord(x)) ==>
                (react_at(state, reacter, focus_slot, i) matches Some(r)
                    && playable_poss(state, old.thoughts@[r as int]).len() == 1
                    && playable_poss(state, old.thoughts@[r as int]).contains(x))
        }),
{
    let o = hand[i] as int;
    let steps = steps_of(hand, target_slot);
    let active = actives(kind, state, old, old_meta, reacter, hand, focus_slot);
    let keep = keeps(kind, state, old, reacter, focus_slot);
    assert(active(i));
    assert forall|x: int| new.thoughts@[o].inferred@.contains(x) implies old.thoughts@[o].inferred@.contains(x) && keep(i, x) by {
        assert(kept(old.thoughts@[o].inferred@, hand, o, steps, active, keep).contains(x));
    }
    if kind == Narrowing::PlayPlay {
        assert forall|x: int| new.thoughts@[o].inferred@.contains(x) && state.is_playable_spec(Identity::of_ord(x)) implies
            (react_at(state, reacter, focus_slot, i) matches Some(r) && playable_poss(state, old.thoughts@[r as int]).len() == 1
                && playable_poss(state, old.thoughts@[r as int]).contains(x)) by {
            assert(keep(i, x));
        }
    }
}

/// A card the reaction leaves untouched: no active step before the target slot reaches
/// it, and it keeps its inferences.
pub proof fn law_reaction_untouched(kind: Narrowing, state: State, old: Player, new: Player, old_meta: Seq<ConvData>,
    new_meta: Seq<ConvData>, reacter: int, hand: Seq<usize>, focus_slot: int, target_slot: int, o: int)
    requires
        reaction_done(kind, state, old, new, old_meta, new_meta, reacter, hand, focus_slot, target_slot),
        0 <= o < old.thoughts@.len(),
        forall|i: int| 0 <= i < steps_of(hand, target_slot) && hand[i] == o ==> !step_active(kind, state, old, old_meta, reacter, hand, focus_slot, i),
    ensures
        new.thoughts@[o].inferred@ == old.thoughts@[o].inferred@,
        new.thoughts@[o].possible == old.thoughts@[o].possible,
{
    let steps = steps_of(hand, target_slot);
    let active = actives(kind, state, old, old_meta, reacter, hand, focus_slot);
    let keep = keeps(kind, state, old, reacter, focus_slot);
    assert(kept(old.thoughts@[o].inferred@, hand, o, steps, active, keep) =~= old.thoughts@[o].inferred@);
}

/// Where a reaction to a discard clue first takes the whole hand as unplayable (a play
/// reaction, `elim_play_dc`, or a discard reaction, `elim_dc_dc`), every receiver card
/// before the target slot whose step is active is left with no trash identity.
pub proof fn law_reaction_to_discard_clue(kind: Narrowing, state: State, old: Player, new: Player, old_meta: Seq<ConvData>,
    new_meta: Seq<ConvData>, reacter: int, hand: Seq<usize>, focus_slot: int, target_slot: int, i: int)
    requires
        kind == Narrowing::DcTrash || kind == Narrowing::PlayTrash,
        unplayable_then(kind, state, old, new, old_meta, new_meta, reacter, hand, focus_slot, target_slot),
        reaction_ok(state, old, old_meta, reacter, hand, focus_slot, target_slot),
        0 <= i < steps_of(hand, target_slot),
        0 <= i < hand.len(),
        hand[i] < old.thoughts@.len(),
        step_active(kind, state, old, old_meta, reacter, hand, focus_slot, i),
    ensures
        forall|x: int| new.thoughts@[hand[i] as int].inferred@.contains(x) ==> !state.is_basic_trash_spec(Identity::of_ord(x)),
        new.thoughts@[hand[i] as int].inferred@.subset_of(old.thoughts@[hand[i] as int].inferred@),
{
    let (mid, mid_meta) = choose|mid: Player, mid_meta: Seq<ConvData>| {
        &&& #[trigger] reaction_done(Narrowing::PlayPlay, state, old, mid, old_meta, mid_meta, reacter, hand, focus_slot, hand.len() + 1int)
        &&& reaction_done(kind, state, mid, new, mid_meta, new_meta, reacter, hand, focus_slot, target_slot)
    };
    let o = hand[i] as int;
    // The first step changes only inferences and the trash marks, so the second step's
    // activity is the same as judged on `old`.
    let steps1 = steps_of(hand, hand.len() + 1int);
    let a1 = actives(Narrowing::PlayPlay, state, old, old_meta, reacter, hand, focus_slot);
    let k1 = keeps(Narrowing::PlayPlay, state, old, reacter, focus_slot);
    assert(narrowed_by(old, mid, hand, steps1, a1, k1));
    assert(mid_meta.len() == old_meta.len());
    let rr = react_at(state, reacter, focus_slot, i).unwrap();
    assert(old.thoughts@.len() == mid.thoughts@.len());
    assert(hand[i] < old_meta.len() ==> mid_meta[hand[i] as int].status == old_meta[hand[i] as int].status);
    if rr < old.thoughts@.len() {
        assert(mid.thoughts@[rr as int].possible == old.thoughts@[rr as int].possible);
        assert(playable_poss(state, mid.thoughts@[rr as int]) == playable_poss(state, old.thoughts@[rr as int]));
    }
    assert(rr < state.deck@.len()) by {
        let rs = slot_for(focus_slot, i + 1);
        assert(state.hands@[reacter]@[rs - 1] < state.deck@.len());
    }
    assert(mid_meta[hand[i] as int].status == old_meta[hand[i] as int].status) by {
        if marks_trash(Narrowing::PlayPlay) {
            assert(mid_meta[hand[i] as int] == (ConvData { trash: mid_meta[hand[i] as int].trash, ..old_meta[hand[i] as int] }));
        }
    }
    assert(step_active(kind, state, mid, mid_meta, reacter, hand, focus_slot, i));
    law_reaction_narrows(kind, state, mid, new, mid_meta, new_meta, reacter, hand, focus_slot, target_slot, i);
    assert(o < mid.thoughts@.len());
    assert(kept(old.thoughts@[o].inferred@, hand, o, steps1, a1, k1).subset_of(old.thoughts@[o].inferred@));
}

/// The answering slot is one of the five, and it and the answered slot add up to the
/// focus slot, counting round the five slots.
pub proof fn law_slot_for(focus_slot: int, slot: int)
    requires
        0 <= slot <= focus_slot + 5,
    ensures
        1 <= slot_for(focus_slot, slot) <= 5,
        (slot + slot_for(focus_slot, slot)) % 5 == focus_slot % 5,
{
    let x = focus_slot + 5 - slot;
    assert(x >= 0);
    vstd::arithmetic::div_mod::lemma_fundamental_div_mod(x, 5);
    vstd::arithmetic::div_mod::lemma_fundamental_div_mod(focus_slot, 5);
    let r = slot_for(focus_slot, slot);
    let q = x / 5;
    assert(slot + r == focus_slot + 5 - 5 * q + (if x % 5 == 0 { 5int } else { 0int }));
    assert((slot + r) % 5 == focus_slot % 5) by {
        let t = 1 - q + (if x % 5 == 0 { 1int } else { 0int });
        assert(slot + r == focus_slot + 5 * t);
        vstd::arithmetic::div_mod::lemma_mod_multiples_vanish(t, focus_slot, 5);
    }
}

/// Answering twice comes back to the slot: the slot that answers the answering slot is
/// the answered one.
pub proof fn law_slot_for_twice(focus_slot: int, slot: int)
    requires
        focus_slot >= 0,
        1 <= slot <= 5,
    ensures
        slot_for(focus_slot, slot_for(focus_slot, slot)) == slot,
{
    law_slot_for(focus_slot, slot);
    let r = slot_for(focus_slot, slot);
    law_slot_for(focus_slot, r);
    let r2 = slot_for(focus_slot, r);
    assert((slot + r) % 5 == (r2 + r) % 5);
    vstd::arithmetic::div_mod::lemma_fundamental_div_mod(slot + r, 5);
    vstd::arithmetic::div_mod::lemma_fundamental_div_mod(r2 + r, 5);
    assert(slot == r2) by (nonlinear_arith)
        requires
            1 <= slot <= 5,
            1 <= r2 <= 5,
            1 <= r <= 5,
            slot + r == 5 * ((slot + r) / 5) + (slot + r) % 5,
            r2 + r == 5 * ((r2 + r) / 5) + (r2 + r) % 5,
            (slot + r) % 5 == (r2 + r) % 5,
            0 <= (slot + r) % 5 < 5;
}

/// Calling a card to play after a reaction: it keeps exactly its playable inferences, is
/// called to play and focused with the turn noted last, and nothing else changes.
pub proof fn law_target_called_to_play(old: Game, new: Game, order: int)
    requires
        0 <= order < old.common.thoughts@.len(),
        0 <= order < old.meta@.len(),
        target_called_to_play(old, new, order),
    ensures
        forall|x: int| new.common.thoughts@[order].inferred@.contains(x) <==>
            (old.common.thoughts@[order].inferred@.contains(x) && old.state.is_playable_spec(Identity::of_ord(x))),
        new.common.thoughts@[order].possible == old.common.thoughts@[order].possible,
        new.meta@[order].status == CardStatus::CalledToPlay,
        new.meta@[order].focused,
        new.meta@[order].trash == old.meta@[order].trash,
        new.meta@[order].urgent == old.meta@[order].urgent,
        new.meta@[order].reasoning@.last() == old.state.turn_count,
        new.state == old.state,
        forall|o: int| 0 <= o < old.meta@.len() && o != order ==> new.meta@[o] == old.meta@[o],
        forall|o: int| 0 <= o < old.common.thoughts@.len() && o != order ==> new.common.thoughts@[o] == old.common.thoughts@[o],
{
    crate::reactor::interpret_clue::law_noted(old.meta@[order].reasoning@, old.state.turn_count);
}

/// Calling a card to discard after a reaction: it keeps exactly the inferences that
/// were not critical before the reaction, is called to discard, trash where it was or
/// where no inference is left, with the turn noted last, and nothing else changes.
pub proof fn law_target_called_to_discard(prev: State, old: Game, new: Game, order: int)
    requires
        0 <= order < old.common.thoughts@.len(),
        0 <= order < old.meta@.len(),
        target_called_to_discard(prev, old, new, order),
    ensures
        forall|x: int| new.common.thoughts@[order].inferred@.contains(x) <==>
            (old.common.thoughts@[order].inferred@.contains(x) && !prev.is_critical_spec(Identity::of_ord(x))),
        new.common.thoughts@[order].possible == old.common.thoughts@[order].possible,
        new.meta@[order].status == CardStatus::CalledToDiscard,
        new.meta@[order].trash == (old.meta@[order].trash || new.common.thoughts@[order].inferred@ == Set::<int>::empty()),
        new.meta@[order].urgent == old.meta@[order].urgent,
        new.meta@[order].reasoning@.last() == old.state.turn_count,
        new.state == old.state,
        forall|o: int| 0 <= o < old.meta@.len() && o != order ==> new.meta@[o] == old.meta@[o],
        forall|o: int| 0 <= o < old.common.thoughts@.len() && o != order ==> new.common.thoughts@[o] == old.common.thoughts@[o],
{
    crate::reactor::interpret_clue::law_noted(old.meta@[order].reasoning@, old.state.turn_count);
}

/// The slot a reaction answers is a slot of the receiver's hand as the clue found it,
/// holding a card the receiver still has, and it and the reacting card's first slot add
/// up to the focus slot, counting round the five slots.
pub proof fn law_target_slot_of(prev: State, now: State, order: usize, wc: WaitingConnection)
    requires
        0 <= wc.reacter < prev.hands@.len(),
        prev.hands@[wc.reacter as int]@.contains(order),
        prev.hands@[wc.reacter as int]@.len() <= wc.focus_slot + 5,
    ensures
        target_slot_of(prev, now, order, wc) matches Some(ts) ==> {
            let hand = prev.hands@[wc.reacter as int]@;
            let k = first_index(hand, order);
            &&& 1 <= ts <= wc.receiver_hand@.len()
            &&& now.hands@[wc.receiver as int]@.contains(wc.receiver_hand@[ts - 1])
            &&& hand[k] == order
            &&& (ts + k + 1) % 5 == wc.focus_slot % 5
        },
{
    let hand = prev.hands@[wc.reacter as int]@;
    crate::reactor::interpret_clue::law_first_index(hand, order);
    let k = first_index(hand, order);
    law_slot_for(wc.focus_slot as int, k + 1);
}

/// When a receiver's card is narrowed at all: never where it was already called to play
/// or discard, or where the reacter holds no card in the answering slot; otherwise, for
/// a play reaction, exactly when the reacting card has a playable possibility, and for
/// a discard reaction, exactly when not every possibility of the reacting card is
/// critical.
pub proof fn law_step_active(kind: Narrowing, state: State, common: Player, meta: Seq<ConvData>, reacter: int, hand: Seq<usize>, focus_slot: int, i: int)
    ensures
        (meta[hand[i] as int].status == CardStatus::CalledToPlay || meta[hand[i] as int].status == CardStatus::CalledToDiscard)
            ==> !step_active(kind, state, common, meta, reacter, hand, focus_slot, i),
        slot_for(focus_slot, i + 1) - 1 >= state.hands@[reacter]@.len() ==> !step_active(kind, state, common, meta, reacter, hand, focus_slot, i),
        !(meta[hand[i] as int].status == CardStatus::CalledToPlay || meta[hand[i] as int].status == CardStatus::CalledToDiscard)
            && slot_for(focus_slot, i + 1) - 1 < state.hands@[reacter]@.len() ==> {
            let r = state.hands@[reacter]@[slot_for(focus_slot, i + 1) - 1] as int;
            &&& (kind == Narrowing::PlayPlay || kind == Narrowing::PlayTrash) ==> (step_active(kind, state, common, meta, reacter, hand, focus_slot, i)
                <==> exists|x: int| common.thoughts@[r].possible@.contains(x) && state.is_playable_spec(Identity::of_ord(x)))
            &&& (kind == Narrowing::DcPlay || kind == Narrowing::DcTrash) ==> (step_active(kind, state, common, meta, reacter, hand, focus_slot, i)
                <==> exists|x: int| common.thoughts@[r].possible@.contains(x) && !state.is_critical_spec(Identity::of_ord(x)))
        },
{
    if !(meta[hand[i] as int].status == CardStatus::CalledToPlay || meta[hand[i] as int].status == CardStatus::CalledToDiscard)
        && slot_for(focus_slot, i + 1) - 1 < state.hands@[reacter]@.len() {
        let r = state.hands@[reacter]@[slot_for(focus_slot, i + 1) - 1] as int;
        let p = playable_poss(state, common.thoughts@[r]);
        if kind == Narrowing::PlayPlay || kind == Narrowing::PlayTrash {
            crate::basics::identity_set::lemma_bits_finite(common.thoughts@[r].possible.bits());
            if exists|x: int| common.thoughts@[r].possible@.contains(x) && state.is_playable_spec(Identity::of_ord(x)) {
                let x = choose|x: int| common.thoughts@[r].possible@.contains(x) && state.is_playable_spec(Identity::of_ord(x));
                assert(p.contains(x));
                assert(p.finite());
                if p.len() == 0 {
                    assert(p =~= Set::<int>::empty());
                }
            } else {
                assert(p =~= Set::<int>::empty());
            }
        }
    }
}

/// A reaction to a play clue marks as trash exactly the reached cards it leaves with no
/// inference, besides those already trash; a reaction to a discard clue leaves the
/// conventions' data alone.
pub proof fn law_reaction_marks(kind: Narrowing, state: State, old: Player, new: Player, old_meta: Seq<ConvData>,
    new_meta: Seq<ConvData>, reacter: int, hand: Seq<usize>, focus_slot: int, target_slot: int, o: int)
    requires
        reaction_done(kind, state, old, new, old_meta, new_meta, reacter, hand, focus_slot, target_slot),
        0 <= o < old_meta.len(),
        0 <= o < old.thoughts@.len(),
    ensures
        (kind == Narrowing::DcTrash || kind == Narrowing::PlayTrash) ==> new_meta == old_meta,
        (kind == Narrowing::PlayPlay || kind == Narrowing::DcPlay) ==> {
            &&& new_meta[o].status == old_meta[o].status
            &&& new_meta[o].trash == (old_meta[o].trash || ((exists|i: int| 0 <= i < steps_of(hand, target_slot) && hand[i] == o
                && #[trigger] step_active(kind, state, old, old_meta, reacter, hand, focus_slot, i))
                && new.thoughts@[o].inferred@ == Set::<int>::empty()))
        },
{
    let steps = steps_of(hand, target_slot);
    let active = actives(kind, state, old, old_meta, reacter, hand, focus_slot);
    let keep = keeps(kind, state, old, reacter, focus_slot);
    if kind == Narrowing::PlayPlay || kind == Narrowing::DcPlay {
        assert(new_meta[o] == (ConvData { trash: new_meta[o].trash, ..old_meta[o] }));
        assert(reached(hand, o, steps, active) == (exists|i: int| 0 <= i < steps && hand[i] == o
            && #[trigger] step_active(kind, state, old, old_meta, reacter, hand, focus_slot, i))) by {
            if reached(hand, o, steps, active) {
                let i = choose|i: int| 0 <= i < steps && hand[i] == o && #[trigger] active(i);
                assert(step_active(kind, state, old, old_meta, reacter, hand, focus_slot, i));
            }
            if exists|i: int| 0 <= i < steps && hand[i] == o && #[trigger] step_active(kind, state, old, old_meta, reacter, hand, focus_slot, i) {
                let i = choose|i: int| 0 <= i < steps && hand[i] == o && #[trigger] step_active(kind, state, old, old_meta, reacter, hand, focus_slot, i);
                assert(active(i));
            }
        }
    }
}

/// Which reaction a play or discard is: a play answering a rank clue, or a discard
/// answering a colour clue, calls the target to play; the other two call it to
/// discard. Then the receiver's other cards are narrowed: a play reaction to a play
/// clue takes away their playables, a discard reaction to a play clue too, and a
/// reaction to a discard clue first takes the whole hand as unplayable then takes away
/// their trash. A play or discard by someone other than the reacter, or with no
/// target slot, changes nothing.
pub proof fn law_reacted(play: bool, prev: Game, old: Game, new: Game, player_index: usize, order: usize, wc: WaitingConnection)
    requires
        reacted(play, prev, old, new, player_index, order, wc),
    ensures
        player_index != wc.reacter ==> new == old,
        player_index == wc.reacter && target_slot_of(prev.state, old.state, order, wc) is None ==> new == old,
        player_index == wc.reacter ==> (target_slot_of(prev.state, old.state, order, wc) matches Some(ts) ==> exists|mid: Game| {
            let t = wc.receiver_hand@[ts - 1] as int;
            let r = wc.reacter as int;
            let hand = wc.receiver_hand@;
            let f = wc.focus_slot as int;
            &&& #[trigger] mid.state == old.state
            &&& new.state == old.state
            &&& (play && wc.clue.kind == ClueKind::RANK) ==> target_called_to_play(old, mid, t)
                && reaction_done(Narrowing::PlayPlay, prev.state, mid.common, new.common, mid.meta@, new.meta@, r, hand, f, ts)
            &&& (play && wc.clue.kind == ClueKind::COLOUR) ==> target_called_to_discard(prev.state, old, mid, t)
                && unplayable_then(Narrowing::PlayTrash, prev.state, mid.common, new.common, mid.meta@, new.meta@, r, hand, f, ts)
            &&& (!play && wc.clue.kind == ClueKind::COLOUR) ==> target_called_to_play(old, mid, t)
                && reaction_done(Narrowing::DcPlay, prev.state, mid.common, new.common, mid.meta@, new.meta@, r, hand, f, ts)
            &&& (!play && wc.clue.kind == ClueKind::RANK) ==> target_called_to_discard(prev.state, old, mid, t)
                && unplayable_then(Narrowing::DcTrash, prev.state, mid.common, new.common, mid.meta@, new.meta@, r, hand, f, ts)
        }),
{
    if player_index == wc.reacter {
        if let Some(ts) = target_slot_of(prev.state, old.state, order, wc) {
            let mid = choose|mid: Game| #[trigger] reacted_via(play, prev, old, mid, new, wc, ts);
            assert(mid.state == old.state);
        }
    }
}

} // verus!
