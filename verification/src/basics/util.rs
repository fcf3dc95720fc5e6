use vstd::prelude::*;

use crate::basics::action::{Action, DiscardAction, GameOverAction, PerformAction, PlayAction};
use crate::basics::card::{Identifiable, IdOptions, Identity, MatchOptions, match_result};
use crate::basics::clue::{BaseClue, Clue, ClueKind};
use crate::basics::player::Player;
use crate::basics::state::{State, lemma_id_ok_valid};
use crate::basics::variant::{card_touched, card_touched_spec};

verus! {

/// The player thinks the card of the order, held by player `p`, matches the identity;
/// the player's own cards are asked about symmetrically.
pub open spec fn visible_match(player: Player, p: int, order: usize, id: Identity, options: MatchOptions) -> bool {
    let symmetric = if p == player.player_index { true } else { options.symmetric };
    match_result(
        player.thoughts@[order as int].identity_spec(IdOptions { infer: options.infer, symmetric }),
        Some(id),
        options.assumed,
    )
}

/// The matching cards of the first `n` hands, hand by hand, in hand order.
pub open spec fn visible_upto(state: State, player: Player, id: Identity, options: MatchOptions, n: int) -> Seq<usize>
    decreases n,
{
    if n <= 0 {
        Seq::empty()
    } else {
        visible_upto(state, player, id, options, n - 1) + state.hands@[n - 1]@.filter(
            |o: usize| visible_match(player, n - 1, o, id, options),
        )
    }
}

/// Some player `p` holds the card, which the player thinks matches the identity, and
/// `cond` answered true for it.
pub open spec fn found_by<F: Fn(usize, usize) -> bool>(state: State, player: Player, id: Identity, options: MatchOptions, cond: F, x: usize) -> bool {
    exists|p: int, i: int|
        0 <= p < state.hands@.len() && 0 <= i < state.hands@[p]@.len() && #[trigger] state.hands@[p]@[i] == x
            && visible_match(player, p, x, id, options) && cond.ensures((p as usize, x), true)
}

/// The cards in the hands that the player thinks match the identity and for which
/// `cond`, given the holder and the order, answers true, hand by hand.
pub fn visible_find<F: Fn(usize, usize) -> bool>(
    state: &State,
    player: &Player,
    id: &Identity,
    options: MatchOptions,
    cond: F,
) -> (r: Vec<usize>)
    requires
        state.hands_in_deck(),
        player.thoughts@.len() >= state.deck@.len(),
        forall|p: usize, o: usize| cond.requires((p, o)),
    ensures
        forall|j: int| 0 <= j < r@.len() ==> found_by(*state, *player, *id, options, cond, #[trigger] r@[j]),
        (forall|p: usize, o: usize, b: bool| cond.ensures((p, o), b) ==> b) ==> r@ == visible_upto(
            *state,
            *player,
            *id,
            options,
            state.hands@.len() as int,
        ),
{
    let ghost always = forall|p: usize, o: usize, b: bool| cond.ensures((p, o), b) ==> b;
    let mut orders: Vec<usize> = Vec::new();
    let mut p: usize = 0;
    while p < state.hands.len()
        invariant
            state.hands_in_deck(),
            player.thoughts@.len() >= state.deck@.len(),
            forall|p: usize, o: usize| cond.requires((p, o)),
            always == forall|p: usize, o: usize, b: bool| cond.ensures((p, o), b) ==> b,
            p <= state.hands@.len(),
            forall|j: int| 0 <= j < orders@.len() ==> found_by(*state, *player, *id, options, cond, #[trigger] orders@[j]),
            always ==> orders@ == visible_upto(*state, *player, *id, options, p as int),
        decreases state.hands@.len() - p,
    {
        let hand = &state.hands[p];
        let ghost f = |o: usize| visible_match(*player, p as int, o, *id, options);
        let ghost start = orders@;
        let mut i: usize = 0;
        while i < hand.len()
            invariant
                state.hands_in_deck(),
                player.thoughts@.len() >= state.deck@.len(),
                forall|p: usize, o: usize| cond.requires((p, o)),
                always == forall|p: usize, o: usize, b: bool| cond.ensures((p, o), b) ==> b,
                p < state.hands@.len(),
                *hand == state.hands@[p as int],
                i <= hand@.len(),
                f == (|o: usize| visible_match(*player, p as int, o, *id, options)),
                forall|j: int| 0 <= j < orders@.len() ==> found_by(*state, *player, *id, options, cond, #[trigger] orders@[j]),
                always ==> start == visible_upto(*state, *player, *id, options, p as int),
                always ==> orders@ == start + hand@.take(i as int).filter(f),
            decreases hand@.len() - i,
        {
            let order = hand[i];
            assert(order < state.deck@.len()) by {
                assert(state.hands@[p as int]@[i as int] < state.deck@.len());
            }
            let per_options = if p == player.player_index {
                MatchOptions { infer: options.infer, symmetric: true, assumed: options.assumed }
            } else {
                MatchOptions { infer: options.infer, symmetric: options.symmetric, assumed: options.assumed }
            };
            let ghost before = orders@;
            proof {
                assert(hand@.take(i + 1) =~= hand@.take(i as int).push(order));
                hand@.take(i as int).lemma_filter_push(order, f);
            }
            if player.thoughts[order].matches(id, &per_options) {
                let ok = cond(p, order);
                if ok {
                    orders.push(order);
                    proof {
                        assert(state.hands@[p as int]@[i as int] == order);
                        assert forall|j: int| 0 <= j < orders@.len() implies found_by(*state, *player, *id, options, cond, #[trigger] orders@[j]) by {
                            if j < before.len() {
                                assert(orders@[j] == before[j]);
                            } else {
                                assert(state.hands@[p as int]@[i as int] == orders@[j]);
                            }
                        }
                    }
                } else {
                    proof {
                        if always {
                            assert(false);
                        }
                    }
                }
            }
            i += 1;
        }
        proof {
            assert(hand@.take(hand@.len() as int) =~= hand@);
        }
        p += 1;
    }
    orders
}

/// The action that gives the clue.
pub fn clue_to_perform(clue: &Clue) -> (r: PerformAction)
    ensures
        r == (match clue.kind {
            ClueKind::COLOUR => PerformAction::Colour { target: clue.target, value: clue.value },
            ClueKind::RANK => PerformAction::Rank { target: clue.target, value: clue.value },
        }),
{
    match clue.kind {
        ClueKind::COLOUR => PerformAction::Colour { target: clue.target, value: clue.value },
        ClueKind::RANK => PerformAction::Rank { target: clue.target, value: clue.value },
    }
}

/// The identity of the card as the state knows it, or else as the given deck does.
pub open spec fn known_id(state: State, deck: Option<Seq<Identity>>, order: int) -> Option<Identity> {
    match state.deck@[order].base {
        Some(id) => Some(id),
        None => match deck {
            Some(d) => Some(d[order]),
            None => None,
        },
    }
}

/// The cards of the list that the clue touches, by their known identities.
pub open spec fn touched_known(state: State, deck: Option<Seq<Identity>>, orders: Seq<usize>, clue: BaseClue) -> Seq<usize> {
    orders.filter(|o: usize| card_touched_spec(known_id(state, deck, o as int), state.variant, clue))
}

/// The identities of the deck, if given.
pub open spec fn deck_view(deck: Option<&[Identity]>) -> Option<Seq<Identity>> {
    match deck {
        Some(d) => Some(d@),
        None => None,
    }
}

/// The deck, as far as it is given, holds identities of the state at every order of the state's deck.
pub open spec fn deck_ok(state: State, deck: Option<Seq<Identity>>) -> bool {
    deck matches Some(d) ==> d.len() >= state.deck@.len() && forall|o: int| 0 <= o < state.deck@.len() ==> state.id_ok(#[trigger] d[o])
}

/// The identity of the card as the state knows it, or else as the given deck does.
fn known_identity(state: &State, deck: Option<&[Identity]>, order: usize) -> (r: Option<Identity>)
    requires
        state.wf(),
        order < state.deck@.len(),
        deck_ok(*state, deck_view(deck)),
    ensures
        r == known_id(*state, deck_view(deck), order as int),
        r matches Some(id) ==> state.id_ok(id),
{
    match state.deck[order].id() {
        Some(id) => Some(id),
        None => match deck {
            Some(d) => Some(d[order]),
            None => None,
        },
    }
}

/// The cards of the list that the clue touches, by their known identities.
fn touched_by_known(state: &State, deck: Option<&[Identity]>, orders: &Vec<usize>, clue: &BaseClue) -> (r: Vec<usize>)
    requires
        state.wf(),
        state.clue_ok(*clue),
        deck_ok(*state, deck_view(deck)),
        forall|i: int| 0 <= i < orders@.len() ==> #[trigger] orders@[i] < state.deck@.len(),
    ensures
        r@ == touched_known(*state, deck_view(deck), orders@, *clue),
{
    let ghost f = |o: usize| card_touched_spec(known_id(*state, deck_view(deck), o as int), state.variant, *clue);
    let mut r: Vec<usize> = Vec::new();
    let mut i: usize = 0;
    while i < orders.len()
        invariant
            state.wf(),
            state.clue_ok(*clue),
            deck_ok(*state, deck_view(deck)),
            forall|i: int| 0 <= i < orders@.len() ==> #[trigger] orders@[i] < state.deck@.len(),
            i <= orders@.len(),
            f == (|o: usize| card_touched_spec(known_id(*state, deck_view(deck), o as int), state.variant, *clue)),
            r@ == orders@.take(i as int).filter(f),
        decreases orders@.len() - i,
    {
        let order = orders[i];
        proof {
            assert(orders@.take(i + 1) =~= orders@.take(i as int).push(order));
            orders@.take(i as int).lemma_filter_push(order, f);
        }
        let known = known_identity(state, deck, order);
        match known {
            Some(id) => {
                if card_touched(&id, &state.variant, clue) {
                    r.push(order);
                }
            },
            None => {},
        }
        i += 1;
    }
    proof {
        assert(orders@.take(orders@.len() as int) =~= orders@);
    }
    r
}

/// The game action that the chosen action becomes (see `perform_to_action`).
pub open spec fn performed(state: State, action: PerformAction, player_index: usize, deck: Option<Seq<Identity>>, r: Action) -> bool {
    match action {
        PerformAction::Play { target } => r == match known_id(state, deck, target as int) {
            Some(id) => if state.is_playable_spec(id) {
                Action::Play(PlayAction { player_index, order: target, suit_index: id.suit_index as i32, rank: id.rank as i32 })
            } else {
                Action::Discard(DiscardAction { player_index, order: target, suit_index: id.suit_index as i32, rank: id.rank as i32, failed: true })
            },
            None => Action::Discard(DiscardAction { player_index, order: target, suit_index: -1i32, rank: -1i32, failed: true }),
        },
        PerformAction::Discard { target } => r == match known_id(state, deck, target as int) {
            Some(id) => Action::Discard(DiscardAction { player_index, order: target, suit_index: id.suit_index as i32, rank: id.rank as i32, failed: false }),
            None => Action::Discard(DiscardAction { player_index, order: target, suit_index: -1i32, rank: -1i32, failed: false }),
        },
        PerformAction::Colour { target, value } => r matches Action::Clue(c) && c.giver == player_index && c.target == target
            && c.clue == (BaseClue { kind: ClueKind::COLOUR, value }) && c.list@ == touched_known(state, deck, state.hands@[target as int]@, BaseClue { kind: ClueKind::COLOUR, value }),
        PerformAction::Rank { target, value } => r matches Action::Clue(c) && c.giver == player_index && c.target == target
            && c.clue == (BaseClue { kind: ClueKind::RANK, value }) && c.list@ == touched_known(state, deck, state.hands@[target as int]@, BaseClue { kind: ClueKind::RANK, value }),
        PerformAction::Terminate { target, value } => r == Action::GameOver(GameOverAction { end_condition: value, player_index: target }),
    }
}

/// The game action that the player's chosen action becomes, given what the state knows
/// of the cards and, where it knows nothing, the deck if given: a play of an unplayable
/// card is a bomb, and a clue touches the cards that it would touch.
pub fn perform_to_action(state: &State, action: &PerformAction, player_index: usize, deck: Option<&[Identity]>) -> (r: Action)
    requires
        state.wf(),
        deck_ok(*state, deck_view(deck)),
        match *action {
            PerformAction::Play { target } => target < state.deck@.len(),
            PerformAction::Discard { target } => target < state.deck@.len(),
            PerformAction::Colour { target, value } => target < state.hands@.len() && state.clue_ok(BaseClue { kind: ClueKind::COLOUR, value }),
            PerformAction::Rank { target, value } => target < state.hands@.len() && state.clue_ok(BaseClue { kind: ClueKind::RANK, value }),
            PerformAction::Terminate { .. } => true,
        },
    ensures
        performed(*state, *action, player_index, deck_view(deck), r),
{
    match action {
        PerformAction::Play { target } => {
            match known_identity(state, deck, *target) {
                Some(id) => {
                    proof {
                        lemma_id_ok_valid(*state, id);
                    }
                    if state.is_playable(id) {
                        Action::play(player_index, *target, id.suit_index as i32, id.rank as i32)
                    } else {
                        Action::discard(player_index, *target, id.suit_index as i32, id.rank as i32, true)
                    }
                },
                None => Action::discard(player_index, *target, -1, -1, true),
            }
        },
        PerformAction::Discard { target } => {
            match known_identity(state, deck, *target) {
                Some(id) => {
                    proof {
                        lemma_id_ok_valid(*state, id);
                    }
                    Action::discard(player_index, *target, id.suit_index as i32, id.rank as i32, false)
                },
                None => Action::discard(player_index, *target, -1, -1, false),
            }
        },
        PerformAction::Colour { target, value } => {
            let clue = BaseClue { kind: ClueKind::COLOUR, value: *value };
            proof {
                assert forall|i: int| 0 <= i < state.hands@[*target as int]@.len() implies #[trigger] state.hands@[*target as int]@[i] < state.deck@.len() by {
                    assert(state.hands_in_deck());
                }
            }
            let list = touched_by_known(state, deck, &state.hands[*target], &clue);
            Action::clue(player_index, *target, clue, list)
        },
        PerformAction::Rank { target, value } => {
            let clue = BaseClue { kind: ClueKind::RANK, value: *value };
            proof {
                assert forall|i: int| 0 <= i < state.hands@[*target as int]@.len() implies #[trigger] state.hands@[*target as int]@[i] < state.deck@.len() by {
                    assert(state.hands_in_deck());
                }
            }
            let list = touched_by_known(state, deck, &state.hands[*target], &clue);
            Action::clue(player_index, *target, clue, list)
        },
        PerformAction::Terminate { target, value } => {
            Action::GameOver(GameOverAction { end_condition: *value, player_index: *target })
        },
    }
}

/// The players after the start up to the end, in turn order.
pub fn players_between(num_players: usize, start: usize, end: usize) -> (r: Vec<usize>)
    requires
        num_players > 0,
        start <= end + num_players,
        end + num_players <= usize::MAX,
    ensures
        r@ == Seq::new(
            ((end + num_players - start) as int % num_players as int) as nat,
            |k: int| ((start + k + 1) % num_players as int) as usize,
        ),
{
    let gap = (end + num_players - start) % num_players;
    let mut r: Vec<usize> = Vec::new();
    let mut inc: usize = 1;
    while inc <= gap
        invariant
            num_players > 0,
            gap == (end + num_players - start) as int % num_players as int,
            gap < num_players,
            start <= end + num_players,
            end + num_players <= usize::MAX,
            1 <= inc <= gap + 1,
            r@ == Seq::new((inc - 1) as nat, |k: int| ((start + k + 1) % num_players as int) as usize),
        decreases gap + 1 - inc,
    {
        proof {
            assert(start + inc <= start + gap);
            assert(start + gap <= end + num_players) by {
                assert(gap <= end + num_players - start) by (nonlinear_arith)
                    requires gap == (end + num_players - start) as int % num_players as int, num_players > 0, start <= end + num_players;
            }
        }
        r.push((start + inc) % num_players);
        proof {
            assert(r@ =~= Seq::new(inc as nat, |k: int| ((start + k + 1) % num_players as int) as usize));
        }
        inc += 1;
    }
    r
}

} // verus!
