use vstd::prelude::*;

use crate::basics::action::{Action, DiscardAction, PerformAction, PlayAction};
use crate::basics::card::{CardStatus, IdOptions, Identifiable, Identity};
use crate::basics::clue::{BaseClue, Clue, ClueKind};
use crate::basics::endgame::{counts_fit, first_sure_play, EndgameSolver};
use crate::basics::game::Game;
use crate::basics::game::frame::Frame;
use crate::basics::player::Player;
use crate::basics::state::State;
use crate::basics::util::{clue_to_perform, perform_to_action, touched_known};
use crate::reactor::Reactor;

verus! {

/// The clues to the target that touch a card of their hand.
pub open spec fn valid_clues(state: State, target: usize) -> Seq<Clue> {
    state.clue_candidates(target).filter(|c: Clue| state.clue_touches_hand(target as int, c))
}

/// The seat `k` places after ours.
pub open spec fn seat_ahead(state: State, k: int) -> usize {
    if state.our_player_index + k < state.num_players {
        (state.our_player_index + k) as usize
    } else {
        (state.our_player_index + k - state.num_players) as usize
    }
}

/// The valid clues to the players after us, seat by seat, from the next one up to
/// the one `k - 1` places ahead.
pub open spec fn clues_ahead(state: State, k: int) -> Seq<Clue>
    decreases k,
{
    if k <= 1 {
        Seq::empty()
    } else {
        clues_ahead(state, k - 1) + valid_clues(state, seat_ahead(state, k - 1))
    }
}

/// The action that gives the clue.
pub open spec fn perform_of(c: Clue) -> PerformAction {
    match c.kind {
        ClueKind::COLOUR => PerformAction::Colour { target: c.target, value: c.value },
        ClueKind::RANK => PerformAction::Rank { target: c.target, value: c.value },
    }
}

/// The pair is the clue given by us, with the cards of the target's hand that it
/// touches as far as the state knows them.
pub open spec fn clue_pair(state: State, c: Clue, pair: (PerformAction, Action)) -> bool {
    let base = BaseClue { kind: c.kind, value: c.value };
    &&& pair.0 == perform_of(c)
    &&& pair.1 matches Action::Clue(a) && a.giver == state.our_player_index && a.target == c.target
        && a.clue == base && a.list@ == touched_known(state, None, state.hands@[c.target as int]@, base)
}

/// What the player takes the card to be, falling back on a single inference.
pub open spec fn believed(me: Player, order: usize) -> Option<Identity> {
    me.thoughts@[order as int].identity_spec(IdOptions { infer: true, symmetric: false })
}

/// Playing the card, as the player expects it to go.
pub open spec fn play_pair(state: State, me: Player, order: usize) -> (PerformAction, Action) {
    let p = state.our_player_index;
    (PerformAction::Play { target: order }, match believed(me, order) {
        Some(id) => Action::Play(PlayAction { player_index: p, order, suit_index: id.suit_index as i32, rank: id.rank as i32 }),
        None => Action::Play(PlayAction { player_index: p, order, suit_index: -1i32, rank: -1i32 }),
    })
}

/// Discarding the card, as the player expects it to go.
pub open spec fn discard_pair(state: State, me: Player, order: usize) -> (PerformAction, Action) {
    let p = state.our_player_index;
    (PerformAction::Discard { target: order }, match believed(me, order) {
        Some(id) => Action::Discard(DiscardAction { player_index: p, order, suit_index: id.suit_index as i32, rank: id.rank as i32, failed: false }),
        None => Action::Discard(DiscardAction { player_index: p, order, suit_index: -1i32, rank: -1i32, failed: false }),
    })
}

/// The player whose turn it is.
pub open spec fn mover(game: Game) -> Player {
    game.players@[game.state.current_player_index as int]
}

/// The cards of our hand that the mover thinks playable, kept to those known playable
/// where there is one.
pub open spec fn candidate_plays(game: Game) -> Seq<usize> {
    let me = mover(game);
    let f = game.frame_spec();
    let all = game.state.hands@[game.state.our_player_index as int]@.filter(|o: usize| me.playable_order(f, o));
    let known = all.filter(|o: usize| me.order_kp_spec(f, o as int));
    if known.len() > 0 { known } else { all }
}

/// The cards of our hand that the mover thinks are trash.
pub open spec fn candidate_trash(game: Game) -> Seq<usize> {
    let me = mover(game);
    let f = game.frame_spec();
    game.state.hands@[game.state.our_player_index as int]@.filter(|o: usize| me.order_trash_spec(f, o as int))
}

/// The clues we may give: none without a clue token.
pub open spec fn candidate_clues(game: Game) -> Seq<Clue> {
    if game.state.clue_tokens == 0 { Seq::empty() } else { clues_ahead(game.state, game.state.num_players as int) }
}

/// Whether we may not discard: with every clue token, or with no pace left and
/// something else to do.
pub open spec fn cant_discard(game: Game) -> bool {
    let s = game.state;
    ||| s.clue_tokens == 8
    ||| (s.score_spec() + s.cards_left + s.num_players - s.max_score_spec() == 0
        && (candidate_clues(game).len() > 0 || candidate_plays(game).len() > 0))
}

/// The discards we may make.
pub open spec fn candidate_discards(game: Game) -> Seq<usize> {
    if cant_discard(game) { Seq::empty() } else { candidate_trash(game) }
}

/// Whether the player thinks the hand is locked (see `Player::thinks_locked`).
pub open spec fn locked_spec(me: Player, frame: Frame, player_index: int) -> bool {
    !me.thinks_loaded_spec(frame, player_index) && forall|i: int|
        0 <= i < frame.state.hands@[player_index]@.len() ==> {
            let o = #[trigger] frame.state.hands@[player_index]@[i] as int;
            ||| frame.state.deck@[o].clued
            ||| frame.meta@[o].status == CardStatus::Finessed
            ||| frame.meta@[o].status == CardStatus::CalledToPlay
            ||| frame.meta@[o].status == CardStatus::ChopMoved
        }
}

/// Whether the chop is added: we may discard, have nothing better to spend a turn on,
/// no trash to throw, and are not locked.
pub open spec fn chop_added(game: Game) -> bool {
    &&& !cant_discard(game)
    &&& game.state.clue_tokens == 0 || candidate_plays(game).len() == 0
    &&& candidate_discards(game).len() == 0
    &&& !locked_spec(mover(game), game.frame_spec(), game.state.our_player_index as int)
}

/// The list is the moves the Reactor weighs on our turn: every clue, then every play,
/// then every discard, and the chop where nothing else may be thrown.
pub open spec fn candidates_listed(game: Game, r: Seq<(PerformAction, Action)>) -> bool {
    let c = candidate_clues(game);
    let p = candidate_plays(game);
    let d = candidate_discards(game);
    let me = mover(game);
    let hand = game.state.hands@[game.state.our_player_index as int]@;
    &&& r.len() == c.len() + p.len() + d.len() + if chop_added(game) { 1int } else { 0int }
    &&& forall|i: int| 0 <= i < c.len() ==> clue_pair(game.state, c[i], #[trigger] r[i])
    &&& forall|j: int| 0 <= j < p.len() ==> #[trigger] r[c.len() + j] == play_pair(game.state, me, p[j])
    &&& forall|k: int| 0 <= k < d.len() ==> #[trigger] r[c.len() + p.len() + k] == discard_pair(game.state, me, d[k])
    &&& chop_added(game) ==> r[r.len() - 1] == (PerformAction::Discard { target: hand[0] },
        Action::Discard(DiscardAction { player_index: game.state.our_player_index, order: hand[0], suit_index: -1i32, rank: -1i32, failed: false }))
}

proof fn lemma_filter_same<A>(s: Seq<A>, f: spec_fn(A) -> bool, g: spec_fn(A) -> bool)
    requires
        forall|x: A| #[trigger] f(x) == g(x),
    ensures
        s.filter(f) == s.filter(g),
{
    assert(f =~= g);
}

proof fn lemma_filter_member<A>(s: Seq<A>, f: spec_fn(A) -> bool, i: int)
    requires
        0 <= i < s.filter(f).len(),
    ensures
        exists|k: int| 0 <= k < s.len() && s[k] == s.filter(f)[i],
{
    assert(s.filter(f).contains(s.filter(f)[i]));
    s.lemma_filter_contains_rev(f, s.filter(f)[i]);
}

proof fn lemma_valid_clue(state: State, t: usize, i: int)
    requires
        state.wf(),
        0 <= i < valid_clues(state, t).len(),
    ensures
        valid_clues(state, t)[i].target == t,
        valid_clues(state, t)[i].kind == ClueKind::COLOUR ==> state.clue_ok(BaseClue { kind: ClueKind::COLOUR, value: valid_clues(state, t)[i].value }),
        valid_clues(state, t)[i].kind == ClueKind::RANK ==> state.clue_ok(BaseClue { kind: ClueKind::RANK, value: valid_clues(state, t)[i].value }),
{
    let s = state.clue_candidates(t);
    let f = |c: Clue| state.clue_touches_hand(t as int, c);
    lemma_filter_same(s, f, |c: Clue| state.clue_touches_hand(t as int, c));
    lemma_filter_member(s, f, i);
}

proof fn lemma_in_hand(hand: Seq<usize>, f: spec_fn(usize) -> bool, i: int, bound: int)
    requires
        0 <= i < hand.filter(f).len(),
        forall|k: int| 0 <= k < hand.len() ==> #[trigger] hand[k] < bound,
    ensures
        hand.filter(f)[i] < bound,
{
    lemma_filter_member(hand, f, i);
}

impl Reactor {
    /// The moves the Reactor weighs on our turn, each with the action it expects it to
    /// become (see `candidates_listed`).
    pub fn candidate_actions(&self, game: &Game) -> (r: Vec<(PerformAction, Action)>)
        requires
            game.wf(),
            game.state.consistent(),
            game.state.our_player_index < game.state.num_players,
            game.state.current_player_index < game.state.num_players,
            game.state.cards_left + game.state.num_players + 5 * game.state.num_suits() <= i32::MAX,
            chop_added(*game) ==> game.state.hands@[game.state.our_player_index as int]@.len() > 0,
        ensures
            candidates_listed(*game, r@),
    {
        let state = &game.state;
        let our = state.our_player_index;
        let n = state.num_players;
        let ghost g = *game;
        let mut r: Vec<(PerformAction, Action)> = Vec::new();
        if state.clue_tokens != 0 {
            let mut offset: usize = 1;
            while offset < n
                invariant
                    game.wf(),
                    g == *game,
                    state == &game.state,
                    our == state.our_player_index,
                    n == state.num_players,
                    our < n,
                    1 <= offset <= n,
                    r@.len() == clues_ahead(*state, offset as int).len(),
                    forall|i: int| 0 <= i < r@.len() ==> clue_pair(*state, clues_ahead(*state, offset as int)[i], #[trigger] r@[i]),
                decreases n - offset,
            {
                let target = if offset < n - our { our + offset } else { offset - (n - our) };
                assert(target == seat_ahead(*state, offset as int));
                let clues = state.all_valid_clues(target);
                proof {
                    lemma_filter_same(state.clue_candidates(target),
                        |c: Clue| state.clue_touches_hand(target as int, c),
                        |c: Clue| state.clue_touches_hand(target as int, c));
                    assert(clues@ == valid_clues(*state, target));
                }
                let ghost before = r@;
                let mut j: usize = 0;
                while j < clues.len()
                    invariant
                        game.wf(),
                        state == &game.state,
                        our == state.our_player_index,
                        n == state.num_players,
                        target < n,
                        clues@ == valid_clues(*state, target),
                        j <= clues@.len(),
                        before.len() == clues_ahead(*state, offset as int).len(),
                        r@.len() == before.len() + j,
                        forall|i: int| 0 <= i < before.len() ==> r@[i] == before[i],
                        forall|i: int| 0 <= i < before.len() ==> clue_pair(*state, clues_ahead(*state, offset as int)[i], #[trigger] before[i]),
                        forall|i: int| 0 <= i < j ==> clue_pair(*state, clues@[i], #[trigger] r@[before.len() + i]),
                    decreases clues@.len() - j,
                {
                    let c = clues[j];
                    proof {
                        lemma_valid_clue(*state, target, j as int);
                    }
                    let perform = clue_to_perform(&c);
                    let action = perform_to_action(state, &perform, our, None);
                    r.push((perform, action));
                    j += 1;
                }
                proof {
                    let next = clues_ahead(*state, offset as int + 1);
                    assert(next == clues_ahead(*state, offset as int) + clues@);
                    assert forall|i: int| 0 <= i < r@.len() implies clue_pair(*state, next[i], #[trigger] r@[i]) by {
                        if i < before.len() {
                            assert(r@[i] == before[i]);
                        } else {
                            assert(r@[before.len() + (i - before.len())] == r@[i]);
                        }
                    }
                }
                offset += 1;
            }
        }
        let ghost c = r@;
        proof {
            assert(c.len() == candidate_clues(*game).len());
            assert(forall|i: int| 0 <= i < c.len() ==> clue_pair(game.state, candidate_clues(*game)[i], #[trigger] c[i]));
        }
        let num_clues = r.len();
        let frame = game.frame();
        let me = game.me();
        let playables = me.thinks_playables(&frame, our);
        let mut known: Vec<usize> = Vec::new();
        let mut i: usize = 0;
        proof {
            let f = |o: usize| me.playable_order(frame, o);
            assert forall|k: int| 0 <= k < playables@.len() implies #[trigger] playables@[k] < state.deck@.len() by {
                lemma_in_hand(state.hands@[our as int]@, f, k, state.deck@.len() as int);
            }
        }
        while i < playables.len()
            invariant
                game.wf(),
                frame == game.frame_spec(),
                frame.wf(),
                *me == mover(*game),
                me.wf(game.state),
                i <= playables@.len(),
                forall|k: int| 0 <= k < playables@.len() ==> #[trigger] playables@[k] < game.state.deck@.len(),
                known@ == playables@.take(i as int).filter(|o: usize| me.order_kp_spec(frame, o as int)),
            decreases playables@.len() - i,
        {
            let o = playables[i];
            let kp = me.order_kp(&frame, o);
            proof {
                let f = |o: usize| me.order_kp_spec(frame, o as int);
                assert(playables@.take(i as int + 1).drop_last() == playables@.take(i as int));
                reveal(Seq::filter);
            }
            if kp {
                known.push(o);
            }
            i += 1;
        }
        proof {
            assert(playables@.take(playables@.len() as int) == playables@);
        }
        proof {
            let kpf = |o: usize| me.order_kp_spec(frame, o as int);
            assert forall|x: int| 0 <= x < known@.len() implies #[trigger] known@[x] < state.deck@.len() by {
                lemma_in_hand(playables@, kpf, x, state.deck@.len() as int);
            }
            let hand = state.hands@[our as int]@;
            lemma_filter_same(hand, |o: usize| me.playable_order(frame, o), |o: usize| me.playable_order(frame, o));
            lemma_filter_same(playables@, kpf, |o: usize| me.order_kp_spec(frame, o as int));
        }
        let plays = if known.len() > 0 { known } else { playables };
        let ghost p = plays@;
        assert(p == candidate_plays(*game));
        let mut k: usize = 0;
        while k < plays.len()
            invariant
                game.wf(),
                *me == mover(*game),
                me.thoughts@.len() == game.state.deck@.len(),
                our == game.state.our_player_index,
                p == plays@,
                p == candidate_plays(*game),
                forall|x: int| 0 <= x < p.len() ==> #[trigger] p[x] < game.state.deck@.len(),
                k <= p.len(),
                r@.len() == c.len() + k,
                forall|x: int| 0 <= x < c.len() ==> r@[x] == c[x],
                forall|x: int| 0 <= x < k ==> #[trigger] r@[c.len() + x] == play_pair(game.state, *me, p[x]),
            decreases p.len() - k,
        {
            let o = plays[k];
            let id = me.thoughts[o].identity(&IdOptions { infer: true, symmetric: false });
            let action = match id {
                Some(id) => Action::play(our, o, id.suit_index as i32, id.rank as i32),
                None => Action::play(our, o, -1, -1),
            };
            r.push((PerformAction::Play { target: o }, action));
            k += 1;
        }
        let ghost cp = r@;
        let num_plays = plays.len();
        let cant = state.clue_tokens == 8 || (state.pace() == 0 && (num_clues > 0 || num_plays > 0));
        let trash = me.thinks_trash(&frame, our);
        proof {
            let tf = |o: usize| me.order_trash_spec(frame, o as int);
            assert forall|x: int| 0 <= x < trash@.len() implies #[trigger] trash@[x] < state.deck@.len() by {
                lemma_in_hand(state.hands@[our as int]@, tf, x, state.deck@.len() as int);
            }
            lemma_filter_same(state.hands@[our as int]@, tf, |o: usize| me.order_trash_spec(frame, o as int));
        }
        let mut num_discards: usize = 0;
        if !cant {
            let mut k: usize = 0;
            while k < trash.len()
                invariant
                    game.wf(),
                    *me == mover(*game),
                    me.thoughts@.len() == game.state.deck@.len(),
                    our == game.state.our_player_index,
                    trash@ == candidate_trash(*game),
                    forall|x: int| 0 <= x < trash@.len() ==> #[trigger] trash@[x] < game.state.deck@.len(),
                    k <= trash@.len(),
                    r@.len() == cp.len() + k,
                    forall|x: int| 0 <= x < cp.len() ==> r@[x] == cp[x],
                    forall|x: int| 0 <= x < k ==> #[trigger] r@[cp.len() + x] == discard_pair(game.state, *me, trash@[x]),
                decreases trash@.len() - k,
            {
                let o = trash[k];
                let id = me.thoughts[o].identity(&IdOptions { infer: true, symmetric: false });
                let action = match id {
                    Some(id) => Action::discard(our, o, id.suit_index as i32, id.rank as i32, false),
                    None => Action::discard(our, o, -1, -1, false),
                };
                r.push((PerformAction::Discard { target: o }, action));
                k += 1;
            }
            num_discards = trash.len();
        }
        assert(cant == cant_discard(*game));
        let ghost d = candidate_discards(*game);
        let ghost cpd = r@;
        assert(cpd.len() == c.len() + p.len() + d.len());
        assert(forall|x: int| 0 <= x < d.len() ==> #[trigger] cpd[c.len() + p.len() + x] == discard_pair(game.state, *me, d[x]));
        if !cant && (state.clue_tokens == 0 || num_plays == 0) && num_discards == 0 && !me.thinks_locked(&frame, our) {
            assert(chop_added(*game));
            let chop = state.hands[our][0];
            r.push((PerformAction::Discard { target: chop }, Action::discard(our, chop, -1, -1, false)));
        } else {
            assert(!chop_added(*game));
        }
        proof {
            let cs = candidate_clues(*game);
            assert forall|i: int| 0 <= i < cs.len() implies clue_pair(game.state, cs[i], #[trigger] r@[i]) by {
                assert(r@[i] == cpd[i]);
                assert(cpd[i] == cp[i]);
                assert(cp[i] == c[i]);
            }
            assert forall|j: int| 0 <= j < p.len() implies #[trigger] r@[c.len() + j] == play_pair(game.state, *me, p[j]) by {
                assert(r@[c.len() + j] == cpd[c.len() + j]);
                assert(cpd[c.len() + j] == cp[c.len() + j]);
            }
            assert forall|k: int| 0 <= k < d.len() implies #[trigger] r@[c.len() + p.len() + k] == discard_pair(game.state, *me, d[k]) by {
                assert(r@[c.len() + p.len() + k] == cpd[c.len() + p.len() + k]);
            }
        }
        r
    }
}

impl Reactor {
    /// The move the endgame asks for: in the endgame with at most one point more to
    /// score than there are suits, the move the solver finds (see
    /// `EndgameSolver::solve_game`), if any.
    pub fn endgame_action(&self, game: &Game) -> (r: Option<PerformAction>)
        requires
            game.wf(),
            game.state.consistent(),
            counts_fit(*game),
            game.state.our_player_index < game.state.num_players,
            game.state.current_player_index < game.state.num_players,
            game.state.cards_left + game.state.num_players + 5 * game.state.num_suits() <= i32::MAX,
            game.state.score_spec() <= game.state.max_score_spec(),
        ensures
            ({
                let s = game.state;
                let hand = s.hands@[s.our_player_index as int]@;
                if s.score_spec() + s.cards_left + s.num_players - s.max_score_spec() < s.num_players
                    && s.max_score_spec() - s.score_spec() <= s.num_suits() + 1
                    && s.score_spec() + 1 == s.max_score_spec() && first_sure_play(*game, 0) is Some {
                    r == Some(PerformAction::Play { target: hand[first_sure_play(*game, 0).unwrap()] })
                } else {
                    r is None
                }
            }),
    {
        let state = &game.state;
        if state.in_endgame() && state.rem_score() <= state.variant.suits.len() + 1 {
            let mut solver = EndgameSolver::new(true);
            match solver.solve_game(game) {
                Ok((perform, _)) => Some(perform),
                Err(_) => None,
            }
        } else {
            None
        }
    }
}

} // verus!
