use vstd::prelude::*;

use crate::basics::action::PerformAction;
use crate::basics::card::{CardStatus, ConvData};
use crate::basics::game::Game;
use crate::basics::player::elim::{all_basic_trash, trash_ords};

pub mod candidates;
pub mod interpret_clue;
pub mod interpret_reaction;

verus! {

/// The Reactor convention.
pub struct Reactor;

impl Reactor {
    /// The discard that everyone expects of the player: the first card that they all
    /// know is trash, or else the card in slot 1.
    pub fn find_all_discards(&self, game: &Game, player_index: usize) -> (r: Vec<PerformAction>)
        requires
            game.wf(),
            player_index < game.state.num_players,
            game.state.hands@[player_index as int]@.len() > 0,
        ensures
            ({
                let hand = game.state.hands@[player_index as int]@;
                let trash = hand.filter(|o: usize| game.common.order_trash_spec(game.frame_spec(), o as int));
                r@ == seq![PerformAction::Discard { target: if trash.len() == 0 { hand[0] } else { trash[0] } }]
            }),
    {
        let frame = game.frame();
        let trash = game.common.thinks_trash(&frame, player_index);
        let target = if trash.len() == 0 { game.state.hands[player_index][0] } else { trash[0] };
        let mut r: Vec<PerformAction> = Vec::new();
        r.push(PerformAction::Discard { target });
        proof {
            assert(r@ =~= seq![PerformAction::Discard { target }]);
        }
        r
    }
}

/// The index of the first card of the hand, from `i` on, that the convention marked
/// urgent.
pub open spec fn first_urgent(hand: Seq<usize>, meta: Seq<ConvData>, i: int) -> Option<int>
    decreases hand.len() - i,
{
    if i < 0 || i >= hand.len() {
        None
    } else if meta[hand[i] as int].urgent {
        Some(i)
    } else {
        first_urgent(hand, meta, i + 1)
    }
}

/// The move an urgent card asks of us: the first urgent card of our hand, played where
/// it was called to play and is not known to be trash, discarded where it was called to
/// discard; nothing otherwise.
pub open spec fn urgent_choice(game: Game) -> Option<PerformAction> {
    let hand = game.state.hands@[game.state.our_player_index as int]@;
    match first_urgent(hand, game.meta@, 0) {
        None => None,
        Some(i) => {
            let m = game.meta@[hand[i] as int];
            let me = game.players@[game.state.current_player_index as int];
            match m.status {
                CardStatus::CalledToPlay => if me.thoughts@[m.order as int].possible@.subset_of(trash_ords(game.state)) {
                    None
                } else {
                    Some(PerformAction::Play { target: m.order })
                },
                CardStatus::CalledToDiscard => Some(PerformAction::Discard { target: m.order }),
                _ => None,
            }
        },
    }
}

impl Reactor {
    /// The move an urgent card asks of us, where one does (see `urgent_choice`): the
    /// first thing the Reactor checks when it is our turn.
    pub fn urgent_action(&self, game: &Game) -> (r: Option<PerformAction>)
        requires
            game.wf(),
            game.state.our_player_index < game.state.hands@.len(),
            game.state.current_player_index < game.players@.len(),
            forall|o: int| 0 <= o < game.meta@.len() ==> #[trigger] game.meta@[o].order < game.state.deck@.len(),
        ensures
            r == urgent_choice(*game),
    {
        let hand = game.state.our_hand();
        let ghost h = hand@;
        let mut i: usize = 0;
        while i < hand.len()
            invariant
                game.wf(),
                h == hand@,
                h == game.state.hands@[game.state.our_player_index as int]@,
                game.state.our_player_index < game.state.hands@.len(),
                game.state.current_player_index < game.players@.len(),
                forall|o: int| 0 <= o < game.meta@.len() ==> #[trigger] game.meta@[o].order < game.state.deck@.len(),
                i <= h.len(),
                first_urgent(h, game.meta@, 0) == first_urgent(h, game.meta@, i as int),
            decreases h.len() - i,
        {
            let order = hand[i];
            proof {
                assert(game.state.hands@[game.state.our_player_index as int]@[i as int] < game.state.deck@.len());
            }
            if game.meta[order].urgent {
                let m = &game.meta[order];
                let me = game.me();
                return match m.status {
                    CardStatus::CalledToPlay => {
                        proof {
                            assert(game.meta@[order as int].order < game.state.deck@.len());
                            assert(game.players@[game.state.current_player_index as int].wf(game.state));
                            assert(crate::basics::player::thought_ok(me.thoughts@[m.order as int], m.order as int, game.state));
                        }
                        if all_basic_trash(&game.state, me.thoughts[m.order].possible) {
                            None
                        } else {
                            Some(PerformAction::Play { target: m.order })
                        }
                    },
                    CardStatus::CalledToDiscard => Some(PerformAction::Discard { target: m.order }),
                    _ => None,
                };
            }
            i += 1;
        }
        None
    }
}

/// What a clue was taken to mean under the Reactor convention.
#[derive(Debug, Clone, Copy, PartialEq, Eq, Hash, Structural)]
pub enum ClueInterp {
    NoInterp,
    Mistake,
    Reactive,
    RefPlay,
    RefDiscard,
    Lock,
    Reveal,
    Fix,
    Reclue,
    Stall,
}

/// What the last move was taken to mean under the Reactor convention.
#[derive(Debug, Clone, Copy, PartialEq, Eq, Hash, Structural)]
pub enum ReactorInterp {
    Clue(ClueInterp),
}

} // verus!
