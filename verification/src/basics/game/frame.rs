use vstd::prelude::*;

use crate::basics::card::{CardStatus, ConvData};
use crate::basics::state::State;
use crate::basics::player::Player;
use crate::basics::identity_set::ids_of;
use crate::basics::player::id_names;
use crate::text::joined;

verus! {

/// The state together with what the conventions have said about each card.
pub struct Frame<'a> {
    pub state: &'a State,
    pub meta: &'a Vec<ConvData>,
}

impl<'a> Frame<'a> {
    pub fn new(state: &'a State, meta: &'a Vec<ConvData>) -> (r: Self)
        ensures
            r.state == state,
            r.meta == meta,
    {
        Frame { state, meta }
    }

    /// The state is well formed and there is convention data for each card of the deck.
    pub open spec fn wf(&self) -> bool {
        &&& self.state.wf()
        &&& self.meta@.len() >= self.state.deck@.len()
    }

    pub open spec fn is_touched_spec(&self, order: int) -> bool {
        self.state.deck@[order].clued || self.meta@[order].status == CardStatus::Finessed
            || self.meta@[order].status == CardStatus::CalledToPlay
    }

    pub open spec fn is_blind_playing_spec(&self, order: int) -> bool {
        !self.state.deck@[order].clued && (self.meta@[order].status == CardStatus::Finessed
            || self.meta@[order].status == CardStatus::CalledToPlay)
    }

    /// Clued, or called to play.
    pub fn is_touched(&self, order: usize) -> (r: bool)
        requires
            order < self.state.deck@.len(),
            order < self.meta@.len(),
        ensures
            r == self.is_touched_spec(order as int),
    {
        let status = self.meta[order].status;
        self.state.deck[order].clued || status == CardStatus::Finessed || status == CardStatus::CalledToPlay
    }

    /// Called to play without a clue.
    pub fn is_blind_playing(&self, order: usize) -> (r: bool)
        requires
            order < self.state.deck@.len(),
            order < self.meta@.len(),
        ensures
            r == self.is_blind_playing_spec(order as int),
    {
        let status = self.meta[order].status;
        !self.state.deck[order].clued && (status == CardStatus::Finessed || status == CardStatus::CalledToPlay)
    }

    /// The text of the note: the inferences, or a sign where there are none or too many.
    pub open spec fn note_text(&self, common: Player, order: int) -> Seq<char> {
        let t = common.thoughts@[order];
        if t.inferred@.len() == 0 {
            seq!['?', '?']
        } else if t.inferred@.len() <= 6 {
            joined(id_names(*self.state, ids_of(t.inferred.bits())), seq![','])
        } else {
            seq!['.', '.', '.']
        }
    }

    /// The note for the card: its inferences, marked by what the conventions said of it.
    pub open spec fn get_note_spec(&self, common: Player, order: int) -> Seq<char> {
        let note = self.note_text(common, order);
        match self.meta@[order].status {
            CardStatus::Finessed | CardStatus::CalledToPlay => seq!['[', 'f', ']', ' ', '['] + note + seq![']'],
            CardStatus::ChopMoved => seq!['[', 'c', 'm', ']', ' ', '['] + note + seq![']'],
            CardStatus::CalledToDiscard => seq!['d', 'c'],
            _ => note,
        }
    }

    /// The note to write on the card.
    pub fn get_note(&self, common: &Player, order: usize) -> (r: String)
        requires
            self.wf(),
            common.wf(*self.state),
            order < self.state.deck@.len(),
        ensures
            r@ == self.get_note_spec(*common, order as int),
    {
        let t = common.thoughts[order];
        let n = t.inferred.len();
        let note = if n == 0 {
            proof {
                reveal_strlit("??");
            }
            String::from_str("??")
        } else if n <= 6 {
            common.str_infs(self.state, order)
        } else {
            proof {
                reveal_strlit("...");
            }
            String::from_str("...")
        };
        match self.meta[order].status {
            CardStatus::Finessed | CardStatus::CalledToPlay => {
                let mut r = String::from_str("[f] [");
                r.append(note.as_str());
                r.append("]");
                proof {
                    reveal_strlit("[f] [");
                    reveal_strlit("]");
                    assert(r@ =~= seq!['[', 'f', ']', ' ', '['] + note@ + seq![']']);
                }
                r
            },
            CardStatus::ChopMoved => {
                let mut r = String::from_str("[cm] [");
                r.append(note.as_str());
                r.append("]");
                proof {
                    reveal_strlit("[cm] [");
                    reveal_strlit("]");
                    assert(r@ =~= seq!['[', 'c', 'm', ']', ' ', '['] + note@ + seq![']']);
                }
                r
            },
            CardStatus::CalledToDiscard => {
                proof {
                    reveal_strlit("dc");
                }
                String::from_str("dc")
            },
            _ => note,
        }
    }
}

} // verus!
