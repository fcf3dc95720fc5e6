use vstd::prelude::*;

use crate::basics::state::State;
use crate::text::{decimal, lowercase, to_lower, usize_to_string};

verus! {

/// A clue names a colour or a rank.
#[derive(Debug, Clone, Copy, PartialEq, Eq, Hash, Structural)]
pub enum ClueKind {
    COLOUR,
    RANK,
}

impl ClueKind {
    /// The kind that the server writes as the number: 0 for colour, 1 for rank.
    pub fn from_num(n: u64) -> (r: Option<ClueKind>)
        ensures
            r == if n == 0 { Some(ClueKind::COLOUR) } else if n == 1 { Some(ClueKind::RANK) } else { None },
    {
        if n == 0 {
            Some(ClueKind::COLOUR)
        } else if n == 1 {
            Some(ClueKind::RANK)
        } else {
            None
        }
    }
}

/// A clue without its giver and target.
#[derive(Debug, Clone, Copy, PartialEq, Eq, Structural)]
pub struct BaseClue {
    pub kind: ClueKind,
    pub value: usize,
}

/// A clue as a card remembers it.
#[derive(Debug, Clone, Copy, PartialEq, Eq, Hash, Structural)]
pub struct CardClue {
    pub kind: ClueKind,
    pub value: usize,
    pub giver: usize,
    pub turn: usize,
}

/// A clue to a target player.
#[derive(Debug, Clone, Copy, PartialEq, Eq, Hash, Structural)]
pub struct Clue {
    pub kind: ClueKind,
    pub value: usize,
    pub target: usize,
}

impl BaseClue {
    /// A number that tells the clues apart: colours count from 0, ranks from 10.
    pub fn hash(&self) -> (r: u64)
        requires
            self.value + 10 <= u64::MAX,
        ensures
            r == (if self.kind == ClueKind::COLOUR { 0int } else { 10int }) + self.value,
    {
        (if self.kind == ClueKind::COLOUR { 0 } else { 10 }) + self.value as u64
    }
}

impl Clue {
    pub fn to_base(&self) -> (r: BaseClue)
        ensures
            r.kind == self.kind,
            r.value == self.value,
    {
        BaseClue { kind: self.kind, value: self.value }
    }
}

/// How a clue names its value: a colour by its suit in lower case, a rank by its number.
pub open spec fn clue_value_text(state: State, kind: ClueKind, value: usize) -> Seq<char> {
    if kind == ClueKind::COLOUR {
        lowercase(state.variant.suits@[value as int]@)
    } else {
        decimal(value as nat)
    }
}

/// A clue as the log writes it: "(value to name)".
pub open spec fn clue_text(state: State, kind: ClueKind, value: usize, target: usize) -> Seq<char> {
    seq!['('] + clue_value_text(state, kind, value) + seq![' ', 't', 'o', ' '] + state.player_names@[target as int]@ + seq![')']
}

/// Writes the clue to the target as the log does.
fn clue_fmt(state: &State, kind: ClueKind, value: usize, target: usize) -> (r: String)
    requires
        kind == ClueKind::COLOUR ==> value < state.variant.suits@.len(),
        target < state.player_names@.len(),
    ensures
        r@ == clue_text(*state, kind, value, target),
{
    let v = match kind {
        ClueKind::COLOUR => to_lower(state.variant.suits[value].as_str()),
        ClueKind::RANK => usize_to_string(value),
    };
    let mut r = String::from_str("(");
    r.append(v.as_str());
    r.append(" to ");
    r.append(state.player_names[target].as_str());
    r.append(")");
    proof {
        reveal_strlit("(");
        reveal_strlit(" to ");
        reveal_strlit(")");
        assert(r@ =~= clue_text(*state, kind, value, target));
    }
    r
}

impl BaseClue {
    /// The clue to the target, as the log writes it.
    pub fn fmt(&self, state: &State, target: usize) -> (r: String)
        requires
            self.kind == ClueKind::COLOUR ==> self.value < state.variant.suits@.len(),
            target < state.player_names@.len(),
        ensures
            r@ == clue_text(*state, self.kind, self.value, target),
    {
        clue_fmt(state, self.kind, self.value, target)
    }
}

impl Clue {
    /// The clue, as the log writes it.
    pub fn fmt(&self, state: &State) -> (r: String)
        requires
            self.kind == ClueKind::COLOUR ==> self.value < state.variant.suits@.len(),
            self.target < state.player_names@.len(),
        ensures
            r@ == clue_text(*state, self.kind, self.value, self.target),
    {
        clue_fmt(state, self.kind, self.value, self.target)
    }
}

} // verus!
