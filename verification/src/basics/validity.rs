use vstd::prelude::*;

use crate::basics::action::Action;
use crate::basics::card::{Identity, Thought};
use crate::basics::clue::ClueKind;
use crate::basics::{drawn_id, shown_id};
use crate::basics::game::Game;
use crate::basics::identity_set::IdentitySet;
use crate::basics::player::{Link, Player, in_range, link_ok, thought_ok};
use crate::basics::player::elim::held_before;
use crate::basics::state::State;
use crate::basics::variant::all_id_set;

verus! {

/// Whether every position of the set is one of the first `n` suits' identities,
/// given the set of all of them.
fn set_in_range(s: IdentitySet, all: IdentitySet, n: usize) -> (r: bool)
    requires
        all@ == Set::new(|o: int| 0 <= o < 5 * n),
    ensures
        r == in_range(s, n as nat),
{
    let outside = s.difference(&all);
    let r = outside.is_empty();
    proof {
        if r {
            assert forall|o: int| #[trigger] s@.contains(o) implies 0 <= o < 5 * n by {
                if !all@.contains(o) {
                    assert(outside@.contains(o));
                }
            }
        } else {
            let o = choose|o: int| outside@.contains(o);
            assert(!(outside@ =~= Set::<int>::empty())) by {
                if outside@ =~= Set::<int>::empty() {
                    assert(outside@.contains(o));
                }
            }
            let x = outside@.choose();
            assert(outside@.contains(x));
            assert(s@.contains(x) && !(0 <= x < 5 * n));
        }
    }
    r
}

impl State {
    /// Whether the state is well formed.
    pub fn check_wf(&self) -> (r: bool)
        ensures
            r == self.wf(),
    {
        let n = self.variant.suits.len();
        let shapes = match (&self.variant.colourable_suits, &self.variant.short_forms) {
            (Some(c), Some(f)) => f.len() == n && c.len() <= n && n <= (usize::BITS as usize) / 5,
            _ => false,
        };
        proof {
            assert((n <= (usize::BITS as usize) / 5) == (5 * n <= usize::BITS)) by (nonlinear_arith)
                requires usize::BITS == 32 || usize::BITS == 64;
        }
        if !shapes {
            return false;
        }
        if self.play_stacks.len() != n || self.max_ranks.len() != n || self.discard_stacks.len() != n
            || self.card_count.len() != 5 * n || self.num_players != self.hands.len() || self.num_players < 1 {
            return false;
        }
        let mut s: usize = 0;
        while s < n
            invariant
                n == self.num_suits(),
                self.play_stacks@.len() == n,
                self.max_ranks@.len() == n,
                self.discard_stacks@.len() == n,
                s <= n,
                forall|t: int| 0 <= t < s ==> (#[trigger] self.discard_stacks@[t])@.len() == 5,
                forall|t: int| 0 <= t < s ==> #[trigger] self.play_stacks@[t] <= 5,
                forall|t: int| 0 <= t < s ==> #[trigger] self.max_ranks@[t] <= 5,
            decreases n - s,
        {
            if self.discard_stacks[s].len() != 5 || self.play_stacks[s] > 5 || self.max_ranks[s] > 5 {
                return false;
            }
            s += 1;
        }
        let mut o: usize = 0;
        while o < 5 * n
            invariant
                n == self.num_suits(),
                5 * n <= usize::BITS,
                self.card_count@.len() == 5 * n,
                o <= 5 * n,
                forall|k: int| 0 <= k < o ==> 1 <= #[trigger] self.counts()[k] <= 3,
            decreases 5 * n - o,
        {
            if self.card_count[o] < 1 || self.card_count[o] > 3 {
                return false;
            }
            o += 1;
        }
        let mut o: usize = 0;
        while o < self.deck.len()
            invariant
                n == self.num_suits(),
                o <= self.deck@.len(),
                forall|k: int| 0 <= k < o ==> ((#[trigger] self.deck@[k]).base matches Some(id) ==> self.id_ok(id)),
            decreases self.deck@.len() - o,
        {
            match self.deck[o].base {
                Some(id) => {
                    if id.suit_index >= n || id.rank < 1 || id.rank > 5 {
                        return false;
                    }
                },
                None => {},
            }
            o += 1;
        }
        self.check_hands()
    }

    /// Whether the hands hold cards of the deck, each at most once.
    fn check_hands(&self) -> (r: bool)
        ensures
            r == (self.hands_in_deck() && self.hands_distinct()),
    {
        let len = self.deck.len();
        let mut seen: Vec<bool> = Vec::new();
        while seen.len() < len
            invariant
                len == self.deck@.len(),
                seen@.len() <= len,
                forall|k: int| 0 <= k < seen@.len() ==> !#[trigger] seen@[k],
            decreases len - seen@.len(),
        {
            seen.push(false);
        }
        let mut p: usize = 0;
        while p < self.hands.len()
            invariant
                len == self.deck@.len(),
                seen@.len() == len,
                p <= self.hands@.len(),
                forall|k: int| 0 <= k < len ==> (#[trigger] seen@[k] <==> held_before(*self, p as int, 0, k)),
                forall|p2: int, i2: int| 0 <= p2 < p && 0 <= i2 < self.hands@[p2]@.len() ==> #[trigger] self.hands@[p2]@[i2] < len,
                forall|p1: int, i1: int, p2: int, i2: int|
                    0 <= p1 < p && 0 <= i1 < self.hands@[p1]@.len() && 0 <= p2 < p && 0 <= i2 < self.hands@[p2]@.len()
                        && #[trigger] self.hands@[p1]@[i1] == #[trigger] self.hands@[p2]@[i2] ==> p1 == p2 && i1 == i2,
            decreases self.hands@.len() - p,
        {
            let hand = &self.hands[p];
            let mut i: usize = 0;
            while i < hand.len()
                invariant
                    len == self.deck@.len(),
                    seen@.len() == len,
                    p < self.hands@.len(),
                    *hand == self.hands@[p as int],
                    i <= hand@.len(),
                    forall|k: int| 0 <= k < len ==> (#[trigger] seen@[k] <==> held_before(*self, p as int, i as int, k)),
                    forall|p2: int, i2: int| 0 <= p2 < self.hands@.len() && 0 <= i2 < self.hands@[p2]@.len() && (p2 < p || (p2 == p && i2 < i))
                        ==> #[trigger] self.hands@[p2]@[i2] < len,
                    forall|p1: int, i1: int, p2: int, i2: int|
                        0 <= p1 < self.hands@.len() && 0 <= i1 < self.hands@[p1]@.len() && 0 <= p2 < self.hands@.len() && 0 <= i2 < self.hands@[p2]@.len()
                            && (p1 < p || (p1 == p && i1 < i)) && (p2 < p || (p2 == p && i2 < i))
                            && #[trigger] self.hands@[p1]@[i1] == #[trigger] self.hands@[p2]@[i2] ==> p1 == p2 && i1 == i2,
                decreases hand@.len() - i,
            {
                let o = hand[i];
                proof {
                    assert(self.hands@[p as int]@[i as int] == o);
                }
                if o >= len {
                    return false;
                }
                if seen[o] {
                    proof {
                        assert(held_before(*self, p as int, i as int, o as int));
                        let (p2, i2) = choose|p2: int, i2: int|
                            0 <= p2 < self.hands@.len() && 0 <= i2 < self.hands@[p2]@.len() && (p2 < p || (p2 == p && i2 < i))
                                && #[trigger] self.hands@[p2]@[i2] == o as int;
                        assert(self.hands@[p2]@[i2] == self.hands@[p as int]@[i as int]);
                    }
                    return false;
                }
                seen.set(o, true);
                proof {
                    assert forall|k: int| 0 <= k < len implies (#[trigger] seen@[k] <==> held_before(*self, p as int, i + 1, k)) by {
                        if held_before(*self, p as int, i + 1, k) && k != o {
                            let (p2, i2) = choose|p2: int, i2: int|
                                0 <= p2 < self.hands@.len() && 0 <= i2 < self.hands@[p2]@.len() && (p2 < p || (p2 == p && i2 < i + 1))
                                    && #[trigger] self.hands@[p2]@[i2] == k;
                            assert(self.hands@[p2]@[i2] == k);
                            assert(held_before(*self, p as int, i as int, k));
                        }
                        if held_before(*self, p as int, i as int, k) {
                            let (p2, i2) = choose|p2: int, i2: int|
                                0 <= p2 < self.hands@.len() && 0 <= i2 < self.hands@[p2]@.len() && (p2 < p || (p2 == p && i2 < i))
                                    && #[trigger] self.hands@[p2]@[i2] == k;
                            assert(self.hands@[p2]@[i2] == k);
                        }
                    }
                    assert forall|p1: int, i1: int, p2: int, i2: int|
                        0 <= p1 < self.hands@.len() && 0 <= i1 < self.hands@[p1]@.len() && 0 <= p2 < self.hands@.len() && 0 <= i2 < self.hands@[p2]@.len()
                            && (p1 < p || (p1 == p && i1 < i + 1)) && (p2 < p || (p2 == p && i2 < i + 1))
                            && #[trigger] self.hands@[p1]@[i1] == #[trigger] self.hands@[p2]@[i2] implies p1 == p2 && i1 == i2 by {
                        if p1 == p && i1 == i && !(p2 == p && i2 == i) {
                            assert(held_before(*self, p as int, i as int, o as int));
                        }
                        if p2 == p && i2 == i && !(p1 == p && i1 == i) {
                            assert(held_before(*self, p as int, i as int, o as int));
                        }
                    }
                }
                i += 1;
            }
            proof {
                assert forall|k: int| 0 <= k < len implies (#[trigger] seen@[k] <==> held_before(*self, p + 1, 0, k)) by {
                    if held_before(*self, p + 1, 0, k) {
                        let (p2, i2) = choose|p2: int, i2: int|
                            0 <= p2 < self.hands@.len() && 0 <= i2 < self.hands@[p2]@.len() && (p2 < p + 1 || (p2 == p + 1 && i2 < 0))
                                && #[trigger] self.hands@[p2]@[i2] == k;
                        assert(self.hands@[p2]@[i2] == k);
                    }
                    if held_before(*self, p as int, hand@.len() as int, k) {
                        let (p2, i2) = choose|p2: int, i2: int|
                            0 <= p2 < self.hands@.len() && 0 <= i2 < self.hands@[p2]@.len() && (p2 < p || (p2 == p && i2 < hand@.len()))
                                && #[trigger] self.hands@[p2]@[i2] == k;
                        assert(self.hands@[p2]@[i2] == k);
                    }
                }
            }
            p += 1;
        }
        true
    }

    /// Whether no identity has more copies played and discarded than the deck holds.
    pub fn check_consistent(&self) -> (r: bool)
        requires
            self.wf(),
        ensures
            r == self.consistent(),
    {
        let n = self.variant.suits.len();
        let mut s: usize = 0;
        while s < n
            invariant
                self.wf(),
                n == self.num_suits(),
                s <= n,
                forall|id: crate::basics::card::Identity| #[trigger] self.id_ok(id) && id.suit_index < s ==> self.base_count_spec(id) <= self.card_count_spec(id),
            decreases n - s,
        {
            let mut rank: usize = 1;
            while rank <= 5
                invariant
                    self.wf(),
                    n == self.num_suits(),
                    s < n,
                    1 <= rank <= 6,
                    forall|id: crate::basics::card::Identity| #[trigger] self.id_ok(id) && (id.suit_index < s || (id.suit_index == s && id.rank < rank))
                        ==> self.base_count_spec(id) <= self.card_count_spec(id),
                decreases 6 - rank,
            {
                let id = crate::basics::card::Identity { suit_index: s, rank };
                let played: usize = if self.play_stacks[s] >= rank { 1 } else { 0 };
                let discarded = self.discard_stacks[s][rank - 1];
                let count = self.card_count(id);
                if discarded > count || played > count - discarded {
                    proof {
                        assert(self.id_ok(id));
                    }
                    return false;
                }
                rank += 1;
            }
            s += 1;
        }
        true
    }
}

/// Whether the thought belongs to the order and speaks only of the state's identities.
fn check_thought(t: Thought, o: usize, state: &State, all: IdentitySet) -> (r: bool)
    requires
        all@ == Set::new(|k: int| 0 <= k < 5 * state.num_suits()),
    ensures
        r == thought_ok(t, o as int, *state),
{
    let n = state.variant.suits.len();
    if t.order != o || !set_in_range(t.possible, all, n) || !set_in_range(t.inferred, all, n) {
        return false;
    }
    match t.info_lock {
        Some(l) => {
            if !set_in_range(l, all, n) {
                return false;
            }
        },
        None => {},
    }
    match t.base {
        Some(id) => id.suit_index < n && 1 <= id.rank && id.rank <= 5,
        None => true,
    }
}

/// Whether every value of the list is below `len`.
fn all_below(v: &Vec<usize>, len: usize) -> (r: bool)
    ensures
        r == forall|i: int| 0 <= i < v@.len() ==> #[trigger] v@[i] < len,
{
    let mut i: usize = 0;
    while i < v.len()
        invariant
            i <= v@.len(),
            forall|k: int| 0 <= k < i ==> #[trigger] v@[k] < len,
        decreases v@.len() - i,
    {
        if v[i] >= len {
            return false;
        }
        i += 1;
    }
    true
}

/// Whether the link's cards are cards of the deck and its identities are the state's.
fn check_link(l: &Link, state: &State) -> (r: bool)
    ensures
        r == link_ok(*l, *state),
{
    let n = state.variant.suits.len();
    let len = state.deck.len();
    match l {
        Link::Promised { orders, id, target } => {
            id.suit_index < n && 1 <= id.rank && id.rank <= 5 && *target < len && all_below(orders, len)
        },
        Link::Unpromised { orders, ids } => {
            if !all_below(orders, len) || ids.len() > usize::BITS as usize {
                return false;
            }
            let ghost ok = link_ok(*l, *state);
            assert(ok == forall|k: int| 0 <= k < ids@.len() ==> state.id_ok(#[trigger] ids@[k]));
            let mut i: usize = 0;
            while i < ids.len()
                invariant
                    n == state.num_suits(),
                    ok == forall|k: int| 0 <= k < ids@.len() ==> state.id_ok(#[trigger] ids@[k]),
                    ok == link_ok(*l, *state),
                    i <= ids@.len(),
                    forall|k: int| 0 <= k < i ==> state.id_ok(#[trigger] ids@[k]),
                decreases ids@.len() - i,
            {
                let id = ids[i];
                if id.suit_index >= n || id.rank < 1 || id.rank > 5 {
                    proof {
                        assert(!state.id_ok(ids@[i as int]));
                    }
                    return false;
                }
                i += 1;
            }
            true
        },
    }
}

impl Player {
    /// Whether the player is well formed for the state, which is.
    pub fn check_wf(&self, state: &State) -> (r: bool)
        requires
            state.wf(),
        ensures
            r == self.wf(*state),
    {
        let n = state.variant.suits.len();
        let all = all_id_set(&state.variant);
        if self.thoughts.len() < state.deck.len() || !set_in_range(self.all_possible, all, n)
            || !set_in_range(self.all_inferred, all, n) || self.hypo_stacks.len() != n
            || !all_below(&self.hypo_plays, state.deck.len()) {
            return false;
        }
        let mut o: usize = 0;
        while o < self.thoughts.len()
            invariant
                all@ == Set::new(|k: int| 0 <= k < 5 * state.num_suits()),
                o <= self.thoughts@.len(),
                forall|k: int| 0 <= k < o ==> thought_ok(#[trigger] self.thoughts@[k], k, *state),
            decreases self.thoughts@.len() - o,
        {
            if !check_thought(self.thoughts[o], o, state, all) {
                return false;
            }
            o += 1;
        }
        let mut l: usize = 0;
        while l < self.links.len()
            invariant
                l <= self.links@.len(),
                forall|k: int| 0 <= k < l ==> link_ok(#[trigger] self.links@[k], *state),
            decreases self.links@.len() - l,
        {
            if !check_link(&self.links[l], state) {
                return false;
            }
            l += 1;
        }
        true
    }
}

impl Game {
    /// Whether the game is well formed.
    pub fn check_wf(&self) -> (r: bool)
        ensures
            r == self.wf(),
    {
        if !self.state.check_wf() {
            return false;
        }
        let len = self.state.deck.len();
        if len > usize::MAX - 5 || self.common.thoughts.len() != len || self.meta.len() != len
            || self.deck_ids.len() < len || self.players.len() != self.state.num_players {
            return false;
        }
        if !self.common.check_wf(&self.state) {
            return false;
        }
        let mut i: usize = 0;
        while i < self.players.len()
            invariant
                self.state.wf(),
                len == self.state.deck@.len(),
                i <= self.players@.len(),
                forall|k: int| 0 <= k < i ==> (#[trigger] self.players@[k]).wf(self.state) && self.players@[k].thoughts@.len() == len,
            decreases self.players@.len() - i,
        {
            if self.players[i].thoughts.len() != len || !self.players[i].check_wf(&self.state) {
                return false;
            }
            i += 1;
        }
        let n = self.state.variant.suits.len();
        let mut o: usize = 0;
        while o < self.deck_ids.len()
            invariant
                n == self.state.num_suits(),
                o <= self.deck_ids@.len(),
                forall|k: int| 0 <= k < o ==> ((#[trigger] self.deck_ids@[k]) matches Some(id) ==> self.state.id_ok(id)),
            decreases self.deck_ids@.len() - o,
        {
            match self.deck_ids[o] {
                Some(id) => {
                    if id.suit_index >= n || id.rank < 1 || id.rank > 5 {
                        return false;
                    }
                },
                None => {},
            }
            o += 1;
        }
        true
    }
}

impl Game {
    /// Whether the game can take in the action.
    pub fn check_action_ok(&self, action: &Action) -> (r: bool)
        requires
            self.wf(),
        ensures
            r == self.action_ok(*action),
    {
        let s = &self.state;
        match action {
            Action::Clue(c) => {
                let clue_ok = match &s.variant.colourable_suits {
                    Some(v) => c.clue.kind != ClueKind::COLOUR || c.clue.value < v.len(),
                    None => false,
                };
                c.target < s.num_players && clue_ok && s.clue_tokens > 0 && s.endgame_turns != Some(0usize)
            },
            Action::Discard(d) => {
                if d.player_index >= s.num_players || s.endgame_turns == Some(0usize) {
                    return false;
                }
                if d.failed && s.strikes >= 255 {
                    return false;
                }
                if !d.failed && s.clue_tokens == usize::MAX {
                    return false;
                }
                if d.suit_index != -1 && d.rank != -1 {
                    proof {
                        assert(shown_id(d.suit_index, d.rank) == Some(Identity { suit_index: d.suit_index as usize, rank: d.rank as usize }));
                    }
                    if d.order >= s.deck.len() || d.suit_index < 0 || d.suit_index as usize >= s.variant.suits.len() || d.rank < 1 || d.rank > 5 {
                        return false;
                    }
                    s.discard_stacks[d.suit_index as usize][(d.rank - 1) as usize] < usize::MAX
                } else {
                    true
                }
            },
            Action::Play(p) => {
                if p.player_index >= s.num_players || s.endgame_turns == Some(0usize) {
                    return false;
                }
                if p.suit_index != -1 && p.rank != -1 {
                    proof {
                        assert(shown_id(p.suit_index, p.rank) == Some(Identity { suit_index: p.suit_index as usize, rank: p.rank as usize }));
                    }
                    p.order < s.deck.len() && 0 <= p.suit_index && (p.suit_index as usize) < s.variant.suits.len() && 1 <= p.rank && p.rank <= 5
                } else {
                    true
                }
            },
            Action::Draw(d) => {
                if d.order != s.deck.len() || d.order > usize::MAX - 6 || d.order != s.card_order || d.order > self.deck_ids.len()
                    || d.player_index >= s.num_players || s.num_players > 6 || s.cards_left == 0 {
                    return false;
                }
                if d.suit_index != -1 {
                    if d.suit_index < 0 || d.suit_index as usize >= s.variant.suits.len() || d.rank < 1 || d.rank > 5 {
                        return false;
                    }
                    if d.order < self.deck_ids.len() {
                        match self.deck_ids[d.order] {
                            Some(x) => {
                                proof {
                                    assert(drawn_id(*d) == Some(Identity { suit_index: d.suit_index as usize, rank: d.rank as usize }));
                                }
                                return x.suit_index == d.suit_index as usize && x.rank == d.rank as usize;
                            },
                            None => {},
                        }
                    }
                }
                true
            },
            Action::Turn(t) => t.num < usize::MAX,
            _ => true,
        }
    }
}

} // verus!
