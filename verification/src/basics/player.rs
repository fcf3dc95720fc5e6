use vstd::prelude::*;

use crate::basics::card::{
    CardStatus, Identity, IdOptions, Identifiable, MatchOptions, Thought, first_id, is_single, lemma_of_ord_valid, match_result,
};
use crate::basics::game::frame::Frame;
use crate::text::{join, joined};
use crate::basics::clue::BaseClue;
use crate::basics::state::lemma_id_ok_valid;
use crate::basics::player::elim::{held_before, in_hands};
use crate::basics::variant::{card_count, card_count_spec};
use crate::basics::util::{visible_find, visible_upto};
use crate::basics::identity_set::{IdentitySet, ids_of, lemma_bits_finite, lemma_ords_below, bits_below, ords_below};
use crate::basics::state::State;

pub mod elim;

verus! {

/// Cards that between them hold some identities.
#[derive(Debug, Clone)]
pub enum Link {
    Promised { orders: Vec<usize>, id: Identity, target: usize },
    Unpromised { orders: Vec<usize>, ids: Vec<Identity> },
}

/// A reaction that a clue asked for and that has not happened yet.
#[derive(Debug, Clone)]
pub struct WaitingConnection {
    pub giver: usize,
    pub reacter: usize,
    pub receiver: usize,
    pub receiver_hand: Vec<usize>,
    pub clue: BaseClue,
    pub focus_slot: usize,
}

/// What one player (or everyone in common) knows about the cards.
#[derive(Debug, Clone)]
pub struct Player {
    pub player_index: usize,
    pub is_common: bool,
    pub thoughts: Vec<Thought>,
    pub all_possible: IdentitySet,
    pub all_inferred: IdentitySet,
    pub hypo_stacks: Vec<usize>,
    pub links: Vec<Link>,
    pub unknown_plays: Vec<usize>,
    pub hypo_plays: Vec<usize>,
    pub waiting: Vec<WaitingConnection>,
}

/// All positions of the set are identities of the first `n` suits.
pub open spec fn in_range(s: IdentitySet, n: nat) -> bool {
    forall|o: int| #[trigger] s@.contains(o) ==> 0 <= o < 5 * n
}

/// The thought belongs to the order and speaks only of the state's identities.
pub open spec fn thought_ok(t: Thought, o: int, state: State) -> bool {
    &&& t.order == o
    &&& in_range(t.possible, state.num_suits())
    &&& in_range(t.inferred, state.num_suits())
    &&& (t.info_lock matches Some(l) ==> in_range(l, state.num_suits()))
    &&& (t.base matches Some(id) ==> state.id_ok(id))
}

/// The link's cards are cards of the deck and its identities are the state's.
pub open spec fn link_ok(l: Link, state: State) -> bool {
    match l {
        Link::Promised { orders, id, target } => state.id_ok(id) && target < state.deck@.len() && forall|i: int|
            0 <= i < orders@.len() ==> #[trigger] orders@[i] < state.deck@.len(),
        Link::Unpromised { orders, ids } => (forall|i: int|
            0 <= i < orders@.len() ==> #[trigger] orders@[i] < state.deck@.len()) && (forall|i: int|
            0 <= i < ids@.len() ==> state.id_ok(#[trigger] ids@[i])) && ids@.len() <= usize::BITS,
    }
}

/// The sum of the sizes of the thoughts' possibilities.
pub open spec fn poss_total(ts: Seq<Thought>) -> nat
    decreases ts.len(),
{
    if ts.len() == 0 {
        0
    } else {
        poss_total(ts.drop_last()) + ts.last().possible@.len()
    }
}

/// Replacing one thought changes the sum by the difference of the sizes.
pub proof fn lemma_poss_total_update(ts: Seq<Thought>, i: int, t: Thought)
    requires
        0 <= i < ts.len(),
    ensures
        poss_total(ts.update(i, t)) + ts[i].possible@.len() == poss_total(ts) + t.possible@.len(),
    decreases ts.len(),
{
    if i < ts.len() - 1 {
        assert(ts.update(i, t).drop_last() =~= ts.drop_last().update(i, t));
        lemma_poss_total_update(ts.drop_last(), i, t);
    } else {
        assert(ts.update(i, t).drop_last() =~= ts.drop_last());
    }
}

/// A set within range has only identities of the state.
pub proof fn lemma_in_range_ids(s: IdentitySet, state: State)
    requires
        in_range(s, state.num_suits()),
        5 * state.num_suits() <= usize::BITS,
    ensures
        forall|o: int| #[trigger] s@.contains(o) ==> state.id_ok(Identity::of_ord(o)) && Identity::of_ord(o).ord() == o && Identity::of_ord(o).valid(),
        forall|j: int| 0 <= j < ids_of(s.bits()).len() ==> state.id_ok(#[trigger] ids_of(s.bits())[j]) && s@.contains(ids_of(s.bits())[j].ord()),
{
    assert forall|o: int| #[trigger] s@.contains(o) implies state.id_ok(Identity::of_ord(o)) && Identity::of_ord(o).ord() == o && Identity::of_ord(o).valid() by {
        lemma_of_ord_valid(o);
        assert(o / 5 < state.num_suits()) by (nonlinear_arith)
            requires 0 <= o < 5 * state.num_suits();
    }
    lemma_ords_below(s.bits(), usize::BITS as nat);
    lemma_bits_finite(s.bits());
    assert(bits_below(s.bits(), usize::BITS as int) =~= s@);
    assert forall|j: int| 0 <= j < ids_of(s.bits()).len() implies state.id_ok(#[trigger] ids_of(s.bits())[j]) && s@.contains(ids_of(s.bits())[j].ord()) by {
        let o = crate::basics::identity_set::ords_below(s.bits(), usize::BITS as nat)[j];
        assert(s@.contains(o));
    }
}

/// What a thought says a card is, is an identity of the state.
pub proof fn lemma_identity_ok(t: Thought, o: int, state: State, opts: IdOptions)
    requires
        thought_ok(t, o, state),
        5 * state.num_suits() <= usize::BITS,
    ensures
        t.identity_spec(opts) matches Some(id) ==> state.id_ok(id) && id.valid(),
{
    lemma_in_range_ids(t.possible, state);
    lemma_in_range_ids(t.inferred, state);
    if is_single(t.possible) {
        lemma_bits_finite(t.possible.bits());
        lemma_ords_below(t.possible.bits(), usize::BITS as nat);
        assert(bits_below(t.possible.bits(), usize::BITS as int) =~= t.possible@);
    }
    if is_single(t.inferred) {
        lemma_bits_finite(t.inferred.bits());
        lemma_ords_below(t.inferred.bits(), usize::BITS as nat);
        assert(bits_below(t.inferred.bits(), usize::BITS as int) =~= t.inferred@);
    }
    if let Some(id) = t.base {
        crate::basics::state::lemma_id_ok_valid(state, id);
    }
}

impl Player {
    /// Every card of the deck has a thought, the thoughts and links speak only of the
    /// state's cards and identities, and there is a hypothetical stack per suit.
    pub open spec fn wf(&self, state: State) -> bool {
        &&& self.thoughts@.len() >= state.deck@.len()
        &&& forall|o: int| 0 <= o < self.thoughts@.len() ==> thought_ok(#[trigger] self.thoughts@[o], o, state)
        &&& in_range(self.all_possible, state.num_suits())
        &&& in_range(self.all_inferred, state.num_suits())
        &&& self.hypo_stacks@.len() == state.num_suits()
        &&& forall|i: int| 0 <= i < self.links@.len() ==> link_ok(#[trigger] self.links@[i], state)
        &&& forall|i: int| 0 <= i < self.hypo_plays@.len() ==> #[trigger] self.hypo_plays@[i] < state.deck@.len()
    }

    pub fn new(player_index: Option<usize>, all_possible: IdentitySet, hypo_stacks: Vec<usize>) -> (r: Self)
        ensures
            r.player_index == (match player_index { Some(i) => i, None => 99 }),
            r.is_common == (player_index is None),
            r.thoughts@.len() == 0,
            r.all_possible == all_possible,
            r.all_inferred == all_possible,
            r.hypo_stacks == hypo_stacks,
            r.links@.len() == 0,
            r.unknown_plays@.len() == 0,
            r.hypo_plays@.len() == 0,
            r.waiting@.len() == 0,
    {
        Player {
            player_index: match player_index {
                Some(i) => i,
                None => 99,
            },
            is_common: player_index.is_none(),
            thoughts: Vec::new(),
            all_possible,
            all_inferred: all_possible,
            hypo_stacks,
            links: Vec::new(),
            unknown_plays: Vec::new(),
            hypo_plays: Vec::new(),
            waiting: Vec::new(),
        }
    }
}

/// The names of the identities, in order.
pub open spec fn id_names(state: State, ids: Seq<Identity>) -> Seq<Seq<char>> {
    ids.map_values(|id: Identity| state.log_id_spec(id))
}

/// The names of the identities, one string each.
fn names_of(state: &State, ids: &Vec<Identity>) -> (r: Vec<String>)
    requires
        state.wf(),
        forall|j: int| 0 <= j < ids@.len() ==> state.id_ok(#[trigger] ids@[j]),
    ensures
        r@.map_values(|p: String| p@) == id_names(*state, ids@),
{
    let mut r: Vec<String> = Vec::new();
    let mut i: usize = 0;
    while i < ids.len()
        invariant
            state.wf(),
            forall|j: int| 0 <= j < ids@.len() ==> state.id_ok(#[trigger] ids@[j]),
            i <= ids@.len(),
            r@.map_values(|p: String| p@) == id_names(*state, ids@.take(i as int)),
        decreases ids@.len() - i,
    {
        let name = state.log_id(ids[i]);
        let ghost prev = r@;
        r.push(name);
        proof {
            assert(prev.map_values(|p: String| p@).len() == prev.len());
            assert(id_names(*state, ids@.take(i as int)).len() == i);
            assert(prev.len() == i);
            assert forall|j: int| 0 <= j < i + 1 implies (#[trigger] r@[j])@ == state.log_id_spec(ids@[j]) by {
                if j < i {
                    assert(r@[j] == prev[j]);
                    assert(prev.map_values(|p: String| p@)[j] == id_names(*state, ids@.take(i as int))[j]);
                }
            }
            assert(r@.map_values(|p: String| p@) =~= id_names(*state, ids@.take(i + 1)));
        }
        i += 1;
    }
    proof {
        assert(ids@.take(ids@.len() as int) =~= ids@);
    }
    r
}

/// The position `k` steps from `index` in a hand of `len` cards, leftwards or rightwards.
pub open spec fn walk(index: int, k: int, len: int, left: bool) -> int
    decreases k,
{
    if k <= 0 {
        index
    } else {
        let prev = walk(index, k - 1, len, left);
        if left {
            if prev == 0 { len - 1 } else { prev - 1 }
        } else {
            if prev + 1 == len { 0 } else { prev + 1 }
        }
    }
}

proof fn lemma_walk_range(index: int, k: int, len: int, left: bool)
    requires
        0 <= index < len,
        0 <= k,
    ensures
        0 <= walk(index, k, len, left) < len,
    decreases k,
{
    if k > 0 {
        lemma_walk_range(index, k - 1, len, left);
    }
}

/// A link that holds both cards and the identity.
pub open spec fn link_covers(l: Link, order: int, o: int, id: Identity) -> bool {
    match l {
        Link::Promised { orders, id: promise, .. } => orders@.contains(order as usize) && orders@.contains(o as usize)
            && promise == id,
        Link::Unpromised { orders, ids } => orders@.contains(order as usize) && orders@.contains(o as usize)
            && ids@.contains(id),
    }
}

/// A link that leaves out the card and holds the identity.
pub open spec fn link_promises_elsewhere(l: Link, order: int, id: Identity) -> bool {
    match l {
        Link::Promised { orders, id: promise, .. } => !orders@.contains(order as usize) && promise == id,
        Link::Unpromised { orders, ids } => !orders@.contains(order as usize) && ids@.contains(id),
    }
}

/// Whether the list holds the value.
fn contains_usize(v: &Vec<usize>, x: usize) -> (r: bool)
    ensures
        r == v@.contains(x),
{
    let mut i: usize = 0;
    while i < v.len()
        invariant
            i <= v@.len(),
            forall|j: int| 0 <= j < i ==> v@[j] != x,
        decreases v@.len() - i,
    {
        if v[i] == x {
            return true;
        }
        i += 1;
    }
    false
}

/// Whether the list holds the identity.
fn contains_id(v: &Vec<Identity>, x: Identity) -> (r: bool)
    ensures
        r == v@.contains(x),
{
    let mut i: usize = 0;
    while i < v.len()
        invariant
            i <= v@.len(),
            forall|j: int| 0 <= j < i ==> v@[j] != x,
        decreases v@.len() - i,
    {
        if v[i] == x {
            return true;
        }
        i += 1;
    }
    false
}

/// The identity's copies that the stacks, the discards and the cards seen leave unknown.
pub open spec fn unknown_of(player: Player, state: State, id: Identity) -> int {
    card_count_spec(state.variant, id) - state.base_count_spec(id) - player.visible_count(state.hands@, id)
}

/// The unknown copies of the identities, added up.
pub open spec fn unknown_sum(player: Player, state: State, ids: Seq<Identity>) -> int
    decreases ids.len(),
{
    if ids.len() == 0 {
        0
    } else {
        unknown_sum(player, state, ids.drop_last()) + unknown_of(player, state, ids.last())
    }
}

/// A link with more cards than unknown copies of its identities; where more copies of
/// an identity are accounted for than the deck holds, the link counts as not large.
pub open spec fn link_large(player: Player, state: State, l: Link) -> bool {
    match l {
        Link::Promised { orders, id, .. } => unknown_of(player, state, id) >= 0 && orders@.len() > unknown_of(
            player,
            state,
            id,
        ),
        Link::Unpromised { orders, ids } => (forall|j: int|
            0 <= j < ids@.len() ==> unknown_of(player, state, #[trigger] ids@[j]) >= 0) && orders@.len() > unknown_sum(
            player,
            state,
            ids@,
        ),
    }
}

/// The cards of the link.
pub open spec fn link_orders(l: Link) -> Seq<usize> {
    match l {
        Link::Promised { orders, .. } => orders@,
        Link::Unpromised { orders, .. } => orders@,
    }
}

impl Player {
    /// What the player thinks the card of the order is, given the options, where that is one identity.
    pub open spec fn thinks_is(&self, order: int, id: Identity, infer: bool, symmetric: bool) -> bool {
        match_result(self.thoughts@[order].identity_spec(IdOptions { infer, symmetric }), Some(id), false)
    }

    /// Some other card in a hand is thought to be the identity, is touched, and shares
    /// no link for the identity with the card.
    pub open spec fn is_saved_spec(&self, frame: Frame, id: Identity, order: int) -> bool {
        exists|p: int, i: int|
            0 <= p < frame.state.hands@.len() && 0 <= i < frame.state.hands@[p]@.len() && {
                let o = #[trigger] frame.state.hands@[p]@[i] as int;
                &&& o != order
                &&& self.thinks_is(o, id, true, false)
                &&& frame.is_touched_spec(o)
                &&& !exists|l: int| 0 <= l < self.links@.len() && link_covers(#[trigger] self.links@[l], order, o, id)
            }
    }

    pub open spec fn is_trash_spec(&self, frame: Frame, id: Identity, order: int) -> bool {
        frame.state.is_basic_trash_spec(id) || self.is_saved_spec(frame, id, order)
    }

    /// Every identity of the set is trash for the card.
    pub open spec fn all_trash(&self, frame: Frame, s: Set<int>, order: int) -> bool {
        forall|x: int| #[trigger] s.contains(x) ==> self.is_trash_spec(frame, Identity::of_ord(x), order)
    }

    pub open spec fn order_kt_spec(&self, frame: Frame, order: int) -> bool {
        frame.meta@[order].trash || self.all_trash(frame, self.thoughts@[order].possible@, order)
    }

    pub open spec fn order_trash_spec(&self, frame: Frame, order: int) -> bool {
        let m = frame.meta@[order];
        ||| self.all_trash(frame, self.thoughts@[order].possible@, order)
        ||| (m.trash || m.status == CardStatus::CalledToDiscard) && m.depends_on is None
        ||| self.all_trash(frame, self.thoughts@[order].possibilities_spec()@, order)
    }

    pub open spec fn order_kp_spec(&self, frame: Frame, order: int) -> bool {
        let poss = self.thoughts@[order].possible@;
        ||| frame.meta@[order].status == CardStatus::CalledToPlay && exists|x: int|
            #[trigger] poss.contains(x) && frame.state.is_playable_spec(Identity::of_ord(x))
        ||| forall|x: int| #[trigger] poss.contains(x) ==> frame.state.is_playable_spec(Identity::of_ord(x))
    }

    /// The inferences of the card, named and joined by commas, in suit and rank order.
    pub fn str_infs(&self, state: &State, order: usize) -> (r: String)
        requires
            state.wf(),
            self.wf(*state),
            order < self.thoughts@.len(),
        ensures
            r@ == joined(id_names(*state, ids_of(self.thoughts@[order as int].inferred.bits())), seq![',']),
    {
        let ids = self.thoughts[order].inferred.to_vec();
        proof {
            assert(thought_ok(self.thoughts@[order as int], order as int, *state));
            lemma_in_range_ids(self.thoughts@[order as int].inferred, *state);
        }
        let names = names_of(state, &ids);
        proof {
            reveal_strlit(",");
            assert(","@ =~= seq![',']);
        }
        join(&names, ",")
    }

    /// The possibilities of the card, named and joined by commas, in suit and rank order.
    pub fn str_poss(&self, state: &State, order: usize) -> (r: String)
        requires
            state.wf(),
            self.wf(*state),
            order < self.thoughts@.len(),
        ensures
            r@ == joined(id_names(*state, ids_of(self.thoughts@[order as int].possible.bits())), seq![',']),
    {
        let ids = self.thoughts[order].possible.to_vec();
        proof {
            assert(thought_ok(self.thoughts@[order as int], order as int, *state));
            lemma_in_range_ids(self.thoughts@[order as int].possible, *state);
        }
        let names = names_of(state, &ids);
        proof {
            reveal_strlit(",");
            assert(","@ =~= seq![',']);
        }
        join(&names, ",")
    }

    /// The first untouched card next to the card of the order in the hand, going left or
    /// right and round, or the card itself where every other card is touched.
    pub fn refer(&self, frame: &Frame, hand: &[usize], order: usize, left: bool) -> (r: usize)
        requires
            hand@.contains(order),
            forall|j: int| 0 <= j < hand@.len() ==> #[trigger] hand@[j] < frame.state.deck@.len() && hand@[j] < frame.meta@.len(),
        ensures
            exists|index: int, k: int| {
                &&& 0 <= index < hand@.len()
                &&& hand@[index] == order
                &&& forall|j: int| 0 <= j < index ==> hand@[j] != order
                &&& 1 <= k <= hand@.len()
                &&& r == hand@[walk(index, k, hand@.len() as int, left)]
                &&& (k == hand@.len() || walk(index, k, hand@.len() as int, left) == index
                    || !frame.is_touched_spec(r as int))
                &&& forall|j: int| 1 <= j < k ==> walk(index, j, hand@.len() as int, left) != index
                    && frame.is_touched_spec(hand@[#[trigger] walk(index, j, hand@.len() as int, left)] as int)
            },
    {
        let len = hand.len();
        let mut index: usize = 0;
        while hand[index] != order
            invariant
                hand@.contains(order),
                len == hand@.len(),
                index < len,
                forall|j: int| 0 <= j < index ==> hand@[j] != order,
            decreases len - index,
        {
            index += 1;
            if index == len {
                proof {
                    let j = choose|j: int| 0 <= j < hand@.len() && hand@[j] == order;
                    assert(false);
                }
            }
        }
        let ghost g_index = index as int;
        let mut target = if left {
            if index == 0 { len - 1 } else { index - 1 }
        } else {
            if index + 1 == len { 0 } else { index + 1 }
        };
        let mut k: usize = 1;
        proof {
            assert(walk(g_index, 1, len as int, left) == target) by {
                assert(walk(g_index, 0, len as int, left) == g_index);
            }
        }
        while k < len && frame.is_touched(hand[target]) && target != index
            invariant
                len == hand@.len(),
                index < len,
                g_index == index,
                1 <= k <= len,
                target < len,
                target == walk(g_index, k as int, len as int, left),
                forall|j: int| 0 <= j < hand@.len() ==> #[trigger] hand@[j] < frame.state.deck@.len() && hand@[j] < frame.meta@.len(),
                forall|j: int| 1 <= j < k ==> walk(g_index, j, len as int, left) != g_index
                    && frame.is_touched_spec(hand@[#[trigger] walk(g_index, j, len as int, left)] as int),
            decreases len - k,
        {
            target = if left {
                if target == 0 { len - 1 } else { target - 1 }
            } else {
                if target + 1 == len { 0 } else { target + 1 }
            };
            k += 1;
        }
        proof {
            assert(hand@[g_index] == order);
        }
        hand[target]
    }

    /// Whether another card in a hand is thought to be the identity and is touched,
    /// without sharing a link for it with the card.
    pub fn is_saved(&self, frame: &Frame, id: Identity, order: usize) -> (r: bool)
        requires
            frame.wf(),
            self.wf(*frame.state),
        ensures
            r == self.is_saved_spec(*frame, id, order as int),
    {
        let state = frame.state;
        let opts = MatchOptions { infer: true, symmetric: false, assumed: false };
        let mut p: usize = 0;
        while p < state.hands.len()
            invariant
                frame.wf(),
                self.wf(*state),
                state == frame.state,
                opts == (MatchOptions { infer: true, symmetric: false, assumed: false }),
                p <= state.hands@.len(),
                forall|p2: int, i2: int| 0 <= p2 < p && 0 <= i2 < state.hands@[p2]@.len() ==> !{
                    let o = #[trigger] state.hands@[p2]@[i2] as int;
                    &&& o != order
                    &&& self.thinks_is(o, id, true, false)
                    &&& frame.is_touched_spec(o)
                    &&& !exists|l: int| 0 <= l < self.links@.len() && link_covers(#[trigger] self.links@[l], order as int, o, id)
                },
            decreases state.hands@.len() - p,
        {
            let hand = &state.hands[p];
            let mut i: usize = 0;
            while i < hand.len()
                invariant
                    frame.wf(),
                    self.wf(*state),
                    state == frame.state,
                    opts == (MatchOptions { infer: true, symmetric: false, assumed: false }),
                    p < state.hands@.len(),
                    *hand == state.hands@[p as int],
                    i <= hand@.len(),
                    forall|p2: int, i2: int| 0 <= p2 < state.hands@.len() && 0 <= i2 < state.hands@[p2]@.len() && (p2 < p || (p2 == p && i2 < i)) ==> !{
                        let o = #[trigger] state.hands@[p2]@[i2] as int;
                        &&& o != order
                        &&& self.thinks_is(o, id, true, false)
                        &&& frame.is_touched_spec(o)
                        &&& !exists|l: int| 0 <= l < self.links@.len() && link_covers(#[trigger] self.links@[l], order as int, o, id)
                    },
                decreases hand@.len() - i,
            {
                let o = hand[i];
                assert(o < state.deck@.len()) by {
                    assert(state.hands@[p as int]@[i as int] < state.deck@.len());
                }
                if o != order && self.thoughts[o].matches(&id, &opts) && frame.is_touched(o) {
                    let shared = self.shares_link(order, o, id);
                    if !shared {
                        proof {
                            assert(state.hands@[p as int]@[i as int] == o);
                        }
                        return true;
                    }
                }
                i += 1;
            }
            p += 1;
        }
        false
    }

    /// Whether some link holds both cards and the identity.
    fn shares_link(&self, order: usize, o: usize, id: Identity) -> (r: bool)
        ensures
            r == exists|l: int| 0 <= l < self.links@.len() && link_covers(#[trigger] self.links@[l], order as int, o as int, id),
    {
        let mut l: usize = 0;
        while l < self.links.len()
            invariant
                l <= self.links@.len(),
                forall|j: int| 0 <= j < l ==> !link_covers(#[trigger] self.links@[j], order as int, o as int, id),
            decreases self.links@.len() - l,
        {
            let hit = match &self.links[l] {
                Link::Promised { orders, id: promise, .. } => contains_usize(orders, order) && contains_usize(orders, o)
                    && *promise == id,
                Link::Unpromised { orders, ids } => contains_usize(orders, order) && contains_usize(orders, o)
                    && contains_id(ids, id),
            };
            if hit {
                return true;
            }
            l += 1;
        }
        false
    }

    /// Whether the identity is trash for the card: played or unplayable, or saved elsewhere.
    pub fn is_trash(&self, frame: &Frame, id: Identity, order: usize) -> (r: bool)
        requires
            frame.wf(),
            self.wf(*frame.state),
            frame.state.id_ok(id),
        ensures
            r == self.is_trash_spec(*frame, id, order as int),
    {
        frame.state.is_basic_trash(id) || self.is_saved(frame, id, order)
    }

    /// Whether every identity of the set is trash for the card.
    fn all_trash_of(&self, frame: &Frame, s: IdentitySet, order: usize) -> (r: bool)
        requires
            frame.wf(),
            self.wf(*frame.state),
            in_range(s, frame.state.num_suits()),
        ensures
            r == self.all_trash(*frame, s@, order as int),
    {
        let ids = s.to_vec();
        proof {
            lemma_in_range_ids(s, *frame.state);
            lemma_bits_finite(s.bits());
            lemma_ords_below(s.bits(), usize::BITS as nat);
            assert(bits_below(s.bits(), usize::BITS as int) =~= s@);
        }
        let mut i: usize = 0;
        while i < ids.len()
            invariant
                frame.wf(),
                self.wf(*frame.state),
                in_range(s, frame.state.num_suits()),
                ids@ == ids_of(s.bits()),
                i <= ids@.len(),
                forall|j: int| 0 <= j < ids@.len() ==> frame.state.id_ok(#[trigger] ids@[j]) && s@.contains(ids@[j].ord()),
                forall|j: int| 0 <= j < i ==> self.is_trash_spec(*frame, #[trigger] ids@[j], order as int),
            decreases ids@.len() - i,
        {
            if !self.is_trash(frame, ids[i], order) {
                proof {
                    lemma_id_ok_valid(*frame.state, ids@[i as int]);
                    crate::basics::card::lemma_ord_roundtrip(ids@[i as int]);
                }
                return false;
            }
            i += 1;
        }
        proof {
            assert forall|x: int| #[trigger] s@.contains(x) implies self.is_trash_spec(*frame, Identity::of_ord(x), order as int) by {
                assert(ords_below(s.bits(), usize::BITS as nat).to_set().contains(x));
                let j = choose|j: int| 0 <= j < ords_below(s.bits(), usize::BITS as nat).len() && ords_below(s.bits(), usize::BITS as nat)[j] == x;
                assert(ids@[j] == Identity::of_ord(x));
            }
        }
        true
    }

    /// Whether the card is known trash: marked as trash, or every possibility is trash.
    pub fn order_kt(&self, frame: &Frame, order: usize) -> (r: bool)
        requires
            frame.wf(),
            self.wf(*frame.state),
            order < frame.state.deck@.len(),
        ensures
            r == self.order_kt_spec(*frame, order as int),
    {
        if frame.meta[order].trash {
            return true;
        }
        proof {
            assert(thought_ok(self.thoughts@[order as int], order as int, *frame.state));
        }
        self.all_trash_of(frame, self.thoughts[order].possible, order)
    }
}

impl Player {
    /// The cards of the hand that the player knows to be the identity.
    pub open spec fn count_is(&self, hand: Seq<usize>, id: Identity) -> nat
        decreases hand.len(),
    {
        if hand.len() == 0 {
            0
        } else {
            self.count_is(hand.drop_last(), id) + if self.thinks_is(hand.last() as int, id, false, false) {
                1nat
            } else {
                0nat
            }
        }
    }

    /// The cards of the hands that the player knows to be the identity.
    pub open spec fn visible_count(&self, hands: Seq<Vec<usize>>, id: Identity) -> nat
        decreases hands.len(),
    {
        if hands.len() == 0 {
            0
        } else {
            self.visible_count(hands.drop_last(), id) + self.count_is(hands.last()@, id)
        }
    }

    /// No identity has more copies seen, played and discarded than the deck holds.
    pub open spec fn counts_ok(&self, state: State) -> bool {
        forall|id: Identity|
            #[trigger] state.id_ok(id) ==> self.visible_count(state.hands@, id) + state.base_count_spec(id)
                <= card_count_spec(state.variant, id)
    }

    /// Some large link holds the card.
    pub open spec fn is_linked(&self, state: State, order: usize) -> bool {
        exists|l: int| 0 <= l < self.links@.len() && link_large(*self, state, #[trigger] self.links@[l]) && link_orders(self.links@[l]).contains(order)
    }

    /// A card the player can play now: its dependencies have left the hands, it is not
    /// linked at a risky time, and every possibility is playable.
    pub open spec fn playable_order(&self, frame: Frame, order: usize) -> bool {
        let state = *frame.state;
        &&& !(frame.meta@[order as int].depends_on matches Some(d) && exists|j: int| 0 <= j < d@.len() && in_hands(state, #[trigger] d@[j] as int))
        &&& !(self.is_linked(state, order) && (state.strikes == 2 || state.endgame_turns is Some))
        &&& forall|x: int| #[trigger] self.thoughts@[order as int].possibilities_spec()@.contains(x) ==> state.is_playable_spec(Identity::of_ord(x))
    }

    pub open spec fn thinks_loaded_spec(&self, frame: Frame, player_index: int) -> bool {
        let hand = frame.state.hands@[player_index]@;
        ||| exists|i: int| 0 <= i < hand.len() && self.playable_order(frame, #[trigger] hand[i])
        ||| exists|i: int| 0 <= i < hand.len() && self.order_trash_spec(frame, #[trigger] hand[i] as int)
    }

    pub open spec fn is_sieved_spec(&self, frame: Frame, id: Identity, order: int) -> bool {
        let state = *frame.state;
        ||| exists|p: int, i: int| 0 <= p < state.hands@.len() && 0 <= i < state.hands@[p]@.len() && {
            let o = #[trigger] state.hands@[p]@[i] as int;
            &&& o != order
            &&& self.thinks_is(o, id, true, false)
            &&& if self.thinks_loaded_spec(frame, p) {
                frame.meta@[o].status != CardStatus::CalledToDiscard
            } else {
                i != 0
            }
        }
        ||| exists|l: int| 0 <= l < self.links@.len() && link_promises_elsewhere(#[trigger] self.links@[l], order, id)
    }

    /// Whether the card is known to be playable: called to play with a playable possibility,
    /// or playable whatever it is.
    pub fn order_kp(&self, frame: &Frame, order: usize) -> (r: bool)
        requires
            frame.wf(),
            self.wf(*frame.state),
            order < frame.state.deck@.len(),
        ensures
            r == self.order_kp_spec(*frame, order as int),
    {
        let state = frame.state;
        proof {
            assert(thought_ok(self.thoughts@[order as int], order as int, *state));
        }
        let poss = self.thoughts[order].possible;
        let ids = poss.to_vec();
        proof {
            lemma_in_range_ids(poss, *state);
            lemma_bits_finite(poss.bits());
            lemma_ords_below(poss.bits(), usize::BITS as nat);
            assert(bits_below(poss.bits(), usize::BITS as int) =~= poss@);
        }
        let mut any = false;
        let mut all = true;
        let mut i: usize = 0;
        while i < ids.len()
            invariant
                frame.wf(),
                state == frame.state,
                ids@ == ids_of(poss.bits()),
                i <= ids@.len(),
                forall|j: int| 0 <= j < ids@.len() ==> state.id_ok(#[trigger] ids@[j]) && poss@.contains(ids@[j].ord()),
                any == exists|j: int| 0 <= j < i && state.is_playable_spec(#[trigger] ids@[j]),
                all == forall|j: int| 0 <= j < i ==> state.is_playable_spec(#[trigger] ids@[j]),
            decreases ids@.len() - i,
        {
            let playable = state.is_playable(ids[i]);
            any = any || playable;
            all = all && playable;
            i += 1;
        }
        proof {
            assert forall|j: int| 0 <= j < ids@.len() implies #[trigger] ids@[j] == Identity::of_ord(ids@[j].ord()) by {
                lemma_id_ok_valid(*state, ids@[j]);
                crate::basics::card::lemma_ord_roundtrip(ids@[j]);
            }
            assert forall|x: int| #[trigger] poss@.contains(x) implies exists|j: int| 0 <= j < ids@.len() && ids@[j] == Identity::of_ord(x) by {
                assert(ords_below(poss.bits(), usize::BITS as nat).to_set().contains(x));
                let j = choose|j: int| 0 <= j < ords_below(poss.bits(), usize::BITS as nat).len() && ords_below(poss.bits(), usize::BITS as nat)[j] == x;
                assert(ids@[j] == Identity::of_ord(x));
            }
        }
        (frame.meta[order].status == CardStatus::CalledToPlay && any) || all
    }

    /// Whether the card is trash as far as the player can tell.
    pub fn order_trash(&self, frame: &Frame, order: usize) -> (r: bool)
        requires
            frame.wf(),
            self.wf(*frame.state),
            order < frame.state.deck@.len(),
        ensures
            r == self.order_trash_spec(*frame, order as int),
    {
        proof {
            assert(thought_ok(self.thoughts@[order as int], order as int, *frame.state));
        }
        if self.all_trash_of(frame, self.thoughts[order].possible, order) {
            return true;
        }
        let m = &frame.meta[order];
        if m.trash || m.status == CardStatus::CalledToDiscard {
            if m.depends_on.is_none() {
                return true;
            }
        }
        let t = self.thoughts[order];
        let poss = t.possibilities();
        self.all_trash_of(frame, poss, order)
    }

    /// The cards of the player's hand that the player thinks are trash.
    pub fn thinks_trash(&self, frame: &Frame, player_index: usize) -> (r: Vec<usize>)
        requires
            frame.wf(),
            self.wf(*frame.state),
            player_index < frame.state.num_players,
        ensures
            r@ == frame.state.hands@[player_index as int]@.filter(|o: usize| self.order_trash_spec(*frame, o as int)),
    {
        let hand = &frame.state.hands[player_index];
        let ghost f = |o: usize| self.order_trash_spec(*frame, o as int);
        let mut r: Vec<usize> = Vec::new();
        let mut i: usize = 0;
        while i < hand.len()
            invariant
                frame.wf(),
                self.wf(*frame.state),
                player_index < frame.state.num_players,
                *hand == frame.state.hands@[player_index as int],
                i <= hand@.len(),
                f == (|o: usize| self.order_trash_spec(*frame, o as int)),
                r@ == hand@.take(i as int).filter(f),
            decreases hand@.len() - i,
        {
            let o = hand[i];
            assert(o < frame.state.deck@.len()) by {
                assert(frame.state.hands@[player_index as int]@[i as int] < frame.state.deck@.len());
            }
            proof {
                assert(hand@.take(i + 1).drop_last() =~= hand@.take(i as int));
                reveal(Seq::filter);
            }
            if self.order_trash(frame, o) {
                r.push(o);
            }
            i += 1;
        }
        proof {
            assert(hand@.take(hand@.len() as int) =~= hand@);
        }
        r
    }

    /// How many copies of the identity are neither played, discarded, nor known in a hand.
    pub fn unknown_ids(&self, state: &State, id: Identity) -> (r: usize)
        requires
            state.wf(),
            state.consistent(),
            self.wf(*state),
            state.id_ok(id),
            self.counts_ok(*state),
        ensures
            r == unknown_of(*self, *state, id),
    {
        proof {
            lemma_id_ok_valid(*state, id);
            assert(state.base_count_spec(id) <= state.card_count_spec(id));
        }
        let mut visible: usize = 0;
        let mut p: usize = 0;
        while p < state.hands.len()
            invariant
                state.wf(),
                state.consistent(),
                self.wf(*state),
                state.id_ok(id),
                id.valid(),
                self.counts_ok(*state),
                p <= state.hands@.len(),
                visible == self.visible_count(state.hands@.take(p as int), id),
            decreases state.hands@.len() - p,
        {
            let hand = &state.hands[p];
            let mut c: usize = 0;
            let mut i: usize = 0;
            proof {
                self.lemma_visible_prefix(state.hands@, id, p + 1);
                assert(state.hands@.take(p + 1).drop_last() =~= state.hands@.take(p as int));
                assert(state.hands@.take(p + 1).last() == state.hands@[p as int]);
                assert(self.visible_count(state.hands@, id) <= 3) by {
                    assert(state.id_ok(id));
                    assert(card_count_spec(state.variant, id) <= 3);
                }
            }
            while i < hand.len()
                invariant
                    state.wf(),
                    self.wf(*state),
                    p < state.hands@.len(),
                    *hand == state.hands@[p as int],
                    i <= hand@.len(),
                    c == self.count_is(hand@.take(i as int), id),
                    visible + self.count_is(hand@, id) <= 3,
                decreases hand@.len() - i,
            {
                let o = hand[i];
                assert(o < state.deck@.len()) by {
                    assert(state.hands@[p as int]@[i as int] < state.deck@.len());
                }
                proof {
                    assert(hand@.take(i + 1).drop_last() =~= hand@.take(i as int));
                    self.lemma_count_prefix(hand@, id, i + 1);
                }
                if self.thoughts[o].is(&id) {
                    c += 1;
                }
                i += 1;
            }
            proof {
                assert(hand@.take(hand@.len() as int) =~= hand@);
            }
            visible = visible + c;
            p += 1;
        }
        proof {
            assert(state.hands@.take(state.hands@.len() as int) =~= state.hands@);
        }
        card_count(&state.variant, id) - state.base_count(id) - visible
    }

    /// The unknown copies of the identity, or `None` where more are accounted for than
    /// the deck holds.
    fn unknown_ids_checked(&self, state: &State, id: Identity) -> (r: Option<usize>)
        requires
            state.wf(),
            state.consistent(),
            self.wf(*state),
            state.id_ok(id),
        ensures
            match r {
                Some(u) => u == unknown_of(*self, *state, id) && unknown_of(*self, *state, id) >= 0,
                None => unknown_of(*self, *state, id) < 0,
            },
    {
        proof {
            lemma_id_ok_valid(*state, id);
            assert(state.base_count_spec(id) <= state.card_count_spec(id));
        }
        let remaining = match card_count(&state.variant, id).checked_sub(state.base_count(id)) {
            Some(r) => r,
            None => { return None; },
        };
        let mut visible: usize = 0;
        let mut p: usize = 0;
        while p < state.hands.len()
            invariant
                state.wf(),
                self.wf(*state),
                state.id_ok(id),
                id.valid(),
                remaining == card_count_spec(state.variant, id) - state.base_count_spec(id),
                remaining <= 3,
                p <= state.hands@.len(),
                visible == self.visible_count(state.hands@.take(p as int), id),
                visible <= remaining,
            decreases state.hands@.len() - p,
        {
            let hand = &state.hands[p];
            let mut i: usize = 0;
            let ghost before = visible;
            proof {
                self.lemma_visible_prefix(state.hands@, id, p + 1);
                assert(state.hands@.take(p + 1).drop_last() =~= state.hands@.take(p as int));
                assert(state.hands@.take(p + 1).last() == state.hands@[p as int]);
            }
            while i < hand.len()
                invariant
                    state.wf(),
                    self.wf(*state),
                    p < state.hands@.len(),
                    *hand == state.hands@[p as int],
                    i <= hand@.len(),
                    remaining <= 3,
                    before == self.visible_count(state.hands@.take(p as int), id),
                    visible == before + self.count_is(hand@.take(i as int), id),
                    visible <= remaining,
                    self.visible_count(state.hands@.take(p + 1), id) <= self.visible_count(state.hands@, id),
                    self.visible_count(state.hands@.take(p + 1), id) == before + self.count_is(hand@, id),
                    remaining == card_count_spec(state.variant, id) - state.base_count_spec(id),
                decreases hand@.len() - i,
            {
                let o = hand[i];
                assert(o < state.deck@.len()) by {
                    assert(state.hands@[p as int]@[i as int] < state.deck@.len());
                }
                proof {
                    assert(hand@.take(i + 1).drop_last() =~= hand@.take(i as int));
                    self.lemma_count_prefix(hand@, id, i + 1);
                }
                if self.thoughts[o].is(&id) {
                    visible += 1;
                    if visible > remaining {
                        return None;
                    }
                }
                i += 1;
            }
            proof {
                assert(hand@.take(hand@.len() as int) =~= hand@);
            }
            p += 1;
        }
        proof {
            assert(state.hands@.take(state.hands@.len() as int) =~= state.hands@);
        }
        Some(remaining - visible)
    }

    proof fn lemma_count_prefix(&self, hand: Seq<usize>, id: Identity, n: int)
        requires
            0 <= n <= hand.len(),
        ensures
            self.count_is(hand.take(n), id) <= self.count_is(hand, id),
        decreases hand.len(),
    {
        if n < hand.len() {
            assert(hand.drop_last().take(n) =~= hand.take(n));
            self.lemma_count_prefix(hand.drop_last(), id, n);
        } else {
            assert(hand.take(n) =~= hand);
        }
    }

    proof fn lemma_visible_prefix(&self, hands: Seq<Vec<usize>>, id: Identity, n: int)
        requires
            0 <= n <= hands.len(),
        ensures
            self.visible_count(hands.take(n), id) <= self.visible_count(hands, id),
        decreases hands.len(),
    {
        if n < hands.len() {
            assert(hands.drop_last().take(n) =~= hands.take(n));
            self.lemma_visible_prefix(hands.drop_last(), id, n);
        } else {
            assert(hands.take(n) =~= hands);
        }
    }
}


/// Whether some hand holds the card.
pub fn held(state: &State, x: usize) -> (r: bool)
    ensures
        r == in_hands(*state, x as int),
{
    let mut p: usize = 0;
    while p < state.hands.len()
        invariant
            p <= state.hands@.len(),
            forall|p2: int, i2: int| 0 <= p2 < p && 0 <= i2 < state.hands@[p2]@.len() ==> #[trigger] state.hands@[p2]@[i2] != x,
        decreases state.hands@.len() - p,
    {
        let hand = &state.hands[p];
        let mut i: usize = 0;
        while i < hand.len()
            invariant
                p < state.hands@.len(),
                *hand == state.hands@[p as int],
                i <= hand@.len(),
                forall|p2: int, i2: int| 0 <= p2 < state.hands@.len() && 0 <= i2 < state.hands@[p2]@.len() && (p2 < p || (p2 == p && i2 < i))
                    ==> #[trigger] state.hands@[p2]@[i2] != x,
            decreases hand@.len() - i,
        {
            if hand[i] == x {
                proof {
                    assert(state.hands@[p as int]@[i as int] == x);
                }
                return true;
            }
            i += 1;
        }
        p += 1;
    }
    false
}

impl Player {
    /// The cards of the links that have more cards than unknown copies of their identities.
    pub fn linked_orders(&self, state: &State) -> (r: Vec<usize>)
        requires
            state.wf(),
            state.consistent(),
            self.wf(*state),
        ensures
            forall|o: usize| #[trigger] r@.contains(o) <==> self.is_linked(*state, o),
            r@.no_duplicates(),
    {
        let mut r: Vec<usize> = Vec::new();
        let mut l: usize = 0;
        while l < self.links.len()
            invariant
                state.wf(),
                state.consistent(),
                self.wf(*state),
                l <= self.links@.len(),
                r@.no_duplicates(),
                forall|o: usize| #[trigger] r@.contains(o) <==> exists|j: int| 0 <= j < l && link_large(*self, *state, #[trigger] self.links@[j])
                    && link_orders(self.links@[j]).contains(o),
            decreases self.links@.len() - l,
        {
            assert(link_ok(self.links@[l as int], *state));
            let (orders, large) = match &self.links[l] {
                Link::Promised { orders, id, .. } => {
                    match self.unknown_ids_checked(state, *id) {
                        Some(unknown) => (orders, orders.len() > unknown),
                        None => (orders, false),
                    }
                },
                Link::Unpromised { orders, ids } => {
                    let mut sum: usize = 0;
                    let mut ok = true;
                    let mut k: usize = 0;
                    while k < ids.len() && ok
                        invariant
                            state.wf(),
                            state.consistent(),
                            self.wf(*state),
                            k <= ids@.len(),
                            ids@.len() <= usize::BITS,
                            forall|j: int| 0 <= j < ids@.len() ==> state.id_ok(#[trigger] ids@[j]),
                            ok ==> sum == unknown_sum(*self, *state, ids@.take(k as int)),
                            ok ==> forall|j: int| 0 <= j < k ==> unknown_of(*self, *state, #[trigger] ids@[j]) >= 0,
                            !ok ==> exists|j: int| 0 <= j < ids@.len() && unknown_of(*self, *state, #[trigger] ids@[j]) < 0,
                            sum <= 3 * k,
                        decreases ids@.len() - k,
                    {
                        match self.unknown_ids_checked(state, ids[k]) {
                            Some(u) => {
                                proof {
                                    assert(ids@.take(k + 1).drop_last() =~= ids@.take(k as int));
                                    assert(card_count_spec(state.variant, ids@[k as int]) <= 3);
                                }
                                sum = sum + u;
                            },
                            None => {
                                ok = false;
                            },
                        }
                        k += 1;
                    }
                    proof {
                        assert(ids@.take(ids@.len() as int) =~= ids@);
                    }
                    (orders, ok && orders.len() > sum)
                },
            };
            assert(link_orders(self.links@[l as int]) == orders@);
            assert(link_large(*self, *state, self.links@[l as int]) == large);
            let ghost before = r@;
            if large {
                let mut i: usize = 0;
                while i < orders.len()
                    invariant
                        i <= orders@.len(),
                        r@.no_duplicates(),
                        forall|o: usize| #[trigger] r@.contains(o) <==> before.contains(o) || orders@.take(i as int).contains(o),
                    decreases orders@.len() - i,
                {
                    let o = orders[i];
                    let ghost prev = r@;
                    if !contains_usize(&r, o) {
                        r.push(o);
                    }
                    proof {
                        assert(orders@.take(i + 1) =~= orders@.take(i as int).push(o));
                        assert forall|x: usize| #[trigger] r@.contains(x) <==> before.contains(x) || orders@.take(i + 1).contains(x) by {
                            crate::basics::lemma_push_contains(orders@.take(i as int), o, x);
                            if prev.contains(o) {
                                assert(r@ == prev);
                            } else {
                                crate::basics::lemma_push_contains(prev, o, x);
                            }
                        }
                    }
                    i += 1;
                }
                proof {
                    assert(orders@.take(orders@.len() as int) =~= orders@);
                }
            }
            proof {
                assert forall|o: usize| #[trigger] r@.contains(o) <==> exists|j: int| 0 <= j < l + 1 && link_large(*self, *state, #[trigger] self.links@[j])
                    && link_orders(self.links@[j]).contains(o) by {
                    if r@.contains(o) && !before.contains(o) {
                        assert(link_large(*self, *state, self.links@[l as int]) && link_orders(self.links@[l as int]).contains(o));
                    }
                }
            }
            l += 1;
        }
        r
    }

    /// Whether every possibility in the set is playable now.
    fn all_playable(state: &State, s: IdentitySet) -> (r: bool)
        requires
            state.wf(),
            in_range(s, state.num_suits()),
        ensures
            r == forall|x: int| #[trigger] s@.contains(x) ==> state.is_playable_spec(Identity::of_ord(x)),
    {
        let ids = s.to_vec();
        proof {
            lemma_in_range_ids(s, *state);
            lemma_bits_finite(s.bits());
            lemma_ords_below(s.bits(), usize::BITS as nat);
            assert(bits_below(s.bits(), usize::BITS as int) =~= s@);
        }
        let mut i: usize = 0;
        while i < ids.len()
            invariant
                state.wf(),
                ids@ == ids_of(s.bits()),
                i <= ids@.len(),
                forall|j: int| 0 <= j < ids@.len() ==> state.id_ok(#[trigger] ids@[j]) && s@.contains(ids@[j].ord()),
                forall|j: int| 0 <= j < i ==> state.is_playable_spec(#[trigger] ids@[j]),
            decreases ids@.len() - i,
        {
            if !state.is_playable(ids[i]) {
                proof {
                    lemma_id_ok_valid(*state, ids@[i as int]);
                    crate::basics::card::lemma_ord_roundtrip(ids@[i as int]);
                }
                return false;
            }
            i += 1;
        }
        proof {
            assert forall|x: int| #[trigger] s@.contains(x) implies state.is_playable_spec(Identity::of_ord(x)) by {
                assert(ords_below(s.bits(), usize::BITS as nat).to_set().contains(x));
                let j = choose|j: int| 0 <= j < ords_below(s.bits(), usize::BITS as nat).len() && ords_below(s.bits(), usize::BITS as nat)[j] == x;
                assert(ids@[j] == Identity::of_ord(x));
            }
        }
        true
    }

    /// The cards of the player's hand that the player thinks are playable now.
    pub fn thinks_playables(&self, frame: &Frame, player_index: usize) -> (r: Vec<usize>)
        requires
            frame.wf(),
            frame.state.consistent(),
            self.wf(*frame.state),
            player_index < frame.state.num_players,
        ensures
            r@ == frame.state.hands@[player_index as int]@.filter(|o: usize| self.playable_order(*frame, o)),
    {
        let state = frame.state;
        let linked = self.linked_orders(state);
        let hand = &state.hands[player_index];
        let ghost f = |o: usize| self.playable_order(*frame, o);
        let mut r: Vec<usize> = Vec::new();
        let mut i: usize = 0;
        while i < hand.len()
            invariant
                frame.wf(),
                state == frame.state,
                self.wf(*state),
                player_index < state.num_players,
                *hand == state.hands@[player_index as int],
                forall|o: usize| #[trigger] linked@.contains(o) <==> self.is_linked(*state, o),
                i <= hand@.len(),
                f == (|o: usize| self.playable_order(*frame, o)),
                r@ == hand@.take(i as int).filter(f),
            decreases hand@.len() - i,
        {
            let order = hand[i];
            assert(order < state.deck@.len()) by {
                assert(state.hands@[player_index as int]@[i as int] < state.deck@.len());
            }
            proof {
                assert(hand@.take(i + 1).drop_last() =~= hand@.take(i as int));
                reveal(Seq::filter);
                assert(thought_ok(self.thoughts@[order as int], order as int, *state));
            }
            let mut keep = true;
            match &frame.meta[order].depends_on {
                Some(depends) => {
                    let mut j: usize = 0;
                    while j < depends.len() && keep
                        invariant
                            j <= depends@.len(),
                            keep ==> forall|k: int| 0 <= k < j ==> !in_hands(*state, #[trigger] depends@[k] as int),
                            !keep ==> exists|k: int| 0 <= k < depends@.len() && in_hands(*state, #[trigger] depends@[k] as int),
                        decreases depends@.len() - j,
                    {
                        if held(state, depends[j]) {
                            keep = false;
                        }
                        j += 1;
                    }
                },
                None => {},
            }
            if keep {
                let unsafe_linked = contains_usize(&linked, order) && (state.strikes == 2 || state.endgame_turns.is_some());
                if !unsafe_linked {
                    let t = self.thoughts[order];
                    if Self::all_playable(state, t.possibilities()) {
                        r.push(order);
                    }
                }
            }
            i += 1;
        }
        proof {
            assert(hand@.take(hand@.len() as int) =~= hand@);
        }
        r
    }

    /// Whether the player thinks the hand has a playable or a trash card.
    pub fn thinks_loaded(&self, frame: &Frame, player_index: usize) -> (r: bool)
        requires
            frame.wf(),
            frame.state.consistent(),
            self.wf(*frame.state),
            player_index < frame.state.num_players,
        ensures
            r == self.thinks_loaded_spec(*frame, player_index as int),
    {
        let playables = self.thinks_playables(frame, player_index);
        let trash = self.thinks_trash(frame, player_index);
        proof {
            let hand = frame.state.hands@[player_index as int]@;
            crate::text::lemma_filter_nonempty(hand, |o: usize| self.playable_order(*frame, o));
            crate::text::lemma_filter_nonempty(hand, |o: usize| self.order_trash_spec(*frame, o as int));
        }
        playables.len() != 0 || trash.len() != 0
    }

    /// Whether the player thinks the hand is locked: nothing to play or discard, and
    /// every card clued or called to play or chop moved.
    pub fn thinks_locked(&self, frame: &Frame, player_index: usize) -> (r: bool)
        requires
            frame.wf(),
            frame.state.consistent(),
            self.wf(*frame.state),
            player_index < frame.state.num_players,
        ensures
            r == (!self.thinks_loaded_spec(*frame, player_index as int) && forall|i: int|
                0 <= i < frame.state.hands@[player_index as int]@.len() ==> {
                    let o = #[trigger] frame.state.hands@[player_index as int]@[i] as int;
                    ||| frame.state.deck@[o].clued
                    ||| frame.meta@[o].status == CardStatus::Finessed
                    ||| frame.meta@[o].status == CardStatus::CalledToPlay
                    ||| frame.meta@[o].status == CardStatus::ChopMoved
                }),
    {
        if self.thinks_loaded(frame, player_index) {
            return false;
        }
        let state = frame.state;
        let hand = &state.hands[player_index];
        let mut i: usize = 0;
        while i < hand.len()
            invariant
                frame.wf(),
                state == frame.state,
                player_index < state.num_players,
                *hand == state.hands@[player_index as int],
                i <= hand@.len(),
                forall|k: int| 0 <= k < i ==> {
                    let o = #[trigger] hand@[k] as int;
                    ||| state.deck@[o].clued
                    ||| frame.meta@[o].status == CardStatus::Finessed
                    ||| frame.meta@[o].status == CardStatus::CalledToPlay
                    ||| frame.meta@[o].status == CardStatus::ChopMoved
                },
            decreases hand@.len() - i,
        {
            let order = hand[i];
            assert(order < state.deck@.len()) by {
                assert(state.hands@[player_index as int]@[i as int] < state.deck@.len());
            }
            let status = frame.meta[order].status;
            if !(state.deck[order].clued || status == CardStatus::Finessed || status == CardStatus::CalledToPlay
                || status == CardStatus::ChopMoved) {
                return false;
            }
            i += 1;
        }
        true
    }

    /// Whether the identity is already sieved in someone's hand: a card other than this
    /// one thought to be it, not the first of an unloaded hand nor called to discard from
    /// a loaded one; or a link elsewhere that holds it.
    pub fn is_sieved(&self, frame: &Frame, id: Identity, order: usize) -> (r: bool)
        requires
            frame.wf(),
            frame.state.consistent(),
            self.wf(*frame.state),
        ensures
            r == self.is_sieved_spec(*frame, id, order as int),
    {
        let state = frame.state;
        let opts = MatchOptions { infer: true, symmetric: false, assumed: false };
        let mut p: usize = 0;
        while p < state.num_players
            invariant
                frame.wf(),
                frame.state.consistent(),
                self.wf(*state),
                state == frame.state,
                opts == (MatchOptions { infer: true, symmetric: false, assumed: false }),
                p <= state.num_players,
                forall|p2: int, i2: int| 0 <= p2 < p && 0 <= i2 < state.hands@[p2]@.len() ==> !{
                    let o = #[trigger] state.hands@[p2]@[i2] as int;
                    &&& o != order
                    &&& self.thinks_is(o, id, true, false)
                    &&& if self.thinks_loaded_spec(*frame, p2) {
                        frame.meta@[o].status != CardStatus::CalledToDiscard
                    } else {
                        i2 != 0
                    }
                },
            decreases state.num_players - p,
        {
            let loaded = self.thinks_loaded(frame, p);
            let hand = &state.hands[p];
            let mut i: usize = 0;
            while i < hand.len()
                invariant
                    frame.wf(),
                    self.wf(*state),
                    state == frame.state,
                    opts == (MatchOptions { infer: true, symmetric: false, assumed: false }),
                    p < state.num_players,
                    *hand == state.hands@[p as int],
                    loaded == self.thinks_loaded_spec(*frame, p as int),
                    i <= hand@.len(),
                    forall|p2: int, i2: int| 0 <= p2 < state.hands@.len() && 0 <= i2 < state.hands@[p2]@.len() && (p2 < p || (p2 == p && i2 < i)) ==> !{
                        let o = #[trigger] state.hands@[p2]@[i2] as int;
                        &&& o != order
                        &&& self.thinks_is(o, id, true, false)
                        &&& if self.thinks_loaded_spec(*frame, p2) {
                            frame.meta@[o].status != CardStatus::CalledToDiscard
                        } else {
                            i2 != 0
                        }
                    },
                decreases hand@.len() - i,
            {
                let o = hand[i];
                assert(o < state.deck@.len()) by {
                    assert(state.hands@[p as int]@[i as int] < state.deck@.len());
                }
                proof {
                    assert(state.hands@[p as int]@[i as int] == o);
                }
                if o != order && self.thoughts[o].matches(&id, &opts) {
                    if loaded {
                        if frame.meta[o].status != CardStatus::CalledToDiscard {
                            return true;
                        }
                    } else if i != 0 {
                        return true;
                    }
                }
                i += 1;
            }
            p += 1;
        }
        let mut l: usize = 0;
        while l < self.links.len()
            invariant
                l <= self.links@.len(),
                forall|j: int| 0 <= j < l ==> !link_promises_elsewhere(#[trigger] self.links@[j], order as int, id),
            decreases self.links@.len() - l,
        {
            let hit = match &self.links[l] {
                Link::Promised { orders, id: promise, .. } => !contains_usize(orders, order) && *promise == id,
                Link::Unpromised { orders, ids } => !contains_usize(orders, order) && contains_id(ids, id),
            };
            if hit {
                return true;
            }
            l += 1;
        }
        false
    }
}

/// The critical identities of the list.
pub open spec fn crit_count(state: State, ids: Seq<Identity>) -> nat
    decreases ids.len(),
{
    if ids.len() == 0 {
        0
    } else {
        crit_count(state, ids.drop_last()) + if state.is_critical_spec(ids.last()) {
            1nat
        } else {
            0nat
        }
    }
}

impl Player {
    /// The options with which the player asks whether a card matches an identity.
    pub open spec fn infer_options() -> MatchOptions {
        MatchOptions { infer: true, symmetric: false, assumed: false }
    }

    /// The cards that the player sees or thinks are the identity.
    pub open spec fn visible_spec(&self, state: State, id: Identity) -> Seq<usize> {
        visible_upto(state, *self, id, Self::infer_options(), state.hands@.len() as int)
    }

    pub open spec fn save2_spec(&self, state: State, id: Identity) -> bool {
        id.rank == 2 && state.play_stacks@[id.suit_index as int] < 2 && self.visible_spec(state, id).len() == 1
    }

    pub open spec fn card_value_spec(&self, frame: Frame, id: Identity, order: Option<usize>) -> int {
        let o = match order {
            Some(o) => o,
            None => 99,
        };
        let stack = self.hypo_stacks@[id.suit_index as int];
        if self.is_trash_spec(frame, id, o as int) || self.visible_spec(*frame.state, id).len() > 1 {
            0
        } else if frame.state.is_critical_spec(id) {
            5
        } else if self.save2_spec(*frame.state, id) {
            4
        } else if id.rank < stack {
            0
        } else {
            5 - (id.rank - stack)
        }
    }

    /// Whether the identity is a 2 not yet played that is seen in only one hand place.
    pub fn save2(&self, state: &State, id: Identity) -> (r: bool)
        requires
            state.wf(),
            self.wf(*state),
            state.id_ok(id),
        ensures
            r == self.save2_spec(*state, id),
    {
        if id.rank != 2 || state.play_stacks[id.suit_index] >= 2 {
            return false;
        }
        let found = visible_find(state, self, &id, MatchOptions { infer: true, symmetric: false, assumed: false },
            |_p: usize, _o: usize| -> (b: bool) ensures b { true });
        found.len() == 1
    }

    /// How valuable the identity is to keep: nothing where it is trash or seen twice,
    /// most where critical, then a 2 seen once, then by its distance from the hypothetical stack.
    pub fn card_value(&self, frame: &Frame, id: Identity, order: Option<usize>) -> (r: usize)
        requires
            frame.wf(),
            self.wf(*frame.state),
            frame.state.id_ok(id),
        ensures
            r == self.card_value_spec(*frame, id, order),
    {
        let state = frame.state;
        let o = match order {
            Some(o) => o,
            None => 99,
        };
        let found = visible_find(state, self, &id, MatchOptions { infer: true, symmetric: false, assumed: false },
            |_p: usize, _o: usize| -> (b: bool) ensures b { true });
        if self.is_trash(frame, id, o) || found.len() > 1 {
            0
        } else if state.is_critical(id) {
            5
        } else if self.save2(state, id) {
            4
        } else if id.rank < self.hypo_stacks[id.suit_index] {
            0
        } else {
            5 - (id.rank - self.hypo_stacks[id.suit_index])
        }
    }
}

impl Player {
    /// The possibilities of the card, in suit and rank order.
    pub open spec fn poss_ids(&self, order: usize) -> Seq<Identity> {
        ids_of(self.thoughts@[order as int].possibilities_spec().bits())
    }

    /// 1 where every possibility of the card is critical, else 0.
    pub open spec fn crit_percent(&self, state: State, order: usize) -> int {
        crit_count(state, self.poss_ids(order)) as int / self.poss_ids(order).len() as int
    }

    /// How far the identity is from mattering, for choosing a discard from a locked hand.
    pub open spec fn crit_distance(&self, id: Identity, percent: int) -> int {
        let d = (if percent == 1 { id.rank * 5 } else { 0 }) + id.rank - self.hypo_stacks@[id.suit_index as int];
        if d < 0 { 5 } else { d }
    }

    pub open spec fn distance_sum(&self, ids: Seq<Identity>, percent: int) -> int
        decreases ids.len(),
    {
        if ids.len() == 0 {
            0
        } else {
            self.distance_sum(ids.drop_last(), percent) + self.crit_distance(ids.last(), percent)
        }
    }

    pub open spec fn discard_key(&self, state: State, order: usize) -> int {
        self.distance_sum(self.poss_ids(order), self.crit_percent(state, order))
    }

    /// The least share of critical possibilities among the cards of the hand.
    pub open spec fn least_percent(&self, state: State, hand: Seq<usize>) -> int {
        if exists|i: int| 0 <= i < hand.len() && self.crit_percent(state, #[trigger] hand[i]) == 0 { 0 } else { 1 }
    }

    /// The card of a locked hand to discard: among the cards with the fewest critical
    /// possibilities, the last with the greatest distance from mattering.
    pub fn locked_discard(&self, state: &State, player_index: usize) -> (r: usize)
        requires
            state.wf(),
            self.wf(*state),
            player_index < state.num_players,
            state.hands@[player_index as int]@.len() > 0,
            forall|i: int| 0 <= i < state.hands@[player_index as int]@.len() ==>
                self.thoughts@[#[trigger] state.hands@[player_index as int]@[i] as int].possibilities_spec()@.len() > 0,
        ensures
            ({
                let hand = state.hands@[player_index as int]@;
                let least = self.least_percent(*state, hand);
                exists|k: int| {
                    &&& 0 <= k < hand.len()
                    &&& r == hand[k]
                    &&& self.crit_percent(*state, hand[k]) == least
                    &&& forall|j: int| 0 <= j < hand.len() && self.crit_percent(*state, #[trigger] hand[j]) == least ==> (
                        if j <= k { self.discard_key(*state, hand[j]) <= self.discard_key(*state, hand[k]) } else { self.discard_key(*state, hand[j]) < self.discard_key(*state, hand[k]) })
                }
            }),
    {
        let hand = &state.hands[player_index];
        let ghost h = hand@;
        // The share of critical possibilities of each card.
        let mut percents: Vec<usize> = Vec::new();
        let mut i: usize = 0;
        while i < hand.len()
            invariant
                state.wf(),
                self.wf(*state),
                player_index < state.num_players,
                *hand == state.hands@[player_index as int],
                h == hand@,
                forall|i: int| 0 <= i < h.len() ==> self.thoughts@[#[trigger] h[i] as int].possibilities_spec()@.len() > 0,
                i <= h.len(),
                percents@.len() == i,
                forall|j: int| 0 <= j < i ==> #[trigger] percents@[j] == self.crit_percent(*state, h[j]) && percents@[j] <= 1,
            decreases h.len() - i,
        {
            let order = hand[i];
            assert(order < state.deck@.len()) by {
                assert(state.hands@[player_index as int]@[i as int] < state.deck@.len());
            }
            let t = self.thoughts[order];
            let poss = t.possibilities();
            let ids = poss.to_vec();
            proof {
                assert(thought_ok(t, order as int, *state));
                lemma_in_range_ids(poss, *state);
                lemma_bits_finite(poss.bits());
                lemma_ords_below(poss.bits(), usize::BITS as nat);
                assert(bits_below(poss.bits(), usize::BITS as int) =~= poss@);
            }
            let mut count: usize = 0;
            let mut j: usize = 0;
            while j < ids.len()
                invariant
                    state.wf(),
                    j <= ids@.len(),
                    forall|k: int| 0 <= k < ids@.len() ==> state.id_ok(#[trigger] ids@[k]),
                    count == crit_count(*state, ids@.take(j as int)),
                    count <= j,
                decreases ids@.len() - j,
            {
                proof {
                    assert(ids@.take(j + 1).drop_last() =~= ids@.take(j as int));
                }
                if state.is_critical(ids[j]) {
                    count += 1;
                }
                j += 1;
            }
            proof {
                assert(ids@.take(ids@.len() as int) =~= ids@);
                assert(ids@.len() > 0);
                assert(count as int / ids@.len() as int <= 1) by (nonlinear_arith)
                    requires count <= ids@.len(), ids@.len() > 0;
            }
            percents.push(count / ids.len());
            i += 1;
        }
        let mut least: usize = 1;
        let mut i: usize = 0;
        while i < percents.len()
            invariant
                percents@.len() == h.len(),
                i <= h.len(),
                forall|j: int| 0 <= j < h.len() ==> #[trigger] percents@[j] == self.crit_percent(*state, h[j]) && percents@[j] <= 1,
                least == (if exists|j: int| 0 <= j < i && self.crit_percent(*state, #[trigger] h[j]) == 0 { 0int } else { 1int }),
            decreases h.len() - i,
        {
            if percents[i] == 0 {
                least = 0;
            }
            proof {
                if least == 1 {
                    assert forall|j: int| 0 <= j < i + 1 implies self.crit_percent(*state, #[trigger] h[j]) != 0 by {
                        assert(percents@[j] == self.crit_percent(*state, h[j]));
                    }
                } else {
                    assert(percents@[i as int] == self.crit_percent(*state, h[i as int]));
                }
            }
            i += 1;
        }
        assert(least == self.least_percent(*state, h));
        // Among the cards with the least share, the last with the greatest distance.
        let mut best: usize = 0;
        let mut best_key: usize = 0;
        let mut found = false;
        let mut i: usize = 0;
        while i < hand.len()
            invariant
                state.wf(),
                self.wf(*state),
                *hand == state.hands@[player_index as int],
                h == hand@,
                forall|i: int| 0 <= i < h.len() ==> self.thoughts@[#[trigger] h[i] as int].possibilities_spec()@.len() > 0,
                percents@.len() == h.len(),
                forall|j: int| 0 <= j < h.len() ==> #[trigger] percents@[j] == self.crit_percent(*state, h[j]) && percents@[j] <= 1,
                least == self.least_percent(*state, h),
                player_index < state.num_players,
                i <= h.len(),
                found ==> best < i && percents@[best as int] == least && best_key == self.discard_key(*state, h[best as int]),
                !found ==> forall|j: int| 0 <= j < i ==> percents@[j] != least,
                found ==> forall|j: int| 0 <= j < i && #[trigger] percents@[j] == least ==> (
                    if j <= best { self.discard_key(*state, h[j]) <= best_key } else { self.discard_key(*state, h[j]) < best_key }),
            decreases h.len() - i,
        {
            if percents[i] == least {
                let order = hand[i];
                assert(order < state.deck@.len()) by {
                    assert(state.hands@[player_index as int]@[i as int] < state.deck@.len());
                }
                let key = self.discard_key_of(state, order, percents[i]);
                if !found || key >= best_key {
                    best = i;
                    best_key = key;
                    found = true;
                }
            }
            i += 1;
        }
        proof {
            if !found {
                if least == 0 {
                    let j = choose|j: int| 0 <= j < h.len() && self.crit_percent(*state, #[trigger] h[j]) == 0;
                    assert(percents@[j] == 0);
                } else {
                    assert(percents@[0] == self.crit_percent(*state, h[0]));
                }
            }
            assert forall|j: int| 0 <= j < h.len() && self.crit_percent(*state, #[trigger] h[j]) == least implies (
                if j <= best { self.discard_key(*state, h[j]) <= self.discard_key(*state, h[best as int]) } else { self.discard_key(*state, h[j]) < self.discard_key(*state, h[best as int]) }) by {
                assert(percents@[j] == least);
            }
        }
        hand[best]
    }

    /// The distance from mattering of the card's possibilities, added up.
    fn discard_key_of(&self, state: &State, order: usize, percent: usize) -> (r: usize)
        requires
            state.wf(),
            self.wf(*state),
            order < state.deck@.len(),
            percent == self.crit_percent(*state, order),
        ensures
            r == self.discard_key(*state, order),
    {
        let t = self.thoughts[order];
        let ids = t.possibilities().to_vec();
        proof {
            assert(thought_ok(t, order as int, *state));
            lemma_in_range_ids(t.possibilities_spec(), *state);
            lemma_bits_finite(t.possibilities_spec().bits());
            lemma_ords_below(t.possibilities_spec().bits(), usize::BITS as nat);
            assert(bits_below(t.possibilities_spec().bits(), usize::BITS as int) =~= t.possibilities_spec()@);
        }
        let mut sum: usize = 0;
        let mut j: usize = 0;
        while j < ids.len()
            invariant
                state.wf(),
                self.wf(*state),
                j <= ids@.len(),
                ids@.len() <= usize::BITS,
                forall|k: int| 0 <= k < ids@.len() ==> state.id_ok(#[trigger] ids@[k]),
                sum == self.distance_sum(ids@.take(j as int), percent as int),
                sum <= 30 * j,
            decreases ids@.len() - j,
        {
            let id = ids[j];
            proof {
                assert(ids@.take(j + 1).drop_last() =~= ids@.take(j as int));
                assert(ids@.take(j + 1).last() == id);
            }
            let stack = self.hypo_stacks[id.suit_index];
            let base = if percent == 1 { id.rank * 5 } else { 0 };
            let d: usize = if base + id.rank < stack { 5 } else { base + id.rank - stack };
            sum = sum + d;
            j += 1;
        }
        proof {
            assert(ids@.take(ids@.len() as int) =~= ids@);
        }
        sum
    }
}

/// A list of distinct orders of a deck of `len` cards has at most `len` entries.
proof fn lemma_distinct_orders(s: Seq<usize>, len: nat)
    requires
        s.no_duplicates(),
        forall|i: int| 0 <= i < s.len() ==> #[trigger] s[i] < len,
    ensures
        s.len() <= len,
{
    let t = s.map_values(|o: usize| o as int);
    assert(t.no_duplicates()) by {
        assert forall|a: int, b: int| 0 <= a < t.len() && 0 <= b < t.len() && a != b implies t[a] != t[b] by {
            assert(s[a] != s[b]);
        }
    }
    t.unique_seq_to_set();
    vstd::set_lib::lemma_int_range(0, len as int);
    assert(t.to_set().subset_of(vstd::set_lib::set_int_range(0, len as int))) by {
        assert forall|x: int| t.to_set().contains(x) implies 0 <= x < len by {
            let j = choose|j: int| 0 <= j < t.len() && t[j] == x;
            assert(s[j] < len);
        }
    }
    vstd::set_lib::lemma_len_subset(t.to_set(), vstd::set_lib::set_int_range(0, len as int));
}

/// Whether the identities left after the eliminated ones are at least one and all
/// play next on the stacks.
fn delayed_playable(ids: &Vec<Identity>, eliminated: &IdentitySet, stacks: &Vec<usize>) -> (r: bool)
    requires
        forall|j: int| 0 <= j < ids@.len() ==> (#[trigger] ids@[j]).valid() && ids@[j].suit_index < stacks@.len(),
        forall|s: int| 0 <= s < stacks@.len() ==> #[trigger] stacks@[s] <= 5,
    ensures
        r == ((exists|j: int| 0 <= j < ids@.len() && !eliminated@.contains((#[trigger] ids@[j]).ord())) && forall|j: int|
            0 <= j < ids@.len() && !eliminated@.contains((#[trigger] ids@[j]).ord()) ==> stacks@[ids@[j].suit_index as int] + 1 == ids@[j].rank),
{
    let mut any = false;
    let mut j: usize = 0;
    while j < ids.len()
        invariant
            forall|j: int| 0 <= j < ids@.len() ==> (#[trigger] ids@[j]).valid() && ids@[j].suit_index < stacks@.len(),
            forall|s: int| 0 <= s < stacks@.len() ==> #[trigger] stacks@[s] <= 5,
            j <= ids@.len(),
            any == exists|k: int| 0 <= k < j && !eliminated@.contains((#[trigger] ids@[k]).ord()),
            forall|k: int| 0 <= k < j && !eliminated@.contains((#[trigger] ids@[k]).ord()) ==> stacks@[ids@[k].suit_index as int] + 1 == ids@[k].rank,
        decreases ids@.len() - j,
    {
        let id = ids[j];
        if !eliminated.contains(id) {
            any = true;
            if stacks[id.suit_index] + 1 != id.rank {
                return false;
            }
        }
        j += 1;
    }
    any
}

/// The card of the order is held in some hand, and the player, looking as its holder
/// would, takes it to be the identity of suit `s` and rank `r`.
pub open spec fn played_as(state: State, pl: Player, o: usize, s: int, r: int) -> bool {
    exists|p: int, i: int| 0 <= p < state.hands@.len() && 0 <= i < state.hands@[p]@.len() && #[trigger] state.hands@[p]@[i] == o
        && pl.thoughts@[o as int].identity_spec(IdOptions { infer: true, symmetric: pl.player_index == p })
        == Some(Identity { suit_index: s as usize, rank: r as usize })
}

/// A link of the player promises the identity of suit `s` and rank `r`.
pub open spec fn promised_id(pl: Player, s: int, r: int) -> bool {
    exists|l: int| 0 <= l < pl.links@.len() && (#[trigger] pl.links@[l] matches Link::Promised { id, .. }
        && id.suit_index == s && id.rank == r)
}

/// The hypothetical stack of suit `s` stands at rank `r` because of a card played in
/// thought that the player takes to be that card, or a link that promises it.
pub open spec fn stack_raised(state: State, pl: Player, plays: Seq<usize>, s: int, r: int) -> bool {
    ||| exists|j: int| 0 <= j < plays.len() && played_as(state, pl, #[trigger] plays[j], s, r)
    ||| promised_id(pl, s, r)
}

proof fn lemma_raised_push(state: State, pl: Player, plays: Seq<usize>, x: usize, s: int, r: int)
    requires
        stack_raised(state, pl, plays, s, r),
    ensures
        stack_raised(state, pl, plays.push(x), s, r),
{
    if !promised_id(pl, s, r) {
        let j = choose|j: int| 0 <= j < plays.len() && played_as(state, pl, #[trigger] plays[j], s, r);
        assert(plays.push(x)[j] == plays[j]);
    }
}

/// The card at index `i` of hand `p` is one the player would play in thought first:
/// touched, neither ignored nor linked, with consistent inferences, every possibility
/// playing next on the play stacks, and its identity, where the player can tell it,
/// playing next too.
pub open spec fn hypo_candidate(frame: Frame, pl: Player, ignore: Seq<usize>, p: int, i: int) -> bool {
    let state = *frame.state;
    let o = state.hands@[p]@[i];
    let t = pl.thoughts@[o as int];
    &&& !ignore.contains(o)
    &&& !pl.is_linked(state, o)
    &&& frame.is_touched_spec(o as int)
    &&& state.has_consistent_inferences_spec(t)
    &&& t.possible@.len() > 0
    &&& forall|x: int| #[trigger] t.possible@.contains(x) ==> state.play_stacks@[Identity::of_ord(x).suit_index as int] + 1 == Identity::of_ord(x).rank
    &&& match t.identity_spec(IdOptions { infer: true, symmetric: pl.player_index == p }) {
        None => true,
        Some(id) => state.play_stacks@[id.suit_index as int] + 1 == id.rank,
    }
}

impl Player {
    /// Plays, in thought, every touched card that the player thinks playable, again and
    /// again while one is found, building the hypothetical stacks; records the cards so
    /// played and those among them of unknown identity.
    pub fn update_hypo_stacks(&mut self, frame: &Frame, ignore: &[usize])
        requires
            frame.wf(),
            frame.state.consistent(),
            old(self).wf(*frame.state),
        ensures
            final(self).thoughts@ == old(self).thoughts@,
            final(self).links@ == old(self).links@,
            final(self).all_possible == old(self).all_possible,
            final(self).all_inferred == old(self).all_inferred,
            final(self).player_index == old(self).player_index,
            final(self).is_common == old(self).is_common,
            final(self).wf(*frame.state),
            forall|s: int| 0 <= s < frame.state.num_suits() ==> frame.state.play_stacks@[s] <= #[trigger] final(self).hypo_stacks@[s] <= 5,
            final(self).hypo_plays@.no_duplicates(),
            forall|j: int| 0 <= j < final(self).hypo_plays@.len() ==> {
                let o = #[trigger] final(self).hypo_plays@[j];
                &&& in_hands(*frame.state, o as int)
                &&& frame.is_touched_spec(o as int)
                &&& !ignore@.contains(o)
                &&& !old(self).is_linked(*frame.state, o)
                &&& frame.state.has_consistent_inferences_spec(old(self).thoughts@[o as int])
            },
            forall|j: int| 0 <= j < final(self).unknown_plays@.len() ==> final(self).hypo_plays@.contains(#[trigger] final(self).unknown_plays@[j]),
            forall|s: int| 0 <= s < frame.state.num_suits() ==> frame.state.play_stacks@[s] == #[trigger] final(self).hypo_stacks@[s]
                || stack_raised(*frame.state, *old(self), final(self).hypo_plays@, s, final(self).hypo_stacks@[s] as int),
            final(self).hypo_plays@.len() == 0 ==> forall|p: int, i: int| 0 <= p < frame.state.hands@.len() && 0 <= i < frame.state.hands@[p]@.len()
                ==> !#[trigger] hypo_candidate(*frame, *old(self), ignore@, p, i),
    {
        let state = frame.state;
        let ghost old_self = *self;
        let ghost n = state.num_suits();
        let mut hypo_stacks: Vec<usize> = Vec::new();
        let mut s: usize = 0;
        while s < state.play_stacks.len()
            invariant
                s <= state.play_stacks@.len(),
                hypo_stacks@ == state.play_stacks@.take(s as int),
            decreases state.play_stacks@.len() - s,
        {
            hypo_stacks.push(state.play_stacks[s]);
            proof {
                assert(hypo_stacks@ =~= state.play_stacks@.take(s + 1));
            }
            s += 1;
        }
        proof {
            assert(state.play_stacks@.take(state.play_stacks@.len() as int) =~= state.play_stacks@);
        }
        let mut unknown_plays: Vec<usize> = Vec::new();
        let mut played: Vec<usize> = Vec::new();
        let mut unplayable: Vec<usize> = Vec::new();
        let mut found_playable = true;
        let mut good_touch = IdentitySet::empty();
        let linked = self.linked_orders(state);
        let ghost mut checked = false;
        while found_playable
            invariant
                !checked ==> found_playable && played@.len() == 0 && unplayable@.len() == 0
                    && hypo_stacks@ == state.play_stacks@ && good_touch@ == Set::<int>::empty(),
                checked && played@.len() == 0 ==> forall|p: int, i: int| 0 <= p < state.hands@.len() && 0 <= i < state.hands@[p]@.len()
                    ==> !#[trigger] hypo_candidate(*frame, old_self, ignore@, p, i),
                frame.wf(),
                state == frame.state,
                frame.state.consistent(),
                *self == old_self,
                self.wf(*state),
                n == state.num_suits(),
                hypo_stacks@.len() == n,
                forall|s: int| 0 <= s < n ==> state.play_stacks@[s] <= #[trigger] hypo_stacks@[s] <= 5,
                forall|s: int| 0 <= s < n ==> state.play_stacks@[s] == #[trigger] hypo_stacks@[s]
                    || stack_raised(*state, old_self, played@, s, hypo_stacks@[s] as int),
                forall|o: usize| #[trigger] linked@.contains(o) <==> self.is_linked(*state, o),
                played@.no_duplicates(),
                forall|j: int| 0 <= j < played@.len() ==> {
                    let o = #[trigger] played@[j];
                    &&& in_hands(*state, o as int)
                    &&& o < state.deck@.len()
                    &&& frame.is_touched_spec(o as int)
                    &&& !ignore@.contains(o)
                    &&& !self.is_linked(*state, o)
                    &&& state.has_consistent_inferences_spec(self.thoughts@[o as int])
                },
                forall|j: int| 0 <= j < unknown_plays@.len() ==> played@.contains(#[trigger] unknown_plays@[j]),
            decreases state.deck@.len() - played@.len() + (if found_playable { 1int } else { 0int }),
        {
            proof {
                lemma_distinct_orders(played@, state.deck@.len());
            }
            let ghost played_start = played@;
            let ghost first = !checked;
            found_playable = false;
            let mut p: usize = 0;
            while p < state.num_players
                invariant
                    first ==> played_start.len() == 0,
                    first && played@.len() == 0 ==> hypo_stacks@ == state.play_stacks@ && good_touch@ == Set::<int>::empty()
                        && (forall|j: int| 0 <= j < unplayable@.len() ==> held_before(*state, p as int, 0, #[trigger] unplayable@[j] as int))
                        && (forall|p2: int, i2: int| 0 <= p2 < p && 0 <= i2 < state.hands@[p2]@.len()
                            ==> !#[trigger] hypo_candidate(*frame, old_self, ignore@, p2, i2)),
                    checked && played@.len() == 0 ==> forall|p: int, i: int| 0 <= p < state.hands@.len() && 0 <= i < state.hands@[p]@.len()
                        ==> !#[trigger] hypo_candidate(*frame, old_self, ignore@, p, i),
                    frame.wf(),
                    state == frame.state,
                    *self == old_self,
                    self.wf(*state),
                    n == state.num_suits(),
                    p <= state.num_players,
                    hypo_stacks@.len() == n,
                    forall|s: int| 0 <= s < n ==> state.play_stacks@[s] <= #[trigger] hypo_stacks@[s] <= 5,
                    forall|s: int| 0 <= s < n ==> state.play_stacks@[s] == #[trigger] hypo_stacks@[s]
                        || stack_raised(*state, old_self, played@, s, hypo_stacks@[s] as int),
                    forall|o: usize| #[trigger] linked@.contains(o) <==> self.is_linked(*state, o),
                    played@.no_duplicates(),
                    forall|j: int| 0 <= j < played@.len() ==> {
                        let o = #[trigger] played@[j];
                        &&& in_hands(*state, o as int)
                        &&& o < state.deck@.len()
                        &&& frame.is_touched_spec(o as int)
                        &&& !ignore@.contains(o)
                        &&& !self.is_linked(*state, o)
                        &&& state.has_consistent_inferences_spec(self.thoughts@[o as int])
                    },
                    forall|j: int| 0 <= j < unknown_plays@.len() ==> played@.contains(#[trigger] unknown_plays@[j]),
                    played@.len() >= played_start.len(),
                    found_playable ==> played@.len() > played_start.len(),
                decreases state.num_players - p,
            {
                let hand = &state.hands[p];
                let mut i: usize = 0;
                while i < hand.len()
                    invariant
                        first ==> played_start.len() == 0,
                        first && played@.len() == 0 ==> hypo_stacks@ == state.play_stacks@ && good_touch@ == Set::<int>::empty()
                            && (forall|j: int| 0 <= j < unplayable@.len() ==> held_before(*state, p as int, i as int, #[trigger] unplayable@[j] as int))
                            && (forall|p2: int, i2: int| 0 <= p2 < state.hands@.len() && 0 <= i2 < state.hands@[p2]@.len() && (p2 < p || (p2 == p && i2 < i))
                                ==> !#[trigger] hypo_candidate(*frame, old_self, ignore@, p2, i2)),
                        checked && played@.len() == 0 ==> forall|p: int, i: int| 0 <= p < state.hands@.len() && 0 <= i < state.hands@[p]@.len()
                            ==> !#[trigger] hypo_candidate(*frame, old_self, ignore@, p, i),
                        frame.wf(),
                        state == frame.state,
                        *self == old_self,
                        self.wf(*state),
                        n == state.num_suits(),
                        p < state.num_players,
                        *hand == state.hands@[p as int],
                        i <= hand@.len(),
                        hypo_stacks@.len() == n,
                        forall|s: int| 0 <= s < n ==> state.play_stacks@[s] <= #[trigger] hypo_stacks@[s] <= 5,
                        forall|s: int| 0 <= s < n ==> state.play_stacks@[s] == #[trigger] hypo_stacks@[s]
                            || stack_raised(*state, old_self, played@, s, hypo_stacks@[s] as int),
                        forall|o: usize| #[trigger] linked@.contains(o) <==> self.is_linked(*state, o),
                        played@.no_duplicates(),
                        forall|j: int| 0 <= j < played@.len() ==> {
                            let o = #[trigger] played@[j];
                            &&& in_hands(*state, o as int)
                            &&& o < state.deck@.len()
                            &&& frame.is_touched_spec(o as int)
                            &&& !ignore@.contains(o)
                            &&& !self.is_linked(*state, o)
                            &&& state.has_consistent_inferences_spec(self.thoughts@[o as int])
                        },
                        forall|j: int| 0 <= j < unknown_plays@.len() ==> played@.contains(#[trigger] unknown_plays@[j]),
                        played@.len() >= played_start.len(),
                        found_playable ==> played@.len() > played_start.len(),
                    decreases hand@.len() - i,
                {
                    let order = hand[i];
                    assert(order < state.deck@.len()) by {
                        assert(state.hands@[p as int]@[i as int] < state.deck@.len());
                    }
                    let ghost unpl_s = unplayable@;
                    let skip = contains_usize_slice(ignore, order) || contains_usize(&linked, order)
                        || contains_usize(&played, order) || contains_usize(&unplayable, order);
                    proof {
                        assert(state.hands@[p as int]@[i as int] == order);
                        if first && played@.len() == 0 && skip {
                            if unplayable@.contains(order) && !ignore@.contains(order) && !linked@.contains(order) {
                                let j = choose|j: int| 0 <= j < unplayable@.len() && unplayable@[j] == order;
                                assert(held_before(*state, p as int, i as int, unplayable@[j] as int));
                                let (p2, i2) = choose|p2: int, i2: int| 0 <= p2 < state.hands@.len() && 0 <= i2 < state.hands@[p2]@.len()
                                    && (p2 < p || (p2 == p && i2 < i)) && #[trigger] state.hands@[p2]@[i2] == order as int;
                                assert(state.hands@[p2]@[i2] == state.hands@[p as int]@[i as int]);
                            }
                            assert(!hypo_candidate(*frame, old_self, ignore@, p as int, i as int));
                        }
                    }
                    if !skip {
                        let thought = self.thoughts[order];
                        proof {
                            assert(thought_ok(thought, order as int, *state));
                            lemma_identity_ok(thought, order as int, *state, IdOptions { infer: true, symmetric: self.player_index == p });
                            lemma_in_range_ids(thought.possible, *state);
                            lemma_in_range_ids(thought.inferred, *state);
                        }
                        let id = thought.identity(&IdOptions { infer: true, symmetric: self.player_index == p });
                        let actual_id = state.deck[order].id();
                        let actual_elim = match actual_id {
                            Some(a) => {
                                proof {
                                    lemma_id_ok_valid(*state, a);
                                }
                                good_touch.contains(a)
                            },
                            None => false,
                        };
                        let touched = frame.is_touched(order);
                        proof {
                            if first && played@.len() == 0 && !(touched && !actual_elim) {
                                assert(!hypo_candidate(*frame, old_self, ignore@, p as int, i as int));
                            }
                        }
                        if touched && !actual_elim {
                            let possible = thought.possible.to_vec();
                            let inferred = thought.inferred.to_vec();
                            proof {
                                assert forall|j: int| 0 <= j < possible@.len() implies (#[trigger] possible@[j]).valid() && possible@[j].suit_index < hypo_stacks@.len() by {
                                    lemma_id_ok_valid(*state, possible@[j]);
                                }
                                assert forall|j: int| 0 <= j < inferred@.len() implies (#[trigger] inferred@[j]).valid() && inferred@[j].suit_index < hypo_stacks@.len() by {
                                    lemma_id_ok_valid(*state, inferred@[j]);
                                }
                            }
                            let playable = state.has_consistent_inferences(&thought) && (delayed_playable(&possible, &good_touch, &hypo_stacks)
                                || delayed_playable(&inferred, &good_touch, &hypo_stacks) || (frame.is_blind_playing(order) && match actual_id {
                                Some(a) => {
                                    let one = vec![a];
                                    proof {
                                        lemma_id_ok_valid(*state, a);
                                    }
                                    delayed_playable(&one, &good_touch, &hypo_stacks)
                                },
                                None => false,
                            }));
                            proof {
                                if first && played@.len() == 0 && !playable && hypo_candidate(*frame, old_self, ignore@, p as int, i as int) {
                                    crate::basics::identity_set::lemma_to_vec_lists_the_set(thought.possible);
                                    assert(possible@.len() > 0);
                                    assert(!good_touch@.contains(possible@[0].ord()));
                                    assert forall|j: int| 0 <= j < possible@.len() && !good_touch@.contains((#[trigger] possible@[j]).ord())
                                        implies hypo_stacks@[possible@[j].suit_index as int] + 1 == possible@[j].rank by {
                                        crate::basics::card::lemma_ord_roundtrip(possible@[j]);
                                        assert(thought.possible@.contains(possible@[j].ord()));
                                    }
                                    assert(false);
                                }
                            }
                            if playable {
                                proof {
                                    assert(state.hands@[p as int]@[i as int] == order);
                                }
                                match id {
                                    None => {
                                        let ghost old_unknown = unknown_plays@;
                                        let ghost old_played = played@;
                                        unknown_plays.push(order);
                                        played.push(order);
                                        found_playable = true;
                                        proof {
                                            assert forall|s: int| 0 <= s < n implies state.play_stacks@[s] == #[trigger] hypo_stacks@[s]
                                                || stack_raised(*state, old_self, played@, s, hypo_stacks@[s] as int) by {
                                                if state.play_stacks@[s] != hypo_stacks@[s] {
                                                    lemma_raised_push(*state, old_self, old_played, order, s, hypo_stacks@[s] as int);
                                                }
                                            }
                                            assert forall|j: int| 0 <= j < unknown_plays@.len() implies played@.contains(#[trigger] unknown_plays@[j]) by {
                                                crate::basics::lemma_push_contains(old_played, order, unknown_plays@[j]);
                                                if j < old_unknown.len() {
                                                    assert(unknown_plays@[j] == old_unknown[j]);
                                                }
                                            }
                                        }
                                        let mut l: usize = 0;
                                        while l < self.links.len()
                                            invariant
                                                *self == old_self,
                                                self.wf(*state),
                                                state.wf(),
                                                n == state.num_suits(),
                                                hypo_stacks@.len() == n,
                                                forall|s: int| 0 <= s < n ==> state.play_stacks@[s] <= #[trigger] hypo_stacks@[s] <= 5,
                                                forall|s: int| 0 <= s < n ==> state.play_stacks@[s] == #[trigger] hypo_stacks@[s]
                                                    || stack_raised(*state, old_self, played@, s, hypo_stacks@[s] as int),
                                            decreases self.links@.len() - l,
                                        {
                                            assert(link_ok(self.links@[l as int], *state));
                                            match &self.links[l] {
                                                Link::Promised { id: lid, .. } => {
                                                    proof {
                                                        lemma_id_ok_valid(*state, *lid);
                                                    }
                                                    if lid.rank != hypo_stacks[lid.suit_index] + 1 {
                                                        if !contains_usize(&unplayable, order) {
                                                            unplayable.push(order);
                                                        }
                                                    } else {
                                                        let ghost hs = hypo_stacks@;
                                                        hypo_stacks.set(lid.suit_index, lid.rank);
                                                        good_touch = good_touch.with(*lid);
                                                        proof {
                                                            assert(promised_id(old_self, lid.suit_index as int, lid.rank as int)) by {
                                                                assert(old_self.links@[l as int] matches Link::Promised { id, .. } && id == *lid);
                                                            }
                                                            assert forall|s: int| 0 <= s < n implies state.play_stacks@[s] == #[trigger] hypo_stacks@[s]
                                                                || stack_raised(*state, old_self, played@, s, hypo_stacks@[s] as int) by {
                                                                if s != lid.suit_index as int {
                                                                    assert(hypo_stacks@[s] == hs[s]);
                                                                }
                                                            }
                                                        }
                                                    }
                                                },
                                                Link::Unpromised { .. } => {},
                                            }
                                            l += 1;
                                        }
                                    },
                                    Some(known) => {
                                        proof {
                                            lemma_id_ok_valid(*state, known);
                                        }
                                        if known.rank != hypo_stacks[known.suit_index] + 1 {
                                            proof {
                                                if first && played@.len() == 0 {
                                                    assert(!hypo_candidate(*frame, old_self, ignore@, p as int, i as int));
                                                }
                                            }
                                            if !contains_usize(&unplayable, order) {
                                                unplayable.push(order);
                                            }
                                        } else {
                                            found_playable = true;
                                            let ghost hs = hypo_stacks@;
                                            hypo_stacks.set(known.suit_index, known.rank);
                                            good_touch = good_touch.with(known);
                                            let ghost old_played = played@;
                                            played.push(order);
                                            proof {
                                                assert(played_as(*state, old_self, order, known.suit_index as int, known.rank as int)) by {
                                                    assert(state.hands@[p as int]@[i as int] == order);
                                                }
                                                assert forall|s: int| 0 <= s < n implies state.play_stacks@[s] == #[trigger] hypo_stacks@[s]
                                                    || stack_raised(*state, old_self, played@, s, hypo_stacks@[s] as int) by {
                                                    if s == known.suit_index as int {
                                                        assert(played@[old_played.len() as int] == order);
                                                    } else {
                                                        assert(hypo_stacks@[s] == hs[s]);
                                                        if state.play_stacks@[s] != hypo_stacks@[s] {
                                                            lemma_raised_push(*state, old_self, old_played, order, s, hypo_stacks@[s] as int);
                                                        }
                                                    }
                                                }
                                                assert forall|j: int| 0 <= j < unknown_plays@.len() implies played@.contains(#[trigger] unknown_plays@[j]) by {
                                                    crate::basics::lemma_push_contains(old_played, order, unknown_plays@[j]);
                                                }
                                            }
                                        }
                                    },
                                }
                            }
                        }
                    }
                    proof {
                        if first && played@.len() == 0 {
                            assert forall|j: int| 0 <= j < unplayable@.len() implies held_before(*state, p as int, i + 1, #[trigger] unplayable@[j] as int) by {
                                if j < unpl_s.len() {
                                    assert(unplayable@[j] == unpl_s[j]);
                                    assert(held_before(*state, p as int, i as int, unpl_s[j] as int));
                                    let (p2, i2) = choose|p2: int, i2: int| 0 <= p2 < state.hands@.len() && 0 <= i2 < state.hands@[p2]@.len()
                                        && (p2 < p || (p2 == p && i2 < i)) && #[trigger] state.hands@[p2]@[i2] == unpl_s[j] as int;
                                    assert(state.hands@[p2]@[i2] == unplayable@[j] as int);
                                } else {
                                    assert(unplayable@[j] == order);
                                    assert(state.hands@[p as int]@[i as int] == order as int);
                                }
                            }
                        }
                    }
                    i += 1;
                }
                p += 1;
            }
            proof {
                lemma_distinct_orders(played@, state.deck@.len());
                checked = true;
            }
        }
        self.hypo_stacks = hypo_stacks;
        self.unknown_plays = unknown_plays;
        self.hypo_plays = played;
    }
}

/// Whether the slice holds the value.
fn contains_usize_slice(v: &[usize], x: usize) -> (r: bool)
    ensures
        r == v@.contains(x),
{
    let mut i: usize = 0;
    while i < v.len()
        invariant
            i <= v@.len(),
            forall|j: int| 0 <= j < i ==> v@[j] != x,
        decreases v@.len() - i,
    {
        if v[i] == x {
            return true;
        }
        i += 1;
    }
    false
}

} // verus!
