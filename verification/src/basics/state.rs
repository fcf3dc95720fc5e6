use vstd::prelude::*;

use crate::basics::action::Action;
use crate::basics::card::{Card, Identifiable, Identity, IdOptions, Thought, lemma_of_ord_valid};
use crate::basics::clue::{BaseClue, Clue, ClueKind};
use crate::basics::identity_set::{IdentitySet, lemma_sum_bits_range};
use crate::basics::variant::{
    DARK, Variant, all_id_set, all_ids_spec, card_touched, card_touched_spec, is_match, pattern_matches,
    touch_defined,
};
use crate::text::{decimal, usize_to_string};

verus! {

/// How many copies of each rank a suit has, unless it is dark.
pub open spec fn rank_count(rank: int) -> nat {
    if rank == 1 {
        3
    } else if rank == 5 {
        1
    } else {
        2
    }
}

/// How many copies of the identity a game of the variant starts with.
pub open spec fn initial_count(variant: Variant, id: Identity) -> nat {
    if pattern_matches(DARK@, variant.suit_names()[id.suit_index as int]) {
        1
    } else {
        rank_count(id.rank as int)
    }
}

/// The copies of every identity of the variant, in the suit-major order.
pub open spec fn initial_counts(variant: Variant) -> Seq<usize> {
    Seq::new(5 * variant.suits@.len(), |o: int| initial_count(variant, Identity::of_ord(o)) as usize)
}

/// The sum of a sequence of numbers.
pub open spec fn sum_of(s: Seq<usize>) -> int
    decreases s.len(),
{
    if s.len() == 0 {
        0
    } else {
        sum_of(s.drop_last()) + s.last()
    }
}

/// The first `n` players' sequences of zeros.
pub open spec fn zeros(n: nat) -> Seq<usize> {
    Seq::new(n, |i: int| 0usize)
}

/// The public state of a game.
#[derive(Debug, Clone)]
pub struct State {
    pub turn_count: usize,
    pub clue_tokens: usize,
    pub strikes: u8,
    pub hands: Vec<Vec<usize>>,
    pub deck: Vec<Card>,
    pub variant: Variant,
    pub all_ids: IdentitySet,
    pub player_names: Vec<String>,
    pub num_players: usize,
    pub our_player_index: usize,
    /// The order of the next card to draw.
    pub card_order: usize,
    pub cards_left: usize,
    pub play_stacks: Vec<usize>,
    pub discard_stacks: Vec<Vec<usize>>,
    pub max_ranks: Vec<usize>,
    pub action_list: Vec<Action>,
    pub current_player_index: usize,
    pub endgame_turns: Option<usize>,
    /// The number of copies of each identity, in the suit-major order.
    pub card_count: Vec<usize>,
}

impl State {
    /// The number of copies of each identity, in the suit-major order.
    pub open spec fn counts(&self) -> Seq<usize> {
        self.card_count@
    }

    pub open spec fn num_suits(&self) -> nat {
        self.variant.suits@.len()
    }

    /// An identity of the variant's suits.
    pub open spec fn id_ok(&self, id: Identity) -> bool {
        id.suit_index < self.num_suits() && 1 <= id.rank <= 5
    }

    /// Every order in a hand is a card of the deck.
    pub open spec fn hands_in_deck(&self) -> bool {
        forall|p: int, i: int|
            0 <= p < self.hands@.len() && 0 <= i < self.hands@[p]@.len() ==> #[trigger] self.hands@[p]@[i]
                < self.deck@.len()
    }

    /// Every known card of the deck has an identity of the variant.
    pub open spec fn deck_ids_ok(&self) -> bool {
        forall|o: int|
            0 <= o < self.deck@.len() ==> ((#[trigger] self.deck@[o]).base matches Some(id) ==> self.id_ok(
                id,
            ))
    }

    /// The stacks and counts match the variant's suits, the stacks hold ranks,
    /// there is a player, and the hands and the deck agree.
    pub open spec fn wf(&self) -> bool {
        let n = self.num_suits();
        &&& self.variant.wf()
        &&& self.play_stacks@.len() == n
        &&& self.max_ranks@.len() == n
        &&& self.discard_stacks@.len() == n
        &&& forall|s: int| 0 <= s < n ==> (#[trigger] self.discard_stacks@[s])@.len() == 5
        &&& forall|s: int| 0 <= s < n ==> #[trigger] self.play_stacks@[s] <= 5
        &&& forall|s: int| 0 <= s < n ==> #[trigger] self.max_ranks@[s] <= 5
        &&& self.counts().len() == 5 * n
        &&& forall|o: int| 0 <= o < 5 * n ==> 1 <= #[trigger] self.counts()[o] <= 3
        &&& self.num_players == self.hands@.len()
        &&& self.num_players >= 1
        &&& self.hands_in_deck()
        &&& self.hands_distinct()
        &&& self.deck_ids_ok()
    }

    /// No order is held twice.
    pub open spec fn hands_distinct(&self) -> bool {
        forall|p1: int, i1: int, p2: int, i2: int|
            0 <= p1 < self.hands@.len() && 0 <= i1 < self.hands@[p1]@.len() && 0 <= p2 < self.hands@.len() && 0
                <= i2 < self.hands@[p2]@.len() && #[trigger] self.hands@[p1]@[i1] == #[trigger] self.hands@[p2]@[i2]
                ==> p1 == p2 && i1 == i2
    }

    /// No identity has more copies played and discarded than the deck holds.
    pub open spec fn consistent(&self) -> bool {
        forall|id: Identity| #[trigger] self.id_ok(id) ==> self.base_count_spec(id) <= self.card_count_spec(id)
    }

    pub open spec fn score_spec(&self) -> int {
        sum_of(self.play_stacks@)
    }

    pub open spec fn max_score_spec(&self) -> int {
        sum_of(self.max_ranks@)
    }

    pub open spec fn card_count_spec(&self, id: Identity) -> int {
        self.counts()[id.ord()] as int
    }

    pub open spec fn is_basic_trash_spec(&self, id: Identity) -> bool {
        id.rank <= self.play_stacks@[id.suit_index as int] || id.rank > self.max_ranks@[id.suit_index as int]
    }

    pub open spec fn is_playable_spec(&self, id: Identity) -> bool {
        id.rank == self.play_stacks@[id.suit_index as int] + 1
    }

    pub open spec fn base_count_spec(&self, id: Identity) -> int {
        (if self.play_stacks@[id.suit_index as int] >= id.rank { 1int } else { 0int })
            + self.discard_stacks@[id.suit_index as int]@[id.rank - 1]
    }

    pub open spec fn is_critical_spec(&self, id: Identity) -> bool {
        !self.is_basic_trash_spec(id) && self.discard_stacks@[id.suit_index as int]@[id.rank - 1]
            == self.card_count_spec(id) - 1
    }

    pub fn new(player_names: Vec<String>, our_player_index: usize, variant: Variant) -> (r: Self)
        requires
            5 * variant.suits@.len() <= usize::BITS,
        ensures
            r.turn_count == 0,
            r.clue_tokens == 8,
            r.strikes == 0,
            r.hands@.len() == player_names@.len(),
            forall|p: int| 0 <= p < r.hands@.len() ==> (#[trigger] r.hands@[p])@.len() == 0,
            r.deck@.len() == 0,
            r.variant == variant,
            r.all_ids@ == Set::new(|o: int| 0 <= o < 5 * variant.suits@.len()),
            r.player_names == player_names,
            r.num_players == player_names@.len(),
            r.our_player_index == our_player_index,
            r.card_order == 0,
            r.counts() == initial_counts(variant),
            r.cards_left == sum_of(initial_counts(variant)),
            r.play_stacks@ == zeros(variant.suits@.len()),
            r.max_ranks@ == Seq::new(variant.suits@.len(), |i: int| 5usize),
            r.discard_stacks@.len() == variant.suits@.len(),
            forall|s: int| 0 <= s < variant.suits@.len() ==> (#[trigger] r.discard_stacks@[s])@ == zeros(5),
            r.action_list@.len() == 0,
            r.current_player_index == 0,
            r.endgame_turns is None,
            variant.wf() && player_names@.len() >= 1 ==> r.wf(),
    {
        let num_players = player_names.len();
        let num_suits = variant.suits.len();
        let mut card_count: Vec<usize> = Vec::new();
        let mut cards_left: usize = 0;
        let ghost counts = initial_counts(variant);
        let mut suit_index: usize = 0;
        while suit_index < num_suits
            invariant
                num_suits == variant.suits@.len(),
                5 * num_suits <= usize::BITS,
                suit_index <= num_suits,
                counts == initial_counts(variant),
                card_count@ == counts.take(5 * suit_index),
                cards_left == sum_of(card_count@),
                cards_left <= 3 * card_count@.len(),
            decreases num_suits - suit_index,
        {
            proof {
                assert(variant.suit_names()[suit_index as int] == variant.suits@[suit_index as int]@);
            }
            let dark = is_match(DARK, variant.suits[suit_index].as_str());
            let mut rank: usize = 1;
            while rank <= 5
                invariant
                    num_suits == variant.suits@.len(),
                    5 * num_suits <= usize::BITS,
                    suit_index < num_suits,
                    1 <= rank <= 6,
                    counts == initial_counts(variant),
                    dark == pattern_matches(DARK@, variant.suit_names()[suit_index as int]),
                    card_count@ == counts.take(5 * suit_index + rank - 1),
                    cards_left == sum_of(card_count@),
                    cards_left <= 3 * card_count@.len(),
                decreases 6 - rank,
            {
                let table: [usize; 5] = [3, 2, 2, 2, 1];
                let count = if dark { 1 } else { table[rank - 1] };
                let ghost prev = card_count@;
                cards_left += count;
                card_count.push(count);
                proof {
                    let o = 5 * suit_index + rank - 1;
                    assert(Identity::of_ord(o) == Identity { suit_index, rank }) by {
                        assert(o / 5 == suit_index) by (nonlinear_arith)
                            requires o == 5 * suit_index + rank - 1, 1 <= rank <= 5;
                        assert(o % 5 == rank - 1) by (nonlinear_arith)
                            requires o == 5 * suit_index + rank - 1, 1 <= rank <= 5;
                    }
                    assert(counts[o] == count);
                    assert(card_count@ =~= counts.take(o + 1));
                    assert(card_count@.drop_last() =~= prev);
                }
                rank += 1;
            }
            suit_index += 1;
        }
        let mut hands: Vec<Vec<usize>> = Vec::new();
        let mut p: usize = 0;
        while p < num_players
            invariant
                p <= num_players,
                hands@.len() == p,
                forall|q: int| 0 <= q < p ==> (#[trigger] hands@[q])@.len() == 0,
            decreases num_players - p,
        {
            hands.push(Vec::new());
            p += 1;
        }
        proof {
            assert(counts.take(5 * num_suits) =~= counts);
        }
        let all = all_id_set(&variant);
        let mut discard_stacks: Vec<Vec<usize>> = Vec::new();
        let mut play_stacks: Vec<usize> = Vec::new();
        let mut max_ranks: Vec<usize> = Vec::new();
        let mut s: usize = 0;
        while s < num_suits
            invariant
                s <= num_suits,
                discard_stacks@.len() == s,
                play_stacks@ == zeros(s as nat),
                max_ranks@ == Seq::new(s as nat, |i: int| 5usize),
                forall|t: int| 0 <= t < s ==> (#[trigger] discard_stacks@[t])@ == zeros(5),
            decreases num_suits - s,
        {
            discard_stacks.push(vec![0, 0, 0, 0, 0]);
            play_stacks.push(0);
            max_ranks.push(5);
            proof {
                assert(play_stacks@ =~= zeros((s + 1) as nat));
                assert(max_ranks@ =~= Seq::new((s + 1) as nat, |i: int| 5usize));
                assert(discard_stacks@[s as int]@ =~= zeros(5));
            }
            s += 1;
        }
        State {
            turn_count: 0,
            clue_tokens: 8,
            strikes: 0,
            hands,
            deck: Vec::new(),
            all_ids: all,
            variant,
            player_names,
            num_players,
            our_player_index,
            card_order: 0,
            cards_left,
            card_count,
            play_stacks,
            discard_stacks,
            max_ranks,
            action_list: Vec::new(),
            current_player_index: 0,
            endgame_turns: None,
        }
    }

    pub fn ended(&self) -> (r: bool)
        ensures
            r == (self.strikes == 3 || self.endgame_turns == Some(0usize)),
    {
        self.strikes == 3 || match self.endgame_turns {
            Some(turns) => turns == 0,
            None => false,
        }
    }

    pub fn hand_size(&self) -> (r: usize)
        requires
            self.num_players <= 6,
        ensures
            r == (if self.num_players < 2 { 0int } else if self.num_players < 4 { 5int } else if self.num_players < 6 { 4int } else { 3int }),
    {
        let sizes: [usize; 7] = [0, 0, 5, 5, 4, 4, 3];
        sizes[self.num_players]
    }

    pub fn score(&self) -> (r: usize)
        requires
            self.wf(),
        ensures
            r == self.score_spec(),
            r <= 5 * self.num_suits(),
    {
        sum_stacks(&self.play_stacks)
    }

    pub fn max_score(&self) -> (r: usize)
        requires
            self.wf(),
        ensures
            r == self.max_score_spec(),
            r <= 5 * self.num_suits(),
    {
        sum_stacks(&self.max_ranks)
    }

    pub fn rem_score(&self) -> (r: usize)
        requires
            self.wf(),
            self.score_spec() <= self.max_score_spec(),
        ensures
            r == self.max_score_spec() - self.score_spec(),
    {
        self.max_score() - self.score()
    }

    pub fn pace(&self) -> (r: i32)
        requires
            self.wf(),
            self.cards_left + self.num_players + 5 * self.num_suits() <= i32::MAX,
        ensures
            r == self.score_spec() + self.cards_left + self.num_players - self.max_score_spec(),
    {
        self.score() as i32 + self.cards_left as i32 + self.num_players as i32 - self.max_score() as i32
    }

    pub fn in_endgame(&self) -> (r: bool)
        requires
            self.wf(),
            self.cards_left + self.num_players + 5 * self.num_suits() <= i32::MAX,
        ensures
            r == (self.score_spec() + self.cards_left + self.num_players - self.max_score_spec()
                < self.num_players),
    {
        self.pace() < self.num_players as i32
    }

    pub fn last_player_index(&self, player_index: usize) -> (r: usize)
        requires
            self.num_players >= 1,
            player_index + self.num_players <= usize::MAX,
        ensures
            r == (player_index + self.num_players - 1) % (self.num_players as int),
    {
        (player_index + self.num_players - 1) % self.num_players
    }

    pub fn next_player_index(&self, player_index: usize) -> (r: usize)
        requires
            self.num_players >= 1,
            player_index < usize::MAX,
        ensures
            r == (player_index + 1) % (self.num_players as int),
    {
        (player_index + 1) % self.num_players
    }

    /// Whether the identity was played already or can never be played.
    pub fn is_basic_trash(&self, id: Identity) -> (r: bool)
        requires
            id.suit_index < self.play_stacks@.len(),
            id.suit_index < self.max_ranks@.len(),
        ensures
            r == self.is_basic_trash_spec(id),
    {
        id.rank <= self.play_stacks[id.suit_index] || id.rank > self.max_ranks[id.suit_index]
    }

    /// How far the identity is from playable; 0 means that it is playable.
    pub fn playable_away(&self, id: Identity) -> (r: i32)
        requires
            id.suit_index < self.play_stacks@.len(),
            id.rank <= i32::MAX,
            self.play_stacks@[id.suit_index as int] < i32::MAX,
        ensures
            r == id.rank - (self.play_stacks@[id.suit_index as int] + 1),
    {
        id.rank as i32 - (self.play_stacks[id.suit_index] + 1) as i32
    }

    pub fn is_playable(&self, id: Identity) -> (r: bool)
        requires
            id.suit_index < self.play_stacks@.len(),
            id.rank <= i32::MAX,
            self.play_stacks@[id.suit_index as int] < i32::MAX,
        ensures
            r == self.is_playable_spec(id),
    {
        self.playable_away(id) == 0
    }

    pub fn is_critical(&self, id: Identity) -> (r: bool)
        requires
            self.wf(),
            self.id_ok(id),
        ensures
            r == self.is_critical_spec(id),
    {
        !self.is_basic_trash(id) && self.discard_stacks[id.suit_index][id.rank - 1] == (self.card_count(id) - 1)
    }

    pub fn our_hand(&self) -> (r: &Vec<usize>)
        requires
            self.our_player_index < self.hands@.len(),
        ensures
            *r == self.hands@[self.our_player_index as int],
    {
        &self.hands[self.our_player_index]
    }

    /// The number of cards matching an identity on the play and discard stacks.
    pub fn base_count(&self, id: Identity) -> (r: usize)
        requires
            self.wf(),
            self.id_ok(id),
            self.discard_stacks@[id.suit_index as int]@[id.rank - 1] < usize::MAX,
        ensures
            r == self.base_count_spec(id),
    {
        (if self.play_stacks[id.suit_index] >= id.rank { 1 } else { 0 }) + self.discard_stacks[id.suit_index][id.rank - 1]
    }

    pub fn card_count(&self, id: Identity) -> (r: usize)
        requires
            self.wf(),
            self.id_ok(id),
        ensures
            r == self.card_count_spec(id),
            1 <= r <= 3,
    {
        proof {
            assert(id.ord() < 5 * self.num_suits()) by (nonlinear_arith)
                requires id.suit_index < self.num_suits(), 1 <= id.rank <= 5, id.ord() == id.suit_index * 5 + id.rank - 1;
        }
        self.card_count[id.to_ord()]
    }

    pub fn our_hand_mut(&mut self) -> (r: &mut Vec<usize>)
        requires
            old(self).our_player_index < old(self).hands@.len(),
        ensures
            *r == old(self).hands@[old(self).our_player_index as int],
            final(self).hands@ == old(self).hands@.update(old(self).our_player_index as int, *final(r)),
            final(self).deck == old(self).deck,
            final(self).our_player_index == old(self).our_player_index,
    {
        &mut self.hands[self.our_player_index]
    }

    /// A colour clue names a colourable suit.
    pub open spec fn clue_ok(&self, clue: BaseClue) -> bool {
        &&& self.variant.colourable_suits is Some
        &&& clue.kind == ClueKind::COLOUR ==> clue.value < self.variant.colourable_suits.unwrap()@.len()
    }

    /// Whether the clue touches the card of the order.
    pub open spec fn touched_by(&self, order: int, clue: BaseClue) -> bool {
        card_touched_spec(self.deck@[order].base, self.variant, clue)
    }

    /// The orders whose cards the clue touches.
    pub fn clue_touched(&self, orders: &[usize], clue: &BaseClue) -> (r: Vec<usize>)
        requires
            self.deck_ids_ok(),
            self.clue_ok(*clue),
            forall|i: int| 0 <= i < orders@.len() ==> #[trigger] orders@[i] < self.deck@.len(),
        ensures
            r@ == orders@.filter(|o: usize| self.touched_by(o as int, *clue)),
            forall|o: usize| r@.contains(o) <==> orders@.contains(o) && self.deck@[o as int].base is Some
                && crate::basics::variant::id_touched_spec(self.deck@[o as int].base.unwrap(), self.variant, *clue),
            r@.len() <= orders@.len(),
    {
        let ghost p = |o: usize| self.touched_by(o as int, *clue);
        let mut r: Vec<usize> = Vec::new();
        let mut i: usize = 0;
        while i < orders.len()
            invariant
                i <= orders@.len(),
                self.deck_ids_ok(),
                self.clue_ok(*clue),
                forall|i: int| 0 <= i < orders@.len() ==> #[trigger] orders@[i] < self.deck@.len(),
                p == (|o: usize| self.touched_by(o as int, *clue)),
                r@ == orders@.take(i as int).filter(p),
            decreases orders@.len() - i,
        {
            let order = orders[i];
            proof {
                assert(orders@.take(i + 1) =~= orders@.take(i as int).push(order));
                orders@.take(i as int).lemma_filter_push(order, p);
                assert(self.deck@[order as int].identity_spec(IdOptions { infer: false, symmetric: false }) == self.deck@[order as int].base);
            }
            if card_touched(&self.deck[order], &self.variant, clue) {
                r.push(order);
            }
            i += 1;
        }
        proof {
            assert(orders@.take(orders@.len() as int) =~= orders@);
            orders@.lemma_filter_len(p);
            assert forall|o: usize| r@.contains(o) <==> orders@.contains(o) && self.deck@[o as int].base is Some
                && crate::basics::variant::id_touched_spec(self.deck@[o as int].base.unwrap(), self.variant, *clue) by {
                if r@.contains(o) {
                    orders@.lemma_filter_contains_rev(p, o);
                    let k = choose|k: int| 0 <= k < r@.len() && r@[k] == o;
                    orders@.lemma_filter_pred(p, k);
                }
                if orders@.contains(o) && p(o) {
                    let k = choose|k: int| 0 <= k < orders@.len() && orders@[k] == o;
                    orders@.lemma_filter_contains(p, k);
                }
            }
        }
        r
    }

    /// Whether the clue touches a card of the player's hand.
    pub open spec fn clue_touches_hand(&self, target: int, clue: Clue) -> bool {
        exists|i: int|
            0 <= i < self.hands@[target]@.len() && self.touched_by(
                #[trigger] self.hands@[target]@[i] as int,
                BaseClue { kind: clue.kind, value: clue.value },
            )
    }

    /// Every rank clue and then every colour clue to the target.
    pub open spec fn clue_candidates(&self, target: usize) -> Seq<Clue> {
        Seq::new(5, |i: int| Clue { kind: ClueKind::RANK, value: (i + 1) as usize, target })
            + Seq::new(
            self.variant.colourable_suits.unwrap()@.len(),
            |i: int| Clue { kind: ClueKind::COLOUR, value: i as usize, target },
        )
    }

    /// The clues to the target that touch at least one card.
    pub fn all_valid_clues(&self, target: usize) -> (r: Vec<Clue>)
        requires
            self.wf(),
            target < self.hands@.len(),
        ensures
            r@ == self.clue_candidates(target).filter(|c: Clue| self.clue_touches_hand(target as int, c)),
    {
        let ghost p = |c: Clue| self.clue_touches_hand(target as int, c);
        let ghost cands = self.clue_candidates(target);
        let colourable = match &self.variant.colourable_suits {
            Some(c) => c,
            None => { return Vec::new(); },
        };
        let ncol = colourable.len();
        let mut clues: Vec<Clue> = Vec::new();
        let mut k: usize = 0;
        while k < 5 + ncol
            invariant
                self.wf(),
                target < self.hands@.len(),
                ncol == self.variant.colourable_suits.unwrap()@.len(),
                k <= 5 + ncol,
                p == (|c: Clue| self.clue_touches_hand(target as int, c)),
                cands == self.clue_candidates(target),
                cands.len() == 5 + ncol,
                clues@ == cands.take(k as int).filter(p),
            decreases 5 + ncol - k,
        {
            let clue = if k < 5 {
                Clue { kind: ClueKind::RANK, value: k + 1, target }
            } else {
                Clue { kind: ClueKind::COLOUR, value: k - 5, target }
            };
            let base = BaseClue { kind: clue.kind, value: clue.value };
            proof {
                assert(cands[k as int] == clue);
                assert(cands.take(k + 1) =~= cands.take(k as int).push(clue));
                cands.take(k as int).lemma_filter_push(clue, p);
                let hand = self.hands@[target as int];
                assert forall|i: int| 0 <= i < hand@.len() implies #[trigger] hand@[i] < self.deck@.len() by {
                    assert(self.hands@[target as int]@[i] < self.deck@.len());
                }
            }
            let touched = self.clue_touched(self.hands[target].as_slice(), &base);
            proof {
                let hand = self.hands@[target as int]@;
                let q = |o: usize| self.touched_by(o as int, base);
                crate::text::lemma_filter_nonempty(hand, q);
                if touched@.len() > 0 {
                    let i = choose|i: int| 0 <= i < hand.len() && q(hand[i]);
                    assert(self.touched_by(self.hands@[target as int]@[i] as int, base));
                }
            }
            if touched.len() > 0 {
                clues.push(clue);
            }
            k += 1;
        }
        proof {
            assert(cands.take((5 + ncol) as int) =~= cands);
        }
        clues
    }

    pub open spec fn has_consistent_inferences_spec(&self, thought: Thought) -> bool {
        crate::basics::card::is_single(thought.possible) || match self.deck@[thought.order as int].base {
            None => true,
            Some(id) => thought.inferred@.contains(id.ord()),
        }
    }

    /// Whether the card's actual identity, where visible, is among the inferences.
    pub fn has_consistent_inferences(&self, thought: &Thought) -> (r: bool)
        requires
            self.wf(),
            thought.order < self.deck@.len(),
        ensures
            r == self.has_consistent_inferences_spec(*thought),
    {
        if thought.possible.len() == 1 {
            return true;
        }
        match self.deck[thought.order].id() {
            None => true,
            Some(id) => {
                proof {
                    lemma_id_ok_valid(*self, id);
                }
                thought.inferred.contains(id)
            },
        }
    }

    /// The copies of the identities not yet played or discarded.
    pub open spec fn remaining_spec(&self, ids: Seq<Identity>) -> int
        decreases ids.len(),
    {
        if ids.len() == 0 {
            0
        } else {
            self.remaining_spec(ids.drop_last()) + self.card_count_spec(ids.last()) - self.base_count_spec(
                ids.last(),
            )
        }
    }

    pub fn remaining_multiplicity(&self, ids: &[Identity]) -> (r: usize)
        requires
            self.wf(),
            ids@.len() <= usize::BITS,
            forall|j: int| 0 <= j < ids@.len() ==> self.id_ok(#[trigger] ids@[j]),
            forall|j: int| 0 <= j < ids@.len() ==> self.base_count_spec(#[trigger] ids@[j]) <= self.card_count_spec(ids@[j]),
        ensures
            r == self.remaining_spec(ids@),
    {
        let mut total: usize = 0;
        let mut i: usize = 0;
        while i < ids.len()
            invariant
                self.wf(),
                i <= ids@.len(),
                ids@.len() <= usize::BITS,
                forall|j: int| 0 <= j < ids@.len() ==> self.id_ok(#[trigger] ids@[j]),
                forall|j: int| 0 <= j < ids@.len() ==> self.base_count_spec(#[trigger] ids@[j]) <= self.card_count_spec(ids@[j]),
                total == self.remaining_spec(ids@.take(i as int)),
                total <= 3 * i,
            decreases ids@.len() - i,
        {
            let id = ids[i];
            proof {
                assert(ids@.take(i + 1).drop_last() =~= ids@.take(i as int));
                assert(ids@.take(i + 1).last() == id);
            }
            let count = self.card_count(id);
            let base = self.base_count(id);
            total = total + (count - base);
            i += 1;
        }
        proof {
            assert(ids@.take(ids@.len() as int) =~= ids@);
        }
        total
    }

    /// The identity that a short form such as "r3" names.
    pub fn expand_short(&self, short: &str) -> (r: Identity)
        requires
            self.variant.short_forms is Some,
            short@.len() >= 2,
            (short@[0] as u32) < 128,
            '0' <= short@[1] <= '9',
            exists|s: int| 0 <= s < self.variant.short_forms.unwrap()@.len() && #[trigger] self.variant.short_forms.unwrap()@[s]@ == seq![short@[0]],
        ensures
            r.rank == short@[1] as u32 - '0' as u32,
            r.suit_index < self.variant.short_forms.unwrap()@.len(),
            self.variant.short_forms.unwrap()@[r.suit_index as int]@ == seq![short@[0]],
            forall|s: int| 0 <= s < r.suit_index ==> #[trigger] self.variant.short_forms.unwrap()@[s]@ != seq![short@[0]],
    {
        let forms = match &self.variant.short_forms {
            Some(f) => f,
            None => { return Identity { suit_index: 0, rank: 0 }; },
        };
        let first = String::from_str(short.substring_char(0, 1));
        assert(first@ =~= seq![short@[0]]);
        let mut s: usize = 0;
        while s < forms.len()
            invariant
                forms@ == self.variant.short_forms.unwrap()@,
                s <= forms@.len(),
                first@ == seq![short@[0]],
                short@.len() >= 2,
                '0' <= short@[1] <= '9',
                forall|t: int| 0 <= t < s ==> #[trigger] forms@[t]@ != first@,
                exists|t: int| 0 <= t < forms@.len() && #[trigger] forms@[t]@ == first@,
            decreases forms@.len() - s,
        {
            if forms[s] == first {
                let digit = short.get_char(1);
                let rank = (digit as u32 - '0' as u32) as usize;
                return Identity { suit_index: s, rank };
            }
            s += 1;
        }
        Identity { suit_index: 0, rank: 0 }
    }

    /// The short form of the identity, such as "r3".
    pub open spec fn log_id_spec(&self, id: Identity) -> Seq<char> {
        self.variant.short_forms.unwrap()@[id.suit_index as int]@ + decimal(id.rank as nat)
    }

    pub fn log_id(&self, id: Identity) -> (r: String)
        requires
            self.variant.short_forms is Some,
            id.suit_index < self.variant.short_forms.unwrap()@.len(),
        ensures
            r@ == self.log_id_spec(id),
    {
        let forms = match &self.variant.short_forms {
            Some(f) => f,
            None => { return String::new(); },
        };
        let mut s = forms[id.suit_index].clone();
        let rank = usize_to_string(id.rank);
        s.append(rank.as_str());
        s
    }

    pub open spec fn log_oid_spec(&self, id: Option<Identity>) -> Seq<char> {
        match id {
            Some(id) => self.log_id_spec(id),
            None => seq!['x', 'x'],
        }
    }

    pub fn log_oid(&self, id: &Option<Identity>) -> (r: String)
        requires
            self.variant.short_forms is Some,
            id matches Some(i) ==> i.suit_index < self.variant.short_forms.unwrap()@.len(),
        ensures
            r@ == self.log_oid_spec(*id),
    {
        match id {
            Some(id) => self.log_id(*id),
            None => {
                let mut s = String::new();
                s.append("x");
                s.append("x");
                proof {
                    reveal_strlit("x");
                }
                s
            },
        }
    }

    pub fn log_iden<T: Identifiable>(&self, iden: &T) -> (r: String)
        requires
            self.variant.short_forms is Some,
            iden.identity_spec(IdOptions { infer: false, symmetric: false }) matches Some(i)
                ==> i.suit_index < self.variant.short_forms.unwrap()@.len(),
        ensures
            r@ == self.log_oid_spec(iden.identity_spec(IdOptions { infer: false, symmetric: false })),
    {
        self.log_oid(&iden.id())
    }

    /// The player holding the card, if any.
    pub fn holder_of(&self, order: usize) -> (r: Option<usize>)
        ensures
            match r {
                Some(p) => p < self.hands@.len() && self.hands@[p as int]@.contains(order) && forall|q: int|
                    0 <= q < p ==> !(#[trigger] self.hands@[q])@.contains(order),
                None => forall|q: int| 0 <= q < self.hands@.len() ==> !(#[trigger] self.hands@[q])@.contains(order),
            },
    {
        let mut p: usize = 0;
        while p < self.hands.len()
            invariant
                p <= self.hands@.len(),
                forall|q: int| 0 <= q < p ==> !(#[trigger] self.hands@[q])@.contains(order),
            decreases self.hands@.len() - p,
        {
            if vec_contains(&self.hands[p], order) {
                return Some(p);
            }
            p += 1;
        }
        None
    }

    /// Whether some suit's name matches the pattern.
    pub fn includes_variant(&self, pattern: &str) -> (r: bool)
        ensures
            r == exists|s: int| 0 <= s < self.variant.suits@.len() && pattern_matches(pattern@, #[trigger] self.variant.suits@[s]@),
    {
        let mut s: usize = 0;
        while s < self.variant.suits.len()
            invariant
                s <= self.variant.suits@.len(),
                forall|t: int| 0 <= t < s ==> !pattern_matches(pattern@, #[trigger] self.variant.suits@[t]@),
            decreases self.variant.suits@.len() - s,
        {
            if is_match(pattern, self.variant.suits[s].as_str()) {
                return true;
            }
            s += 1;
        }
        false
    }
}

/// The sum of stacks of ranks.
pub(crate) fn sum_stacks(stacks: &Vec<usize>) -> (r: usize)
    requires
        forall|s: int| 0 <= s < stacks@.len() ==> stacks@[s] <= 5,
        5 * stacks@.len() <= usize::BITS,
    ensures
        r == sum_of(stacks@),
        r <= 5 * stacks@.len(),
{
    let mut total: usize = 0;
    let mut i: usize = 0;
    while i < stacks.len()
        invariant
            i <= stacks@.len(),
            forall|s: int| 0 <= s < stacks@.len() ==> stacks@[s] <= 5,
            5 * stacks@.len() <= usize::BITS,
            total == sum_of(stacks@.take(i as int)),
            total <= 5 * i,
        decreases stacks@.len() - i,
    {
        proof {
            assert(stacks@.take(i + 1).drop_last() =~= stacks@.take(i as int));
        }
        total += stacks[i];
        i += 1;
    }
    proof {
        assert(stacks@.take(stacks@.len() as int) =~= stacks@);
    }
    total
}

/// Whether the vector holds the value.
pub fn vec_contains(v: &Vec<usize>, x: usize) -> (r: bool)
    ensures
        r == v@.contains(x),
{
    let mut i: usize = 0;
    while i < v.len()
        invariant
            i <= v@.len(),
            forall|j: int| 0 <= j < i ==> v@[j] != x,
        decreases v@.len() - i,
    {
        if v[i] == x {
            return true;
        }
        i += 1;
    }
    false
}


/// Consistency depends only on the suits, the stacks, the discards and the counts.
pub proof fn lemma_consistent_same(a: State, b: State)
    requires
        a.consistent(),
        a.variant.suits@.len() == b.variant.suits@.len(),
        a.play_stacks@ == b.play_stacks@,
        a.discard_stacks@ == b.discard_stacks@,
        a.card_count@ == b.card_count@,
    ensures
        b.consistent(),
{
    assert forall|id: Identity| #[trigger] b.id_ok(id) implies b.base_count_spec(id) <= b.card_count_spec(id) by {
        assert(a.id_ok(id));
        assert(a.discard_stacks@[id.suit_index as int] == b.discard_stacks@[id.suit_index as int]);
    }
}

/// An identity of a state's variant fits a bit of a machine word.
pub proof fn lemma_id_ok_valid(state: State, id: Identity)
    requires
        state.id_ok(id),
        5 * state.num_suits() <= usize::BITS,
    ensures
        id.valid(),
        id.ord() < 5 * state.num_suits(),
{
    assert(id.ord() < 5 * state.num_suits()) by (nonlinear_arith)
        requires id.suit_index < state.num_suits(), 1 <= id.rank <= 5, id.ord() == id.suit_index * 5 + id.rank - 1;
}

/// Turn order: the player after the one before a player, and the player before the one
/// after, are that player.
pub proof fn lemma_turn_order_inverse(num_players: int, player_index: int)
    requires
        num_players >= 1,
        0 <= player_index < num_players,
    ensures
        (((player_index + 1) % num_players) + num_players - 1) % num_players == player_index,
        (((player_index + num_players - 1) % num_players) + 1) % num_players == player_index,
{
    let n = num_players;
    let p = player_index;
    if p + 1 < n {
        vstd::arithmetic::div_mod::lemma_small_mod((p + 1) as nat, n as nat);
        vstd::arithmetic::div_mod::lemma_mod_add_multiples_vanish(p, n);
        vstd::arithmetic::div_mod::lemma_small_mod(p as nat, n as nat);
    } else {
        vstd::arithmetic::div_mod::lemma_mod_self_0(n);
        vstd::arithmetic::div_mod::lemma_small_mod((n - 1) as nat, n as nat);
    }
    if p >= 1 {
        vstd::arithmetic::div_mod::lemma_mod_add_multiples_vanish(p - 1, n);
        vstd::arithmetic::div_mod::lemma_small_mod((p - 1) as nat, n as nat);
        vstd::arithmetic::div_mod::lemma_small_mod(p as nat, n as nat);
    } else {
        vstd::arithmetic::div_mod::lemma_small_mod((n - 1) as nat, n as nat);
        vstd::arithmetic::div_mod::lemma_mod_self_0(n);
    }
}

/// A card is critical exactly when it can still be played and only one copy of it is
/// left out of the discard pile: every other copy is discarded.
pub proof fn law_critical(state: State, id: Identity)
    ensures
        state.is_critical_spec(id) <==> (!state.is_basic_trash_spec(id)
            && state.card_count_spec(id) - state.discard_stacks@[id.suit_index as int]@[id.rank - 1] == 1),
{
}

/// A critical card is never trash, and a card still useful with all but one copy
/// discarded is critical whatever its number of copies.
pub proof fn law_critical_last_copy(state: State, id: Identity, copies: int)
    requires
        copies == state.card_count_spec(id),
        !state.is_basic_trash_spec(id),
        state.discard_stacks@[id.suit_index as int]@[id.rank - 1] + 1 == copies,
    ensures
        state.is_critical_spec(id),
{
}

/// A useful card with two or more copies out of the discard pile is not critical.
pub proof fn law_not_critical_with_spares(state: State, id: Identity)
    requires
        state.card_count_spec(id) - state.discard_stacks@[id.suit_index as int]@[id.rank - 1] >= 2,
    ensures
        !state.is_critical_spec(id),
{
}

/// A card is trash from the start of the reasoning exactly when its stack already holds
/// its rank, or the stack can no longer reach it.
pub proof fn law_basic_trash(state: State, id: Identity)
    ensures
        state.is_basic_trash_spec(id) <==> (state.play_stacks@[id.suit_index as int] >= id.rank
            || state.max_ranks@[id.suit_index as int] < id.rank),
{
}

/// A card is playable exactly when it is the next rank on its stack; a playable card the
/// stack can still reach is not trash.
pub proof fn law_playable(state: State, id: Identity)
    ensures
        state.is_playable_spec(id) <==> state.play_stacks@[id.suit_index as int] + 1 == id.rank,
        state.is_playable_spec(id) && id.rank <= state.max_ranks@[id.suit_index as int] ==> !state.is_basic_trash_spec(id),
        state.is_playable_spec(id) ==> state.play_stacks@[id.suit_index as int] < id.rank,
{
}

/// Copies of each card at the start: one in a dark suit; otherwise three ones, two of
/// ranks two to four, one five.
pub proof fn law_initial_count(variant: Variant, id: Identity)
    ensures
        pattern_matches(DARK@, variant.suit_names()[id.suit_index as int]) ==> initial_count(variant, id) == 1,
        !pattern_matches(DARK@, variant.suit_names()[id.suit_index as int]) ==> {
            &&& id.rank == 1 ==> initial_count(variant, id) == 3
            &&& 2 <= id.rank <= 4 ==> initial_count(variant, id) == 2
            &&& id.rank == 5 ==> initial_count(variant, id) == 1
        },
{
}

/// A new game counts the copies of every card of the variant as the variant starts with.
pub proof fn law_new_counts(state: State, variant: Variant, id: Identity)
    requires
        state.counts() == initial_counts(variant),
        state.variant == variant,
        id.suit_index < variant.suits@.len(),
        1 <= id.rank <= 5,
    ensures
        state.card_count_spec(id) == initial_count(variant, id),
{
    assert(0 <= id.ord() < 5 * variant.suits@.len()) by (nonlinear_arith)
        requires id.suit_index < variant.suits@.len(), 1 <= id.rank <= 5, id.ord() == id.suit_index * 5 + id.rank - 1;
    crate::basics::card::lemma_ord_roundtrip(id);
}

/// A clue touches no card whose identity is unknown, and a known card exactly as its
/// identity is touched; the cards a clue touches are those of the given orders it
/// touches, in order.
pub proof fn law_touched_by(state: State, order: int, clue: BaseClue)
    ensures
        state.deck@[order].base is None ==> !state.touched_by(order, clue),
        state.deck@[order].base matches Some(id) ==> state.touched_by(order, clue) == crate::basics::variant::id_touched_spec(id, state.variant, clue),
{
}

/// In a game counting copies as its variant starts with, a useful card of rank two to
/// four of a suit that is not dark, with one of its two copies discarded, is critical;
/// with none discarded it is not.
pub proof fn law_critical_two_copies(state: State, id: Identity)
    requires
        state.counts() == initial_counts(state.variant),
        id.suit_index < state.variant.suits@.len(),
        2 <= id.rank <= 4,
        !pattern_matches(DARK@, state.variant.suit_names()[id.suit_index as int]),
        !state.is_basic_trash_spec(id),
    ensures
        state.discard_stacks@[id.suit_index as int]@[id.rank - 1] == 1 ==> state.is_critical_spec(id),
        state.discard_stacks@[id.suit_index as int]@[id.rank - 1] == 0 ==> !state.is_critical_spec(id),
{
    law_new_counts(state, state.variant, id);
    law_initial_count(state.variant, id);
}

} // verus!
