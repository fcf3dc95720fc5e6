use vstd::prelude::*;

use crate::basics::card::{Identity, IdOptions, Identifiable, Thought, single_of, lemma_of_ord_valid, lemma_ord_roundtrip};
use crate::basics::identity_set::{IdentitySet, lemma_bits_finite};
use crate::basics::player::{
    Link, link_ok, link_orders,
    Player, in_range, lemma_identity_ok, lemma_in_range_ids, lemma_poss_total_update, poss_total, thought_ok,
};
use crate::basics::game::frame::Frame;
use crate::basics::state::{State, lemma_id_ok_valid, vec_contains};
use crate::basics::variant::all_id_set;
use crate::basics::identity_set::lemma_sum_bits_range;

verus! {

/// A card known to have an identity, and the player who does not know it if any.
#[derive(Debug, Clone, Copy)]
struct MatchEntry {
    order: usize,
    unknown_to: Option<usize>,
}

/// A card held by a player.
#[derive(Debug, Clone, Copy)]
struct IdEntry {
    order: usize,
    player_index: usize,
}

/// One list of known cards per identity; each list names a card at most once.
spec fn certain_ok(cm: Seq<Vec<MatchEntry>>, n: nat, len: nat) -> bool {
    &&& cm.len() == 5 * n
    &&& forall|k: int, j: int|
        0 <= k < cm.len() && 0 <= j < cm[k]@.len() ==> (#[trigger] cm[k]@[j]).order < len
    &&& forall|k: int, j1: int, j2: int|
        0 <= k < cm.len() && 0 <= j1 < cm[k]@.len() && 0 <= j2 < cm[k]@.len() && j1 != j2 ==> (
        #[trigger] cm[k]@[j1]).order != (#[trigger] cm[k]@[j2]).order
}

spec fn entries_ok(c: Seq<IdEntry>, len: nat, np: nat) -> bool {
    forall|i: int| 0 <= i < c.len() ==> (#[trigger] c[i]).order < len && c[i].player_index < np
}

spec fn orders_ok(r: Seq<usize>, len: nat) -> bool {
    forall|i: int| 0 <= i < r.len() ==> #[trigger] r[i] < len
}

/// Each thought's possibilities shrank, and its inferences took no identity
/// that was neither possible nor inferred before.
pub open spec fn shrinks(a: Seq<Thought>, b: Seq<Thought>) -> bool {
    &&& a.len() == b.len()
    &&& forall|o: int|
        0 <= o < a.len() ==> {
            &&& (#[trigger] b[o]).possible@.subset_of(a[o].possible@)
            &&& b[o].inferred@.subset_of(a[o].inferred@.union(a[o].possible@))
            &&& b[o].order == a[o].order
            &&& b[o].base == a[o].base
            &&& b[o].info_lock == a[o].info_lock
            &&& a[o].reset ==> b[o].reset
        }
}

/// Each listed order is a card of the deck whose inferences were reset.
pub open spec fn resets_ok(r: Seq<usize>, ts: Seq<Thought>) -> bool {
    forall|i: int| 0 <= i < r.len() ==> #[trigger] r[i] < ts.len() && ts[r[i] as int].reset
}

/// Shrinking twice is shrinking.
pub proof fn lemma_shrinks_trans(a: Seq<Thought>, b: Seq<Thought>, c: Seq<Thought>)
    requires
        shrinks(a, b),
        shrinks(b, c),
    ensures
        shrinks(a, c),
{
    assert forall|o: int| 0 <= o < a.len() implies (#[trigger] c[o]).possible@.subset_of(a[o].possible@)
        && c[o].inferred@.subset_of(a[o].inferred@.union(a[o].possible@)) by {
        assert(b[o].possible@.subset_of(a[o].possible@));
        assert(c[o].possible@.subset_of(b[o].possible@));
    }
}

/// A list of distinct cards of a deck of `len` cards has at most `len` entries.
proof fn lemma_certain_len(cm: Seq<Vec<MatchEntry>>, n: nat, len: nat, k: int)
    requires
        certain_ok(cm, n, len),
        0 <= k < cm.len(),
    ensures
        cm[k]@.len() <= len,
{
    let orders = cm[k]@.map_values(|e: MatchEntry| e.order as int);
    assert(orders.no_duplicates()) by {
        assert forall|a: int, b: int| 0 <= a < orders.len() && 0 <= b < orders.len() && a != b implies orders[a]
            != orders[b] by {
            assert(cm[k]@[a].order != cm[k]@[b].order);
        }
    }
    orders.unique_seq_to_set();
    vstd::set_lib::lemma_int_range(0, len as int);
    assert(orders.to_set().subset_of(vstd::set_lib::set_int_range(0, len as int))) by {
        assert forall|x: int| orders.to_set().contains(x) implies 0 <= x < len by {
            let j = choose|j: int| 0 <= j < orders.len() && orders[j] == x;
            assert(orders[j] == cm[k]@[j].order as int);
            assert(cm[k]@[j].order < len);
        }
    }
    vstd::set_lib::lemma_len_subset(orders.to_set(), vstd::set_lib::set_int_range(0, len as int));
}

/// Whether a known card blocks eliminating the identity from the card of the order,
/// held by the player.
fn certain_blocks(list: &Vec<MatchEntry>, order: usize, player_index: usize) -> (r: bool)
    ensures
        r == exists|j: int|
            0 <= j < list@.len() && ((#[trigger] list@[j]).order == order || list@[j].unknown_to == Some(
                player_index,
            )),
{
    let mut j: usize = 0;
    while j < list.len()
        invariant
            j <= list@.len(),
            forall|i: int|
                0 <= i < j ==> !((#[trigger] list@[i]).order == order || list@[i].unknown_to == Some(player_index)),
        decreases list@.len() - j,
    {
        let e = list[j];
        let unknown = match e.unknown_to {
            Some(u) => u == player_index,
            None => false,
        };
        if e.order == order || unknown {
            return true;
        }
        j += 1;
    }
    false
}

/// An entry, with the card of the order marked as known to everyone.
spec fn certain_entry(e: MatchEntry, order: usize) -> MatchEntry {
    if e.order == order { MatchEntry { order, unknown_to: None } } else { e }
}

/// The list with the card of the order marked as known to everyone: its entries made
/// so, or a new entry at the end where it had none.
spec fn marked_certain(list: Seq<MatchEntry>, order: usize) -> Seq<MatchEntry> {
    let m = list.map_values(|e: MatchEntry| certain_entry(e, order));
    if exists|i: int| 0 <= i < list.len() && (#[trigger] list[i]).order == order {
        m
    } else {
        m.push(MatchEntry { order, unknown_to: None })
    }
}

/// The list with the card of the order marked as known to everyone.
fn set_certain(list: &Vec<MatchEntry>, order: usize) -> (r: Vec<MatchEntry>)
    ensures
        r@ == marked_certain(list@, order),
        forall|j: int| 0 <= j < r@.len() ==> (#[trigger] r@[j]).order == order || exists|i: int|
            0 <= i < list@.len() && list@[i].order == r@[j].order,
        (forall|j1: int, j2: int|
            0 <= j1 < list@.len() && 0 <= j2 < list@.len() && j1 != j2 ==> (#[trigger] list@[j1]).order != (
            #[trigger] list@[j2]).order) ==> (forall|j1: int, j2: int|
            0 <= j1 < r@.len() && 0 <= j2 < r@.len() && j1 != j2 ==> (#[trigger] r@[j1]).order != (
            #[trigger] r@[j2]).order),
{
    let mut found = false;
    let mut r: Vec<MatchEntry> = Vec::new();
    let mut j: usize = 0;
    while j < list.len()
        invariant
            j <= list@.len(),
            r@.len() == j,
            forall|i: int| 0 <= i < j ==> (#[trigger] r@[i]).order == list@[i].order,
            found == exists|i: int| 0 <= i < j && (#[trigger] list@[i]).order == order,
            r@ == list@.take(j as int).map_values(|e: MatchEntry| certain_entry(e, order)),
        decreases list@.len() - j,
    {
        let e = list[j];
        if e.order == order {
            r.push(MatchEntry { order, unknown_to: None });
            found = true;
        } else {
            r.push(e);
        }
        proof {
            assert(r@ =~= list@.take(j + 1).map_values(|e: MatchEntry| certain_entry(e, order)));
        }
        j += 1;
    }
    proof {
        assert(list@.take(list@.len() as int) =~= list@);
    }
    if !found {
        r.push(MatchEntry { order, unknown_to: None });
    }
    proof {
        assert forall|j: int| 0 <= j < r@.len() implies (#[trigger] r@[j]).order == order || exists|i: int|
            0 <= i < list@.len() && list@[i].order == r@[j].order by {
            if j < list@.len() {
                assert(list@[j].order == r@[j].order);
            }
        }
    }
    r
}

/// The entries, one after the other.
fn copy_entries(v: &Vec<IdEntry>) -> (r: Vec<IdEntry>)
    ensures
        r@ == v@,
{
    let mut r: Vec<IdEntry> = Vec::new();
    let mut i: usize = 0;
    while i < v.len()
        invariant
            i <= v@.len(),
            r@ == v@.take(i as int),
        decreases v@.len() - i,
    {
        r.push(v[i]);
        proof {
            assert(r@ =~= v@.take(i + 1));
        }
        i += 1;
    }
    proof {
        assert(v@.take(v@.len() as int) =~= v@);
    }
    r
}

/// The numbers, one after the other.
fn copy_orders(v: &Vec<usize>) -> (r: Vec<usize>)
    ensures
        r@ == v@,
{
    let mut r: Vec<usize> = Vec::new();
    let mut i: usize = 0;
    while i < v.len()
        invariant
            i <= v@.len(),
            r@ == v@.take(i as int),
        decreases v@.len() - i,
    {
        r.push(v[i]);
        proof {
            assert(r@ =~= v@.take(i + 1));
        }
        i += 1;
    }
    proof {
        assert(v@.take(v@.len() as int) =~= v@);
    }
    r
}

/// Whether some entry is of the card of the order.
fn has_entry(v: &Vec<IdEntry>, order: usize) -> (r: bool)
    ensures
        r == exists|i: int| 0 <= i < v@.len() && (#[trigger] v@[i]).order == order,
{
    let mut i: usize = 0;
    while i < v.len()
        invariant
            i <= v@.len(),
            forall|j: int| 0 <= j < i ==> (#[trigger] v@[j]).order != order,
        decreases v@.len() - i,
    {
        if v[i].order == order {
            return true;
        }
        i += 1;
    }
    false
}

/// The positions of the state's identities that are already played or can never be.
pub open spec fn trash_ords(state: State) -> Set<int> {
    Set::new(|o: int| 0 <= o < 5 * state.num_suits() && state.is_basic_trash_spec(Identity::of_ord(o)))
}

/// Some hand holds the card of the order.
pub open spec fn in_hands(state: State, order: int) -> bool {
    exists|p: int, i: int|
        0 <= p < state.hands@.len() && 0 <= i < state.hands@[p]@.len() && #[trigger] state.hands@[p]@[i] == order
}

/// A card whose inferences good touch narrows: touched, not marked as trash, not started
/// over, not known to everyone, with inferences left and a possibility that is still useful.
pub open spec fn good_touch_target(frame: Frame, t: Thought) -> bool {
    &&& !frame.meta@[t.order as int].trash
    &&& !t.reset
    &&& t.identity_spec(IdOptions { infer: false, symmetric: true }) is None
    &&& t.inferred@ != Set::<int>::empty()
    &&& t.possible@.difference(trash_ords(*frame.state)) != Set::<int>::empty()
    &&& frame.is_touched_spec(t.order as int)
}

/// The inferences that starting over gives.
pub open spec fn reset_value(t: Thought) -> Set<int> {
    match t.info_lock {
        None => t.possible@,
        Some(lock) => t.possible@.intersect(lock@),
    }
}

/// `u` is `t` without the identities of `trash` among its inferences, started over
/// where none is left.
pub open spec fn good_touched(t: Thought, trash: Set<int>, u: Thought) -> bool {
    let left = t.inferred@.difference(trash);
    &&& u.order == t.order
    &&& u.base == t.base
    &&& u.possible == t.possible
    &&& u.info_lock == t.info_lock
    &&& if left == Set::<int>::empty() {
        u.reset && u.inferred@ == reset_value(t)
    } else {
        u.reset == t.reset && u.inferred@ == left
    }
}

/// Some card before position `i` of hand `p`, in hand order, is the card of the order.
pub open spec fn held_before(state: State, p: int, i: int, x: int) -> bool {
    exists|p2: int, i2: int|
        0 <= p2 < state.hands@.len() && 0 <= i2 < state.hands@[p2]@.len() && (p2 < p || (p2 == p && i2 < i))
            && #[trigger] state.hands@[p2]@[i2] == x
}

/// The list with one more entry at its end.
fn push_entry(list: &Vec<MatchEntry>, e: MatchEntry) -> (r: Vec<MatchEntry>)
    ensures
        r@ == list@.push(e),
{
    let mut r: Vec<MatchEntry> = Vec::new();
    let mut j: usize = 0;
    while j < list.len()
        invariant
            j <= list@.len(),
            r@ == list@.take(j as int),
        decreases list@.len() - j,
    {
        r.push(list[j]);
        proof {
            assert(r@ =~= list@.take(j + 1));
        }
        j += 1;
    }
    r.push(e);
    proof {
        assert(list@.take(list@.len() as int) =~= list@);
    }
    r
}

/// Whether some identity of the list is not yet trash.
fn any_useful(state: &State, ids: &Vec<Identity>) -> (r: bool)
    requires
        state.wf(),
        forall|j: int| 0 <= j < ids@.len() ==> state.id_ok(#[trigger] ids@[j]),
    ensures
        r == exists|j: int| 0 <= j < ids@.len() && !state.is_basic_trash_spec(#[trigger] ids@[j]),
{
    let mut j: usize = 0;
    while j < ids.len()
        invariant
            state.wf(),
            forall|j: int| 0 <= j < ids@.len() ==> state.id_ok(#[trigger] ids@[j]),
            j <= ids@.len(),
            forall|i: int| 0 <= i < j ==> state.is_basic_trash_spec(#[trigger] ids@[i]),
        decreases ids@.len() - j,
    {
        if !state.is_basic_trash(ids[j]) {
            return true;
        }
        j += 1;
    }
    false
}

/// A known card in the list blocks eliminating an identity from the card of the order,
/// held by the player: it is that card, or a card its holder cannot tell.
spec fn blocked_by(list: Seq<MatchEntry>, order: usize, player_index: int) -> bool {
    exists|j: int| 0 <= j < list.len() && ((#[trigger] list[j]).order == order || list[j].unknown_to == Some(player_index as usize))
}

/// The card at index `i` of hand `p` is one that eliminating an identity reaches: its
/// holder is not excluded, and no known card of the identity blocks it.
spec fn elim_spot(state: State, exclude: Seq<usize>, list: Seq<MatchEntry>, p: int, i: int) -> bool {
    !exclude.contains(p as usize) && !blocked_by(list, state.hands@[p]@[i], p)
}

/// The card at index `i` of hand `p` is reached and still had the identity possible.
spec fn elim_hit(state: State, exclude: Seq<usize>, list: Seq<MatchEntry>, thoughts: Seq<Thought>, k: int, p: int, i: int) -> bool {
    &&& elim_spot(state, exclude, list, p, i)
    &&& thoughts[state.hands@[p]@[i] as int].possible@.contains(k)
}

/// The list of known cards only grew: each card keeps its place, still unknown to the
/// same holder or now known to everyone, and more may follow.
spec fn list_grows(a: Seq<MatchEntry>, b: Seq<MatchEntry>) -> bool {
    &&& a.len() <= b.len()
    &&& forall|j: int| 0 <= j < a.len() ==> (#[trigger] b[j]).order == a[j].order
        && (b[j].unknown_to == a[j].unknown_to || b[j].unknown_to is None)
}

/// Every list of known cards only grew.
spec fn cm_grows(a: Seq<Vec<MatchEntry>>, b: Seq<Vec<MatchEntry>>) -> bool {
    &&& a.len() == b.len()
    &&& forall|k: int| 0 <= k < a.len() ==> #[trigger] list_grows(a[k]@, b[k]@)
}

proof fn lemma_cm_grows_trans(a: Seq<Vec<MatchEntry>>, b: Seq<Vec<MatchEntry>>, c: Seq<Vec<MatchEntry>>)
    requires
        cm_grows(a, b),
        cm_grows(b, c),
    ensures
        cm_grows(a, c),
{
    assert forall|k: int| 0 <= k < a.len() implies #[trigger] list_grows(a[k]@, c[k]@) by {
        assert(list_grows(a[k]@, b[k]@));
        assert(list_grows(b[k]@, c[k]@));
    }
}

proof fn lemma_marked_grows(list: Seq<MatchEntry>, order: usize)
    ensures
        list_grows(list, marked_certain(list, order)),
{
}

/// Where a list grew without getting longer, a card its old form left open to
/// elimination is still open.
proof fn lemma_spot_kept(state: State, exclude: Seq<usize>, a: Seq<MatchEntry>, b: Seq<MatchEntry>, p: int, i: int)
    requires
        list_grows(a, b),
        a.len() == b.len(),
        elim_spot(state, exclude, a, p, i),
    ensures
        elim_spot(state, exclude, b, p, i),
{
    if blocked_by(b, state.hands@[p]@[i], p) {
        let j = choose|j: int| 0 <= j < b.len() && ((#[trigger] b[j]).order == state.hands@[p]@[i] || b[j].unknown_to == Some(p as usize));
        assert(a[j].order == b[j].order);
        assert(blocked_by(a, state.hands@[p]@[i], p));
    }
}

/// The player knows for certain that the card of the order is the identity at position
/// `x`.
pub open spec fn known_as(pl: Player, o: int, x: int) -> bool {
    pl.thoughts@[o].identity_spec(IdOptions { infer: false, symmetric: pl.is_common }) == Some(Identity::of_ord(x))
}

/// The cards of the hands, hand by hand, that the player knows for certain to be the
/// identity at position `x`.
pub open spec fn known_cards(state: State, pl: Player, x: int) -> Seq<usize> {
    crate::basics::hands_flat(state.hands@).filter(|o: usize| known_as(pl, o as int, x))
}

/// The stacks and the cards the player knows for certain account for every copy of
/// the identity at position `x`.
pub open spec fn all_accounted(state: State, pl: Player, x: int) -> bool {
    state.base_count_spec(Identity::of_ord(x)) + known_cards(state, pl, x).len() == state.card_count_spec(Identity::of_ord(x))
}

/// The identity at position `x` left the player's overall sets, and every card of a hand
/// that holds no card known to be it.
pub open spec fn eliminated(state: State, before: Player, after: Player, x: int) -> bool {
    &&& !after.all_possible@.contains(x)
    &&& !after.all_inferred@.contains(x)
    &&& forall|p: int, i: int| 0 <= p < state.hands@.len() && 0 <= i < state.hands@[p]@.len()
        && (forall|j: int| 0 <= j < state.hands@[p]@.len() ==> !known_as(before, #[trigger] state.hands@[p]@[j] as int, x))
        ==> !after.thoughts@[#[trigger] state.hands@[p]@[i] as int].possible@.contains(x)
}

/// Some card that was not a hand card known to be the identity at position `x` became
/// certain of it: it is the only possibility left, if any.
pub open spec fn newly_certain(state: State, before: Player, after: Player, x: int) -> bool {
    exists|o: int| 0 <= o < after.thoughts@.len() && !known_cards(state, before, x).contains(o as usize)
        && (#[trigger] after.thoughts@[o]).possible@.subset_of(set![x])
}

/// The cards visited so far when going through the hands in order: every card of the
/// first `p` hands, then the first `i` cards of hand `p`.
spec fn visited(state: State, p: int, i: int) -> Seq<usize> {
    crate::basics::hands_flat(state.hands@.take(p)) + state.hands@[p]@.take(i)
}

proof fn lemma_filter_push<A>(s: Seq<A>, a: A, f: spec_fn(A) -> bool)
    ensures
        s.push(a).filter(f) == if f(a) { s.filter(f).push(a) } else { s.filter(f) },
{
    reveal(Seq::filter);
    assert(s.push(a).drop_last() =~= s);
}

/// Where the count is met, the identity is out of the overall sets and left every card
/// open to it.
spec fn basic_done(state: State, a: Seq<Vec<MatchEntry>>, c: Seq<Vec<MatchEntry>>, pl: Player, x: int) -> bool {
    count_met(state, a, c, x) ==> !pl.all_possible@.contains(x) && !pl.all_inferred@.contains(x)
        && spots_cleared(state, a[x]@, pl.thoughts@, x)
}

proof fn lemma_basic_done_kept(state: State, a: Seq<Vec<MatchEntry>>, c: Seq<Vec<MatchEntry>>, c2: Seq<Vec<MatchEntry>>, pl: Player, pl2: Player, x: int)
    requires
        basic_done(state, a, c, pl, x),
        cm_grows(a, c),
        cm_grows(c, c2),
        0 <= x < a.len(),
        pl2.all_possible@.subset_of(pl.all_possible@),
        pl2.all_inferred@.subset_of(pl.all_inferred@),
        shrinks(pl.thoughts@, pl2.thoughts@),
        forall|p: int, i: int| 0 <= p < state.hands@.len() && 0 <= i < state.hands@[p]@.len() ==> #[trigger] state.hands@[p]@[i] < pl.thoughts@.len(),
    ensures
        basic_done(state, a, c2, pl2, x),
{
    if count_met(state, a, c2, x) {
        assert(list_grows(a[x]@, c[x]@));
        assert(list_grows(c[x]@, c2[x]@));
        assert(count_met(state, a, c, x));
        assert forall|p: int, i: int| 0 <= p < state.hands@.len() && 0 <= i < state.hands@[p]@.len()
            && #[trigger] elim_spot(state, Seq::<usize>::empty(), a[x]@, p, i)
            implies !pl2.thoughts@[state.hands@[p]@[i] as int].possible@.contains(x) by {
            let o = state.hands@[p]@[i] as int;
            assert(pl2.thoughts@[o].possible@.subset_of(pl.thoughts@[o].possible@));
        }
    }
}

/// The card may be linked: nobody can tell it for certain, it has at most three
/// inferences, and they are not all trash.
pub open spec fn linkable_card(state: State, pl: Player, o: usize) -> bool {
    let t = pl.thoughts@[o as int];
    &&& t.identity_spec(IdOptions { infer: false, symmetric: true }) is None
    &&& t.inferred@.len() <= 3
    &&& !t.inferred@.subset_of(trash_ords(state))
}

/// The linkable cards of the hands, hand by hand.
pub open spec fn linkable_cards(state: State, pl: Player) -> Seq<usize> {
    crate::basics::hands_flat(state.hands@).filter(|c: usize| linkable_card(state, pl, c))
}

/// The linkable cards with the same inferences as the card.
pub open spec fn link_group(state: State, pl: Player, o: usize) -> Seq<usize> {
    linkable_cards(state, pl).filter(|c: usize| pl.thoughts@[c as int].inferred == pl.thoughts@[o as int].inferred)
}

/// The focused linkable cards with the same inferences as the card.
pub open spec fn focused_group(frame: Frame, pl: Player, o: usize) -> Seq<usize> {
    linkable_cards(*frame.state, pl).filter(|c: usize| pl.thoughts@[c as int].inferred == pl.thoughts@[o as int].inferred && frame.meta@[c as int].focused)
}

/// No group of linkable cards settles on a focused card: none has one inference, more
/// than one card and exactly one focused card.
pub open spec fn no_group_settles(frame: Frame, pl: Player) -> bool {
    forall|m: int| 0 <= m < linkable_cards(*frame.state, pl).len() ==> {
        let o = #[trigger] linkable_cards(*frame.state, pl)[m];
        !(link_group(*frame.state, pl, o).len() != 1 && focused_group(frame, pl, o).len() == 1
            && pl.thoughts@[o as int].inferred@.len() == 1)
    }
}

/// Some link of the player holds the card.
pub open spec fn in_some_link(pl: Player, o: usize) -> bool {
    exists|l: int| 0 <= l < pl.links@.len() && link_orders(#[trigger] pl.links@[l]).contains(o)
}

/// The cards that joined the lists of known cards since `a` have their identity as their
/// only possibility left, if any.
spec fn new_certain(a: Seq<Vec<MatchEntry>>, b: Seq<Vec<MatchEntry>>, thoughts: Seq<Thought>) -> bool {
    forall|k: int, j: int| 0 <= k < b.len() && a[k]@.len() <= j < b[k]@.len()
        ==> thoughts[(#[trigger] b[k]@[j]).order as int].possible@.subset_of(set![k])
}

proof fn lemma_new_certain_shrinks(a: Seq<Vec<MatchEntry>>, b: Seq<Vec<MatchEntry>>, t: Seq<Thought>, t2: Seq<Thought>, len: nat)
    requires
        new_certain(a, b, t),
        shrinks(t, t2),
        t.len() == len,
        forall|k: int, j: int| 0 <= k < b.len() && 0 <= j < b[k]@.len() ==> (#[trigger] b[k]@[j]).order < len,
    ensures
        new_certain(a, b, t2),
{
    assert forall|k: int, j: int| 0 <= k < b.len() && a[k]@.len() <= j < b[k]@.len()
        implies t2[(#[trigger] b[k]@[j]).order as int].possible@.subset_of(set![k]) by {
        let o = b[k]@[j].order as int;
        assert(t2[o].possible@.subset_of(t[o].possible@));
    }
}

proof fn lemma_new_certain_trans(a: Seq<Vec<MatchEntry>>, b: Seq<Vec<MatchEntry>>, c: Seq<Vec<MatchEntry>>, t: Seq<Thought>)
    requires
        new_certain(a, b, t),
        new_certain(b, c, t),
        cm_grows(b, c),
        b.len() == a.len(),
    ensures
        new_certain(a, c, t),
{
    assert forall|k: int, j: int| 0 <= k < c.len() && a[k]@.len() <= j < c[k]@.len()
        implies t[(#[trigger] c[k]@[j]).order as int].possible@.subset_of(set![k]) by {
        assert(list_grows(b[k]@, c[k]@));
        if j < b[k]@.len() {
            assert(c[k]@[j].order == b[k]@[j].order);
            assert(t[b[k]@[j].order as int].possible@.subset_of(set![k]));
        }
    }
}

/// No card that the known cards of the identity leave open still has it possible.
spec fn spots_cleared(state: State, list: Seq<MatchEntry>, thoughts: Seq<Thought>, x: int) -> bool {
    forall|p: int, i: int| 0 <= p < state.hands@.len() && 0 <= i < state.hands@[p]@.len()
        && #[trigger] elim_spot(state, Seq::<usize>::empty(), list, p, i)
        ==> !thoughts[state.hands@[p]@[i] as int].possible@.contains(x)
}

/// The stacks and the cards known at the start (`a`) account for every copy of the
/// identity, and no card of it became known since (`c`).
spec fn count_met(state: State, a: Seq<Vec<MatchEntry>>, c: Seq<Vec<MatchEntry>>, x: int) -> bool {
    &&& state.base_count_spec(Identity::of_ord(x)) + a[x]@.len() == state.card_count_spec(Identity::of_ord(x))
    &&& c[x]@.len() == a[x]@.len()
}

/// Where the count is met, the identity is among those eliminated and left every card
/// open to it.
spec fn done_ok(state: State, a: Seq<Vec<MatchEntry>>, c: Seq<Vec<MatchEntry>>, elim: Set<int>, thoughts: Seq<Thought>, x: int) -> bool {
    count_met(state, a, c, x) ==> elim.contains(x) && spots_cleared(state, a[x]@, thoughts, x)
}

proof fn lemma_done_kept(
    state: State,
    a: Seq<Vec<MatchEntry>>,
    c: Seq<Vec<MatchEntry>>,
    c2: Seq<Vec<MatchEntry>>,
    elim: Set<int>,
    elim2: Set<int>,
    t: Seq<Thought>,
    t2: Seq<Thought>,
    x: int,
)
    requires
        done_ok(state, a, c, elim, t, x),
        cm_grows(a, c),
        cm_grows(c, c2),
        0 <= x < a.len(),
        elim.subset_of(elim2),
        shrinks(t, t2),
        forall|p: int, i: int| 0 <= p < state.hands@.len() && 0 <= i < state.hands@[p]@.len() ==> #[trigger] state.hands@[p]@[i] < t.len(),
    ensures
        done_ok(state, a, c2, elim2, t2, x),
{
    if count_met(state, a, c2, x) {
        assert(list_grows(a[x]@, c[x]@));
        assert(list_grows(c[x]@, c2[x]@));
        assert(count_met(state, a, c, x));
        assert forall|p: int, i: int| 0 <= p < state.hands@.len() && 0 <= i < state.hands@[p]@.len()
            && #[trigger] elim_spot(state, Seq::<usize>::empty(), a[x]@, p, i)
            implies !t2[state.hands@[p]@[i] as int].possible@.contains(x) by {
            let o = state.hands@[p]@[i] as int;
            assert(t2[o].possible@.subset_of(t[o].possible@));
        }
    }
}

impl Player {
    /// Removes the identity from the possibilities and inferences of every card of the
    /// players not excluded, unless the card is known to be it or the holder cannot tell.
    /// Returns whether some card changed, and the identities of the cards left with one possibility.
    fn update_map(
        &mut self,
        state: &State,
        id: Identity,
        exclude: &Vec<usize>,
        resets: &mut Vec<usize>,
        cm: &mut Vec<Vec<MatchEntry>>,
        cands: &mut Vec<IdEntry>,
    ) -> (r: (bool, Vec<Identity>))
        requires
            state.wf(),
            old(self).wf(*state),
            state.id_ok(id),
            certain_ok(old(cm)@, state.num_suits(), old(self).thoughts@.len()),
            entries_ok(old(cands)@, old(self).thoughts@.len(), state.num_players as nat),
            resets_ok(old(resets)@, old(self).thoughts@),
        ensures
            final(self).wf(*state),
            shrinks(old(self).thoughts@, final(self).thoughts@),
            poss_total(final(self).thoughts@) + (if r.0 { 1int } else { 0int }) <= poss_total(old(self).thoughts@),
            !r.0 ==> final(self).thoughts@ == old(self).thoughts@ && final(cands)@ == old(cands)@ && final(cm)@
                == old(cm)@ && final(resets)@ == old(resets)@,
            r.1@.len() > 0 ==> r.0,
            forall|j: int| 0 <= j < r.1@.len() ==> state.id_ok(#[trigger] r.1@[j]),
            certain_ok(final(cm)@, state.num_suits(), final(self).thoughts@.len()),
            entries_ok(final(cands)@, final(self).thoughts@.len(), state.num_players as nat),
            resets_ok(final(resets)@, final(self).thoughts@),
            final(self).all_possible == old(self).all_possible,
            final(self).all_inferred == old(self).all_inferred,
            final(self).links@ == old(self).links@,
            final(self).hypo_stacks@ == old(self).hypo_stacks@,
            final(self).player_index == old(self).player_index,
            final(self).is_common == old(self).is_common,
            r.0 == exists|p: int, i: int| 0 <= p < state.hands@.len() && 0 <= i < state.hands@[p]@.len()
                && #[trigger] elim_hit(*state, exclude@, old(cm)@[id.ord()]@, old(self).thoughts@, id.ord(), p, i),
            forall|p: int, i: int| 0 <= p < state.hands@.len() && 0 <= i < state.hands@[p]@.len()
                && #[trigger] elim_spot(*state, exclude@, old(cm)@[id.ord()]@, p, i)
                ==> !final(self).thoughts@[state.hands@[p]@[i] as int].possible@.contains(id.ord()),
            cm_grows(old(cm)@, final(cm)@),
            new_certain(old(cm)@, final(cm)@, final(self).thoughts@),
    {
        let ghost old_thoughts = self.thoughts@;
        let ghost old_cm = cm@;
        let ghost old_resets = resets@;
        let ghost n = state.num_suits();
        let ghost len = self.thoughts@.len();
        proof {
            lemma_id_ok_valid(*state, id);
        }
        let k = id.to_ord();
        let single = IdentitySet::single(id);
        let mut changed = false;
        let mut rec_ids: Vec<Identity> = Vec::new();
        let mut removals: Vec<usize> = Vec::new();
        let mut p: usize = 0;
        while p < state.hands.len()
            invariant
                state.wf(),
                state.id_ok(id),
                id.valid(),
                k == id.ord(),
                single@ == set![id.ord()],
                self.wf(*state),
                len == self.thoughts@.len(),
                n == state.num_suits(),
                p <= state.hands@.len(),
                cm@[k as int] == old_cm[k as int],
                changed ==> exists|p2: int, i2: int| 0 <= p2 < p && 0 <= i2 < state.hands@[p2]@.len()
                    && #[trigger] elim_hit(*state, exclude@, old_cm[k as int]@, old_thoughts, k as int, p2, i2),
                forall|p2: int, i2: int| 0 <= p2 < p && 0 <= i2 < state.hands@[p2]@.len()
                    && #[trigger] elim_hit(*state, exclude@, old_cm[k as int]@, old_thoughts, k as int, p2, i2) ==> changed,
                forall|p2: int, i2: int| 0 <= p2 < p && 0 <= i2 < state.hands@[p2]@.len()
                    && #[trigger] elim_spot(*state, exclude@, old_cm[k as int]@, p2, i2)
                    ==> !self.thoughts@[state.hands@[p2]@[i2] as int].possible@.contains(k as int),
                shrinks(old_thoughts, self.thoughts@),
                poss_total(self.thoughts@) + (if changed { 1int } else { 0int }) <= poss_total(old_thoughts),
                !changed ==> self.thoughts@ == old_thoughts && cm@ == old_cm && resets@ == old_resets
                    && rec_ids@.len() == 0 && removals@.len() == 0,
                forall|j: int| 0 <= j < rec_ids@.len() ==> state.id_ok(#[trigger] rec_ids@[j]),
                certain_ok(cm@, n, len),
                cm_grows(old_cm, cm@),
                new_certain(old_cm, cm@, self.thoughts@),
                resets_ok(resets@, self.thoughts@),
                orders_ok(removals@, len),
                self.all_possible == old(self).all_possible,
                self.all_inferred == old(self).all_inferred,
                self.links@ == old(self).links@,
                self.hypo_stacks@ == old(self).hypo_stacks@,
                self.player_index == old(self).player_index,
                self.is_common == old(self).is_common,
            decreases state.hands@.len() - p,
        {
            if !vec_contains(exclude, p) {
                let hand = &state.hands[p];
                let mut i: usize = 0;
                while i < hand.len()
                    invariant
                        state.wf(),
                        state.id_ok(id),
                        id.valid(),
                        k == id.ord(),
                        single@ == set![id.ord()],
                        self.wf(*state),
                        len == self.thoughts@.len(),
                        n == state.num_suits(),
                        p < state.hands@.len(),
                        *hand == state.hands@[p as int],
                        i <= hand@.len(),
                        !exclude@.contains(p),
                        cm@[k as int] == old_cm[k as int],
                        changed ==> exists|p2: int, i2: int| 0 <= p2 < state.hands@.len() && 0 <= i2 < state.hands@[p2]@.len()
                            && (p2 < p || (p2 == p && i2 < i))
                            && #[trigger] elim_hit(*state, exclude@, old_cm[k as int]@, old_thoughts, k as int, p2, i2),
                        forall|p2: int, i2: int| 0 <= p2 < state.hands@.len() && 0 <= i2 < state.hands@[p2]@.len()
                            && (p2 < p || (p2 == p && i2 < i))
                            && #[trigger] elim_hit(*state, exclude@, old_cm[k as int]@, old_thoughts, k as int, p2, i2) ==> changed,
                        forall|p2: int, i2: int| 0 <= p2 < state.hands@.len() && 0 <= i2 < state.hands@[p2]@.len()
                            && (p2 < p || (p2 == p && i2 < i))
                            && #[trigger] elim_spot(*state, exclude@, old_cm[k as int]@, p2, i2)
                            ==> !self.thoughts@[state.hands@[p2]@[i2] as int].possible@.contains(k as int),
                        shrinks(old_thoughts, self.thoughts@),
                        poss_total(self.thoughts@) + (if changed { 1int } else { 0int }) <= poss_total(old_thoughts),
                        !changed ==> self.thoughts@ == old_thoughts && cm@ == old_cm && resets@ == old_resets
                            && rec_ids@.len() == 0 && removals@.len() == 0,
                        forall|j: int| 0 <= j < rec_ids@.len() ==> state.id_ok(#[trigger] rec_ids@[j]),
                        certain_ok(cm@, n, len),
                        cm_grows(old_cm, cm@),
                        new_certain(old_cm, cm@, self.thoughts@),
                        resets_ok(resets@, self.thoughts@),
                        orders_ok(removals@, len),
                        self.all_possible == old(self).all_possible,
                        self.all_inferred == old(self).all_inferred,
                        self.links@ == old(self).links@,
                        self.hypo_stacks@ == old(self).hypo_stacks@,
                        self.player_index == old(self).player_index,
                        self.is_common == old(self).is_common,
                    decreases hand@.len() - i,
                {
                    let order = hand[i];
                    assert(order < state.deck@.len()) by {
                        assert(state.hands@[p as int]@[i as int] < state.deck@.len());
                    }
                    let mut t = self.thoughts[order];
                    let ghost t0 = t;
                    assert(thought_ok(t, order as int, *state));
                    let blocked = !t.possible.contains(id) || certain_blocks(&cm[k], order, p);
                    if !blocked {
                        let ghost before = self.thoughts@;
                        let ghost cm_start = cm@;
                        proof {
                            assert(state.hands@[p as int]@[i as int] == order);
                            assert(t0 == before[order as int]);
                            assert(old_thoughts[order as int].possible@.contains(k as int));
                            assert(elim_hit(*state, exclude@, old_cm[k as int]@, old_thoughts, k as int, p as int, i as int));
                        }
                        changed = true;
                        t.inferred = t.inferred.difference(&single);
                        t.possible = t.possible.difference(&single);
                        if t.inferred.is_empty() && !t.reset {
                            t.reset_inferences();
                            resets.push(order);
                        }
                        proof {
                            lemma_bits_finite(t0.possible.bits());
                            assert(t0.possible@.remove(id.ord()) == t.possible@);
                            assert(t.possible@.len() + 1 == t0.possible@.len());
                        }
                        if t.possible.len() == 1 {
                            let rid = single_of(&t.possible);
                            proof {
                                lemma_in_range_ids(t.possible, *state);
                            }
                            assert(state.id_ok(rid));
                            proof {
                                lemma_id_ok_valid(*state, rid);
                            }
                            let rk = rid.to_ord();
                            assert(rk != k);
                            let list = set_certain(&cm[rk], order);
                            let ghost cm_before = cm@;
                            cm.set(rk, list);
                            proof {
                                lemma_marked_grows(cm_before[rk as int]@, order);
                                assert(cm_grows(cm_before, cm@)) by {
                                    assert forall|kk: int| 0 <= kk < cm_before.len() implies #[trigger] list_grows(cm_before[kk]@, cm@[kk]@) by {
                                        if kk != rk as int {
                                            assert(cm@[kk] == cm_before[kk]);
                                        }
                                    }
                                }
                                lemma_cm_grows_trans(old_cm, cm_before, cm@);
                                assert forall|kk: int, j: int|
                                    0 <= kk < cm@.len() && 0 <= j < cm@[kk]@.len() implies (#[trigger] cm@[kk]@[j]).order < len by {
                                    if kk == rk as int {
                                        if cm@[kk]@[j].order != order {
                                            let ii = choose|ii: int| 0 <= ii < cm_before[kk]@.len() && cm_before[kk]@[ii].order == cm@[kk]@[j].order;
                                            assert(cm_before[kk]@[ii].order < len);
                                        }
                                    }
                                }
                                assert forall|kk: int, j1: int, j2: int|
                                    0 <= kk < cm@.len() && 0 <= j1 < cm@[kk]@.len() && 0 <= j2 < cm@[kk]@.len() && j1 != j2 implies
                                    (#[trigger] cm@[kk]@[j1]).order != (#[trigger] cm@[kk]@[j2]).order by {
                                    if kk == rk as int {
                                        assert(forall|a: int, b: int|
                                            0 <= a < cm_before[kk]@.len() && 0 <= b < cm_before[kk]@.len() && a != b ==> (#[trigger] cm_before[kk]@[a]).order != (#[trigger] cm_before[kk]@[b]).order);
                                    }
                                }
                            }
                            rec_ids.push(rid);
                            removals.push(order);
                        }
                        self.thoughts.set(order, t);
                        proof {
                            assert(shrinks(before, self.thoughts@)) by {
                                assert forall|o: int| 0 <= o < before.len() implies {
                                    &&& (#[trigger] self.thoughts@[o]).possible@.subset_of(before[o].possible@)
                                    &&& self.thoughts@[o].inferred@.subset_of(before[o].inferred@.union(before[o].possible@))
                                    &&& self.thoughts@[o].order == before[o].order
                                    &&& self.thoughts@[o].base == before[o].base
                                    &&& self.thoughts@[o].info_lock == before[o].info_lock
                                    &&& before[o].reset ==> self.thoughts@[o].reset
                                } by {
                                    if o != order as int {
                                        assert(self.thoughts@[o] == before[o]);
                                    }
                                }
                            }
                            lemma_new_certain_shrinks(old_cm, cm_start, before, self.thoughts@, len);
                            assert forall|kk: int, j: int| 0 <= kk < cm@.len() && old_cm[kk]@.len() <= j < cm@[kk]@.len()
                                implies self.thoughts@[(#[trigger] cm@[kk]@[j]).order as int].possible@.subset_of(set![kk]) by {
                                if j < cm_start[kk]@.len() {
                                    assert(list_grows(cm_start[kk]@, cm@[kk]@));
                                    assert(cm@[kk]@[j].order == cm_start[kk]@[j].order);
                                } else {
                                    assert(cm@[kk]@[j].order == order);
                                    assert(self.thoughts@[order as int] == t);
                                    assert forall|x: int| t.possible@.contains(x) implies x == kk by {
                                        lemma_bits_finite(t.possible.bits());
                                        if x != kk {
                                            assert(t.possible@.remove(kk).contains(x));
                                            assert(t.possible@.remove(kk).len() == 0);
                                        }
                                    }
                                }
                            }
                            lemma_poss_total_update(before, order as int, t);
                            assert(thought_ok(t, order as int, *state));
                            assert forall|o: int| 0 <= o < self.thoughts@.len() implies thought_ok(#[trigger] self.thoughts@[o], o, *state) by {
                                if o != order as int {
                                    assert(self.thoughts@[o] == before[o]);
                                }
                            }
                            assert forall|o: int| 0 <= o < old_thoughts.len() implies (#[trigger] self.thoughts@[o]).possible@.subset_of(old_thoughts[o].possible@)
                                && self.thoughts@[o].inferred@.subset_of(old_thoughts[o].inferred@.union(old_thoughts[o].possible@)) by {
                                if o == order as int {
                                    assert(before[o].possible@.subset_of(old_thoughts[o].possible@));
                                    assert(before[o].inferred@.subset_of(old_thoughts[o].inferred@.union(old_thoughts[o].possible@)));
                                } else {
                                    assert(self.thoughts@[o] == before[o]);
                                }
                            }
                            assert forall|j: int| 0 <= j < resets@.len() implies #[trigger] resets@[j] < len && self.thoughts@[resets@[j] as int].reset by {
                                if resets@[j] != order {
                                    assert(self.thoughts@[resets@[j] as int] == before[resets@[j] as int]);
                                }
                            }
                        }
                    }
                    i += 1;
                }
            }
            p += 1;
        }
        let mut kept: Vec<IdEntry> = Vec::new();
        let mut c: usize = 0;
        while c < cands.len()
            invariant
                c <= cands@.len(),
                entries_ok(cands@, len, state.num_players as nat),
                entries_ok(kept@, len, state.num_players as nat),
                removals@.len() == 0 ==> kept@ == cands@.take(c as int),
            decreases cands@.len() - c,
        {
            let e = cands[c];
            if !vec_contains(&removals, e.order) {
                kept.push(e);
            }
            proof {
                if removals@.len() == 0 {
                    assert(kept@ =~= cands@.take(c + 1));
                }
            }
            c += 1;
        }
        proof {
            if removals@.len() == 0 {
                assert(cands@.take(cands@.len() as int) =~= cands@);
            }
        }
        if changed {
            *cands = kept;
        }
        (changed, rec_ids)
    }

    /// Where every copy of an identity is accounted for by the stacks and the known cards,
    /// removes it from every other card, and again for the identities that this reveals.
    fn basic_card_elim(
        &mut self,
        state: &State,
        ids: &IdentitySet,
        resets: &mut Vec<usize>,
        cm: &mut Vec<Vec<MatchEntry>>,
        cands: &mut Vec<IdEntry>,
    ) -> (r: bool)
        requires
            state.wf(),
            state.consistent(),
            old(self).wf(*state),
            in_range(*ids, state.num_suits()),
            old(self).thoughts@.len() + 4 <= usize::MAX,
            certain_ok(old(cm)@, state.num_suits(), old(self).thoughts@.len()),
            entries_ok(old(cands)@, old(self).thoughts@.len(), state.num_players as nat),
            resets_ok(old(resets)@, old(self).thoughts@),
        ensures
            final(self).wf(*state),
            shrinks(old(self).thoughts@, final(self).thoughts@),
            poss_total(final(self).thoughts@) + (if r { 1int } else { 0int }) <= poss_total(old(self).thoughts@),
            !r ==> final(self).thoughts@ == old(self).thoughts@ && final(cands)@ == old(cands)@ && final(cm)@
                == old(cm)@ && final(resets)@ == old(resets)@,
            certain_ok(final(cm)@, state.num_suits(), final(self).thoughts@.len()),
            entries_ok(final(cands)@, final(self).thoughts@.len(), state.num_players as nat),
            resets_ok(final(resets)@, final(self).thoughts@),
            final(self).all_possible@.subset_of(old(self).all_possible@),
            final(self).all_inferred@.subset_of(old(self).all_inferred@),
            final(self).links@ == old(self).links@,
            final(self).hypo_stacks@ == old(self).hypo_stacks@,
            final(self).player_index == old(self).player_index,
            final(self).is_common == old(self).is_common,
            cm_grows(old(cm)@, final(cm)@),
            new_certain(old(cm)@, final(cm)@, final(self).thoughts@),
            forall|x: int| #[trigger] ids@.contains(x) && count_met(*state, old(cm)@, final(cm)@, x) ==> {
                &&& !final(self).all_possible@.contains(x)
                &&& !final(self).all_inferred@.contains(x)
                &&& spots_cleared(*state, old(cm)@[x]@, final(self).thoughts@, x)
            },
        decreases poss_total(old(self).thoughts@),
    {
        let ghost old_thoughts = self.thoughts@;
        let ghost old_cm = cm@;
        let ghost old_cands = cands@;
        let ghost old_resets = resets@;
        let ghost n = state.num_suits();
        let ghost len = self.thoughts@.len();
        let mut changed = false;
        let mut recursive_ids = IdentitySet::empty();
        let mut eliminated = IdentitySet::empty();
        let v = ids.to_vec();
        proof {
            lemma_in_range_ids(*ids, *state);
        }
        let mut i: usize = 0;
        while i < v.len()
            invariant
                state.wf(),
                state.consistent(),
                self.wf(*state),
                len == self.thoughts@.len(),
                len + 4 <= usize::MAX,
                n == state.num_suits(),
                i <= v@.len(),
                forall|j: int| 0 <= j < v@.len() ==> state.id_ok(#[trigger] v@[j]),
                shrinks(old_thoughts, self.thoughts@),
                poss_total(self.thoughts@) + (if changed { 1int } else { 0int }) <= poss_total(old_thoughts),
                !changed ==> self.thoughts@ == old_thoughts && cm@ == old_cm && resets@ == old_resets
                    && cands@ == old_cands && recursive_ids@ == Set::<int>::empty(),
                in_range(recursive_ids, n),
                certain_ok(cm@, n, len),
                entries_ok(cands@, len, state.num_players as nat),
                resets_ok(resets@, self.thoughts@),
                self.all_possible == old(self).all_possible,
                self.all_inferred == old(self).all_inferred,
                self.links@ == old(self).links@,
                self.hypo_stacks@ == old(self).hypo_stacks@,
                self.player_index == old(self).player_index,
                self.is_common == old(self).is_common,
                v@ == crate::basics::identity_set::ids_of(ids.bits()),
                cm_grows(old_cm, cm@),
                new_certain(old_cm, cm@, self.thoughts@),
                forall|j: int| 0 <= j < i ==> #[trigger] done_ok(*state, old_cm, cm@, eliminated@, self.thoughts@, v@[j].ord()),
            decreases v@.len() - i,
        {
            let id = v[i];
            proof {
                lemma_id_ok_valid(*state, id);
                assert(state.id_ok(id));
            }
            let k = id.to_ord();
            proof {
                lemma_certain_len(cm@, n, len, k as int);
            }
            let known = state.base_count(id) + cm[k].len();
            let ghost cm_i = cm@;
            let ghost elim_i = eliminated@;
            let ghost thoughts_i = self.thoughts@;
            if known == state.card_count(id) {
                eliminated = eliminated.with(id);
                let none: Vec<usize> = Vec::new();
                let ghost before = self.thoughts@;
                let (inner_changed, inner_rec) = self.update_map(state, id, &none, resets, cm, cands);
                proof {
                    lemma_cm_grows_trans(old_cm, cm_i, cm@);
                    lemma_new_certain_shrinks(old_cm, cm_i, thoughts_i, self.thoughts@, len);
                    lemma_new_certain_trans(old_cm, cm_i, cm@, self.thoughts@);
                    assert(none@ == Seq::<usize>::empty());
                    if count_met(*state, old_cm, cm@, k as int) {
                        assert(list_grows(old_cm[k as int]@, cm_i[k as int]@));
                        assert(list_grows(cm_i[k as int]@, cm@[k as int]@));
                        assert forall|p: int, ii: int| 0 <= p < state.hands@.len() && 0 <= ii < state.hands@[p]@.len()
                            && #[trigger] elim_spot(*state, Seq::<usize>::empty(), old_cm[k as int]@, p, ii)
                            implies !self.thoughts@[state.hands@[p]@[ii] as int].possible@.contains(k as int) by {
                            lemma_spot_kept(*state, Seq::<usize>::empty(), old_cm[k as int]@, cm_i[k as int]@, p, ii);
                        }
                    }
                    assert(done_ok(*state, old_cm, cm@, eliminated@, self.thoughts@, k as int));
                    assert forall|j: int| 0 <= j < i implies #[trigger] done_ok(*state, old_cm, cm@, eliminated@, self.thoughts@, v@[j].ord()) by {
                        assert(done_ok(*state, old_cm, cm_i, elim_i, thoughts_i, v@[j].ord()));
                        lemma_done_kept(*state, old_cm, cm_i, cm@, elim_i, eliminated@, thoughts_i, self.thoughts@, v@[j].ord());
                    }
                    lemma_shrinks_trans(old_thoughts, before, self.thoughts@);
                    assert forall|j: int| 0 <= j < inner_rec@.len() implies (#[trigger] inner_rec@[j]).valid() by {
                        lemma_id_ok_valid(*state, inner_rec@[j]);
                    }
                }
                changed = changed || inner_changed;
                let ghost prev_rec = recursive_ids;
                recursive_ids = recursive_ids.concat(inner_rec.as_slice());
                proof {
                    assert forall|o: int| #[trigger] recursive_ids@.contains(o) implies 0 <= o < 5 * n by {
                        if !prev_rec@.contains(o) {
                            let j = choose|j: int| 0 <= j < inner_rec@.len() && (#[trigger] inner_rec@[j]).ord() == o;
                            lemma_id_ok_valid(*state, inner_rec@[j]);
                        }
                    }
                    if inner_rec@.len() == 0 {
                        assert(recursive_ids@ =~= prev_rec@);
                    }
                }
            } else {
                proof {
                    if count_met(*state, old_cm, cm@, k as int) {
                        assert(list_grows(old_cm[k as int]@, cm@[k as int]@));
                    }
                }
            }
            i += 1;
        }
        let ghost cm_l = cm@;
        let ghost thoughts_l = self.thoughts@;
        if !recursive_ids.is_empty() {
            let ghost before = self.thoughts@;
            self.basic_card_elim(state, &recursive_ids, resets, cm, cands);
            proof {
                lemma_shrinks_trans(old_thoughts, before, self.thoughts@);
                lemma_cm_grows_trans(old_cm, cm_l, cm@);
                lemma_new_certain_shrinks(old_cm, cm_l, thoughts_l, self.thoughts@, len);
                lemma_new_certain_trans(old_cm, cm_l, cm@, self.thoughts@);
                assert forall|j: int| 0 <= j < v@.len() implies #[trigger] done_ok(*state, old_cm, cm@, eliminated@, self.thoughts@, v@[j].ord()) by {
                    lemma_done_kept(*state, old_cm, cm_l, cm@, eliminated@, eliminated@, thoughts_l, self.thoughts@, v@[j].ord());
                }
            }
        }

        self.all_possible = self.all_possible.difference(&eliminated);
        self.all_inferred = self.all_inferred.difference(&eliminated);
        proof {
            crate::basics::identity_set::lemma_to_vec_lists_the_set(*ids);
            assert forall|x: int| #[trigger] ids@.contains(x) && count_met(*state, old_cm, cm@, x) implies {
                &&& !self.all_possible@.contains(x)
                &&& !self.all_inferred@.contains(x)
                &&& spots_cleared(*state, old_cm[x]@, self.thoughts@, x)
            } by {
                let j = choose|j: int| 0 <= j < v@.len() && v@[j].ord() == x;
                assert(done_ok(*state, old_cm, cm@, eliminated@, self.thoughts@, v@[j].ord()));
            }
        }
        changed
    }

    /// Eliminates where a group of cards holds exactly the remaining copies of a set
    /// of identities: those identities leave every other card.
    fn perform_cross_elim(
        &mut self,
        state: &State,
        entries: &Vec<IdEntry>,
        ids: &IdentitySet,
        resets: &mut Vec<usize>,
        cm: &mut Vec<Vec<MatchEntry>>,
        cands: &mut Vec<IdEntry>,
    ) -> (r: bool)
        requires
            state.wf(),
            state.consistent(),
            old(self).wf(*state),
            in_range(*ids, state.num_suits()),
            old(self).thoughts@.len() + 4 <= usize::MAX,
            entries_ok(entries@, state.deck@.len(), state.num_players as nat),
            certain_ok(old(cm)@, state.num_suits(), old(self).thoughts@.len()),
            entries_ok(old(cands)@, old(self).thoughts@.len(), state.num_players as nat),
            resets_ok(old(resets)@, old(self).thoughts@),
        ensures
            final(self).wf(*state),
            shrinks(old(self).thoughts@, final(self).thoughts@),
            poss_total(final(self).thoughts@) + (if r { 1int } else { 0int }) <= poss_total(old(self).thoughts@),
            !r ==> final(self).thoughts@ == old(self).thoughts@ && final(cands)@ == old(cands)@ && final(cm)@
                == old(cm)@ && final(resets)@ == old(resets)@,
            certain_ok(final(cm)@, state.num_suits(), final(self).thoughts@.len()),
            entries_ok(final(cands)@, final(self).thoughts@.len(), state.num_players as nat),
            resets_ok(final(resets)@, final(self).thoughts@),
            final(self).all_possible@.subset_of(old(self).all_possible@),
            final(self).all_inferred@.subset_of(old(self).all_inferred@),
            final(self).links@ == old(self).links@,
            final(self).hypo_stacks@ == old(self).hypo_stacks@,
            final(self).player_index == old(self).player_index,
            final(self).is_common == old(self).is_common,
            cm_grows(old(cm)@, final(cm)@),
            new_certain(old(cm)@, final(cm)@, final(self).thoughts@),
    {
        let ghost old_thoughts = self.thoughts@;
        let ghost old_cm0 = cm@;
        let ghost old_cm = cm@;
        let ghost old_cands = cands@;
        let ghost old_resets = resets@;
        let ghost n = state.num_suits();
        let ghost len = self.thoughts@.len();
        let mut changed = false;
        // The entries grouped by the identity of their card, in order of first appearance.
        let mut keys: Vec<Option<Identity>> = Vec::new();
        let mut groups: Vec<Vec<IdEntry>> = Vec::new();
        let mut e: usize = 0;
        while e < entries.len()
            invariant
                state.wf(),
                e <= entries@.len(),
                entries_ok(entries@, state.deck@.len(), state.num_players as nat),
                keys@.len() == groups@.len(),
                forall|g: int| 0 <= g < keys@.len() ==> ((#[trigger] keys@[g]) matches Some(id) ==> state.id_ok(id)),
                forall|g: int| 0 <= g < groups@.len() ==> entries_ok((#[trigger] groups@[g])@, state.deck@.len(), state.num_players as nat),
                forall|g: int| 0 <= g < groups@.len() ==> (#[trigger] groups@[g])@.len() <= e,
            decreases entries@.len() - e,
        {
            let entry = entries[e];
            let key = state.deck[entry.order].id();
            let mut g: usize = 0;
            let mut found = false;
            while !found && g < keys.len()
                invariant
                    g <= keys@.len(),
                    keys@.len() == groups@.len(),
                    found ==> g < keys@.len(),
                decreases keys@.len() - g + (if found { 0int } else { 1int }),
            {
                if same_key(keys[g], key) {
                    found = true;
                } else {
                    g += 1;
                }
            }
            if found {
                let mut group = copy_entries(&groups[g]);
                group.push(entry);
                groups.set(g, group);
            } else {
                keys.push(key);
                let mut group: Vec<IdEntry> = Vec::new();
                group.push(entry);
                groups.push(group);
            }
            e += 1;
        }
        let mut g: usize = 0;
        while g < keys.len()
            invariant
                state.wf(),
                state.consistent(),
                self.wf(*state),
                len == self.thoughts@.len(),
                len + 4 <= usize::MAX,
                n == state.num_suits(),
                g <= keys@.len(),
                keys@.len() == groups@.len(),
                forall|g: int| 0 <= g < keys@.len() ==> ((#[trigger] keys@[g]) matches Some(id) ==> state.id_ok(id)),
                forall|g: int| 0 <= g < groups@.len() ==> entries_ok((#[trigger] groups@[g])@, state.deck@.len(), state.num_players as nat),
                forall|g: int| 0 <= g < groups@.len() ==> (#[trigger] groups@[g])@.len() <= entries@.len(),
                shrinks(old_thoughts, self.thoughts@),
                poss_total(self.thoughts@) + (if changed { 1int } else { 0int }) <= poss_total(old_thoughts),
                !changed ==> self.thoughts@ == old_thoughts && cm@ == old_cm && resets@ == old_resets
                    && cands@ == old_cands,
                certain_ok(cm@, n, len),
                cm_grows(old_cm0, cm@),
                new_certain(old_cm0, cm@, self.thoughts@),
                entries_ok(cands@, len, state.num_players as nat),
                resets_ok(resets@, self.thoughts@),
                self.all_possible == old(self).all_possible,
                self.all_inferred == old(self).all_inferred,
                self.links@ == old(self).links@,
                self.hypo_stacks@ == old(self).hypo_stacks@,
                self.player_index == old(self).player_index,
                self.is_common == old(self).is_common,
            decreases keys@.len() - g,
        {
            if let Some(id) = keys[g] {
                let group = &groups[g];
                proof {
                    lemma_id_ok_valid(*state, id);
                }
                let k = id.to_ord();
                let list = &cm[k];
                let mut certains: usize = 0;
                let mut j: usize = 0;
                while j < list.len()
                    invariant
                        j <= list@.len(),
                        certains <= j,
                    decreases list@.len() - j,
                {
                    if !has_entry(group, list[j].order) {
                        certains += 1;
                    }
                    j += 1;
                }
                let one = vec![id];
                proof {
                    assert(state.id_ok(one@[0]));
                }
                let remaining = state.remaining_multiplicity(one.as_slice());
                let enough = match remaining.checked_sub(certains) {
                    Some(d) => group.len() >= d,
                    None => false,
                };
                if enough {
                    let mut exclude: Vec<usize> = Vec::new();
                    let mut x: usize = 0;
                    while x < group.len()
                        invariant
                            x <= group@.len(),
                        decreases group@.len() - x,
                    {
                        exclude.push(group[x].player_index);
                        x += 1;
                    }
                    let ghost before = self.thoughts@;
                    let ghost cm_b = cm@;
                    let (inner_changed, _) = self.update_map(state, id, &exclude, resets, cm, cands);
                    proof {
                        lemma_shrinks_trans(old_thoughts, before, self.thoughts@);
                        lemma_cm_grows_trans(old_cm0, cm_b, cm@);
                        lemma_new_certain_shrinks(old_cm0, cm_b, before, self.thoughts@, len);
                        lemma_new_certain_trans(old_cm0, cm_b, cm@, self.thoughts@);
                    }
                    changed = changed || inner_changed;
                }
            }
            g += 1;
        }
        // Now elim all the cards outside of this entry
        let mut exclude: Vec<usize> = Vec::new();
        let mut x: usize = 0;
        while x < entries.len()
            invariant
                x <= entries@.len(),
            decreases entries@.len() - x,
        {
            exclude.push(entries[x].player_index);
            x += 1;
        }
        let v = ids.to_vec();
        proof {
            lemma_in_range_ids(*ids, *state);
        }
        let mut i: usize = 0;
        while i < v.len()
            invariant
                state.wf(),
                state.consistent(),
                self.wf(*state),
                len == self.thoughts@.len(),
                len + 4 <= usize::MAX,
                n == state.num_suits(),
                i <= v@.len(),
                forall|j: int| 0 <= j < v@.len() ==> state.id_ok(#[trigger] v@[j]),
                shrinks(old_thoughts, self.thoughts@),
                poss_total(self.thoughts@) + (if changed { 1int } else { 0int }) <= poss_total(old_thoughts),
                !changed ==> self.thoughts@ == old_thoughts && cm@ == old_cm && resets@ == old_resets
                    && cands@ == old_cands,
                certain_ok(cm@, n, len),
                cm_grows(old_cm0, cm@),
                new_certain(old_cm0, cm@, self.thoughts@),
                entries_ok(cands@, len, state.num_players as nat),
                resets_ok(resets@, self.thoughts@),
                self.all_possible == old(self).all_possible,
                self.all_inferred == old(self).all_inferred,
                self.links@ == old(self).links@,
                self.hypo_stacks@ == old(self).hypo_stacks@,
                self.player_index == old(self).player_index,
                self.is_common == old(self).is_common,
            decreases v@.len() - i,
        {
            let ghost before = self.thoughts@;
            let ghost cm_b = cm@;
            let (inner_changed, _) = self.update_map(state, v[i], &exclude, resets, cm, cands);
            proof {
                lemma_shrinks_trans(old_thoughts, before, self.thoughts@);
                lemma_cm_grows_trans(old_cm0, cm_b, cm@);
                lemma_new_certain_shrinks(old_cm0, cm_b, before, self.thoughts@, len);
                lemma_new_certain_trans(old_cm0, cm_b, cm@, self.thoughts@);
            }
            changed = changed || inner_changed;
            i += 1;
        }
        let ghost before = self.thoughts@;
        let ghost cm_b = cm@;
        let basic = self.basic_card_elim(state, ids, resets, cm, cands);
        proof {
            lemma_shrinks_trans(old_thoughts, before, self.thoughts@);
            lemma_cm_grows_trans(old_cm0, cm_b, cm@);
            lemma_new_certain_shrinks(old_cm0, cm_b, before, self.thoughts@, len);
            lemma_new_certain_trans(old_cm0, cm_b, cm@, self.thoughts@);
        }
        basic || changed
    }

    /// Searches the subsets of the candidates, in order, for a group of cards that holds
    /// exactly the remaining copies of the identities they may be, and eliminates with
    /// the first one found. Returns whether some card changed.
    fn cross_card_elim(
        &mut self,
        state: &State,
        contained: &Vec<IdEntry>,
        acc_ids: &IdentitySet,
        certains: &Vec<usize>,
        next_index: usize,
        resets: &mut Vec<usize>,
        cm: &mut Vec<Vec<MatchEntry>>,
        cands: &mut Vec<IdEntry>,
    ) -> (r: bool)
        requires
            state.wf(),
            state.consistent(),
            old(self).wf(*state),
            in_range(*acc_ids, state.num_suits()),
            old(self).thoughts@.len() + 4 <= usize::MAX,
            old(self).thoughts@.len() == state.deck@.len(),
            next_index <= old(cands)@.len(),
            contained@.len() <= next_index,
            entries_ok(contained@, state.deck@.len(), state.num_players as nat),
            certain_ok(old(cm)@, state.num_suits(), old(self).thoughts@.len()),
            entries_ok(old(cands)@, old(self).thoughts@.len(), state.num_players as nat),
            resets_ok(old(resets)@, old(self).thoughts@),
        ensures
            final(self).wf(*state),
            shrinks(old(self).thoughts@, final(self).thoughts@),
            poss_total(final(self).thoughts@) + (if r { 1int } else { 0int }) <= poss_total(old(self).thoughts@),
            !r ==> final(self).thoughts@ == old(self).thoughts@ && final(cands)@ == old(cands)@ && final(cm)@
                == old(cm)@ && final(resets)@ == old(resets)@,
            certain_ok(final(cm)@, state.num_suits(), final(self).thoughts@.len()),
            entries_ok(final(cands)@, final(self).thoughts@.len(), state.num_players as nat),
            resets_ok(final(resets)@, final(self).thoughts@),
            final(self).all_possible@.subset_of(old(self).all_possible@),
            final(self).all_inferred@.subset_of(old(self).all_inferred@),
            final(self).links@ == old(self).links@,
            final(self).hypo_stacks@ == old(self).hypo_stacks@,
            final(self).player_index == old(self).player_index,
            final(self).is_common == old(self).is_common,
            cm_grows(old(cm)@, final(cm)@),
            new_certain(old(cm)@, final(cm)@, final(self).thoughts@),
        decreases old(cands)@.len() - next_index,
    {
        let ghost old_thoughts = self.thoughts@;
        let ghost old_cm0 = cm@;
        let ghost n = state.num_suits();
        let ghost len = self.thoughts@.len();
        if cands.len() == 1 {
            return false;
        }
        let acc_vec = acc_ids.to_vec();
        proof {
            lemma_in_range_ids(*acc_ids, *state);
            lemma_bits_finite(acc_ids.bits());
            crate::basics::identity_set::lemma_ords_below(acc_ids.bits(), usize::BITS as nat);
            assert(crate::basics::identity_set::bits_below(acc_ids.bits(), usize::BITS as int) =~= acc_ids@);
        }
        let multiplicity = state.remaining_multiplicity(acc_vec.as_slice());
        let rest = cands.len() - next_index;
        let free = match multiplicity.checked_sub(certains.len()) {
            Some(d) => d,
            None => { return false; },
        };
        // Impossible to reach multiplicity
        if free > contained.len() + rest {
            return false;
        }
        if contained.len() >= 2 && free == contained.len() {
            let inner_changed = self.perform_cross_elim(state, contained, acc_ids, resets, cm, cands);
            if inner_changed {
                return true;
            }
        }
        if next_index >= cands.len() {
            return false;
        }
        // Check all remaining subsets that contain the next item
        let item = cands[next_index];
        let item_poss = self.thoughts[item.order].possible;
        proof {
            assert(thought_ok(self.thoughts@[item.order as int], item.order as int, *state));
        }
        let new_acc = acc_ids.union(&item_poss);
        let mut next_contained = copy_entries(contained);
        next_contained.push(item);
        let mut next_certains = copy_orders(certains);
        let poss_ids = item_poss.to_vec();
        proof {
            lemma_in_range_ids(item_poss, *state);
            lemma_bits_finite(item_poss.bits());
            crate::basics::identity_set::lemma_ords_below(item_poss.bits(), usize::BITS as nat);
        }
        let mut i: usize = 0;
        while i < poss_ids.len()
            invariant
                state.wf(),
                i <= poss_ids@.len(),
                forall|j: int| 0 <= j < poss_ids@.len() ==> state.id_ok(#[trigger] poss_ids@[j]),
                certain_ok(cm@, n, len),
                cm_grows(old_cm0, cm@),
                new_certain(old_cm0, cm@, self.thoughts@),
                n == state.num_suits(),
            decreases poss_ids@.len() - i,
        {
            let id = poss_ids[i];
            proof {
                lemma_id_ok_valid(*state, id);
            }
            if !acc_ids.contains(id) {
                let k = id.to_ord();
                let list = &cm[k];
                let mut j: usize = 0;
                while j < list.len()
                    invariant
                        j <= list@.len(),
                    decreases list@.len() - j,
                {
                    let order = list[j].order;
                    if !vec_contains(certains, order) {
                        next_certains.push(order);
                    }
                    j += 1;
                }
            }
            i += 1;
        }
        let mut kept: Vec<usize> = Vec::new();
        let mut c: usize = 0;
        while c < next_certains.len()
            invariant
                c <= next_certains@.len(),
            decreases next_certains@.len() - c,
        {
            if !has_entry(&next_contained, next_certains[c]) {
                kept.push(next_certains[c]);
            }
            c += 1;
        }
        let included = self.cross_card_elim(state, &next_contained, &new_acc, &kept, next_index + 1, resets, cm, cands);
        if included {
            return true;
        }
        // Check all remaining subsets that skip the next item
        self.cross_card_elim(state, contained, acc_ids, certains, next_index + 1, resets, cm, cands)
    }

    /// Empathy on every card in the hands: first the cards known to everyone, then every
    /// identity whose copies are all accounted for, then, while one is found, a group of
    /// cards that holds all the remaining copies of the identities it may be.
    /// Returns the orders of the cards whose inferences ran out and were started over.
    #[verifier::spinoff_prover]
    pub fn card_elim(&mut self, state: &State) -> (resets: Vec<usize>)
        requires
            state.wf(),
            state.consistent(),
            old(self).wf(*state),
            old(self).thoughts@.len() == state.deck@.len(),
            old(self).thoughts@.len() + 4 <= usize::MAX,
        ensures
            final(self).wf(*state),
            shrinks(old(self).thoughts@, final(self).thoughts@),
            resets_ok(resets@, final(self).thoughts@),
            final(self).all_possible@.subset_of(old(self).all_possible@),
            final(self).all_inferred@.subset_of(old(self).all_inferred@),
            final(self).links@ == old(self).links@,
            final(self).hypo_stacks@ == old(self).hypo_stacks@,
            final(self).player_index == old(self).player_index,
            final(self).is_common == old(self).is_common,
            forall|x: int| 0 <= x < 5 * state.num_suits() && #[trigger] all_accounted(*state, *old(self), x)
                ==> eliminated(*state, *old(self), *final(self), x) || newly_certain(*state, *old(self), *final(self), x),
    {
        let ghost old_thoughts = self.thoughts@;
        let ghost old_self = *self;
        let ghost n = state.num_suits();
        let ghost len = self.thoughts@.len();
        let mut resets: Vec<usize> = Vec::new();
        let total = 5 * state.variant.suits.len();
        let mut cm: Vec<Vec<MatchEntry>> = Vec::new();
        while cm.len() < total
            invariant
                total == 5 * n,
                cm@.len() <= total,
                forall|k: int| 0 <= k < cm@.len() ==> (#[trigger] cm@[k])@.len() == 0,
            decreases total - cm@.len(),
        {
            cm.push(Vec::new());
        }
        let mut cands: Vec<IdEntry> = Vec::new();
        let actual = IdOptions { infer: false, symmetric: self.is_common };
        let symmetric = IdOptions { infer: false, symmetric: true };
        let mut p: usize = 0;
        while p < state.num_players
            invariant
                state.wf(),
                state.consistent(),
                self.wf(*state),
                self.thoughts@ == old_thoughts,
                len == self.thoughts@.len(),
                len == state.deck@.len(),
                n == state.num_suits(),
                p <= state.num_players,
                cm@.len() == 5 * n,
                forall|k: int, j: int|
                    0 <= k < cm@.len() && 0 <= j < cm@[k]@.len() ==> #[trigger] held_before(*state, p as int, 0, (#[trigger] cm@[k]@[j]).order as int),
                *self == old_self,
                actual == (IdOptions { infer: false, symmetric: old_self.is_common }),
                forall|k: int| 0 <= k < cm@.len() ==> (#[trigger] cm@[k])@.len() == visited(*state, p as int, 0).filter(|o: usize| known_as(old_self, o as int, k)).len(),
                forall|k: int, j: int| 0 <= k < cm@.len() && 0 <= j < cm@[k]@.len() ==> known_as(old_self, (#[trigger] cm@[k]@[j]).order as int, k),
                forall|k: int, j: int| 0 <= k < cm@.len() && 0 <= j < cm@[k]@.len() ==> ((#[trigger] cm@[k]@[j]).unknown_to matches Some(q) ==>
                    q < state.hands@.len() && exists|ii: int| 0 <= ii < state.hands@[q as int]@.len() && state.hands@[q as int]@[ii] == cm@[k]@[j].order),
                forall|k: int, m: int| 0 <= k < cm@.len() && 0 <= m < visited(*state, p as int, 0).len() && #[trigger] known_as(old_self, visited(*state, p as int, 0)[m] as int, k)
                    ==> exists|j: int| 0 <= j < cm@[k]@.len() && (#[trigger] cm@[k]@[j]).order == visited(*state, p as int, 0)[m],
                certain_ok(cm@, n, len),
                entries_ok(cands@, len, state.num_players as nat),
            decreases state.num_players - p,
        {
            let hand = &state.hands[p];
            let mut i: usize = 0;
            while i < hand.len()
                invariant
                    state.wf(),
                    state.consistent(),
                    self.wf(*state),
                    self.thoughts@ == old_thoughts,
                    len == self.thoughts@.len(),
                    len == state.deck@.len(),
                    n == state.num_suits(),
                    p < state.num_players,
                    *hand == state.hands@[p as int],
                    i <= hand@.len(),
                    cm@.len() == 5 * n,
                    forall|k: int, j: int|
                        0 <= k < cm@.len() && 0 <= j < cm@[k]@.len() ==> #[trigger] held_before(*state, p as int, i as int, (#[trigger] cm@[k]@[j]).order as int),
                    *self == old_self,
                    actual == (IdOptions { infer: false, symmetric: old_self.is_common }),
                    forall|k: int| 0 <= k < cm@.len() ==> (#[trigger] cm@[k])@.len() == visited(*state, p as int, i as int).filter(|o: usize| known_as(old_self, o as int, k)).len(),
                    forall|k: int, j: int| 0 <= k < cm@.len() && 0 <= j < cm@[k]@.len() ==> known_as(old_self, (#[trigger] cm@[k]@[j]).order as int, k),
                    forall|k: int, j: int| 0 <= k < cm@.len() && 0 <= j < cm@[k]@.len() ==> ((#[trigger] cm@[k]@[j]).unknown_to matches Some(q) ==>
                        q < state.hands@.len() && exists|ii: int| 0 <= ii < state.hands@[q as int]@.len() && state.hands@[q as int]@[ii] == cm@[k]@[j].order),
                    forall|k: int, m: int| 0 <= k < cm@.len() && 0 <= m < visited(*state, p as int, i as int).len() && #[trigger] known_as(old_self, visited(*state, p as int, i as int)[m] as int, k)
                        ==> exists|j: int| 0 <= j < cm@[k]@.len() && (#[trigger] cm@[k]@[j]).order == visited(*state, p as int, i as int)[m],
                    certain_ok(cm@, n, len),
                    entries_ok(cands@, len, state.num_players as nat),
                decreases hand@.len() - i,
            {
                let order = hand[i];
                let ghost cm_s = cm@;
                assert(order < state.deck@.len()) by {
                    assert(state.hands@[p as int]@[i as int] < state.deck@.len());
                }
                let thought = self.thoughts[order];
                proof {
                    assert(thought_ok(thought, order as int, *state));
                    lemma_identity_ok(thought, order as int, *state, actual);
                }
                let id = thought.identity(&actual);
                let unknown_to = if thought.identity(&symmetric).is_none() { Some(p) } else { None };
                if let Some(id) = id {
                    let k = id.to_ord();
                    let ghost cm_before = cm@;
                    let list = push_entry(&cm[k], MatchEntry { order, unknown_to });
                    cm.set(k, list);
                    proof {
                        assert(!held_before(*state, p as int, i as int, order as int)) by {
                            if held_before(*state, p as int, i as int, order as int) {
                                let (p2, i2) = choose|p2: int, i2: int|
                                    0 <= p2 < state.hands@.len() && 0 <= i2 < state.hands@[p2]@.len() && (p2 < p || (p2 == p && i2 < i))
                                        && #[trigger] state.hands@[p2]@[i2] == order as int;
                                assert(state.hands@[p as int]@[i as int] == order);
                            }
                        }
                        assert forall|kk: int, j1: int, j2: int|
                            0 <= kk < cm@.len() && 0 <= j1 < cm@[kk]@.len() && 0 <= j2 < cm@[kk]@.len() && j1 != j2 implies
                            (#[trigger] cm@[kk]@[j1]).order != (#[trigger] cm@[kk]@[j2]).order by {
                            if kk == k as int {
                                if j1 < cm_before[kk]@.len() && j2 < cm_before[kk]@.len() {
                                    assert(cm_before[kk]@[j1] == cm@[kk]@[j1]);
                                    assert(cm_before[kk]@[j2] == cm@[kk]@[j2]);
                                } else if j1 < cm_before[kk]@.len() {
                                    assert(held_before(*state, p as int, i as int, cm_before[kk]@[j1].order as int));
                                } else {
                                    assert(held_before(*state, p as int, i as int, cm_before[kk]@[j2].order as int));
                                }
                            }
                        }
                        assert forall|kk: int, j: int|
                            0 <= kk < cm@.len() && 0 <= j < cm@[kk]@.len() implies (#[trigger] cm@[kk]@[j]).order < len by {
                            if kk == k as int && j < cm_before[kk]@.len() {
                                assert(cm_before[kk]@[j] == cm@[kk]@[j]);
                            }
                        }
                    }
                }
                proof {
                    assert forall|kk: int, j: int|
                        0 <= kk < cm@.len() && 0 <= j < cm@[kk]@.len() implies #[trigger] held_before(*state, p as int, i + 1, (#[trigger] cm@[kk]@[j]).order as int) by {
                        let x = cm@[kk]@[j].order as int;
                        if x == order as int {
                            assert(state.hands@[p as int]@[i as int] == x);
                        } else {
                            assert(held_before(*state, p as int, i as int, x));
                            let (p2, i2) = choose|p2: int, i2: int|
                                0 <= p2 < state.hands@.len() && 0 <= i2 < state.hands@[p2]@.len() && (p2 < p || (p2 == p && i2 < i))
                                    && #[trigger] state.hands@[p2]@[i2] == x;
                            assert(state.hands@[p2]@[i2] == x);
                        }
                    }
                }
                proof {
                    assert(actual == IdOptions { infer: false, symmetric: old_self.is_common });
                    assert(id == old_self.thoughts@[order as int].identity_spec(IdOptions { infer: false, symmetric: old_self.is_common }));
                    assert forall|k: int, j: int| 0 <= k < cm@.len() && 0 <= j < cm@[k]@.len() implies ((#[trigger] cm@[k]@[j]).unknown_to matches Some(q) ==>
                        q < state.hands@.len() && exists|ii: int| 0 <= ii < state.hands@[q as int]@.len() && state.hands@[q as int]@[ii] == cm@[k]@[j].order) by {
                        if j < cm_s[k]@.len() {
                            assert(cm@[k]@[j] == cm_s[k]@[j]);
                        } else {
                            match id {
                                Some(idv) => {
                                    assert(k == idv.ord());
                                    assert(cm@[k]@ == cm_s[k]@.push(MatchEntry { order, unknown_to }));
                                    assert(cm@[k]@[j] == MatchEntry { order, unknown_to });
                                    if let Some(q) = unknown_to {
                                        assert(q == p);
                                        assert(state.hands@[q as int]@[i as int] == cm@[k]@[j].order);
                                    }
                                },
                                None => {
                                    assert(cm@[k] == cm_s[k]);
                                },
                            }
                        }
                    }
                    let vis = visited(*state, p as int, i as int);
                    let vis2 = visited(*state, p as int, i + 1);
                    assert(state.hands@[p as int]@.take(i + 1) =~= state.hands@[p as int]@.take(i as int).push(order));
                    assert(vis2 =~= vis.push(order));
                    assert forall|k: int| 0 <= k < cm@.len() implies (#[trigger] cm@[k])@.len() == vis2.filter(|o: usize| known_as(old_self, o as int, k)).len() by {
                        lemma_filter_push(vis, order, |o: usize| known_as(old_self, o as int, k));
                        assert(cm_s[k]@.len() == vis.filter(|o: usize| known_as(old_self, o as int, k)).len());
                        lemma_of_ord_valid(k);
                        match id {
                            Some(idv) => {
                                lemma_ord_roundtrip(idv);
                                if k == idv.ord() {
                                    assert(known_as(old_self, order as int, k));
                                } else {
                                    assert(!known_as(old_self, order as int, k));
                                    assert(cm@[k] == cm_s[k]);
                                }
                            },
                            None => {
                                assert(!known_as(old_self, order as int, k));
                            },
                        }
                    }
                    assert forall|k: int, m: int| 0 <= k < cm@.len() && 0 <= m < vis2.len() && #[trigger] known_as(old_self, vis2[m] as int, k)
                        implies exists|j: int| 0 <= j < cm@[k]@.len() && (#[trigger] cm@[k]@[j]).order == vis2[m] by {
                        lemma_of_ord_valid(k);
                        if m < vis.len() {
                            assert(vis2[m] == vis[m]);
                            assert(known_as(old_self, vis[m] as int, k));
                            let j = choose|j: int| 0 <= j < cm_s[k]@.len() && (#[trigger] cm_s[k]@[j]).order == vis[m];
                            match id {
                                Some(idv) => {
                                    if k == idv.ord() {
                                        assert(cm@[k]@[j] == cm_s[k]@[j]);
                                    } else {
                                        assert(cm@[k] == cm_s[k]);
                                    }
                                },
                                None => {},
                            }
                            assert(cm@[k]@[j].order == vis2[m]);
                        } else {
                            assert(vis2[m] == order);
                            match id {
                                Some(idv) => {
                                    lemma_ord_roundtrip(idv);
                                    assert(k == idv.ord());
                                    assert(cm@[k]@[cm_s[k]@.len() as int].order == order);
                                },
                                None => {
                                    assert(false);
                                },
                            }
                        }
                    }
                }
                if thought.possible.len() > 1 {
                    let poss = thought.possible.to_vec();
                    proof {
                        lemma_in_range_ids(thought.possible, *state);
                        lemma_bits_finite(thought.possible.bits());
                        crate::basics::identity_set::lemma_ords_below(thought.possible.bits(), usize::BITS as nat);
                        assert(crate::basics::identity_set::bits_below(thought.possible.bits(), usize::BITS as int) =~= thought.possible@);
                    }
                    if any_useful(state, &poss) {
                        if state.remaining_multiplicity(poss.as_slice()) <= 8 {
                            cands.push(IdEntry { order, player_index: p });
                        }
                    }
                }
                i += 1;
            }
            proof {
                assert forall|kk: int, j: int|
                    0 <= kk < cm@.len() && 0 <= j < cm@[kk]@.len() implies #[trigger] held_before(*state, p + 1, 0, (#[trigger] cm@[kk]@[j]).order as int) by {
                    let x = cm@[kk]@[j].order as int;
                    assert(held_before(*state, p as int, hand@.len() as int, x));
                    let (p2, i2) = choose|p2: int, i2: int|
                        0 <= p2 < state.hands@.len() && 0 <= i2 < state.hands@[p2]@.len() && (p2 < p || (p2 == p && i2 < hand@.len()))
                            && #[trigger] state.hands@[p2]@[i2] == x;
                    assert(state.hands@[p2]@[i2] == x);
                }
                let hp = state.hands@.take(p + 1);
                assert(hp.drop_last() =~= state.hands@.take(p as int));
                assert(state.hands@[p as int]@.take(hand@.len() as int) =~= state.hands@[p as int]@);
                assert(visited(*state, p + 1, 0) =~= visited(*state, p as int, hand@.len() as int));
            }
            p += 1;
        }
        proof {
            assert(state.hands@.take(state.num_players as int) =~= state.hands@);
            assert(visited(*state, state.num_players as int, 0) =~= crate::basics::hands_flat(state.hands@));
        }
        let all = all_id_set(&state.variant);
        proof {
            assert(state.variant.wf());
        }
        let ghost cm0 = cm@;
        self.basic_card_elim(state, &all, &mut resets, &mut cm, &mut cands);
        proof {
            assert forall|x: int| 0 <= x < 5 * n implies #[trigger] basic_done(*state, cm0, cm@, *self, x) by {
                assert(all@.contains(x));
            }
        }
        let empty_entries: Vec<IdEntry> = Vec::new();
        let empty_orders: Vec<usize> = Vec::new();
        let none = IdentitySet::empty();
        loop
            invariant
                state.wf(),
                state.consistent(),
                self.wf(*state),
                len == self.thoughts@.len(),
                len == state.deck@.len(),
                len + 4 <= usize::MAX,
                n == state.num_suits(),
                empty_entries@.len() == 0,
                empty_orders@.len() == 0,
                none@ == Set::<int>::empty(),
                shrinks(old_thoughts, self.thoughts@),
                certain_ok(cm@, n, len),
                entries_ok(cands@, len, state.num_players as nat),
                resets_ok(resets@, self.thoughts@),
                self.all_possible@.subset_of(old(self).all_possible@),
                self.all_inferred@.subset_of(old(self).all_inferred@),
                self.links@ == old(self).links@,
                self.hypo_stacks@ == old(self).hypo_stacks@,
                self.player_index == old(self).player_index,
                self.is_common == old(self).is_common,
                cm0.len() == 5 * n,
                cm_grows(cm0, cm@),
                new_certain(cm0, cm@, self.thoughts@),
                forall|x: int| 0 <= x < 5 * n ==> #[trigger] basic_done(*state, cm0, cm@, *self, x),
            decreases poss_total(self.thoughts@),
        {
            let ghost before = self.thoughts@;
            let ghost ap = self.all_possible@;
            let ghost ai = self.all_inferred@;
            let ghost cm_b = cm@;
            let ghost self_b = *self;
            let changed = self.cross_card_elim(state, &empty_entries, &none, &empty_orders, 0, &mut resets, &mut cm, &mut cands);
            proof {
                lemma_shrinks_trans(old_thoughts, before, self.thoughts@);
                lemma_cm_grows_trans(cm0, cm_b, cm@);
                lemma_new_certain_shrinks(cm0, cm_b, before, self.thoughts@, len);
                lemma_new_certain_trans(cm0, cm_b, cm@, self.thoughts@);
                assert forall|x: int| 0 <= x < 5 * n implies #[trigger] basic_done(*state, cm0, cm@, *self, x) by {
                    assert(basic_done(*state, cm0, cm_b, self_b, x));
                    lemma_basic_done_kept(*state, cm0, cm_b, cm@, self_b, *self, x);
                }
                assert(self.all_possible@.subset_of(ap));
                assert(self.all_inferred@.subset_of(ai));
            }
            if !changed {
                break;
            }
        }
        proof {
            let flat = crate::basics::hands_flat(state.hands@);
            assert forall|x: int| 0 <= x < 5 * state.num_suits() && #[trigger] all_accounted(*state, old_self, x)
                implies eliminated(*state, old_self, *self, x) || newly_certain(*state, old_self, *self, x) by {
                let f = |o: usize| known_as(old_self, o as int, x);
                assert(f =~= (|o: usize| known_as(old_self, o as int, x)));
                assert(cm0[x]@.len() == known_cards(*state, old_self, x).len());
                assert(list_grows(cm0[x]@, cm@[x]@));
                if cm@[x]@.len() == cm0[x]@.len() {
                    assert(count_met(*state, cm0, cm@, x));
                    assert(basic_done(*state, cm0, cm@, *self, x));
                    assert forall|p: int, i: int| 0 <= p < state.hands@.len() && 0 <= i < state.hands@[p]@.len()
                        && (forall|j: int| 0 <= j < state.hands@[p]@.len() ==> !known_as(old_self, #[trigger] state.hands@[p]@[j] as int, x))
                        implies !self.thoughts@[#[trigger] state.hands@[p]@[i] as int].possible@.contains(x) by {
                        if blocked_by(cm0[x]@, state.hands@[p]@[i], p) {
                            let j = choose|j: int| 0 <= j < cm0[x]@.len() && ((#[trigger] cm0[x]@[j]).order == state.hands@[p]@[i] || cm0[x]@[j].unknown_to == Some(p as usize));
                            assert(known_as(old_self, cm0[x]@[j].order as int, x));
                            if cm0[x]@[j].order != state.hands@[p]@[i] {
                                let ii = choose|ii: int| 0 <= ii < state.hands@[p]@.len() && state.hands@[p]@[ii] == cm0[x]@[j].order;
                                assert(!known_as(old_self, state.hands@[p]@[ii] as int, x));
                            }
                        }
                        assert(elim_spot(*state, Seq::<usize>::empty(), cm0[x]@, p, i));
                    }
                    assert(eliminated(*state, old_self, *self, x));
                } else {
                    let j0 = cm0[x]@.len() as int;
                    let o = cm@[x]@[j0].order;
                    assert(self.thoughts@[o as int].possible@.subset_of(set![x]));
                    if known_cards(*state, old_self, x).contains(o) {
                        flat.lemma_filter_contains_rev(f, o);
                        let m = choose|m: int| 0 <= m < flat.len() && flat[m] == o;
                        let fi = choose|fi: int| 0 <= fi < flat.filter(f).len() && flat.filter(f)[fi] == o;
                        flat.lemma_filter_pred(f, fi);
                        assert(known_as(old_self, flat[m] as int, x));
                        let j = choose|j: int| 0 <= j < cm0[x]@.len() && (#[trigger] cm0[x]@[j]).order == flat[m];
                        assert(cm@[x]@[j].order == o);
                        assert(false);
                    }
                    assert(newly_certain(*state, old_self, *self, x));
                }
            }
        }
        resets
    }

    /// Good touch: a touched card is not trash, so the trash identities leave the
    /// inferences of every touched card that may still be useful.
    /// Returns the orders of the cards whose inferences ran out and were started over.
    pub fn good_touch_elim(&mut self, frame: &Frame) -> (resets: Vec<usize>)
        requires
            frame.wf(),
            old(self).wf(*frame.state),
            old(self).thoughts@.len() == frame.state.deck@.len(),
        ensures
            final(self).wf(*frame.state),
            shrinks(old(self).thoughts@, final(self).thoughts@),
            forall|o: int|
                0 <= o < old(self).thoughts@.len() ==> if in_hands(*frame.state, o) && good_touch_target(
                    *frame,
                    old(self).thoughts@[o],
                ) {
                    good_touched(old(self).thoughts@[o], trash_ords(*frame.state), #[trigger] final(self).thoughts@[o])
                } else {
                    final(self).thoughts@[o] == old(self).thoughts@[o]
                },
            forall|o: usize|
                #[trigger] resets@.contains(o) <==> o < old(self).thoughts@.len() && in_hands(*frame.state, o as int)
                    && good_touch_target(*frame, old(self).thoughts@[o as int])
                    && old(self).thoughts@[o as int].inferred@.difference(trash_ords(*frame.state)) == Set::<int>::empty(),
            resets_ok(resets@, final(self).thoughts@),
            final(self).all_possible == old(self).all_possible,
            final(self).all_inferred == old(self).all_inferred,
            final(self).links@ == old(self).links@,
            final(self).hypo_stacks@ == old(self).hypo_stacks@,
            final(self).player_index == old(self).player_index,
            final(self).is_common == old(self).is_common,
    {
        let state = frame.state;
        let ghost old_thoughts = self.thoughts@;
        let ghost len = self.thoughts@.len();
        let ghost n = state.num_suits();
        let all = all_id_set(&state.variant);
        proof {
            assert forall|o: int| #[trigger] all@.contains(o) implies Identity::of_ord(o).suit_index < state.play_stacks@.len()
                && Identity::of_ord(o).suit_index < state.max_ranks@.len() by {
                assert(o / 5 < n) by (nonlinear_arith)
                    requires 0 <= o < 5 * n;
            }
        }
        let trash = all.filter(|i: Identity| -> (r: bool)
            requires i.suit_index < state.play_stacks@.len() && i.suit_index < state.max_ranks@.len()
            ensures r == state.is_basic_trash_spec(i)
            { state.is_basic_trash(i) });
        proof {
            assert(trash@ =~= trash_ords(*state)) by {
                assert forall|o: int| trash@.contains(o) <==> trash_ords(*state).contains(o) by {
                    if all@.contains(o) {
                        assert(trash@.contains(o) ==> state.is_basic_trash_spec(Identity::of_ord(o)));
                        assert(!trash@.contains(o) ==> !state.is_basic_trash_spec(Identity::of_ord(o)));
                    }
                }
            }
        }
        let symmetric = IdOptions { infer: false, symmetric: true };
        let mut cands: Vec<usize> = Vec::new();
        let mut p: usize = 0;
        while p < state.num_players
            invariant
                frame.wf(),
                state == frame.state,
                self.wf(*state),
                self.thoughts@ == old_thoughts,
                len == self.thoughts@.len(),
                len == state.deck@.len(),
                trash@ == trash_ords(*state),
                symmetric == (IdOptions { infer: false, symmetric: true }),
                p <= state.num_players,
                forall|j: int| 0 <= j < cands@.len() ==> held_before(*state, p as int, 0, #[trigger] cands@[j] as int)
                    && cands@[j] < len && good_touch_target(*frame, old_thoughts[cands@[j] as int]),
                forall|j1: int, j2: int| 0 <= j1 < cands@.len() && 0 <= j2 < cands@.len() && j1 != j2 ==> #[trigger] cands@[j1] != #[trigger] cands@[j2],
                forall|p2: int, i2: int| 0 <= p2 < p && 0 <= i2 < state.hands@[p2]@.len()
                    && good_touch_target(*frame, old_thoughts[#[trigger] state.hands@[p2]@[i2] as int]) ==> cands@.contains(state.hands@[p2]@[i2]),
            decreases state.num_players - p,
        {
            let hand = &state.hands[p];
            let mut i: usize = 0;
            while i < hand.len()
                invariant
                    frame.wf(),
                    state == frame.state,
                    self.wf(*state),
                    self.thoughts@ == old_thoughts,
                    len == self.thoughts@.len(),
                    len == state.deck@.len(),
                    trash@ == trash_ords(*state),
                    symmetric == (IdOptions { infer: false, symmetric: true }),
                    p < state.num_players,
                    *hand == state.hands@[p as int],
                    i <= hand@.len(),
                    forall|j: int| 0 <= j < cands@.len() ==> held_before(*state, p as int, i as int, #[trigger] cands@[j] as int)
                        && cands@[j] < len && good_touch_target(*frame, old_thoughts[cands@[j] as int]),
                    forall|j1: int, j2: int| 0 <= j1 < cands@.len() && 0 <= j2 < cands@.len() && j1 != j2 ==> #[trigger] cands@[j1] != #[trigger] cands@[j2],
                    forall|p2: int, i2: int| 0 <= p2 < state.hands@.len() && 0 <= i2 < state.hands@[p2]@.len() && (p2 < p || (p2 == p && i2 < i))
                        && good_touch_target(*frame, old_thoughts[#[trigger] state.hands@[p2]@[i2] as int]) ==> cands@.contains(state.hands@[p2]@[i2]),
                decreases hand@.len() - i,
            {
                let order = hand[i];
                assert(order < state.deck@.len()) by {
                    assert(state.hands@[p as int]@[i as int] < state.deck@.len());
                }
                let thought = self.thoughts[order];
                proof {
                    assert(thought_ok(thought, order as int, *state));
                }
                let skip = frame.meta[order].trash || thought.reset || thought.identity(&symmetric).is_some();
                let ghost cands_before = cands@;
                if !skip {
                    if !thought.inferred.is_empty() && !thought.possible.difference(&trash).is_empty() && frame.is_touched(order) {
                        proof {
                            assert(!held_before(*state, p as int, i as int, order as int)) by {
                                if held_before(*state, p as int, i as int, order as int) {
                                    let (p2, i2) = choose|p2: int, i2: int|
                                        0 <= p2 < state.hands@.len() && 0 <= i2 < state.hands@[p2]@.len() && (p2 < p || (p2 == p && i2 < i))
                                            && #[trigger] state.hands@[p2]@[i2] == order as int;
                                    assert(state.hands@[p as int]@[i as int] == order);
                                }
                            }
                        }
                        cands.push(order);
                    }
                }
                proof {
                    assert(state.hands@[p as int]@[i as int] == order);
                    assert forall|j: int| 0 <= j < cands@.len() implies held_before(*state, p as int, i + 1, #[trigger] cands@[j] as int)
                        && cands@[j] < len && good_touch_target(*frame, old_thoughts[cands@[j] as int]) by {
                        let x = cands@[j] as int;
                        if j < cands_before.len() {
                            assert(cands_before[j] == cands@[j]);
                            assert(held_before(*state, p as int, i as int, x));
                            let (p2, i2) = choose|p2: int, i2: int|
                                0 <= p2 < state.hands@.len() && 0 <= i2 < state.hands@[p2]@.len() && (p2 < p || (p2 == p && i2 < i))
                                    && #[trigger] state.hands@[p2]@[i2] == x;
                            assert(state.hands@[p2]@[i2] == x);
                        } else {
                            assert(state.hands@[p as int]@[i as int] == x);
                        }
                    }
                    assert forall|j1: int, j2: int| 0 <= j1 < cands@.len() && 0 <= j2 < cands@.len() && j1 != j2 implies #[trigger] cands@[j1] != #[trigger] cands@[j2] by {
                        if j1 < cands_before.len() && j2 < cands_before.len() {
                            assert(cands_before[j1] == cands@[j1] && cands_before[j2] == cands@[j2]);
                        } else if j1 < cands_before.len() {
                            assert(held_before(*state, p as int, i as int, cands_before[j1] as int));
                        } else if j2 < cands_before.len() {
                            assert(held_before(*state, p as int, i as int, cands_before[j2] as int));
                        }
                    }
                    assert forall|p2: int, i2: int| 0 <= p2 < state.hands@.len() && 0 <= i2 < state.hands@[p2]@.len() && (p2 < p || (p2 == p && i2 < i + 1))
                        && good_touch_target(*frame, old_thoughts[#[trigger] state.hands@[p2]@[i2] as int]) implies cands@.contains(state.hands@[p2]@[i2]) by {
                        if p2 == p && i2 == i {
                            assert(cands@[cands@.len() - 1] == order);
                        } else {
                            let j = choose|j: int| 0 <= j < cands_before.len() && cands_before[j] == state.hands@[p2]@[i2];
                            assert(cands@[j] == cands_before[j]);
                        }
                    }
                }
                i += 1;
            }
            proof {
                assert forall|j: int| 0 <= j < cands@.len() implies held_before(*state, p + 1, 0, #[trigger] cands@[j] as int)
                    && cands@[j] < len && good_touch_target(*frame, old_thoughts[cands@[j] as int]) by {
                    let x = cands@[j] as int;
                    assert(held_before(*state, p as int, hand@.len() as int, x));
                    let (p2, i2) = choose|p2: int, i2: int|
                        0 <= p2 < state.hands@.len() && 0 <= i2 < state.hands@[p2]@.len() && (p2 < p || (p2 == p && i2 < hand@.len()))
                            && #[trigger] state.hands@[p2]@[i2] == x;
                    assert(state.hands@[p2]@[i2] == x);
                }
            }
            p += 1;
        }
        // Remove all trash identities
        let mut resets: Vec<usize> = Vec::new();
        let mut k: usize = 0;
        while k < cands.len()
            invariant
                frame.wf(),
                state == frame.state,
                self.wf(*state),
                len == self.thoughts@.len(),
                len == state.deck@.len(),
                trash@ == trash_ords(*state),
                k <= cands@.len(),
                forall|j: int| 0 <= j < cands@.len() ==> #[trigger] cands@[j] < len && good_touch_target(*frame, old_thoughts[cands@[j] as int]),
                forall|j1: int, j2: int| 0 <= j1 < cands@.len() && 0 <= j2 < cands@.len() && j1 != j2 ==> #[trigger] cands@[j1] != #[trigger] cands@[j2],
                forall|o: int| 0 <= o < len ==> if cands@.take(k as int).contains(o as usize) {
                    good_touched(old_thoughts[o], trash@, #[trigger] self.thoughts@[o])
                } else {
                    self.thoughts@[o] == old_thoughts[o]
                },
                forall|o: usize| #[trigger] resets@.contains(o) <==> o < len && cands@.take(k as int).contains(o)
                    && old_thoughts[o as int].inferred@.difference(trash@) == Set::<int>::empty(),
                resets_ok(resets@, self.thoughts@),
                self.all_possible == old(self).all_possible,
                self.all_inferred == old(self).all_inferred,
                self.links@ == old(self).links@,
                self.hypo_stacks@ == old(self).hypo_stacks@,
                self.player_index == old(self).player_index,
                self.is_common == old(self).is_common,
            decreases cands@.len() - k,
        {
            let order = cands[k];
            let ghost before = self.thoughts@;
            proof {
                assert(!cands@.take(k as int).contains(order)) by {
                    if cands@.take(k as int).contains(order) {
                        let j = choose|j: int| 0 <= j < k && cands@.take(k as int)[j] == order;
                        assert(cands@[j] == cands@[k as int]);
                    }
                }
                assert(self.thoughts@[order as int] == old_thoughts[order as int]);
                assert(thought_ok(old_thoughts[order as int], order as int, *state));
            }
            let ghost old_resets = resets@;
            let mut t = self.thoughts[order];
            t.inferred = t.inferred.difference(&trash);
            let ghost left = t.inferred@;
            let emptied = t.inferred.is_empty();
            if emptied && !t.reset {
                t.reset_inferences();
                resets.push(order);
            }
            self.thoughts.set(order, t);
            proof {
                assert(cands@.take(k + 1) =~= cands@.take(k as int).push(order));
                assert(good_touched(old_thoughts[order as int], trash@, t));
                assert(thought_ok(t, order as int, *state));
                assert forall|o: int| 0 <= o < self.thoughts@.len() implies thought_ok(#[trigger] self.thoughts@[o], o, *state) by {
                    if o != order as int {
                        assert(self.thoughts@[o] == before[o]);
                    }
                }
                assert forall|o: int| 0 <= o < len implies if cands@.take(k + 1).contains(o as usize) {
                    good_touched(old_thoughts[o], trash@, #[trigger] self.thoughts@[o])
                } else {
                    self.thoughts@[o] == old_thoughts[o]
                } by {
                    if o != order as int {
                        assert(self.thoughts@[o] == before[o]);
                        assert(cands@.take(k + 1).contains(o as usize) == cands@.take(k as int).contains(o as usize));
                    } else {
                        assert(cands@.take(k + 1)[k as int] == order);
                        assert(cands@.take(k + 1).contains(o as usize));
                    }
                }
                assert forall|j: int| 0 <= j < resets@.len() implies #[trigger] resets@[j] < self.thoughts@.len() && self.thoughts@[resets@[j] as int].reset by {
                    if resets@[j] != order {
                        assert(self.thoughts@[resets@[j] as int] == before[resets@[j] as int]);
                    }
                }
                assert(left == old_thoughts[order as int].inferred@.difference(trash@));
                assert(!old_thoughts[order as int].reset);
                assert(resets@ == old_resets || resets@ == old_resets.push(order));
                assert(resets@ == old_resets.push(order) <==> left == Set::<int>::empty());
                assert forall|o: usize| #[trigger] resets@.contains(o) <==> o < len && cands@.take(k + 1).contains(o)
                    && old_thoughts[o as int].inferred@.difference(trash@) == Set::<int>::empty() by {
                    if resets@ != old_resets {
                        if resets@.contains(o) {
                            let j = choose|j: int| 0 <= j < resets@.len() && resets@[j] == o;
                            if j < old_resets.len() {
                                assert(old_resets[j] == o);
                            }
                        }
                        if old_resets.contains(o) {
                            let j = choose|j: int| 0 <= j < old_resets.len() && old_resets[j] == o;
                            assert(resets@[j] == o);
                        }
                        assert(resets@[old_resets.len() as int] == order);
                    }
                    if o == order {
                        assert(cands@.take(k + 1)[k as int] == order);
                        assert(cands@.take(k + 1).contains(o));
                        assert(!old_resets.contains(o));
                    } else {
                        assert(cands@.take(k + 1).contains(o) == cands@.take(k as int).contains(o)) by {
                            if cands@.take(k + 1).contains(o) {
                                let j = choose|j: int| 0 <= j < k + 1 && #[trigger] cands@.take(k + 1)[j] == o;
                                assert(cands@.take(k as int)[j] == o);
                            }
                            if cands@.take(k as int).contains(o) {
                                let j = choose|j: int| 0 <= j < k && #[trigger] cands@.take(k as int)[j] == o;
                                assert(cands@.take(k + 1)[j] == o);
                            }
                        }
                    }
                }
            }
            k += 1;
        }
        proof {
            assert(cands@.take(cands@.len() as int) =~= cands@);
            assert forall|o: usize| o < len implies (#[trigger] cands@.contains(o) <==> in_hands(*state, o as int) && good_touch_target(*frame, old_thoughts[o as int])) by {
                if cands@.contains(o) {
                    let j = choose|j: int| 0 <= j < cands@.len() && cands@[j] == o;
                    assert(held_before(*state, state.num_players as int, 0, cands@[j] as int));
                }
                if in_hands(*state, o as int) && good_touch_target(*frame, old_thoughts[o as int]) {
                    let (p2, i2) = choose|p2: int, i2: int|
                        0 <= p2 < state.hands@.len() && 0 <= i2 < state.hands@[p2]@.len() && #[trigger] state.hands@[p2]@[i2] == o as int;
                    assert(state.hands@[p2]@[i2] == o);
                }
            }
            assert forall|o: int| 0 <= o < old_thoughts.len() implies (#[trigger] self.thoughts@[o]).possible@.subset_of(old_thoughts[o].possible@)
                && self.thoughts@[o].inferred@.subset_of(old_thoughts[o].inferred@.union(old_thoughts[o].possible@)) by {
            }
        }
        resets
    }
}

/// The identities, one after the other.
fn copy_ids(v: &Vec<Identity>) -> (r: Vec<Identity>)
    ensures
        r@ == v@,
{
    let mut r: Vec<Identity> = Vec::new();
    let mut i: usize = 0;
    while i < v.len()
        invariant
            i <= v@.len(),
            r@ == v@.take(i as int),
        decreases v@.len() - i,
    {
        r.push(v[i]);
        proof {
            assert(r@ =~= v@.take(i + 1));
        }
        i += 1;
    }
    proof {
        assert(v@.take(v@.len() as int) =~= v@);
    }
    r
}

/// Two links with the same kind, cards and identities.
pub open spec fn same_link(a: Link, b: Link) -> bool {
    match (a, b) {
        (Link::Promised { orders: o1, id: i1, target: t1 }, Link::Promised { orders: o2, id: i2, target: t2 }) => o1@
            == o2@ && i1 == i2 && t1 == t2,
        (Link::Unpromised { orders: o1, ids: d1 }, Link::Unpromised { orders: o2, ids: d2 }) => o1@ == o2@ && d1@
            == d2@,
        _ => false,
    }
}

/// The same link.
fn copy_link(l: &Link) -> (r: Link)
    ensures
        same_link(r, *l),
{
    match l {
        Link::Promised { orders, id, target } => Link::Promised { orders: copy_orders(orders), id: *id, target: *target },
        Link::Unpromised { orders, ids } => Link::Unpromised { orders: copy_orders(orders), ids: copy_ids(ids) },
    }
}

/// The promised links have at least two cards, each of which may be the promised identity.
pub open spec fn promises_ok(links: Seq<Link>, thoughts: Seq<Thought>) -> bool {
    forall|l: int| 0 <= l < links.len() ==> (#[trigger] links[l] matches Link::Promised { orders, id, .. } ==> orders@.len() >= 2
        && forall|j: int| 0 <= j < orders@.len() ==> thoughts[#[trigger] orders@[j] as int].possible@.contains(id.ord()))
}

/// No card of a promised link is already known to be the promised identity (by its
/// possibilities or by sight).
pub open spec fn promises_open(links: Seq<Link>, thoughts: Seq<Thought>) -> bool {
    forall|l: int| 0 <= l < links.len() ==> (#[trigger] links[l] matches Link::Promised { orders, id, .. } ==>
        forall|j: int| 0 <= j < orders@.len() ==> thoughts[#[trigger] orders@[j] as int].identity_spec(IdOptions { infer: false, symmetric: false }) != Some(id))
}

/// Every unpromised link holds more cards than identities.
pub open spec fn unpromised_ok(links: Seq<Link>) -> bool {
    forall|l: int| 0 <= l < links.len() ==> (#[trigger] links[l] matches Link::Unpromised { orders, ids } ==> orders@.len() > ids@.len())
}

/// What settling a link leaves of a matched card: the focused card is inferred to be the
/// identity, any other has lost it, unless it started over there.
pub open spec fn link_settled(old: Thought, new: Thought, focused: bool, id: Identity) -> bool {
    if focused {
        new.inferred@ == set![id.ord()]
    } else {
        !new.inferred@.contains(id.ord()) || (new.reset && !old.reset)
    }
}

impl Player {
    /// Settles a link whose one identity a focused card holds: the focused card is
    /// inferred to be it, the others lose it, and those left with no inference start over,
    /// without the identities that are trash for them where good touch holds.
    fn elim_link(&mut self, frame: &Frame, matches: &Vec<usize>, focused_order: usize, id: Identity, good_touch: bool)
        requires
            frame.wf(),
            old(self).wf(*frame.state),
            old(self).thoughts@.len() == frame.state.deck@.len(),
            frame.state.id_ok(id),
            forall|j: int| 0 <= j < matches@.len() ==> #[trigger] matches@[j] < frame.state.deck@.len(),
            forall|j: int| 0 <= j < matches@.len() ==> {
                let t = #[trigger] old(self).thoughts@[matches@[j] as int];
                t.possible@.contains(id.ord()) || t.inferred@.contains(id.ord())
            },
        ensures
            final(self).wf(*frame.state),
            shrinks(old(self).thoughts@, final(self).thoughts@),
            forall|o: int| 0 <= o < old(self).thoughts@.len() && !matches@.contains(o as usize) ==> #[trigger] final(self).thoughts@[o] == old(self).thoughts@[o],
            forall|o: int| 0 <= o < old(self).thoughts@.len() ==> (#[trigger] final(self).thoughts@[o]).possible == old(self).thoughts@[o].possible,
            forall|j: int| 0 <= j < matches@.len() ==> link_settled(old(self).thoughts@[#[trigger] matches@[j] as int],
                final(self).thoughts@[matches@[j] as int], matches@[j] == focused_order, id),
            final(self).links@ == old(self).links@,
            final(self).all_possible == old(self).all_possible,
            final(self).all_inferred == old(self).all_inferred,
            final(self).hypo_stacks@ == old(self).hypo_stacks@,
            final(self).player_index == old(self).player_index,
            final(self).is_common == old(self).is_common,
    {
        let state = frame.state;
        let ghost old_thoughts = self.thoughts@;
        proof {
            lemma_id_ok_valid(*state, id);
        }
        let single = IdentitySet::single(id);
        let mut k: usize = 0;
        while k < matches.len()
            invariant
                frame.wf(),
                state == frame.state,
                self.wf(*state),
                self.thoughts@.len() == state.deck@.len(),
                state.id_ok(id),
                id.valid(),
                single@ == set![id.ord()],
                k <= matches@.len(),
                forall|j: int| 0 <= j < matches@.len() ==> #[trigger] matches@[j] < state.deck@.len(),
                forall|j: int| 0 <= j < matches@.len() ==> {
                    let t = #[trigger] old_thoughts[matches@[j] as int];
                    t.possible@.contains(id.ord()) || t.inferred@.contains(id.ord())
                },
                shrinks(old_thoughts, self.thoughts@),
                forall|o: int| 0 <= o < old_thoughts.len() && !matches@.contains(o as usize) ==> #[trigger] self.thoughts@[o] == old_thoughts[o],
                forall|o: int| 0 <= o < old_thoughts.len() ==> (#[trigger] self.thoughts@[o]).possible == old_thoughts[o].possible,
                forall|j: int| 0 <= j < k ==> link_settled(old_thoughts[#[trigger] matches@[j] as int],
                    self.thoughts@[matches@[j] as int], matches@[j] == focused_order, id),
                self.links@ == old(self).links@,
                self.all_possible == old(self).all_possible,
                self.all_inferred == old(self).all_inferred,
                self.hypo_stacks@ == old(self).hypo_stacks@,
                self.player_index == old(self).player_index,
                self.is_common == old(self).is_common,
            decreases matches@.len() - k,
        {
            let order = matches[k];
            let ghost before = self.thoughts@;
            let mut t = self.thoughts[order];
            proof {
                assert(thought_ok(t, order as int, *state));
                assert(old_thoughts[matches@[k as int] as int].possible@.contains(id.ord()) || old_thoughts[matches@[k as int] as int].inferred@.contains(id.ord()));
            }
            proof {
                assert(old_thoughts[order as int].reset ==> before[order as int].reset);
            }
            if order == focused_order {
                t.inferred = single;
            } else {
                t.inferred = t.inferred.difference(&single);
            }
            let ghost mid = t;
            if t.inferred.is_empty() && !t.reset {
                t.reset_inferences();
                if good_touch {
                    proof {
                        lemma_in_range_ids(t.inferred, *state);
                    }
                    let ghost lock_inf = t.inferred;
                    let me = &*self;
                    t.inferred.retain(|i: Identity| -> (b: bool)
                        requires frame.wf() && me.wf(*frame.state) && frame.state.id_ok(i)
                        ensures b == !me.is_trash_spec(*frame, i, order as int)
                        { !me.is_trash(frame, i, order) });
                }
            }
            self.thoughts.set(order, t);
            proof {
                assert(thought_ok(t, order as int, *state));
                assert forall|o: int| 0 <= o < self.thoughts@.len() implies thought_ok(#[trigger] self.thoughts@[o], o, *state) by {
                    if o != order as int {
                        assert(self.thoughts@[o] == before[o]);
                    }
                }
                assert forall|o: int| 0 <= o < old_thoughts.len() implies (#[trigger] self.thoughts@[o]).possible@.subset_of(old_thoughts[o].possible@)
                    && self.thoughts@[o].inferred@.subset_of(old_thoughts[o].inferred@.union(old_thoughts[o].possible@))
                    && (old_thoughts[o].reset ==> self.thoughts@[o].reset) by {
                    if o == order as int {
                        assert(before[o].possible@.subset_of(old_thoughts[o].possible@));
                        assert(before[o].inferred@.subset_of(old_thoughts[o].inferred@.union(old_thoughts[o].possible@)));
                        assert(before[o].possible == t.possible);
                    } else {
                        assert(self.thoughts@[o] == before[o]);
                    }
                }
                assert forall|o: int| 0 <= o < old_thoughts.len() implies (#[trigger] self.thoughts@[o]).possible == old_thoughts[o].possible by {
                    if o != order as int {
                        assert(self.thoughts@[o] == before[o]);
                    }
                }
                assert forall|o: int| 0 <= o < old_thoughts.len() && !matches@.contains(o as usize) implies #[trigger] self.thoughts@[o] == old_thoughts[o] by {
                    if o == order as int {
                        assert(matches@[k as int] == order);
                    } else {
                        assert(self.thoughts@[o] == before[o]);
                    }
                }
                if order == focused_order {
                    assert(mid.inferred@ =~= set![id.ord()]);
                    assert(!(set![id.ord()] =~= Set::<int>::empty())) by {
                        assert(set![id.ord()].contains(id.ord()));
                    }
                } else {
                    assert(!mid.inferred@.contains(id.ord()));
                }
                assert(link_settled(old_thoughts[order as int], self.thoughts@[order as int], order == focused_order, id));
                assert forall|j: int| 0 <= j < k + 1 implies link_settled(old_thoughts[#[trigger] matches@[j] as int],
                    self.thoughts@[matches@[j] as int], matches@[j] == focused_order, id) by {
                    if matches@[j] != order {
                        assert(self.thoughts@[matches@[j] as int] == before[matches@[j] as int]);
                    }
                }
            }
            k += 1;
        }
    }
}

/// The cards of the hands, hand by hand.
fn hand_cards(state: &State) -> (r: Vec<usize>)
    requires
        state.wf(),
    ensures
        r@ == crate::basics::hands_flat(state.hands@),
        forall|j: int| 0 <= j < r@.len() ==> #[trigger] r@[j] < state.deck@.len() && in_hands(*state, r@[j] as int),
{
    let mut r: Vec<usize> = Vec::new();
    let mut p: usize = 0;
    while p < state.hands.len()
        invariant
            state.wf(),
            p <= state.hands@.len(),
            r@ == crate::basics::hands_flat(state.hands@.take(p as int)),
            forall|j: int| 0 <= j < r@.len() ==> #[trigger] r@[j] < state.deck@.len() && in_hands(*state, r@[j] as int),
        decreases state.hands@.len() - p,
    {
        let hand = &state.hands[p];
        let mut i: usize = 0;
        while i < hand.len()
            invariant
                state.wf(),
                p < state.hands@.len(),
                *hand == state.hands@[p as int],
                i <= hand@.len(),
                r@ == crate::basics::hands_flat(state.hands@.take(p as int)) + hand@.take(i as int),
                forall|j: int| 0 <= j < r@.len() ==> #[trigger] r@[j] < state.deck@.len() && in_hands(*state, r@[j] as int),
            decreases hand@.len() - i,
        {
            proof {
                assert(state.hands@[p as int]@[i as int] < state.deck@.len());
                assert(state.hands@[p as int]@[i as int] == hand@[i as int]);
            }
            r.push(hand[i]);
            proof {
                assert(hand@.take(i + 1) =~= hand@.take(i as int).push(hand@[i as int]));
            }
            i += 1;
        }
        proof {
            assert(state.hands@.take(p + 1).drop_last() =~= state.hands@.take(p as int));
            assert(hand@.take(hand@.len() as int) =~= hand@);
        }
        p += 1;
    }
    proof {
        assert(state.hands@.take(state.hands@.len() as int) =~= state.hands@);
    }
    r
}

/// Whether every identity of the set is already played or can never be.
pub(crate) fn all_basic_trash(state: &State, s: IdentitySet) -> (r: bool)
    requires
        state.wf(),
        in_range(s, state.num_suits()),
    ensures
        r == s@.subset_of(trash_ords(*state)),
{
    let ids = s.to_vec();
    proof {
        lemma_in_range_ids(s, *state);
        lemma_bits_finite(s.bits());
        crate::basics::identity_set::lemma_ords_below(s.bits(), usize::BITS as nat);
        assert(crate::basics::identity_set::bits_below(s.bits(), usize::BITS as int) =~= s@);
    }
    let mut i: usize = 0;
    while i < ids.len()
        invariant
            state.wf(),
            in_range(s, state.num_suits()),
            ids@ == crate::basics::identity_set::ids_of(s.bits()),
            i <= ids@.len(),
            forall|j: int| 0 <= j < ids@.len() ==> state.id_ok(#[trigger] ids@[j]) && s@.contains(ids@[j].ord()),
            forall|j: int| 0 <= j < i ==> state.is_basic_trash_spec(#[trigger] ids@[j]),
        decreases ids@.len() - i,
    {
        if !state.is_basic_trash(ids[i]) {
            proof {
                lemma_id_ok_valid(*state, ids@[i as int]);
                crate::basics::card::lemma_ord_roundtrip(ids@[i as int]);
                assert(!trash_ords(*state).contains(ids@[i as int].ord()));
            }
            return false;
        }
        i += 1;
    }
    proof {
        assert forall|x: int| #[trigger] s@.contains(x) implies trash_ords(*state).contains(x) by {
            let q = crate::basics::identity_set::ords_below(s.bits(), usize::BITS as nat);
            assert(q.to_set().contains(x));
            let j = choose|j: int| 0 <= j < q.len() && q[j] == x;
            assert(ids@[j] == Identity::of_ord(x));
            assert(0 <= x < 5 * state.num_suits());
        }
    }
    true
}

impl Player {
    /// Finds groups of cards, not known to everyone, with the same one to three inferences
    /// that are not all trash: a group of more cards than inferences becomes a link, and a
    /// group with one inference and one focused card settles on the focused card.
    pub fn find_links(&mut self, frame: &Frame, good_touch: bool)
        requires
            frame.wf(),
            old(self).wf(*frame.state),
            old(self).thoughts@.len() == frame.state.deck@.len(),
        ensures
            final(self).wf(*frame.state),
            shrinks(old(self).thoughts@, final(self).thoughts@),
            forall|o: int| 0 <= o < old(self).thoughts@.len() ==> (#[trigger] final(self).thoughts@[o]).possible == old(self).thoughts@[o].possible,
            final(self).links@.len() >= old(self).links@.len(),
            forall|l: int| 0 <= l < old(self).links@.len() ==> same_link(#[trigger] final(self).links@[l], old(self).links@[l]),
            forall|l: int| old(self).links@.len() <= l < final(self).links@.len() ==> (#[trigger] final(self).links@[l] matches Link::Unpromised { orders, ids }
                && orders@.len() > ids@.len() && orders@.len() >= 2),
            final(self).all_possible == old(self).all_possible,
            final(self).all_inferred == old(self).all_inferred,
            final(self).hypo_stacks@ == old(self).hypo_stacks@,
            final(self).player_index == old(self).player_index,
            final(self).is_common == old(self).is_common,
            no_group_settles(*frame, *old(self)) ==> final(self).thoughts@ == old(self).thoughts@ && forall|m: int|
                0 <= m < linkable_cards(*frame.state, *old(self)).len() ==> {
                    let o = #[trigger] linkable_cards(*frame.state, *old(self))[m];
                    link_group(*frame.state, *old(self), o).len() != 1
                        && link_group(*frame.state, *old(self), o).len() > old(self).thoughts@[o as int].inferred@.len()
                        ==> in_some_link(*final(self), o)
                },
    {
        let state = frame.state;
        let ghost old_thoughts = self.thoughts@;
        let ghost old_links = self.links@;
        let ghost old_self = *self;
        let mut linked: Vec<usize> = Vec::new();
        let mut l: usize = 0;
        while l < self.links.len()
            invariant
                l <= self.links@.len(),
                *self == old_self,
                forall|x: int| 0 <= x < linked@.len() ==> #[trigger] in_some_link(old_self, linked@[x]),
            decreases self.links@.len() - l,
        {
            let orders = match &self.links[l] {
                Link::Promised { orders, .. } => orders,
                Link::Unpromised { orders, .. } => orders,
            };
            let mut i: usize = 0;
            while i < orders.len()
                invariant
                    i <= orders@.len(),
                    l < self.links@.len(),
                    *self == old_self,
                    orders@ == link_orders(self.links@[l as int]),
                    forall|x: int| 0 <= x < linked@.len() ==> #[trigger] in_some_link(old_self, linked@[x]),
                decreases orders@.len() - i,
            {
                proof {
                    assert(link_orders(old_self.links@[l as int]).contains(orders@[i as int]));
                }
                linked.push(orders[i]);
                i += 1;
            }
            l += 1;
        }
        let orders = hand_cards(state);
        let symmetric = IdOptions { infer: false, symmetric: true };
        let mut linkable: Vec<usize> = Vec::new();
        let mut i: usize = 0;
        while i < orders.len()
            invariant
                frame.wf(),
                state == frame.state,
                self.wf(*state),
                self.thoughts@.len() == state.deck@.len(),
                i <= orders@.len(),
                forall|j: int| 0 <= j < orders@.len() ==> #[trigger] orders@[j] < state.deck@.len(),
                forall|j: int| 0 <= j < linkable@.len() ==> #[trigger] linkable@[j] < state.deck@.len(),
                *self == old_self,
                orders@ == crate::basics::hands_flat(state.hands@),
                symmetric == (IdOptions { infer: false, symmetric: true }),
                linkable@ == orders@.take(i as int).filter(|c: usize| linkable_card(*state, old_self, c)),
            decreases orders@.len() - i,
        {
            proof {
                assert(orders@.take(i + 1).drop_last() =~= orders@.take(i as int));
                reveal(Seq::filter);
                lemma_in_range_ids(self.thoughts@[orders@[i as int] as int].inferred, *state);
            }
            let t = self.thoughts[orders[i]];
            proof {
                assert(thought_ok(t, orders@[i as int] as int, *state));
            }
            if t.identity(&symmetric).is_none() && t.inferred.len() <= 3 && !all_basic_trash(state, t.inferred) {
                linkable.push(orders[i]);
            }
            i += 1;
        }
        proof {
            assert(orders@.take(orders@.len() as int) =~= orders@);
            let f = |c: usize| linkable_card(*state, old_self, c);
            assert(f =~= (|c: usize| linkable_card(*frame.state, old_self, c)));
            assert(linkable@ == linkable_cards(*frame.state, old_self));
        }
        let mut k: usize = 0;
        while k < linkable.len()
            invariant
                linkable@ == linkable_cards(*frame.state, old_self),
                old_self.thoughts@ == old_thoughts,
                no_group_settles(*frame, old_self) ==> self.thoughts@ == old_thoughts,
                forall|x: int| 0 <= x < linked@.len() ==> #[trigger] in_some_link(*self, linked@[x]),
                no_group_settles(*frame, old_self) ==> forall|m: int| 0 <= m < k ==> {
                    let o = #[trigger] linkable@[m];
                    link_group(*frame.state, old_self, o).len() != 1
                        && link_group(*frame.state, old_self, o).len() > old_self.thoughts@[o as int].inferred@.len()
                        ==> in_some_link(*self, o)
                },
                frame.wf(),
                state == frame.state,
                self.wf(*state),
                self.thoughts@.len() == state.deck@.len(),
                k <= linkable@.len(),
                forall|j: int| 0 <= j < linkable@.len() ==> #[trigger] linkable@[j] < state.deck@.len(),
                shrinks(old_thoughts, self.thoughts@),
                forall|o: int| 0 <= o < old_thoughts.len() ==> (#[trigger] self.thoughts@[o]).possible == old_thoughts[o].possible,
                self.links@.len() >= old_links.len(),
                forall|l: int| 0 <= l < old_links.len() ==> same_link(#[trigger] self.links@[l], old_links[l]),
                forall|l: int| old_links.len() <= l < self.links@.len() ==> (#[trigger] self.links@[l] matches Link::Unpromised { orders, ids }
                    && orders@.len() > ids@.len() && orders@.len() >= 2),
                self.all_possible == old(self).all_possible,
                self.all_inferred == old(self).all_inferred,
                self.hypo_stacks@ == old(self).hypo_stacks@,
                self.player_index == old(self).player_index,
                self.is_common == old(self).is_common,
            decreases linkable@.len() - k,
        {
            let order = linkable[k];
            let ghost links_k = self.links@;
            let ghost self_k = *self;
            let ghost linked_k = linked@;
            if !vec_contains(&linked, order) {
                let inferred = self.thoughts[order].inferred;
                proof {
                    assert(thought_ok(self.thoughts@[order as int], order as int, *state));
                }
                // Find all cards with the same inferences
                let mut matches: Vec<usize> = Vec::new();
                let mut focused: Vec<usize> = Vec::new();
                let mut j: usize = 0;
                while j < linkable.len()
                    invariant
                        frame.wf(),
                        state == frame.state,
                        self.thoughts@.len() == state.deck@.len(),
                        j <= linkable@.len(),
                        forall|j: int| 0 <= j < linkable@.len() ==> #[trigger] linkable@[j] < state.deck@.len(),
                        forall|m: int| 0 <= m < matches@.len() ==> #[trigger] matches@[m] < state.deck@.len()
                            && self.thoughts@[matches@[m] as int].inferred == inferred,
                        forall|m: int| 0 <= m < focused@.len() ==> #[trigger] focused@[m] < state.deck@.len(),
                        matches@ == linkable@.take(j as int).filter(|c: usize| self.thoughts@[c as int].inferred == inferred),
                        focused@ == linkable@.take(j as int).filter(|c: usize| self.thoughts@[c as int].inferred == inferred && frame.meta@[c as int].focused),
                    decreases linkable@.len() - j,
                {
                    proof {
                        assert(linkable@.take(j + 1).drop_last() =~= linkable@.take(j as int));
                        reveal(Seq::filter);
                    }
                    let o = linkable[j];
                    if self.thoughts[o].inferred == inferred {
                        matches.push(o);
                        if frame.meta[o].focused {
                            focused.push(o);
                        }
                    }
                    j += 1;
                }
                proof {
                    assert(linkable@.take(linkable@.len() as int) =~= linkable@);
                    if no_group_settles(*frame, old_self) {
                        let g1 = |c: usize| self.thoughts@[c as int].inferred == inferred;
                        assert(g1 =~= (|c: usize| old_self.thoughts@[c as int].inferred == old_self.thoughts@[order as int].inferred));
                        assert(matches@ == link_group(*frame.state, old_self, order));
                        let g2 = |c: usize| self.thoughts@[c as int].inferred == inferred && frame.meta@[c as int].focused;
                        assert(g2 =~= (|c: usize| old_self.thoughts@[c as int].inferred == old_self.thoughts@[order as int].inferred && frame.meta@[c as int].focused));
                        assert(focused@ == focused_group(*frame, old_self, order));
                        assert(linkable_cards(*frame.state, old_self)[k as int] == order);
                        linkable@.lemma_filter_contains(g1, k as int);
                        assert(matches@.contains(order));
                    }
                }
                if matches.len() != 1 {
                    if focused.len() == 1 && inferred.len() == 1 {
                        proof {
                            if no_group_settles(*frame, old_self) {
                                assert(linkable_cards(*frame.state, old_self)[k as int] == order);
                                assert(false);
                            }
                        }
                        let id = single_of(&inferred);
                        proof {
                            lemma_in_range_ids(inferred, *state);
                            lemma_of_ord_valid(id.ord());
                            assert(state.id_ok(id)) by {
                                crate::basics::card::lemma_ord_roundtrip(id);
                            }
                        }
                        let ghost before = self.thoughts@;
                        let ghost links_before = self.links@;
                        self.elim_link(frame, &matches, focused[0], id, good_touch);
                        proof {
                            lemma_shrinks_trans(old_thoughts, before, self.thoughts@);
                            assert forall|o: int| 0 <= o < old_thoughts.len() implies (#[trigger] self.thoughts@[o]).possible == old_thoughts[o].possible by {
                                assert(before[o].possible == old_thoughts[o].possible);
                                if matches@.contains(o as usize) {
                                    assert(self.thoughts@[o].possible@.subset_of(before[o].possible@));
                                }
                            }
                        }
                    } else if matches.len() > inferred.len() {
                        // We have enough inferred cards to elim elsewhere
                        let mut m: usize = 0;
                        while m < matches.len()
                            invariant
                                m <= matches@.len(),
                                linked@ == linked_k + matches@.take(m as int),
                            decreases matches@.len() - m,
                        {
                            proof {
                                assert(matches@.take(m + 1) =~= matches@.take(m as int).push(matches@[m as int]));
                            }
                            linked.push(matches[m]);
                            m += 1;
                        }
                        proof {
                            assert(matches@.take(matches@.len() as int) =~= matches@);
                        }
                        let ids = inferred.to_vec();
                        proof {
                            lemma_in_range_ids(inferred, *state);
                            lemma_bits_finite(inferred.bits());
                            crate::basics::identity_set::lemma_ords_below(inferred.bits(), usize::BITS as nat);
                            assert(crate::basics::identity_set::bits_below(inferred.bits(), usize::BITS as int) =~= inferred@);
                        }
                        let link = Link::Unpromised { orders: matches, ids };
                        proof {
                            assert(link_ok(link, *state));
                        }
                        let ghost links_before = self.links@;
                        let ghost link_ghost = link;
                        self.links.push(link);
                        proof {
                            assert(self.links@[links_before.len() as int] == link_ghost);
                            assert(link_orders(link_ghost) == matches@);
                            assert(links_before == links_k);
                            if no_group_settles(*frame, old_self) {
                                assert(link_orders(self.links@[links_k.len() as int]).contains(order));
                                assert(in_some_link(*self, order));
                            }
                            assert forall|y: int| linked_k.len() <= y < linked@.len() implies link_orders(self.links@[links_k.len() as int]).contains(#[trigger] linked@[y]) by {
                                assert(linked@[y] == matches@[y - linked_k.len()]);
                            }
                            assert forall|l: int| 0 <= l < self.links@.len() implies link_ok(#[trigger] self.links@[l], *state) by {
                                if l < links_before.len() {
                                    assert(self.links@[l] == links_before[l]);
                                }
                            }
                            assert forall|l: int| 0 <= l < old_links.len() implies same_link(#[trigger] self.links@[l], old_links[l]) by {
                                assert(self.links@[l] == links_before[l]);
                            }
                            assert forall|l: int| old_links.len() <= l < self.links@.len() implies (#[trigger] self.links@[l] matches Link::Unpromised { orders, ids }
                                && orders@.len() > ids@.len() && orders@.len() >= 2) by {
                                if l < links_before.len() {
                                    assert(self.links@[l] == links_before[l]);
                                }
                            }
                        }
                    }
                }
            } else {
                proof {
                    let x = choose|x: int| 0 <= x < linked@.len() && linked@[x] == order;
                    assert(in_some_link(*self, linked@[x]));
                }
            }
            proof {
                assert(self.links@.len() >= links_k.len());
                if no_group_settles(*frame, old_self) {
                    assert(linkable@[k as int] == order);
                    if link_group(*frame.state, old_self, order).len() != 1
                        && link_group(*frame.state, old_self, order).len() > old_self.thoughts@[order as int].inferred@.len() {
                        assert(in_some_link(*self, order) || in_some_link(self_k, order));
                        if in_some_link(self_k, order) {
                            let l = choose|l: int| 0 <= l < self_k.links@.len() && link_orders(#[trigger] self_k.links@[l]).contains(order);
                            assert(self.links@[l] == links_k[l]);
                        }
                    }
                    assert forall|m: int| 0 <= m < k + 1 implies {
                        let o = #[trigger] linkable@[m];
                        link_group(*frame.state, old_self, o).len() != 1
                            && link_group(*frame.state, old_self, o).len() > old_self.thoughts@[o as int].inferred@.len()
                            ==> in_some_link(*self, o)
                    } by {
                        let o = linkable@[m];
                        if m < k && link_group(*frame.state, old_self, o).len() != 1
                            && link_group(*frame.state, old_self, o).len() > old_self.thoughts@[o as int].inferred@.len() {
                            assert(in_some_link(self_k, o));
                            let l = choose|l: int| 0 <= l < self_k.links@.len() && link_orders(#[trigger] self_k.links@[l]).contains(o);
                            assert(self.links@[l] == links_k[l]);
                        }
                    }
                }
                assert forall|l: int| 0 <= l < links_k.len() implies #[trigger] self.links@[l] == links_k[l] by {}
                assert forall|x: int| 0 <= x < linked@.len() implies #[trigger] in_some_link(*self, linked@[x]) by {
                    if x < linked_k.len() {
                        assert(linked@[x] == linked_k[x]);
                        assert(in_some_link(self_k, linked_k[x]));
                        let l = choose|l: int| 0 <= l < self_k.links@.len() && link_orders(#[trigger] self_k.links@[l]).contains(linked_k[x]);
                        assert(self.links@[l] == links_k[l]);
                    } else {
                        assert(link_orders(self.links@[links_k.len() as int]).contains(linked@[x]));
                    }
                }
            }
            k += 1;
        }
    }
}

impl Player {
    /// Whether the card of the order may be of the identity's suit.
    fn may_be_suit(&self, order: usize, suit_index: usize) -> (r: bool)
        requires
            order < self.thoughts@.len(),
        ensures
            r == exists|x: int| #[trigger] self.thoughts@[order as int].possible@.contains(x) && Identity::of_ord(x).suit_index == suit_index,
    {
        let ids = self.thoughts[order].possible.to_vec();
        proof {
            let s = self.thoughts@[order as int].possible;
            lemma_bits_finite(s.bits());
            crate::basics::identity_set::lemma_ords_below(s.bits(), usize::BITS as nat);
            assert(crate::basics::identity_set::bits_below(s.bits(), usize::BITS as int) =~= s@);
        }
        let ghost q = crate::basics::identity_set::ords_below(self.thoughts@[order as int].possible.bits(), usize::BITS as nat);
        let mut i: usize = 0;
        while i < ids.len()
            invariant
                order < self.thoughts@.len(),
                q == crate::basics::identity_set::ords_below(self.thoughts@[order as int].possible.bits(), usize::BITS as nat),
                q.to_set() == self.thoughts@[order as int].possible@,
                ids@ == q.map_values(|o: int| Identity::of_ord(o)),
                i <= ids@.len(),
                forall|j: int| 0 <= j < i ==> (#[trigger] ids@[j]).suit_index != suit_index,
            decreases ids@.len() - i,
        {
            if ids[i].suit_index == suit_index {
                proof {
                    assert(q.to_set().contains(q[i as int]));
                }
                return true;
            }
            i += 1;
        }
        proof {
            assert forall|x: int| #[trigger] self.thoughts@[order as int].possible@.contains(x) implies Identity::of_ord(x).suit_index != suit_index by {
                let j = choose|j: int| 0 <= j < q.len() && q[j] == x;
                assert(ids@[j] == Identity::of_ord(x));
            }
        }
        false
    }

    /// Settles what the links say now: a promise already kept, or impossible for the
    /// target, is dropped, a promise narrowed to one card makes it the identity, and an
    /// unpromised link is dropped once a card is revealed or an inference lost; then new
    /// links are looked for.
    pub fn refresh_links(&mut self, frame: &Frame, good_touch: bool)
        requires
            frame.wf(),
            old(self).wf(*frame.state),
            old(self).thoughts@.len() == frame.state.deck@.len(),
        ensures
            promises_open(final(self).links@, final(self).thoughts@),
            unpromised_ok(old(self).links@) ==> unpromised_ok(final(self).links@),
            final(self).wf(*frame.state),
            shrinks(old(self).thoughts@, final(self).thoughts@),
            forall|o: int| 0 <= o < old(self).thoughts@.len() ==> (#[trigger] final(self).thoughts@[o]).possible == old(self).thoughts@[o].possible,
            promises_ok(final(self).links@, final(self).thoughts@),
            final(self).all_possible == old(self).all_possible,
            final(self).all_inferred == old(self).all_inferred,
            final(self).hypo_stacks@ == old(self).hypo_stacks@,
            final(self).player_index == old(self).player_index,
            final(self).is_common == old(self).is_common,
    {
        let state = frame.state;
        let ghost old_thoughts = self.thoughts@;
        let mut old_links: Vec<Link> = Vec::new();
        let mut l: usize = 0;
        while l < self.links.len()
            invariant
                l <= self.links@.len(),
                old_links@.len() == l,
                forall|j: int| 0 <= j < l ==> same_link(#[trigger] old_links@[j], self.links@[j]),
            decreases self.links@.len() - l,
        {
            old_links.push(copy_link(&self.links[l]));
            l += 1;
        }
        proof {
            assert forall|j: int| 0 <= j < old_links@.len() implies link_ok(#[trigger] old_links@[j], *state) by {
                assert(link_ok(self.links@[j], *state));
                assert(same_link(old_links@[j], self.links@[j]));
            }
        }
        let mut new_links: Vec<Link> = Vec::new();
        let mut l: usize = 0;
        while l < old_links.len()
            invariant
                frame.wf(),
                state == frame.state,
                self.wf(*state),
                self.thoughts@.len() == state.deck@.len(),
                l <= old_links@.len(),
                forall|j: int| 0 <= j < old_links@.len() ==> link_ok(#[trigger] old_links@[j], *state),
                forall|j: int| 0 <= j < old_links@.len() ==> same_link(#[trigger] old_links@[j], old(self).links@[j]),
                old_links@.len() == old(self).links@.len(),
                promises_open(new_links@, self.thoughts@),
                unpromised_ok(old(self).links@) ==> unpromised_ok(new_links@),
                forall|j: int| 0 <= j < new_links@.len() ==> link_ok(#[trigger] new_links@[j], *state),
                promises_ok(new_links@, self.thoughts@),
                shrinks(old_thoughts, self.thoughts@),
                forall|o: int| 0 <= o < old_thoughts.len() ==> (#[trigger] self.thoughts@[o]).possible == old_thoughts[o].possible,
                self.all_possible == old(self).all_possible,
                self.all_inferred == old(self).all_inferred,
                self.hypo_stacks@ == old(self).hypo_stacks@,
                self.player_index == old(self).player_index,
                self.is_common == old(self).is_common,
            decreases old_links@.len() - l,
        {
            let ghost before = self.thoughts@;
            assert(link_ok(old_links@[l as int], *state));
            match &old_links[l] {
                Link::Promised { orders, id, target } => {
                    proof {
                        lemma_id_ok_valid(*state, *id);
                    }
                    // At least one card matches: the promise is kept
                    let mut kept = false;
                    let mut i: usize = 0;
                    while i < orders.len() && !kept
                        invariant
                            self.thoughts@.len() == state.deck@.len(),
                            i <= orders@.len(),
                            !kept ==> forall|j: int| 0 <= j < i ==> self.thoughts@[#[trigger] orders@[j] as int].identity_spec(IdOptions { infer: false, symmetric: false }) != Some(*id),
                            forall|j: int| 0 <= j < orders@.len() ==> #[trigger] orders@[j] < state.deck@.len(),
                        decreases orders@.len() - i,
                    {
                        kept = self.thoughts[orders[i]].is(id);
                        i += 1;
                    }
                    if !kept && self.may_be_suit(*target, id.suit_index) {
                        let mut viable: Vec<usize> = Vec::new();
                        let mut i: usize = 0;
                        while i < orders.len()
                            invariant
                                self.thoughts@.len() == state.deck@.len(),
                                id.valid(),
                                i <= orders@.len(),
                                forall|j: int| 0 <= j < orders@.len() ==> #[trigger] orders@[j] < state.deck@.len(),
                                forall|j: int| 0 <= j < viable@.len() ==> #[trigger] viable@[j] < state.deck@.len()
                                    && self.thoughts@[viable@[j] as int].possible@.contains(id.ord()),
                                forall|j: int| 0 <= j < orders@.len() ==> self.thoughts@[#[trigger] orders@[j] as int].identity_spec(IdOptions { infer: false, symmetric: false }) != Some(*id),
                                forall|j: int| 0 <= j < viable@.len() ==> self.thoughts@[#[trigger] viable@[j] as int].identity_spec(IdOptions { infer: false, symmetric: false }) != Some(*id),
                            decreases orders@.len() - i,
                        {
                            if self.thoughts[orders[i]].possible.contains(*id) {
                                viable.push(orders[i]);
                            }
                            i += 1;
                        }
                        if viable.len() == 1 {
                            let order = viable[0];
                            let mut t = self.thoughts[order];
                            proof {
                                assert(thought_ok(t, order as int, *state));
                            }
                            t.inferred = IdentitySet::single(*id);
                            self.thoughts.set(order, t);
                            proof {
                                assert(thought_ok(t, order as int, *state)) by {
                                    assert(id.ord() < 5 * state.num_suits()) by (nonlinear_arith)
                                        requires id.suit_index < state.num_suits(), 1 <= id.rank <= 5, id.ord() == id.suit_index * 5 + id.rank - 1;
                                }
                                assert forall|o: int| 0 <= o < self.thoughts@.len() implies thought_ok(#[trigger] self.thoughts@[o], o, *state) by {
                                    if o != order as int {
                                        assert(self.thoughts@[o] == before[o]);
                                    }
                                }
                                assert forall|o: int| 0 <= o < old_thoughts.len() implies (#[trigger] self.thoughts@[o]).possible@.subset_of(old_thoughts[o].possible@)
                                    && self.thoughts@[o].inferred@.subset_of(old_thoughts[o].inferred@.union(old_thoughts[o].possible@))
                                    && (old_thoughts[o].reset ==> self.thoughts@[o].reset) by {
                                    if o != order as int {
                                        assert(self.thoughts@[o] == before[o]);
                                    }
                                }
                                assert forall|o: int| 0 <= o < old_thoughts.len() implies (#[trigger] self.thoughts@[o]).possible == old_thoughts[o].possible by {
                                    if o != order as int {
                                        assert(self.thoughts@[o] == before[o]);
                                    }
                                }
                                assert(promises_ok(new_links@, self.thoughts@)) by {
                                    assert forall|o: int| 0 <= o < before.len() implies (#[trigger] self.thoughts@[o]).possible == before[o].possible by {
                                        if o != order as int {
                                            assert(self.thoughts@[o] == before[o]);
                                        }
                                    }
                                }
                            }
                        } else if viable.len() > 1 {
                            let link = Link::Promised { orders: viable, id: *id, target: *target };
                            let ghost prev = new_links@;
                            new_links.push(link);
                            proof {
                                assert forall|j: int| 0 <= j < new_links@.len() implies (#[trigger] new_links@[j] matches Link::Unpromised { orders, ids } ==> orders@.len() > ids@.len())
                                    || !unpromised_ok(old(self).links@) by {
                                    if j < prev.len() {
                                        assert(new_links@[j] == prev[j]);
                                    }
                                }
                                assert forall|j: int| 0 <= j < new_links@.len() implies link_ok(#[trigger] new_links@[j], *state) by {
                                    if j < prev.len() {
                                        assert(new_links@[j] == prev[j]);
                                    }
                                }
                                assert forall|j: int| 0 <= j < new_links@.len() implies (#[trigger] new_links@[j] matches Link::Promised { orders, id, .. } ==> orders@.len() >= 2
                                    && forall|k: int| 0 <= k < orders@.len() ==> self.thoughts@[#[trigger] orders@[k] as int].possible@.contains(id.ord())) by {
                                    if j < prev.len() {
                                        assert(new_links@[j] == prev[j]);
                                    }
                                }
                            }
                        }
                    }
                },
                Link::Unpromised { orders, ids } => {
                    let mut revealed = false;
                    let mut i: usize = 0;
                    while i < orders.len()
                        invariant
                            frame.wf(),
                            state == frame.state,
                            self.wf(*state),
                            self.thoughts@.len() == state.deck@.len(),
                            i <= orders@.len(),
                            forall|j: int| 0 <= j < orders@.len() ==> #[trigger] orders@[j] < state.deck@.len(),
                            forall|j: int| 0 <= j < ids@.len() ==> state.id_ok(#[trigger] ids@[j]),
                            !revealed ==> forall|j: int, k: int| 0 <= j < i && 0 <= k < ids@.len() ==> self.thoughts@[#[trigger] orders@[j] as int].possible@.contains((#[trigger] ids@[k]).ord()),
                        decreases orders@.len() - i,
                    {
                        let t = self.thoughts[orders[i]];
                        if t.id().is_some() {
                            revealed = true;
                        }
                        let mut k: usize = 0;
                        while k < ids.len()
                            invariant
                                state.wf(),
                                forall|j: int| 0 <= j < ids@.len() ==> state.id_ok(#[trigger] ids@[j]),
                                k <= ids@.len(),
                                i < orders@.len(),
                                t == self.thoughts@[orders@[i as int] as int],
                                !revealed ==> forall|j: int| 0 <= j < k ==> t.possible@.contains((#[trigger] ids@[j]).ord()),
                                !revealed ==> forall|j: int, k: int| 0 <= j < i && 0 <= k < ids@.len() ==> self.thoughts@[#[trigger] orders@[j] as int].possible@.contains((#[trigger] ids@[k]).ord()),
                            decreases ids@.len() - k,
                        {
                            proof {
                                lemma_id_ok_valid(*state, ids@[k as int]);
                            }
                            if !t.possible.contains(ids[k]) {
                                revealed = true;
                            }
                            k += 1;
                        }
                        proof {
                            if !revealed {
                                assert forall|j: int, k: int| 0 <= j < i + 1 && 0 <= k < ids@.len() implies self.thoughts@[#[trigger] orders@[j] as int].possible@.contains((#[trigger] ids@[k]).ord()) by {
                                    if j == i as int {
                                        assert(t.possible@.contains(ids@[k].ord()));
                                    }
                                }
                            }
                        }
                        i += 1;
                    }
                    if !revealed {
                        let mut focused: Vec<usize> = Vec::new();
                        let mut i: usize = 0;
                        while i < orders.len()
                            invariant
                                frame.wf(),
                                state == frame.state,
                                i <= orders@.len(),
                                forall|j: int| 0 <= j < orders@.len() ==> #[trigger] orders@[j] < state.deck@.len(),
                            decreases orders@.len() - i,
                        {
                            if frame.meta[orders[i]].focused {
                                focused.push(orders[i]);
                            }
                            i += 1;
                        }
                        if focused.len() == 1 && ids.len() == 1 {
                            let ghost links_before = new_links@;
                            proof {
                                assert forall|j: int| 0 <= j < orders@.len() implies {
                                    let t = #[trigger] self.thoughts@[orders@[j] as int];
                                    t.possible@.contains(ids@[0].ord()) || t.inferred@.contains(ids@[0].ord())
                                } by {
                                    assert(self.thoughts@[orders@[j] as int].possible@.contains(ids@[0].ord()));
                                }
                            }
                            self.elim_link(frame, orders, focused[0], ids[0], good_touch);
                            proof {
                                lemma_shrinks_trans(old_thoughts, before, self.thoughts@);
                                assert forall|o: int| 0 <= o < old_thoughts.len() implies (#[trigger] self.thoughts@[o]).possible == old_thoughts[o].possible by {
                                    assert(before[o].possible == old_thoughts[o].possible);
                                }
                                assert(promises_ok(new_links@, self.thoughts@)) by {
                                    assert forall|o: int| 0 <= o < before.len() implies (#[trigger] self.thoughts@[o]).possible == before[o].possible by {}
                                }
                            }
                        }
                        // A lost inference ends the link
                        let mut lost = false;
                        let mut k: usize = 0;
                        while k < ids.len() && !lost
                            invariant
                                state.wf(),
                                self.thoughts@.len() == state.deck@.len(),
                                forall|j: int| 0 <= j < ids@.len() ==> state.id_ok(#[trigger] ids@[j]),
                                forall|j: int| 0 <= j < orders@.len() ==> #[trigger] orders@[j] < state.deck@.len(),
                                k <= ids@.len(),
                            decreases ids@.len() - k,
                        {
                            proof {
                                lemma_id_ok_valid(*state, ids@[k as int]);
                            }
                            let mut i: usize = 0;
                            while i < orders.len()
                                invariant
                                    self.thoughts@.len() == state.deck@.len(),
                                    ids@[k as int].valid(),
                                    k < ids@.len(),
                                    forall|j: int| 0 <= j < orders@.len() ==> #[trigger] orders@[j] < state.deck@.len(),
                                    i <= orders@.len(),
                                decreases orders@.len() - i,
                            {
                                if !self.thoughts[orders[i]].inferred.contains(ids[k]) {
                                    lost = true;
                                }
                                i += 1;
                            }
                            k += 1;
                        }
                        if !lost {
                            let link = Link::Unpromised { orders: copy_orders(orders), ids: copy_ids(ids) };
                            let ghost prev = new_links@;
                            new_links.push(link);
                            proof {
                                assert(same_link(old_links@[l as int], old(self).links@[l as int]));
                                assert forall|j: int| 0 <= j < new_links@.len() implies (#[trigger] new_links@[j] matches Link::Unpromised { orders, ids } ==> orders@.len() > ids@.len())
                                    || !unpromised_ok(old(self).links@) by {
                                    if j < prev.len() {
                                        assert(new_links@[j] == prev[j]);
                                    } else if unpromised_ok(old(self).links@) {
                                        assert(old(self).links@[l as int] matches Link::Unpromised { orders, ids } ==> orders@.len() > ids@.len());
                                    }
                                }
                                assert forall|j: int| 0 <= j < new_links@.len() implies link_ok(#[trigger] new_links@[j], *state) by {
                                    if j < prev.len() {
                                        assert(new_links@[j] == prev[j]);
                                    }
                                }
                                assert forall|j: int| 0 <= j < new_links@.len() implies (#[trigger] new_links@[j] matches Link::Promised { orders, id, .. } ==> orders@.len() >= 2
                                    && forall|k: int| 0 <= k < orders@.len() ==> self.thoughts@[#[trigger] orders@[k] as int].possible@.contains(id.ord())) by {
                                    if j < prev.len() {
                                        assert(new_links@[j] == prev[j]);
                                    }
                                }
                            }
                        }
                    }
                },
            }
            l += 1;
        }
        self.links = new_links;
        let ghost before = self.thoughts@;
        let ghost links_before = self.links@;
        self.find_links(frame, good_touch);
        proof {
            lemma_shrinks_trans(old_thoughts, before, self.thoughts@);
            assert forall|o: int| 0 <= o < old_thoughts.len() implies (#[trigger] self.thoughts@[o]).possible == old_thoughts[o].possible by {
                assert(before[o].possible == old_thoughts[o].possible);
            }
            assert forall|j: int| 0 <= j < self.links@.len() implies (#[trigger] self.links@[j] matches Link::Unpromised { orders, ids } ==> orders@.len() > ids@.len())
                || !unpromised_ok(old(self).links@) by {
                if j < links_before.len() {
                    assert(same_link(self.links@[j], links_before[j]));
                }
            }
            assert forall|j: int| 0 <= j < self.links@.len() implies (#[trigger] self.links@[j] matches Link::Promised { orders, id, .. } ==> orders@.len() >= 2
                && forall|k: int| 0 <= k < orders@.len() ==> self.thoughts@[#[trigger] orders@[k] as int].possible@.contains(id.ord())) by {
                if j < links_before.len() {
                    assert(same_link(self.links@[j], links_before[j]));
                    assert forall|o: int| 0 <= o < before.len() implies (#[trigger] self.thoughts@[o]).possible == before[o].possible by {}
                }
            }
        }
    }
}

/// Whether two optional identities are the same.
fn same_key(a: Option<Identity>, b: Option<Identity>) -> (r: bool)
    ensures
        r == (a == b),
{
    match (a, b) {
        (None, None) => true,
        (Some(x), Some(y)) => x.suit_index == y.suit_index && x.rank == y.rank,
        _ => false,
    }
}

} // verus!
