use vstd::prelude::*;

use crate::basics::clue::CardClue;
use crate::basics::identity_set::{IdentitySet, ids_of, lemma_bits_finite, lemma_ords_below};

verus! {

/// The identity of a card: its suit and its rank (1 to 5).
#[derive(Debug, Clone, Copy, PartialEq, Eq, Hash, Structural)]
pub struct Identity {
    pub suit_index: usize,
    pub rank: usize,
}

impl Identity {
    /// The position of this identity in the suit-major ordering of all identities.
    pub open spec fn ord(self) -> int {
        self.suit_index * 5 + self.rank - 1
    }

    /// The identity at a position of the suit-major ordering.
    pub open spec fn of_ord(ord: int) -> Identity {
        Identity { suit_index: (ord / 5) as usize, rank: (ord % 5 + 1) as usize }
    }

    /// A rank between 1 and 5, and a position that fits a bit of a machine word.
    pub open spec fn valid(self) -> bool {
        1 <= self.rank <= 5 && self.ord() < usize::BITS
    }

    pub fn to_ord(self) -> (r: usize)
        requires
            1 <= self.rank,
            self.suit_index * 5 + self.rank <= usize::MAX,
        ensures
            r == self.ord(),
    {
        self.suit_index * 5 + self.rank - 1
    }

    pub fn from_ord(ord: usize) -> (r: Identity)
        ensures
            r == Identity::of_ord(ord as int),
    {
        Identity { suit_index: ord / 5, rank: ord % 5 + 1 }
    }
}

pub proof fn lemma_ord_roundtrip(id: Identity)
    requires
        1 <= id.rank <= 5,
    ensures
        Identity::of_ord(id.ord()) == id,
{
    assert(id.ord() / 5 == id.suit_index) by (nonlinear_arith)
        requires 1 <= id.rank <= 5;
    assert(id.ord() % 5 == id.rank - 1) by (nonlinear_arith)
        requires 1 <= id.rank <= 5;
}

pub proof fn lemma_of_ord_valid(o: int)
    requires
        0 <= o < usize::BITS,
    ensures
        Identity::of_ord(o).valid(),
        Identity::of_ord(o).ord() == o,
{
    assert(o == (o / 5) * 5 + o % 5) by (nonlinear_arith);
}


/// Options for asking what a card is.
#[derive(Debug, Clone, Default)]
pub struct IdOptions {
    /// Fall back on a single inference.
    pub infer: bool,
    /// Ignore what the asker sees of the card itself.
    pub symmetric: bool,
}

/// Options for asking whether two cards have the same identity.
#[derive(Debug, Clone, Default)]
pub struct MatchOptions {
    pub infer: bool,
    pub symmetric: bool,
    /// The answer when the first card's identity is unknown.
    pub assumed: bool,
}

/// The answer of `matches` given the two identities.
pub open spec fn match_result(a: Option<Identity>, b: Option<Identity>, assumed: bool) -> bool {
    match a {
        None => assumed,
        Some(a) => match b {
            None => false,
            Some(b) => a.suit_index == b.suit_index && a.rank == b.rank,
        },
    }
}

/// Something whose identity may be known.
pub trait Identifiable {
    spec fn identity_spec(&self, options: IdOptions) -> Option<Identity>;

    fn identity(&self, options: &IdOptions) -> (r: Option<Identity>)
        ensures
            r == self.identity_spec(*options),
    ;

    fn id(&self) -> (r: Option<Identity>)
        ensures
            r == self.identity_spec(IdOptions { infer: false, symmetric: false }),
    {
        self.identity(&IdOptions { infer: false, symmetric: false })
    }
}

/// Whether two identities, where known, agree.
pub fn match_ids(a: Option<Identity>, b: Option<Identity>, assumed: bool) -> (r: bool)
    ensures
        r == match_result(a, b, assumed),
{
    match a {
        None => assumed,
        Some(a) => match b {
            None => false,
            Some(b) => a.suit_index == b.suit_index && a.rank == b.rank,
        },
    }
}

impl Identifiable for Identity {
    open spec fn identity_spec(&self, options: IdOptions) -> Option<Identity> {
        Some(*self)
    }

    fn identity(&self, options: &IdOptions) -> (r: Option<Identity>) {
        Some(*self)
    }
}

/// What a convention has said about a card.
#[derive(Debug, Clone, Copy, PartialEq, Eq, Structural)]
pub enum CardStatus {
    NoStatus,
    Finessed,
    ChopMoved,
    CalledToPlay,
    CalledToDiscard,
}

impl CardStatus {
    /// The status as the log writes it.
    pub open spec fn text(&self) -> Seq<char> {
        match self {
            CardStatus::NoStatus => "none"@,
            CardStatus::Finessed => "finessed"@,
            CardStatus::ChopMoved => "chop moved"@,
            CardStatus::CalledToPlay => "called to play"@,
            CardStatus::CalledToDiscard => "called to discard"@,
        }
    }

    /// The status as the log writes it.
    pub fn fmt(&self) -> (r: String)
        ensures
            r@ == self.text(),
    {
        match self {
            CardStatus::NoStatus => String::from_str("none"),
            CardStatus::Finessed => String::from_str("finessed"),
            CardStatus::ChopMoved => String::from_str("chop moved"),
            CardStatus::CalledToPlay => String::from_str("called to play"),
            CardStatus::CalledToDiscard => String::from_str("called to discard"),
        }
    }
}

/// A card of the deck, as far as it has been seen.
#[derive(Debug, Clone)]
pub struct Card {
    pub base: Option<Identity>,
    pub order: usize,
    pub drawn_index: usize,
    pub clued: bool,
    pub newly_clued: bool,
    pub clues: Vec<CardClue>,
}

impl Card {
    pub fn new(base: Option<Identity>, order: usize, drawn_index: usize) -> (r: Self)
        ensures
            r.base == base,
            r.order == order,
            r.drawn_index == drawn_index,
            !r.clued,
            !r.newly_clued,
            r.clues@ == Seq::<CardClue>::empty(),
    {
        Card { base, order, drawn_index, clued: false, newly_clued: false, clues: Vec::new() }
    }
}

impl Identifiable for Card {
    open spec fn identity_spec(&self, options: IdOptions) -> Option<Identity> {
        self.base
    }

    fn identity(&self, options: &IdOptions) -> (r: Option<Identity>) {
        self.base
    }
}

/// What a player thinks a card may be.
#[derive(Debug, Clone, Copy)]
pub struct Thought {
    pub order: usize,
    /// The identity, where the thinker sees the card.
    pub base: Option<Identity>,
    /// The identities that the clues and the visible cards allow.
    pub possible: IdentitySet,
    /// The identities that the conventions allow.
    pub inferred: IdentitySet,
    /// A set that the inferences may not leave when reset.
    pub info_lock: Option<IdentitySet>,
    /// Whether the inferences were reset since they ran out.
    pub reset: bool,
}

/// The identity of the lowest position of a set.
pub open spec fn first_id(s: IdentitySet) -> Identity {
    ids_of(s.bits())[0]
}

impl Thought {
    pub fn new(order: usize, base: Option<Identity>, poss: IdentitySet) -> (r: Self)
        ensures
            r.order == order,
            r.base == base,
            r.possible == poss,
            r.inferred == poss,
            r.info_lock is None,
            !r.reset,
    {
        Thought { order, base, possible: poss, inferred: poss, info_lock: None, reset: false }
    }

    pub open spec fn possibilities_spec(&self) -> IdentitySet {
        if self.inferred@.len() == 0 {
            self.possible
        } else {
            self.inferred
        }
    }

    /// The inferences, or the possibilities where no inference is left.
    pub fn possibilities(&self) -> (r: IdentitySet)
        ensures
            r == self.possibilities_spec(),
    {
        if self.inferred.is_empty() {
            proof {
                lemma_bits_finite(self.inferred.bits());
            }
            self.possible
        } else {
            proof {
                lemma_bits_finite(self.inferred.bits());
                if self.inferred@.len() == 0 {
                    assert(self.inferred@ =~= Set::<int>::empty());
                }
            }
            self.inferred
        }
    }

    /// Starts the inferences over from the possibilities, kept inside the lock if any.
    pub fn reset_inferences(&mut self)
        ensures
            final(self).reset,
            final(self).order == old(self).order,
            final(self).base == old(self).base,
            final(self).possible == old(self).possible,
            final(self).info_lock == old(self).info_lock,
            match old(self).info_lock {
                None => final(self).inferred@ == old(self).possible@,
                Some(lock) => final(self).inferred@ == old(self).possible@.intersect(lock@),
            },
    {
        self.reset = true;
        self.inferred = self.possible;
        match self.info_lock {
            Some(lock) => {
                self.inferred = self.inferred.intersect(&lock);
            },
            None => {},
        }
    }
}

/// Whether a set holds exactly one position.
pub open spec fn is_single(s: IdentitySet) -> bool {
    s@.len() == 1
}

impl Identifiable for Thought {
    open spec fn identity_spec(&self, options: IdOptions) -> Option<Identity> {
        if is_single(self.possible) {
            Some(first_id(self.possible))
        } else if !options.symmetric && self.base is Some {
            self.base
        } else if options.infer && is_single(self.inferred) {
            Some(first_id(self.inferred))
        } else {
            None
        }
    }

    fn identity(&self, options: &IdOptions) -> (r: Option<Identity>) {
        if self.possible.len() == 1 {
            return Some(single_of(&self.possible));
        }
        if !options.symmetric && self.base.is_some() {
            return self.base;
        }
        if options.infer && self.inferred.len() == 1 {
            Some(single_of(&self.inferred))
        } else {
            None
        }
    }
}

/// The identity at the lowest position of a non-empty set.
pub fn single_of(s: &IdentitySet) -> (r: Identity)
    requires
        s@.len() >= 1,
    ensures
        r == first_id(*s),
        s@.contains(r.ord()),
        r.valid(),
{
    let v = s.to_vec();
    proof {
        lemma_ords_below(s.bits(), usize::BITS as nat);
        lemma_bits_finite(s.bits());
        assert(crate::basics::identity_set::bits_below(s.bits(), usize::BITS as int) =~= s@);
        let o = crate::basics::identity_set::ords_below(s.bits(), usize::BITS as nat)[0];
        assert(s@.contains(o));
        lemma_of_ord_valid(o);
    }
    v[0]
}

/// What a convention has said about a card, and why.
#[derive(Debug, Clone)]
pub struct ConvData {
    pub order: usize,
    pub focused: bool,
    pub urgent: bool,
    pub trash: bool,
    pub status: CardStatus,
    pub depends_on: Option<Vec<usize>>,
    pub reasoning: Vec<usize>,
}

impl ConvData {
    pub fn new(order: usize) -> (r: Self)
        ensures
            r.order == order,
            !r.focused,
            !r.urgent,
            !r.trash,
            r.depends_on is None,
            r.status == CardStatus::NoStatus,
            r.reasoning@ == Seq::<usize>::empty(),
    {
        ConvData {
            order,
            focused: false,
            urgent: false,
            trash: false,
            depends_on: None,
            status: CardStatus::NoStatus,
            reasoning: Vec::new(),
        }
    }

    pub fn blind_playing(&self) -> (r: bool)
        ensures
            r == (self.status == CardStatus::Finessed),
    {
        self.status == CardStatus::Finessed
    }

    pub fn cm(&self) -> (r: bool)
        ensures
            r == (self.status == CardStatus::ChopMoved),
    {
        self.status == CardStatus::ChopMoved
    }
}


impl Identity {
    pub fn matches<Other: Identifiable>(&self, other: &Other, options: &MatchOptions) -> (r: bool)
        ensures
            r == match_result(
                self.identity_spec(IdOptions { infer: options.infer, symmetric: options.symmetric }),
                other.identity_spec(IdOptions { infer: options.infer, symmetric: options.symmetric }),
                options.assumed,
            ),
    {
        let id_opts = IdOptions { infer: options.infer, symmetric: options.symmetric };
        match_ids(self.identity(&id_opts), other.identity(&id_opts), options.assumed)
    }

    pub fn is<Other: Identifiable>(&self, other: &Other) -> (r: bool)
        ensures
            r == match_result(
                self.identity_spec(IdOptions { infer: false, symmetric: false }),
                other.identity_spec(IdOptions { infer: false, symmetric: false }),
                false,
            ),
    {
        let id_opts = IdOptions { infer: false, symmetric: false };
        match_ids(self.identity(&id_opts), other.identity(&id_opts), false)
    }
}

impl Card {
    pub fn matches<Other: Identifiable>(&self, other: &Other, options: &MatchOptions) -> (r: bool)
        ensures
            r == match_result(
                self.identity_spec(IdOptions { infer: options.infer, symmetric: options.symmetric }),
                other.identity_spec(IdOptions { infer: options.infer, symmetric: options.symmetric }),
                options.assumed,
            ),
    {
        let id_opts = IdOptions { infer: options.infer, symmetric: options.symmetric };
        match_ids(self.identity(&id_opts), other.identity(&id_opts), options.assumed)
    }

    pub fn is<Other: Identifiable>(&self, other: &Other) -> (r: bool)
        ensures
            r == match_result(
                self.identity_spec(IdOptions { infer: false, symmetric: false }),
                other.identity_spec(IdOptions { infer: false, symmetric: false }),
                false,
            ),
    {
        let id_opts = IdOptions { infer: false, symmetric: false };
        match_ids(self.identity(&id_opts), other.identity(&id_opts), false)
    }
}

impl Thought {
    pub fn matches<Other: Identifiable>(&self, other: &Other, options: &MatchOptions) -> (r: bool)
        ensures
            r == match_result(
                self.identity_spec(IdOptions { infer: options.infer, symmetric: options.symmetric }),
                other.identity_spec(IdOptions { infer: options.infer, symmetric: options.symmetric }),
                options.assumed,
            ),
    {
        let id_opts = IdOptions { infer: options.infer, symmetric: options.symmetric };
        match_ids(self.identity(&id_opts), other.identity(&id_opts), options.assumed)
    }

    pub fn is<Other: Identifiable>(&self, other: &Other) -> (r: bool)
        ensures
            r == match_result(
                self.identity_spec(IdOptions { infer: false, symmetric: false }),
                other.identity_spec(IdOptions { infer: false, symmetric: false }),
                false,
            ),
    {
        let id_opts = IdOptions { infer: false, symmetric: false };
        match_ids(self.identity(&id_opts), other.identity(&id_opts), false)
    }
}

} // verus!
