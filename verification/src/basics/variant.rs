use vstd::prelude::*;

use crate::basics::card::{Identifiable, Identity, lemma_of_ord_valid};
use crate::basics::clue::{BaseClue, ClueKind};
use crate::basics::identity_set::{IdentitySet, lemma_sum_bits_range};
use crate::text::{lowercase, text_eq, to_lower};

verus! {

/// What a `regex::Regex` built from `pattern` answers to `is_match(haystack)`,
/// or `None` where the pattern does not build.
pub uninterp spec fn regex_match(pattern: Seq<char>, haystack: Seq<char>) -> Option<bool>;

/// Builds a `regex::Regex` from `pattern` with `Regex::new` and asks it `is_match(haystack)`.
#[verifier::external_body]
fn regex_is_match(pattern: &str, haystack: &str) -> (r: Option<bool>)
    ensures
        r == regex_match(pattern@, haystack@),
{
    match regex::Regex::new(pattern) {
        Ok(re) => Some(re.is_match(haystack)),
        Err(_) => None,
    }
}

/// Whether the pattern matches somewhere in the text.
pub open spec fn pattern_matches(pattern: Seq<char>, text: Seq<char>) -> bool {
    regex_match(pattern, text) == Some(true)
}

/// Whether the pattern matches somewhere in the text.
pub fn is_match(pattern: &str, text: &str) -> (r: bool)
    ensures
        r == pattern_matches(pattern@, text@),
{
    match regex_is_match(pattern, text) {
        Some(b) => b,
        None => false,
    }
}

/// Suits that no colour clue touches.
pub const WHITISH: &'static str = "White|Gray|Light|Null";

/// Suits that every colour clue touches.
pub const RAINBOWISH: &'static str = "Rainbow|Omni";

/// Suits that every rank clue touches.
pub const PINKISH: &'static str = "Pink|Omni";

/// Suits that no rank clue touches.
pub const BROWNISH: &'static str = "Brown|Muddy|Cocoa|Null";

/// Suits with one copy of each card.
pub const DARK: &'static str = "Black|Dark|Gray|Cocoa";

/// Suits touched by the colour clue of the rank's position.
pub const PRISM: &'static str = "Prism";

/// Suits that cannot be clued by colour.
pub const NO_COLOUR: &'static str = "White|Gray|Light|Null|Rainbow|Omni|Prism";

/// A set of suits and the special rules that go with them.
#[derive(Debug, Clone)]
pub struct Variant {
    pub id: u32,
    pub name: String,
    pub suits: Vec<String>,
    pub critical_rank: Option<usize>,
    pub clue_starved: Option<bool>,
    pub special_rank: Option<usize>,
    pub rainbow_s: Option<bool>,
    pub white_s: Option<bool>,
    pub pink_s: Option<bool>,
    pub brown_s: Option<bool>,
    pub deceptive_s: Option<bool>,
    pub short_forms: Option<Vec<String>>,
    pub colourable_suits: Option<Vec<String>>,
}

/// The special rules of a variant, all off by default.
#[derive(Default)]
pub struct VariantOpts {
    pub critical_rank: Option<usize>,
    pub clue_starved: Option<bool>,
    pub special_rank: Option<usize>,
    pub rainbow_s: Option<bool>,
    pub white_s: Option<bool>,
    pub pink_s: Option<bool>,
    pub brown_s: Option<bool>,
    pub deceptive_s: Option<bool>,
}

/// The suits that colour clues can name, in order.
pub open spec fn colourable_of(suits: Seq<Seq<char>>) -> Seq<Seq<char>> {
    suits.filter(|s: Seq<char>| !pattern_matches(NO_COLOUR@, s))
}

impl Variant {
    /// The suits' names.
    pub open spec fn suit_names(&self) -> Seq<Seq<char>> {
        self.suits@.map_values(|s: String| s@)
    }

    /// The names of the suits that colour clues can name.
    pub open spec fn colour_names(&self) -> Seq<Seq<char>> {
        self.colourable_suits.unwrap()@.map_values(|s: String| s@)
    }

    /// Short forms and colourable suits are known, there is a short form per suit,
    /// and each identity's position fits a bit of a machine word.
    pub open spec fn wf(&self) -> bool {
        &&& self.colourable_suits is Some
        &&& self.short_forms is Some
        &&& self.short_forms.unwrap()@.len() == self.suits@.len()
        &&& self.colourable_suits.unwrap()@.len() <= self.suits@.len()
        &&& 5 * self.suits@.len() <= usize::BITS
    }

    pub fn new(id: u32, name: &str, suit_strs: &[&str], short_strs: &[&str], opts: VariantOpts) -> (r: Self)
        requires
            short_strs@.len() >= suit_strs@.len(),
        ensures
            r.id == id,
            r.name@ == name@,
            r.suit_names() == suit_strs@.map_values(|s: &str| s@),
            r.short_forms is Some,
            r.short_forms.unwrap()@.map_values(|s: String| s@) == short_strs@.take(
                suit_strs@.len() as int,
            ).map_values(|s: &str| s@),
            r.colourable_suits is Some,
            r.colour_names() == colourable_of(r.suit_names()),
            r.critical_rank == opts.critical_rank,
            r.clue_starved == opts.clue_starved,
            r.special_rank == opts.special_rank,
            r.rainbow_s == opts.rainbow_s,
            r.white_s == opts.white_s,
            r.pink_s == opts.pink_s,
            r.brown_s == opts.brown_s,
            r.deceptive_s == opts.deceptive_s,
    {
        let mut suits: Vec<String> = Vec::new();
        let mut short_forms: Vec<String> = Vec::new();
        let mut colourable_suits: Vec<String> = Vec::new();
        let ghost names = suit_strs@.map_values(|s: &str| s@);
        let ghost shorts = short_strs@.map_values(|s: &str| s@);
        let mut i: usize = 0;
        while i < suit_strs.len()
            invariant
                i <= suit_strs@.len(),
                short_strs@.len() >= suit_strs@.len(),
                names == suit_strs@.map_values(|s: &str| s@),
                shorts == short_strs@.map_values(|s: &str| s@),
                suits@.map_values(|s: String| s@) == names.take(i as int),
                short_forms@.map_values(|s: String| s@) == shorts.take(i as int),
                colourable_suits@.map_values(|s: String| s@) == colourable_of(names.take(i as int)),
            decreases suit_strs@.len() - i,
        {
            let suit = String::from_str(suit_strs[i]);
            let colourable = !is_match(NO_COLOUR, suit.as_str());
            let ghost prev_suits = suits@;
            let ghost prev_shorts = short_forms@;
            let ghost prev_col = colourable_suits@;
            suits.push(suit.clone());
            short_forms.push(String::from_str(short_strs[i]));
            if colourable {
                colourable_suits.push(suit);
            }
            proof {
                let f = |s: String| s@;
                assert(names.take(i + 1) =~= names.take(i as int).push(names[i as int]));
                assert(shorts.take(i + 1) =~= shorts.take(i as int).push(shorts[i as int]));
                assert(suits@.map_values(f) =~= prev_suits.map_values(f).push(names[i as int]));
                assert(short_forms@.map_values(f) =~= prev_shorts.map_values(f).push(shorts[i as int]));
                let p = |s: Seq<char>| !pattern_matches(NO_COLOUR@, s);
                names.take(i as int).lemma_filter_push(names[i as int], p);
                if colourable {
                    assert(colourable_suits@.map_values(f) =~= prev_col.map_values(f).push(names[i as int]));
                }
            }
            i += 1;
        }
        proof {
            assert(names.take(suit_strs@.len() as int) =~= names);
            assert(shorts.take(suit_strs@.len() as int) =~= short_strs@.take(suit_strs@.len() as int).map_values(|s: &str| s@));
        }
        Variant {
            id,
            name: String::from_str(name),
            suits,
            colourable_suits: Some(colourable_suits),
            short_forms: Some(short_forms),
            critical_rank: opts.critical_rank,
            clue_starved: opts.clue_starved,
            special_rank: opts.special_rank,
            rainbow_s: opts.rainbow_s,
            white_s: opts.white_s,
            pink_s: opts.pink_s,
            brown_s: opts.brown_s,
            deceptive_s: opts.deceptive_s,
        }
    }
}

/// Every identity of the variant, suit by suit, rank 1 to 5.
pub open spec fn all_ids_spec(num_suits: nat) -> Seq<Identity> {
    Seq::new(5 * num_suits, |o: int| Identity::of_ord(o))
}

pub fn all_ids(variant: &Variant) -> (r: Vec<Identity>)
    requires
        5 * variant.suits@.len() <= usize::BITS,
    ensures
        r@ == all_ids_spec(variant.suits@.len()),
{
    let n = variant.suits.len();
    let mut r: Vec<Identity> = Vec::new();
    let mut suit_index: usize = 0;
    while suit_index < n
        invariant
            n == variant.suits@.len(),
            5 * n <= usize::BITS,
            suit_index <= n,
            r@ == Seq::new(5 * suit_index as nat, |o: int| Identity::of_ord(o)),
        decreases n - suit_index,
    {
        let mut rank: usize = 1;
        while rank <= 5
            invariant
                n == variant.suits@.len(),
                5 * n <= usize::BITS,
                suit_index < n,
                1 <= rank <= 6,
                r@ == Seq::new((5 * suit_index + rank - 1) as nat, |o: int| Identity::of_ord(o)),
            decreases 6 - rank,
        {
            let ghost prev = r@;
            r.push(Identity { suit_index, rank });
            proof {
                let o = 5 * suit_index + rank - 1;
                assert(Identity::of_ord(o) == Identity { suit_index, rank }) by {
                    assert(o / 5 == suit_index) by (nonlinear_arith)
                        requires o == 5 * suit_index + rank - 1, 1 <= rank <= 5;
                    assert(o % 5 == rank - 1) by (nonlinear_arith)
                        requires o == 5 * suit_index + rank - 1, 1 <= rank <= 5;
                }
                assert(r@ =~= Seq::new((o + 1) as nat, |o: int| Identity::of_ord(o)));
            }
            rank += 1;
        }
        suit_index += 1;
    }
    r
}

/// The set of every identity of the variant.
pub fn all_id_set(variant: &Variant) -> (r: IdentitySet)
    requires
        5 * variant.suits@.len() <= usize::BITS,
    ensures
        r@ == Set::new(|o: int| 0 <= o < 5 * variant.suits@.len()),
{
    let ids = all_ids(variant);
    proof {
        assert forall|j: int| 0 <= j < ids@.len() implies (#[trigger] ids@[j]).valid() && ids@[j].ord() == j by {
            lemma_of_ord_valid(j);
        }
        lemma_sum_bits_range(ids@);
        let f = |id: Identity| id.ord();
        assert(ids@.map_values(f) =~= Seq::new(ids@.len(), |j: int| j));
        assert(ids@.map_values(f).no_duplicates());
        assert(ids@.map_values(f).to_set() =~= Set::new(|o: int| 0 <= o < 5 * variant.suits@.len())) by {
            assert forall|o: int| ids@.map_values(f).to_set().contains(o) <==> 0 <= o < 5 * variant.suits@.len() by {
                if 0 <= o < 5 * variant.suits@.len() {
                    assert(ids@.map_values(f)[o] == o);
                }
            }
        }
    }
    IdentitySet::from_iter(ids)
}

/// The touching rules of the variant, for the suit's name.
pub open spec fn id_touched_spec(id: Identity, variant: Variant, clue: BaseClue) -> bool {
    let suit = variant.suit_names()[id.suit_index as int];
    let special = variant.special_rank == Some(id.rank);
    if clue.kind == ClueKind::COLOUR {
        if pattern_matches(WHITISH@, suit) {
            false
        } else if pattern_matches(RAINBOWISH@, suit) {
            true
        } else if special && variant.rainbow_s == Some(true) {
            true
        } else if special && variant.white_s == Some(true) {
            false
        } else if pattern_matches(PRISM@, suit) {
            (id.rank - 1) % (variant.colour_names().len() as int) == clue.value
        } else {
            suit == variant.colour_names()[clue.value as int]
        }
    } else {
        if pattern_matches(BROWNISH@, suit) {
            false
        } else if special && variant.pink_s == Some(true) {
            id.rank != clue.value
        } else if special && variant.brown_s == Some(true) {
            false
        } else if special && variant.deceptive_s == Some(true) {
            (id.suit_index % 4) + (if variant.special_rank == Some(1usize) { 2int } else { 1int }) == clue.value
        } else if pattern_matches(PINKISH@, suit) {
            true
        } else {
            id.rank == clue.value
        }
    }
}

/// The identity's suit exists, its rank is at least 1, and a colour clue names a colourable suit.
pub open spec fn touch_defined(id: Identity, variant: Variant, clue: BaseClue) -> bool {
    &&& id.suit_index < variant.suits@.len()
    &&& 1 <= id.rank
    &&& variant.colourable_suits is Some
    &&& clue.kind == ClueKind::COLOUR ==> clue.value < variant.colourable_suits.unwrap()@.len()
}

pub fn id_touched(id: Identity, variant: &Variant, clue: &BaseClue) -> (r: bool)
    requires
        touch_defined(id, *variant, *clue),
    ensures
        r == id_touched_spec(id, *variant, *clue),
{
    let Identity { suit_index, rank } = id;
    let suit = variant.suits[suit_index].as_str();
    let special = match variant.special_rank {
        Some(r) => r == rank,
        None => false,
    };
    let flag = |o: Option<bool>| -> (r: bool)
        ensures r == (o == Some(true))
    {
        match o { Some(c) => c, None => false }
    };
    proof {
        assert(variant.suit_names()[suit_index as int] == variant.suits@[suit_index as int]@);
    }
    if clue.kind == ClueKind::COLOUR {
        if is_match(WHITISH, suit) {
            return false;
        }
        if is_match(RAINBOWISH, suit) {
            return true;
        }
        if special {
            if flag(variant.rainbow_s) {
                return true;
            } else if flag(variant.white_s) {
                return false;
            }
        }
        let colourable = match &variant.colourable_suits {
            Some(c) => c,
            None => { return false; },
        };
        if is_match(PRISM, suit) {
            return ((rank - 1) % colourable.len()) == clue.value;
        }
        proof {
            assert(variant.colour_names()[clue.value as int] == colourable@[clue.value as int]@);
        }
        variant.suits[suit_index] == colourable[clue.value]
    } else {
        if is_match(BROWNISH, suit) {
            return false;
        }
        if special {
            if flag(variant.pink_s) {
                return rank != clue.value;
            } else if flag(variant.brown_s) {
                return false;
            } else if flag(variant.deceptive_s) {
                let bump: usize = match variant.special_rank { Some(1) => 2, _ => 1 };
                return (suit_index % 4) + bump == clue.value;
            }
        }
        if is_match(PINKISH, suit) {
            return true;
        }
        rank == clue.value
    }
}

/// Whether the clue touches the card, whose identity must be known to be touched.
pub open spec fn card_touched_spec(id: Option<Identity>, variant: Variant, clue: BaseClue) -> bool {
    match id {
        None => false,
        Some(id) => id_touched_spec(id, variant, clue),
    }
}

pub fn card_touched<T: Identifiable>(card: &T, variant: &Variant, clue: &BaseClue) -> (r: bool)
    requires
        card.identity_spec(crate::basics::card::IdOptions { infer: false, symmetric: false }) matches Some(
            id,
        ) ==> touch_defined(id, *variant, *clue),
    ensures
        r == card_touched_spec(
            card.identity_spec(crate::basics::card::IdOptions { infer: false, symmetric: false }),
            *variant,
            *clue,
        ),
{
    match card.id() {
        None => false,
        Some(id) => id_touched(id, variant, clue),
    }
}

pub fn touch_possibilities(clue: &BaseClue, variant: &Variant) -> (r: Vec<Identity>)
    requires
        5 * variant.suits@.len() <= usize::BITS,
        variant.colourable_suits is Some,
        clue.kind == ClueKind::COLOUR ==> clue.value < variant.colourable_suits.unwrap()@.len(),
    ensures
        r@ == all_ids_spec(variant.suits@.len()).filter(|id: Identity| id_touched_spec(id, *variant, *clue)),
        r@ == touch_possibilities_spec(*clue, *variant),
        forall|j: int| 0 <= j < r@.len() ==> (#[trigger] r@[j]).valid() && r@[j].suit_index < variant.suits@.len(),
{
    let ids = all_ids(variant);
    let ghost p = |id: Identity| id_touched_spec(id, *variant, *clue);
    let mut r: Vec<Identity> = Vec::new();
    let mut i: usize = 0;
    while i < ids.len()
        invariant
            i <= ids@.len(),
            ids@ == all_ids_spec(variant.suits@.len()),
            5 * variant.suits@.len() <= usize::BITS,
            variant.colourable_suits is Some,
            clue.kind == ClueKind::COLOUR ==> clue.value < variant.colourable_suits.unwrap()@.len(),
            p == (|id: Identity| id_touched_spec(id, *variant, *clue)),
            r@ == ids@.take(i as int).filter(p),
            forall|j: int| 0 <= j < r@.len() ==> (#[trigger] r@[j]).valid() && r@[j].suit_index < variant.suits@.len(),
        decreases ids@.len() - i,
    {
        let id = ids[i];
        proof {
            lemma_of_ord_valid(i as int);
            assert(id == Identity::of_ord(i as int));
            assert(id.suit_index < variant.suits@.len()) by (nonlinear_arith)
                requires id.suit_index == i / 5, i < 5 * variant.suits@.len();
            assert(ids@.take(i + 1) =~= ids@.take(i as int).push(id));
            ids@.take(i as int).lemma_filter_push(id, p);
        }
        if id_touched(id, variant, clue) {
            r.push(id);
        }
        i += 1;
    }
    proof {
        assert(ids@.take(ids@.len() as int) =~= ids@);
    }
    r
}

/// How many copies of the identity the deck holds.
pub open spec fn card_count_spec(variant: Variant, id: Identity) -> nat {
    if pattern_matches(DARK@, variant.suit_names()[id.suit_index as int]) || variant.critical_rank
        == Some(id.rank) {
        1
    } else if id.rank == 1 {
        3
    } else if id.rank == 5 {
        1
    } else {
        2
    }
}

pub fn card_count(variant: &Variant, identity: Identity) -> (r: usize)
    requires
        identity.suit_index < variant.suits@.len(),
        1 <= identity.rank <= 5,
    ensures
        r == card_count_spec(*variant, identity),
        1 <= r <= 3,
{
    let Identity { suit_index, rank } = identity;
    let critical = match variant.critical_rank {
        Some(r) => r == rank,
        None => false,
    };
    proof {
        assert(variant.suit_names()[suit_index as int] == variant.suits@[suit_index as int]@);
    }
    if is_match(DARK, variant.suits[suit_index].as_str()) || critical {
        1
    } else {
        let counts: [usize; 5] = [3, 2, 2, 2, 1];
        counts[rank - 1]
    }
}

/// A suit as the server lists it, with the abbreviation it is written with.
#[derive(Debug, Clone)]
pub struct Suit {
    pub name: String,
    pub abbreviation: Option<String>,
}

/// The names of the strings.
pub open spec fn names_of(v: Seq<String>) -> Seq<Seq<char>> {
    v.map_values(|s: String| s@)
}

/// The names in an optional list of strings.
pub open spec fn opt_names(v: Option<Vec<String>>) -> Option<Seq<Seq<char>>> {
    match v {
        Some(v) => Some(names_of(v@)),
        None => None,
    }
}

/// The first variant with the name.
pub open spec fn first_variant(vs: Seq<Variant>, name: Seq<char>) -> Option<int>
    decreases vs.len(),
{
    if vs.len() == 0 {
        None
    } else {
        match first_variant(vs.drop_last(), name) {
            Some(i) => Some(i),
            None => if vs.last().name@ == name { Some(vs.len() - 1) } else { None },
        }
    }
}

/// The first listed suit with the name.
pub open spec fn first_colour(colours: Seq<Suit>, name: Seq<char>) -> Option<int>
    decreases colours.len(),
{
    if colours.len() == 0 {
        None
    } else {
        match first_colour(colours.drop_last(), name) {
            Some(i) => Some(i),
            None => if colours.last().name@ == name { Some(colours.len() - 1) } else { None },
        }
    }
}

/// The first character of the text that is not, on its own, a short form yet.
pub open spec fn first_unused(text: Seq<char>, shorts: Seq<Seq<char>>) -> Option<int>
    decreases text.len(),
{
    if text.len() == 0 {
        None
    } else {
        match first_unused(text.drop_last(), shorts) {
            Some(i) => Some(i),
            None => if !shorts.contains(seq![text.last()]) { Some(text.len() - 1) } else { None },
        }
    }
}

/// The short form of a suit, given those of the suits before it: fixed for black, pink
/// and brown; else the listed abbreviation of the suit, or its first letter in lower
/// case, where that is not taken; else the empty form, where that is not taken; else
/// the first unused letter of the suit's name in lower case. `None` where the suit is
/// not listed, where its name does not start with a one-byte character, or where every
/// choice is taken.
pub open spec fn short_form(suit: Seq<char>, colours: Seq<Suit>, shorts: Seq<Seq<char>>) -> Option<Seq<char>> {
    if suit == "Black"@ {
        Some("k"@)
    } else if suit == "Pink"@ {
        Some("i"@)
    } else if suit == "Brown"@ {
        Some("n"@)
    } else {
        match first_colour(colours, suit) {
            None => None,
            Some(c) => if suit.len() == 0 || suit[0] as int >= 128 {
                None
            } else {
                let abbr = match colours[c].abbreviation {
                    Some(a) => a@,
                    None => lowercase(seq![suit[0]]),
                };
                if !shorts.contains(abbr) {
                    Some(abbr)
                } else if !shorts.contains(Seq::<char>::empty()) {
                    Some(Seq::<char>::empty())
                } else {
                    match first_unused(lowercase(suit), shorts) {
                        Some(k) => Some(seq![lowercase(suit)[k]]),
                        None => None,
                    }
                }
            },
        }
    }
}

/// The short forms of the first `n` suits, each given those before it.
pub open spec fn short_forms_upto(suits: Seq<Seq<char>>, colours: Seq<Suit>, n: nat) -> Option<Seq<Seq<char>>>
    decreases n,
{
    if n == 0 {
        Some(Seq::empty())
    } else {
        match short_forms_upto(suits, colours, (n - 1) as nat) {
            None => None,
            Some(prev) => match short_form(suits[n - 1], colours, prev) {
                None => None,
                Some(s) => Some(prev.push(s)),
            },
        }
    }
}

/// The variants and suits that the server lists.
pub struct VariantManager {
    variants: Vec<Variant>,
    colours: Vec<Suit>,
}

/// A copy of the strings.
fn copy_strings(v: &Vec<String>) -> (r: Vec<String>)
    ensures
        names_of(r@) == names_of(v@),
        r@.len() == v@.len(),
{
    let mut r: Vec<String> = Vec::new();
    let mut i: usize = 0;
    while i < v.len()
        invariant
            i <= v@.len(),
            r@ == v@.take(i as int),
        decreases v@.len() - i,
    {
        r.push(v[i].clone());
        proof {
            assert(r@ =~= v@.take(i + 1));
        }
        i += 1;
    }
    proof {
        assert(v@.take(v@.len() as int) =~= v@);
    }
    r
}

/// A copy of the optional strings.
fn copy_opt_strings(v: &Option<Vec<String>>) -> (r: Option<Vec<String>>)
    ensures
        opt_names(r) == opt_names(*v),
{
    match v {
        Some(v) => Some(copy_strings(v)),
        None => None,
    }
}

/// The listed variant `v` as given: the same, with its short forms and colourable suits
/// filled in where it lists none.
pub open spec fn variant_filled(v: Variant, colours: Seq<Suit>, var: Variant) -> bool {
    let shorts = short_forms_upto(v.suit_names(), colours, v.suits@.len());
    &&& var.id == v.id
    &&& var.name@ == v.name@
    &&& var.suit_names() == v.suit_names()
    &&& var.critical_rank == v.critical_rank
    &&& var.clue_starved == v.clue_starved
    &&& var.special_rank == v.special_rank
    &&& var.rainbow_s == v.rainbow_s
    &&& var.white_s == v.white_s
    &&& var.pink_s == v.pink_s
    &&& var.brown_s == v.brown_s
    &&& var.deceptive_s == v.deceptive_s
    &&& if v.short_forms is Some {
        &&& opt_names(var.short_forms) == opt_names(v.short_forms)
        &&& opt_names(var.colourable_suits) == opt_names(v.colourable_suits)
    } else {
        &&& shorts is Some
        &&& opt_names(var.short_forms) == shorts
        &&& var.short_forms.unwrap()@.len() == var.suits@.len()
        &&& opt_names(var.colourable_suits) == Some(colourable_of(v.suit_names()))
    }
}

impl VariantManager {
    /// The listed variants.
    pub closed spec fn variant_list(&self) -> Seq<Variant> {
        self.variants@
    }

    /// The listed suits.
    pub closed spec fn colour_list(&self) -> Seq<Suit> {
        self.colours@
    }

    /// A manager of the variants and suits that the server lists.
    pub fn new(variants: Vec<Variant>, colours: Vec<Suit>) -> (r: Self)
        ensures
            r.variant_list() == variants@,
            r.colour_list() == colours@,
    {
        VariantManager { variants, colours }
    }

    /// Whether the variant with the name can be given (see `get_variant`): some listed
    /// variant has it, and where it lists no short forms, each suit has one.
    pub open spec fn variant_found(&self, name: Seq<char>) -> bool {
        match first_variant(self.variant_list(), name) {
            None => false,
            Some(i) => {
                let v = self.variant_list()[i];
                v.short_forms is None ==> short_forms_upto(v.suit_names(), self.colour_list(), v.suits@.len()) is Some
            },
        }
    }

    /// The variant with the name, with its short forms and its colourable suits filled
    /// in where the list leaves them out.
    pub fn get_variant(&mut self, name: &str) -> (r: Variant)
        requires
            old(self).variant_found(name@),
        ensures
            final(self).variant_list() == old(self).variant_list(),
            final(self).colour_list() == old(self).colour_list(),
            variant_filled(old(self).variant_list()[first_variant(old(self).variant_list(), name@).unwrap()], old(self).colour_list(), r),
    {
        match self.find_variant(name) {
            Some(v) => v,
            None => vstd::pervasive::unreached(),
        }
    }

    /// Whether the variant with the name can be given (see `variant_found`).
    pub fn can_get_variant(&self, name: &str) -> (r: bool)
        ensures
            r == self.variant_found(name@),
    {
        self.find_variant(name).is_some()
    }

    /// The variant with the name, filled in as `get_variant` does; `None` where no
    /// variant has the name, or where a short form cannot be found (see `short_form`).
    #[verifier::spinoff_prover]
    pub fn find_variant(&self, name: &str) -> (r: Option<Variant>)
        ensures
            match first_variant(self.variant_list(), name@) {
                None => r is None,
                Some(i) => {
                    let v = self.variant_list()[i];
                    let shorts = short_forms_upto(v.suit_names(), self.colour_list(), v.suits@.len());
                    match r {
                        None => v.short_forms is None && shorts is None,
                        Some(var) => variant_filled(v, self.colour_list(), var),
                    }
                },
            },
    {
        let ghost vs = self.variants@;
        let mut found: Option<usize> = None;
        let mut i: usize = 0;
        while i < self.variants.len()
            invariant
                i <= self.variants@.len(),
                vs == self.variants@,
                found matches Some(k) ==> first_variant(vs.take(i as int), name@) == Some(k as int),
                found is None ==> first_variant(vs.take(i as int), name@) is None,
                found matches Some(k) ==> k < i,
            decreases self.variants@.len() - i,
        {
            proof {
                assert(vs.take(i + 1).drop_last() =~= vs.take(i as int));
            }
            if found.is_none() && text_eq(self.variants[i].name.as_str(), name) {
                found = Some(i);
            }
            i += 1;
        }
        proof {
            assert(vs.take(vs.len() as int) =~= vs);
        }
        let k = match found {
            Some(k) => k,
            None => return None,
        };
        let v = &self.variants[k];
        let suits = copy_strings(&v.suits);
        let (short_forms, colourable_suits) = match &v.short_forms {
            Some(_) => (copy_opt_strings(&v.short_forms), copy_opt_strings(&v.colourable_suits)),
            None => {
                let shorts = match self.short_forms_of(&v.suits) {
                    Some(s) => s,
                    None => return None,
                };
                proof {
                    lemma_short_forms_len(names_of(v.suits@), self.colour_list(), v.suits@.len());
                    assert(names_of(shorts@).len() == shorts@.len());
                    assert(shorts@.len() == suits@.len());
                }
                (Some(shorts), Some(colourable_list(&v.suits)))
            },
        };
        Some(Variant {
            id: v.id,
            name: v.name.clone(),
            suits,
            critical_rank: v.critical_rank,
            clue_starved: v.clue_starved,
            special_rank: v.special_rank,
            rainbow_s: v.rainbow_s,
            white_s: v.white_s,
            pink_s: v.pink_s,
            brown_s: v.brown_s,
            deceptive_s: v.deceptive_s,
            short_forms,
            colourable_suits,
        })
    }

    /// The first listed suit with the name.
    fn find_colour(&self, name: &str) -> (r: Option<usize>)
        ensures
            r matches Some(k) ==> first_colour(self.colour_list(), name@) == Some(k as int),
            r is None ==> first_colour(self.colour_list(), name@) is None,
            r matches Some(k) ==> k < self.colour_list().len(),
    {
        let ghost cs = self.colours@;
        let mut found: Option<usize> = None;
        let mut i: usize = 0;
        while i < self.colours.len()
            invariant
                i <= self.colours@.len(),
                cs == self.colours@,
                found matches Some(k) ==> first_colour(cs.take(i as int), name@) == Some(k as int),
                found is None ==> first_colour(cs.take(i as int), name@) is None,
                found matches Some(k) ==> k < i,
            decreases self.colours@.len() - i,
        {
            proof {
                assert(cs.take(i + 1).drop_last() =~= cs.take(i as int));
            }
            if found.is_none() && text_eq(self.colours[i].name.as_str(), name) {
                found = Some(i);
            }
            i += 1;
        }
        proof {
            assert(cs.take(cs.len() as int) =~= cs);
        }
        found
    }

    /// The short form of a suit, given those before it (see `short_form`).
    fn short_form_of(&self, suit: &str, shorts: &Vec<String>) -> (r: Option<String>)
        ensures
            match r {
                Some(s) => short_form(suit@, self.colour_list(), names_of(shorts@)) == Some(s@),
                None => short_form(suit@, self.colour_list(), names_of(shorts@)) is None,
            },
    {
        proof {
            reveal_strlit("Black");
            reveal_strlit("Pink");
            reveal_strlit("Brown");
        }
        if text_eq(suit, "Black") {
            return Some(String::from_str("k"));
        }
        if text_eq(suit, "Pink") {
            return Some(String::from_str("i"));
        }
        if text_eq(suit, "Brown") {
            return Some(String::from_str("n"));
        }
        let c = match self.find_colour(suit) {
            Some(c) => c,
            None => return None,
        };
        if suit.unicode_len() == 0 {
            return None;
        }
        let first = suit.get_char(0);
        if first as u32 >= 128 {
            proof {
                assert(suit@[0] as int >= 128);
            }
            return None;
        }
        proof {
            assert(first == suit@[0]);
            assert(!(suit@[0] as int >= 128));
            assert(first_colour(self.colour_list(), suit@) == Some(c as int));
        }
        let abbr = match &self.colours[c].abbreviation {
            Some(a) => a.clone(),
            None => to_lower(suit.substring_char(0, 1)),
        };
        proof {
            assert(suit@.subrange(0, 1) =~= seq![suit@[0]]);
        }
        proof {
            let want = match self.colour_list()[c as int].abbreviation {
                Some(a) => a@,
                None => lowercase(seq![suit@[0]]),
            };
            assert(abbr@ == want);
        }
        if !has_string(shorts, abbr.as_str()) {
            return Some(abbr);
        }
        if !has_string(shorts, "") {
            proof {
                reveal_strlit("");
                assert(""@ =~= Seq::<char>::empty());
            }
            return Some(String::new());
        }
        proof {
            reveal_strlit("");
            assert(""@ =~= Seq::<char>::empty());
        }
        let lower = to_lower(suit);
        let n = lower.as_str().unicode_len();
        let ghost text = lower@;
        let ghost names = names_of(shorts@);
        assert(short_form(suit@, self.colour_list(), names) == match first_unused(text, names) {
            Some(k) => Some(seq![text[k]]),
            None => None,
        });
        let mut k: usize = 0;
        while k < n
            invariant
                n == text.len(),
                text == lower@,
                names == names_of(shorts@),
                short_form(suit@, self.colour_list(), names) == match first_unused(text, names) {
                    Some(k) => Some(seq![text[k]]),
                    None => None,
                },
                k <= n,
                first_unused(text.take(k as int), names_of(shorts@)) is None,
            decreases n - k,
        {
            let piece = lower.as_str().substring_char(k, k + 1);
            proof {
                assert(text.take(k + 1).drop_last() =~= text.take(k as int));
                assert(piece@ =~= seq![text[k as int]]);
            }
            if !has_string(shorts, piece) {
                proof {
                    assert(first_unused(text.take(k + 1), names_of(shorts@)) == Some(k as int));
                    lemma_first_unused_prefix(text, names_of(shorts@), k as int + 1);
                }
                return Some(String::from_str(piece));
            }
            k += 1;
        }
        proof {
            assert(text.take(n as int) =~= text);
        }
        None
    }

    /// The short forms of the suits, each given those before it (see `short_form`).
    fn short_forms_of(&self, suits: &Vec<String>) -> (r: Option<Vec<String>>)
        ensures
            match r {
                Some(s) => short_forms_upto(names_of(suits@), self.colour_list(), suits@.len()) == Some(names_of(s@)),
                None => short_forms_upto(names_of(suits@), self.colour_list(), suits@.len()) is None,
            },
    {
        let ghost names = names_of(suits@);
        let mut shorts: Vec<String> = Vec::new();
        let mut i: usize = 0;
        while i < suits.len()
            invariant
                i <= suits@.len(),
                names == names_of(suits@),
                short_forms_upto(names, self.colour_list(), i as nat) == Some(names_of(shorts@)),
            decreases suits@.len() - i,
        {
            let s = match self.short_form_of(suits[i].as_str(), &shorts) {
                Some(s) => s,
                None => {
                    proof {
                        lemma_short_forms_stuck(names, self.colour_list(), (i + 1) as nat, suits@.len());
                    }
                    return None;
                },
            };
            let ghost prev = shorts@;
            shorts.push(s);
            proof {
                assert(names_of(shorts@) =~= names_of(prev).push(s@));
            }
            i += 1;
        }
        Some(shorts)
    }
}

/// There is one short form per suit.
pub proof fn lemma_short_forms_len(suits: Seq<Seq<char>>, colours: Seq<Suit>, n: nat)
    requires
        short_forms_upto(suits, colours, n) is Some,
    ensures
        short_forms_upto(suits, colours, n).unwrap().len() == n,
    decreases n,
{
    if n > 0 {
        lemma_short_forms_len(suits, colours, (n - 1) as nat);
    }
}

/// Once the short forms of a prefix cannot be found, neither can those of a longer one.
proof fn lemma_short_forms_stuck(suits: Seq<Seq<char>>, colours: Seq<Suit>, n: nat, m: nat)
    requires
        n <= m,
        short_forms_upto(suits, colours, n) is None,
    ensures
        short_forms_upto(suits, colours, m) is None,
    decreases m - n,
{
    if n < m {
        lemma_short_forms_stuck(suits, colours, n, (m - 1) as nat);
    }
}

/// The first unused character of a prefix is that of the whole text.
proof fn lemma_first_unused_prefix(text: Seq<char>, shorts: Seq<Seq<char>>, n: int)
    requires
        0 <= n <= text.len(),
        first_unused(text.take(n), shorts) is Some,
    ensures
        first_unused(text, shorts) == first_unused(text.take(n), shorts),
    decreases text.len() - n,
{
    if n < text.len() {
        assert(text.take(n + 1).drop_last() =~= text.take(n));
        lemma_first_unused_prefix(text, shorts, n + 1);
    } else {
        assert(text.take(n) =~= text);
    }
}

/// Whether a string of the list equals the text.
fn has_string(list: &Vec<String>, text: &str) -> (r: bool)
    ensures
        r == names_of(list@).contains(text@),
{
    let mut i: usize = 0;
    while i < list.len()
        invariant
            i <= list@.len(),
            forall|j: int| 0 <= j < i ==> list@[j]@ != text@,
        decreases list@.len() - i,
    {
        if text_eq(list[i].as_str(), text) {
            proof {
                assert(names_of(list@)[i as int] == text@);
            }
            return true;
        }
        i += 1;
    }
    proof {
        if names_of(list@).contains(text@) {
            let j = choose|j: int| 0 <= j < names_of(list@).len() && names_of(list@)[j] == text@;
            assert(list@[j]@ == text@);
        }
    }
    false
}

/// The suits that colour clues can name.
fn colourable_list(suits: &Vec<String>) -> (r: Vec<String>)
    ensures
        names_of(r@) == colourable_of(names_of(suits@)),
{
    let ghost names = names_of(suits@);
    let mut r: Vec<String> = Vec::new();
    let mut i: usize = 0;
    while i < suits.len()
        invariant
            i <= suits@.len(),
            names == names_of(suits@),
            names_of(r@) == colourable_of(names.take(i as int)),
        decreases suits@.len() - i,
    {
        let suit = &suits[i];
        let colourable = !is_match(NO_COLOUR, suit.as_str());
        let ghost prev = r@;
        if colourable {
            r.push(suit.clone());
        }
        proof {
            let p = |s: Seq<char>| !pattern_matches(NO_COLOUR@, s);
            assert(names.take(i + 1) =~= names.take(i as int).push(names[i as int]));
            names.take(i as int).lemma_filter_push(names[i as int], p);
            if colourable {
                assert(names_of(r@) =~= names_of(prev).push(names[i as int]));
            }
        }
        i += 1;
    }
    proof {
        assert(names.take(suits@.len() as int) =~= names);
    }
    r
}

/// The identities of the variant, in suit-major order, that the clue would touch.
pub open spec fn touch_possibilities_spec(clue: BaseClue, variant: Variant) -> Seq<Identity> {
    all_ids_spec(variant.suits@.len()).filter(|id: Identity| id_touched_spec(id, variant, clue))
}

/// The name of the identity's suit.
pub open spec fn suit_of(id: Identity, variant: Variant) -> Seq<char> {
    variant.suit_names()[id.suit_index as int]
}

/// The identity's rank is not the variant's special rank.
pub open spec fn ordinary_rank(id: Identity, variant: Variant) -> bool {
    variant.special_rank != Some(id.rank)
}

/// A pink-like suit (not brown-like) is touched by every rank clue, whatever the rank,
/// outside the special rank.
pub proof fn law_pink_touched_by_every_rank(id: Identity, variant: Variant, k: usize)
    requires
        pattern_matches(PINKISH@, suit_of(id, variant)),
        !pattern_matches(BROWNISH@, suit_of(id, variant)),
        ordinary_rank(id, variant),
    ensures
        id_touched_spec(id, variant, BaseClue { kind: ClueKind::RANK, value: k }),
{
}

/// A brown-like suit is touched by no rank clue.
pub proof fn law_brown_touched_by_no_rank(id: Identity, variant: Variant, k: usize)
    requires
        pattern_matches(BROWNISH@, suit_of(id, variant)),
    ensures
        !id_touched_spec(id, variant, BaseClue { kind: ClueKind::RANK, value: k }),
{
}

/// In a suit neither pink-like nor brown-like, outside the special rank, a rank clue
/// touches exactly the cards of its rank.
pub proof fn law_plain_rank_touch(id: Identity, variant: Variant, k: usize)
    requires
        !pattern_matches(PINKISH@, suit_of(id, variant)),
        !pattern_matches(BROWNISH@, suit_of(id, variant)),
        ordinary_rank(id, variant),
    ensures
        id_touched_spec(id, variant, BaseClue { kind: ClueKind::RANK, value: k }) == (id.rank == k),
{
}

/// A white-like suit is touched by no colour clue.
pub proof fn law_white_touched_by_no_colour(id: Identity, variant: Variant, c: usize)
    requires
        pattern_matches(WHITISH@, suit_of(id, variant)),
    ensures
        !id_touched_spec(id, variant, BaseClue { kind: ClueKind::COLOUR, value: c }),
{
}

/// A rainbow-like suit (not white-like) is touched by every colour clue.
pub proof fn law_rainbow_touched_by_every_colour(id: Identity, variant: Variant, c: usize)
    requires
        pattern_matches(RAINBOWISH@, suit_of(id, variant)),
        !pattern_matches(WHITISH@, suit_of(id, variant)),
    ensures
        id_touched_spec(id, variant, BaseClue { kind: ClueKind::COLOUR, value: c }),
{
}

/// In a suit that is neither white-like, rainbow-like nor prism, outside the special
/// rank, a colour clue touches exactly the cards of the suit it names.
pub proof fn law_plain_colour_touch(id: Identity, variant: Variant, c: usize)
    requires
        !pattern_matches(WHITISH@, suit_of(id, variant)),
        !pattern_matches(RAINBOWISH@, suit_of(id, variant)),
        !pattern_matches(PRISM@, suit_of(id, variant)),
        ordinary_rank(id, variant),
    ensures
        id_touched_spec(id, variant, BaseClue { kind: ClueKind::COLOUR, value: c }) == (suit_of(id, variant) == variant.colour_names()[c as int]),
{
}

/// A prism suit (neither white-like nor rainbow-like), outside the special rank, is
/// touched by the colour whose position is the rank's, counting the colours round.
pub proof fn law_prism_touch(id: Identity, variant: Variant, c: usize)
    requires
        pattern_matches(PRISM@, suit_of(id, variant)),
        !pattern_matches(WHITISH@, suit_of(id, variant)),
        !pattern_matches(RAINBOWISH@, suit_of(id, variant)),
        ordinary_rank(id, variant),
    ensures
        id_touched_spec(id, variant, BaseClue { kind: ClueKind::COLOUR, value: c })
            == ((id.rank - 1) % (variant.colour_names().len() as int) == c),
{
}

/// At a special rank that is rainbow-like, every colour clue touches the card, unless
/// its suit is white-like.
pub proof fn law_special_rainbow(id: Identity, variant: Variant, c: usize)
    requires
        variant.special_rank == Some(id.rank),
        variant.rainbow_s == Some(true),
        !pattern_matches(WHITISH@, suit_of(id, variant)),
    ensures
        id_touched_spec(id, variant, BaseClue { kind: ClueKind::COLOUR, value: c }),
{
}

/// At a special rank that is white-like (and not rainbow-like), no colour clue touches
/// the card, unless its suit is rainbow-like.
pub proof fn law_special_white(id: Identity, variant: Variant, c: usize)
    requires
        variant.special_rank == Some(id.rank),
        variant.rainbow_s != Some(true),
        variant.white_s == Some(true),
        !pattern_matches(RAINBOWISH@, suit_of(id, variant)),
    ensures
        !id_touched_spec(id, variant, BaseClue { kind: ClueKind::COLOUR, value: c }),
{
}

/// At a special rank that is pink-like, every rank clue but its own touches the card,
/// unless its suit is brown-like.
pub proof fn law_special_pink(id: Identity, variant: Variant, k: usize)
    requires
        variant.special_rank == Some(id.rank),
        variant.pink_s == Some(true),
        !pattern_matches(BROWNISH@, suit_of(id, variant)),
    ensures
        id_touched_spec(id, variant, BaseClue { kind: ClueKind::RANK, value: k }) == (k != id.rank),
{
}

/// At a special rank that is brown-like (and not pink-like), no rank clue touches the
/// card.
pub proof fn law_special_brown(id: Identity, variant: Variant, k: usize)
    requires
        variant.special_rank == Some(id.rank),
        variant.pink_s != Some(true),
        variant.brown_s == Some(true),
    ensures
        !id_touched_spec(id, variant, BaseClue { kind: ClueKind::RANK, value: k }),
{
}

/// At a special rank that is deceptive, a rank clue touches the card exactly when it
/// names the rank picked by the suit's place: the suit's position modulo 4, plus 1, or
/// plus 2 where the special rank is 1.
pub proof fn law_special_deceptive(id: Identity, variant: Variant, k: usize)
    requires
        variant.special_rank == Some(id.rank),
        variant.pink_s != Some(true),
        variant.brown_s != Some(true),
        variant.deceptive_s == Some(true),
        !pattern_matches(BROWNISH@, suit_of(id, variant)),
    ensures
        id_touched_spec(id, variant, BaseClue { kind: ClueKind::RANK, value: k })
            == ((id.suit_index % 4) + (if id.rank == 1 { 2int } else { 1int }) == k),
{
}

/// A card whose identity is unknown is touched by no clue; a known one exactly as its
/// identity is.
pub proof fn law_card_touched(id: Option<Identity>, variant: Variant, clue: BaseClue)
    ensures
        id is None ==> !card_touched_spec(id, variant, clue),
        id matches Some(x) ==> card_touched_spec(id, variant, clue) == id_touched_spec(x, variant, clue),
{
}

/// The identities a clue may touch are exactly the identities of the variant that it
/// touches, each once, in suit-major order.
pub proof fn law_touch_possibilities(clue: BaseClue, variant: Variant)
    requires
        5 * variant.suits@.len() <= usize::BITS,
    ensures
        forall|id: Identity| touch_possibilities_spec(clue, variant).contains(id) <==>
            (id.suit_index < variant.suits@.len() && 1 <= id.rank <= 5 && id_touched_spec(id, variant, clue)),
        forall|i: int, j: int| 0 <= i < j < touch_possibilities_spec(clue, variant).len() ==>
            touch_possibilities_spec(clue, variant)[i].ord() < touch_possibilities_spec(clue, variant)[j].ord(),
{
    let all = all_ids_spec(variant.suits@.len());
    let f = |id: Identity| id_touched_spec(id, variant, clue);
    let r = all.filter(f);
    assert(r == touch_possibilities_spec(clue, variant));
    assert forall|id: Identity| r.contains(id) <==> (id.suit_index < variant.suits@.len() && 1 <= id.rank <= 5 && id_touched_spec(id, variant, clue)) by {
        if r.contains(id) {
            all.lemma_filter_contains_rev(f, id);
            let k = choose|k: int| 0 <= k < all.len() && all[k] == id;
            lemma_of_ord_valid(k);
            assert(k / 5 < variant.suits@.len()) by (nonlinear_arith)
                requires 0 <= k < 5 * variant.suits@.len();
            let m = choose|m: int| 0 <= m < r.len() && r[m] == id;
            all.lemma_filter_pred(f, m);
        }
        if id.suit_index < variant.suits@.len() && 1 <= id.rank <= 5 && id_touched_spec(id, variant, clue) {
            let k = id.ord();
            assert(0 <= k < 5 * variant.suits@.len()) by (nonlinear_arith)
                requires id.suit_index < variant.suits@.len(), 1 <= id.rank <= 5, k == id.suit_index * 5 + id.rank - 1;
            crate::basics::card::lemma_ord_roundtrip(id);
            assert(all[k] == id);
            all.lemma_filter_contains(f, k);
        }
    }
    lemma_filter_increasing(all, f, variant.suits@.len());
}

proof fn lemma_filter_increasing(all: Seq<Identity>, f: spec_fn(Identity) -> bool, n: nat)
    requires
        all == all_ids_spec(n),
        5 * n <= usize::BITS,
    ensures
        forall|i: int, j: int| 0 <= i < j < all.filter(f).len() ==> all.filter(f)[i].ord() < all.filter(f)[j].ord(),
{
    assert forall|i: int| 0 <= i < all.len() implies (#[trigger] all[i]).ord() == i by {
        lemma_of_ord_valid(i);
    }
    lemma_sorted_filter(all, f);
}

/// A filter keeps a strictly increasing sequence of positions increasing.
proof fn lemma_sorted_filter(s: Seq<Identity>, f: spec_fn(Identity) -> bool)
    requires
        forall|i: int| 0 <= i < s.len() ==> (#[trigger] s[i]).ord() == i,
    ensures
        forall|i: int, j: int| 0 <= i < j < s.filter(f).len() ==> s.filter(f)[i].ord() < s.filter(f)[j].ord(),
        forall|i: int| 0 <= i < s.filter(f).len() ==> 0 <= #[trigger] s.filter(f)[i].ord() < s.len(),
    decreases s.len(),
{
    reveal(Seq::filter);
    if s.len() > 0 {
        let t = s.drop_last();
        assert forall|i: int| 0 <= i < t.len() implies (#[trigger] t[i]).ord() == i by {
            assert(t[i] == s[i]);
        }
        lemma_sorted_filter(t, f);
        let ft = t.filter(f);
        let fs = s.filter(f);
        assert(s.drop_last() == t);
        if f(s.last()) {
            assert(fs == ft.push(s.last()));
            assert(s.last().ord() == s.len() - 1);
            assert forall|i: int, j: int| 0 <= i < j < fs.len() implies fs[i].ord() < fs[j].ord() by {
                if j < ft.len() {
                    assert(fs[i] == ft[i] && fs[j] == ft[j]);
                } else {
                    assert(fs[i] == ft[i]);
                    assert(0 <= ft[i].ord() < t.len());
                }
            }
            assert forall|i: int| 0 <= i < fs.len() implies 0 <= #[trigger] fs[i].ord() < s.len() by {
                if i < ft.len() {
                    assert(fs[i] == ft[i]);
                    assert(0 <= ft[i].ord() < t.len());
                }
            }
        } else {
            assert(fs == ft);
            assert forall|i: int| 0 <= i < fs.len() implies 0 <= #[trigger] fs[i].ord() < s.len() by {
                assert(0 <= ft[i].ord() < t.len());
            }
        }
    }
}

/// Copies of each card: one in a dark suit or at the critical rank; otherwise three
/// ones, two of ranks two to four, one five.
pub proof fn law_card_count(variant: Variant, id: Identity)
    requires
        1 <= id.rank <= 5,
    ensures
        pattern_matches(DARK@, suit_of(id, variant)) || variant.critical_rank == Some(id.rank) ==> card_count_spec(variant, id) == 1,
        !pattern_matches(DARK@, suit_of(id, variant)) && variant.critical_rank != Some(id.rank) ==> {
            &&& id.rank == 1 ==> card_count_spec(variant, id) == 3
            &&& 2 <= id.rank <= 4 ==> card_count_spec(variant, id) == 2
            &&& id.rank == 5 ==> card_count_spec(variant, id) == 1
        },
{
}

} // verus!
