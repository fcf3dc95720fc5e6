use vstd::prelude::*;
use vstd::set_lib::*;
use vstd::arithmetic::power2::{pow2, lemma_pow2_unfold, lemma2_to64, lemma2_to64_rest, lemma_pow2_pos, lemma_pow2_strictly_increases};
use vstd::bits::{lemma_usize_shl_is_mul, lemma_usize_pow2_no_overflow};

use crate::basics::card::{Identity, lemma_of_ord_valid};

verus! {

/// Whether bit `i` of `v` is set.
pub open spec fn has_bit(v: usize, i: int) -> bool {
    0 <= i < usize::BITS && (v >> (i as usize)) & 1usize == 1usize
}

/// The positions of the set bits of `v`.
pub open spec fn bits_of(v: usize) -> Set<int> {
    Set::new(|i: int| has_bit(v, i))
}

/// The positions of the set bits of `v` below `n`.
pub open spec fn bits_below(v: usize, n: int) -> Set<int> {
    Set::new(|i: int| i < n && has_bit(v, i))
}

/// The positions of the set bits of `v` below `n`, in increasing order.
pub open spec fn ords_below(v: usize, n: nat) -> Seq<int>
    decreases n,
{
    if n == 0 {
        Seq::empty()
    } else {
        let rest = ords_below(v, (n - 1) as nat);
        if has_bit(v, n - 1) {
            rest.push(n - 1)
        } else {
            rest
        }
    }
}

/// The identities at the positions of the set bits of `v`, in increasing order.
pub open spec fn ids_of(v: usize) -> Seq<Identity> {
    ords_below(v, usize::BITS as nat).map_values(|o: int| Identity::of_ord(o))
}

/// The sum of the single-bit words of the identities' positions.
pub open spec fn sum_bits(ids: Seq<Identity>) -> int
    decreases ids.len(),
{
    if ids.len() == 0 {
        0
    } else {
        sum_bits(ids.drop_last()) + ((1usize << (ids.last().ord() as usize)) as int)
    }
}

proof fn lemma_bit_or(a: usize, b: usize, k: usize)
    requires
        k < usize::BITS,
    ensures
        has_bit(a | b, k as int) == (has_bit(a, k as int) || has_bit(b, k as int)),
{
    assert(((a | b) >> k) & 1usize == 1usize <==> ((a >> k) & 1usize == 1usize || (b >> k) & 1usize
        == 1usize)) by (bit_vector)
        requires
            k < usize::BITS,
    ;
}

proof fn lemma_bit_and(a: usize, b: usize, k: usize)
    requires
        k < usize::BITS,
    ensures
        has_bit(a & b, k as int) == (has_bit(a, k as int) && has_bit(b, k as int)),
{
    assert(((a & b) >> k) & 1usize == 1usize <==> ((a >> k) & 1usize == 1usize && (b >> k) & 1usize
        == 1usize)) by (bit_vector)
        requires
            k < usize::BITS,
    ;
}

proof fn lemma_bit_and_not(a: usize, b: usize, k: usize)
    requires
        k < usize::BITS,
    ensures
        has_bit(a & !b, k as int) == (has_bit(a, k as int) && !has_bit(b, k as int)),
{
    assert(((a & !b) >> k) & 1usize == 1usize <==> ((a >> k) & 1usize == 1usize && (b >> k) & 1usize
        != 1usize)) by (bit_vector)
        requires
            k < usize::BITS,
    ;
}

proof fn lemma_bit_single(j: usize, k: usize)
    requires
        j < usize::BITS,
        k < usize::BITS,
    ensures
        has_bit(1usize << j, k as int) == (j == k),
{
    assert(((1usize << j) >> k) & 1usize == 1usize <==> j == k) by (bit_vector)
        requires
            j < usize::BITS,
            k < usize::BITS,
    ;
}

proof fn lemma_bit_zero(k: usize)
    requires
        k < usize::BITS,
    ensures
        !has_bit(0usize, k as int),
{
    assert((0usize >> k) & 1usize != 1usize) by (bit_vector);
}

proof fn lemma_bit_test(a: usize, j: usize)
    requires
        j < usize::BITS,
    ensures
        ((a & (1usize << j)) != 0usize) == has_bit(a, j as int),
        ((a >> j) & 1usize == 1usize) == has_bit(a, j as int),
{
    assert((a & (1usize << j)) != 0usize <==> (a >> j) & 1usize == 1usize) by (bit_vector)
        requires
            j < usize::BITS,
    ;
}

/// Two words with the same set bits are equal.
pub proof fn lemma_bits_ext(a: usize, b: usize)
    requires
        bits_of(a) == bits_of(b),
    ensures
        a == b,
{
    assert forall|i: int| 0 <= i < usize::BITS implies has_bit(a, i) == has_bit(b, i) by {
        assert(bits_of(a).contains(i) == has_bit(a, i));
        assert(bits_of(b).contains(i) == has_bit(b, i));
        assert(bits_of(a).contains(i) == bits_of(b).contains(i));
    }
    lemma_bits_ext_rec(a, b);
}

proof fn lemma_bits_ext_rec(a: usize, b: usize)
    requires
        forall|i: int| 0 <= i < usize::BITS ==> has_bit(a, i) == has_bit(b, i),
    ensures
        a == b,
    decreases a,
{
    if a == 0 {
        lemma_zero_no_bits_rev(b);
    } else {
        assert(has_bit(a, 0) == has_bit(b, 0));
        assert(a >> 0usize == a && b >> 0usize == b) by (bit_vector);
        let a1 = a >> 1usize;
        let b1 = b >> 1usize;
        assert(a1 < a) by (bit_vector)
            requires
                a != 0usize,
                a1 == a >> 1usize,
        ;
        assert forall|i: int| 0 <= i < usize::BITS implies has_bit(a1, i) == has_bit(b1, i) by {
            let k = i as usize;
            if k + 1 < usize::BITS {
                assert(has_bit(a, i + 1) == has_bit(b, i + 1));
                assert((a1 >> k) & 1usize == (a >> ((k + 1) as usize)) & 1usize) by (bit_vector)
                    requires
                        a1 == a >> 1usize,
                        k + 1 < usize::BITS,
                ;
                assert((b1 >> k) & 1usize == (b >> ((k + 1) as usize)) & 1usize) by (bit_vector)
                    requires
                        b1 == b >> 1usize,
                        k + 1 < usize::BITS,
                ;
            } else {
                assert((a1 >> k) & 1usize == 0usize) by (bit_vector)
                    requires
                        a1 == a >> 1usize,
                        k + 1 == usize::BITS,
                ;
                assert((b1 >> k) & 1usize == 0usize) by (bit_vector)
                    requires
                        b1 == b >> 1usize,
                        k + 1 == usize::BITS,
                ;
            }
        }
        lemma_bits_ext_rec(a1, b1);
        assert(a == b) by (bit_vector)
            requires
                a >> 1usize == b >> 1usize,
                (a & 1usize == 1usize) == (b & 1usize == 1usize),
        ;
    }
}

proof fn lemma_zero_no_bits_rev(b: usize)
    requires
        forall|i: int| 0 <= i < usize::BITS ==> has_bit(0usize, i) == has_bit(b, i),
    ensures
        b == 0,
    decreases b,
{
    if b != 0 {
        assert(has_bit(0usize, 0) == has_bit(b, 0));
        lemma_bit_zero(0);
        assert(b >> 0usize == b) by (bit_vector);
        let b1 = b >> 1usize;
        assert(b1 < b) by (bit_vector)
            requires
                b != 0usize,
                b1 == b >> 1usize,
        ;
        assert forall|i: int| 0 <= i < usize::BITS implies has_bit(0usize, i) == has_bit(b1, i) by {
            let k = i as usize;
            lemma_bit_zero(k);
            if k + 1 < usize::BITS {
                assert(has_bit(0usize, i + 1) == has_bit(b, i + 1));
                lemma_bit_zero((k + 1) as usize);
                assert((b1 >> k) & 1usize == (b >> ((k + 1) as usize)) & 1usize) by (bit_vector)
                    requires
                        b1 == b >> 1usize,
                        k + 1 < usize::BITS,
                ;
            } else {
                assert((b1 >> k) & 1usize == 0usize) by (bit_vector)
                    requires
                        b1 == b >> 1usize,
                        k + 1 == usize::BITS,
                ;
            }
        }
        lemma_zero_no_bits_rev(b1);
        assert(b == 0usize) by (bit_vector)
            requires
                b >> 1usize == 0usize,
                b & 1usize != 1usize,
        ;
    }
}

proof fn lemma_bits_below_step(v: usize, n: usize)
    requires
        n < usize::BITS,
        bits_below(v, n as int).finite(),
    ensures
        bits_below(v, n + 1).finite(),
        has_bit(v, n as int) ==> bits_below(v, n + 1) == bits_below(v, n as int).insert(n as int)
            && !bits_below(v, n as int).contains(n as int),
        !has_bit(v, n as int) ==> bits_below(v, n + 1) == bits_below(v, n as int),
{
    if has_bit(v, n as int) {
        assert(bits_below(v, n + 1) =~= bits_below(v, n as int).insert(n as int));
    } else {
        assert(bits_below(v, n + 1) =~= bits_below(v, n as int));
    }
}

proof fn lemma_bits_below_zero(v: usize)
    ensures
        bits_below(v, 0) == Set::<int>::empty(),
        bits_below(v, 0).finite(),
        bits_below(v, 0).len() == 0,
{
    assert(bits_below(v, 0) =~= Set::<int>::empty());
}

/// The set bits of a word form a finite set of positions below the word size.
pub proof fn lemma_bits_finite(v: usize)
    ensures
        bits_of(v).finite(),
        bits_of(v).len() <= usize::BITS,
        forall|i: int| #[trigger] bits_of(v).contains(i) ==> 0 <= i < usize::BITS,
{
    lemma_int_range(0, usize::BITS as int);
    assert(bits_of(v).subset_of(set_int_range(0, usize::BITS as int)));
    lemma_len_subset(bits_of(v), set_int_range(0, usize::BITS as int));
}

/// The increasing sequence of set bits lists each set bit exactly once.
pub proof fn lemma_ords_below(v: usize, n: nat)
    requires
        n <= usize::BITS,
    ensures
        ords_below(v, n).no_duplicates(),
        ords_below(v, n).to_set() == bits_below(v, n as int),
        ords_below(v, n).len() == bits_below(v, n as int).len(),
        bits_below(v, n as int).finite(),
        forall|i: int, j: int|
            0 <= i < j < ords_below(v, n).len() ==> ords_below(v, n)[i] < ords_below(v, n)[j],
        forall|i: int|
            0 <= i < ords_below(v, n).len() ==> 0 <= #[trigger] ords_below(v, n)[i] < n,
    decreases n,
{
    if n == 0 {
        lemma_bits_below_zero(v);
        assert(ords_below(v, 0).to_set() =~= Set::<int>::empty());
    } else {
        let m = (n - 1) as nat;
        lemma_ords_below(v, m);
        lemma_bits_below_step(v, m as usize);
        let rest = ords_below(v, m);
        if has_bit(v, m as int) {
            rest.lemma_push_to_set_commute(m as int);
            assert(!rest.contains(m as int));
        }
    }
}

/// A set of identities, one bit of a machine word per identity position.
#[derive(Debug, Clone, Copy, PartialEq, Eq, Default, Structural)]
pub struct IdentitySet(usize);

impl View for IdentitySet {
    type V = Set<int>;

    open spec fn view(&self) -> Set<int> {
        bits_of(self.bits())
    }
}

impl IdentitySet {
    /// The word whose set bits are the positions of the identities in the set.
    pub closed spec fn bits(&self) -> usize {
        self.0
    }

    /// A set is fixed by its identities: two sets that hold the same identities are the
    /// same set.
    pub proof fn lemma_view_ext(a: IdentitySet, b: IdentitySet)
        requires
            a@ == b@,
        ensures
            a == b,
    {
        lemma_bits_ext(a.0, b.0);
    }

    pub fn empty() -> (r: Self)
        ensures
            r.bits() == 0,
            r@ == Set::<int>::empty(),
    {
        proof {
            assert forall|i: int| !bits_of(0usize).contains(i) by {
                if 0 <= i < usize::BITS {
                    lemma_bit_zero(i as usize);
                }
            }
            assert(bits_of(0usize) =~= Set::<int>::empty());
        }
        IdentitySet(0)
    }

    pub fn value(&self) -> (r: usize)
        ensures
            r == self.bits(),
    {
        self.0
    }

    pub fn len(&self) -> (r: usize)
        ensures
            r == self@.len(),
            self@.finite(),
    {
        let mut count: usize = 0;
        let mut i: usize = 0;
        proof {
            lemma_bits_below_zero(self.0);
        }
        while i < usize::BITS as usize
            invariant
                i <= usize::BITS,
                count <= i,
                bits_below(self.0, i as int).finite(),
                count == bits_below(self.0, i as int).len(),
            decreases usize::BITS - i,
        {
            proof {
                lemma_bits_below_step(self.0, i);
                lemma_bit_test(self.0, i);
            }
            if (self.0 >> i) & 1 == 1 {
                count += 1;
            }
            i += 1;
        }
        proof {
            assert(bits_below(self.0, usize::BITS as int) =~= bits_of(self.0));
        }
        count
    }

    pub fn is_empty(&self) -> (r: bool)
        ensures
            r == (self@ == Set::<int>::empty()),
    {
        proof {
            if self.0 == 0 {
                assert forall|i: int| !bits_of(0usize).contains(i) by {
                    if 0 <= i < usize::BITS {
                        lemma_bit_zero(i as usize);
                    }
                }
                assert(bits_of(0usize) =~= Set::<int>::empty());
            } else if bits_of(self.0) == Set::<int>::empty() {
                assert forall|i: int| 0 <= i < usize::BITS implies has_bit(0usize, i) == has_bit(
                    self.0,
                    i,
                ) by {
                    lemma_bit_zero(i as usize);
                    assert(!bits_of(self.0).contains(i));
                }
                lemma_zero_no_bits_rev(self.0);
            }
        }
        self.0 == 0
    }

    pub fn single(id: Identity) -> (r: Self)
        requires
            id.valid(),
        ensures
            r@ == set![id.ord()],
    {
        let k = id.to_ord();
        let v = 1usize << k;
        proof {
            assert forall|i: int| bits_of(v).contains(i) == (i == id.ord()) by {
                if 0 <= i < usize::BITS {
                    lemma_bit_single(k, i as usize);
                }
            }
            assert(bits_of(v) =~= set![id.ord()]);
        }
        IdentitySet(v)
    }

    pub fn with(&self, id: Identity) -> (r: Self)
        requires
            id.valid(),
        ensures
            r@ == self@.insert(id.ord()),
    {
        let k = id.to_ord();
        let v = self.0 | 1usize << k;
        proof {
            assert forall|i: int| bits_of(v).contains(i) == self@.insert(id.ord()).contains(i) by {
                if 0 <= i < usize::BITS {
                    lemma_bit_or(self.0, 1usize << k, i as usize);
                    lemma_bit_single(k, i as usize);
                }
            }
            assert(bits_of(v) =~= self@.insert(id.ord()));
        }
        IdentitySet(v)
    }

    pub fn concat(&self, ids: &[Identity]) -> (r: Self)
        requires
            forall|j: int| 0 <= j < ids@.len() ==> (#[trigger] ids@[j]).valid(),
        ensures
            forall|o: int|
                r@.contains(o) <==> (self@.contains(o) || exists|j: int|
                    0 <= j < ids@.len() && (#[trigger] ids@[j]).ord() == o),
    {
        let mut val = self.0;
        let mut n: usize = 0;
        while n < ids.len()
            invariant
                n <= ids@.len(),
                forall|j: int| 0 <= j < ids@.len() ==> (#[trigger] ids@[j]).valid(),
                forall|o: int|
                    bits_of(val).contains(o) <==> (self@.contains(o) || exists|j: int|
                        0 <= j < n && (#[trigger] ids@[j]).ord() == o),
            decreases ids@.len() - n,
        {
            let id = ids[n];
            let k = id.to_ord();
            let new_val = val | 1usize << k;
            proof {
                assert forall|o: int|
                    bits_of(new_val).contains(o) <==> (self@.contains(o) || exists|j: int|
                        0 <= j < n + 1 && (#[trigger] ids@[j]).ord() == o) by {
                    if 0 <= o < usize::BITS {
                        lemma_bit_or(val, 1usize << k, o as usize);
                        lemma_bit_single(k, o as usize);
                    }
                    if o == k as int {
                        assert(ids@[n as int].ord() == o);
                    }
                    if exists|j: int| 0 <= j < n + 1 && (#[trigger] ids@[j]).ord() == o {
                        let j = choose|j: int| 0 <= j < n + 1 && (#[trigger] ids@[j]).ord() == o;
                        if j < n {
                            assert(exists|j: int| 0 <= j < n && (#[trigger] ids@[j]).ord() == o);
                        }
                    }
                    if bits_of(val).contains(o) {
                        lemma_bits_finite(val);
                    }
                }
            }
            val = new_val;
            n += 1;
        }
        IdentitySet(val)
    }

    pub fn contains(&self, id: Identity) -> (r: bool)
        requires
            id.valid(),
        ensures
            r == self@.contains(id.ord()),
    {
        let k = id.to_ord();
        proof {
            lemma_bit_test(self.0, k);
        }
        (self.0 & (1usize << k)) != 0
    }


    /// The identities of the set for which `cond` holds, visited in increasing position.
    pub fn filter<F: Fn(Identity) -> bool>(&self, cond: F) -> (r: Self)
        requires
            forall|o: int| #[trigger] self@.contains(o) ==> cond.requires((Identity::of_ord(o),)),
        ensures
            r@.subset_of(self@),
            forall|o: int| #[trigger]
                self@.contains(o) ==> (r@.contains(o) ==> cond.ensures(
                    (Identity::of_ord(o),),
                    true,
                )) && (!r@.contains(o) ==> cond.ensures((Identity::of_ord(o),), false)),
    {
        assert forall|o: int| #[trigger] bits_of(self.0).contains(o) implies cond.requires((Identity::of_ord(o),)) by {
            assert(self@.contains(o));
        }
        let res = Self::keep_where(self.0, &cond);
        IdentitySet(res)
    }

    /// Removes the identities for which `cond` does not hold, visited in increasing position.
    pub fn retain<F: Fn(Identity) -> bool>(&mut self, cond: F)
        requires
            forall|o: int| #[trigger] old(self)@.contains(o) ==> cond.requires((Identity::of_ord(o),)),
        ensures
            final(self)@.subset_of(old(self)@),
            forall|o: int| #[trigger]
                old(self)@.contains(o) ==> (final(self)@.contains(o) ==> cond.ensures(
                    (Identity::of_ord(o),),
                    true,
                )) && (!final(self)@.contains(o) ==> cond.ensures((Identity::of_ord(o),), false)),
    {
        assert forall|o: int| #[trigger] bits_of(self.0).contains(o) implies cond.requires((Identity::of_ord(o),)) by {
            assert(old(self)@.contains(o));
        }
        let res = Self::keep_where(self.0, &cond);
        self.0 = res;
    }

    fn keep_where<F: Fn(Identity) -> bool>(v: usize, cond: &F) -> (res: usize)
        requires
            forall|o: int| #[trigger] bits_of(v).contains(o) ==> cond.requires((Identity::of_ord(o),)),
        ensures
            bits_of(res).subset_of(bits_of(v)),
            forall|o: int| #[trigger]
                bits_of(v).contains(o) ==> (bits_of(res).contains(o) ==> cond.ensures(
                    (Identity::of_ord(o),),
                    true,
                )) && (!bits_of(res).contains(o) ==> cond.ensures((Identity::of_ord(o),), false)),
    {
        let mut res: usize = v;
        let mut i: usize = 0;
        while i < usize::BITS as usize
            invariant
                i <= usize::BITS,
                forall|o: int| #[trigger] bits_of(v).contains(o) ==> cond.requires((Identity::of_ord(o),)),
                forall|o: int| i <= o < usize::BITS ==> #[trigger] has_bit(res, o) == has_bit(v, o),
                forall|o: int|
                    0 <= o < i ==> (#[trigger] has_bit(res, o) ==> has_bit(v, o) && cond.ensures(
                        (Identity::of_ord(o),),
                        true,
                    )) && (has_bit(v, o) && !has_bit(res, o) ==> cond.ensures(
                        (Identity::of_ord(o),),
                        false,
                    )),
            decreases usize::BITS - i,
        {
            proof {
                lemma_bit_test(v, i);
            }
            if (v >> i) & 1 == 1 {
                let id = Identity::from_ord(i);
                assert(bits_of(v).contains(i as int));
                let keep = cond(id);
                if !keep {
                    let old_res = res;
                    res = res & !(1usize << i);
                    proof {
                        assert forall|o: int| 0 <= o < usize::BITS implies #[trigger] has_bit(res, o) == (
                        has_bit(old_res, o) && o != i) by {
                            lemma_bit_and_not(old_res, 1usize << i, o as usize);
                            lemma_bit_single(i, o as usize);
                        }
                    }
                }
            }
            i += 1;
        }
        proof {
            assert(bits_of(res).subset_of(bits_of(v)));
            assert forall|o: int| #[trigger]
                bits_of(v).contains(o) implies (bits_of(res).contains(o) ==> cond.ensures(
                    (Identity::of_ord(o),),
                    true,
                )) && (!bits_of(res).contains(o) ==> cond.ensures((Identity::of_ord(o),), false)) by {
                assert(has_bit(res, o) == bits_of(res).contains(o));
            }
        }
        res
    }

    /// The identities of the set, in increasing position.
    pub fn to_vec(&self) -> (r: Vec<Identity>)
        ensures
            r@ == ids_of(self.bits()),
    {
        let mut r: Vec<Identity> = Vec::new();
        let mut i: usize = 0;
        while i < usize::BITS as usize
            invariant
                i <= usize::BITS,
                r@ == ords_below(self.0, i as nat).map_values(|o: int| Identity::of_ord(o)),
            decreases usize::BITS - i,
        {
            proof {
                lemma_bit_test(self.0, i);
            }
            let ghost prev = ords_below(self.0, i as nat);
            if (self.0 >> i) & 1 == 1 {
                r.push(Identity::from_ord(i));
                proof {
                    assert(ords_below(self.0, (i + 1) as nat) == prev.push(i as int));
                    assert(prev.push(i as int).map_values(|o: int| Identity::of_ord(o)) =~= prev.map_values(
                        |o: int| Identity::of_ord(o),
                    ).push(Identity::of_ord(i as int)));
                }
            } else {
                assert(ords_below(self.0, (i + 1) as nat) == prev);
            }
            i += 1;
        }
        r
    }

    /// An iterator over the identities of the set, in increasing position.
    pub fn iter(&self) -> (r: IdentitySetIter)
        ensures
            r@ == self@,
    {
        IdentitySetIter { bits: self.0 }
    }

    /// Collects identities by adding up their single-bit words.
    pub fn from_iter(ids: Vec<Identity>) -> (r: Self)
        requires
            forall|j: int| 0 <= j < ids@.len() ==> (#[trigger] ids@[j]).valid(),
            sum_bits(ids@) <= usize::MAX,
        ensures
            r.bits() == sum_bits(ids@),
            ids@.map_values(|id: Identity| id.ord()).no_duplicates() ==> r@ == ids@.map_values(
                |id: Identity| id.ord(),
            ).to_set(),
    {
        let mut val: usize = 0;
        let mut n: usize = 0;
        proof {
            assert(ids@.take(0) =~= Seq::<Identity>::empty());
            assert forall|i: int| !bits_of(0usize).contains(i) by {
                if 0 <= i < usize::BITS {
                    lemma_bit_zero(i as usize);
                }
            }
            assert(bits_of(0usize) =~= ids@.take(0).map_values(|id: Identity| id.ord()).to_set());
        }
        while n < ids.len()
            invariant
                n <= ids@.len(),
                forall|j: int| 0 <= j < ids@.len() ==> (#[trigger] ids@[j]).valid(),
                sum_bits(ids@) <= usize::MAX,
                val == sum_bits(ids@.take(n as int)),
                ids@.take(n as int).map_values(|id: Identity| id.ord()).no_duplicates() ==> bits_of(val)
                    == ids@.take(n as int).map_values(|id: Identity| id.ord()).to_set(),
            decreases ids@.len() - n,
        {
            let id = ids[n];
            let k = id.to_ord();
            let ghost pre = ids@.take(n as int);
            let ghost post = ids@.take(n + 1);
            proof {
                assert(post.drop_last() =~= pre);
                assert(post.last() == id);
                lemma_sum_bits_prefix(ids@, n + 1);
            }
            let bit = 1usize << k;
            let new_val = val + bit;
            proof {
                let f = |id: Identity| id.ord();
                assert(post.map_values(f) =~= pre.map_values(f).push(id.ord()));
                if post.map_values(f).no_duplicates() {
                    assert(pre.map_values(f) =~= post.map_values(f).drop_last());
                    assert(pre.map_values(f).no_duplicates());
                    assert(!pre.map_values(f).contains(id.ord())) by {
                        if pre.map_values(f).contains(id.ord()) {
                            let j = choose|j: int| 0 <= j < pre.map_values(f).len() && pre.map_values(f)[j] == id.ord();
                            assert(post.map_values(f)[j] == post.map_values(f)[n as int]);
                        }
                    }
                    assert(!pre.map_values(f).to_set().contains(id.ord()));
                    assert(!bits_of(val).contains(k as int));
                    assert(!has_bit(val, k as int));
                    assert((val & bit) == 0usize) by {
                        lemma_bit_test(val, k);
                    }
                    assert(val + bit == (val | bit)) by (bit_vector)
                        requires
                            val & bit == 0usize,
                    ;
                    assert forall|o: int| bits_of(new_val).contains(o) == pre.map_values(f).to_set().insert(
                        id.ord(),
                    ).contains(o) by {
                        if 0 <= o < usize::BITS {
                            lemma_bit_or(val, bit, o as usize);
                            lemma_bit_single(k, o as usize);
                        }
                    }
                    pre.map_values(f).lemma_push_to_set_commute(id.ord());
                    assert(bits_of(new_val) =~= post.map_values(f).to_set());
                }
            }
            val = new_val;
            n += 1;
        }
        proof {
            assert(ids@.take(ids@.len() as int) =~= ids@);
        }
        IdentitySet(val)
    }

    pub fn intersect(self, other: &Self) -> (r: Self)
        ensures
            r@ == self@.intersect(other@),
    {
        let v = self.0 & other.0;
        proof {
            assert forall|i: int| bits_of(v).contains(i) == self@.intersect(other@).contains(i) by {
                if 0 <= i < usize::BITS {
                    lemma_bit_and(self.0, other.0, i as usize);
                }
            }
            assert(bits_of(v) =~= self@.intersect(other@));
        }
        IdentitySet(v)
    }

    pub fn union(self, other: &Self) -> (r: Self)
        ensures
            r@ == self@.union(other@),
    {
        let v = self.0 | other.0;
        proof {
            assert forall|i: int| bits_of(v).contains(i) == self@.union(other@).contains(i) by {
                if 0 <= i < usize::BITS {
                    lemma_bit_or(self.0, other.0, i as usize);
                }
            }
            assert(bits_of(v) =~= self@.union(other@));
        }
        IdentitySet(v)
    }

    pub fn difference(self, other: &Self) -> (r: Self)
        ensures
            r@ == self@.difference(other@),
    {
        let v = self.0 & !other.0;
        proof {
            assert forall|i: int| bits_of(v).contains(i) == self@.difference(other@).contains(i) by {
                if 0 <= i < usize::BITS {
                    lemma_bit_and_not(self.0, other.0, i as usize);
                }
            }
            assert(bits_of(v) =~= self@.difference(other@));
        }
        IdentitySet(v)
    }
}


proof fn lemma_sum_bits_prefix(ids: Seq<Identity>, n: int)
    requires
        0 <= n <= ids.len(),
        forall|j: int| 0 <= j < ids.len() ==> (#[trigger] ids[j]).valid(),
    ensures
        sum_bits(ids.take(n)) <= sum_bits(ids),
    decreases ids.len(),
{
    if n < ids.len() {
        assert(ids.drop_last().take(n) =~= ids.take(n));
        assert forall|j: int| 0 <= j < ids.drop_last().len() implies (#[trigger] ids.drop_last()[j]).valid() by {
            assert(ids.drop_last()[j] == ids[j]);
        }
        lemma_sum_bits_prefix(ids.drop_last(), n);
        assert(ids.last() == ids[ids.len() - 1]);
        let k = ids.last().ord() as usize;
        assert((1usize << k) >= 1usize) by (bit_vector)
            requires
                k < usize::BITS,
        ;
    } else {
        assert(ids.take(n) =~= ids);
    }
}

/// An iterator over the identities of a set, in increasing position.
pub struct IdentitySetIter {
    bits: usize,
}

impl View for IdentitySetIter {
    type V = Set<int>;

    open spec fn view(&self) -> Set<int> {
        bits_of(self.remaining())
    }
}

impl IdentitySetIter {
    pub closed spec fn remaining(&self) -> usize {
        self.bits
    }

    /// Takes out the identity of lowest position, if any remains.
    pub fn next(&mut self) -> (r: Option<Identity>)
        ensures
            old(self)@ == Set::<int>::empty() ==> r is None && final(self)@ == old(self)@,
            old(self)@ != Set::<int>::empty() ==> exists|k: int|
                #![trigger old(self)@.contains(k)]
                old(self)@.contains(k) && r == Some(Identity::of_ord(k)) && final(self)@ == old(self)@.remove(k)
                    && (forall|j: int| 0 <= j < k ==> !old(self)@.contains(j)),
    {
        let v = self.bits;
        let mut i: usize = 0;
        while i < usize::BITS as usize
            invariant
                i <= usize::BITS,
                v == self.bits,
                v == old(self).bits,
                forall|j: int| 0 <= j < i ==> !has_bit(v, j),
            decreases usize::BITS - i,
        {
            proof {
                lemma_bit_test(v, i);
            }
            if (v >> i) & 1 == 1 {
                let nv = v & !(1usize << i);
                proof {
                    assert forall|o: int| bits_of(nv).contains(o) == bits_of(v).remove(i as int).contains(o) by {
                        if 0 <= o < usize::BITS {
                            lemma_bit_and_not(v, 1usize << i, o as usize);
                            lemma_bit_single(i, o as usize);
                        }
                    }
                    assert(bits_of(nv) =~= bits_of(v).remove(i as int));
                    assert(bits_of(v).contains(i as int));
                    assert(old(self)@.contains(i as int));
                    assert(old(self)@ != Set::<int>::empty());
                    assert(forall|j: int| 0 <= j < i ==> !old(self)@.contains(j));
                }
                self.bits = nv;
                return Some(Identity::from_ord(i));
            }
            i += 1;
        }
        proof {
            assert(bits_of(v) =~= Set::<int>::empty());
        }
        None
    }

    /// The number of identities that remain.
    pub fn len(&self) -> (r: usize)
        ensures
            r == self@.len(),
    {
        IdentitySet(self.bits).len()
    }
}


/// The identities at positions 0, 1, ... add up to one less than a power of two,
/// which fits a machine word.
pub proof fn lemma_sum_bits_range(ids: Seq<Identity>)
    requires
        ids.len() <= usize::BITS,
        forall|j: int| 0 <= j < ids.len() ==> (#[trigger] ids[j]).valid() && ids[j].ord() == j,
    ensures
        sum_bits(ids) == pow2(ids.len()) - 1,
        sum_bits(ids) <= usize::MAX,
    decreases ids.len(),
{
    lemma2_to64();
    lemma2_to64_rest();
    if ids.len() > 0 {
        let k = (ids.len() - 1) as nat;
        assert forall|j: int| 0 <= j < ids.drop_last().len() implies (#[trigger] ids.drop_last()[j]).valid()
            && ids.drop_last()[j].ord() == j by {
            assert(ids.drop_last()[j] == ids[j]);
        }
        lemma_sum_bits_range(ids.drop_last());
        assert(ids.last() == ids[k as int]);
        lemma_usize_pow2_no_overflow(k);
        lemma_usize_shl_is_mul(1usize, k as usize);
        lemma_pow2_unfold(ids.len());
        assert((1usize << (k as usize)) as int == pow2(k));
    }
    if ids.len() == usize::BITS {
        assert(pow2(usize::BITS as nat) - 1 == usize::MAX);
    } else {
        lemma_usize_pow2_no_overflow(ids.len());
    }
}

/// Identities at strictly increasing positions below `n` add up to less than `2^n`.
proof fn lemma_sum_bits_increasing(ids: Seq<Identity>, n: nat)
    requires
        n <= usize::BITS,
        forall|j: int| 0 <= j < ids.len() ==> 0 <= (#[trigger] ids[j]).ord() < n,
        forall|i: int, j: int| 0 <= i < j < ids.len() ==> ids[i].ord() < ids[j].ord(),
    ensures
        sum_bits(ids) <= pow2(n) - 1,
    decreases ids.len(),
{
    lemma_pow2_pos(n);
    if ids.len() > 0 {
        let m = ids.last().ord();
        let rest = ids.drop_last();
        assert forall|j: int| 0 <= j < rest.len() implies 0 <= (#[trigger] rest[j]).ord() < m as nat by {
            assert(rest[j] == ids[j]);
            assert(ids[j].ord() < ids[ids.len() - 1].ord());
        }
        assert forall|i: int, j: int| 0 <= i < j < rest.len() implies rest[i].ord() < rest[j].ord() by {
            assert(rest[i] == ids[i] && rest[j] == ids[j]);
        }
        lemma_sum_bits_increasing(rest, m as nat);
        lemma_usize_pow2_no_overflow(m as nat);
        lemma_usize_shl_is_mul(1usize, m as usize);
        assert((1usize << (m as usize)) as int == pow2(m as nat));
        lemma_pow2_unfold((m + 1) as nat);
        if m + 1 < n {
            lemma_pow2_strictly_increases((m + 1) as nat, n);
        }
    }
}

/// The identities that `to_vec` lists are those of the set, each once, in increasing
/// position: as many as the set holds, the position of every listed identity in the set
/// and every position of the set listed, strictly increasing along the list. Their
/// positions, gathered, are the set again, and their single-bit words fit a machine word,
/// so that `from_iter` of the list gives back the set.
pub proof fn lemma_to_vec_lists_the_set(s: IdentitySet)
    ensures
        ids_of(s.bits()).len() == s@.len(),
        forall|j: int| 0 <= j < ids_of(s.bits()).len() ==> s@.contains(#[trigger] ids_of(s.bits())[j].ord()),
        forall|x: int| #[trigger] s@.contains(x) ==> exists|j: int| 0 <= j < ids_of(s.bits()).len() && ids_of(s.bits())[j].ord() == x,
        forall|i: int, j: int| 0 <= i < j < ids_of(s.bits()).len() ==> ids_of(s.bits())[i].ord() < ids_of(s.bits())[j].ord(),
        forall|j: int| 0 <= j < ids_of(s.bits()).len() ==> (#[trigger] ids_of(s.bits())[j]).valid(),
        ids_of(s.bits()).map_values(|id: Identity| id.ord()).no_duplicates(),
        ids_of(s.bits()).map_values(|id: Identity| id.ord()).to_set() == s@,
        sum_bits(ids_of(s.bits())) <= usize::MAX,
{
    let v = s.bits();
    let n = usize::BITS as nat;
    let ords = ords_below(v, n);
    lemma_ords_below(v, n);
    lemma_bits_finite(v);
    assert(bits_of(v) =~= bits_below(v, n as int));
    assert forall|j: int| 0 <= j < ords.len() implies #[trigger] ids_of(v)[j].ord() == ords[j] by {
        lemma_of_ord_valid(ords[j]);
    }
    assert forall|x: int| #[trigger] s@.contains(x) implies exists|j: int| 0 <= j < ids_of(v).len() && ids_of(v)[j].ord() == x by {
        assert(ords.to_set().contains(x));
        let j = choose|j: int| 0 <= j < ords.len() && ords[j] == x;
        assert(ids_of(v)[j].ord() == x);
    }
    assert forall|j: int| 0 <= j < ids_of(v).len() implies s@.contains(#[trigger] ids_of(v)[j].ord()) by {
        assert(ords.to_set().contains(ords[j]));
    }
    assert forall|j: int| 0 <= j < ids_of(v).len() implies (#[trigger] ids_of(v)[j]).valid() by {
        lemma_of_ord_valid(ords[j]);
    }
    assert(ids_of(v).map_values(|id: Identity| id.ord()) =~= ords);
    lemma_sum_bits_increasing(ids_of(v), n);
    lemma2_to64();
    lemma2_to64_rest();
    assert(pow2(usize::BITS as nat) - 1 == usize::MAX);
}

} // verus!
