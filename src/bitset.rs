//! A set of small integers, stored inline in four machine words.
use vstd::prelude::*;
use vstd::set_lib::*;

verus! {

/// Number of values an [`InlineBitSet`] can hold: the members are `0..256`.
pub const CAPACITY: usize = 256;

/// Whether bit `j` of the word `w` is set.
pub open spec fn bit(w: u64, j: int) -> bool {
    (w >> (j as u64)) & 1u64 == 1u64
}

proof fn lemma_bit_or(a: u64, b: u64, j: u64)
    requires
        j < 64,
    ensures
        bit(a | b, j as int) == (bit(a, j as int) || bit(b, j as int)),
{
    assert(((a | b) >> j) & 1u64 == 1u64 <==> ((a >> j) & 1u64 == 1u64 || (b >> j) & 1u64 == 1u64))
        by (bit_vector)
        requires
            j < 64,
    ;
}

proof fn lemma_bit_and(a: u64, b: u64, j: u64)
    requires
        j < 64,
    ensures
        bit(a & b, j as int) == (bit(a, j as int) && bit(b, j as int)),
{
    assert(((a & b) >> j) & 1u64 == 1u64 <==> ((a >> j) & 1u64 == 1u64 && (b >> j) & 1u64 == 1u64))
        by (bit_vector)
        requires
            j < 64,
    ;
}

proof fn lemma_bit_and_not(a: u64, b: u64, j: u64)
    requires
        j < 64,
    ensures
        bit(a & !b, j as int) == (bit(a, j as int) && !bit(b, j as int)),
{
    assert(((a & !b) >> j) & 1u64 == 1u64 <==> ((a >> j) & 1u64 == 1u64 && (b >> j) & 1u64
        != 1u64)) by (bit_vector)
        requires
            j < 64,
    ;
}

proof fn lemma_bit_single(k: u64, j: u64)
    requires
        j < 64,
        k < 64,
    ensures
        bit(1u64 << k, j as int) == (j == k),
{
    assert(((1u64 << k) >> j) & 1u64 == 1u64 <==> j == k) by (bit_vector)
        requires
            j < 64,
            k < 64,
    ;
}

proof fn lemma_bit_test(w: u64, k: u64)
    requires
        k < 64,
    ensures
        (w & (1u64 << k) != 0) == bit(w, k as int),
{
    assert((w & (1u64 << k) != 0) <==> (w >> k) & 1u64 == 1u64) by (bit_vector)
        requires
            k < 64,
    ;
}

proof fn lemma_bit_zero(j: u64)
    requires
        j < 64,
    ensures
        !bit(0u64, j as int),
{
    assert((0u64 >> j) & 1u64 != 1u64) by (bit_vector);
}

/// A word other than zero has a set bit.
proof fn lemma_nonzero_has_bit(w: u64) -> (j: u64)
    requires
        w != 0,
    ensures
        j < 64,
        bit(w, j as int),
    decreases w,
{
    if w & 1u64 == 1u64 {
        assert(w >> 0u64 == w) by (bit_vector);
        0
    } else {
        assert(w & 1u64 != 1u64 && w != 0 ==> w / 2 != 0 && w / 2 < w) by (bit_vector);
        let k = lemma_nonzero_has_bit(w / 2);
        assert(k < 63 || w / 2 < 0x8000_0000_0000_0000u64) by (bit_vector)
            requires
                k < 64,
                ((w / 2) >> k) & 1u64 == 1u64,
        ;
        assert(w / 2 < 0x8000_0000_0000_0000u64) by (bit_vector);
        assert(k < 63) by (bit_vector)
            requires
                k < 64,
                ((w / 2) >> k) & 1u64 == 1u64,
                w / 2 < 0x8000_0000_0000_0000u64,
        ;
        assert((w >> (k + 1)) & 1u64 == ((w / 2) >> k) & 1u64) by (bit_vector)
            requires
                k < 63,
        ;
        (k + 1) as u64
    }
}

/// `a & b == a` holds exactly when every bit of `a` is a bit of `b`.
proof fn lemma_word_subset(a: u64, b: u64)
    ensures
        (a & b == a) <==> (forall|j: int| 0 <= j < 64 ==> bit(a, j) ==> bit(b, j)),
{
    if a & b == a {
        assert forall|j: int| 0 <= j < 64 && bit(a, j) implies bit(b, j) by {
            lemma_bit_and(a, b, j as u64);
        }
    } else {
        assert(a & b != a ==> a & !b != 0) by (bit_vector);
        let j = lemma_nonzero_has_bit(a & !b);
        lemma_bit_and_not(a, b, j);
    }
}

/// A word is zero exactly when none of its bits is set.
proof fn lemma_word_empty(w: u64)
    ensures
        (w == 0) <==> (forall|j: int| 0 <= j < 64 ==> !bit(w, j)),
{
    if w == 0 {
        assert forall|j: int| 0 <= j < 64 implies !bit(w, j) by {
            lemma_bit_zero(j as u64);
        }
    } else {
        let j = lemma_nonzero_has_bit(w);
    }
}

/// A set of integers in `0..256`, one bit per possible member.
#[derive(Clone, Copy, PartialEq, Eq)]
pub struct InlineBitSet {
    data: [u64; 4],
}

impl View for InlineBitSet {
    type V = Set<int>;

    open spec fn view(&self) -> Set<int> {
        Set::new(|i: int| self.has(i))
    }
}

impl InlineBitSet {
    /// Whether `i` is a member, read off the word that holds it.
    pub closed spec fn has(&self, i: int) -> bool {
        0 <= i < 256 && bit(self.data[i / 64], i % 64)
    }

    /// The members below `k`.
    pub closed spec fn members_below(&self, k: int) -> Set<int> {
        Set::new(|i: int| 0 <= i < k && self.has(i))
    }

    /// Every member lies in `0..256`, so the set is finite and holds at most
    /// 256 members.
    pub proof fn lemma_bounded(&self)
        ensures
            self@.finite(),
            self@.subset_of(set_int_range(0, 256)),
            self@.len() <= 256,
    {
        lemma_int_range(0, 256);
        lemma_len_subset(self@, set_int_range(0, 256));
    }

    pub fn empty() -> (r: Self)
        ensures
            r@ == Set::<int>::empty(),
    {
        let r = InlineBitSet { data: [0, 0, 0, 0] };
        assert forall|i: int| !r.has(i) by {
            if 0 <= i < 256 {
                lemma_bit_zero((i % 64) as u64);
            }
        }
        assert(r@ =~= Set::<int>::empty());
        r
    }

    pub fn with_only_first() -> (r: Self)
        ensures
            r@ == set![0int],
    {
        let mut out = Self::empty();
        out.insert(0);
        assert(out@ =~= set![0int]);
        out
    }

    pub fn contains(&self, query: u8) -> (r: bool)
        ensures
            r == self@.contains(query as int),
    {
        let block = self.data[(query / 64) as usize];
        proof {
            lemma_bit_test(block, (query % 64) as u64);
        }
        block & (1u64 << (query % 64)) != 0
    }

    pub fn insert(&mut self, elem: u8)
        ensures
            final(self)@ == old(self)@.insert(elem as int),
    {
        let ghost before = *self;
        let k: usize = (elem / 64) as usize;
        let w = self.data[k] | (1u64 << (elem % 64));
        self.data[k] = w;
        assert forall|i: int| #[trigger] self@.contains(i) == before@.insert(elem as int).contains(i) by {
            if 0 <= i < 256 {
                if i / 64 == k as int {
                    lemma_bit_or(before.data[k as int], 1u64 << (elem % 64), (i % 64) as u64);
                    lemma_bit_single((elem % 64) as u64, (i % 64) as u64);
                }
            }
        }
        assert(self@ =~= before@.insert(elem as int));
    }

    pub fn is_subset_of(&self, other: &Self) -> (r: bool)
        ensures
            r == self@.subset_of(other@),
    {
        let a = self.data;
        let b = other.data;
        let r = a[0] & b[0] == a[0] && a[1] & b[1] == a[1] && a[2] & b[2] == a[2] && a[3] & b[3]
            == a[3];
        proof {
            lemma_word_subset(a[0], b[0]);
            lemma_word_subset(a[1], b[1]);
            lemma_word_subset(a[2], b[2]);
            lemma_word_subset(a[3], b[3]);
            if r {
                assert forall|i: int| self@.contains(i) implies other@.contains(i) by {
                    assert(self.has(i));
                }
            } else {
                let k: int = if a[0] & b[0] != a[0] {
                    0
                } else if a[1] & b[1] != a[1] {
                    1
                } else if a[2] & b[2] != a[2] {
                    2
                } else {
                    3
                };
                let j = choose|j: int| 0 <= j < 64 && bit(a[k], j) && !bit(b[k], j);
                assert(self.has(k * 64 + j) && !other.has(k * 64 + j));
                assert(self@.contains(k * 64 + j));
            }
        }
        r
    }

    pub fn is_empty(&self) -> (r: bool)
        ensures
            r == (self@ == Set::<int>::empty()),
    {
        let a = self.data;
        let r = a[0] == 0 && a[1] == 0 && a[2] == 0 && a[3] == 0;
        proof {
            lemma_word_empty(a[0]);
            lemma_word_empty(a[1]);
            lemma_word_empty(a[2]);
            lemma_word_empty(a[3]);
            if r {
                assert(self@ =~= Set::<int>::empty());
            } else {
                let k: int = if a[0] != 0 {
                    0
                } else if a[1] != 0 {
                    1
                } else if a[2] != 0 {
                    2
                } else {
                    3
                };
                let j = choose|j: int| 0 <= j < 64 && bit(a[k], j);
                assert(self.has(k * 64 + j));
                assert(self@.contains(k * 64 + j));
            }
        }
        r
    }

    /// Number of members.
    pub fn len(&self) -> (r: usize)
        ensures
            r == self@.len(),
            r <= CAPACITY,
    {
        let mut count: usize = 0;
        let mut i: usize = 0;
        proof {
            assert(self.members_below(0) =~= Set::<int>::empty());
        }
        while i < CAPACITY
            invariant
                i <= CAPACITY,
                self.members_below(i as int).finite(),
                count == self.members_below(i as int).len(),
                count <= i,
            decreases CAPACITY - i,
        {
            let member = self.contains(i as u8);
            proof {
                let before = self.members_below(i as int);
                if member {
                    assert(self.members_below(i + 1) =~= before.insert(i as int));
                } else {
                    assert(self.members_below(i + 1) =~= before);
                }
            }
            if member {
                count = count + 1;
            }
            i = i + 1;
        }
        assert(self.members_below(256) =~= self@);
        count
    }

    /// The members in ascending order.
    pub fn members(&self) -> (r: Vec<u8>)
        ensures
            forall|k: int| 0 <= k < r.len() ==> self@.contains(#[trigger] r@[k] as int),
            forall|i: int| #[trigger] self@.contains(i) ==> exists|k: int| 0 <= k < r.len() && r@[k] == i,
            forall|k: int, l: int| 0 <= k < l < r.len() ==> r@[k] < r@[l],
    {
        let mut out: Vec<u8> = Vec::new();
        let mut i: usize = 0;
        while i < CAPACITY
            invariant
                i <= CAPACITY,
                forall|k: int| 0 <= k < out.len() ==> self@.contains(#[trigger] out@[k] as int),
                forall|k: int| 0 <= k < out.len() ==> #[trigger] out@[k] < i,
                forall|j: int| 0 <= j < i && #[trigger] self@.contains(j) ==> exists|k: int| 0 <= k < out.len() && out@[k] == j,
                forall|k: int, l: int| 0 <= k < l < out.len() ==> out@[k] < out@[l],
            decreases CAPACITY - i,
        {
            let ghost prev = out@;
            if self.contains(i as u8) {
                out.push(i as u8);
            }
            proof {
                assert forall|j: int| 0 <= j < i + 1 && #[trigger] self@.contains(j) implies exists|k: int| 0 <= k < out.len() && out@[k] == j by {
                    if j == i {
                        assert(out@[out.len() - 1] == j);
                    } else {
                        let k = choose|k: int| 0 <= k < prev.len() && prev[k] == j;
                        assert(out@[k] == j);
                    }
                }
            }
            i = i + 1;
        }
        proof {
            assert forall|j: int| #[trigger] self@.contains(j) implies exists|k: int| 0 <= k < out.len() && out@[k] == j by {
                assert(self.has(j));
            }
        }
        out
    }

    /// Number of members of both `a` and `b`.
    pub fn count_common_elements(a: &Self, b: &Self) -> (r: usize)
        ensures
            r == a@.intersect(b@).len(),
    {
        Self::intersection(a, b).len()
    }

    /// Number of members of `a` that are not members of `b`.
    pub fn count_elements_only_in_first(a: &Self, b: &Self) -> (r: usize)
        ensures
            r == a@.difference(b@).len(),
    {
        let mut d = *a;
        d.without(b);
        d.len()
    }

    pub fn union_with(&mut self, other: &Self)
        ensures
            final(self)@ == old(self)@.union(other@),
    {
        let a = self.data;
        let b = other.data;
        let ghost before = *self;
        self.data = [a[0] | b[0], a[1] | b[1], a[2] | b[2], a[3] | b[3]];
        assert forall|i: int| #[trigger] self@.contains(i) == before@.union(other@).contains(i) by {
            if 0 <= i < 256 {
                lemma_bit_or(a[i / 64], b[i / 64], (i % 64) as u64);
            }
        }
        assert(self@ =~= before@.union(other@));
    }

    pub fn intersect_with(&mut self, other: &Self)
        ensures
            final(self)@ == old(self)@.intersect(other@),
    {
        let a = self.data;
        let b = other.data;
        let ghost before = *self;
        self.data = [a[0] & b[0], a[1] & b[1], a[2] & b[2], a[3] & b[3]];
        assert forall|i: int| #[trigger] self@.contains(i) == before@.intersect(other@).contains(i) by {
            if 0 <= i < 256 {
                lemma_bit_and(a[i / 64], b[i / 64], (i % 64) as u64);
            }
        }
        assert(self@ =~= before@.intersect(other@));
    }

    /// Removes every member of `other`.
    pub fn without(&mut self, other: &Self)
        ensures
            final(self)@ == old(self)@.difference(other@),
    {
        let a = self.data;
        let b = other.data;
        let ghost before = *self;
        self.data = [a[0] & !b[0], a[1] & !b[1], a[2] & !b[2], a[3] & !b[3]];
        assert forall|i: int| #[trigger] self@.contains(i) == before@.difference(other@).contains(i) by {
            if 0 <= i < 256 {
                lemma_bit_and_not(a[i / 64], b[i / 64], (i % 64) as u64);
            }
        }
        assert(self@ =~= before@.difference(other@));
    }

    pub fn union(a: &Self, b: &Self) -> (r: Self)
        ensures
            r@ == a@.union(b@),
    {
        let mut a = *a;
        a.union_with(b);
        a
    }

    pub fn intersection(a: &Self, b: &Self) -> (r: Self)
        ensures
            r@ == a@.intersect(b@),
    {
        let mut a = *a;
        a.intersect_with(b);
        a
    }
}

/// Laws of the set operations: a union holds both operands, an intersection
/// is no larger than either operand, and removing the members of `b` leaves
/// nothing in common with `b`.
pub proof fn lemma_set_laws(a: InlineBitSet, b: InlineBitSet)
    ensures
        a@.subset_of(a@.union(b@)),
        b@.subset_of(a@.union(b@)),
        a@.intersect(b@).len() <= a@.len(),
        a@.intersect(b@).len() <= b@.len(),
        a@.difference(b@).disjoint(b@),
{
    a.lemma_bounded();
    b.lemma_bounded();
    lemma_len_intersect(a@, b@);
    lemma_len_subset(a@.intersect(b@), b@);
}

} // verus!
