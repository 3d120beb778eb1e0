use crate::deque::PinnedDeque;
use core::cmp::Ordering;
use vstd::prelude::*;
use vstd::std_specs::cmp::{OrdSpec, PartialEqSpec, PartialOrdSpec};

verus! {

/// Sequences are equal element by element, under the element type's own
/// equality.
pub open spec fn elementwise_eq_spec<T: PartialEq>(a: Seq<T>, b: Seq<T>) -> bool {
    &&& a.len() == b.len()
    &&& forall|i: int| 0 <= i < a.len() ==> a[i].eq_spec(&#[trigger] b[i])
}

/// Lexicographic order on sequences under the element type's total order:
/// the first differing position decides, and when one sequence is a prefix of
/// the other, the shorter one is smaller.
pub open spec fn lex_cmp_spec<T: Ord>(a: Seq<T>, b: Seq<T>) -> Ordering
    decreases a.len(),
{
    if a.len() == 0 && b.len() == 0 {
        Ordering::Equal
    } else if a.len() == 0 {
        Ordering::Less
    } else if b.len() == 0 {
        Ordering::Greater
    } else if a[0].cmp_spec(&b[0]) == Ordering::Equal {
        lex_cmp_spec(a.drop_first(), b.drop_first())
    } else {
        a[0].cmp_spec(&b[0])
    }
}

/// Lexicographic comparison under the element type's partial order: the first
/// position whose elements are unordered makes the sequences unordered.
pub open spec fn lex_partial_cmp_spec<T: PartialOrd>(a: Seq<T>, b: Seq<T>) -> Option<Ordering>
    decreases a.len(),
{
    if a.len() == 0 && b.len() == 0 {
        Some(Ordering::Equal)
    } else if a.len() == 0 {
        Some(Ordering::Less)
    } else if b.len() == 0 {
        Some(Ordering::Greater)
    } else if a[0].partial_cmp_spec(&b[0]) == Some(Ordering::Equal) {
        lex_partial_cmp_spec(a.drop_first(), b.drop_first())
    } else {
        a[0].partial_cmp_spec(&b[0])
    }
}

/// Where the element equality means plain equality, element-wise equality of
/// the contents means equality of the contents as sequences.
pub proof fn lemma_elementwise_eq_is_seq_eq<T: PartialEq>(a: Seq<T>, b: Seq<T>)
    requires
        forall|x: T, y: T| #[trigger] x.eq_spec(&y) <==> x == y,
    ensures
        elementwise_eq_spec(a, b) <==> a =~= b,
{
}

impl<T: PartialEq> PinnedDeque<T> {
    /// Element-wise equality: same length and equal elements at every
    /// position, by walking both deques' cursors in lockstep.
    pub fn eq(&self, other: &Self) -> (r: bool)
        requires
            self.wf(),
            other.wf(),
        ensures
            T::obeys_eq_spec() ==> r == elementwise_eq_spec(self@, other@),
    {
        if self.len() != other.len() {
            return false;
        }
        let ghost n = self@.len();
        let mut it_a = self.iter();
        let mut it_b = other.iter();
        loop
            invariant
                it_a.wf_iter(),
                it_b.wf_iter(),
                it_a.source() == self,
                it_b.source() == other,
                self.wf(),
                other.wf(),
                self@.len() == n,
                other@.len() == n,
                it_a.pending().len() == it_b.pending().len(),
                it_a.pending().len() <= n,
                it_a.pending() =~= self@.skip(n - it_a.pending().len() as int),
                it_b.pending() =~= other@.skip(n - it_b.pending().len() as int),
                T::obeys_eq_spec() ==> forall|j: int|
                    0 <= j < n - it_a.pending().len() ==> self@[j].eq_spec(&#[trigger] other@[j]),
            decreases it_a.pending().len(),
        {
            let ghost taken = n - it_a.pending().len() as int;
            let ghost pa = it_a.pending();
            let ghost pb = it_b.pending();
            let oa = it_a.next();
            let ob = it_b.next();
            match (oa, ob) {
                (Some(a), Some(b)) => {
                    if !a.eq(b) {
                        proof {
                            if T::obeys_eq_spec() {
                                assert(self@[taken] == pa.first());
                                assert(other@[taken] == pb.first());
                            }
                        }
                        return false;
                    }
                    proof {
                        assert(self@[taken] == pa.first());
                        assert(other@[taken] == pb.first());
                        assert(pa.drop_first() =~= self@.skip(taken + 1));
                        assert(pb.drop_first() =~= other@.skip(taken + 1));
                    }
                },
                _ => {
                    return true;
                },
            }
        }
    }
}

impl<T: Ord> PinnedDeque<T> {
    /// Lexicographic comparison against another deque, by walking both deques'
    /// cursors in lockstep; length breaks the tie when one is a prefix of the
    /// other.
    pub fn cmp(&self, other: &Self) -> (r: Ordering)
        requires
            self.wf(),
            other.wf(),
        ensures
            T::obeys_cmp_spec() ==> r == lex_cmp_spec(self@, other@),
    {
        let mut it_a = self.iter();
        let mut it_b = other.iter();
        loop
            invariant
                it_a.wf_iter(),
                it_b.wf_iter(),
                it_a.source() == self,
                it_b.source() == other,
                T::obeys_cmp_spec() ==> lex_cmp_spec(self@, other@) == lex_cmp_spec(
                    it_a.pending(),
                    it_b.pending(),
                ),
            decreases it_a.pending().len() + it_b.pending().len(),
        {
            let ghost pa = it_a.pending();
            let ghost pb = it_b.pending();
            let oa = it_a.next();
            let ob = it_b.next();
            match (oa, ob) {
                (Some(a), Some(b)) => {
                    let c = a.cmp(b);
                    proof {
                        if T::obeys_cmp_spec() {
                            assert(*a == pa.first() && *b == pb.first());
                        }
                    }
                    if !matches!(c, Ordering::Equal) {
                        return c;
                    }
                },
                (Some(_), None) => {
                    return Ordering::Greater;
                },
                (None, Some(_)) => {
                    return Ordering::Less;
                },
                (None, None) => {
                    return Ordering::Equal;
                },
            }
        }
    }
}

impl<T: PartialOrd> PinnedDeque<T> {
    /// Lexicographic comparison under a partial order: `None` as soon as a
    /// pair of elements is unordered.
    pub fn partial_cmp(&self, other: &Self) -> (r: Option<Ordering>)
        requires
            self.wf(),
            other.wf(),
        ensures
            T::obeys_partial_cmp_spec() ==> r == lex_partial_cmp_spec(self@, other@),
    {
        let mut it_a = self.iter();
        let mut it_b = other.iter();
        loop
            invariant
                it_a.wf_iter(),
                it_b.wf_iter(),
                it_a.source() == self,
                it_b.source() == other,
                T::obeys_partial_cmp_spec() ==> lex_partial_cmp_spec(self@, other@)
                    == lex_partial_cmp_spec(it_a.pending(), it_b.pending()),
            decreases it_a.pending().len() + it_b.pending().len(),
        {
            let ghost pa = it_a.pending();
            let ghost pb = it_b.pending();
            let oa = it_a.next();
            let ob = it_b.next();
            match (oa, ob) {
                (Some(a), Some(b)) => {
                    let c = a.partial_cmp(b);
                    proof {
                        if T::obeys_partial_cmp_spec() {
                            assert(*a == pa.first() && *b == pb.first());
                        }
                    }
                    if !matches!(c, Some(Ordering::Equal)) {
                        return c;
                    }
                },
                (Some(_), None) => {
                    return Some(Ordering::Greater);
                },
                (None, Some(_)) => {
                    return Some(Ordering::Less);
                },
                (None, None) => {
                    return Some(Ordering::Equal);
                },
            }
        }
    }
}

} // verus!
