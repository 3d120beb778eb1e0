use crate::chunk::Chunk;
use vstd::prelude::*;
use vstd::arithmetic::div_mod::{lemma_fundamental_div_mod, lemma_fundamental_div_mod_converse};
use vstd::seq_lib::lemma_flatten_concat;

verus! {

broadcast use vstd::prelude::Seq::<_>::group_seq_flatten;

/// The pages of `used`, each reduced to its live elements.
pub open(crate) spec fn pages_of<T>(used: Seq<Chunk<T>>) -> Seq<Seq<T>> {
    used.map(|i: int, c: Chunk<T>| c@)
}

/// All live elements of `used`, front to back.
pub open(crate) spec fn flat_of<T>(used: Seq<Chunk<T>>) -> Seq<T> {
    pages_of(used).flatten()
}

/// Every page carries a distinct ghost identity below `bound`, across both the
/// used sequence and the free pool.
pub open(crate) spec fn ids_ok<T>(used: Seq<Chunk<T>>, freed: Seq<Chunk<T>>, bound: nat) -> bool {
    &&& forall|i: int| 0 <= i < used.len() ==> (#[trigger] used[i].page_id()) < bound
    &&& forall|i: int| 0 <= i < freed.len() ==> (#[trigger] freed[i].page_id()) < bound
    &&& forall|i: int, j: int|
        0 <= i < j < used.len() ==> used[i].page_id() != used[j].page_id()
    &&& forall|i: int, j: int|
        0 <= i < j < freed.len() ==> freed[i].page_id() != freed[j].page_id()
    &&& forall|i: int, j: int|
        0 <= i < used.len() && 0 <= j < freed.len() ==> used[i].page_id() != freed[j].page_id()
}

/// Well-formedness of the container's parts.
///
/// Used pages are nonempty and share one capacity; every page but the first is
/// flush with its front edge and every page but the last is flush with its back
/// edge, so all pages between the first and the last are full. Freed pages are
/// empty. The element count equals the length of the flattened used pages.
pub open(crate) spec fn parts_inv<T>(
    size: usize,
    cap: usize,
    used: Seq<Chunk<T>>,
    freed: Seq<Chunk<T>>,
    bound: nat,
) -> bool {
    &&& cap >= 1
    &&& forall|i: int|
        0 <= i < used.len() ==> {
            &&& (#[trigger] used[i]).wf()
            &&& used[i].cap() == cap
            &&& used[i]@.len() > 0
        }
    &&& forall|i: int| 1 <= i < used.len() ==> (#[trigger] used[i]).lo() == 0
    &&& forall|i: int| 0 <= i < used.len() - 1 ==> (#[trigger] used[i]).hi() == cap
    &&& forall|i: int|
        0 <= i < freed.len() ==> {
            &&& (#[trigger] freed[i]).wf()
            &&& freed[i].cap() == cap
            &&& freed[i]@.len() == 0
        }
    &&& ids_ok(used, freed, bound)
    &&& size == flat_of(used).len()
}

/// Page `c` holds a live element in absolute slot `s` of the page with ghost
/// identity `p`.
pub open(crate) spec fn covers<T>(c: Chunk<T>, p: nat, s: nat) -> bool {
    c.page_id() == p && c.lo() <= s < c.hi()
}

/// Some page of `used` holds a live element in slot `s` of page `p`.
pub open(crate) spec fn live_in<T>(used: Seq<Chunk<T>>, p: nat, s: nat) -> bool {
    exists|i: int| 0 <= i < used.len() && covers(#[trigger] used[i], p, s)
}

/// The element held in slot `s` of page `p`.
pub open(crate) spec fn value_in<T>(used: Seq<Chunk<T>>, p: nat, s: nat) -> T {
    let i = choose|i: int| 0 <= i < used.len() && covers(#[trigger] used[i], p, s);
    used[i].elems@[s as int]->0
}

/// Page `j` of `b` holds everything that page `c` holds, in the same slots.
pub open(crate) spec fn covered_by<T>(c: Chunk<T>, b: Seq<Chunk<T>>, j: int) -> bool {
    &&& 0 <= j < b.len()
    &&& b[j].page_id() == c.page_id()
    &&& b[j].lo() <= c.lo()
    &&& c.hi() <= b[j].hi()
    &&& forall|s: int| c.lo() <= s < c.hi() ==> b[j].elems@[s] == c.elems@[s]
}

/// Pairwise distinct page identities.
pub open(crate) spec fn distinct_ids<T>(used: Seq<Chunk<T>>) -> bool {
    forall|i: int, j: int| 0 <= i < j < used.len() ==> used[i].page_id() != used[j].page_id()
}

/// Under distinct identities, at most one page covers a slot.
pub(crate) proof fn lemma_cover_unique<T>(used: Seq<Chunk<T>>, p: nat, s: nat, i: int, j: int)
    requires
        distinct_ids(used),
        0 <= i < used.len(),
        0 <= j < used.len(),
        covers(used[i], p, s),
        covers(used[j], p, s),
    ensures
        i == j,
{
    if i < j {
        assert(used[i].page_id() != used[j].page_id());
    }
    if j < i {
        assert(used[j].page_id() != used[i].page_id());
    }
}

/// When every page `i` of `a` is covered by page `wit(i)` of `b`, every slot
/// live in `a` is live in `b` and holds the same element there.
pub(crate) proof fn lemma_pin_preserved<T>(a: Seq<Chunk<T>>, b: Seq<Chunk<T>>, wit: spec_fn(int) -> int)
    requires
        distinct_ids(a),
        distinct_ids(b),
        forall|i: int| 0 <= i < a.len() ==> covered_by(#[trigger] a[i], b, wit(i)),
    ensures
        forall|p: nat, s: nat| #[trigger] live_in(a, p, s) ==> live_in(b, p, s) && value_in(
            b,
            p,
            s,
        ) == value_in(a, p, s),
{
    assert forall|p: nat, s: nat| #[trigger] live_in(a, p, s) implies live_in(b, p, s)
        && value_in(b, p, s) == value_in(a, p, s) by {
        let i = choose|i: int| 0 <= i < a.len() && covers(#[trigger] a[i], p, s);
        let j = wit(i);
        assert(covered_by(a[i], b, j));
        assert(covers(b[j], p, s));
        assert(live_in(b, p, s));
        let i2 = choose|i2: int| 0 <= i2 < a.len() && covers(#[trigger] a[i2], p, s);
        lemma_cover_unique(a, p, s, i, i2);
        let j2 = choose|j2: int| 0 <= j2 < b.len() && covers(#[trigger] b[j2], p, s);
        lemma_cover_unique(b, p, s, j, j2);
        assert(b[j].elems@[s as int] == a[i].elems@[s as int]);
    }
}

/// After a push: every slot live in `a` keeps its element in `b`, and slot
/// `s0` of page `k` of `b` is a slot that was vacant in `a` and now holds the
/// pushed element.
pub(crate) proof fn lemma_pin_push<T>(
    a: Seq<Chunk<T>>,
    b: Seq<Chunk<T>>,
    wit: spec_fn(int) -> int,
    k: int,
    s0: nat,
    elem: T,
)
    requires
        distinct_ids(a),
        distinct_ids(b),
        forall|i: int| 0 <= i < a.len() ==> covered_by(#[trigger] a[i], b, wit(i)),
        0 <= k < b.len(),
        covers(b[k], b[k].page_id(), s0),
        b[k].elems@[s0 as int] == Some(elem),
        forall|i: int| 0 <= i < a.len() ==> !covers(#[trigger] a[i], b[k].page_id(), s0),
    ensures
        forall|p: nat, s: nat| #[trigger] live_in(a, p, s) ==> live_in(b, p, s) && value_in(
            b,
            p,
            s,
        ) == value_in(a, p, s),
        exists|p: nat, s: nat|
            !live_in(a, p, s) && #[trigger] live_in(b, p, s) && value_in(b, p, s) == elem,
{
    lemma_pin_preserved(a, b, wit);
    let p = b[k].page_id();
    assert(live_in(b, p, s0));
    assert(!live_in(a, p, s0));
    let j2 = choose|j2: int| 0 <= j2 < b.len() && covers(#[trigger] b[j2], p, s0);
    lemma_cover_unique(b, p, s0, j2, k);
    assert(value_in(b, p, s0) == elem);
}

/// Replacing page `k` by one with the same identity and window leaves the set
/// of live slots unchanged, whatever the new page holds.
pub(crate) proof fn lemma_live_update_all<T>(used: Seq<Chunk<T>>, k: int)
    requires
        0 <= k < used.len(),
    ensures
        forall|c2: Chunk<T>, p: nat, s: nat|
            (c2.page_id() == used[k].page_id() && c2.lo() == used[k].lo() && c2.hi()
                == used[k].hi()) ==> (#[trigger] live_in(used.update(k, c2), p, s) <==> live_in(
                used,
                p,
                s,
            )),
{
    assert forall|c2: Chunk<T>, p: nat, s: nat|
        (c2.page_id() == used[k].page_id() && c2.lo() == used[k].lo() && c2.hi()
            == used[k].hi()) implies (#[trigger] live_in(used.update(k, c2), p, s) <==> live_in(
        used,
        p,
        s,
    )) by {
        let un = used.update(k, c2);
        if live_in(un, p, s) {
            let i = choose|i: int| 0 <= i < un.len() && covers(#[trigger] un[i], p, s);
            assert(covers(used[i], p, s));
            assert(live_in(used, p, s));
        }
        if live_in(used, p, s) {
            let i = choose|i: int| 0 <= i < used.len() && covers(#[trigger] used[i], p, s);
            assert(covers(un[i], p, s));
            assert(live_in(un, p, s));
        }
    }
}

/// A double-ended queue of independently allocated, fixed-capacity pages.
///
/// Elements are written into vacant slots at the edges of the terminal pages
/// and never move afterwards: a push or pop at one end leaves every other live
/// element in its slot. Vacated pages are kept in a free pool and reused.
#[derive(Clone)]
pub struct PinnedDeque<T> {
    pub(crate) size: usize,
    pub(crate) cap_per_chunk: usize,
    pub(crate) used: Vec<Chunk<T>>,
    pub(crate) freed: Vec<Chunk<T>>,
    pub(crate) next_id: Ghost<nat>,
}

impl<T> PinnedDeque<T> {
    /// The live pages, each as its sequence of elements, front to back.
    pub open(crate) spec fn pages(&self) -> Seq<Seq<T>> {
        pages_of(self.used@)
    }

    /// The abstract contents: all elements in logical order.
    pub open(crate) spec fn view(&self) -> Seq<T> {
        self.pages().flatten()
    }

    /// The fixed per-page capacity.
    pub open(crate) spec fn chunk_cap(&self) -> nat {
        self.cap_per_chunk as nat
    }

    /// Number of pages waiting in the free pool.
    pub open(crate) spec fn free_pages(&self) -> nat {
        self.freed@.len()
    }

    /// Well-formedness: constructors establish it, every method preserves it.
    pub open(crate) spec fn wf(&self) -> bool {
        parts_inv(self.size, self.cap_per_chunk, self.used@, self.freed@, self.next_id@)
    }

    /// A live element occupies absolute slot `s` of the page with ghost
    /// identity `p`. The pair stands for the element's address: the contracts
    /// of the mutating operations state that it never changes while the
    /// element stays in the deque.
    pub open(crate) spec fn live_at(&self, p: nat, s: nat) -> bool {
        live_in(self.used@, p, s)
    }

    /// The element held in slot `s` of the page with ghost identity `p`.
    pub open(crate) spec fn value_at(&self, p: nat, s: nat) -> T {
        value_in(self.used@, p, s)
    }

    /// An empty deque with the given per-page capacity, no pages allocated.
    fn empty_with_cap(cap: usize) -> (d: Self)
        requires
            cap >= 1,
        ensures
            d.wf(),
            d@ =~= Seq::<T>::empty(),
            d.chunk_cap() == cap,
            d.free_pages() == 0,
    {
        let d = PinnedDeque {
            size: 0,
            cap_per_chunk: cap,
            used: Vec::new(),
            freed: Vec::new(),
            next_id: Ghost(0),
        };
        proof {
            assert(d.pages() =~= Seq::<Seq<T>>::empty());
        }
        d
    }

    /// Creates an empty deque whose per-page capacity is chosen so that one
    /// page roughly fills one memory page of the host.
    ///
    /// When a single element (plus the page header) does not fit into one
    /// memory page, each page holds a single element instead.
    pub fn new() -> (d: Self)
        ensures
            d.wf(),
            d@ =~= Seq::<T>::empty(),
            d.chunk_cap() >= 1,
            d.free_pages() == 0,
    {
        let cap = suggested_capacity_per_chunk::<T>();
        Self::empty_with_cap(cap)
    }

    /// Creates an empty deque with the given per-page capacity.
    pub fn with_capacity_per_chunk(cap_per_chunk: u32) -> (d: Self)
        requires
            cap_per_chunk >= 1,
        ensures
            d.wf(),
            d@ =~= Seq::<T>::empty(),
            d.chunk_cap() == cap_per_chunk,
            d.free_pages() == 0,
    {
        Self::empty_with_cap(cap_per_chunk as usize)
    }

    /// Number of elements.
    pub fn len(&self) -> (r: usize)
        requires
            self.wf(),
        ensures
            r == self@.len(),
    {
        self.size
    }

    /// Whether the deque holds no element.
    pub fn is_empty(&self) -> (r: bool)
        requires
            self.wf(),
        ensures
            r == (self@.len() == 0),
    {
        self.len() == 0
    }

    /// Appends `elem` at the back, writing into the back page when it has room
    /// on its back side and opening a fresh page otherwise.
    #[verifier::rlimit(100)]
    pub fn push_back(&mut self, elem: T)
        requires
            old(self).wf(),
            old(self)@.len() < usize::MAX,
        ensures
            final(self).wf(),
            final(self)@ =~= old(self)@.push(elem),
            final(self).chunk_cap() == old(self).chunk_cap(),
            forall|p: nat, s: nat| #[trigger] old(self).live_at(p, s) ==> {
                &&& final(self).live_at(p, s)
                &&& final(self).value_at(p, s) == old(self).value_at(p, s)
            },
            exists|p: nat, s: nat| {
                &&& !old(self).live_at(p, s)
                &&& #[trigger] final(self).live_at(p, s)
                &&& final(self).value_at(p, s) == elem
            },
    {
        let ghost used0 = self.used@;
        let mut took: Option<T> = Some(elem);
        if self.used.len() > 0 {
            let mut back = self.used.pop().unwrap();
            took = back.reserve_back(took.unwrap());
            self.used.push(back);
        }
        match took {
            None => {
                proof {
                    let shared = pages_of(used0).drop_last();
                    assert(shared =~= pages_of(self.used@).drop_last());
                    assert(pages_of(self.used@) =~= shared.push(self.used@.last()@));
                    assert(pages_of(used0) =~= shared.push(used0.last()@));
                    assert(shared.push(self.used@.last()@).flatten() =~= shared.flatten()
                        + self.used@.last()@);
                    assert(shared.push(used0.last()@).flatten() =~= shared.flatten()
                        + used0.last()@);
                    assert(self.used@.last()@ =~= used0.last()@.push(elem));
                    assert(flat_of(self.used@) =~= flat_of(used0).push(elem));
                    let un = self.used@;
                    let lastp = used0.len() - 1;
                    assert(distinct_ids(used0));
                    assert forall|x: int, y: int| 0 <= x < y < un.len() implies un[x].page_id()
                        != un[y].page_id() by {
                        assert(un[x].page_id() == used0[x].page_id());
                        assert(un[y].page_id() == used0[y].page_id());
                    }
                    assert forall|i: int| 0 <= i < used0.len() implies covered_by(
                        #[trigger] used0[i],
                        un,
                        i,
                    ) by {
                        assert(un[i].page_id() == used0[i].page_id());
                    }
                    assert forall|i: int| 0 <= i < used0.len() implies !covers(
                        #[trigger] used0[i],
                        un[lastp].page_id(),
                        used0.last().hi() as nat,
                    ) by {
                        if i < lastp {
                            assert(used0[i].page_id() != used0[lastp].page_id());
                        }
                    }
                    lemma_pin_push(used0, un, |i: int| i, lastp, used0.last().hi() as nat, elem);
                }
            },
            Some(e) => {
                let (c, b2) = fetch_a_freed_chunk(
                    &mut self.freed,
                    self.cap_per_chunk,
                    self.next_id,
                );
                self.next_id = b2;
                let mut c = c;
                c.reset_for_back_insertion();
                let r = c.reserve_back(e);
                proof {
                    assert(r is None);
                }
                self.used.push(c);
                proof {
                    assert(e == elem);
                    assert(pages_of(self.used@) =~= pages_of(used0).push(c@));
                    assert(pages_of(used0).push(c@).flatten() =~= pages_of(used0).flatten()
                        + c@);
                    assert(c@ =~= seq![elem]);
                    assert(flat_of(self.used@) =~= flat_of(used0).push(elem));
                    let un = self.used@;
                    assert(distinct_ids(used0));
                    assert forall|x: int| 0 <= x < used0.len() implies used0[x].page_id()
                        != c.page_id() by {
                        if old(self).freed@.len() > 0 {
                            assert(c.page_id() == old(self).freed@.last().page_id());
                        }
                    }
                    assert forall|x: int, y: int| 0 <= x < y < un.len() implies un[x].page_id()
                        != un[y].page_id() by {
                        assert(un[x].page_id() == used0[x].page_id());
                        if y < used0.len() {
                            assert(un[y].page_id() == used0[y].page_id());
                        } else {
                            assert(un[y].page_id() == c.page_id());
                        }
                    }
                    assert forall|i: int| 0 <= i < used0.len() implies covered_by(
                        #[trigger] used0[i],
                        un,
                        i,
                    ) by {
                        assert(un[i] == used0[i]);
                    }
                    assert forall|i: int| 0 <= i < used0.len() implies !covers(
                        #[trigger] used0[i],
                        un[used0.len() as int].page_id(),
                        0,
                    ) by {
                        assert(un[used0.len() as int].page_id() == c.page_id());
                    }
                    lemma_pin_push(used0, un, |i: int| i, used0.len() as int, 0, elem);
                }
            },
        }
        self.size = self.size + 1;
        proof {
            assert forall|p: nat, s: nat| #[trigger] old(self).live_at(p, s) implies {
                &&& self.live_at(p, s)
                &&& self.value_at(p, s) == old(self).value_at(p, s)
            } by {
                assert(live_in(used0, p, s));
            }
            let (p0, s0) = choose|p0: nat, s0: nat|
                !live_in(used0, p0, s0) && #[trigger] live_in(self.used@, p0, s0) && value_in(
                    self.used@,
                    p0,
                    s0,
                ) == elem;
            assert(self.live_at(p0, s0) && self.value_at(p0, s0) == elem && !old(self).live_at(
                p0,
                s0,
            ));
        }
    }

    /// Prepends `elem` at the front, writing into the front page when it has
    /// room on its front side and opening a fresh page otherwise.
    #[verifier::rlimit(100)]
    pub fn push_front(&mut self, elem: T)
        requires
            old(self).wf(),
            old(self)@.len() < usize::MAX,
        ensures
            final(self).wf(),
            final(self)@ =~= seq![elem] + old(self)@,
            final(self).chunk_cap() == old(self).chunk_cap(),
            forall|p: nat, s: nat| #[trigger] old(self).live_at(p, s) ==> {
                &&& final(self).live_at(p, s)
                &&& final(self).value_at(p, s) == old(self).value_at(p, s)
            },
            exists|p: nat, s: nat| {
                &&& !old(self).live_at(p, s)
                &&& #[trigger] final(self).live_at(p, s)
                &&& final(self).value_at(p, s) == elem
            },
    {
        let ghost used0 = self.used@;
        let mut took: Option<T> = Some(elem);
        if self.used.len() > 0 {
            let mut front = self.used.remove(0);
            took = front.reserve_front(took.unwrap());
            self.used.insert(0, front);
        }
        match took {
            None => {
                proof {
                    let shared = pages_of(used0).drop_first();
                    assert(shared =~= pages_of(self.used@).drop_first());
                    assert(pages_of(self.used@) =~= seq![self.used@[0]@] + shared);
                    assert(pages_of(used0) =~= seq![used0[0]@] + shared);
                    lemma_flatten_concat(seq![self.used@[0]@], shared);
                    lemma_flatten_concat(seq![used0[0]@], shared);
                    seq![self.used@[0]@].lemma_flatten_one_element();
                    seq![used0[0]@].lemma_flatten_one_element();
                    assert(self.used@[0]@ =~= seq![elem] + used0[0]@);
                    assert(flat_of(self.used@) =~= seq![elem] + flat_of(used0));
                    let un = self.used@;
                    let s0 = (used0[0].lo() - 1) as nat;
                    assert(distinct_ids(used0));
                    assert forall|x: int, y: int| 0 <= x < y < un.len() implies un[x].page_id()
                        != un[y].page_id() by {
                        assert(un[x].page_id() == used0[x].page_id());
                        assert(un[y].page_id() == used0[y].page_id());
                    }
                    assert forall|i: int| 0 <= i < used0.len() implies covered_by(
                        #[trigger] used0[i],
                        un,
                        i,
                    ) by {
                        assert(un[i].page_id() == used0[i].page_id());
                    }
                    assert forall|i: int| 0 <= i < used0.len() implies !covers(
                        #[trigger] used0[i],
                        un[0].page_id(),
                        s0,
                    ) by {
                        if i > 0 {
                            assert(used0[0].page_id() != used0[i].page_id());
                        }
                    }
                    lemma_pin_push(used0, un, |i: int| i, 0, s0, elem);
                }
            },
            Some(e) => {
                let (c, b2) = fetch_a_freed_chunk(
                    &mut self.freed,
                    self.cap_per_chunk,
                    self.next_id,
                );
                self.next_id = b2;
                let mut c = c;
                c.reset_for_front_insertion();
                let r = c.reserve_front(e);
                proof {
                    assert(r is None);
                }
                self.used.insert(0, c);
                proof {
                    assert(e == elem);
                    assert(pages_of(self.used@) =~= seq![c@] + pages_of(used0));
                    lemma_flatten_concat(seq![c@], pages_of(used0));
                    seq![c@].lemma_flatten_one_element();
                    assert(c@ =~= seq![elem]);
                    assert(flat_of(self.used@) =~= seq![elem] + flat_of(used0));
                    let un = self.used@;
                    let s0 = c.lo() as nat;
                    assert(distinct_ids(used0));
                    assert forall|x: int| 0 <= x < used0.len() implies used0[x].page_id()
                        != c.page_id() by {
                        if old(self).freed@.len() > 0 {
                            assert(c.page_id() == old(self).freed@.last().page_id());
                        }
                    }
                    assert forall|x: int, y: int| 0 <= x < y < un.len() implies un[x].page_id()
                        != un[y].page_id() by {
                        assert(un[y].page_id() == used0[y - 1].page_id());
                        if x > 0 {
                            assert(un[x].page_id() == used0[x - 1].page_id());
                        } else {
                            assert(un[0].page_id() == c.page_id());
                        }
                    }
                    assert forall|i: int| 0 <= i < used0.len() implies covered_by(
                        #[trigger] used0[i],
                        un,
                        i + 1,
                    ) by {
                        assert(un[i + 1] == used0[i]);
                    }
                    assert forall|i: int| 0 <= i < used0.len() implies !covers(
                        #[trigger] used0[i],
                        un[0].page_id(),
                        s0,
                    ) by {
                        assert(un[0].page_id() == c.page_id());
                    }
                    lemma_pin_push(used0, un, |i: int| i + 1, 0, s0, elem);
                }
            },
        }
        self.size = self.size + 1;
        proof {
            assert forall|p: nat, s: nat| #[trigger] old(self).live_at(p, s) implies {
                &&& self.live_at(p, s)
                &&& self.value_at(p, s) == old(self).value_at(p, s)
            } by {
                assert(live_in(used0, p, s));
            }
            let (p0, s0) = choose|p0: nat, s0: nat|
                !live_in(used0, p0, s0) && #[trigger] live_in(self.used@, p0, s0) && value_in(
                    self.used@,
                    p0,
                    s0,
                ) == elem;
            assert(self.live_at(p0, s0) && self.value_at(p0, s0) == elem && !old(self).live_at(
                p0,
                s0,
            ));
        }
    }

    /// Removes and returns the back element; `None` on an empty deque. A page
    /// emptied by the pop moves to the free pool.
    #[verifier::rlimit(100)]
    pub fn pop_back(&mut self) -> (r: Option<T>)
        requires
            old(self).wf(),
        ensures
            final(self).wf(),
            old(self)@.len() == 0 ==> r is None && final(self)@ =~= old(self)@,
            old(self)@.len() > 0 ==> {
                &&& r == Some(old(self)@.last())
                &&& final(self)@ =~= old(self)@.drop_last()
            },
            final(self).chunk_cap() == old(self).chunk_cap(),
            forall|p: nat, s: nat| #[trigger] final(self).live_at(p, s) ==> {
                &&& old(self).live_at(p, s)
                &&& final(self).value_at(p, s) == old(self).value_at(p, s)
            },
            final(self).free_pages() >= old(self).free_pages(),
    {
        if self.used.len() == 0 {
            proof {
                assert(self.pages() =~= Seq::<Seq<T>>::empty());
            }
            return None;
        }
        let ghost used0 = self.used@;
        proof {
            lemma_flatten_index(pages_of(used0), used0.len() - 1, used0.last()@.len() - 1);
            lemma_flatten_len(pages_of(used0));
        }

        let mut back = self.used.pop().unwrap();
        let v = back.pop_back();
        proof {
            let shared = pages_of(used0).drop_last();
            assert(shared.push(used0.last()@).flatten() =~= shared.flatten() + used0.last()@);
            assert(pages_of(used0) =~= shared.push(used0.last()@));
            assert(flat_of(used0).last() == used0.last()@.last());
        }
        if back.len() == 0 {
            recycle(&mut self.freed, back);
            proof {
                let shared = pages_of(used0).drop_last();
                assert(shared =~= pages_of(self.used@));
                assert(flat_of(self.used@) =~= flat_of(used0).drop_last());
                let un = self.used@;
                assert(distinct_ids(used0));
                assert forall|x: int, y: int| 0 <= x < y < un.len() implies un[x].page_id()
                    != un[y].page_id() by {
                    assert(un[x] == used0[x]);
                    assert(un[y] == used0[y]);
                }
                assert forall|i: int| 0 <= i < un.len() implies covered_by(
                    #[trigger] un[i],
                    used0,
                    i,
                ) by {
                    assert(un[i] == used0[i]);
                }
                lemma_pin_preserved(un, used0, |i: int| i);
            }
        } else {
            self.used.push(back);
            proof {
                let shared = pages_of(used0).drop_last();
                assert(shared =~= pages_of(self.used@).drop_last());
                assert(pages_of(self.used@) =~= shared.push(self.used@.last()@));
                assert(shared.push(self.used@.last()@).flatten() =~= shared.flatten()
                    + self.used@.last()@);
                assert(self.used@.last()@ =~= used0.last()@.drop_last());
                assert(flat_of(self.used@) =~= flat_of(used0).drop_last());
                let un = self.used@;
                assert(distinct_ids(used0));
                assert forall|x: int, y: int| 0 <= x < y < un.len() implies un[x].page_id()
                    != un[y].page_id() by {
                    assert(un[x].page_id() == used0[x].page_id());
                    assert(un[y].page_id() == used0[y].page_id());
                }
                assert forall|i: int| 0 <= i < un.len() implies covered_by(
                    #[trigger] un[i],
                    used0,
                    i,
                ) by {
                    assert(un[i].page_id() == used0[i].page_id());
                }
                lemma_pin_preserved(un, used0, |i: int| i);
            }
        }
        self.size = self.size - 1;
        proof {
            assert forall|p: nat, s: nat| #[trigger] self.live_at(p, s) implies {
                &&& old(self).live_at(p, s)
                &&& self.value_at(p, s) == old(self).value_at(p, s)
            } by {
                assert(live_in(self.used@, p, s));
            }
        }
        Some(v)
    }

    /// Removes and returns the front element; `None` on an empty deque. A page
    /// emptied by the pop moves to the free pool.
    #[verifier::rlimit(100)]
    pub fn pop_front(&mut self) -> (r: Option<T>)
        requires
            old(self).wf(),
        ensures
            final(self).wf(),
            old(self)@.len() == 0 ==> r is None && final(self)@ =~= old(self)@,
            old(self)@.len() > 0 ==> {
                &&& r == Some(old(self)@[0])
                &&& final(self)@ =~= old(self)@.subrange(1, old(self)@.len() as int)
            },
            final(self).chunk_cap() == old(self).chunk_cap(),
            forall|p: nat, s: nat| #[trigger] final(self).live_at(p, s) ==> {
                &&& old(self).live_at(p, s)
                &&& final(self).value_at(p, s) == old(self).value_at(p, s)
            },
            final(self).free_pages() >= old(self).free_pages(),
    {
        if self.used.len() == 0 {
            proof {
                assert(self.pages() =~= Seq::<Seq<T>>::empty());
            }
            return None;
        }
        let ghost used0 = self.used@;
        proof {
            lemma_flatten_index(pages_of(used0), 0, 0);
            lemma_flatten_len(pages_of(used0));
            assert(pages_of(used0).flatten() == pages_of(used0).first() + pages_of(
                used0,
            ).drop_first().flatten());
        }

        let mut front = self.used.remove(0);
        let v = front.pop_front();
        if front.len() == 0 {
            recycle(&mut self.freed, front);
            proof {
                assert(pages_of(self.used@) =~= pages_of(used0).drop_first());
                assert(flat_of(self.used@) =~= flat_of(used0).subrange(
                    1,
                    flat_of(used0).len() as int,
                ));
                let un = self.used@;
                assert(distinct_ids(used0));
                assert forall|x: int, y: int| 0 <= x < y < un.len() implies un[x].page_id()
                    != un[y].page_id() by {
                    assert(un[x] == used0[x + 1]);
                    assert(un[y] == used0[y + 1]);
                }
                assert forall|i: int| 0 <= i < un.len() implies covered_by(
                    #[trigger] un[i],
                    used0,
                    i + 1,
                ) by {
                    assert(un[i] == used0[i + 1]);
                }
                lemma_pin_preserved(un, used0, |i: int| i + 1);
            }
        } else {
            self.used.insert(0, front);
            proof {
                let shared = pages_of(used0).drop_first();
                assert(shared =~= pages_of(self.used@).drop_first());
                assert(pages_of(self.used@) =~= seq![self.used@[0]@] + shared);
                lemma_flatten_concat(seq![self.used@[0]@], shared);
                seq![self.used@[0]@].lemma_flatten_one_element();
                assert(self.used@[0]@ =~= used0[0]@.subrange(1, used0[0]@.len() as int));
                assert(flat_of(self.used@) =~= flat_of(used0).subrange(
                    1,
                    flat_of(used0).len() as int,
                ));
                let un = self.used@;
                assert(distinct_ids(used0));
                assert forall|x: int, y: int| 0 <= x < y < un.len() implies un[x].page_id()
                    != un[y].page_id() by {
                    assert(un[x].page_id() == used0[x].page_id());
                    assert(un[y].page_id() == used0[y].page_id());
                }
                assert forall|i: int| 0 <= i < un.len() implies covered_by(
                    #[trigger] un[i],
                    used0,
                    i,
                ) by {
                    assert(un[i].page_id() == used0[i].page_id());
                }
                lemma_pin_preserved(un, used0, |i: int| i);
            }
        }
        self.size = self.size - 1;
        proof {
            assert forall|p: nat, s: nat| #[trigger] self.live_at(p, s) implies {
                &&& old(self).live_at(p, s)
                &&& self.value_at(p, s) == old(self).value_at(p, s)
            } by {
                assert(live_in(self.used@, p, s));
            }
        }
        Some(v)
    }

    /// The back element, without removing it; `None` on an empty deque.
    pub fn back(&self) -> (r: Option<&T>)
        requires
            self.wf(),
        ensures
            self@.len() == 0 ==> r is None,
            self@.len() > 0 ==> r is Some && *r.unwrap() == self@.last(),
    {
        if self.used.len() == 0 {
            proof {
                assert(self.pages() =~= Seq::<Seq<T>>::empty());
            }
            None
        } else {
            let c = &self.used[self.used.len() - 1];
            proof {
                lemma_flatten_index(self.pages(), self.used@.len() - 1, c@.len() - 1);
                lemma_flatten_len(self.pages());
            }
            Some(c.back())
        }
    }

    /// The front element, without removing it; `None` on an empty deque.
    pub fn front(&self) -> (r: Option<&T>)
        requires
            self.wf(),
        ensures
            self@.len() == 0 ==> r is None,
            self@.len() > 0 ==> r is Some && *r.unwrap() == self@[0],
    {
        if self.used.len() == 0 {
            proof {
                assert(self.pages() =~= Seq::<Seq<T>>::empty());
            }
            None
        } else {
            let c = &self.used[0];
            proof {
                lemma_flatten_index(self.pages(), 0, 0);
                lemma_flatten_len(self.pages());
            }
            Some(c.front())
        }
    }

    /// Destroys every element, front to back, returning all pages to the free
    /// pool.
    pub fn clear(&mut self)
        requires
            old(self).wf(),
        ensures
            final(self).wf(),
            final(self)@ =~= Seq::<T>::empty(),
            final(self).chunk_cap() == old(self).chunk_cap(),
            forall|p: nat, s: nat| !(#[trigger] final(self).live_at(p, s)),
            final(self).free_pages() >= old(self).free_pages(),
    {
        let ghost bound = self.next_id@;
        let ghost cap0 = self.cap_per_chunk;
        let ghost pool0 = self.freed@.len();
        while self.used.len() > 0
            invariant
                self.freed@.len() >= pool0,
                self.cap_per_chunk == cap0,
                self.cap_per_chunk >= 1,
                self.next_id@ == bound,
                forall|i: int|
                    0 <= i < self.used@.len() ==> {
                        &&& (#[trigger] self.used@[i]).wf()
                        &&& self.used@[i].cap() == self.cap_per_chunk
                    },
                forall|i: int|
                    0 <= i < self.freed@.len() ==> {
                        &&& (#[trigger] self.freed@[i]).wf()
                        &&& self.freed@[i].cap() == self.cap_per_chunk
                        &&& self.freed@[i]@.len() == 0
                    },
                ids_ok(self.used@, self.freed@, bound),
            decreases self.used@.len(),
        {
            let mut c = self.used.remove(0);
            c.drop_all();
            recycle(&mut self.freed, c);
        }
        self.size = 0;
        proof {
            assert(pages_of(self.used@) =~= Seq::<Seq<T>>::empty());
            assert forall|p: nat, s: nat| !(#[trigger] live_in(self.used@, p, s)) by {
                if live_in(self.used@, p, s) {
                    let i = choose|i: int|
                        0 <= i < self.used@.len() && covers(#[trigger] self.used@[i], p, s);
                }
            }
        }
    }

    /// Makes sure the free pool holds enough pages for `additional` more
    /// elements, allocating the shortfall now.
    pub fn reserve(&mut self, additional: usize)
        requires
            old(self).wf(),
        ensures
            final(self).wf(),
            final(self)@ =~= old(self)@,
            final(self).chunk_cap() == old(self).chunk_cap(),
            final(self).free_pages() >= pages_needed(additional as nat, old(self).chunk_cap()),
            final(self).free_pages() >= old(self).free_pages(),
            forall|p: nat, s: nat|
                old(self).live_at(p, s) <==> #[trigger] final(self).live_at(p, s),
            forall|p: nat, s: nat| #[trigger] final(self).live_at(p, s) ==> final(self).value_at(
                p,
                s,
            ) == old(self).value_at(p, s),
    {
        let q = additional / self.cap_per_chunk;
        let rem = additional % self.cap_per_chunk;
        proof {
            lemma_div_ceil(additional as int, self.cap_per_chunk as int, q as int, rem as int);
        }
        let n = if rem == 0 {
            q
        } else {
            q + 1
        };
        let ghost used0 = self.used@;
        while self.freed.len() < n
            invariant
                self.wf(),
                self.used@ == used0,
                self.size == old(self).size,
                self.cap_per_chunk == old(self).cap_per_chunk,
                self.freed@.len() >= old(self).free_pages(),
            decreases n - self.freed@.len(),
        {
            let c = Chunk::new(self.cap_per_chunk, self.next_id);
            recycle(&mut self.freed, c);
            proof {
                self.next_id@ = self.next_id@ + 1;
            }
        }
    }

    /// Finds the page holding logical index `idx`, and the offset within it.
    ///
    /// Constant-time: the index either falls into the first page, or page and
    /// offset follow by division, since every page between the first and the
    /// last is full.
    #[verifier::rlimit(100)]
    fn locate(&self, idx: usize) -> (r: (usize, usize))
        requires
            self.wf(),
            idx < self@.len(),
        ensures
            r.0 < self.used@.len(),
            r.1 < self.used@[r.0 as int]@.len(),
            page_start(self.pages(), r.0 as int) + r.1 == idx,
    {
        proof {
            lemma_flatten_len(self.pages());
            if self.used@.len() == 0 {
                assert(self.pages() =~= Seq::<Seq<T>>::empty());
            }
        }
        let first_len = self.used[0].len();
        if idx < first_len {
            proof {
                assert(page_start(self.pages(), 0) == 0);
            }
            (0, idx)
        } else {
            let rest = idx - first_len;
            let k = rest / self.cap_per_chunk;
            let off = rest % self.cap_per_chunk;
            proof {
                let pages = self.pages();
                let m = pages.len() as int;
                let cap = self.cap_per_chunk as int;
                lemma_fundamental_div_mod(rest as int, cap);
                assert(m >= 2) by {
                    if m == 1 {
                        assert(page_start(pages, 1) == page_start(pages, 0) + pages[0].len());
                    }
                }
                lemma_page_start_full(pages, cap, m - 1);
                assert(page_start(pages, m) == page_start(pages, m - 1) + pages[m - 1].len());
                assert(rest < (m - 1) * cap) by (nonlinear_arith)
                    requires
                        rest == idx - pages[0].len(),
                        idx < page_start(pages, m),
                        page_start(pages, m) == pages[0].len() + (m - 2) * cap + pages[m
                            - 1].len(),
                        pages[m - 1].len() <= cap,
                ;
                assert(k < m - 1) by (nonlinear_arith)
                    requires
                        rest == cap * k + off,
                        0 <= off < cap,
                        rest < (m - 1) * cap,
                        cap >= 1,
                        k >= 0,
                ;
                lemma_page_start_full(pages, cap, k as int + 1);
                assert(page_start(pages, k + 1) + off == idx) by (nonlinear_arith)
                    requires
                        page_start(pages, k + 1) == pages[0].len() + (k as int) * cap,
                        rest == cap * k + off,
                        rest == idx - pages[0].len(),
                ;
                if k as int + 1 == m - 1 {
                    assert(off < pages[m - 1].len()) by (nonlinear_arith)
                        requires
                            rest == cap * k + off,
                            rest < (m - 2) * cap + pages[m - 1].len(),
                            k == m - 2,
                            0 <= off,
                    ;
                } else {
                    assert(pages[k as int + 1].len() == cap);
                }
            }
            (k + 1, off)
        }
    }

    /// The element at logical index `idx`; `None` past the end.
    pub fn get(&self, idx: usize) -> (r: Option<&T>)
        requires
            self.wf(),
        ensures
            idx < self@.len() ==> r is Some && *r.unwrap() == self@[idx as int],
            idx >= self@.len() ==> r is None,
    {
        if idx >= self.size {
            return None;
        }
        let (k, off) = self.locate(idx);
        proof {
            lemma_flatten_index(self.pages(), k as int, off as int);
        }
        Some(self.used[k].get(off))
    }

    /// Mutable access to the element at logical index `idx`; `None` past the
    /// end.
    #[verifier::rlimit(100)]
    pub fn get_mut(&mut self, idx: usize) -> (r: Option<&mut T>)
        requires
            old(self).wf(),
        ensures
            final(self).wf(),
            idx >= old(self)@.len() ==> r is None && final(self)@ =~= old(self)@,
            idx < old(self)@.len() ==> {
                &&& r is Some
                &&& *r.unwrap() == old(self)@[idx as int]
                &&& final(self)@ =~= old(self)@.update(idx as int, *final(r.unwrap()))
            },
            final(self).chunk_cap() == old(self).chunk_cap(),
            forall|p: nat, s: nat|
                old(self).live_at(p, s) <==> #[trigger] final(self).live_at(p, s),
    {
        if idx >= self.size {
            return None;
        }
        let (k, off) = self.locate(idx);
        proof {
            lemma_flatten_index(self.pages(), k as int, off as int);
            lemma_flat_update_all(self.used@, k as int, off as int);
            lemma_live_update_all(self.used@, k as int);
        }
        let c = &mut self.used[k];
        let r = c.get_mut(off);
        Some(r)
    }

    /// Mutable access to the front element; `None` on an empty deque.
    pub fn front_mut(&mut self) -> (r: Option<&mut T>)
        requires
            old(self).wf(),
        ensures
            final(self).wf(),
            old(self)@.len() == 0 ==> r is None && final(self)@ =~= old(self)@,
            old(self)@.len() > 0 ==> {
                &&& r is Some
                &&& *r.unwrap() == old(self)@[0]
                &&& final(self)@ =~= old(self)@.update(0, *final(r.unwrap()))
            },
            final(self).chunk_cap() == old(self).chunk_cap(),
            forall|p: nat, s: nat|
                old(self).live_at(p, s) <==> #[trigger] final(self).live_at(p, s),
    {
        self.get_mut(0)
    }

    /// Mutable access to the back element; `None` on an empty deque.
    pub fn back_mut(&mut self) -> (r: Option<&mut T>)
        requires
            old(self).wf(),
        ensures
            final(self).wf(),
            old(self)@.len() == 0 ==> r is None && final(self)@ =~= old(self)@,
            old(self)@.len() > 0 ==> {
                &&& r is Some
                &&& *r.unwrap() == old(self)@.last()
                &&& final(self)@ =~= old(self)@.update(
                    old(self)@.len() - 1,
                    *final(r.unwrap()),
                )
            },
            final(self).chunk_cap() == old(self).chunk_cap(),
            forall|p: nat, s: nat|
                old(self).live_at(p, s) <==> #[trigger] final(self).live_at(p, s),
    {
        if self.size == 0 {
            return None;
        }
        let last = self.size - 1;
        self.get_mut(last)
    }

    /// The number of elements that the allocated pages can still take: the
    /// whole capacity of the free pool plus the vacant headroom of the first
    /// and last used pages. Saturates at `usize::MAX`. Pushing this many
    /// elements may still allocate, since a push can only use the headroom on
    /// its own side.
    pub fn capacity(&self) -> (r: usize)
        requires
            self.wf(),
        ensures
            r == if self.spare_capacity() > usize::MAX as int {
                usize::MAX as int
            } else {
                self.spare_capacity()
            },
    {
        let pool = match self.freed.len().checked_mul(self.cap_per_chunk) {
            Some(p) => p,
            None => {
                return usize::MAX;
            },
        };
        if self.used.len() == 0 {
            return pool;
        }
        let head = self.used[0].front_capacity();
        let tail = self.used[self.used.len() - 1].back_capacity();
        let headroom = match head.checked_add(tail) {
            Some(h) => h,
            None => {
                return usize::MAX;
            },
        };
        match pool.checked_add(headroom) {
            Some(r) => r,
            None => usize::MAX,
        }
    }

    /// The vacant room already allocated: free pool pages plus the headroom of
    /// the terminal used pages.
    pub open(crate) spec fn spare_capacity(&self) -> int {
        self.free_pages() * self.chunk_cap() + if self.used@.len() == 0 {
            0
        } else {
            self.used@[0].lo() + (self.chunk_cap() - self.used@.last().hi())
        }
    }
}

/// How many pages of capacity `cap` are needed to hold `additional` elements.
pub open(crate) spec fn pages_needed(additional: nat, cap: nat) -> int
    recommends
        cap >= 1,
{
    (additional + cap - 1) as int / cap as int
}

/// The ceiling division behind `pages_needed`, written over quotient and
/// remainder.
proof fn lemma_div_ceil(additional: int, cap: int, q: int, rem: int)
    requires
        additional >= 0,
        cap >= 1,
        q == additional / cap,
        rem == additional % cap,
    ensures
        pages_needed(additional as nat, cap as nat) == if rem == 0 {
            q
        } else {
            q + 1
        },
        rem != 0 ==> q < additional,
{
    lemma_fundamental_div_mod(additional, cap);
    if rem == 0 {
        assert(additional + cap - 1 == q * cap + (cap - 1)) by (nonlinear_arith)
            requires
                additional == cap * q + rem,
                rem == 0,
        ;
        lemma_fundamental_div_mod_converse(additional + cap - 1, cap, q, cap - 1);
    } else {
        assert(additional + cap - 1 == (q + 1) * cap + (rem - 1)) by (nonlinear_arith)
            requires
                additional == cap * q + rem,
        ;
        lemma_fundamental_div_mod_converse(additional + cap - 1, cap, q + 1, rem - 1);
        assert(additional >= q + 1) by (nonlinear_arith)
            requires
                additional == cap * q + rem,
                rem >= 1,
                cap >= 1,
                q >= 0,
        ;
    }
}

/// Total number of elements in the pages before page `k`.
pub open(crate) spec fn page_start<T>(pages: Seq<Seq<T>>, k: int) -> int
    decreases k,
{
    if k <= 0 {
        0
    } else {
        page_start(pages, k - 1) + pages[k - 1].len()
    }
}

pub(crate) proof fn lemma_page_start_drop_first<T>(pages: Seq<Seq<T>>, k: int)
    requires
        1 <= k <= pages.len(),
    ensures
        page_start(pages, k) == pages[0].len() + page_start(pages.drop_first(), k - 1),
    decreases k,
{
    let rest = pages.drop_first();
    if k == 1 {
        assert(page_start(pages, 1) == page_start(pages, 0) + pages[0].len());
        assert(page_start(rest, 0) == 0);
    } else {
        lemma_page_start_drop_first(pages, k - 1);
        assert(rest[k - 2] == pages[k - 1]);
        assert(page_start(pages, k) == page_start(pages, k - 1) + pages[k - 1].len());
        assert(page_start(rest, k - 1) == page_start(rest, k - 2) + rest[k - 2].len());
    }
}

pub(crate) proof fn lemma_page_start_mono<T>(pages: Seq<Seq<T>>, a: int, b: int)
    requires
        0 <= a <= b <= pages.len(),
    ensures
        page_start(pages, a) <= page_start(pages, b),
    decreases b - a,
{
    if a < b {
        lemma_page_start_mono(pages, a, b - 1);
    }
}

/// The flattened pages are exactly as long as all pages together.
pub(crate) proof fn lemma_flatten_len<T>(pages: Seq<Seq<T>>)
    ensures
        pages.flatten().len() == page_start(pages, pages.len() as int),
    decreases pages.len(),
{
    if pages.len() > 0 {
        lemma_flatten_len(pages.drop_first());
        lemma_page_start_drop_first(pages, pages.len() as int);
    }
}

/// Element `j` of page `k` stands at position `page_start(pages, k) + j` of the
/// flattened pages.
pub(crate) proof fn lemma_flatten_index<T>(pages: Seq<Seq<T>>, k: int, j: int)
    requires
        0 <= k < pages.len(),
        0 <= j < pages[k].len(),
    ensures
        0 <= page_start(pages, k) + j < pages.flatten().len(),
        pages.flatten()[page_start(pages, k) + j] == pages[k][j],
    decreases k,
{
    lemma_flatten_len(pages);
    lemma_page_start_mono(pages, 0, k);
    lemma_page_start_mono(pages, k + 1, pages.len() as int);
    if k == 0 {
        assert(pages.flatten() == pages.first() + pages.drop_first().flatten());
    } else {
        lemma_flatten_index(pages.drop_first(), k - 1, j);
        lemma_page_start_drop_first(pages, k);
        assert(pages.flatten() == pages.first() + pages.drop_first().flatten());
    }
}

/// Middle pages are full, so the elements before page `k` are the first page's
/// plus `k - 1` full pages.
proof fn lemma_page_start_full<T>(pages: Seq<Seq<T>>, cap: int, k: int)
    requires
        forall|i: int| 1 <= i < pages.len() - 1 ==> (#[trigger] pages[i]).len() == cap,
        1 <= k <= pages.len() - 1,
    ensures
        page_start(pages, k) == pages[0].len() + (k - 1) * cap,
    decreases k,
{
    if k == 1 {
        assert(page_start(pages, 1) == page_start(pages, 0) + pages[0].len());
    } else {
        lemma_page_start_full(pages, cap, k - 1);
        assert(page_start(pages, k) == page_start(pages, k - 1) + pages[k - 1].len());
        assert((k - 1) * cap == (k - 2) * cap + cap) by (nonlinear_arith);
    }
}

/// Updating element `j` of page `k` updates position `page_start(pages, k) + j`
/// of the flattened pages and nothing else.
proof fn lemma_flatten_update<T>(pages: Seq<Seq<T>>, k: int, j: int, v: T)
    requires
        0 <= k < pages.len(),
        0 <= j < pages[k].len(),
    ensures
        pages.update(k, pages[k].update(j, v)).flatten() =~= pages.flatten().update(
            page_start(pages, k) + j,
            v,
        ),
    decreases k,
{
    lemma_flatten_index(pages, k, j);
    let updated = pages.update(k, pages[k].update(j, v));
    assert(pages.flatten() == pages.first() + pages.drop_first().flatten());
    assert(updated.flatten() == updated.first() + updated.drop_first().flatten());
    if k == 0 {
        assert(updated.drop_first() =~= pages.drop_first());
        assert(updated.first() + updated.drop_first().flatten() =~= (pages.first()
            + pages.drop_first().flatten()).update(j, v));
    } else {
        lemma_flatten_index(pages.drop_first(), k - 1, j);
        lemma_flatten_update(pages.drop_first(), k - 1, j, v);
        lemma_page_start_drop_first(pages, k);
        assert(updated.drop_first() =~= pages.drop_first().update(
            k - 1,
            pages.drop_first()[k - 1].update(j, v),
        ));
        assert(updated.first() =~= pages.first());
        assert(pages.first() + pages.drop_first().flatten().update(
            page_start(pages.drop_first(), k - 1) + j,
            v,
        ) =~= (pages.first() + pages.drop_first().flatten()).update(
            pages[0].len() + page_start(pages.drop_first(), k - 1) + j,
            v,
        ));
    }
}

/// Replacing page `k` by a copy with element `j` updated to `v` updates the
/// flattened contents at position `page_start + j` and nothing else.
proof fn lemma_pages_update<T>(used: Seq<Chunk<T>>, k: int, c2: Chunk<T>, j: int, v: T)
    requires
        0 <= k < used.len(),
        0 <= j < used[k]@.len(),
        c2@ == used[k]@.update(j, v),
    ensures
        flat_of(used.update(k, c2)) =~= flat_of(used).update(
            page_start(pages_of(used), k) + j,
            v,
        ),
{
    assert(pages_of(used.update(k, c2)) =~= pages_of(used).update(k, used[k]@.update(j, v)));
    lemma_flatten_update(pages_of(used), k, j, v);
}

/// As `lemma_pages_update`, stated for every updated page at once, so that it
/// can be invoked before the page is mutably borrowed.
proof fn lemma_flat_update_all<T>(used: Seq<Chunk<T>>, k: int, j: int)
    requires
        0 <= k < used.len(),
        0 <= j < used[k]@.len(),
    ensures
        forall|c2: Chunk<T>|
            c2@ == used[k]@.update(j, c2@[j]) ==> flat_of(#[trigger] used.update(k, c2))
                =~= flat_of(used).update(page_start(pages_of(used), k) + j, c2@[j]),
{
    assert forall|c2: Chunk<T>|
        c2@ == used[k]@.update(j, c2@[j]) implies flat_of(#[trigger] used.update(k, c2))
        =~= flat_of(used).update(page_start(pages_of(used), k) + j, c2@[j]) by {
        lemma_pages_update(used, k, c2, j, c2@[j]);
    }
}

/// Hands out an empty page: the most recently freed one when the pool is not
/// empty, else a freshly allocated page carrying the fresh ghost identity
/// `bound`. The returned ghost bound covers every identity handed out so far.
fn fetch_a_freed_chunk<T>(
    freed: &mut Vec<Chunk<T>>,
    cap: usize,
    Ghost(bound): Ghost<nat>,
) -> (r: (Chunk<T>, Ghost<nat>))
    requires
        cap >= 1,
        forall|i: int|
            0 <= i < old(freed)@.len() ==> {
                &&& (#[trigger] old(freed)@[i]).wf()
                &&& old(freed)@[i].cap() == cap
                &&& old(freed)@[i]@.len() == 0
                &&& old(freed)@[i].page_id() < bound
            },
    ensures
        r.0.wf(),
        r.0@.len() == 0,
        r.0.cap() == cap,
        bound <= r.1@,
        r.0.page_id() < r.1@,
        old(freed)@.len() > 0 ==> {
            &&& final(freed)@ =~= old(freed)@.drop_last()
            &&& r.0 == old(freed)@.last()
            &&& r.1@ == bound
        },
        old(freed)@.len() == 0 ==> {
            &&& final(freed)@ =~= old(freed)@
            &&& r.0.page_id() == bound
            &&& r.1@ == bound + 1
        },
{
    if freed.len() > 0 {
        let c = freed.pop().unwrap();
        (c, Ghost(bound))
    } else {
        let c = Chunk::new(cap, Ghost(bound));
        (c, Ghost(bound + 1))
    }
}

/// Returns a vacated page to the free pool.
fn recycle<T>(freed: &mut Vec<Chunk<T>>, c: Chunk<T>)
    requires
        c.wf(),
        c@.len() == 0,
    ensures
        final(freed)@ =~= old(freed)@.push(c),
{
    freed.push(c);
}

/// Relies on `page_size::get`: the memory page size of the host system,
/// a machine-dependent value cached by that crate after its first call.
#[verifier::external_body]
fn host_page_size() -> (r: usize) {
    page_size::get()
}

/// How many elements fit into one page of the host's granularity, next to the
/// page header; at least one element per page, whatever the granularity.
fn suggested_capacity_per_chunk<T>() -> (cap: usize)
    ensures
        cap >= 1,
{
    let page = host_page_size();
    let header = core::mem::size_of::<Chunk<T>>();
    let slot = core::mem::size_of::<Option<T>>();
    let fits = match header.checked_add(slot) {
        Some(total) => total <= page,
        None => false,
    };
    if slot == 0 || !fits {
        1
    } else {
        let cap = (page - header) / slot;
        if cap == 0 {
            1
        } else {
            cap
        }
    }
}

} // verus!
