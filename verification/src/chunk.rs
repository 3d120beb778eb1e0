use vstd::prelude::*;

verus! {

/// One fixed-capacity page of the deque.
///
/// The slots `[start, end)` hold the page's live elements; every slot outside
/// that window is vacant. The window grows and shrinks only at its edges, so a
/// live element never changes its slot while it stays in the page. The ghost
/// `id` names the page across its whole lifetime (including recycling), so the
/// container can state which (page, slot) pairs stay untouched by an operation.
#[derive(Clone)]
pub(crate) struct Chunk<T> {
    pub(crate) start: usize,
    pub(crate) end: usize,
    pub(crate) elems: Vec<Option<T>>,
    pub(crate) id: Ghost<nat>,
}

impl<T> Chunk<T> {
    /// Number of slots in this page, fixed when the page is allocated.
    pub open(crate) spec fn cap(&self) -> nat {
        self.elems@.len()
    }

    /// First occupied slot.
    pub open(crate) spec fn lo(&self) -> int {
        self.start as int
    }

    /// One past the last occupied slot.
    pub open(crate) spec fn hi(&self) -> int {
        self.end as int
    }

    /// Ghost identity of the page.
    pub open(crate) spec fn page_id(&self) -> nat {
        self.id@
    }

    /// The live elements, front to back.
    pub open(crate) spec fn view(&self) -> Seq<T> {
        Seq::new((self.hi() - self.lo()) as nat, |i: int| self.elems@[self.lo() + i]->0)
    }

    /// The occupied window lies inside the slots, and every slot in it is full.
    pub open(crate) spec fn wf(&self) -> bool {
        &&& 0 <= self.lo() <= self.hi() <= self.cap()
        &&& forall|i: int| self.lo() <= i < self.hi() ==> self.elems@[i] is Some
    }

    /// Allocates a page of `cap` vacant slots, initially in back-insertion mode.
    pub(crate) fn new(cap: usize, Ghost(id): Ghost<nat>) -> (c: Self)
        ensures
            c.wf(),
            c.cap() == cap,
            c@ =~= Seq::<T>::empty(),
            c.lo() == 0 && c.hi() == 0,
            c.page_id() == id,
    {
        let mut elems: Vec<Option<T>> = Vec::new();
        while elems.len() < cap
            invariant
                elems@.len() <= cap,
            decreases cap - elems@.len(),
        {
            elems.push(None);
        }
        Chunk { start: 0, end: 0, elems, id: Ghost(id) }
    }

    /// Empties the window onto the back edge: growth proceeds by prepending.
    pub(crate) fn reset_for_front_insertion(&mut self)
        requires
            old(self).wf(),
            old(self)@.len() == 0,
        ensures
            final(self).wf(),
            final(self)@ =~= Seq::<T>::empty(),
            final(self).lo() == final(self).cap() && final(self).hi() == final(self).cap(),
            final(self).cap() == old(self).cap(),
            final(self).page_id() == old(self).page_id(),
    {
        let n = self.elems.len();
        self.start = n;
        self.end = n;
    }

    /// Empties the window onto the front edge: growth proceeds by appending.
    pub(crate) fn reset_for_back_insertion(&mut self)
        requires
            old(self).wf(),
            old(self)@.len() == 0,
        ensures
            final(self).wf(),
            final(self)@ =~= Seq::<T>::empty(),
            final(self).lo() == 0 && final(self).hi() == 0,
            final(self).cap() == old(self).cap(),
            final(self).page_id() == old(self).page_id(),
    {
        self.start = 0;
        self.end = 0;
    }

    /// Reserves the slot before the window and writes `elem` into it.
    /// Hands `elem` back untouched when the front side is exhausted.
    pub(crate) fn reserve_front(&mut self, elem: T) -> (r: Option<T>)
        requires
            old(self).wf(),
        ensures
            final(self).wf(),
            final(self).cap() == old(self).cap(),
            final(self).page_id() == old(self).page_id(),
            old(self).lo() > 0 ==> {
                &&& r is None
                &&& final(self)@ =~= seq![elem] + old(self)@
                &&& final(self).lo() == old(self).lo() - 1
                &&& final(self).hi() == old(self).hi()
                &&& final(self).elems@ =~= old(self).elems@.update(
                    old(self).lo() - 1,
                    Some(elem),
                )
            },
            old(self).lo() == 0 ==> r == Some(elem) && *final(self) == *old(self),
    {
        if self.start > 0 {
            let j = self.start - 1;
            let slot = &mut self.elems[j];
            *slot = Some(elem);
            self.start = j;
            None
        } else {
            Some(elem)
        }
    }

    /// Reserves the slot after the window and writes `elem` into it.
    /// Hands `elem` back untouched when the back side is exhausted.
    pub(crate) fn reserve_back(&mut self, elem: T) -> (r: Option<T>)
        requires
            old(self).wf(),
        ensures
            final(self).wf(),
            final(self).cap() == old(self).cap(),
            final(self).page_id() == old(self).page_id(),
            old(self).hi() < old(self).cap() ==> {
                &&& r is None
                &&& final(self)@ =~= old(self)@.push(elem)
                &&& final(self).lo() == old(self).lo()
                &&& final(self).hi() == old(self).hi() + 1
                &&& final(self).elems@ =~= old(self).elems@.update(old(self).hi(), Some(elem))
            },
            old(self).hi() == old(self).cap() ==> r == Some(elem) && *final(self) == *old(self),
    {
        if self.end < self.elems.len() {
            let j = self.end;
            let slot = &mut self.elems[j];
            *slot = Some(elem);
            self.end = j + 1;
            None
        } else {
            Some(elem)
        }
    }

    /// Number of live elements.
    pub(crate) fn len(&self) -> (r: usize)
        requires
            self.wf(),
        ensures
            r == self@.len(),
    {
        self.end - self.start
    }

    /// The element at offset `idx` within the window.
    pub(crate) fn get(&self, idx: usize) -> (r: &T)
        requires
            self.wf(),
            idx < self@.len(),
        ensures
            *r == self@[idx as int],
    {
        self.elems[self.start + idx].as_ref().unwrap()
    }

    /// Mutable access to the element at offset `idx` within the window.
    pub(crate) fn get_mut(&mut self, idx: usize) -> (r: &mut T)
        requires
            old(self).wf(),
            idx < old(self)@.len(),
        ensures
            *r == old(self)@[idx as int],
            final(self)@ =~= old(self)@.update(idx as int, *final(r)),
            final(self).wf(),
            final(self).cap() == old(self).cap(),
            final(self).lo() == old(self).lo(),
            final(self).hi() == old(self).hi(),
            final(self).page_id() == old(self).page_id(),
            final(self).elems@ =~= old(self).elems@.update(
                old(self).lo() + idx,
                Some(*final(r)),
            ),
    {
        let j = self.start + idx;
        let slot = &mut self.elems[j];
        match slot {
            Some(x) => x,
            None => unreached(),
        }
    }

    /// The element at the front of the window.
    pub(crate) fn front(&self) -> (r: &T)
        requires
            self.wf(),
            self@.len() > 0,
        ensures
            *r == self@[0],
    {
        self.get(0)
    }

    /// The element at the back of the window.
    pub(crate) fn back(&self) -> (r: &T)
        requires
            self.wf(),
            self@.len() > 0,
        ensures
            *r == self@.last(),
    {
        self.get(self.len() - 1)
    }

    /// Mutable access to the element at the front of the window.
    pub(crate) fn front_mut(&mut self) -> (r: &mut T)
        requires
            old(self).wf(),
            old(self)@.len() > 0,
        ensures
            *r == old(self)@[0],
            final(self)@ =~= old(self)@.update(0, *final(r)),
            final(self).wf(),
            final(self).cap() == old(self).cap(),
            final(self).lo() == old(self).lo(),
            final(self).hi() == old(self).hi(),
            final(self).page_id() == old(self).page_id(),
            final(self).elems@ =~= old(self).elems@.update(old(self).lo(), Some(*final(r))),
    {
        self.get_mut(0)
    }

    /// Mutable access to the element at the back of the window.
    pub(crate) fn back_mut(&mut self) -> (r: &mut T)
        requires
            old(self).wf(),
            old(self)@.len() > 0,
        ensures
            *r == old(self)@.last(),
            final(self)@ =~= old(self)@.update(old(self)@.len() - 1, *final(r)),
            final(self).wf(),
            final(self).cap() == old(self).cap(),
            final(self).lo() == old(self).lo(),
            final(self).hi() == old(self).hi(),
            final(self).page_id() == old(self).page_id(),
            final(self).elems@ =~= old(self).elems@.update(
                old(self).hi() - 1,
                Some(*final(r)),
            ),
    {
        let last = self.len() - 1;
        self.get_mut(last)
    }

    /// Destructively removes the front element.
    pub(crate) fn pop_front(&mut self) -> (r: T)
        requires
            old(self).wf(),
            old(self)@.len() > 0,
        ensures
            final(self).wf(),
            r == old(self)@[0],
            final(self)@ =~= old(self)@.subrange(1, old(self)@.len() as int),
            final(self).cap() == old(self).cap(),
            final(self).lo() == old(self).lo() + 1,
            final(self).hi() == old(self).hi(),
            final(self).page_id() == old(self).page_id(),
            final(self).elems@ =~= old(self).elems@.update(old(self).lo(), None),
    {
        let j = self.start;
        let slot = &mut self.elems[j];
        let v = slot.take();
        self.start = j + 1;
        v.unwrap()
    }

    /// Destructively removes the back element.
    pub(crate) fn pop_back(&mut self) -> (r: T)
        requires
            old(self).wf(),
            old(self)@.len() > 0,
        ensures
            final(self).wf(),
            r == old(self)@.last(),
            final(self)@ =~= old(self)@.drop_last(),
            final(self).cap() == old(self).cap(),
            final(self).lo() == old(self).lo(),
            final(self).hi() == old(self).hi() - 1,
            final(self).page_id() == old(self).page_id(),
            final(self).elems@ =~= old(self).elems@.update(old(self).hi() - 1, None),
    {
        let j = self.end - 1;
        let slot = &mut self.elems[j];
        let v = slot.take();
        self.end = j;
        v.unwrap()
    }

    /// Vacant slots on the front side of the window.
    pub(crate) fn front_capacity(&self) -> (r: usize)
        requires
            self.wf(),
        ensures
            r == self.lo(),
    {
        self.start
    }

    /// Vacant slots on the back side of the window.
    pub(crate) fn back_capacity(&self) -> (r: usize)
        requires
            self.wf(),
        ensures
            r == self.cap() - self.hi(),
    {
        self.elems.len() - self.end
    }

    /// Destroys every live element, leaving the page empty.
    pub(crate) fn drop_all(&mut self)
        requires
            old(self).wf(),
        ensures
            final(self).wf(),
            final(self)@.len() == 0,
            final(self).cap() == old(self).cap(),
            final(self).page_id() == old(self).page_id(),
    {
        while self.start < self.end
            invariant
                self.wf(),
                self.cap() == old(self).cap(),
                self.page_id() == old(self).page_id(),
            decreases self.hi() - self.lo(),
        {
            let j = self.start;
            let slot = &mut self.elems[j];
            let _dropped = slot.take();
            self.start = j + 1;
        }
    }
}

} // verus!
