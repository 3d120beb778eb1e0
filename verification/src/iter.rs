use crate::deque::{
    lemma_flatten_index, lemma_flatten_len, lemma_page_start_mono, page_start, PinnedDeque,
};
use vstd::prelude::*;

verus! {

/// A bidirectional cursor over a borrowed deque.
///
/// It walks the used pages from both ends toward the middle: one page/slot
/// cursor per side, and the exact count of elements not yet yielded. The two
/// sides never cross: together they yield every element exactly once.
#[derive(Clone)]
pub struct Iter<'a, T> {
    pub(crate) deque: &'a PinnedDeque<T>,
    pub(crate) remaining: usize,
    pub(crate) front_page: usize,
    pub(crate) front_slot: usize,
    pub(crate) back_page: usize,
    pub(crate) back_slot: usize,
}

impl<'a, T> Iter<'a, T> {
    /// The deque that the cursor walks.
    pub open(crate) spec fn source(&self) -> &'a PinnedDeque<T> {
        self.deque
    }

    /// Logical index of the next element yielded from the front.
    pub open(crate) spec fn pos_front(&self) -> int {
        page_start(self.deque.pages(), self.front_page as int) + self.front_slot
    }

    /// Logical index of the next element yielded from the back.
    pub open(crate) spec fn pos_back(&self) -> int {
        page_start(self.deque.pages(), self.back_page as int) + self.back_slot
    }

    /// The elements not yet yielded, in logical order.
    pub open(crate) spec fn pending(&self) -> Seq<T> {
        if self.remaining == 0 {
            Seq::empty()
        } else {
            self.deque@.subrange(self.pos_front(), self.pos_back() + 1)
        }
    }

    /// Both cursors point at live slots and enclose exactly `remaining`
    /// elements.
    pub open(crate) spec fn wf_iter(&self) -> bool {
        &&& self.deque.wf()
        &&& self.remaining > 0 ==> {
            &&& self.front_page < self.deque.used@.len()
            &&& self.front_slot < self.deque.used@[self.front_page as int]@.len()
            &&& self.back_page < self.deque.used@.len()
            &&& self.back_slot < self.deque.used@[self.back_page as int]@.len()
            &&& self.pos_back() + 1 - self.pos_front() == self.remaining
        }
    }

    /// Builds the cursor spanning the whole deque.
    pub(crate) fn new(deque: &'a PinnedDeque<T>) -> (it: Self)
        requires
            deque.wf(),
        ensures
            it.wf_iter(),
            it.deque == deque,
            it.pending() =~= deque@,
    {
        let n = deque.len();
        if n == 0 {
            Iter { deque, remaining: 0, front_page: 0, front_slot: 0, back_page: 0, back_slot: 0 }
        } else {
            let m = deque.used.len();
            proof {
                lemma_flatten_len(deque.pages());
                if m == 0 {
                    assert(deque.pages() =~= Seq::<Seq<T>>::empty());
                }
                assert(page_start(deque.pages(), m as int) == page_start(
                    deque.pages(),
                    m - 1,
                ) + deque.pages()[m - 1].len());
                assert(page_start(deque.pages(), 0) == 0);
            }
            let back_slot = deque.used[m - 1].len() - 1;
            let it = Iter {
                deque,
                remaining: n,
                front_page: 0,
                front_slot: 0,
                back_page: m - 1,
                back_slot,
            };
            proof {
                assert(it.pending() =~= deque@);
            }
            it
        }
    }

    /// Exact count of the elements not yet yielded, as lower and upper bound.
    pub fn size_hint(&self) -> (r: (usize, Option<usize>))
        requires
            self.wf_iter(),
        ensures
            r.0 == self.pending().len(),
            r.1 == Some(r.0),
    {
        proof {
            if self.remaining > 0 {
                lemma_flatten_index(
                    self.deque.pages(),
                    self.front_page as int,
                    self.front_slot as int,
                );
                lemma_flatten_index(
                    self.deque.pages(),
                    self.back_page as int,
                    self.back_slot as int,
                );
            }
        }
        (self.remaining, Some(self.remaining))
    }

    /// Yields the first pending element and advances the front cursor, across
    /// page boundaries; `None` once the two sides have met.
    pub fn next(&mut self) -> (r: Option<&'a T>)
        requires
            old(self).wf_iter(),
        ensures
            final(self).wf_iter(),
            final(self).source() == old(self).source(),
            old(self).pending().len() == 0 ==> r is None && final(self).pending()
                =~= old(self).pending(),
            old(self).pending().len() > 0 ==> {
                &&& r is Some
                &&& *r.unwrap() == old(self).pending()[0]
                &&& final(self).pending() =~= old(self).pending().drop_first()
            },
    {
        if self.remaining == 0 {
            return None;
        }
        let ghost pages = self.deque.pages();
        let c = &self.deque.used[self.front_page];
        let r = c.get(self.front_slot);
        proof {
            lemma_flatten_index(pages, self.front_page as int, self.front_slot as int);
            lemma_flatten_index(pages, self.back_page as int, self.back_slot as int);
        }
        self.remaining = self.remaining - 1;
        if self.remaining > 0 {
            if self.front_slot + 1 == c.len() {
                proof {
                    assert(page_start(pages, self.front_page + 1) == page_start(
                        pages,
                        self.front_page as int,
                    ) + pages[self.front_page as int].len());
                    assert(page_start(pages, self.back_page + 1) == page_start(
                        pages,
                        self.back_page as int,
                    ) + pages[self.back_page as int].len());
                    assert(self.pos_back() < page_start(pages, self.back_page + 1));
                    if self.front_page + 1 > self.back_page {
                        lemma_page_start_mono(
                            pages,
                            self.back_page + 1,
                            self.front_page + 1,
                        );
                        assert(false);
                    }
                }
                self.front_page = self.front_page + 1;
                self.front_slot = 0;
            } else {
                self.front_slot = self.front_slot + 1;
            }
        }
        Some(r)
    }

    /// Yields the last pending element and advances the back cursor, across
    /// page boundaries; `None` once the two sides have met.
    pub fn next_back(&mut self) -> (r: Option<&'a T>)
        requires
            old(self).wf_iter(),
        ensures
            final(self).wf_iter(),
            final(self).source() == old(self).source(),
            old(self).pending().len() == 0 ==> r is None && final(self).pending()
                =~= old(self).pending(),
            old(self).pending().len() > 0 ==> {
                &&& r is Some
                &&& *r.unwrap() == old(self).pending().last()
                &&& final(self).pending() =~= old(self).pending().drop_last()
            },
    {
        if self.remaining == 0 {
            return None;
        }
        let ghost pages = self.deque.pages();
        let c = &self.deque.used[self.back_page];
        let r = c.get(self.back_slot);
        proof {
            lemma_flatten_index(pages, self.front_page as int, self.front_slot as int);
            lemma_flatten_index(pages, self.back_page as int, self.back_slot as int);
        }
        self.remaining = self.remaining - 1;
        if self.remaining > 0 {
            if self.back_slot == 0 {
                proof {
                    assert(page_start(pages, self.back_page as int) == page_start(
                        pages,
                        self.back_page - 1,
                    ) + pages[self.back_page - 1].len());
                    if self.back_page == 0 {
                        assert(self.pos_back() == 0);
                        lemma_page_start_mono(pages, 0, self.front_page as int);
                        assert(false);
                    }
                    if self.front_page > self.back_page - 1 {
                        // the front cursor would already stand past the new
                        // back cursor, contradicting the remaining count
                        lemma_page_start_mono(pages, self.back_page as int, self.front_page as int);
                        assert(false);
                    }
                }
                let prev = self.back_page - 1;
                let prev_len = self.deque.used[prev].len();
                self.back_page = prev;
                self.back_slot = prev_len - 1;
            } else {
                self.back_slot = self.back_slot - 1;
            }
        }
        Some(r)
    }
}

impl<T> PinnedDeque<T> {
    /// A bidirectional cursor over the deque's elements.
    pub fn iter(&self) -> (it: Iter<'_, T>)
        requires
            self.wf(),
        ensures
            it.wf_iter(),
            it.source() == self,
            it.pending() =~= self@,
    {
        Iter::new(self)
    }

    /// Turns the deque into a consuming cursor.
    pub fn into_iter(self) -> (it: IntoIter<T>)
        requires
            self.wf(),
        ensures
            it.wf(),
            it@ =~= self@,
    {
        IntoIter(self)
    }
}

/// A consuming cursor: yielding from either side pops the owned deque.
pub struct IntoIter<T>(pub(crate) PinnedDeque<T>);

impl<T> IntoIter<T> {
    /// The elements not yet yielded, in logical order.
    pub open(crate) spec fn view(&self) -> Seq<T> {
        self.0@
    }

    pub open(crate) spec fn wf(&self) -> bool {
        self.0.wf()
    }

    /// Removes and yields the first pending element.
    pub fn next(&mut self) -> (r: Option<T>)
        requires
            old(self).wf(),
        ensures
            final(self).wf(),
            old(self)@.len() == 0 ==> r is None && final(self)@ =~= old(self)@,
            old(self)@.len() > 0 ==> {
                &&& r == Some(old(self)@[0])
                &&& final(self)@ =~= old(self)@.subrange(1, old(self)@.len() as int)
            },
    {
        self.0.pop_front()
    }

    /// Removes and yields the last pending element.
    pub fn next_back(&mut self) -> (r: Option<T>)
        requires
            old(self).wf(),
        ensures
            final(self).wf(),
            old(self)@.len() == 0 ==> r is None && final(self)@ =~= old(self)@,
            old(self)@.len() > 0 ==> {
                &&& r == Some(old(self)@.last())
                &&& final(self)@ =~= old(self)@.drop_last()
            },
    {
        self.0.pop_back()
    }

    /// Exact count of the elements not yet yielded, as lower and upper bound.
    pub fn size_hint(&self) -> (r: (usize, Option<usize>))
        requires
            self.wf(),
        ensures
            r.0 == self@.len(),
            r.1 == Some(r.0),
    {
        let size = self.0.len();
        (size, Some(size))
    }
}

} // verus!
