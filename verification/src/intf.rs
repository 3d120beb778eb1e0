use crate::deque::PinnedDeque;
use vstd::prelude::*;
use vstd::string::StringExecFns;

verus! {

impl<T> PinnedDeque<T> {
    /// Builds a deque holding the elements of `v` in the same order.
    pub fn from_vec(v: Vec<T>) -> (d: Self)
        ensures
            d.wf(),
            d@ =~= v@,
    {
        let ghost orig = v@;
        let mut v = v;
        let mut d = Self::new();
        d.reserve(v.len());
        while v.len() > 0
            invariant
                d.wf(),
                d@ + v@ =~= orig,
                orig.len() <= usize::MAX,
            decreases v@.len(),
        {
            let x = v.remove(0);
            d.push_back(x);
        }
        d
    }

    /// Appends every element of `v` at the back, in order.
    pub fn extend(&mut self, v: Vec<T>)
        requires
            old(self).wf(),
            old(self)@.len() + v@.len() <= usize::MAX,
        ensures
            final(self).wf(),
            final(self)@ =~= old(self)@ + v@,
    {
        let ghost orig = self@ + v@;
        let mut v = v;
        self.reserve(v.len());
        while v.len() > 0
            invariant
                self.wf(),
                self@ + v@ =~= orig,
                orig.len() <= usize::MAX,
            decreases v@.len(),
        {
            let x = v.remove(0);
            self.push_back(x);
        }
    }

    /// Empties the deque into a vector, front to back.
    pub fn into_vec(self) -> (v: Vec<T>)
        requires
            self.wf(),
        ensures
            v@ =~= self@,
    {
        let ghost orig = self@;
        let mut d = self;
        let mut out: Vec<T> = Vec::new();
        while d.len() > 0
            invariant
                d.wf(),
                out@ + d@ =~= orig,
            decreases d@.len(),
        {
            let x = d.pop_front().unwrap();
            out.push(x);
        }
        out
    }
}

impl<T: Copy> PinnedDeque<T> {
    /// Copies the contents into a vector, front to back, leaving the deque as
    /// it is.
    pub fn to_vec(&self) -> (v: Vec<T>)
        requires
            self.wf(),
        ensures
            v@ =~= self@,
    {
        let n = self.len();
        let mut out: Vec<T> = Vec::new();
        let mut i: usize = 0;
        while i < n
            invariant
                self.wf(),
                n == self@.len(),
                i <= n,
                out@ =~= self@.take(i as int),
            decreases n - i,
        {
            let x = *self.get(i).unwrap();
            out.push(x);
            i = i + 1;
        }
        out
    }
}

/// Converting a sequence into the deque and reading the deque back in full
/// reproduces the sequence exactly.
pub proof fn lemma_round_trip<T>(v: Vec<T>, d: PinnedDeque<T>, w: Vec<T>)
    requires
        d@ == v@,
        w@ == d@,
    ensures
        w@ == v@,
{
}

impl<T> Default for PinnedDeque<T> {
    /// An empty deque with the page capacity that `new` chooses.
    fn default() -> (d: Self)
        ensures
            d.wf(),
            d@ =~= Seq::<T>::empty(),
    {
        Self::new()
    }
}

impl<T> From<Vec<T>> for PinnedDeque<T> {
    /// As `from_vec`. The page layout of the result depends on the host's
    /// memory page size, so no single value can be promised for it here.
    fn from(v: Vec<T>) -> (d: Self)
        ensures
            d.wf(),
            d@ =~= v@,
    {
        Self::from_vec(v)
    }
}

impl<T> vstd::std_specs::convert::FromSpecImpl<Vec<T>> for PinnedDeque<T> {
    open spec fn obeys_from_spec() -> bool {
        false
    }

    open spec fn from_spec(v: Vec<T>) -> Self {
        arbitrary()
    }
}

/// The views of the given strings.
pub open spec fn views_of(parts: Seq<String>) -> Seq<Seq<char>> {
    parts.map_values(|s: String| s@)
}

/// The rendering of `parts` between the enclosing brackets: the parts in
/// order, separated by comma and space.
pub open spec fn spec_joined(parts: Seq<Seq<char>>) -> Seq<char>
    decreases parts.len(),
{
    if parts.len() == 0 {
        Seq::empty()
    } else if parts.len() == 1 {
        parts[0]
    } else {
        spec_joined(parts.drop_last()) + ", "@ + parts.last()
    }
}

/// A comma-separated, bracket-delimited rendering of `parts`.
pub open spec fn spec_render(parts: Seq<Seq<char>>) -> Seq<char> {
    "["@ + spec_joined(parts) + "]"@
}

/// Renders already-formatted elements as an ordered, comma-separated,
/// bracket-delimited listing, as the deque's human-readable form.
pub fn render_list(parts: &Vec<String>) -> (r: String)
    ensures
        r@ == spec_render(views_of(parts@)),
{
    let mut s = String::from_str("[");
    let mut i: usize = 0;
    while i < parts.len()
        invariant
            i <= parts@.len(),
            s@ == "["@ + spec_joined(views_of(parts@).take(i as int)),
        decreases parts@.len() - i,
    {
        if i > 0 {
            s.append(", ");
        }
        s.append(parts[i].as_str());
        proof {
            let views = views_of(parts@);
            assert(views.take(i + 1).drop_last() =~= views.take(i as int));
            assert(views.take(i + 1).last() == views[i as int]);
            if i == 0 {
                assert(spec_joined(views.take(1)) == views[0]);
            }
        }
        i = i + 1;
    }
    proof {
        assert(views_of(parts@).take(parts@.len() as int) =~= views_of(parts@));
    }
    s.append("]");
    s
}

} // verus!
