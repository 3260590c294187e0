//! The pagination walk's cycle guard: the set of pages already visited in
//! one walk. Each candidate "next" page is offered; a page seen before is
//! refused, which ends the walk, so a cyclic next-chain halts after visiting
//! each distinct page at most once.
use crate::source::{html_eq, Source};
use vstd::prelude::*;

verus! {

/// Two sources denote the same page: equal location and equal raw body.
pub open spec fn same_page(a: Source, b: Source) -> bool {
    a.location@ == b.location@ && html_eq(a.html, b.html)
}

/// The page key compared by the guard.
pub open spec fn page_key(s: Source) -> (Seq<char>, Option<Seq<char>>) {
    (
        s.location@,
        match s.html {
            Some(h) => Some(h@),
            None => None,
        },
    )
}

/// The visited pages of one pagination walk, in visit order, no page twice.
pub struct Walk {
    visited: Vec<Source>,
}

impl View for Walk {
    type V = Seq<Source>;

    closed spec fn view(&self) -> Seq<Source> {
        self.visited@
    }
}

impl Walk {
    /// No two visited entries denote the same page.
    pub open spec fn wf(&self) -> bool {
        forall|k1: int, k2: int|
            0 <= k1 < k2 < self@.len() ==> !same_page(self@[k1], self@[k2])
    }

    /// A walk that has visited nothing.
    pub fn new() -> (r: Walk)
        ensures
            r@ =~= Seq::<Source>::empty(),
            r.wf(),
    {
        Walk { visited: Vec::new() }
    }

    /// How many pages were visited.
    pub fn len(&self) -> (r: usize)
        ensures
            r == self@.len(),
    {
        self.visited.len()
    }

    /// Offer the next candidate page: a page not seen in this walk is
    /// recorded and accepted; one seen before is refused, and the walk ends.
    pub fn offer(&mut self, src: Source) -> (r: bool)
        requires
            old(self).wf(),
        ensures
            r == !(exists|k: int|
                0 <= k < old(self)@.len() && same_page(old(self)@[k], src)),
            r ==> final(self)@ == old(self)@.push(src),
            !r ==> final(self)@ == old(self)@,
            final(self).wf(),
    {
        let n: usize = self.visited.len();
        let mut k: usize = 0;
        while k < n
            invariant
                self.visited@ == old(self).visited@,
                old(self).wf(),
                n == self.visited@.len(),
                0 <= k <= n,
                forall|j: int| 0 <= j < k ==> !same_page(self.visited@[j], src),
            decreases n - k,
        {
            if self.visited[k].eq(&src) {
                return false;
            }
            k += 1;
        }
        self.visited.push(src);
        true
    }

    /// The visited pages themselves, surrendering the walk.
    pub fn into_pages(self) -> (r: Vec<Source>)
        ensures
            r@ == self@,
    {
        self.visited
    }
}

/// The walk halts: when every page a walk can reach comes from a finite
/// universe of page keys, the guard accepts at most as many offers as the
/// universe has keys — after that every offer is refused and the walk ends.
pub proof fn lemma_walk_bounded(w: Walk, universe: Set<(Seq<char>, Option<Seq<char>>)>)
    requires
        w.wf(),
        universe.finite(),
        forall|k: int| 0 <= k < w@.len() ==> universe.contains(#[trigger] page_key(w@[k])),
    ensures
        w@.len() <= universe.len(),
{
    let keys = Seq::new(w@.len(), |i: int| page_key(w@[i]));
    assert(keys.no_duplicates()) by {
        assert forall|k1: int, k2: int|
            0 <= k1 < keys.len() && 0 <= k2 < keys.len() && k1 != k2 implies keys[k1]
            != keys[k2] by {
            if k1 < k2 {
                assert(!same_page(w@[k1], w@[k2]));
            } else {
                assert(!same_page(w@[k2], w@[k1]));
            }
        }
    }
    keys.unique_seq_to_set();
    assert(keys.to_set().subset_of(universe)) by {
        assert forall|x: (Seq<char>, Option<Seq<char>>)|
            keys.to_set().contains(x) implies universe.contains(x) by {
            let i = choose|i: int| 0 <= i < keys.len() && keys[i] == x;
            assert(universe.contains(page_key(w@[i])));
        }
    }
    vstd::set_lib::lemma_len_subset(keys.to_set(), universe);
}

} // verus!
