//! A table from handles to values that keeps its entries in increasing handle
//! order, so that walking it is deterministic.
use crate::maybe::Handle;
use vstd::prelude::*;

verus! {

/// Entries keyed by handle, in increasing handle order.
pub struct HandleTable<T> {
    entries: Vec<(Handle, T)>,
    map: Ghost<Map<Handle, T>>,
}

impl<T> HandleTable<T> {
    /// What the table maps each handle to.
    pub closed spec fn view(&self) -> Map<Handle, T> {
        self.map@
    }

    /// The handles of the table, in the order a walk visits them.
    pub closed spec fn handles(&self) -> Seq<Handle> {
        self.entries@.map_values(|e: (Handle, T)| e.0)
    }

    pub closed spec fn wf(&self) -> bool {
        &&& forall|i: int, j: int|
            0 <= i < j < self.entries@.len() ==> self.entries@[i].0 < self.entries@[j].0
        &&& forall|i: int|
            0 <= i < self.entries@.len() ==> self.map@.contains_key(#[trigger] self.entries@[i].0)
                && self.map@[self.entries@[i].0] == self.entries@[i].1
        &&& forall|h: Handle|
            #[trigger] self.map@.contains_key(h) ==> exists|i: int|
                0 <= i < self.entries@.len() && #[trigger] self.entries@[i].0 == h
    }

    /// The walk order holds each handle of the table once, in increasing order.
    pub proof fn lemma_handles(&self)
        requires
            self.wf(),
        ensures
            self.handles().len() == self.view().dom().len(),
            forall|i: int, j: int|
                0 <= i < j < self.handles().len() ==> self.handles()[i] < self.handles()[j],
            forall|h: Handle| self.view().contains_key(h) <==> self.handles().contains(h),
            self.view().dom().finite(),
    {
        let hs = self.handles();
        assert forall|h: Handle| self.view().contains_key(h) <==> hs.contains(h) by {
            if self.view().contains_key(h) {
                let i = choose|i: int| 0 <= i < self.entries@.len() && #[trigger] self.entries@[i].0 == h;
                assert(hs[i] == h);
            }
            if hs.contains(h) {
                let i = choose|i: int| 0 <= i < hs.len() && hs[i] == h;
                assert(self.entries@[i].0 == h);
            }
        }
        assert(self.view().dom() =~= hs.to_set());
        assert(hs.no_duplicates()) by {
            assert forall|i: int, j: int| 0 <= i < hs.len() && 0 <= j < hs.len() && i != j implies hs[i] != hs[j] by {
                if i < j {
                    assert(self.entries@[i].0 < self.entries@[j].0);
                } else {
                    assert(self.entries@[j].0 < self.entries@[i].0);
                }
            }
        }
        hs.unique_seq_to_set();
    }

    /// Taking out the entry at `i` and putting the same handle back at `i`
    /// keeps the walk order; the neighbours of the gap bound that handle.
    pub proof fn lemma_slot(&self, i: int)
        requires
            self.wf(),
            0 <= i < self.handles().len(),
        ensures
            ({
                let after = self.handles().remove(i);
                &&& i > 0 ==> after[i - 1] < self.handles()[i]
                &&& i < after.len() ==> self.handles()[i] < after[i]
                &&& after.insert(i, self.handles()[i]) == self.handles()
            }),
    {
        self.lemma_handles();
        let hs = self.handles();
        let after = hs.remove(i);
        if i > 0 {
            assert(after[i - 1] == hs[i - 1]);
        }
        if i < after.len() {
            assert(after[i] == hs[i + 1]);
        }
        assert(after.insert(i, hs[i]) =~= hs);
    }

    pub fn new() -> (r: Self)
        ensures
            r.wf(),
            r@ == Map::<Handle, T>::empty(),
    {
        HandleTable { entries: Vec::new(), map: Ghost(Map::empty()) }
    }

    /// How many entries the table holds.
    pub fn len(&self) -> (r: usize)
        ensures
            r == self.handles().len(),
    {
        self.entries.len()
    }

    /// The position of `h` in the walk order, if the table holds it.
    pub fn find(&self, h: Handle) -> (r: Option<usize>)
        requires
            self.wf(),
        ensures
            r is None <==> !self@.contains_key(h),
            r matches Some(i) ==> i < self.handles().len() && self.handles()[i as int] == h,
    {
        let mut i: usize = 0;
        while i < self.entries.len()
            invariant
                self.wf(),
                i <= self.entries@.len(),
                forall|j: int| 0 <= j < i ==> self.entries@[j].0 != h,
            decreases self.entries@.len() - i,
        {
            if self.entries[i].0 == h {
                proof {
                    assert(self.map@.contains_key(self.entries@[i as int].0));
                }
                return Some(i);
            }
            i = i + 1;
        }
        proof {
            if self.map@.contains_key(h) {
                let k = choose|k: int| 0 <= k < self.entries@.len() && #[trigger] self.entries@[k].0 == h;
                assert(self.entries@[k].0 != h);
            }
        }
        None
    }

    /// Whether the table holds `h`.
    pub fn contains(&self, h: Handle) -> (r: bool)
        requires
            self.wf(),
        ensures
            r == self@.contains_key(h),
    {
        self.find(h).is_some()
    }

    /// Adds `h`, which is larger than every handle the table holds, at the end
    /// of the walk order.
    pub fn push(&mut self, h: Handle, v: T)
        requires
            old(self).wf(),
            forall|k: Handle| old(self)@.contains_key(k) ==> k < h,
        ensures
            final(self).wf(),
            final(self)@ == old(self)@.insert(h, v),
            final(self).handles() == old(self).handles().push(h),
    {
        proof {
            assert forall|i: int| 0 <= i < self.entries@.len() implies self.entries@[i].0 < h by {
                assert(self.map@.contains_key(self.entries@[i].0));
                assert(old(self)@.contains_key(self.entries@[i].0));
            }
        }
        self.entries.push((h, v));
        proof {
            self.map@ = self.map@.insert(h, v);
            assert forall|k: Handle| #[trigger] self.map@.contains_key(k) implies exists|i: int|
                0 <= i < self.entries@.len() && #[trigger] self.entries@[i].0 == k by {
                if k == h {
                    assert(self.entries@[self.entries@.len() - 1].0 == h);
                } else {
                    assert(old(self).map@.contains_key(k));
                    let i = choose|i: int| 0 <= i < old(self).entries@.len() && #[trigger] old(self).entries@[i].0 == k;
                    assert(self.entries@[i].0 == k);
                }
            }
        }
        assert(self.handles() =~= old(self).handles().push(h));
    }

    /// Takes out the entry at position `i` of the walk order.
    pub fn take_at(&mut self, i: usize) -> (r: (Handle, T))
        requires
            old(self).wf(),
            i < old(self).handles().len(),
        ensures
            final(self).wf(),
            r.0 == old(self).handles()[i as int],
            old(self)@.contains_key(r.0),
            r.1 == old(self)@[r.0],
            final(self)@ == old(self)@.remove(r.0),
            final(self).handles() == old(self).handles().remove(i as int),
    {
        let e = self.entries.remove(i);
        proof {
            assert(old(self).entries@[i as int] == e);
            self.map@ = self.map@.remove(e.0);
            assert forall|j: int| 0 <= j < self.entries@.len() implies self.map@.contains_key(
                #[trigger] self.entries@[j].0,
            ) && self.map@[self.entries@[j].0] == self.entries@[j].1 by {
                if j < i {
                    assert(self.entries@[j] == old(self).entries@[j]);
                    assert(old(self).entries@[j].0 < e.0);
                } else {
                    assert(self.entries@[j] == old(self).entries@[j + 1]);
                    assert(e.0 < old(self).entries@[j + 1].0);
                }
            }
            assert forall|k: Handle| #[trigger] self.map@.contains_key(k) implies exists|j: int|
                0 <= j < self.entries@.len() && #[trigger] self.entries@[j].0 == k by {
                let j = choose|j: int| 0 <= j < old(self).entries@.len() && #[trigger] old(self).entries@[j].0 == k;
                if j < i {
                    assert(self.entries@[j].0 == k);
                } else {
                    assert(j != i);
                    assert(self.entries@[j - 1].0 == k);
                }
            }
            assert forall|a: int, b: int| 0 <= a < b < self.entries@.len() implies self.entries@[a].0
                < self.entries@[b].0 by {
                let a0 = if a < i { a } else { a + 1 };
                let b0 = if b < i { b } else { b + 1 };
                assert(self.entries@[a] == old(self).entries@[a0]);
                assert(self.entries@[b] == old(self).entries@[b0]);
            }
        }
        assert(self.handles() =~= old(self).handles().remove(i as int));
        e
    }

    /// Puts `h` back at position `i` of the walk order, between the handles
    /// before and after it.
    pub fn put_at(&mut self, i: usize, h: Handle, v: T)
        requires
            old(self).wf(),
            i <= old(self).handles().len(),
            i > 0 ==> old(self).handles()[i - 1] < h,
            i < old(self).handles().len() ==> h < old(self).handles()[i as int],
        ensures
            final(self).wf(),
            final(self)@ == old(self)@.insert(h, v),
            final(self).handles() == old(self).handles().insert(i as int, h),
    {
        proof {
            if i > 0 {
                assert(old(self).handles()[i - 1] == old(self).entries@[i - 1].0);
            }
            if i < old(self).entries@.len() {
                assert(old(self).handles()[i as int] == old(self).entries@[i as int].0);
            }
        }
        self.entries.insert(i, (h, v));
        proof {
            let o = old(self).entries@;
            let n = self.entries@;
            assert forall|a: int, b: int| 0 <= a < b < n.len() implies n[a].0 < n[b].0 by {
                if a < i && b < i {
                    assert(n[a] == o[a] && n[b] == o[b]);
                } else if a < i && b == i {
                    assert(n[a] == o[a]);
                    assert(o[a].0 <= o[i - 1].0);
                } else if a < i {
                    assert(n[a] == o[a] && n[b] == o[b - 1]);
                } else if a == i {
                    assert(n[b] == o[b - 1]);
                    assert(o[i as int].0 <= o[b - 1].0);
                } else {
                    assert(n[a] == o[a - 1] && n[b] == o[b - 1]);
                }
            }
            assert(!old(self).map@.contains_key(h)) by {
                if old(self).map@.contains_key(h) {
                    let j = choose|j: int| 0 <= j < o.len() && #[trigger] o[j].0 == h;
                    if j < i {
                        assert(o[j].0 <= o[i - 1].0);
                    } else {
                        assert(o[i as int].0 <= o[j].0);
                    }
                }
            }
            self.map@ = self.map@.insert(h, v);
            assert forall|j: int| 0 <= j < n.len() implies self.map@.contains_key(#[trigger] n[j].0)
                && self.map@[n[j].0] == n[j].1 by {
                if j < i {
                    assert(n[j] == o[j]);
                    assert(n[j].0 != h);
                } else if j > i {
                    assert(n[j] == o[j - 1]);
                    assert(n[j].0 != h);
                }
            }
            assert forall|k: Handle| #[trigger] self.map@.contains_key(k) implies exists|j: int|
                0 <= j < n.len() && #[trigger] n[j].0 == k by {
                if k == h {
                    assert(n[i as int].0 == h);
                } else {
                    let j = choose|j: int| 0 <= j < o.len() && #[trigger] o[j].0 == k;
                    if j < i {
                        assert(n[j].0 == k);
                    } else {
                        assert(n[j + 1].0 == k);
                    }
                }
            }
        }
        assert(self.handles() =~= old(self).handles().insert(i as int, h));
    }

    /// Removes `h` and answers what it mapped to.
    pub fn remove(&mut self, h: Handle) -> (r: Option<T>)
        requires
            old(self).wf(),
        ensures
            final(self).wf(),
            final(self)@ == old(self)@.remove(h),
            r == (if old(self)@.contains_key(h) { Some(old(self)@[h]) } else { None::<T> }),
    {
        match self.find(h) {
            Some(i) => {
                let (_, v) = self.take_at(i);
                Some(v)
            },
            None => {
                assert(self.map@.remove(h) =~= self.map@);
                None
            },
        }
    }
}

} // verus!
