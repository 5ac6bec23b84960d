//! A small entity-component store. Entities are numbered in creation order;
//! each holds at most one component of each kind, where a kind is a number
//! that the user assigns to each family of components.
use vstd::prelude::*;

verus! {

pub type EntityId = u32;

/// The number that names a family of components.
pub type ComponentKind = u64;

/// Where a component is filed: its entity and its kind.
pub type Slot = (EntityId, ComponentKind);

pub open spec fn slot_of<C>(e: (EntityId, ComponentKind, C)) -> Slot {
    (e.0, e.1)
}

/// Entities and their components.
pub struct ECData<C> {
    entities: Vec<EntityId>,
    comps: Vec<(EntityId, ComponentKind, C)>,
    next_id: EntityId,
}

impl<C> ECData<C> {
    closed spec fn holds(&self, s: Slot) -> bool {
        exists|i: int| 0 <= i < self.comps@.len() && #[trigger] slot_of(self.comps@[i]) == s
    }

    closed spec fn index_of(&self, s: Slot) -> int {
        choose|i: int| 0 <= i < self.comps@.len() && #[trigger] slot_of(self.comps@[i]) == s
    }

    /// Every component, by entity and kind.
    pub closed spec fn view(&self) -> Map<Slot, C> {
        Map::new(|s: Slot| self.holds(s), |s: Slot| self.comps@[self.index_of(s)].2)
    }

    /// The living entities, oldest first.
    pub closed spec fn entities(&self) -> Seq<EntityId> {
        self.entities@
    }

    /// How many components are stored.
    pub closed spec fn size(&self) -> nat {
        self.comps@.len()
    }

    /// The id the next new entity gets.
    pub closed spec fn next(&self) -> EntityId {
        self.next_id
    }

    pub closed spec fn wf(&self) -> bool {
        &&& forall|i: int, j: int| 0 <= i < j < self.entities@.len() ==> self.entities@[i] < self.entities@[j]
        &&& forall|i: int| 0 <= i < self.entities@.len() ==> self.entities@[i] < self.next_id
        &&& forall|i: int, j: int|
            0 <= i < j < self.comps@.len() ==> slot_of(self.comps@[i]) != slot_of(self.comps@[j])
        &&& forall|i: int| 0 <= i < self.comps@.len() ==> self.entities@.contains(#[trigger] self.comps@[i].0)
    }

    proof fn lemma_at(&self, i: int)
        requires
            self.wf(),
            0 <= i < self.comps@.len(),
        ensures
            self@.contains_key(slot_of(self.comps@[i])),
            self@[slot_of(self.comps@[i])] == self.comps@[i].2,
    {
        let s = slot_of(self.comps@[i]);
        assert(self.holds(s));
        let j = self.index_of(s);
        if j != i {
            if j < i {
                assert(slot_of(self.comps@[j]) != slot_of(self.comps@[i]));
            } else {
                assert(slot_of(self.comps@[i]) != slot_of(self.comps@[j]));
            }
        }
    }

    /// A component of a kind belongs to a living entity.
    pub proof fn lemma_components_of_living(&self, s: Slot)
        requires
            self.wf(),
            self@.contains_key(s),
        ensures
            self.entities().contains(s.0),
    {
        assert(self.holds(s));
        let i = self.index_of(s);
        assert(self.entities@.contains(self.comps@[i].0));
    }

    /// A store with no entity; the first entity gets id 0.
    pub fn new() -> (r: Self)
        ensures
            r.wf(),
            r@ == Map::<Slot, C>::empty(),
            r.entities() == Seq::<EntityId>::empty(),
            r.next() == 0,
    {
        let r = ECData { entities: Vec::new(), comps: Vec::new(), next_id: 0 };
        assert(r@ =~= Map::<Slot, C>::empty());
        r
    }

    fn find(&self, entity: EntityId, kind: ComponentKind) -> (r: Option<usize>)
        requires
            self.wf(),
        ensures
            r is None <==> !self@.contains_key((entity, kind)),
            r matches Some(i) ==> i < self.comps@.len() && slot_of(self.comps@[i as int]) == (entity, kind)
                && self@[(entity, kind)] == self.comps@[i as int].2,
    {
        let mut i: usize = 0;
        while i < self.comps.len()
            invariant
                self.wf(),
                i <= self.comps@.len(),
                forall|j: int| 0 <= j < i ==> slot_of(self.comps@[j]) != (entity, kind),
            decreases self.comps@.len() - i,
        {
            if self.comps[i].0 == entity && self.comps[i].1 == kind {
                proof {
                    self.lemma_at(i as int);
                }
                return Some(i);
            }
            i = i + 1;
        }
        None
    }

    /// Gives out the next entity id.
    pub fn next_id(&mut self) -> (r: EntityId)
        requires
            old(self).wf(),
            old(self).next() < EntityId::MAX,
        ensures
            final(self).wf(),
            r == old(self).next(),
            final(self).next() == old(self).next() + 1,
            final(self)@ == old(self)@,
            final(self).entities() == old(self).entities(),
    {
        let ret = self.next_id;
        self.next_id = self.next_id + 1;
        assert(self@ =~= old(self)@);
        ret
    }

    /// Creates an entity with no component.
    pub fn new_entity(&mut self) -> (r: EntityId)
        requires
            old(self).wf(),
            old(self).next() < EntityId::MAX,
        ensures
            final(self).wf(),
            r == old(self).next(),
            final(self).next() == old(self).next() + 1,
            final(self)@ == old(self)@,
            final(self).entities() == old(self).entities().push(r),
            final(self).entities().contains(r),
            !old(self).entities().contains(r),
    {
        let id = self.next_id();
        self.entities.push(id);
        proof {
            assert forall|i: int| 0 <= i < self.comps@.len() implies self.entities@.contains(#[trigger] self.comps@[i].0) by {
                assert(old(self).entities@.contains(self.comps@[i].0));
                let j = choose|j: int| 0 <= j < old(self).entities@.len() && old(self).entities@[j] == self.comps@[i].0;
                assert(self.entities@[j] == self.comps@[i].0);
            }
        }
        assert(self@ =~= old(self)@);
        assert(self.entities@[self.entities@.len() - 1] == id);
        proof {
            if old(self).entities@.contains(id) {
                let t = choose|t: int| 0 <= t < old(self).entities@.len() && old(self).entities@[t] == id;
            }
        }
        id
    }

    /// The view is the map whose entries are exactly the stored components.
    proof fn lemma_view_is(&self, m: Map<Slot, C>)
        requires
            self.wf(),
            forall|i: int| 0 <= i < self.comps@.len() ==> m.contains_key(#[trigger] slot_of(self.comps@[i]))
                && m[slot_of(self.comps@[i])] == self.comps@[i].2,
            forall|s: Slot| #[trigger] m.contains_key(s) ==> exists|i: int|
                0 <= i < self.comps@.len() && #[trigger] slot_of(self.comps@[i]) == s,
        ensures
            self@ == m,
    {
        assert forall|s: Slot| #[trigger] self@.contains_key(s) <==> m.contains_key(s) by {
            if self.holds(s) {
                let i = self.index_of(s);
                assert(m.contains_key(slot_of(self.comps@[i])));
            }
            if m.contains_key(s) {
                let i = choose|i: int| 0 <= i < self.comps@.len() && #[trigger] slot_of(self.comps@[i]) == s;
                assert(self.holds(s));
            }
        }
        assert forall|s: Slot| #[trigger] self@.contains_key(s) implies self@[s] == m[s] by {
            let i = self.index_of(s);
            self.lemma_at(i);
        }
        assert(self@ =~= m);
    }

    /// Files `component` as the component of kind `kind` of `entity` and
    /// answers the one it replaces. An entity that does not exist takes
    /// nothing: the store is unchanged and the answer is `None`.
    pub fn add_component(&mut self, entity: &EntityId, kind: ComponentKind, component: C) -> (r: Option<C>)
        requires
            old(self).wf(),
        ensures
            final(self).wf(),
            final(self).entities() == old(self).entities(),
            final(self).next() == old(self).next(),
            old(self).entities().contains(*entity) ==> final(self)@ == old(self)@.insert((*entity, kind), component),
            !old(self).entities().contains(*entity) ==> final(self)@ == old(self)@,
            r == (if old(self).entities().contains(*entity) && old(self)@.contains_key((*entity, kind)) {
                Some(old(self)@[(*entity, kind)])
            } else {
                None::<C>
            }),
    {
        let e = *entity;
        let mut known = false;
        let mut j: usize = 0;
        while j < self.entities.len()
            invariant
                j <= self.entities@.len(),
                known == (exists|t: int| 0 <= t < j && self.entities@[t] == e),
            decreases self.entities@.len() - j,
        {
            if self.entities[j] == e {
                known = true;
            }
            j = j + 1;
        }
        if !known {
            proof {
                if self.entities@.contains(e) {
                    let t = choose|t: int| 0 <= t < self.entities@.len() && self.entities@[t] == e;
                }
                if old(self)@.contains_key((e, kind)) {
                    self.lemma_components_of_living((e, kind));
                }
            }
            return None;
        }
        assert(self.entities@.contains(e));
        let ghost m = old(self)@.insert((e, kind), component);
        match self.find(e, kind) {
            Some(i) => {
                let mut slot = (e, kind, component);
                std::mem::swap(&mut slot, &mut self.comps[i]);
                proof {
                    assert(self.comps@ == old(self).comps@.update(i as int, (e, kind, component)));
                    assert forall|a: int, b: int| 0 <= a < b < self.comps@.len() implies slot_of(self.comps@[a]) != slot_of(self.comps@[b]) by {
                        assert(slot_of(self.comps@[a]) == slot_of(old(self).comps@[a]));
                        assert(slot_of(self.comps@[b]) == slot_of(old(self).comps@[b]));
                    }
                    assert forall|t: int| 0 <= t < self.comps@.len() implies self.entities@.contains(#[trigger] self.comps@[t].0) by {
                        assert(self.comps@[t].0 == old(self).comps@[t].0);
                    }
                    assert forall|t: int| 0 <= t < self.comps@.len() implies m.contains_key(#[trigger] slot_of(self.comps@[t]))
                        && m[slot_of(self.comps@[t])] == self.comps@[t].2 by {
                        if t != i {
                            old(self).lemma_at(t);
                            assert(slot_of(old(self).comps@[t]) != slot_of(old(self).comps@[i as int]));
                        }
                    }
                    assert forall|s: Slot| #[trigger] m.contains_key(s) implies exists|t: int|
                        0 <= t < self.comps@.len() && #[trigger] slot_of(self.comps@[t]) == s by {
                        if s == (e, kind) {
                            assert(slot_of(self.comps@[i as int]) == s);
                        } else {
                            assert(old(self).holds(s));
                            let t = old(self).index_of(s);
                            assert(slot_of(self.comps@[t]) == s);
                        }
                    }
                    self.lemma_view_is(m);
                }
                Some(slot.2)
            },
            None => {
                self.comps.push((e, kind, component));
                proof {
                    let n = self.comps@.len() - 1;
                    assert forall|a: int, b: int| 0 <= a < b < self.comps@.len() implies slot_of(self.comps@[a]) != slot_of(self.comps@[b]) by {
                        if b == n {
                            old(self).lemma_at(a);
                        } else {
                            assert(self.comps@[a] == old(self).comps@[a] && self.comps@[b] == old(self).comps@[b]);
                        }
                    }
                    assert forall|t: int| 0 <= t < self.comps@.len() implies self.entities@.contains(#[trigger] self.comps@[t].0) by {
                        if t < n {
                            assert(self.comps@[t] == old(self).comps@[t]);
                        }
                    }
                    assert forall|t: int| 0 <= t < self.comps@.len() implies m.contains_key(#[trigger] slot_of(self.comps@[t]))
                        && m[slot_of(self.comps@[t])] == self.comps@[t].2 by {
                        if t < n {
                            assert(self.comps@[t] == old(self).comps@[t]);
                            old(self).lemma_at(t);
                        }
                    }
                    assert forall|s: Slot| #[trigger] m.contains_key(s) implies exists|t: int|
                        0 <= t < self.comps@.len() && #[trigger] slot_of(self.comps@[t]) == s by {
                        if s == (e, kind) {
                            assert(slot_of(self.comps@[n]) == s);
                        } else {
                            assert(old(self).holds(s));
                            let t = old(self).index_of(s);
                            assert(self.comps@[t] == old(self).comps@[t]);
                            assert(slot_of(self.comps@[t]) == s);
                        }
                    }
                    self.lemma_view_is(m);
                }
                None
            },
        }
    }

    /// Takes the component of kind `kind` out of `entity`.
    pub fn remove_component(&mut self, entity: &EntityId, kind: ComponentKind) -> (r: Option<C>)
        requires
            old(self).wf(),
        ensures
            final(self).wf(),
            final(self).entities() == old(self).entities(),
            final(self).next() == old(self).next(),
            final(self)@ == old(self)@.remove((*entity, kind)),
            r == (if old(self)@.contains_key((*entity, kind)) { Some(old(self)@[(*entity, kind)]) } else { None::<C> }),
            r is Some ==> final(self).size() < old(self).size(),
    {
        match self.find(*entity, kind) {
            None => {
                assert(self@.remove((*entity, kind)) =~= self@);
                None
            },
            Some(i) => {
                let ghost m = old(self)@.remove((*entity, kind));
                let (_, _, c) = self.comps.remove(i);
                proof {
                    let o = old(self).comps@;
                    let n = self.comps@;
                    assert forall|a: int, b: int| 0 <= a < b < n.len() implies slot_of(n[a]) != slot_of(n[b]) by {
                        let a0 = if a < i { a } else { a + 1 };
                        let b0 = if b < i { b } else { b + 1 };
                        assert(n[a] == o[a0] && n[b] == o[b0]);
                    }
                    assert forall|t: int| 0 <= t < n.len() implies self.entities@.contains(#[trigger] n[t].0) by {
                        let t0 = if t < i { t } else { t + 1 };
                        assert(n[t] == o[t0]);
                    }
                    assert forall|t: int| 0 <= t < n.len() implies m.contains_key(#[trigger] slot_of(n[t]))
                        && m[slot_of(n[t])] == n[t].2 by {
                        let t0 = if t < i { t } else { t + 1 };
                        assert(n[t] == o[t0]);
                        old(self).lemma_at(t0);
                        assert(slot_of(o[t0]) != slot_of(o[i as int]));
                    }
                    assert forall|s: Slot| #[trigger] m.contains_key(s) implies exists|t: int|
                        0 <= t < self.comps@.len() && #[trigger] slot_of(self.comps@[t]) == s by {
                        assert(old(self).holds(s));
                        let t0 = old(self).index_of(s);
                        if t0 < i {
                            assert(slot_of(self.comps@[t0]) == s);
                        } else {
                            assert(t0 != i);
                            assert(slot_of(self.comps@[t0 - 1]) == s);
                        }
                    }
                    self.lemma_view_is(m);
                }
                Some(c)
            },
        }
    }

    /// Whether `entity` lives.
    fn is_living(&self, entity: EntityId) -> (r: Option<usize>)
        ensures
            r is None <==> !self.entities@.contains(entity),
            r matches Some(i) ==> i < self.entities@.len() && self.entities@[i as int] == entity,
    {
        let mut j: usize = 0;
        while j < self.entities.len()
            invariant
                j <= self.entities@.len(),
                forall|t: int| 0 <= t < j ==> self.entities@[t] != entity,
            decreases self.entities@.len() - j,
        {
            if self.entities[j] == entity {
                return Some(j);
            }
            j = j + 1;
        }
        None
    }

    /// The kind of some component that `entity` holds, if it holds any.
    fn some_kind_of(&self, entity: EntityId) -> (r: Option<ComponentKind>)
        requires
            self.wf(),
        ensures
            r is None ==> forall|k: ComponentKind| !self@.contains_key((entity, k)),
            r matches Some(k) ==> self@.contains_key((entity, k)),
    {
        let mut i: usize = 0;
        while i < self.comps.len()
            invariant
                self.wf(),
                i <= self.comps@.len(),
                forall|t: int| 0 <= t < i ==> self.comps@[t].0 != entity,
            decreases self.comps@.len() - i,
        {
            if self.comps[i].0 == entity {
                proof {
                    self.lemma_at(i as int);
                }
                return Some(self.comps[i].1);
            }
            i = i + 1;
        }
        proof {
            assert forall|k: ComponentKind| !self@.contains_key((entity, k)) by {
                if self.holds((entity, k)) {
                    let t = self.index_of((entity, k));
                    assert(self.comps@[t].0 == entity);
                }
            }
        }
        None
    }

    /// Removes `entity` and every component it holds.
    pub fn delete_entity(&mut self, entity: &EntityId)
        requires
            old(self).wf(),
        ensures
            final(self).wf(),
            final(self).next() == old(self).next(),
            !final(self).entities().contains(*entity),
            forall|x: EntityId| x != *entity ==> (final(self).entities().contains(x) <==> old(self).entities().contains(x)),
            forall|s: Slot| #[trigger] final(self)@.contains_key(s) <==> old(self)@.contains_key(s) && s.0 != *entity,
            forall|s: Slot| #[trigger] final(self)@.contains_key(s) ==> final(self)@[s] == old(self)@[s],
    {
        let e = *entity;
        loop
            invariant
                self.wf(),
                self.entities() == old(self).entities(),
                self.next() == old(self).next(),
                forall|s: Slot| s.0 != e ==> (#[trigger] self@.contains_key(s) <==> old(self)@.contains_key(s)),
                forall|s: Slot| #[trigger] self@.contains_key(s) ==> old(self)@.contains_key(s) && self@[s] == old(self)@[s],
            ensures
                forall|k: ComponentKind| !self@.contains_key((e, k)),
            decreases self.size(),
        {
            match self.some_kind_of(e) {
                None => {
                    break;
                },
                Some(k) => {
                    let _ = self.remove_component(&e, k);
                },
            }
        }
        let ghost before = self.entities@;
        let ghost v = self@;
        let ghost cs = self.comps@;
        proof {
            assert forall|s: Slot| #[trigger] v.contains_key(s) <==> old(self)@.contains_key(s) && s.0 != e by {
                if s.0 == e {
                    assert(!self@.contains_key((e, s.1)));
                }
            }
            assert forall|t: int| 0 <= t < self.comps@.len() implies #[trigger] self.comps@[t].0 != e && before.contains(self.comps@[t].0) by {
                self.lemma_at(t);
                assert(!self@.contains_key((e, self.comps@[t].1)));
            }
        }
        if let Some(i) = self.is_living(e) {
            self.entities.remove(i);
            proof {
                assert forall|a: int, b: int| 0 <= a < b < self.entities@.len() implies self.entities@[a] < self.entities@[b] by {
                    let a0 = if a < i { a } else { a + 1 };
                    let b0 = if b < i { b } else { b + 1 };
                    assert(self.entities@[a] == before[a0] && self.entities@[b] == before[b0]);
                }
                assert forall|t: int| 0 <= t < self.entities@.len() implies self.entities@[t] < self.next_id by {
                    let t0 = if t < i { t } else { t + 1 };
                    assert(self.entities@[t] == before[t0]);
                }
            }
        }
        proof {
            assert forall|x: EntityId| #[trigger] before.contains(x) && x != e implies self.entities@.contains(x) by {
                let t = choose|t: int| 0 <= t < before.len() && before[t] == x;
                if self.entities@.len() < before.len() {
                    let i = choose|i: int| 0 <= i < before.len() && before[i] == e;
                    if t < i {
                        assert(self.entities@[t] == x);
                    } else {
                        assert(t != i);
                        assert(self.entities@[t - 1] == x);
                    }
                } else {
                    assert(self.entities@[t] == x);
                }
            }
            assert forall|x: EntityId| #[trigger] self.entities@.contains(x) implies before.contains(x) && x != e by {
                let t = choose|t: int| 0 <= t < self.entities@.len() && self.entities@[t] == x;
                if self.entities@.len() < before.len() {
                    let i = choose|i: int| 0 <= i < before.len() && before[i] == e && self.entities@ == before.remove(i);
                    let t0 = if t < i { t } else { t + 1 };
                    assert(before[t0] == x);
                    assert(t0 != i);
                    if x == e {
                        if t0 < i {
                            assert(before[t0] < before[i]);
                        } else {
                            assert(before[i] < before[t0]);
                        }
                    }
                } else {
                    assert(self.entities@ == before);
                    assert(before[t] == x);
                }
            }
            assert forall|t: int| 0 <= t < self.comps@.len() implies self.entities@.contains(#[trigger] self.comps@[t].0) by {
                assert(self.comps@[t].0 != e && before.contains(self.comps@[t].0));
            }
            assert(self.comps@ == cs);
            assert(self@ =~= v);
        }
    }

    /// Whether `entity` holds a component of every kind in `kinds`.
    fn has_all(&self, entity: EntityId, kinds: &[ComponentKind]) -> (r: bool)
        requires
            self.wf(),
        ensures
            r == (forall|j: int| 0 <= j < kinds@.len() ==> self@.contains_key((entity, #[trigger] kinds@[j]))),
    {
        let mut j: usize = 0;
        while j < kinds.len()
            invariant
                self.wf(),
                j <= kinds@.len(),
                forall|t: int| 0 <= t < j ==> self@.contains_key((entity, #[trigger] kinds@[t])),
            decreases kinds@.len() - j,
        {
            if self.find(entity, kinds[j]).is_none() {
                return false;
            }
            j = j + 1;
        }
        true
    }

    /// The living entities that hold a component of every kind in `kinds`,
    /// oldest first.
    pub fn with(&self, component_ids: &[ComponentKind]) -> (r: Vec<EntityId>)
        requires
            self.wf(),
        ensures
            forall|x: EntityId| r@.contains(x) <==> self.entities().contains(x) && forall|j: int|
                0 <= j < component_ids@.len() ==> self@.contains_key((x, #[trigger] component_ids@[j])),
            forall|a: int, b: int| 0 <= a < b < r@.len() ==> r@[a] < r@[b],
    {
        let mut out: Vec<EntityId> = Vec::new();
        let mut i: usize = 0;
        while i < self.entities.len()
            invariant
                self.wf(),
                i <= self.entities@.len(),
                forall|x: EntityId| out@.contains(x) <==> (exists|t: int| 0 <= t < i && self.entities@[t] == x) && forall|j: int|
                    0 <= j < component_ids@.len() ==> self@.contains_key((x, #[trigger] component_ids@[j])),
                forall|a: int, b: int| 0 <= a < b < out@.len() ==> out@[a] < out@[b],
                forall|a: int| 0 <= a < out@.len() ==> exists|t: int| 0 <= t < i && self.entities@[t] == #[trigger] out@[a],
            decreases self.entities@.len() - i,
        {
            let x = self.entities[i];
            if self.has_all(x, component_ids) {
                let ghost before = out@;
                out.push(x);
                proof {
                    assert forall|a: int| 0 <= a < out@.len() - 1 implies out@[a] < x by {
                        let t = choose|t: int| 0 <= t < i && self.entities@[t] == #[trigger] before[a];
                        assert(self.entities@[t] < self.entities@[i as int]);
                    }
                    assert forall|y: EntityId| out@.contains(y) <==> (exists|t: int| 0 <= t < i + 1 && self.entities@[t] == y) && forall|j: int|
                        0 <= j < component_ids@.len() ==> self@.contains_key((y, #[trigger] component_ids@[j])) by {
                        if out@.contains(y) && y != x {
                            let a = choose|a: int| 0 <= a < out@.len() && out@[a] == y;
                            assert(before[a] == y);
                            assert(before.contains(y));
                        }
                        if y == x {
                            assert(out@[out@.len() - 1] == y);
                        } else if (exists|t: int| 0 <= t < i + 1 && self.entities@[t] == y) {
                            let t = choose|t: int| 0 <= t < i + 1 && self.entities@[t] == y;
                            assert(t < i);
                            if before.contains(y) {
                                let a = choose|a: int| 0 <= a < before.len() && before[a] == y;
                                assert(out@[a] == y);
                            }
                        }
                    }
                    assert forall|a: int| 0 <= a < out@.len() implies exists|t: int| 0 <= t < i + 1 && self.entities@[t] == #[trigger] out@[a] by {
                        if a == out@.len() - 1 {
                            assert(self.entities@[i as int] == out@[a]);
                        } else {
                            assert(out@[a] == before[a]);
                            let t = choose|t: int| 0 <= t < i && self.entities@[t] == #[trigger] before[a];
                        }
                    }
                }
            } else {
                proof {
                    assert forall|y: EntityId| out@.contains(y) <==> (exists|t: int| 0 <= t < i + 1 && self.entities@[t] == y) && forall|j: int|
                        0 <= j < component_ids@.len() ==> self@.contains_key((y, #[trigger] component_ids@[j])) by {
                        if y != x && (exists|t: int| 0 <= t < i + 1 && self.entities@[t] == y) {
                            let t = choose|t: int| 0 <= t < i + 1 && self.entities@[t] == y;
                            assert(t < i);
                        }
                        if y == x && out@.contains(y) {
                            let a = choose|a: int| 0 <= a < out@.len() && out@[a] == y;
                            let t = choose|t: int| 0 <= t < i && self.entities@[t] == #[trigger] out@[a];
                            assert(self.entities@[t] < self.entities@[i as int]);
                        }
                    }
                }
            }
            i = i + 1;
        }
        proof {
            assert forall|x: EntityId| (exists|t: int| 0 <= t < self.entities@.len() && self.entities@[t] == x) <==> self.entities@.contains(x) by {
                if self.entities@.contains(x) {
                    let t = choose|t: int| 0 <= t < self.entities@.len() && self.entities@[t] == x;
                }
            }
        }
        out
    }

    // There is no `components_mut` beside this: a vector of `&mut` borrows
    // into one store is not something Verus can follow to the store's final
    // value. Change components one at a time through `get_component_mut`,
    // walking the entities that `with` returns.

    /// Every component of kind `kind`, with its entity, in storage order.
    pub fn components(&self, kind: ComponentKind) -> (r: Vec<(EntityId, &C)>)
        requires
            self.wf(),
        ensures
            forall|a: int| 0 <= a < r@.len() ==> self@.contains_key((#[trigger] r@[a].0, kind)) && *r@[a].1 == self@[(r@[a].0, kind)],
            forall|x: EntityId| self@.contains_key((x, kind)) ==> exists|a: int| 0 <= a < r@.len() && #[trigger] r@[a].0 == x,
    {
        let mut out: Vec<(EntityId, &C)> = Vec::new();
        let mut i: usize = 0;
        while i < self.comps.len()
            invariant
                self.wf(),
                i <= self.comps@.len(),
                forall|a: int| 0 <= a < out@.len() ==> self@.contains_key((#[trigger] out@[a].0, kind)) && *out@[a].1 == self@[(out@[a].0, kind)],
                forall|t: int| 0 <= t < i && self.comps@[t].1 == kind ==> exists|a: int| 0 <= a < out@.len() && #[trigger] out@[a].0 == self.comps@[t].0,
            decreases self.comps@.len() - i,
        {
            if self.comps[i].1 == kind {
                proof {
                    self.lemma_at(i as int);
                }
                let ghost before = out@;
                out.push((self.comps[i].0, &self.comps[i].2));
                proof {
                    assert forall|t: int| 0 <= t < i + 1 && self.comps@[t].1 == kind implies exists|a: int| 0 <= a < out@.len() && #[trigger] out@[a].0 == self.comps@[t].0 by {
                        if t == i {
                            assert(out@[out@.len() - 1].0 == self.comps@[t].0);
                        } else {
                            let a = choose|a: int| 0 <= a < before.len() && #[trigger] before[a].0 == self.comps@[t].0;
                            assert(out@[a].0 == self.comps@[t].0);
                        }
                    }
                }
            }
            i = i + 1;
        }
        proof {
            assert forall|x: EntityId| self@.contains_key((x, kind)) implies exists|a: int| 0 <= a < out@.len() && #[trigger] out@[a].0 == x by {
                assert(self.holds((x, kind)));
                let t = self.index_of((x, kind));
                assert(self.comps@[t].1 == kind);
            }
        }
        out
    }

    /// The component of kind `kind` of `entity`, to change in place.
    pub fn get_component_mut(&mut self, entity: &EntityId, kind: ComponentKind) -> (r: Option<&mut C>)
        requires
            old(self).wf(),
        ensures
            final(self).entities() == old(self).entities(),
            final(self).next() == old(self).next(),
            final(self).size() == old(self).size(),
            r is None ==> !old(self)@.contains_key((*entity, kind)) && final(self)@ == old(self)@ && final(self).wf(),
            r matches Some(c) ==> old(self)@.contains_key((*entity, kind)) && *c == old(self)@[(*entity, kind)]
                && final(self).wf() && final(self)@ == old(self)@.insert((*entity, kind), *final(c)),
    {
        match self.find(*entity, kind) {
            Some(i) => {
                let c = &mut self.comps[i].2;
                proof {
                    lemma_replace_at(*old(self), after_borrow(*self), i as int, *final(c));
                }
                Some(c)
            },
            None => None,
        }
    }

    /// The component of kind `kind` of `entity`, if it has one.
    pub fn get_component(&self, entity: &EntityId, kind: ComponentKind) -> (r: Option<&C>)
        requires
            self.wf(),
        ensures
            r == (if self@.contains_key((*entity, kind)) { Some(&self@[(*entity, kind)]) } else { None::<&C> }),
    {
        match self.find(*entity, kind) {
            Some(i) => Some(&self.comps[i].2),
            None => None,
        }
    }
}

/// Changing the value stored at position `i` changes only the component
/// filed there.
proof fn lemma_replace_at<C>(a: ECData<C>, b: ECData<C>, i: int, v: C)
    requires
        a.wf(),
        0 <= i < a.comps@.len(),
        b.comps@ == a.comps@.update(i, (a.comps@[i].0, a.comps@[i].1, v)),
        b.entities == a.entities,
        b.next_id == a.next_id,
    ensures
        b.wf(),
        b@ == a@.insert(slot_of(a.comps@[i]), v),
{
    let m = a@.insert(slot_of(a.comps@[i]), v);
    assert forall|x: int, y: int| 0 <= x < y < b.comps@.len() implies slot_of(b.comps@[x]) != slot_of(b.comps@[y]) by {
        assert(slot_of(b.comps@[x]) == slot_of(a.comps@[x]));
        assert(slot_of(b.comps@[y]) == slot_of(a.comps@[y]));
    }
    assert forall|t: int| 0 <= t < b.comps@.len() implies b.entities@.contains(#[trigger] b.comps@[t].0) by {
        assert(b.comps@[t].0 == a.comps@[t].0);
    }
    assert forall|t: int| 0 <= t < b.comps@.len() implies m.contains_key(#[trigger] slot_of(b.comps@[t]))
        && m[slot_of(b.comps@[t])] == b.comps@[t].2 by {
        if t != i {
            a.lemma_at(t);
            assert(slot_of(a.comps@[t]) != slot_of(a.comps@[i]));
        }
    }
    assert forall|s: Slot| #[trigger] m.contains_key(s) implies exists|t: int|
        0 <= t < b.comps@.len() && #[trigger] slot_of(b.comps@[t]) == s by {
        if s == slot_of(a.comps@[i]) {
            assert(slot_of(b.comps@[i]) == s);
        } else {
            assert(a.holds(s));
            let t = a.index_of(s);
            assert(slot_of(b.comps@[t]) == s);
        }
    }
    b.lemma_view_is(m);
}

} // verus!
