use vstd::prelude::*;

verus! {

/// Identity of an entity. Identifiers are handed out densely from zero and
/// never reused, so an identifier doubles as the index of the entity's slot
/// in every component column.
#[derive(Clone, Copy, Debug, PartialEq, Eq, Structural, Hash)]
pub struct Entity {
    pub id: usize,
}

/// A column of one component type: at most one value per entity.
pub struct Storage<T> {
    items: Vec<Option<T>>,
}

impl<T> View for Storage<T> {
    type V = Map<usize, T>;

    /// The entities that hold the component, each with its value.
    closed spec fn view(&self) -> Map<usize, T> {
        Map::new(
            |i: usize| i < self.items@.len() && self.items@[i as int] is Some,
            |i: usize| self.items@[i as int]->0,
        )
    }
}

impl<T> Storage<T> {
    pub fn new() -> (s: Self)
        ensures
            s@ == Map::<usize, T>::empty(),
    {
        let s = Storage { items: Vec::new() };
        assert(s@ =~= Map::<usize, T>::empty());
        s
    }

    pub fn contains(&self, e: Entity) -> (r: bool)
        ensures
            r == self@.contains_key(e.id),
    {
        e.id < self.items.len() && self.items[e.id].is_some()
    }

    pub fn get(&self, e: Entity) -> (r: Option<&T>)
        ensures
            r == (if self@.contains_key(e.id) { Some(&self@[e.id]) } else { None }),
    {
        if e.id < self.items.len() {
            self.items[e.id].as_ref()
        } else {
            None
        }
    }

    /// Attaches `v` to `e`, replacing any earlier value.
    pub fn insert(&mut self, e: Entity, v: T)
        requires
            e.id < usize::MAX,
        ensures
            final(self)@ == old(self)@.insert(e.id, v),
    {
        while self.items.len() <= e.id
            invariant
                self@ == old(self)@,
                e.id < usize::MAX,
            decreases e.id + 1 - self.items.len(),
        {
            self.items.push(None);
            assert(self@ =~= old(self)@);
        }
        self.items.set(e.id, Some(v));
        assert(self@ =~= old(self)@.insert(e.id, v));
    }

    /// Detaches the component from `e` and hands back the value it held.
    pub fn remove(&mut self, e: Entity) -> (r: Option<T>)
        ensures
            final(self)@ == old(self)@.remove(e.id),
            r == (if old(self)@.contains_key(e.id) { Some(old(self)@[e.id]) } else { None }),
    {
        if e.id < self.items.len() {
            let slot = self.items[e.id].take();
            assert(self@ =~= old(self)@.remove(e.id));
            slot
        } else {
            assert(self@ =~= old(self)@.remove(e.id));
            None
        }
    }
}

/// Entity allocator with deferred deletion: a deleted entity stays alive,
/// marked as doomed, until the next sweep.
pub struct Entities {
    alive: Vec<bool>,
    doomed: Vec<bool>,
}

impl Entities {
    /// Number of entities ever created; the next one gets this id.
    pub closed spec fn count(&self) -> nat {
        self.alive@.len()
    }

    pub closed spec fn alive(&self) -> Set<usize> {
        Set::new(|i: usize| i < self.alive@.len() && self.alive@[i as int])
    }

    pub closed spec fn doomed(&self) -> Set<usize> {
        Set::new(|i: usize| i < self.doomed@.len() && self.doomed@[i as int])
    }

    /// Alive and not marked for deletion.
    pub open spec fn live(&self, id: usize) -> bool {
        self.alive().contains(id) && !self.doomed().contains(id)
    }

    pub closed spec fn wf(&self) -> bool {
        &&& self.alive@.len() == self.doomed@.len()
        &&& forall|i: int| 0 <= i < self.doomed@.len() && self.doomed@[i] ==> self.alive@[i]
    }

    /// Alive ids were handed out, and only alive entities are marked for deletion.
    pub proof fn lemma_bounds(&self)
        requires
            self.wf(),
        ensures
            forall|i: usize| self.alive().contains(i) ==> i < self.count(),
            self.doomed().subset_of(self.alive()),
    {
    }

    pub fn new() -> (r: Entities)
        ensures
            r.wf(),
            r.count() == 0,
            r.alive() == Set::<usize>::empty(),
            r.doomed() == Set::<usize>::empty(),
    {
        let r = Entities { alive: Vec::new(), doomed: Vec::new() };
        assert(r.alive() =~= Set::<usize>::empty());
        assert(r.doomed() =~= Set::<usize>::empty());
        r
    }

    pub fn len(&self) -> (n: usize)
        ensures
            n == self.count(),
    {
        self.alive.len()
    }

    pub fn is_alive(&self, e: Entity) -> (r: bool)
        ensures
            r == self.alive().contains(e.id),
    {
        e.id < self.alive.len() && self.alive[e.id]
    }

    pub fn is_doomed(&self, e: Entity) -> (r: bool)
        ensures
            r == self.doomed().contains(e.id),
    {
        e.id < self.doomed.len() && self.doomed[e.id]
    }

    /// A fresh entity.
    pub fn create(&mut self) -> (e: Entity)
        requires
            old(self).wf(),
            old(self).count() < usize::MAX,
        ensures
            final(self).wf(),
            e.id == old(self).count(),
            final(self).count() == old(self).count() + 1,
            final(self).alive() == old(self).alive().insert(e.id),
            final(self).doomed() == old(self).doomed(),
    {
        let e = Entity { id: self.alive.len() };
        self.alive.push(true);
        self.doomed.push(false);
        assert(self.alive() =~= old(self).alive().insert(e.id));
        assert(self.doomed() =~= old(self).doomed());
        e
    }

    /// Marks `e` for deletion at the next sweep.
    pub fn delete(&mut self, e: Entity)
        requires
            old(self).wf(),
            old(self).alive().contains(e.id),
        ensures
            final(self).wf(),
            final(self).count() == old(self).count(),
            final(self).alive() == old(self).alive(),
            final(self).doomed() == old(self).doomed().insert(e.id),
    {
        self.doomed.set(e.id, true);
        assert(self.alive() =~= old(self).alive());
        assert(self.doomed() =~= old(self).doomed().insert(e.id));
    }

    /// Ends the life of `e` if it is doomed.
    pub fn sweep(&mut self, e: Entity)
        requires
            old(self).wf(),
        ensures
            final(self).wf(),
            final(self).count() == old(self).count(),
            old(self).doomed().contains(e.id) ==> final(self).alive() == old(self).alive().remove(e.id)
                && final(self).doomed() == old(self).doomed().remove(e.id),
            !old(self).doomed().contains(e.id) ==> final(self).alive() == old(self).alive()
                && final(self).doomed() == old(self).doomed(),
    {
        if e.id < self.doomed.len() && self.doomed[e.id] {
            self.doomed.set(e.id, false);
            self.alive.set(e.id, false);
            assert(self.alive() =~= old(self).alive().remove(e.id));
            assert(self.doomed() =~= old(self).doomed().remove(e.id));
        }
    }
}

} // verus!
