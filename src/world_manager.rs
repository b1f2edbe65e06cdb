use vstd::prelude::*;

use crate::store::{joined, ComponentStore, Storage};

verus! {

/// The error of an operation that needs the store of a component kind that
/// was never registered on the manager.
#[derive(Debug, PartialEq, Eq)]
pub struct ComponentError {
    /// The kind that has no store.
    pub kind: u64,
}

/// The abstract state of an entity manager: how many entities exist, and for
/// each registered component kind its slots, one per entity.
pub struct ManagerView<C> {
    pub entity_count: nat,
    pub stores: Map<u64, Seq<Option<C>>>,
}

impl<C> ManagerView<C> {
    /// Every registered store has one slot per entity.
    pub open spec fn aligned(self) -> bool {
        forall|k: u64| #[trigger] self.stores.contains_key(k) ==> self.stores[k].len() == self.entity_count
    }

    /// The slots of `kind`, or all empty slots where the kind is not registered.
    pub open spec fn slots_of(self, kind: u64) -> Seq<Option<C>> {
        if self.stores.contains_key(kind) {
            self.stores[kind]
        } else {
            Seq::new(self.entity_count, |i: int| None::<C>)
        }
    }

    /// The component of `kind` on `entity`, if any.
    pub open spec fn component(self, kind: u64, entity: nat) -> Option<C> {
        if self.stores.contains_key(kind) {
            self.stores[kind][entity as int]
        } else {
            None
        }
    }

    /// The state after creating one entity.
    pub open spec fn with_new_entity(self) -> ManagerView<C> {
        ManagerView {
            entity_count: self.entity_count + 1,
            stores: self.stores.map_values(|s: Seq<Option<C>>| s.push(None)),
        }
    }

    /// The state after attaching `c` as the component of `kind` on `entity`.
    pub open spec fn attached(self, kind: u64, entity: nat, c: C) -> ManagerView<C> {
        ManagerView {
            entity_count: self.entity_count,
            stores: self.stores.insert(kind, self.slots_of(kind).update(entity as int, Some(c))),
        }
    }

    /// The state after clearing the component of a registered `kind` on `entity`.
    pub open spec fn removed(self, kind: u64, entity: nat) -> ManagerView<C> {
        ManagerView {
            entity_count: self.entity_count,
            stores: self.stores.insert(kind, self.stores[kind].update(entity as int, None)),
        }
    }
}

/// Creating an entity, attaching a component and clearing one all keep every
/// registered store at one slot per entity.
pub proof fn lemma_operations_keep_alignment<C>(v: ManagerView<C>, kind: u64, entity: nat, c: C)
    requires
        v.aligned(),
        entity < v.entity_count,
    ensures
        v.with_new_entity().aligned(),
        v.attached(kind, entity, c).aligned(),
        v.stores.contains_key(kind) ==> v.removed(kind, entity).aligned(),
{
    let w = v.with_new_entity();
    assert forall|k: u64| #[trigger] w.stores.contains_key(k) implies w.stores[k].len()
        == w.entity_count by {
        assert(v.stores.contains_key(k));
    }
}

/// Clearing a component that an entity already lacks, in a registered kind,
/// changes nothing, and the entity still lacks it; clearing twice is clearing
/// once.
pub proof fn lemma_remove_idempotent<C>(v: ManagerView<C>, kind: u64, entity: nat)
    requires
        v.aligned(),
        entity < v.entity_count,
        v.stores.contains_key(kind),
    ensures
        v.component(kind, entity) is None ==> v.removed(kind, entity) == v,
        v.removed(kind, entity).removed(kind, entity) == v.removed(kind, entity),
        v.removed(kind, entity).component(kind, entity) is None,
{
    if v.component(kind, entity) is None {
        assert(v.stores[kind].update(entity as int, None) =~= v.stores[kind]);
        assert(v.removed(kind, entity).stores =~= v.stores);
    }
    let w = v.removed(kind, entity);
    assert(w.stores[kind].update(entity as int, None) =~= w.stores[kind]);
    assert(w.removed(kind, entity).stores =~= w.stores);
}

/// Attaching twice to the same entity and kind leaves the second value, as if
/// the first had never been attached.
pub proof fn lemma_attach_overwrites<C>(v: ManagerView<C>, kind: u64, entity: nat, c1: C, c2: C)
    requires
        v.aligned(),
        entity < v.entity_count,
    ensures
        v.attached(kind, entity, c1).attached(kind, entity, c2) == v.attached(kind, entity, c2),
        v.attached(kind, entity, c1).attached(kind, entity, c2).component(kind, entity) == Some(c2),
{
    let w = v.attached(kind, entity, c1);
    assert(w.slots_of(kind).update(entity as int, Some(c2)) =~= v.slots_of(kind).update(
        entity as int,
        Some(c2),
    ));
    assert(w.attached(kind, entity, c2).stores =~= v.attached(kind, entity, c2).stores);
}

/// A kind that was never registered has no component on any entity.
pub proof fn lemma_unregistered_kind_absent<C>(v: ManagerView<C>, kind: u64, entity: nat)
    requires
        !v.stores.contains_key(kind),
    ensures
        v.component(kind, entity) is None,
{
}

/// Whether `comps[i]` is the store of `kind`.
spec fn holds_at<C>(comps: Seq<ComponentStore<C>>, i: int, kind: u64) -> bool {
    0 <= i < comps.len() && comps[i].tag() == kind
}

/// No two stores of the list hold the same kind.
spec fn distinct_tags<C>(comps: Seq<ComponentStore<C>>) -> bool {
    forall|i: int, j: int|
        0 <= i < comps.len() && 0 <= j < comps.len() && i != j ==> (#[trigger] comps[i]).tag()
            != (#[trigger] comps[j]).tag()
}

/// A list of stores read as a map from kind to slots.
spec fn stores_of<C>(comps: Seq<ComponentStore<C>>) -> Map<u64, Seq<Option<C>>> {
    Map::new(
        |k: u64| exists|i: int| holds_at(comps, i, k),
        |k: u64| comps[choose|i: int| holds_at(comps, i, k)]@,
    )
}

proof fn lemma_stores_of_at<C>(comps: Seq<ComponentStore<C>>, i: int)
    requires
        distinct_tags(comps),
        0 <= i < comps.len(),
    ensures
        stores_of(comps).contains_key(comps[i].tag()),
        stores_of(comps)[comps[i].tag()] == comps[i]@,
{
    let k = comps[i].tag();
    assert(holds_at(comps, i, k));
    let j = choose|j: int| holds_at(comps, j, k);
    assert(j == i);
}

proof fn lemma_stores_of_update<C>(comps: Seq<ComponentStore<C>>, i: int, s: ComponentStore<C>)
    requires
        distinct_tags(comps),
        0 <= i < comps.len(),
        s.tag() == comps[i].tag(),
    ensures
        distinct_tags(comps.update(i, s)),
        stores_of(comps.update(i, s)) == stores_of(comps).insert(s.tag(), s@),
{
    let c2 = comps.update(i, s);
    assert(distinct_tags(c2)) by {
        assert forall|a: int, b: int|
            0 <= a < c2.len() && 0 <= b < c2.len() && a != b implies (#[trigger] c2[a]).tag()
                != (#[trigger] c2[b]).tag() by {
            assert(comps[a].tag() != comps[b].tag());
        }
    }
    let m = stores_of(comps).insert(s.tag(), s@);
    assert forall|k: u64| #[trigger] stores_of(c2).contains_key(k) <==> m.contains_key(k) by {
        if stores_of(c2).contains_key(k) {
            let j = choose|j: int| holds_at(c2, j, k);
            assert(holds_at(comps, j, k));
        }
        if m.contains_key(k) && k != s.tag() {
            let j = choose|j: int| holds_at(comps, j, k);
            assert(holds_at(c2, j, k));
        }
        if k == s.tag() {
            assert(holds_at(c2, i, k));
        }
    }
    assert forall|k: u64| #[trigger] stores_of(c2).contains_key(k) implies stores_of(c2)[k] == m[k] by {
        let j = choose|j: int| holds_at(c2, j, k);
        lemma_stores_of_at(c2, j);
        if j != i {
            lemma_stores_of_at(comps, j);
        }
    }
    assert(stores_of(c2) =~= m);
}

proof fn lemma_stores_of_push<C>(comps: Seq<ComponentStore<C>>, s: ComponentStore<C>)
    requires
        distinct_tags(comps),
        !stores_of(comps).contains_key(s.tag()),
    ensures
        distinct_tags(comps.push(s)),
        stores_of(comps.push(s)) == stores_of(comps).insert(s.tag(), s@),
{
    let c2 = comps.push(s);
    let n = comps.len() as int;
    assert(distinct_tags(c2)) by {
        assert forall|a: int, b: int|
            0 <= a < c2.len() && 0 <= b < c2.len() && a != b implies (#[trigger] c2[a]).tag()
                != (#[trigger] c2[b]).tag() by {
            if a == n {
                assert(!holds_at(comps, b, s.tag()));
            } else if b == n {
                assert(!holds_at(comps, a, s.tag()));
            } else {
                assert(comps[a].tag() != comps[b].tag());
            }
        }
    }
    let m = stores_of(comps).insert(s.tag(), s@);
    assert forall|k: u64| #[trigger] stores_of(c2).contains_key(k) <==> m.contains_key(k) by {
        if stores_of(c2).contains_key(k) && k != s.tag() {
            let j = choose|j: int| holds_at(c2, j, k);
            assert(holds_at(comps, j, k));
        }
        if m.contains_key(k) && k != s.tag() {
            let j = choose|j: int| holds_at(comps, j, k);
            assert(holds_at(c2, j, k));
        }
        if k == s.tag() {
            assert(holds_at(c2, n, k));
        }
    }
    assert forall|k: u64| #[trigger] stores_of(c2).contains_key(k) implies stores_of(c2)[k] == m[k] by {
        let j = choose|j: int| holds_at(c2, j, k);
        lemma_stores_of_at(c2, j);
        if j != n {
            lemma_stores_of_at(comps, j);
        }
    }
    assert(stores_of(c2) =~= m);
}

proof fn lemma_stores_of_grow<C>(comps: Seq<ComponentStore<C>>, c2: Seq<ComponentStore<C>>)
    requires
        distinct_tags(comps),
        c2.len() == comps.len(),
        forall|i: int|
            0 <= i < comps.len() ==> (#[trigger] c2[i]).tag() == comps[i].tag() && c2[i]@
                == comps[i]@.push(None),
    ensures
        distinct_tags(c2),
        stores_of(c2) == stores_of(comps).map_values(|s: Seq<Option<C>>| s.push(None)),
{
    assert(distinct_tags(c2)) by {
        assert forall|a: int, b: int|
            0 <= a < c2.len() && 0 <= b < c2.len() && a != b implies (#[trigger] c2[a]).tag()
                != (#[trigger] c2[b]).tag() by {
            assert(comps[a].tag() != comps[b].tag());
        }
    }
    let m = stores_of(comps).map_values(|s: Seq<Option<C>>| s.push(None));
    assert forall|k: u64| #[trigger] stores_of(c2).contains_key(k) <==> m.contains_key(k) by {
        if stores_of(c2).contains_key(k) {
            let j = choose|j: int| holds_at(c2, j, k);
            assert(holds_at(comps, j, k));
        }
        if m.contains_key(k) {
            let j = choose|j: int| holds_at(comps, j, k);
            assert(holds_at(c2, j, k));
        }
    }
    assert forall|k: u64| #[trigger] stores_of(c2).contains_key(k) implies stores_of(c2)[k] == m[k] by {
        let j = choose|j: int| holds_at(c2, j, k);
        lemma_stores_of_at(c2, j);
        lemma_stores_of_at(comps, j);
    }
    assert(stores_of(c2) =~= m);
}

/// Owns the entity counter and one store per registered component kind.
pub struct EntityManager<C> {
    entity_count: usize,
    components: Vec<ComponentStore<C>>,
}

impl<C> View for EntityManager<C> {
    type V = ManagerView<C>;

    closed spec fn view(&self) -> ManagerView<C> {
        ManagerView { entity_count: self.entity_count as nat, stores: stores_of(self.components@) }
    }
}

impl<C: Copy> EntityManager<C> {
    /// The stores are one per kind, and each has one slot per entity.
    pub closed spec fn wf(&self) -> bool {
        &&& forall|i: int|
            0 <= i < self.components.len() ==> (#[trigger] self.components@[i])@.len()
                == self.entity_count
        &&& distinct_tags(self.components@)
    }

    proof fn lemma_aligned(&self)
        requires
            self.wf(),
        ensures
            self@.aligned(),
    {
        assert forall|k: u64| #[trigger] self@.stores.contains_key(k) implies self@.stores[k].len()
            == self@.entity_count by {
            let i = choose|i: int| holds_at(self.components@, i, k);
            lemma_stores_of_at(self.components@, i);
        }
    }

    /// An empty manager: no entities, no stores.
    pub fn new() -> (m: Self)
        ensures
            m.wf(),
            m@.entity_count == 0,
            m@.stores == Map::<u64, Seq<Option<C>>>::empty(),
            m@.aligned(),
    {
        let m = EntityManager { entity_count: 0, components: Vec::new() };
        assert(m@.stores =~= Map::<u64, Seq<Option<C>>>::empty());
        m
    }

    /// The number of entities created so far.
    pub fn entity_count(&self) -> (n: usize)
        ensures
            n == self@.entity_count,
    {
        self.entity_count
    }

    /// The index in the store list of the store of `kind`, if registered.
    fn find_store(&self, kind: u64) -> (r: Option<usize>)
        requires
            self.wf(),
        ensures
            r is None <==> !self@.stores.contains_key(kind),
            r matches Some(i) ==> holds_at(self.components@, i as int, kind),
    {
        let mut i: usize = 0;
        while i < self.components.len()
            invariant
                self.wf(),
                i <= self.components.len(),
                forall|j: int| 0 <= j < i ==> !holds_at(self.components@, j, kind),
            decreases self.components.len() - i,
        {
            if self.components[i].holds_kind(kind) {
                assert(holds_at(self.components@, i as int, kind));
                return Some(i);
            }
            i = i + 1;
        }
        None
    }

    /// Attaches `component` as the component of `kind` on `entity`, replacing
    /// any earlier one. The first component of a kind registers its store,
    /// with an empty slot for every existing entity.
    pub fn add_component_to_entity(&mut self, entity: usize, kind: u64, component: C)
        requires
            old(self).wf(),
            entity < old(self)@.entity_count,
        ensures
            final(self).wf(),
            final(self)@ == old(self)@.attached(kind, entity as nat, component),
            final(self)@.aligned(),
    {
        match self.find_store(kind) {
            Some(i) => {
                let ghost before = self.components@;
                self.components[i].set(entity, component);
                proof {
                    lemma_stores_of_at(before, i as int);
                    lemma_stores_of_update(before, i as int, self.components@[i as int]);
                    assert(self.components@ == before.update(i as int, self.components@[i as int]));
                }
            },
            None => {
                let mut store = ComponentStore::empty(kind, self.entity_count);
                store.set(entity, component);
                let ghost before = self.components@;
                self.components.push(store);
                proof {
                    lemma_stores_of_push(before, store);
                    assert(store@ =~= old(self)@.slots_of(kind).update(entity as int, Some(component)));
                }
            },
        }
        proof {
            assert(self@.stores =~= old(self)@.attached(kind, entity as nat, component).stores);
            self.lemma_aligned();
        }
    }

    /// Creates an entity: its identifier is the current count, and every
    /// registered store grows by one empty slot for it.
    pub fn add_entity(&mut self) -> (e: usize)
        requires
            old(self).wf(),
            old(self)@.entity_count < usize::MAX,
        ensures
            e == old(self)@.entity_count,
            final(self).wf(),
            final(self)@ == old(self)@.with_new_entity(),
            final(self)@.aligned(),
    {
        let entity_id = self.entity_count;
        let ghost before = self.components@;
        let n = self.components.len();
        let mut i: usize = 0;
        while i < n
            invariant
                n == self.components.len(),
                n == before.len(),
                i <= n,
                self.entity_count == old(self).entity_count,
                self.entity_count < usize::MAX,
                forall|j: int| 0 <= j < n ==> (#[trigger] before[j])@.len() == self.entity_count,
                forall|j: int|
                    0 <= j < n ==> (#[trigger] self.components@[j]).tag() == before[j].tag(),
                forall|j: int|
                    0 <= j < i ==> (#[trigger] self.components@[j])@ == before[j]@.push(None),
                forall|j: int| i <= j < n ==> (#[trigger] self.components@[j])@ == before[j]@,
            decreases n - i,
        {
            self.components[i].allocate();
            i = i + 1;
        }
        self.entity_count = self.entity_count + 1;
        proof {
            lemma_stores_of_grow(before, self.components@);
            self.lemma_aligned();
        }
        entity_id
    }

    /// A copy of the component of `kind` on `entity`; none where the entity
    /// lacks it or the kind was never registered. Registers nothing.
    pub fn get_component(&self, entity: usize, kind: u64) -> (r: Option<C>)
        requires
            self.wf(),
            entity < self@.entity_count,
        ensures
            r == self@.component(kind, entity as nat),
    {
        match self.find_store(kind) {
            Some(i) => {
                proof {
                    lemma_stores_of_at(self.components@, i as int);
                }
                self.components[i].get(entity)
            },
            None => None,
        }
    }

    /// Clears the component of `kind` on `entity`, whether or not it had one;
    /// fails where the kind was never registered, and then changes nothing.
    pub fn remove_component(&mut self, entity: usize, kind: u64) -> (r: Result<(), ComponentError>)
        requires
            old(self).wf(),
            entity < old(self)@.entity_count,
        ensures
            final(self).wf(),
            final(self)@.aligned(),
            r is Ok <==> old(self)@.stores.contains_key(kind),
            r is Ok ==> final(self)@ == old(self)@.removed(kind, entity as nat),
            r is Err ==> r->Err_0 == (ComponentError { kind }) && final(self)@ == old(self)@,
    {
        proof {
            self.lemma_aligned();
        }
        match self.find_store(kind) {
            Some(i) => {
                let ghost before = self.components@;
                self.components[i].clear(entity);
                proof {
                    lemma_stores_of_at(before, i as int);
                    lemma_stores_of_update(before, i as int, self.components@[i as int]);
                    assert(self.components@ == before.update(i as int, self.components@[i as int]));
                    self.lemma_aligned();
                }
                Ok(())
            },
            None => Err(ComponentError { kind }),
        }
    }

    /// The entities holding components of both kinds, in ascending order,
    /// each with its two components; fails where either kind was never
    /// registered.
    pub fn join(&self, first: u64, second: u64) -> (r: Result<Vec<(usize, C, C)>, ComponentError>)
        requires
            self.wf(),
        ensures
            r is Ok <==> self@.stores.contains_key(first) && self@.stores.contains_key(second),
            r matches Ok(v) ==> v@ == joined(self@.stores[first], self@.stores[second]),
            !self@.stores.contains_key(first) ==> r == Err::<Vec<(usize, C, C)>, _>(
                ComponentError { kind: first },
            ),
            self@.stores.contains_key(first) && !self@.stores.contains_key(second) ==> r == Err::<
                Vec<(usize, C, C)>,
                _,
            >(ComponentError { kind: second }),
    {
        let a = match self.find_store(first) {
            Some(i) => i,
            None => {
                return Err(ComponentError { kind: first });
            },
        };
        let b = match self.find_store(second) {
            Some(i) => i,
            None => {
                return Err(ComponentError { kind: second });
            },
        };
        proof {
            lemma_stores_of_at(self.components@, a as int);
            lemma_stores_of_at(self.components@, b as int);
        }
        Ok(self.components[a].join(&self.components[b]))
    }

    /// An exclusive handle on the store of `kind`, which stays borrowed from
    /// the manager for as long as the handle lives; fails where the kind was
    /// never registered, and then changes nothing. Once the handle is dropped,
    /// the manager holds what the handle left in the store.
    pub fn borrow_component_store(&mut self, kind: u64) -> (r: Result<
        &mut ComponentStore<C>,
        ComponentError,
    >)
        requires
            old(self).wf(),
        ensures
            r is Ok <==> old(self)@.stores.contains_key(kind),
            r is Err ==> r->Err_0 == (ComponentError { kind }) && *final(self) == *old(self),
            r is Ok ==> {
                let s = r->Ok_0;
                &&& s.tag() == kind
                &&& s@ == old(self)@.stores[kind]
                &&& final(self)@.entity_count == old(self)@.entity_count
                &&& final(s).tag() == kind && final(s)@.len() == s@.len() ==> {
                    &&& final(self).wf()
                    &&& final(self)@ == (ManagerView {
                        entity_count: old(self)@.entity_count,
                        stores: old(self)@.stores.insert(kind, final(s)@),
                    })
                }
            },
    {
        match self.find_store(kind) {
            Some(i) => {
                proof {
                    lemma_stores_of_at(self.components@, i as int);
                }
                proof {
                    let comps = self.components@;
                    assert forall|s: ComponentStore<C>| s.tag() == kind implies {
                        &&& distinct_tags(#[trigger] comps.update(i as int, s))
                        &&& stores_of(comps.update(i as int, s)) == stores_of(comps).insert(kind, s@)
                    } by {
                        lemma_stores_of_update(comps, i as int, s);
                    }
                }
                Ok(&mut self.components[i])
            },
            None => Err(ComponentError { kind }),
        }
    }
}

} // verus!
