use vstd::prelude::*;

verus! {

/// What the entity manager needs of a store without knowing its element type:
/// growing by one empty slot, and telling which component kind it holds.
pub trait Storage {
    type Item;

    /// The slots, one per entity, in entity order.
    spec fn slots(&self) -> Seq<Option<Self::Item>>;

    /// The kind token of the component type held by this store.
    spec fn type_tag(&self) -> u64;

    /// Appends one empty slot, for an entity that was just created.
    fn allocate(&mut self)
        requires
            old(self).slots().len() < usize::MAX,
        ensures
            final(self).slots() == old(self).slots().push(None),
            final(self).type_tag() == old(self).type_tag(),
    ;

    /// The kind token of this store.
    fn kind(&self) -> (k: u64)
        ensures
            k == self.type_tag(),
    ;

    /// Whether this store holds components of the given kind.
    fn holds_kind(&self, kind: u64) -> (b: bool)
        ensures
            b == (self.type_tag() == kind),
    ;
}

/// A dense store of one component kind: slot `i` belongs to entity `i` and is
/// either empty or holds that entity's component.
pub struct ComponentStore<C> {
    kind: u64,
    slots: Vec<Option<C>>,
}

impl<C> View for ComponentStore<C> {
    type V = Seq<Option<C>>;

    closed spec fn view(&self) -> Seq<Option<C>> {
        self.slots@
    }
}

/// The present pairs among the first `n` slots of two stores, in ascending
/// entity order: the entity and its component from each store.
pub open spec fn joined_upto<C>(a: Seq<Option<C>>, b: Seq<Option<C>>, n: nat) -> Seq<(usize, C, C)>
    decreases n,
{
    if n == 0 {
        seq![]
    } else {
        let i = (n - 1) as int;
        let prev = joined_upto(a, b, (n - 1) as nat);
        if a[i] is Some && b[i] is Some {
            prev.push((i as usize, a[i]->Some_0, b[i]->Some_0))
        } else {
            prev
        }
    }
}

/// The inner join of two equally long stores on entity index.
pub open spec fn joined<C>(a: Seq<Option<C>>, b: Seq<Option<C>>) -> Seq<(usize, C, C)> {
    joined_upto(a, b, a.len())
}

/// Every entry of the join of the first `n` slots is an entity below `n`
/// present in both stores with those components; every entity below `n`
/// present in both stores is in it; and the entities strictly ascend.
proof fn lemma_joined_upto_exact<C>(a: Seq<Option<C>>, b: Seq<Option<C>>, n: nat)
    requires
        n <= a.len(),
        n <= b.len(),
        n <= usize::MAX + 1,
    ensures
        forall|j: int|
            0 <= j < joined_upto(a, b, n).len() ==> {
                let (e, x, y) = #[trigger] joined_upto(a, b, n)[j];
                &&& e < n
                &&& a[e as int] == Some(x)
                &&& b[e as int] == Some(y)
            },
        forall|e: int|
            0 <= e < n && #[trigger] a[e] is Some && b[e] is Some ==> exists|j: int|
                0 <= j < joined_upto(a, b, n).len() && (#[trigger] joined_upto(a, b, n)[j]).0 == e,
        forall|j1: int, j2: int|
            0 <= j1 < j2 < joined_upto(a, b, n).len() ==> (#[trigger] joined_upto(a, b, n)[j1]).0
                < (#[trigger] joined_upto(a, b, n)[j2]).0,
    decreases n,
{
    if n > 0 {
        let m = (n - 1) as nat;
        lemma_joined_upto_exact(a, b, m);
        let prev = joined_upto(a, b, m);
        let cur = joined_upto(a, b, n);
        assert forall|e: int| 0 <= e < n && #[trigger] a[e] is Some && b[e] is Some implies exists|j: int|
            0 <= j < cur.len() && (#[trigger] cur[j]).0 == e by {
            if e < m {
                let j = choose|j: int| 0 <= j < prev.len() && (#[trigger] prev[j]).0 == e;
                assert(cur[j] == prev[j]);
            } else {
                assert(cur[prev.len() as int].0 == e);
            }
        }
    }
}

/// The join of two equally long stores holds exactly the entities present in
/// both, in ascending order, each with its two components.
pub proof fn lemma_join_exact<C>(a: Seq<Option<C>>, b: Seq<Option<C>>)
    requires
        a.len() == b.len(),
        a.len() <= usize::MAX,
    ensures
        forall|j: int|
            0 <= j < joined(a, b).len() ==> {
                let (e, x, y) = #[trigger] joined(a, b)[j];
                &&& e < a.len()
                &&& a[e as int] == Some(x)
                &&& b[e as int] == Some(y)
            },
        forall|e: int|
            0 <= e < a.len() && #[trigger] a[e] is Some && b[e] is Some ==> exists|j: int|
                0 <= j < joined(a, b).len() && (#[trigger] joined(a, b)[j]).0 == e,
        forall|j1: int, j2: int|
            0 <= j1 < j2 < joined(a, b).len() ==> (#[trigger] joined(a, b)[j1]).0 < (#[trigger] joined(
                a,
                b,
            )[j2]).0,
{
    lemma_joined_upto_exact(a, b, a.len());
}

impl<C> ComponentStore<C> {
    /// The kind token of this store, as a spec value.
    pub closed spec fn tag(&self) -> u64 {
        self.kind
    }
}

impl<C: Copy> ComponentStore<C> {
    /// A store of the given kind with `n` empty slots.
    pub(crate) fn empty(kind: u64, n: usize) -> (s: Self)
        ensures
            s.tag() == kind,
            s@ == Seq::new(n as nat, |i: int| None::<C>),
    {
        let mut slots: Vec<Option<C>> = Vec::with_capacity(n);
        let mut i: usize = 0;
        while i < n
            invariant
                i <= n,
                slots@ == Seq::new(i as nat, |j: int| None::<C>),
            decreases n - i,
        {
            slots.push(None);
            i = i + 1;
        }
        assert(slots@ =~= Seq::new(n as nat, |j: int| None::<C>));
        ComponentStore { kind, slots }
    }

    /// The number of slots, which is the number of entities.
    pub fn len(&self) -> (n: usize)
        ensures
            n == self@.len(),
    {
        self.slots.len()
    }

    /// A copy of the component in slot `i`, if any.
    pub fn get(&self, i: usize) -> (r: Option<C>)
        requires
            i < self@.len(),
        ensures
            r == self@[i as int],
    {
        match &self.slots[i] {
            Some(c) => Some(*c),
            None => None,
        }
    }

    /// Puts `c` in slot `i`, replacing whatever was there.
    pub fn set(&mut self, i: usize, c: C)
        requires
            i < old(self)@.len(),
        ensures
            final(self)@ == old(self)@.update(i as int, Some(c)),
            final(self).tag() == old(self).tag(),
    {
        self.slots[i] = Some(c);
    }

    /// Empties slot `i`; an already empty slot stays empty.
    pub fn clear(&mut self, i: usize)
        requires
            i < old(self)@.len(),
        ensures
            final(self)@ == old(self)@.update(i as int, None),
            final(self).tag() == old(self).tag(),
    {
        self.slots[i] = None;
    }

    /// Walks this store and `other` in lock-step and collects, in ascending
    /// entity order, every entity present in both, with both components.
    pub fn join(&self, other: &ComponentStore<C>) -> (r: Vec<(usize, C, C)>)
        requires
            self@.len() == other@.len(),
        ensures
            r@ == joined(self@, other@),
    {
        let n = self.slots.len();
        let mut out: Vec<(usize, C, C)> = Vec::new();
        let mut i: usize = 0;
        while i < n
            invariant
                i <= n,
                n == self@.len(),
                n == other@.len(),
                out@ == joined_upto(self@, other@, i as nat),
            decreases n - i,
        {
            match (&self.slots[i], &other.slots[i]) {
                (Some(a), Some(b)) => {
                    out.push((i, *a, *b));
                },
                _ => {},
            }
            i = i + 1;
        }
        out
    }
}

impl<C: Copy> Storage for ComponentStore<C> {
    type Item = C;

    open spec fn slots(&self) -> Seq<Option<C>> {
        self@
    }

    open spec fn type_tag(&self) -> u64 {
        self.tag()
    }

    fn allocate(&mut self) {
        self.slots.push(None);
    }

    fn kind(&self) -> (k: u64) {
        self.kind
    }

    fn holds_kind(&self, kind: u64) -> (b: bool) {
        self.kind == kind
    }
}

} // verus!
