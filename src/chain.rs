//! The arena of links and the handles into it.

use vstd::prelude::*;
use core::marker::PhantomData;
use crate::model::{
    created, discarded, lemma_created_well_linked, lemma_discarded_well_linked,
    lemma_transferred_well_linked, lemma_updated_well_linked, link_ok, transferred, unused_lineage,
    updated, well_linked, Link, LinkId, Links,
};

verus! {

/// A link: the slots of its neighbours, the value where it holds it, and
/// (for the proofs) its chain and position.
struct Node<T> {
    previous: Option<usize>,
    next: Option<usize>,
    data: Option<T>,
    lineage: Ghost<nat>,
    order: Ghost<nat>,
}

/// A slot of the arena; its generation changes each time it is reused.
struct Slot<T> {
    generation: u64,
    node: Option<Node<T>>,
}

/// An arena that owns the links of any number of chains.
pub struct Chain<T> {
    slots: Vec<Slot<T>>,
    free: Vec<usize>,
    lineages: Ghost<nat>,
}

/// A handle on one link of a [`Chain`].
///
/// A handle is ended with [`Pass::discard`]. Dropping it without that call
/// leaves its link in the arena: a value it holds then stays there until the
/// `Chain` itself is dropped, and the link before it never gets it back.
pub struct Pass<T> {
    index: usize,
    generation: u64,
    marker: PhantomData<T>,
}

impl<T> View for Pass<T> {
    type V = LinkId;

    closed spec fn view(&self) -> LinkId {
        (self.index, self.generation)
    }
}

impl<T> Chain<T> {
    spec fn live(&self, i: int) -> bool {
        0 <= i < self.slots@.len() && self.slots@[i].node is Some
    }

    spec fn node(&self, i: int) -> Node<T> {
        self.slots@[i].node.unwrap()
    }

    spec fn id(&self, i: int) -> LinkId {
        (i as usize, self.slots@[i].generation)
    }

    spec fn id_of(&self, i: Option<usize>) -> Option<LinkId> {
        match i {
            Some(j) => Some(self.id(j as int)),
            None => None,
        }
    }

    spec fn link_at(&self, i: int) -> Link<T> {
        let n = self.node(i);
        Link {
            lineage: n.lineage@,
            order: n.order@,
            previous: self.id_of(n.previous),
            next: self.id_of(n.next),
            data: n.data,
        }
    }

    spec fn points_to_bounded(&self, i: Option<usize>) -> bool {
        match i {
            Some(j) => j < self.slots@.len(),
            None => true,
        }
    }

    spec fn points_to_live(&self, i: Option<usize>) -> bool {
        match i {
            Some(j) => self.live(j as int),
            None => true,
        }
    }

    /// How many slots the arena has: live links and vacant slots kept for reuse.
    pub closed spec fn slot_count(&self) -> nat {
        self.slots@.len()
    }

    /// The slot count after one more link is placed: a vacant slot is reused
    /// before the arena grows.
    pub open spec fn slot_count_after_placing(&self) -> nat {
        if self@.len() < self.slot_count() {
            self.slot_count()
        } else {
            self.slot_count() + 1
        }
    }

    /// The arena's bookkeeping is consistent and its links are well linked.
    pub open spec fn wf(&self) -> bool {
        &&& self.internal_wf()
        &&& well_linked(self@)
        &&& self@.dom().finite()
        &&& self@.len() <= self.slot_count()
    }

    /// Links point at live slots, the free list is exact, and every slot is
    /// either live or free.
    pub closed spec fn internal_wf(&self) -> bool {
        &&& self.links_ok()
        &&& self.free_ok()
        &&& self@.dom().finite()
        &&& self@.len() + self.free@.len() == self.slots@.len()
    }

    /// Every link points at live slots, and its chain has been handed out.
    spec fn links_ok(&self) -> bool {
        forall|i: int|
            #[trigger] self.live(i) ==> {
                &&& self.points_to_live(self.node(i).previous)
                &&& self.points_to_live(self.node(i).next)
                &&& self.node(i).lineage@ < self.lineages@
            }
    }

    /// The free list holds each vacant slot once, and nothing else.
    spec fn free_ok(&self) -> bool {
        &&& self.slots@.len() <= usize::MAX
        &&& forall|j: int|
            0 <= j < self.free@.len() ==> {
                &&& (#[trigger] self.free@[j]) < self.slots@.len()
                &&& self.slots@[self.free@[j] as int].node is None
            }
        &&& self.free@.no_duplicates()
        &&& forall|i: usize|
            i < self.slots@.len() && #[trigger] self.slots@[i as int].node is None
                ==> self.free@.contains(i)
    }

    pub fn new() -> (r: Chain<T>)
        ensures
            r.wf(),
            r@ == Map::<LinkId, Link<T>>::empty(),
            r.slot_count() == 0,
    {
        let r = Chain { slots: Vec::new(), free: Vec::new(), lineages: Ghost(0) };
        assert(r@ =~= Map::<LinkId, Link<T>>::empty());
        r
    }

    /// The slot that the next link placed will take.
    spec fn place_spec(&self) -> usize {
        if self.free@.len() > 0 {
            self.free@.last()
        } else {
            self.slots@.len() as usize
        }
    }

    fn next_place(&self) -> (r: usize)
        requires
            self.free_ok(),
        ensures
            r == self.place_spec(),
    {
        if self.free.len() > 0 {
            self.free[self.free.len() - 1]
        } else {
            self.slots.len()
        }
    }

    /// Takes slot `i` out of the arena, leaving a vacant slot of generation
    /// zero in its place until it is written back.
    fn take_slot(&mut self, i: usize) -> (r: Slot<T>)
        requires
            i < old(self).slots@.len(),
        ensures
            r == old(self).slots@[i as int],
            final(self).slots@ == old(self).slots@.update(i as int, Slot { generation: 0, node: None }),
            final(self).free == old(self).free,
            final(self).lineages == old(self).lineages,
    {
        let mut r = Slot { generation: 0, node: None };
        self.slots.set_and_swap(i, &mut r);
        r
    }

    /// Links of slots outside `touched` are the same in `b` as in `a`, where
    /// no such link points at a slot of `touched` whose generation changed.
    proof fn lemma_view_frame(a: Chain<T>, b: Chain<T>, touched: Set<int>)
        requires
            a.links_ok(),
            forall|i: int|
                0 <= i < a.slots@.len() && !touched.contains(i) ==> i < b.slots@.len()
                    && #[trigger] b.slots@[i] == a.slots@[i],
            forall|i: int|
                0 <= i < b.slots@.len() && !touched.contains(i) ==> #[trigger] a.slots@.len() > i,
            forall|i: int, t: int|
                #[trigger] a.live(i) && !touched.contains(i) && #[trigger] touched.contains(t) && (
                a.node(i).previous == Some(t as usize) || a.node(i).next == Some(t as usize))
                    ==> b.slots@[t].generation == a.slots@[t].generation,
        ensures
            forall|k: LinkId|
                !touched.contains(k.0 as int) ==> (#[trigger] b@.contains_key(k)
                    <==> a@.contains_key(k)),
            forall|k: LinkId|
                !touched.contains(k.0 as int) && #[trigger] a@.contains_key(k) ==> b@[k] == a@[k],
    {
        assert forall|k: LinkId|
            !touched.contains(k.0 as int) && #[trigger] a@.contains_key(k) implies b@[k] == a@[k] by {
            let i = k.0 as int;
            assert(b.slots@[i] == a.slots@[i]);
            if let Some(p) = a.node(i).previous {
                assert(a.live(p as int));
                if touched.contains(p as int) {
                    assert(b.slots@[p as int].generation == a.slots@[p as int].generation);
                } else {
                    assert(b.slots@[p as int] == a.slots@[p as int]);
                }
            }
            if let Some(n) = a.node(i).next {
                assert(a.live(n as int));
                if touched.contains(n as int) {
                    assert(b.slots@[n as int].generation == a.slots@[n as int].generation);
                } else {
                    assert(b.slots@[n as int] == a.slots@[n as int]);
                }
            }
            assert(b.link_at(i) == a.link_at(i));
        }
        assert forall|k: LinkId|
            !touched.contains(k.0 as int) implies (#[trigger] b@.contains_key(k)
                <==> a@.contains_key(k)) by {
            let i = k.0 as int;
            if 0 <= i < b.slots@.len() {
                assert(b.slots@[i] == a.slots@[i]);
            }
            if 0 <= i < a.slots@.len() {
                assert(b.slots@[i] == a.slots@[i]);
            }
        }
    }

    fn data_mut(node: &mut Node<T>) -> (r: Option<&mut T>)
        ensures
            r is Some <==> old(node).data is Some,
            r matches Some(v) ==> old(node).data == Some(*v) && *final(node) == (Node {
                data: Some(*final(v)),
                ..*old(node)
            }),
            r is None ==> *final(node) == *old(node),
    {
        node.data.as_mut()
    }

    fn node_mut(slot: &mut Slot<T>) -> (r: Option<&mut Node<T>>)
        ensures
            r is Some <==> old(slot).node is Some,
            r matches Some(n) ==> old(slot).node == Some(*n) && *final(slot) == (Slot {
                node: Some(*final(n)),
                ..*old(slot)
            }),
            r is None ==> *final(slot) == *old(slot),
    {
        slot.node.as_mut()
    }

    fn slot_mut(&mut self, i: usize) -> (r: &mut Slot<T>)
        requires
            i < old(self).slots@.len(),
        ensures
            *r == old(self).slots@[i as int],
            final(self).slots@ == old(self).slots@.update(i as int, *final(r)),
            final(self).free == old(self).free,
            final(self).lineages == old(self).lineages,
    {
        &mut self.slots[i]
    }

    /// Whether the link in slot `i` holds the value.
    fn holds_at(&self, i: usize) -> (r: bool)
        requires
            self.live(i as int),
        ensures
            r == (self.node(i as int).data is Some),
    {
        match &self.slots[i].node {
            Some(node) => node.data.is_some(),
            None => false,
        }
    }

    /// Sets the link before the live link in slot `i`.
    fn relink_previous(&mut self, i: usize, previous: Option<usize>)
        requires
            old(self).live(i as int),
        ensures
            final(self).slots@ == old(self).slots@.update(
                i as int,
                Slot {
                    generation: old(self).slots@[i as int].generation,
                    node: Some(Node { previous, ..old(self).node(i as int) }),
                },
            ),
            final(self).free == old(self).free,
            final(self).lineages == old(self).lineages,
    {
        let slot = self.take_slot(i);
        let generation = slot.generation;
        let node = slot.node.unwrap();
        let Node { next, data, lineage, order, .. } = node;
        self.slots.set(i, Slot { generation, node: Some(Node { previous, next, data, lineage, order }) });
    }

    /// Sets the link after the live link in slot `i`.
    fn relink_next(&mut self, i: usize, next: Option<usize>)
        requires
            old(self).live(i as int),
        ensures
            final(self).slots@ == old(self).slots@.update(
                i as int,
                Slot {
                    generation: old(self).slots@[i as int].generation,
                    node: Some(Node { next, ..old(self).node(i as int) }),
                },
            ),
            final(self).free == old(self).free,
            final(self).lineages == old(self).lineages,
    {
        let slot = self.take_slot(i);
        let generation = slot.generation;
        let node = slot.node.unwrap();
        let Node { previous, data, lineage, order, .. } = node;
        self.slots.set(i, Slot { generation, node: Some(Node { previous, next, data, lineage, order }) });
    }

    /// Gives `v` back to the live link in slot `i`, which becomes the last of
    /// its chain.
    fn give_back(&mut self, i: usize, v: T)
        requires
            old(self).live(i as int),
        ensures
            final(self).slots@ == old(self).slots@.update(
                i as int,
                Slot {
                    generation: old(self).slots@[i as int].generation,
                    node: Some(Node { next: None, data: Some(v), ..old(self).node(i as int) }),
                },
            ),
            final(self).free == old(self).free,
            final(self).lineages == old(self).lineages,
    {
        let slot = self.take_slot(i);
        let generation = slot.generation;
        let node = slot.node.unwrap();
        let Node { previous, lineage, order, .. } = node;
        self.slots.set(
            i,
            Slot { generation, node: Some(Node { previous, next: None, data: Some(v), lineage, order }) },
        );
    }

    /// `c` is this arena with the value of the holding link in slot `i`
    /// replaced.
    spec fn with_value(&self, c: Chain<T>, i: int) -> bool {
        &&& c.slots@ == self.slots@.update(
            i,
            Slot {
                generation: self.slots@[i].generation,
                node: Some(Node { data: c.slots@[i].node.unwrap().data, ..self.node(i) }),
            },
        )
        &&& c.slots@[i].node.unwrap().data is Some
        &&& c.free == self.free
        &&& c.lineages == self.lineages
    }

    spec fn same_content(&self, c: Chain<T>) -> bool {
        &&& c.slots@ == self.slots@
        &&& c.free == self.free
        &&& c.lineages == self.lineages
    }

    proof fn lemma_same_content(&self, c: Chain<T>)
        requires
            self.wf(),
            self.same_content(c),
        ensures
            c.wf(),
            c@ == self@,
            c.slot_count() == self.slot_count(),
    {
        assert(c@ =~= self@);
        assert forall|x: int| #[trigger] c.live(x) implies {
            &&& c.points_to_live(c.node(x).previous)
            &&& c.points_to_live(c.node(x).next)
            &&& c.node(x).lineage@ < c.lineages@
        } by {
            assert(self.live(x));
        }
        assert forall|u: usize|
            u < c.slots@.len() && #[trigger] c.slots@[u as int].node is None implies c.free@.contains(
            u,
        ) by {
            assert(self.slots@[u as int].node is None);
        }
    }

    proof fn lemma_with_value(&self, c: Chain<T>, i: int, v: T)
        requires
            self.wf(),
            self.live(i),
            self.node(i).data is Some,
            self.with_value(c, i),
            c.slots@[i].node.unwrap().data == Some(v),
        ensures
            c.wf(),
            c@ == updated(self@, self.id(i), v),
            c.slot_count() == self.slot_count(),
    {
        assert forall|t: int| 0 <= t < c.slots@.len() implies #[trigger] c.slots@[t].generation
            == self.slots@[t].generation by {}
        Chain::lemma_same_ids(*self, c);
        assert(self@.contains_key(self.id(i)));
        assert forall|key: LinkId| #[trigger] c@.contains_key(key) implies c@[key] == updated(
            self@,
            self.id(i),
            v,
        )[key] by {
            let x = key.0 as int;
            assert(c.link_at(x) == c@[key]);
            assert(self@.contains_key(key));
            assert(self.link_at(x) == self@[key]);
        }
        assert(c@ =~= updated(self@, self.id(i), v));
        lemma_updated_well_linked(self@, self.id(i), v);
        assert forall|x: int| #[trigger] c.live(x) implies {
            &&& c.points_to_live(c.node(x).previous)
            &&& c.points_to_live(c.node(x).next)
            &&& c.node(x).lineage@ < c.lineages@
        } by {
            assert(self.live(x));
        }
        assert forall|u: usize|
            u < c.slots@.len() && #[trigger] c.slots@[u as int].node is None implies c.free@.contains(
            u,
        ) by {
            assert(self.slots@[u as int].node is None);
        }
    }

    /// Where every slot keeps its generation, a handle names the same slot in
    /// `b` as in `a`.
    proof fn lemma_same_ids(a: Chain<T>, b: Chain<T>)
        requires
            a.slots@.len() == b.slots@.len(),
            forall|t: int|
                0 <= t < b.slots@.len() ==> #[trigger] b.slots@[t].generation
                    == a.slots@[t].generation,
        ensures
            forall|t: int| 0 <= t < b.slots@.len() ==> #[trigger] b.id(t) == a.id(t),
            forall|key: LinkId|
                #[trigger] b@.contains_key(key) <==> (b.live(key.0 as int) && a.slots@[key.0 as int].generation
                    == key.1),
    {
    }

    /// The links that the view shows are live slots.
    proof fn lemma_links_ok_from_view(a: Chain<T>)
        requires
            well_linked(a@),
            a.slots@.len() <= usize::MAX,
            forall|i: int| #[trigger] a.live(i) ==> a.node(i).lineage@ < a.lineages@,
            forall|i: int|
                #[trigger] a.live(i) ==> a.points_to_bounded(a.node(i).previous)
                    && a.points_to_bounded(a.node(i).next),
        ensures
            a.links_ok(),
    {
        assert forall|i: int| #[trigger] a.live(i) implies {
            &&& a.points_to_live(a.node(i).previous)
            &&& a.points_to_live(a.node(i).next)
        } by {
            let k = a.id(i);
            assert(a@.contains_key(k));
            assert(link_ok(a@, k));
            assert(a@[k] == a.link_at(i));
            if let Some(t) = a.node(i).previous {
                assert(a@.contains_key(a.id(t as int)));
            }
            if let Some(t) = a.node(i).next {
                assert(a@.contains_key(a.id(t as int)));
            }
        }
    }

    /// Whether `h` is a live handle of this arena; a handle whose slot has
    /// since been reused carries an older generation and is not.
    pub fn contains(&self, h: &Pass<T>) -> (r: bool)
        ensures
            r == self@.contains_key(h@),
    {
        if h.index < self.slots.len() {
            let slot = &self.slots[h.index];
            slot.generation == h.generation && slot.node.is_some()
        } else {
            false
        }
    }

    /// How many live handles the arena holds.
    pub fn len(&self) -> (r: usize)
        requires
            self.wf(),
        ensures
            r == self@.len(),
    {
        self.slots.len() - self.free.len()
    }

    /// How many slots the arena has.
    pub fn capacity(&self) -> (r: usize)
        ensures
            r == self.slot_count(),
    {
        self.slots.len()
    }

    /// Puts `node` in a vacant slot, or in a new one where none is vacant.
    fn place(&mut self, node: Node<T>) -> (r: usize)
        requires
            old(self).free_ok(),
        ensures
            r == old(self).place_spec(),
            r <= old(self).slots@.len(),
            r < old(self).slots@.len() ==> {
                &&& old(self).slots@[r as int].node is None
                &&& old(self).free@.len() > 0
                &&& old(self).free@.last() == r
                &&& final(self).free@ == old(self).free@.drop_last()
                &&& final(self).slots@ == old(self).slots@.update(
                    r as int,
                    Slot {
                        generation: old(self).slots@[r as int].generation.wrapping_add(1),
                        node: Some(node),
                    },
                )
            },
            r == old(self).slots@.len() ==> {
                &&& old(self).free@.len() == 0
                &&& final(self).free@ == old(self).free@
                &&& final(self).slots@ == old(self).slots@.push(
                    Slot { generation: 0, node: Some(node) },
                )
            },
            final(self).lineages == old(self).lineages,
            final(self).free_ok(),
    {
        match self.free.pop() {
            Some(i) => {
                assert(old(self).free@[old(self).free@.len() - 1] == i);
                let generation = self.slots[i].generation.wrapping_add(1);
                self.slots.set(i, Slot { generation, node: Some(node) });
                assert(self.slots@[i as int].node is Some);
                assert forall|v: usize|
                    v < self.slots@.len() && #[trigger] self.slots@[v as int].node is None
                    implies self.free@.contains(v) by {
                    assert(old(self).free@.contains(v));
                    let j = choose|j: int| 0 <= j < old(self).free@.len() && old(self).free@[j] == v;
                    assert(v != i);
                    assert(j != old(self).free@.len() - 1);
                    assert(self.free@[j] == v);
                }
                i
            },
            None => {
                self.slots.push(Slot { generation: 0, node: Some(node) });
                self.slots.len() - 1
            },
        }
    }
}

impl<T> Pass<T> {
    /// Starts a new chain whose one link holds `data`.
    pub fn new(chain: &mut Chain<T>, data: T) -> (r: Pass<T>)
        requires
            old(chain).wf(),
        ensures
            final(chain).wf(),
            !old(chain)@.contains_key(r@),
            unused_lineage(old(chain)@, final(chain)@[r@].lineage),
            final(chain)@ == created(old(chain)@, r@, final(chain)@[r@].lineage, data),
            final(chain).slot_count() == old(chain).slot_count_after_placing(),
    {
        let ghost before = *chain;
        let ghost lineage = chain.lineages@;
        let node = Node {
            previous: None,
            next: None,
            data: Some(data),
            lineage: Ghost(lineage),
            order: Ghost(0),
        };
        let index = chain.place(node);
        chain.lineages = Ghost(lineage + 1);
        let generation = chain.slots[index].generation;
        let r = Pass { index, generation, marker: PhantomData };
        proof {
            assert(!before@.contains_key(r@));
            assert(unused_lineage(before@, lineage));
            lemma_created_well_linked(before@, r@, lineage, data);
            assert forall|i: int| #[trigger] chain.live(i) && i != index implies before.live(i)
                && chain.slots@[i] == before.slots@[i] by {}
            assert forall|i: int| #[trigger] before.live(i) implies chain.live(i) && i != index
                && chain.slots@[i] == before.slots@[i] by {}
            assert forall|k: LinkId| #[trigger] chain@.contains_key(k) && k.0 != index implies
                chain@[k] == before@[k] by {
                assert(before.live(k.0 as int));
                if let Some(p) = before.node(k.0 as int).previous {
                    assert(before.live(p as int));
                }
                if let Some(n) = before.node(k.0 as int).next {
                    assert(before.live(n as int));
                }
            }
            assert(chain@ =~= created(before@, r@, lineage, data));
        }
        r
    }

    /// Starts a new chain whose one link holds the default value of `T`.
    pub fn new_default(chain: &mut Chain<T>) -> (r: Pass<T>) where T: Default
        requires
            old(chain).wf(),
        ensures
            final(chain).wf(),
            !old(chain)@.contains_key(r@),
            unused_lineage(old(chain)@, final(chain)@[r@].lineage),
            final(chain)@ == created(
                old(chain)@,
                r@,
                final(chain)@[r@].lineage,
                final(chain)@[r@].data.unwrap(),
            ),
            call_ensures(T::default, (), final(chain)@[r@].data.unwrap()),
            final(chain).slot_count() == old(chain).slot_count_after_placing(),
    {
        let v = T::default();
        Pass::new(chain, v)
    }

    /// Moves the value forward into a new link that follows this one, and
    /// returns its handle; this handle stays alive, empty. Where this link
    /// holds nothing, nothing changes and the result is `None`.
    pub fn pass(&self, chain: &mut Chain<T>) -> (r: Option<Pass<T>>)
        requires
            old(chain).wf(),
            old(chain)@.contains_key(self@),
        ensures
            final(chain).wf(),
            r is Some <==> old(chain)@[self@].data is Some,
            r matches Some(n) ==> {
                &&& !old(chain)@.contains_key(n@)
                &&& final(chain)@ == transferred(old(chain)@, self@, n@)
                &&& final(chain).slot_count() == old(chain).slot_count_after_placing()
            },
            r is None ==> final(chain)@ == old(chain)@ && final(chain).slot_count() == old(
                chain,
            ).slot_count(),
    {
        let ghost before = *chain;
        let i = self.index;
        proof {
            assert(before.live(i as int));
        }
        if !chain.holds_at(i) {
            return None;
        }
        let j = chain.next_place();
        let slot = chain.take_slot(i);
        let generation = slot.generation;
        let node = slot.node.unwrap();
        let Node { previous, next, data, lineage, order } = node;
        let data = data.unwrap();
        chain.slots.set(
            i,
            Slot {
                generation,
                node: Some(Node { previous, next: Some(j), data: None, lineage, order }),
            },
        );
        proof {
            assert forall|v: usize|
                v < chain.slots@.len() && #[trigger] chain.slots@[v as int].node is None
                implies chain.free@.contains(v) by {
                assert(before.slots@[v as int].node is None);
            }
        }
        let moved = Node {
            previous: Some(i),
            next: None,
            data: Some(data),
            lineage,
            order: Ghost(order@ + 1),
        };
        let placed = chain.place(moved);
        assert(placed == j);
        let r = Pass { index: j, generation: chain.slots[j].generation, marker: PhantomData };
        proof {
            let touched = set![i as int, j as int];
            assert(before.node(i as int).next is None);
            assert forall|x: int, t: int|
                #[trigger] before.live(x) && !touched.contains(x) && #[trigger] touched.contains(t)
                    && (before.node(x).previous == Some(t as usize) || before.node(x).next == Some(
                    t as usize,
                )) implies chain.slots@[t].generation == before.slots@[t].generation by {
                assert(before.live(t));
            }
            Chain::lemma_view_frame(before, *chain, touched);
            assert(!before@.contains_key(r@));
            assert(chain@ =~= transferred(before@, self@, r@));
            lemma_transferred_well_linked(before@, self@, r@);
            assert forall|x: int| #[trigger] chain.live(x) implies {
                &&& chain.points_to_live(chain.node(x).previous)
                &&& chain.points_to_live(chain.node(x).next)
                &&& chain.node(x).lineage@ < chain.lineages@
            } by {
                if x != i && x != j {
                    assert(before.live(x));
                    assert(chain.slots@[x] == before.slots@[x]);
                    if let Some(t) = before.node(x).previous {
                        assert(before.live(t as int));
                    }
                    if let Some(t) = before.node(x).next {
                        assert(before.live(t as int));
                    }
                }
            }
        }
        Some(r)
    }

    /// Ends this handle. A held value goes back to the nearest living link
    /// before this one, or is dropped where there is none; an empty link is
    /// spliced out of its chain, its neighbours linked to each other.
    ///
    /// This is the only way a link leaves the arena: a handle dropped without
    /// it leaves its link, and any value it holds, in place until the `Chain`
    /// is dropped.
    pub fn discard(self, chain: &mut Chain<T>)
        requires
            old(chain).wf(),
            old(chain)@.contains_key(self@),
        ensures
            final(chain).wf(),
            final(chain)@ == discarded(old(chain)@, self@),
            final(chain).slot_count() == old(chain).slot_count(),
    {
        let ghost before = *chain;
        let i = self.index;
        proof {
            assert(before.live(i as int));
            assert(link_ok(before@, self@));
        }
        let slot = chain.take_slot(i);
        let node = slot.node.unwrap();
        let Node { previous, next, data, .. } = node;
        chain.slots.set(i, Slot { generation: slot.generation, node: None });
        chain.free.push(i);
        proof {
            assert(before.points_to_live(previous) && before.points_to_live(next));
        }
        match data {
            Some(v) => {
                match previous {
                    Some(p) => {
                        chain.give_back(p, v);
                    },
                    None => {},
                }
            },
            None => {
                let n = next.unwrap();
                chain.relink_previous(n, previous);
                match previous {
                    Some(p) => {
                        chain.relink_next(p, Some(n));
                    },
                    None => {},
                }
            },
        }
        proof {
            let m = before@;
            assert forall|t: int| 0 <= t < chain.slots@.len() implies #[trigger] chain.slots@[t].generation
                == before.slots@[t].generation by {}
            Chain::lemma_same_ids(before, *chain);
            assert forall|key: LinkId| #[trigger] chain@.contains_key(key) implies chain@[key]
                == discarded(m, self@)[key] by {
                let x = key.0 as int;
                assert(chain.link_at(x) == chain@[key]);
                assert(before@.contains_key(key));
                assert(before.link_at(x) == before@[key]);
            }
            assert(chain@ =~= discarded(m, self@));
            lemma_discarded_well_linked(m, self@);
            assert forall|x: int| #[trigger] chain.live(x) implies chain.node(x).lineage@
                < chain.lineages@ && chain.points_to_bounded(chain.node(x).previous)
                && chain.points_to_bounded(chain.node(x).next) by {
                assert(before.live(x));
            }
            Chain::lemma_links_ok_from_view(*chain);
            assert forall|v: usize|
                v < chain.slots@.len() && #[trigger] chain.slots@[v as int].node is None
                implies chain.free@.contains(v) by {
                if v != i {
                    assert(before.slots@[v as int].node is None);
                    assert(before.free@.contains(v));
                    let j = choose|j: int| 0 <= j < before.free@.len() && before.free@[j] == v;
                    assert(chain.free@[j] == v);
                } else {
                    assert(chain.free@[chain.free@.len() - 1] == i);
                }
            }
            assert(chain.free@.no_duplicates()) by {
                assert(!before.free@.contains(i)) by {
                    if before.free@.contains(i) {
                        let j = choose|j: int| 0 <= j < before.free@.len() && before.free@[j] == i;
                        assert(before.slots@[before.free@[j] as int].node is None);
                    }
                }
            }
        }
    }

    /// The value, where this link holds it.
    pub fn deref<'a>(&self, chain: &'a Chain<T>) -> (r: Option<&'a T>)
        requires
            chain@.contains_key(self@),
        ensures
            r is Some <==> chain@[self@].data is Some,
            r matches Some(v) ==> chain@[self@].data == Some(*v),
    {
        proof {
            assert(chain.live(self.index as int));
        }
        match &chain.slots[self.index].node {
            Some(node) => node.data.as_ref(),
            None => None,
        }
    }

    /// The value for writing, where this link holds it.
    pub fn deref_mut<'a>(&self, chain: &'a mut Chain<T>) -> (r: Option<&'a mut T>)
        requires
            old(chain).wf(),
            old(chain)@.contains_key(self@),
        ensures
            r is Some <==> old(chain)@[self@].data is Some,
            r matches Some(v) ==> {
                &&& old(chain)@[self@].data == Some(*v)
                &&& final(chain).wf()
                &&& final(chain)@ == updated(old(chain)@, self@, *final(v))
                &&& final(chain).slot_count() == old(chain).slot_count()
            },
            r is None ==> {
                &&& final(chain).wf()
                &&& final(chain)@ == old(chain)@
                &&& final(chain).slot_count() == old(chain).slot_count()
            },
    {
        let i = self.index;
        proof {
            assert(chain.live(i as int));
            assert(chain.slots@.update(i as int, chain.slots@[i as int]) =~= chain.slots@);
            assert forall|c: Chain<T>| #[trigger] c.wf() <== (chain.node(i as int).data is Some
                && chain.with_value(c, i as int)) || chain.same_content(c) by {
                if chain.same_content(c) {
                    chain.lemma_same_content(c);
                } else if chain.node(i as int).data is Some && chain.with_value(c, i as int) {
                    chain.lemma_with_value(c, i as int, c.slots@[i as int].node.unwrap().data.unwrap());
                }
            }
            assert forall|c: Chain<T>|
                chain.node(i as int).data is Some && chain.with_value(c, i as int) implies #[trigger] c@
                == updated(chain@, self@, c.slots@[i as int].node.unwrap().data.unwrap())
                && c.slot_count() == chain.slot_count() by {
                chain.lemma_with_value(c, i as int, c.slots@[i as int].node.unwrap().data.unwrap());
            }
            assert forall|c: Chain<T>| chain.same_content(c) implies #[trigger] c@ == chain@
                && c.slot_count() == chain.slot_count() by {
                chain.lemma_same_content(c);
            }
        }
        let slot = chain.slot_mut(i);
        let node = Chain::node_mut(slot).unwrap();
        Chain::data_mut(node)
    }
}

impl<T> View for Chain<T> {
    type V = Links<T>;

    closed spec fn view(&self) -> Links<T> {
        Map::new(
            |k: LinkId| self.live(k.0 as int) && self.slots@[k.0 as int].generation == k.1,
            |k: LinkId| self.link_at(k.0 as int),
        )
    }
}

} // verus!
