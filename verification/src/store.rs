//! The packed store of one component type. Components lie in a dense array;
//! an intrusive chain through the array keeps the order of insertion, so that
//! removal can swap the last slot into the hole without changing what
//! iteration yields.

use crate::component::Component;
use crate::component::ComponentCollection;
use crate::meta::entity_of;
use crate::meta::get_bits;
use crate::meta::lemma_field_bounds;
use crate::meta::lemma_fits;
use crate::meta::lemma_next_replaced;
use crate::meta::lemma_packed;
use crate::meta::next_of;
use crate::meta::active_of;
use crate::meta::packed;
use crate::meta::set_bits;
use crate::meta::ACTIVE_HI;
use crate::meta::ACTIVE_LO;
use crate::meta::ENTITY_HI;
use crate::meta::ENTITY_LIMIT;
use crate::meta::ENTITY_LO;
use crate::meta::NEXT_HI;
use crate::meta::NEXT_LIMIT;
use crate::meta::NEXT_LO;
use vstd::prelude::*;

verus! {

/// A component together with its meta word.
pub struct ComponentWrapper<D: Component> {
    component: D,
    meta: u64,
}

impl<D: Component> ComponentWrapper<D> {
    /// The entity this component belongs to.
    pub closed spec fn entity(&self) -> u64 {
        entity_of(self.meta)
    }

    /// The array index of the component that follows this one in the chain.
    pub closed spec fn next(&self) -> u64 {
        next_of(self.meta)
    }

    /// Whether the component is switched on.
    pub closed spec fn active(&self) -> bool {
        active_of(self.meta)
    }

    /// The component itself.
    pub closed spec fn value(&self) -> D {
        self.component
    }

    /// Wraps a component and packs its meta word.
    pub fn new(component: D, entity_id: u64, next: u64, active: bool) -> (w: Self)
        requires
            entity_id < ENTITY_LIMIT,
            next < NEXT_LIMIT,
        ensures
            w.entity() == entity_id,
            w.next() == next,
            w.active() == active,
            w.value() == component,
    {
        let flag: u64 = if active { 1 } else { 0 };
        proof {
            lemma_fits(entity_id, next, flag);
            lemma_packed(entity_id, next, active);
        }
        let with_entity = set_bits(0, ENTITY_LO, ENTITY_HI, entity_id);
        let with_next = set_bits(with_entity, NEXT_LO, NEXT_HI, next);
        let meta = set_bits(with_next, ACTIVE_LO, ACTIVE_HI, flag);
        assert(meta == packed(entity_id, next, active));
        ComponentWrapper { component, meta }
    }

    /// Points this component at another successor.
    pub fn set_next(&mut self, next: u64)
        requires
            next < NEXT_LIMIT,
        ensures
            final(self).next() == next,
            final(self).entity() == old(self).entity(),
            final(self).active() == old(self).active(),
            final(self).value() == old(self).value(),
    {
        proof {
            lemma_fits(0, next, 0);
            lemma_next_replaced(self.meta, next);
        }
        self.meta = set_bits(self.meta, NEXT_LO, NEXT_HI, next);
    }

    /// The array index of the successor.
    pub fn get_next(&self) -> (r: u64)
        ensures
            r == self.next(),
            r < NEXT_LIMIT,
    {
        proof {
            lemma_field_bounds(self.meta);
        }
        get_bits(self.meta, NEXT_LO, NEXT_HI)
    }

    /// The entity this component belongs to.
    pub fn get_entity(&self) -> (r: u64)
        ensures
            r == self.entity(),
            r < ENTITY_LIMIT,
    {
        proof {
            lemma_field_bounds(self.meta);
        }
        get_bits(self.meta, ENTITY_LO, ENTITY_HI)
    }

    /// The component itself.
    pub fn component(&self) -> (r: &D)
        ensures
            *r == self.value(),
    {
        &self.component
    }
}

/// Whether some element of `s` belongs to the entity `id`.
pub open spec fn holds<D>(s: Seq<(u64, D)>, id: u64) -> bool {
    exists|i: int| 0 <= i < s.len() && (#[trigger] s[i]).0 == id
}

/// A position of `s` whose element belongs to the entity `id`.
pub open spec fn slot_of<D>(s: Seq<(u64, D)>, id: u64) -> int {
    choose|i: int| 0 <= i < s.len() && (#[trigger] s[i]).0 == id
}

/// `s` without the element of the entity `id`; `s` itself where there is none.
pub open spec fn without<D>(s: Seq<(u64, D)>, id: u64) -> Seq<(u64, D)> {
    if holds(s, id) {
        s.remove(slot_of(s, id))
    } else {
        s
    }
}

/// Whether the entity ids of `s` grow strictly from each element to the next.
pub open spec fn ascending<D>(s: Seq<(u64, D)>) -> bool {
    forall|i: int, j: int| 0 <= i < j < s.len() ==> (#[trigger] s[i]).0 < (#[trigger] s[j]).0
}

/// Whether every id of `s` is below `id`.
pub open spec fn all_below<D>(s: Seq<(u64, D)>, id: u64) -> bool {
    forall|i: int| 0 <= i < s.len() ==> (#[trigger] s[i]).0 < id
}

/// A dense array after swap-removal at `p`: the last element takes the place
/// of the one at `p`, and the array is one shorter.
pub open spec fn swap_removed<T>(s: Seq<T>, p: int) -> Seq<T> {
    s.update(p, s.last()).drop_last()
}

/// `s` after the entity `id` left by swap-removal; `s` itself where no slot
/// holds `id`.
pub open spec fn layout_without(s: Seq<u64>, id: u64) -> Seq<u64> {
    if s.contains(id) {
        swap_removed(s, s.index_of(id))
    } else {
        s
    }
}

/// The store of one component type.
pub struct ComponentVector<D: Component> {
    components: Vec<ComponentWrapper<D>>,
    head: usize,
    tail: usize,
    order: Ghost<Seq<int>>,
    place: Ghost<Seq<int>>,
}

impl<D: Component> ComponentCollection for ComponentVector<D> {

}

/// Whether `order` lists array indices of `c` that the successor fields link
/// from `head` to `tail`, where the links end with 0, with growing entity
/// ids, each component active.
#[verifier::opaque]
spec fn chained<D: Component>(
    c: Seq<ComponentWrapper<D>>,
    order: Seq<int>,
    head: usize,
    tail: usize,
) -> bool {
    &&& forall|i: int| 0 <= i < order.len() ==> 0 <= #[trigger] order[i] < c.len()
    &&& order.len() > 0 ==> head == order[0] && tail == order.last()
    &&& forall|i: int|
        0 <= i < order.len() - 1 ==> c[#[trigger] order[i]].next() == order[i + 1]
    &&& forall|i: int| 0 <= i < order.len() ==> c[#[trigger] order[i]].active()
    &&& order.len() > 0 ==> c[order.last()].next() == 0
    &&& forall|i: int, j: int|
        0 <= i < j < order.len() ==> c[#[trigger] order[i]].entity() < c[#[trigger] order[j]].entity()
}

/// Whether `place` gives, for each array index, its position in `order`.
#[verifier::opaque]
spec fn inverse(order: Seq<int>, place: Seq<int>) -> bool {
    &&& place.len() == order.len()
    &&& forall|p: int|
        0 <= p < place.len() ==> 0 <= #[trigger] place[p] < order.len() && order[place[p]] == p
}

/// Whether `b` is `a` with the successor of the slot `at` set to `to`.
spec fn relinked<D: Component>(
    a: Seq<ComponentWrapper<D>>,
    b: Seq<ComponentWrapper<D>>,
    at: int,
    to: int,
) -> bool {
    &&& b.len() == a.len()
    &&& 0 <= at < a.len()
    &&& forall|p: int| 0 <= p < a.len() && p != at ==> #[trigger] b[p] == a[p]
    &&& b[at].entity() == a[at].entity()
    &&& b[at].value() == a[at].value()
    &&& b[at].active() == a[at].active()
    &&& b[at].next() == to
}

/// `order` with the index `from` renamed to `to`.
spec fn renamed(order: Seq<int>, from: int, to: int) -> Seq<int> {
    Seq::new(
        order.len(),
        |k: int|
            if order[k] == from {
                to
            } else {
                order[k]
            },
    )
}

/// No two positions of a chain name one slot.
proof fn lemma_chain_distinct<D: Component>(
    c: Seq<ComponentWrapper<D>>,
    order: Seq<int>,
    head: usize,
    tail: usize,
)
    requires
        chained(c, order, head, tail),
    ensures
        forall|i: int, j: int|
            0 <= i < order.len() && 0 <= j < order.len() && i != j ==> #[trigger] order[i]
                != #[trigger] order[j],
{
    reveal(chained);
    assert forall|i: int, j: int|
        0 <= i < order.len() && 0 <= j < order.len() && i != j implies #[trigger] order[i]
        != #[trigger] order[j] by {
        if i < j {
            assert(c[order[i]].entity() < c[order[j]].entity());
        } else {
            assert(c[order[j]].entity() < c[order[i]].entity());
        }
    }
}

/// Taking position `i` out of a chain: its predecessor is pointed at its
/// successor, and head and tail move off it.
proof fn lemma_unlinked<D: Component>(
    c0: Seq<ComponentWrapper<D>>,
    c1: Seq<ComponentWrapper<D>>,
    order0: Seq<int>,
    head0: usize,
    tail0: usize,
    head1: usize,
    tail1: usize,
    i: int,
)
    requires
        chained(c0, order0, head0, tail0),
        0 <= i < order0.len(),
        i > 0 ==> relinked(
            c0,
            c1,
            order0[i - 1],
            if i + 1 < order0.len() {
                order0[i + 1]
            } else {
                0
            },
        ),
        i == 0 ==> c1 == c0,
        head1 == (if i > 0 {
            head0 as int
        } else if i + 1 < order0.len() {
            order0[1]
        } else {
            0
        }),
        tail1 == (if i + 1 < order0.len() {
            tail0 as int
        } else if i > 0 {
            order0[i - 1]
        } else {
            0
        }),
    ensures
        chained(c1, order0.remove(i), head1, tail1),
        c1.len() == c0.len(),
        forall|p: int|
            0 <= p < c0.len() ==> (#[trigger] c1[p]).entity() == c0[p].entity() && c1[p].value()
                == c0[p].value(),
{
    reveal(chained);
    let order1 = order0.remove(i);
    let n = order0.len();
    lemma_chain_distinct(c0, order0, head0, tail0);
    assert forall|k: int| 0 <= k < n - 1 implies #[trigger] order1[k] == order0[if k < i {
        k
    } else {
        k + 1
    }] by {}
    assert forall|p: int| 0 <= p < c0.len() implies (#[trigger] c1[p]).entity() == c0[p].entity()
        && c1[p].value() == c0[p].value() by {}
    assert forall|k: int| 0 <= k < order1.len() - 1 implies c1[#[trigger] order1[k]].next()
        == order1[k + 1] by {
        if k < i - 1 {
            assert(order1[k] == order0[k]);
            assert(order0[k] != order0[i - 1]);
            assert(c0[order0[k]].next() == order0[k + 1]);
        } else if k == i - 1 {
            assert(order1[k] == order0[i - 1]);
            assert(order1[k + 1] == order0[i + 1]);
        } else {
            assert(order1[k] == order0[k + 1]);
            assert(i > 0 ==> order0[k + 1] != order0[i - 1]);
            assert(c0[order0[k + 1]].next() == order0[k + 2]);
        }
    }
    assert forall|a: int, b: int| 0 <= a < b < order1.len() implies c1[#[trigger] order1[a]].entity()
        < c1[#[trigger] order1[b]].entity() by {
        let a0 = if a < i { a } else { a + 1 };
        let b0 = if b < i { b } else { b + 1 };
        assert(c0[order0[a0]].entity() < c0[order0[b0]].entity());
    }
    assert forall|k: int| 0 <= k < order1.len() implies 0 <= #[trigger] order1[k] < c1.len()
        && c1[order1[k]].active() by {
        let k0 = if k < i { k } else { k + 1 };
        assert(0 <= order0[k0] < c0.len());
        assert(c0[order0[k0]].active());
        assert(c1[order0[k0]].active() == c0[order0[k0]].active());
    }
    if order1.len() > 0 {
        assert(order1[0] == order0[if 0 < i { 0int } else { 1int }]);
        assert(order1[n - 2] == order0[if n - 2 < i { n - 2 } else { n - 1 }]);
        if i + 1 < n {
            assert(order0.last() == order0[n - 1]);
            if i > 0 {
                assert(order0[n - 1] != order0[i - 1]);
            }
            assert(c1[order0[n - 1]].next() == c0[order0[n - 1]].next());
        }
        assert(c1[order1.last()].next() == 0);
    }
}

/// Moving the last slot of the array into the slot `cur`, which the chain no
/// longer passes: whatever pointed at the last slot is pointed at `cur`.
proof fn lemma_relocated<D: Component>(
    c1: Seq<ComponentWrapper<D>>,
    c2: Seq<ComponentWrapper<D>>,
    c3: Seq<ComponentWrapper<D>>,
    order1: Seq<int>,
    head1: usize,
    tail1: usize,
    head2: usize,
    tail2: usize,
    cur: int,
    q: int,
)
    requires
        chained(c1, order1, head1, tail1),
        c1.len() >= 1,
        order1.len() == c1.len() - 1,
        0 <= cur < c1.len(),
        forall|k: int| 0 <= k < order1.len() ==> #[trigger] order1[k] != cur,
        cur != c1.len() - 1 ==> {
            &&& 0 <= q < order1.len()
            &&& order1[q] == c1.len() - 1
            &&& q > 0 ==> relinked(c1, c2, order1[q - 1], cur)
            &&& q == 0 ==> c2 == c1
            &&& head2 == (if q == 0 {
                cur
            } else {
                head1 as int
            })
            &&& tail2 == (if tail1 == c1.len() - 1 {
                cur
            } else {
                tail1 as int
            })
        },
        cur == c1.len() - 1 ==> c2 == c1 && head2 == head1 && tail2 == tail1,
        c3 == swap_removed(c2, cur),
    ensures
        chained(c3, renamed(order1, c1.len() - 1, cur), head2, tail2),
        forall|k: int|
            0 <= k < order1.len() ==> (#[trigger] c3[renamed(order1, c1.len() - 1, cur)[k]]).entity()
                == c1[order1[k]].entity() && c3[renamed(order1, c1.len() - 1, cur)[k]].value()
                == c1[order1[k]].value(),
        forall|p: int|
            0 <= p < c3.len() ==> (#[trigger] c3[p]).entity() == (if p == cur {
                c1[c1.len() - 1].entity()
            } else {
                c1[p].entity()
            }),
{
    reveal(chained);
    let n = c1.len() as int;
    let last = n - 1;
    let order2 = renamed(order1, last, cur);
    lemma_chain_distinct(c1, order1, head1, tail1);
    assert(c2.len() == n);
    assert forall|p: int| 0 <= p < n implies (#[trigger] c2[p]).entity() == c1[p].entity()
        && c2[p].value() == c1[p].value() by {}
    assert forall|k: int| 0 <= k < n - 1 implies (#[trigger] c3[order2[k]]) == c2[order1[k]] && 0
        <= order2[k] < n - 1 by {
        assert(order1[k] != cur);
        assert(0 <= order1[k] < n);
    }
    assert forall|k: int| 0 <= k < order2.len() - 1 implies c3[#[trigger] order2[k]].next()
        == order2[k + 1] by {
        assert(c3[order2[k]] == c2[order1[k]]);
        assert(c1[order1[k]].next() == order1[k + 1]);
        if cur != last && k == q - 1 {
            assert(order1[k + 1] == last);
        } else {
            if cur != last {
                assert(order1[k + 1] != order1[q]);
                if q > 0 {
                    assert(order1[k] != order1[q - 1]);
                }
            } else {
                assert(order1[k + 1] != cur);
            }
            assert(order1[k + 1] != last);
            assert(c2[order1[k]] == c1[order1[k]]);
        }
    }
    assert forall|a: int, b: int| 0 <= a < b < order2.len() implies c3[#[trigger] order2[a]].entity()
        < c3[#[trigger] order2[b]].entity() by {
        assert(c3[order2[a]] == c2[order1[a]]);
        assert(c3[order2[b]] == c2[order1[b]]);
        assert(c1[order1[a]].entity() < c1[order1[b]].entity());
    }
    if order2.len() > 0 {
        assert(order1.last() == order1[n - 2]);
        if cur != last {
            if q != n - 2 {
                assert(order1[n - 2] != order1[q]);
            }
            if q != 0 {
                assert(order1[0] != order1[q]);
            }
        } else {
            assert(order1[0] != cur);
            assert(order1[n - 2] != cur);
        }
        assert(head2 == order2[0]);
        assert(tail2 == order2.last());
        assert(c3[order2[n - 2]] == c2[order1[n - 2]]);
        if cur != last && q > 0 {
            assert(order1[n - 2] != order1[q - 1]);
        }
        assert(c2[order1[n - 2]].next() == c1[order1[n - 2]].next());
        assert(c3[order2.last()].next() == 0);
    }
    assert forall|k: int| 0 <= k < order1.len() implies (#[trigger] c3[order2[k]]).entity()
        == c1[order1[k]].entity() && c3[order2[k]].value() == c1[order1[k]].value() by {
        assert(c3[order2[k]] == c2[order1[k]]);
    }
    assert forall|k: int| 0 <= k < order2.len() implies c3[#[trigger] order2[k]].active() by {
        assert(c3[order2[k]] == c2[order1[k]]);
        assert(c1[order1[k]].active());
        assert(c2[order1[k]].active() == c1[order1[k]].active());
    }
}

/// What a chain says of its position `k`.
proof fn lemma_link<D: Component>(
    c: Seq<ComponentWrapper<D>>,
    order: Seq<int>,
    head: usize,
    tail: usize,
    k: int,
)
    requires
        chained(c, order, head, tail),
        0 <= k < order.len(),
    ensures
        0 <= order[k] < c.len(),
        c[order[k]].active(),
        k == 0 ==> head == order[0],
        k == order.len() - 1 ==> tail == order[k] && c[order[k]].next() == 0,
        k + 1 < order.len() ==> c[order[k]].next() == order[k + 1],
{
    reveal(chained);
}

/// The positions of the slots after position `i` left the chain and the
/// last slot was renamed to `cur`.
proof fn lemma_places(
    order0: Seq<int>,
    place0: Seq<int>,
    i: int,
    cur: int,
    q: int,
) -> (place2: Seq<int>)
    requires
        inverse(order0, place0),
        order0.len() >= 1,
        0 <= i < order0.len(),
        order0[i] == cur,
        0 <= cur < order0.len(),
        forall|k: int| 0 <= k < order0.len() ==> 0 <= #[trigger] order0[k] < order0.len(),
        cur != order0.len() - 1 ==> 0 <= q < order0.len() - 1 && order0.remove(i)[q]
            == order0.len() - 1,
    ensures
        inverse(renamed(order0.remove(i), order0.len() - 1, cur), place2),
{
    reveal(inverse);
    let n = order0.len() as int;
    let order1 = order0.remove(i);
    let order2 = renamed(order1, n - 1, cur);
    let place2 = Seq::new(
        (n - 1) as nat,
        |p: int|
            if p == cur {
                q
            } else if place0[p] < i {
                place0[p]
            } else {
                place0[p] - 1
            },
    );
    assert forall|p: int| 0 <= p < place2.len() implies 0 <= #[trigger] place2[p] < order2.len()
        && order2[place2[p]] == p by {
        if p != cur {
            assert(order0[place0[p]] == p);
            assert(place0[p] != i);
            let z = if place0[p] < i {
                place0[p]
            } else {
                place0[p] - 1
            };
            assert(order1[z] == p);
        }
    }
    place2
}

impl<D: Component> View for ComponentVector<D> {
    type V = Seq<(u64, D)>;

    /// The entity ids and components in the order of iteration.
    closed spec fn view(&self) -> Seq<(u64, D)> {
        Seq::new(
            self.components@.len(),
            |i: int|
                (
                    self.components@[self.order@[i]].entity(),
                    self.components@[self.order@[i]].value(),
                ),
        )
    }
}

impl<D: Component> ComponentVector<D> {
    /// The entity ids in the order of the array slots.
    pub closed spec fn layout(&self) -> Seq<u64> {
        Seq::new(self.components@.len(), |p: int| self.components@[p].entity())
    }

    /// The array index that the chain reaches after `k` steps from the head.
    pub closed spec fn walk(&self, k: nat) -> int
        decreases k,
    {
        if k == 0 {
            self.head as int
        } else {
            let at = self.walk((k - 1) as nat);
            if 0 <= at < self.components@.len() {
                self.components@[at].next() as int
            } else {
                0
            }
        }
    }

    /// Whether the chain reaches the slot `p` within as many steps as the
    /// store has components.
    pub open spec fn reaches(&self, p: int) -> bool {
        exists|k: nat| k < self@.len() && #[trigger] self.walk(k) == p
    }

    /// Whether the component in the slot `p` is active.
    pub closed spec fn live(&self, p: int) -> bool {
        self.components@[p].active()
    }

    /// The array index of the newest component.
    pub closed spec fn last_index(&self) -> int {
        self.tail as int
    }

    /// The store's invariant: the chain starts at the head, passes through
    /// every slot once, ends at the tail, and sees growing entity ids and
    /// active components only; head and tail of an empty store are 0.
    pub closed spec fn wf(&self) -> bool {
        &&& self.components@.len() <= NEXT_LIMIT
        &&& self.components@.len() == 0 ==> self.head == 0 && self.tail == 0
        &&& self.order@.len() == self.components@.len()
        &&& chained(self.components@, self.order@, self.head, self.tail)
        &&& inverse(self.order@, self.place@)
    }

    /// An empty store.
    pub fn new() -> (s: Self)
        ensures
            s.wf(),
            s@ == Seq::<(u64, D)>::empty(),
            s.layout() == Seq::<u64>::empty(),
    {
        let s = ComponentVector {
            components: Vec::new(),
            head: 0,
            tail: 0,
            order: Ghost(Seq::empty()),
            place: Ghost(Seq::empty()),
        };
        proof {
            reveal(chained);
            reveal(inverse);
        }
        assert(s@ =~= Seq::<(u64, D)>::empty());
        assert(s.layout() =~= Seq::<u64>::empty());
        s
    }

    /// The number of components in the store.
    pub fn len(&self) -> (n: usize)
        ensures
            n == self@.len(),
            n == self.layout().len(),
    {
        self.components.len()
    }

    /// In a well-formed store two chain positions never name one slot, and
    /// two slots never hold one entity.
    proof fn lemma_distinct(&self)
        requires
            self.wf(),
        ensures
            forall|i: int, j: int|
                0 <= i < self.order@.len() && 0 <= j < self.order@.len() && i != j
                    ==> #[trigger] self.order@[i] != #[trigger] self.order@[j],
            forall|p: int, q: int|
                0 <= p < self.components@.len() && 0 <= q < self.components@.len() && p != q
                    ==> #[trigger] self.components@[p].entity()
                    != #[trigger] self.components@[q].entity(),
            forall|i: int|
                0 <= i < self.order@.len() ==> #[trigger] self.place@[self.order@[i]] == i,
    {
        reveal(chained);
        reveal(inverse);
        let c = self.components@;
        let order = self.order@;
        let place = self.place@;
        assert forall|i: int, j: int|
            0 <= i < order.len() && 0 <= j < order.len() && i != j implies #[trigger] order[i]
            != #[trigger] order[j] by {
            if i < j {
                assert(c[order[i]].entity() < c[order[j]].entity());
            } else {
                assert(c[order[j]].entity() < c[order[i]].entity());
            }
        }
        assert forall|p: int, q: int|
            0 <= p < c.len() && 0 <= q < c.len() && p != q implies #[trigger] c[p].entity()
            != #[trigger] c[q].entity() by {
            let i = place[p];
            let j = place[q];
            assert(order[i] == p && order[j] == q);
            if i < j {
                assert(c[order[i]].entity() < c[order[j]].entity());
            } else {
                assert(c[order[j]].entity() < c[order[i]].entity());
            }
        }
        assert forall|i: int| 0 <= i < order.len() implies #[trigger] place[order[i]] == i by {
            let p = order[i];
            let k = place[p];
            assert(order[k] == p);
        }
    }

    /// Walks the chain to the component of the entity `entity_id`: its chain
    /// position, the slot before it in the chain, and its own slot.
    fn locate(&self, entity_id: u64) -> (r: Option<(usize, usize, usize)>)
        requires
            self.wf(),
        ensures
            match r {
                Some((i, prev, cur)) => {
                    &&& i < self.order@.len()
                    &&& cur == self.order@[i as int]
                    &&& self.components@[cur as int].entity() == entity_id
                    &&& i > 0 ==> prev == self.order@[i - 1]
                },
                None => forall|k: int|
                    0 <= k < self.order@.len() ==> self.components@[#[trigger] self.order@[k]].entity()
                        != entity_id,
            },
    {
        let n = self.components.len();
        let ghost c0 = self.components@;
        let ghost order0 = self.order@;
        let mut i: usize = 0;
        let mut prev: usize = 0;
        let mut cur: usize = self.head;
        proof {
            if n > 0 {
                lemma_link(c0, order0, self.head, self.tail, 0);
            }
        }
        while i < n
            invariant
                chained(c0, order0, self.head, self.tail),
                n == c0.len(),
                n == order0.len(),
                c0 == self.components@,
                order0 == self.order@,
                i <= n,
                i < n ==> cur == order0[i as int] && cur < n,
                i > 0 ==> prev == order0[i - 1] && prev < n,
                forall|k: int| 0 <= k < i ==> c0[#[trigger] order0[k]].entity() != entity_id,
            decreases n - i,
        {
            if self.components[cur].get_entity() == entity_id {
                return Some((i, prev, cur));
            }
            proof {
                lemma_link(c0, order0, self.head, self.tail, i as int);
                if i + 1 < n {
                    lemma_link(c0, order0, self.head, self.tail, i + 1);
                }
            }
            prev = cur;
            i = i + 1;
            if i < n {
                cur = self.components[cur].get_next() as usize;
            }
        }
        None
    }

    /// Takes chain position `i` out of the chain; the array keeps its slots.
    fn unlink(&mut self, i: usize, prev: usize, cur: usize)
        requires
            old(self).wf(),
            i < old(self).order@.len(),
            cur == old(self).order@[i as int],
            i > 0 ==> prev == old(self).order@[i - 1],
        ensures
            chained(
                final(self).components@,
                old(self).order@.remove(i as int),
                final(self).head,
                final(self).tail,
            ),
            final(self).components@.len() == old(self).components@.len(),
            final(self).order == old(self).order,
            final(self).place == old(self).place,
            old(self).order@.len() == 1 ==> final(self).head == 0 && final(self).tail == 0,
            forall|p: int|
                0 <= p < old(self).components@.len() ==> {
                    &&& (#[trigger] final(self).components@[p]).entity()
                        == old(self).components@[p].entity()
                    &&& final(self).components@[p].value() == old(self).components@[p].value()
                },
    {
        let n = self.components.len();
        let ghost c0 = self.components@;
        let ghost order0 = self.order@;
        let ghost head0 = self.head;
        let ghost tail0 = self.tail;
        let has_next = i + 1 < n;
        proof {
            lemma_link(c0, order0, head0, tail0, i as int);
            if has_next {
                lemma_link(c0, order0, head0, tail0, i + 1);
            }
            if i > 0 {
                lemma_link(c0, order0, head0, tail0, i - 1);
            }
        }
        let next: usize = if has_next {
            self.components[cur].get_next() as usize
        } else {
            0
        };
        if i > 0 {
            self.components[prev].set_next(next as u64);
        } else {
            self.head = next;
        }
        if !has_next {
            self.tail = if i > 0 {
                prev
            } else {
                0
            };
        }
        proof {
            let c1 = self.components@;
            assert(i > 0 ==> relinked(c0, c1, prev as int, next as int));
            lemma_unlinked(c0, c1, order0, head0, tail0, self.head, self.tail, i as int);
        }
    }

    /// Moves the last slot of the array into the slot `cur`, which the chain
    /// `chain` does not pass, and drops the last slot.
    fn relocate(&mut self, cur: usize, Ghost(chain): Ghost<Seq<int>>) -> (q: Ghost<int>)
        requires
            chained(old(self).components@, chain, old(self).head, old(self).tail),
            old(self).components@.len() >= 1,
            old(self).components@.len() <= NEXT_LIMIT,
            chain.len() == old(self).components@.len() - 1,
            cur < old(self).components@.len(),
            forall|k: int| 0 <= k < chain.len() ==> #[trigger] chain[k] != cur,
            cur != old(self).components@.len() - 1 ==> exists|k: int|
                0 <= k < chain.len() && #[trigger] chain[k] == old(self).components@.len() - 1,
        ensures
            chained(
                final(self).components@,
                renamed(chain, old(self).components@.len() - 1, cur as int),
                final(self).head,
                final(self).tail,
            ),
            final(self).components@.len() == old(self).components@.len() - 1,
            final(self).order == old(self).order,
            final(self).place == old(self).place,
            cur == old(self).components@.len() - 1 ==> {
                &&& final(self).head == old(self).head
                &&& final(self).tail == old(self).tail
            },
            cur != old(self).components@.len() - 1 ==> {
                &&& 0 <= q@ < chain.len()
                &&& chain[q@] == old(self).components@.len() - 1
            },
            forall|k: int|
                0 <= k < chain.len() ==> {
                    &&& (#[trigger] final(self).components@[renamed(
                        chain,
                        old(self).components@.len() - 1,
                        cur as int,
                    )[k]]).entity() == old(self).components@[chain[k]].entity()
                    &&& final(self).components@[renamed(
                        chain,
                        old(self).components@.len() - 1,
                        cur as int,
                    )[k]].value() == old(self).components@[chain[k]].value()
                },
            forall|p: int|
                0 <= p < final(self).components@.len() ==> (#[trigger] final(
                    self
                ).components@[p]).entity() == (if p == cur {
                    old(self).components@[old(self).components@.len() - 1].entity()
                } else {
                    old(self).components@[p].entity()
                }),
    {
        let n = self.components.len();
        let last = n - 1;
        let ghost c1 = self.components@;
        let ghost head1 = self.head;
        let ghost tail1 = self.tail;
        let ghost mut q: int = 0;
        if cur != last {
            let ghost ql: int = choose|k: int| 0 <= k < chain.len() && #[trigger] chain[k] == last;
            let mut j: usize = 0;
            let mut at: usize = self.head;
            let mut pred: usize = 0;
            proof {
                lemma_link(c1, chain, head1, tail1, 0);
            }
            while at != last
                invariant
                    chained(c1, chain, head1, tail1),
                    self.components@ == c1,
                    self.head == head1,
                    self.tail == tail1,
                    chain.len() == n - 1,
                    c1.len() == n,
                    last == n - 1,
                    0 <= ql < n - 1,
                    chain[ql] == last,
                    j <= ql,
                    at == chain[j as int],
                    at < n,
                    j > 0 ==> pred == chain[j - 1] && pred < n,
                decreases ql - j,
            {
                proof {
                    lemma_link(c1, chain, head1, tail1, j as int);
                    lemma_link(c1, chain, head1, tail1, j + 1);
                }
                pred = at;
                at = self.components[at].get_next() as usize;
                j = j + 1;
            }
            proof {
                q = j as int;
                lemma_link(c1, chain, head1, tail1, n - 2);
            }
            if j > 0 {
                self.components[pred].set_next(cur as u64);
            } else {
                self.head = cur;
            }
            if self.tail == last {
                self.tail = cur;
            }
            assert(q > 0 ==> relinked(c1, self.components@, pred as int, cur as int));
        }
        let ghost c2 = self.components@;
        self.components.swap_remove(cur);
        proof {
            lemma_relocated(
                c1,
                c2,
                self.components@,
                chain,
                head1,
                tail1,
                self.head,
                self.tail,
                cur as int,
                q,
            );
        }
        Ghost(q)
    }

    /// Removes the component of the entity `entity_id`, if the store has one:
    /// the chain skips it, the last slot of the array moves into its place,
    /// and the order of iteration over the others stays.
    pub fn remove(&mut self, entity_id: u64)
        requires
            old(self).wf(),
        ensures
            final(self).wf(),
            final(self)@ == without(old(self)@, entity_id),
            final(self).layout() == layout_without(old(self).layout(), entity_id),
    {
        let ghost before = *self;
        let ghost c0 = self.components@;
        let ghost order0 = self.order@;
        let ghost place0 = self.place@;
        let ghost n = c0.len() as int;
        match self.locate(entity_id) {
            None => {
                proof {
                    before.lemma_absent(entity_id);
                }
            },
            Some((i, prev, cur)) => {
                self.unlink(i, prev, cur);
                let ghost c1 = self.components@;
                let ghost order1 = order0.remove(i as int);
                proof {
                    before.lemma_distinct();
                    lemma_link(c0, order0, before.head, before.tail, i as int);
                    assert forall|k: int| 0 <= k < n - 1 implies #[trigger] order1[k] != cur by {
                        assert(order1[k] == order0[if k < i { k } else { k + 1 }]);
                    }
                    if cur != n - 1 {
                        reveal(inverse);
                        let z = place0[n - 1];
                        assert(order0[z] == n - 1);
                        let ql = if z < i { z } else { z - 1 };
                        assert(order1[ql] == n - 1);
                    }
                }
                let q = self.relocate(cur, Ghost(order1));
                proof {
                    let c3 = self.components@;
                    let order2 = renamed(order1, n - 1, cur as int);
                    assert forall|k: int| 0 <= k < order0.len() implies 0 <= #[trigger] order0[k]
                        < order0.len() by {
                        lemma_link(c0, order0, before.head, before.tail, k);
                    }
                    let place2 = lemma_places(order0, place0, i as int, cur as int, q@);
                    self.order@ = order2;
                    self.place@ = place2;
                    assert(self@ =~= before@.remove(i as int)) by {
                        assert forall|k: int| 0 <= k < n - 1 implies #[trigger] self@[k]
                            == before@.remove(i as int)[k] by {
                            assert(c3[order2[k]].entity() == c1[order1[k]].entity());
                            assert(order1[k] == order0[if k < i { k } else { k + 1 }]);
                        }
                    }
                    assert(self.layout() =~= swap_removed(before.layout(), cur as int));
                    before.lemma_present(entity_id, i as int);
                }
            },
        }
    }

    /// Where no chain position holds `id`, nothing is to be removed.
    proof fn lemma_absent(&self, id: u64)
        requires
            self.wf(),
            forall|k: int|
                0 <= k < self.order@.len() ==> self.components@[#[trigger] self.order@[k]].entity()
                    != id,
        ensures
            without(self@, id) == self@,
            layout_without(self.layout(), id) == self.layout(),
    {
        reveal(inverse);
        let n = self.components@.len();
        assert forall|k: int| 0 <= k < n implies (#[trigger] self@[k]).0 != id by {
            assert(self.components@[self.order@[k]].entity() != id);
        }
        assert forall|p: int| 0 <= p < n implies #[trigger] self.layout()[p] != id by {
            assert(self.order@[self.place@[p]] == p);
            assert(self.components@[self.order@[self.place@[p]]].entity() != id);
        }
    }

    /// Where chain position `i` holds `id`, it is the only one, and so is
    /// its slot.
    proof fn lemma_present(&self, id: u64, i: int)
        requires
            self.wf(),
            0 <= i < self.order@.len(),
            self.components@[self.order@[i]].entity() == id,
        ensures
            without(self@, id) == self@.remove(i),
            layout_without(self.layout(), id) == swap_removed(self.layout(), self.order@[i]),
    {
        self.lemma_distinct();
        reveal(chained);
        let c = self.components@;
        let order = self.order@;
        assert(self@[i].0 == id);
        assert(holds(self@, id));
        let w = slot_of(self@, id);
        assert(w == i) by {
            if w != i {
                assert(order[w] != order[i]);
                assert(c[order[w]].entity() != c[order[i]].entity());
            }
        }
        assert(self.layout()[order[i]] == id);
        assert(self.layout().contains(id));
        let x = self.layout().index_of(id);
        assert(x == order[i]) by {
            if x != order[i] {
                assert(c[x].entity() != c[order[i]].entity());
            }
        }
    }

    /// Appends a component for the entity `entity_id` at the end of the chain
    /// and of the array.
    pub fn push(&mut self, component: D, entity_id: u64)
        requires
            old(self).wf(),
            old(self)@.len() < NEXT_LIMIT,
            entity_id < ENTITY_LIMIT,
            all_below(old(self)@, entity_id),
        ensures
            final(self).wf(),
            final(self)@ == old(self)@.push((entity_id, component)),
            final(self).layout() == old(self).layout().push(entity_id),
    {
        let new_index = self.components.len();
        let ghost before = *self;
        proof {
            reveal(chained);
            reveal(inverse);
        }
        if new_index == 0 {
            self.head = 0;
            self.tail = 0;
        } else {
            let tail = self.tail;
            assert(tail == self.order@.last());
            self.components[tail].set_next(new_index as u64);
            self.tail = new_index;
        }
        self.components.push(ComponentWrapper::new(component, entity_id, 0, true));
        proof {
            self.order@ = before.order@.push(new_index as int);
            self.place@ = before.place@.push(new_index as int);
            let c = self.components@;
            let order = self.order@;
            assert forall|i: int| 0 <= i < order.len() implies c[#[trigger] order[i]].entity() == (
            if i < new_index {
                before@[i].0
            } else {
                entity_id
            }) && c[order[i]].value() == (if i < new_index {
                before@[i].1
            } else {
                component
            }) by {
                if i < new_index {
                    assert(order[i] == before.order@[i]);
                }
            }
            assert(chained(c, order, self.head, self.tail)) by {
                assert forall|i: int| 0 <= i < order.len() - 1 implies c[#[trigger] order[i]].next()
                    == order[i + 1] by {
                    if i < new_index - 1 {
                        assert(order[i] == before.order@[i]);
                        assert(order[i + 1] == before.order@[i + 1]);
                        assert(before.order@[i] != before.order@[new_index - 1]) by {
                            assert(before.components@[before.order@[i]].entity()
                                < before.components@[before.order@[new_index - 1]].entity());
                        }
                    }
                }
                assert forall|i: int| 0 <= i < order.len() implies c[#[trigger] order[i]].active() by {
                    if i < new_index {
                        assert(order[i] == before.order@[i]);
                        assert(before.components@[before.order@[i]].active());
                    }
                }
                assert forall|i: int, j: int| 0 <= i < j < order.len() implies c[#[trigger] order[i]].entity()
                    < c[#[trigger] order[j]].entity() by {
                    assert(before@[i].0 < entity_id);
                    if j < new_index {
                        assert(before.components@[before.order@[i]].entity()
                            < before.components@[before.order@[j]].entity());
                    }
                }
            }
            assert(inverse(order, self.place@)) by {
                assert forall|p: int| 0 <= p < self.place@.len() implies 0 <= #[trigger] self.place@[p]
                    < order.len() && order[self.place@[p]] == p by {
                    if p < new_index {
                        assert(self.place@[p] == before.place@[p]);
                    }
                }
            }
            assert(self@ =~= before@.push((entity_id, component)));
            assert(self.layout() =~= before.layout().push(entity_id)) by {
                assert forall|p: int| 0 <= p < new_index implies c[p].entity()
                    == before.components@[p].entity() by {}
            }
        }
    }

    /// The entity of the newest component, which is the largest id in the
    /// store; `None` for an empty store.
    pub fn last_entity(&self) -> (r: Option<u64>)
        requires
            self.wf(),
        ensures
            match r {
                Some(id) => self@.len() > 0 && id == self@.last().0,
                None => self@.len() == 0,
            },
    {
        if self.components.len() == 0 {
            None
        } else {
            proof {
                lemma_link(
                    self.components@,
                    self.order@,
                    self.head,
                    self.tail,
                    self.order@.len() - 1,
                );
            }
            Some(self.components[self.tail].get_entity())
        }
    }

    /// The entity ids in the order of the array slots.
    pub fn slots(&self) -> (r: Vec<u64>)
        ensures
            r@ == self.layout(),
    {
        let n = self.components.len();
        let mut r: Vec<u64> = Vec::new();
        let mut p: usize = 0;
        while p < n
            invariant
                n == self.components@.len(),
                p <= n,
                r@.len() == p,
                forall|k: int| 0 <= k < p ==> #[trigger] r@[k] == self.components@[k].entity(),
            decreases n - p,
        {
            r.push(self.components[p].get_entity());
            p = p + 1;
        }
        assert(r@ =~= self.layout());
        r
    }

    /// A walk over the wrappers in the order of insertion.
    pub fn iter(&self) -> (it: ComponentVectorIter<'_, D>)
        requires
            self.wf(),
        ensures
            it.wf(),
            it.store() == *self,
            it.position() == 0,
    {
        ComponentVectorIter::new(self)
    }

    /// The chain visits the slots in the order of the view.
    proof fn lemma_walk(&self, k: nat)
        requires
            self.wf(),
            k < self.order@.len(),
        ensures
            self.walk(k) == self.order@[k as int],
            0 <= self.walk(k) < self.components@.len(),
        decreases k,
    {
        lemma_link(self.components@, self.order@, self.head, self.tail, k as int);
        if k > 0 {
            self.lemma_walk((k - 1) as nat);
            lemma_link(self.components@, self.order@, self.head, self.tail, k - 1);
        }
    }

    /// Following the successor fields from the head for as many steps as
    /// the store has components stays inside the array, passes no slot
    /// twice, reaches every slot, yields the view, and ends at the tail,
    /// whose own successor field is 0. In an empty store head and tail
    /// are 0.
    pub proof fn lemma_chain_covers(&self)
        requires
            self.wf(),
        ensures
            forall|k: nat| k < self@.len() ==> 0 <= #[trigger] self.walk(k) < self.layout().len(),
            forall|k: nat, l: nat|
                k < l < self@.len() ==> #[trigger] self.walk(k) != #[trigger] self.walk(l),
            forall|p: int| 0 <= p < self.layout().len() ==> #[trigger] self.reaches(p),
            forall|k: nat|
                k < self@.len() ==> self.layout()[#[trigger] self.walk(k)] == self@[k as int].0,
            self@.len() > 0 ==> self.walk((self@.len() - 1) as nat) == self.last_index(),
            self@.len() > 0 ==> self.walk(self@.len()) == 0,
            self@.len() == 0 ==> self.walk(0) == 0 && self.last_index() == 0,
    {
        let n = self.components@.len();
        self.lemma_distinct();
        assert forall|k: nat| k < n implies #[trigger] self.walk(k) == self.order@[k as int] && 0
            <= self.walk(k) < n by {
            self.lemma_walk(k);
        }
        assert forall|p: int| 0 <= p < n implies #[trigger] self.reaches(p) by {
            reveal(inverse);
            let k = self.place@[p] as nat;
            assert(self.order@[k as int] == p);
            assert(self.walk(k) == p);
        }
        if n > 0 {
            lemma_link(self.components@, self.order@, self.head, self.tail, n - 1);
            self.lemma_walk((n - 1) as nat);
            assert(self.walk(n as nat) == self.components@[self.walk((n - 1) as nat)].next());
        }
    }

    /// The entity ids grow strictly along the order of iteration.
    pub proof fn lemma_ascending(&self)
        requires
            self.wf(),
        ensures
            ascending(self@),
    {
        reveal(chained);
        assert forall|i: int, j: int| 0 <= i < j < self@.len() implies (#[trigger] self@[i]).0 < (
        #[trigger] self@[j]).0 by {
            assert(self.components@[self.order@[i]].entity() < self.components@[self.order@[j]].entity());
        }
    }

    /// The array holds exactly the components that iteration yields: it is
    /// as long as the view, and every slot holds an entity of the view and
    /// an active component. No slot marks a removed component.
    pub proof fn lemma_dense(&self)
        requires
            self.wf(),
        ensures
            self.layout().len() == self@.len(),
            forall|p: int|
                0 <= p < self.layout().len() ==> holds(self@, #[trigger] self.layout()[p]),
            forall|p: int| 0 <= p < self.layout().len() ==> #[trigger] self.live(p),
    {
        reveal(inverse);
        reveal(chained);
        assert forall|p: int| 0 <= p < self.layout().len() implies #[trigger] self.live(p) by {
            let k = self.place@[p];
            assert(self.order@[k] == p);
            assert(self.components@[self.order@[k]].active());
        }
        assert forall|p: int| 0 <= p < self.layout().len() implies holds(
            self@,
            #[trigger] self.layout()[p],
        ) by {
            let k = self.place@[p];
            assert(self.order@[k] == p);
            assert(self@[k].0 == self.layout()[p]);
        }
    }
}

/// `s` after the entities `ids` were removed from it, one after the other.
pub open spec fn drained<D>(s: Seq<(u64, D)>, ids: Seq<u64>) -> Seq<(u64, D)>
    decreases ids.len(),
{
    if ids.len() == 0 {
        s
    } else {
        drained(without(s, ids[0]), ids.drop_first())
    }
}

/// What is left after a removal holds the other entities, in their order.
pub proof fn lemma_without<D>(s: Seq<(u64, D)>, id: u64)
    requires
        ascending(s),
    ensures
        ascending(without(s, id)),
        !holds(without(s, id), id),
        forall|j: int|
            0 <= j < without(s, id).len() ==> holds(s, (#[trigger] without(s, id)[j]).0),
        forall|i: int|
            0 <= i < s.len() && s[i].0 != id ==> holds(without(s, id), (#[trigger] s[i]).0),
{
    let t = without(s, id);
    if holds(s, id) {
        let w = slot_of(s, id);
        assert forall|j: int| 0 <= j < t.len() implies #[trigger] t[j] == s[if j < w {
            j
        } else {
            j + 1
        }] by {}
        assert forall|i: int, j: int| 0 <= i < j < t.len() implies (#[trigger] t[i]).0 < (
        #[trigger] t[j]).0 by {
            let i0 = if i < w { i } else { i + 1 };
            let j0 = if j < w { j } else { j + 1 };
            assert(s[i0].0 < s[j0].0);
        }
        assert forall|j: int| 0 <= j < t.len() implies (#[trigger] t[j]).0 != id && holds(
            s,
            t[j].0,
        ) by {
            let j0 = if j < w { j } else { j + 1 };
            assert(t[j] == s[j0]);
            if j0 < w {
                assert(s[j0].0 < s[w].0);
            } else {
                assert(s[w].0 < s[j0].0);
            }
        }
        assert forall|i: int| 0 <= i < s.len() && s[i].0 != id implies holds(
            t,
            (#[trigger] s[i]).0,
        ) by {
            let j = if i < w { i } else { i - 1 };
            assert(t[j] == s[i]);
        }
    }
}

/// Removing every entity of a store, in whatever order and whatever else is
/// removed beside them, leaves nothing.
pub proof fn lemma_round_trip<D>(s: Seq<(u64, D)>, ids: Seq<u64>)
    requires
        ascending(s),
        forall|i: int| 0 <= i < s.len() ==> ids.contains((#[trigger] s[i]).0),
    ensures
        drained(s, ids) == Seq::<(u64, D)>::empty(),
    decreases ids.len(),
{
    if ids.len() == 0 {
        if s.len() > 0 {
            assert(ids.contains(s[0].0));
        }
        assert(s =~= Seq::<(u64, D)>::empty());
    } else {
        let id = ids[0];
        let t = without(s, id);
        let rest = ids.drop_first();
        lemma_without(s, id);
        assert forall|j: int| 0 <= j < t.len() implies rest.contains((#[trigger] t[j]).0) by {
            assert(holds(s, t[j].0));
            let i = choose|i: int| 0 <= i < s.len() && (#[trigger] s[i]).0 == t[j].0;
            assert(ids.contains(s[i].0));
            let m = choose|m: int| 0 <= m < ids.len() && ids[m] == s[i].0;
            assert(t[j].0 != id);
            assert(rest[m - 1] == t[j].0);
        }
        lemma_round_trip(t, rest);
    }
}

/// A walk over the wrappers of a store in the order of insertion.
pub struct ComponentVectorIter<'a, D: Component> {
    current: usize,
    len: usize,
    data: &'a ComponentVector<D>,
}

impl<'a, D: Component> ComponentVectorIter<'a, D> {
    /// The store that is walked.
    pub closed spec fn store(&self) -> ComponentVector<D> {
        *self.data
    }

    /// How many wrappers the walk has yielded.
    pub closed spec fn position(&self) -> nat {
        self.len as nat
    }

    /// The walk stands on the chain of a well-formed store.
    pub closed spec fn wf(&self) -> bool {
        &&& self.data.wf()
        &&& self.len <= self.data.order@.len()
        &&& self.len < self.data.order@.len() ==> self.current == self.data.order@[self.len as int]
    }

    /// A walk that starts at the head of `vector`.
    pub fn new(vector: &'a ComponentVector<D>) -> (it: Self)
        requires
            vector.wf(),
        ensures
            it.wf(),
            it.store() == *vector,
            it.position() == 0,
    {
        proof {
            if vector.order@.len() > 0 {
                lemma_link(vector.components@, vector.order@, vector.head, vector.tail, 0);
            }
        }
        ComponentVectorIter { current: vector.head, len: 0, data: vector }
    }

    /// The next wrapper in the order of insertion; `None` once every
    /// wrapper of the store has been yielded.
    pub fn next(&mut self) -> (r: Option<&'a ComponentWrapper<D>>)
        requires
            old(self).wf(),
        ensures
            final(self).wf(),
            final(self).store() == old(self).store(),
            match r {
                Some(w) => {
                    &&& old(self).position() < old(self).store()@.len()
                    &&& (w.entity(), w.value()) == old(self).store()@[old(self).position() as int]
                    &&& w.active()
                    &&& final(self).position() == old(self).position() + 1
                },
                None => {
                    &&& old(self).position() == old(self).store()@.len()
                    &&& final(self).position() == old(self).position()
                },
            },
    {
        let data = self.data;
        proof {
            if self.len < data.order@.len() {
                lemma_link(data.components@, data.order@, data.head, data.tail, self.len as int);
                if self.len + 1 < data.order@.len() {
                    lemma_link(
                        data.components@,
                        data.order@,
                        data.head,
                        data.tail,
                        self.len + 1,
                    );
                }
            }
        }
        if self.len >= data.len() || self.current >= data.len() {
            None
        } else {
            let value = &data.components[self.current];
            self.len = self.len + 1;
            self.current = value.get_next() as usize;
            Some(value)
        }
    }
}

/// A walk over the components of a store in the order of insertion.
pub struct CompVecIter<'a, D: Component> {
    iter: ComponentVectorIter<'a, D>,
}

impl<'a, D: Component> CompVecIter<'a, D> {
    /// The store that is walked.
    pub closed spec fn store(&self) -> ComponentVector<D> {
        self.iter.store()
    }

    /// How many components the walk has yielded.
    pub closed spec fn position(&self) -> nat {
        self.iter.position()
    }

    /// The walk stands on the chain of a well-formed store.
    pub closed spec fn wf(&self) -> bool {
        self.iter.wf()
    }

    /// A walk that starts at the head of `vector`.
    pub fn new(vector: &'a ComponentVector<D>) -> (it: Self)
        requires
            vector.wf(),
        ensures
            it.wf(),
            it.store() == *vector,
            it.position() == 0,
    {
        CompVecIter { iter: ComponentVectorIter::new(vector) }
    }

    /// The next component in the order of insertion; `None` once every
    /// component of the store has been yielded.
    pub fn next(&mut self) -> (r: Option<&'a D>)
        requires
            old(self).wf(),
        ensures
            final(self).wf(),
            final(self).store() == old(self).store(),
            match r {
                Some(d) => {
                    &&& old(self).position() < old(self).store()@.len()
                    &&& *d == old(self).store()@[old(self).position() as int].1
                    &&& final(self).position() == old(self).position() + 1
                },
                None => {
                    &&& old(self).position() == old(self).store()@.len()
                    &&& final(self).position() == old(self).position()
                },
            },
    {
        match self.iter.next() {
            Some(d) => Some(d.component()),
            None => None,
        }
    }
}

} // verus!
