//! The stores of all component types behind one handle, and the token
//! through which a system registers types and entities and borrows stores.
//! A component type is named by a fingerprint, a number of the caller's
//! choosing that stands for the type.

use crate::component::Component;
use crate::entity::Entity;
use crate::entity::EntityRegister;
use crate::store::ComponentVector;
use crate::syncmap::count;
use crate::syncmap::Answer;
use crate::syncmap::Fulfilment;
use crate::syncmap::Loan;
use crate::syncmap::PoisionSyncMapError;
use crate::syncmap::Registry;
use crate::syncmap::Request;
use crate::syncmap::RequestType;
use crate::syncmap::SyncMap;
use crate::syncmap::Insertion;
use vstd::prelude::*;

verus! {

/// A request for stores, by the fingerprints of their component types.
pub struct ResourceRequest {
    request: Request,
}

impl View for ResourceRequest {
    type V = Seq<(u64, RequestType)>;

    /// The fingerprints with the access asked for, in the order in which
    /// they were added.
    closed spec fn view(&self) -> Seq<(u64, RequestType)> {
        self.request@
    }
}

impl ResourceRequest {
    /// A request for nothing.
    pub fn new() -> (r: ResourceRequest)
        ensures
            r@ == Seq::<(u64, RequestType)>::empty(),
    {
        ResourceRequest { request: Request::new() }
    }

    /// Asks to read the store of the component type `type_key`.
    pub fn read(&mut self, type_key: u64) -> (ret: &mut Self)
        ensures
            ret@ == old(self)@.push((type_key, RequestType::Read)),
            *final(self) == *final(ret),
    {
        self.request.read(type_key);
        self
    }

    /// Asks to write the store of the component type `type_key`.
    pub fn write(&mut self, type_key: u64) -> (ret: &mut Self)
        ensures
            ret@ == old(self)@.push((type_key, RequestType::Write)),
            *final(self) == *final(ret),
    {
        self.request.write(type_key);
        self
    }
}

/// Whether every store that lies in its slot is well-formed.
pub open spec fn stores_wf<C: Component>(reg: Registry<ComponentVector<C>>) -> bool {
    forall|k: u64| #[trigger]
        reg.slots.contains_key(k) ==> match reg.slots[k].value {
            Some(store) => store.wf(),
            None => true,
        }
}

/// The stores of all component types and the register of entity ids.
pub struct Resources<C: Component> {
    component_collections: SyncMap<ComponentVector<C>>,
    register: EntityRegister,
}

impl<C: Component> Resources<C> {
    /// The registry of the stores.
    pub closed spec fn stores(&self) -> Registry<ComponentVector<C>> {
        self.component_collections@
    }

    /// The id that the next new entity gets.
    pub closed spec fn next_entity(&self) -> u64 {
        self.register.cursor()
    }

    /// Whether nobody writes the registry itself.
    pub closed spec fn unwritten(&self) -> bool {
        self.component_collections.unwritten()
    }

    /// The invariant: that of the registry, and that of each store in it.
    pub open spec fn wf(&self) -> bool {
        &&& self.stores().wf()
        &&& self.unwritten()
        &&& stores_wf(self.stores())
    }

    /// No stores, no loans, no entities.
    pub fn new() -> (r: Resources<C>)
        ensures
            r.wf(),
            r.stores().slots == Map::<u64, crate::syncmap::Slot<ComponentVector<C>>>::empty(),
            r.stores().pins == 0,
            r.stores().loans == Seq::<Seq<(u64, RequestType)>>::empty(),
            r.stores().ids == Seq::<nat>::empty(),
            r.next_entity() == 0,
    {
        Resources { component_collections: SyncMap::new(), register: EntityRegister::new() }
    }

    /// Registers the component type `type_key` with an empty store. A type
    /// that is registered keeps its store. The result says whether the type
    /// is registered now; it is not while loans pin the registry.
    pub fn register(&mut self, type_key: u64) -> (done: bool)
        requires
            old(self).wf(),
        ensures
            final(self).wf(),
            final(self).next_entity() == old(self).next_entity(),
            done == final(self).stores().slots.contains_key(type_key),
            !old(self).stores().takes(type_key) ==> final(self).stores() == old(self).stores(),
            old(self).stores().takes(type_key) ==> exists|store: ComponentVector<C>|
                store.wf() && store@.len() == 0 && final(self).stores()
                    == #[trigger] old(self).stores().inserted(type_key, store),
    {
        let vec: ComponentVector<C> = ComponentVector::new();
        let ghost fresh = vec;
        let ghost before = self.stores();
        match self.component_collections.insert(type_key, vec) {
            Insertion::Done => {
                proof {
                    if before.takes(type_key) {
                        assert(self.stores() == before.inserted(type_key, fresh));
                    }
                    assert forall|k: u64| #[trigger]
                        self.stores().slots.contains_key(k) implies match self.stores().slots[k].value {
                        Some(store) => store.wf(),
                        None => true,
                    } by {
                        if k != type_key {
                            assert(before.slots.contains_key(k));
                        }
                    }
                }
                true
            },
            Insertion::Wait(_) => false,
        }
    }

    /// Answers a request for stores; see `SyncMap::request`.
    pub fn request(&mut self, request: &ResourceRequest) -> (r: Result<
        Fulfilment,
        PoisionSyncMapError,
    >)
        requires
            old(self).wf(),
            old(self).stores().roomy(request@),
        ensures
            final(self).wf(),
            final(self).next_entity() == old(self).next_entity(),
            match r {
                Ok(Fulfilment::Granted(loan)) => {
                    &&& old(self).stores().answer(request@) is Grant
                    &&& loan@ == request@
                    &&& loan.ident() == old(self).stores().issued
                    &&& final(self).stores() == old(self).stores().granted(request@)
                    &&& final(self).stores().lent(loan.ident(), loan@)
                },
                Ok(Fulfilment::Missing) => {
                    &&& old(self).stores().answer(request@) is Missing
                    &&& final(self).stores() == old(self).stores()
                },
                Ok(Fulfilment::Wait) => {
                    &&& old(self).stores().answer(request@) is Wait
                    &&& final(self).stores() == old(self).stores()
                },
                Err(_) => {
                    &&& old(self).stores().answer(request@) is Clash
                    &&& final(self).stores() == old(self).stores()
                },
            },
    {
        let ghost before = self.stores();
        let r = self.component_collections.request(&request.request);
        proof {
            assert forall|k: u64| #[trigger]
                self.stores().slots.contains_key(k) implies match self.stores().slots[k].value {
                Some(store) => store.wf(),
                None => true,
            } by {
                assert(before.slots.contains_key(k));
            }
        }
        r
    }

    /// Whether the counters can take a loan of `request`; see
    /// `SyncMap::has_room`.
    pub fn has_room(&self, request: &ResourceRequest) -> (r: bool)
        ensures
            r == self.stores().roomy(request@),
    {
        self.component_collections.has_room(&request.request)
    }

    /// The id that the next new entity gets.
    pub fn peek_entity(&self) -> (id: u64)
        ensures
            id == self.next_entity(),
    {
        self.register.peek()
    }

    /// A token without a loan.
    pub fn get_token(&self) -> (t: ResourceToken)
        ensures
            t.held() is None,
    {
        ResourceToken::new()
    }
}

/// The handle a system gets for one call. It carries at most one loan.
pub struct ResourceToken {
    loan: Option<Loan>,
}

impl ResourceToken {
    /// What the loan of the token holds, if it has one.
    pub closed spec fn held(&self) -> Option<Seq<(u64, RequestType)>> {
        match self.loan {
            Some(loan) => Some(loan@),
            None => None,
        }
    }

    /// The number of the token's loan; 0 for a token without a loan.
    pub closed spec fn ident(&self) -> nat {
        match self.loan {
            Some(loan) => loan.ident(),
            None => 0,
        }
    }

    /// Whether the loan of the token, if it has one, is outstanding at `reg`.
    pub open spec fn valid<V>(&self, reg: Registry<V>) -> bool {
        self.held() is Some ==> reg.lent(self.ident(), self.held().unwrap())
    }

    /// Whether every value that the token took out for writing is back in
    /// its slot.
    pub open spec fn settled<V>(&self, reg: Registry<V>) -> bool {
        self.held() is Some ==> reg.settled(reg.loan_index(self.ident()))
    }

    /// `reg` after the loan of the token, if it has one, was given back.
    pub open spec fn dropped<V>(&self, reg: Registry<V>) -> Registry<V> {
        match self.held() {
            Some(entries) => reg.released(reg.loan_index(self.ident())),
            None => reg,
        }
    }

    /// Whether the token's loan holds `mode` on `type_key`.
    pub open spec fn grants(&self, type_key: u64, mode: RequestType) -> bool {
        match self.held() {
            Some(entries) => count(entries, type_key, mode) > 0,
            None => false,
        }
    }

    /// A token without a loan.
    pub fn new() -> (t: ResourceToken)
        ensures
            t.held() is None,
    {
        ResourceToken { loan: None }
    }

    /// Registers the component type `type_key`; see `Resources::register`.
    pub fn register<C: Component>(&self, res: &mut Resources<C>, type_key: u64) -> (done: bool)
        requires
            old(res).wf(),
        ensures
            final(res).wf(),
            final(res).next_entity() == old(res).next_entity(),
            done == final(res).stores().slots.contains_key(type_key),
            !old(res).stores().takes(type_key) ==> final(res).stores() == old(res).stores(),
            old(res).stores().takes(type_key) ==> exists|store: ComponentVector<C>|
                store.wf() && store@.len() == 0 && final(res).stores()
                    == #[trigger] old(res).stores().inserted(type_key, store),
    {
        res.register(type_key)
    }

    /// A new entity. Its id is the one that the register stood at, which
    /// lies above every id handed out before; the register moves on by one.
    pub fn register_entity<C: Component>(&self, res: &mut Resources<C>) -> (e: Entity)
        requires
            old(res).wf(),
            old(res).next_entity() < u64::MAX,
        ensures
            final(res).wf(),
            e.spec_id() == old(res).next_entity(),
            final(res).next_entity() == old(res).next_entity() + 1,
            final(res).stores() == old(res).stores(),
    {
        let id = res.register.register(1);
        Entity::new_with_id(id.start)
    }

    /// Gives the token's loan back, if it has one, and asks for the stores
    /// of `request`. The token that comes back carries the new loan where
    /// the request was granted, and none otherwise.
    pub fn request<C: Component>(self, res: &mut Resources<C>, request: &ResourceRequest) -> (r: (
        ResourceToken,
        Answer,
    ))
        requires
            old(res).wf(),
            self.valid(old(res).stores()),
            self.settled(old(res).stores()),
            old(res).stores().roomy(request@),
        ensures
            final(res).wf(),
            final(res).next_entity() == old(res).next_entity(),
            r.1 == self.dropped(old(res).stores()).answer(request@),
            r.1 is Grant ==> {
                &&& r.0.held() == Some(request@)
                &&& r.0.ident() == old(res).stores().issued
                &&& final(res).stores() == self.dropped(old(res).stores()).granted(request@)
            },
            !(r.1 is Grant) ==> r.0.held() is None && final(res).stores() == self.dropped(
                old(res).stores(),
            ),
            r.0.valid(final(res).stores()),
    {
        let ghost before = res.stores();
        let token = self.release(res);
        let ghost base = res.stores();
        proof {
            assert(base.roomy(request@)) by {
                assert(base.pins <= before.pins);
                assert forall|i: int|
                    0 <= i < request@.len() && base.slots.contains_key(
                        (#[trigger] request@[i]).0,
                    ) implies base.slots[request@[i].0].readers + request@.len() <= usize::MAX by {
                    let k = request@[i].0;
                    assert(before.slots.contains_key(k));
                    if self.held() is Some {
                        before.lemma_loan_index(self.ident(), self.held().unwrap());
                        before.lemma_release_lowers(before.loan_index(self.ident()), k);
                    }
                }
            }
        }
        match res.request(request) {
            Ok(Fulfilment::Granted(loan)) => (ResourceToken { loan: Some(loan) }, Answer::Grant),
            Ok(Fulfilment::Missing) => (token, Answer::Missing),
            Ok(Fulfilment::Wait) => (token, Answer::Wait),
            Err(_) => (token, Answer::Clash),
        }
    }

    /// Gives the token's loan back, if it has one.
    pub fn release<C: Component>(self, res: &mut Resources<C>) -> (t: ResourceToken)
        requires
            old(res).wf(),
            self.valid(old(res).stores()),
            self.settled(old(res).stores()),
        ensures
            final(res).wf(),
            final(res).next_entity() == old(res).next_entity(),
            final(res).stores() == self.dropped(old(res).stores()),
            t.held() is None,
    {
        let ghost before = res.stores();
        match self.loan {
            Some(loan) => {
                res.component_collections.resend(loan);
                proof {
                    assert forall|k: u64| #[trigger]
                        res.stores().slots.contains_key(k) implies match res.stores().slots[k].value {
                        Some(store) => store.wf(),
                        None => true,
                    } by {
                        assert(before.slots.contains_key(k));
                    }
                }
            },
            None => {},
        }
        ResourceToken { loan: None }
    }

    /// The loan of the token, if it has one.
    pub fn loan(&self) -> (r: Option<&Loan>)
        ensures
            match r {
                Some(loan) => self.held() == Some(loan@),
                None => self.held() is None,
            },
    {
        match &self.loan {
            Some(loan) => Some(loan),
            None => None,
        }
    }

    /// The store of the component type `type_key`, where the token's loan
    /// reads it.
    pub fn unpack<'a, C: Component>(&self, res: &'a Resources<C>, type_key: u64) -> (r: Option<
        &'a ComponentVector<C>,
    >)
        requires
            res.wf(),
            self.valid(res.stores()),
        ensures
            match r {
                Some(store) => {
                    &&& self.grants(type_key, RequestType::Read)
                    &&& res.stores().slots[type_key].value == Some(*store)
                    &&& store.wf()
                },
                None => !self.grants(type_key, RequestType::Read),
            },
    {
        match self.loan {
            Some(ref loan) => {
                match loan.read(&res.component_collections, &type_key) {
                    Some(value) => {
                        proof {
                            let at = res.stores().loan_index(loan.ident());
                            res.stores().lemma_loan_index(loan.ident(), loan@);
                            crate::syncmap::lemma_count_some(loan@, type_key, RequestType::Read);
                            let j = choose|j: int|
                                0 <= j < loan@.len() && #[trigger] loan@[j] == (
                                    type_key,
                                    RequestType::Read,
                                );
                            assert(res.stores().slots.contains_key(res.stores().loans[at][j].0));
                        }
                        Some(value)
                    },
                    None => None,
                }
            },
            None => None,
        }
    }

    /// Takes the store of the component type `type_key` out of the
    /// registry, where the token's loan writes it and the store is there.
    /// While it is out, a second attempt gets nothing.
    pub fn unpack_mut<C: Component>(&self, res: &mut Resources<C>, type_key: u64) -> (r: Option<
        ComponentVector<C>,
    >)
        requires
            old(res).wf(),
            self.valid(old(res).stores()),
        ensures
            final(res).wf(),
            final(res).next_entity() == old(res).next_entity(),
            match r {
                Some(store) => {
                    &&& self.grants(type_key, RequestType::Write)
                    &&& old(res).stores().slots[type_key].value == Some(store)
                    &&& store.wf()
                    &&& final(res).stores() == old(res).stores().with_value(type_key, None)
                },
                None => {
                    &&& !self.grants(type_key, RequestType::Write) || old(
                        res
                    ).stores().slots[type_key].value is None
                    &&& final(res).stores() == old(res).stores()
                },
            },
    {
        let ghost before = res.stores();
        match self.loan {
            Some(ref loan) => {
                let r = loan.write(&mut res.component_collections, &type_key);
                proof {
                    if r is Some {
                        let at = before.loan_index(loan.ident());
                        before.lemma_loan_index(loan.ident(), loan@);
                        crate::syncmap::lemma_count_some(loan@, type_key, RequestType::Write);
                        let j = choose|j: int|
                            0 <= j < loan@.len() && #[trigger] loan@[j] == (
                                type_key,
                                RequestType::Write,
                            );
                        assert(before.slots.contains_key(before.loans[at][j].0));
                    }
                    assert forall|k: u64| #[trigger]
                        res.stores().slots.contains_key(k) implies match res.stores().slots[k].value {
                        Some(store) => store.wf(),
                        None => true,
                    } by {
                        assert(before.slots.contains_key(k));
                    }
                }
                r
            },
            None => None,
        }
    }

    /// Puts a store that `unpack_mut` took out back into the registry.
    pub fn repack<C: Component>(
        &self,
        res: &mut Resources<C>,
        type_key: u64,
        store: ComponentVector<C>,
    )
        requires
            old(res).wf(),
            self.valid(old(res).stores()),
            self.grants(type_key, RequestType::Write),
            old(res).stores().slots.contains_key(type_key),
            old(res).stores().slots[type_key].value is None,
            store.wf(),
        ensures
            final(res).wf(),
            final(res).next_entity() == old(res).next_entity(),
            final(res).stores() == old(res).stores().with_value(type_key, Some(store)),
    {
        let ghost before = res.stores();
        match self.loan {
            Some(ref loan) => {
                loan.restore(&mut res.component_collections, type_key, store);
                proof {
                    assert forall|k: u64| #[trigger]
                        res.stores().slots.contains_key(k) implies match res.stores().slots[k].value {
                        Some(store) => store.wf(),
                        None => true,
                    } by {
                        if k != type_key {
                            assert(before.slots.contains_key(k));
                        }
                    }
                }
            },
            None => {},
        }
    }
}

} // verus!
