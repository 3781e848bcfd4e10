//! A registry of values under integer keys that lends its values out under a
//! readers-writer discipline. A request names keys with the access it wants;
//! what is granted is a loan, which pins the registry until it is released.
//! The registry decides; waiting for a loan to be released is the caller's
//! part.

use std::collections::HashMap;
use vstd::prelude::*;

verus! {

broadcast use vstd::std_specs::hash::group_hash_axioms;

/// The access that a request asks for on one key.
#[derive(Clone, Copy, PartialEq, Eq, Debug, Structural)]
pub enum RequestType {
    Read,
    Write,
}

/// How often `entries` asks for `mode` on `key`.
pub open spec fn count(entries: Seq<(u64, RequestType)>, key: u64, mode: RequestType) -> nat
    decreases entries.len(),
{
    if entries.len() == 0 {
        0
    } else {
        count(entries.drop_last(), key, mode) + (if entries.last() == (key, mode) {
            1nat
        } else {
            0nat
        })
    }
}

/// How often the loans `loans` together hold `mode` on `key`.
pub open spec fn total(loans: Seq<Seq<(u64, RequestType)>>, key: u64, mode: RequestType) -> nat
    decreases loans.len(),
{
    if loans.len() == 0 {
        0
    } else {
        total(loans.drop_last(), key, mode) + count(loans.last(), key, mode)
    }
}

/// Whether `entries` names some key twice with a write among the two.
pub open spec fn clashes(entries: Seq<(u64, RequestType)>) -> bool {
    exists|i: int, j: int|
        0 <= i < j < entries.len() && (#[trigger] entries[i]).0 == (#[trigger] entries[j]).0 && (
        entries[i].1 == RequestType::Write || entries[j].1 == RequestType::Write)
}

/// One value of the registry with the number of loans that read and write it.
pub struct Slot<V> {
    pub readers: nat,
    pub writers: nat,
    pub value: Option<V>,
}

/// The registry as a mathematical value: the slots by key, the number of
/// loans that pin the registry, what each outstanding loan holds, the
/// number under which each of them was handed out, and how many loans were
/// handed out so far.
pub struct Registry<V> {
    pub slots: Map<u64, Slot<V>>,
    pub pins: nat,
    pub loans: Seq<Seq<(u64, RequestType)>>,
    pub ids: Seq<nat>,
    pub issued: nat,
}

/// What the registry answers to a request.
pub enum Answer {
    /// Every entry can be had now.
    Grant,
    /// Some key is not registered.
    Missing,
    /// Every key is registered, but some entry has to wait for a loan to end.
    Wait,
    /// Every entry could be had by itself, but two of them exclude each other.
    Clash,
}

impl<V> Registry<V> {
    /// Whether the key of `entry` is registered and free for its access:
    /// no writer for a read, neither writer nor reader for a write.
    pub open spec fn admits(self, entry: (u64, RequestType)) -> bool {
        &&& self.slots.contains_key(entry.0)
        &&& self.slots[entry.0].writers == 0
        &&& entry.1 == RequestType::Write ==> self.slots[entry.0].readers == 0
    }

    /// Whether `entries` names a key that is not registered.
    pub open spec fn lacks(self, entries: Seq<(u64, RequestType)>) -> bool {
        exists|i: int| 0 <= i < entries.len() && !self.slots.contains_key((#[trigger] entries[i]).0)
    }

    /// Whether `entries` holds an entry that cannot be had now.
    pub open spec fn blocks(self, entries: Seq<(u64, RequestType)>) -> bool {
        exists|i: int| 0 <= i < entries.len() && !self.admits(#[trigger] entries[i])
    }

    /// The answer to the request `entries`.
    pub open spec fn answer(self, entries: Seq<(u64, RequestType)>) -> Answer {
        if self.lacks(entries) {
            Answer::Missing
        } else if self.blocks(entries) {
            Answer::Wait
        } else if clashes(entries) {
            Answer::Clash
        } else {
            Answer::Grant
        }
    }

    /// The registry after a loan of `entries` was handed out: each entry
    /// counts on its slot, the loan pins the registry, and it gets the next
    /// number.
    pub open spec fn granted(self, entries: Seq<(u64, RequestType)>) -> Registry<V> {
        Registry {
            slots: Map::new(
                |k: u64| self.slots.contains_key(k),
                |k: u64|
                    Slot {
                        readers: self.slots[k].readers + count(entries, k, RequestType::Read),
                        writers: self.slots[k].writers + count(entries, k, RequestType::Write),
                        value: self.slots[k].value,
                    },
            ),
            pins: self.pins + 1,
            loans: self.loans.push(entries),
            ids: self.ids.push(self.issued),
            issued: self.issued + 1,
        }
    }

    /// The registry after the loan at position `i` was given back.
    pub open spec fn released(self, i: int) -> Registry<V> {
        Registry {
            slots: Map::new(
                |k: u64| self.slots.contains_key(k),
                |k: u64|
                    Slot {
                        readers: (self.slots[k].readers - count(
                            self.loans[i],
                            k,
                            RequestType::Read,
                        )) as nat,
                        writers: (self.slots[k].writers - count(
                            self.loans[i],
                            k,
                            RequestType::Write,
                        )) as nat,
                        value: self.slots[k].value,
                    },
            ),
            pins: (self.pins - 1) as nat,
            loans: self.loans.remove(i),
            ids: self.ids.remove(i),
            issued: self.issued,
        }
    }

    /// Whether `value` can be registered under `key` now: the key is new and
    /// no loan pins the registry.
    pub open spec fn takes(self, key: u64) -> bool {
        !self.slots.contains_key(key) && self.pins == 0
    }

    /// The registry after `value` was offered under `key`: registered where
    /// the registry takes it, unchanged otherwise.
    pub open spec fn inserted(self, key: u64, value: V) -> Registry<V> {
        if self.takes(key) {
            Registry {
                slots: self.slots.insert(key, Slot { readers: 0, writers: 0, value: Some(value) }),
                ..self
            }
        } else {
            self
        }
    }

    /// The registry with the value under `key` replaced.
    pub open spec fn with_value(self, key: u64, value: Option<V>) -> Registry<V> {
        Registry { slots: self.slots.insert(key, Slot { value, ..self.slots[key] }), ..self }
    }

    /// Whether the counters can take a loan of `entries` without leaving
    /// the range of the machine's integers.
    pub open spec fn roomy(self, entries: Seq<(u64, RequestType)>) -> bool {
        &&& self.pins < usize::MAX
        &&& forall|i: int|
            0 <= i < entries.len() && self.slots.contains_key((#[trigger] entries[i]).0)
                ==> self.slots[entries[i].0].readers + entries.len() <= usize::MAX
    }

    /// Whether every value that the loan at position `i` may write is in
    /// its slot.
    pub open spec fn settled(self, i: int) -> bool {
        forall|k: u64| #[trigger]
            self.slots.contains_key(k) && count(self.loans[i], k, RequestType::Write) > 0
                ==> self.slots[k].value is Some
    }

    /// Whether the loan with the number `id` is outstanding and holds
    /// `entries`.
    pub open spec fn lent(self, id: nat, entries: Seq<(u64, RequestType)>) -> bool {
        exists|i: int|
            0 <= i < self.ids.len() && #[trigger] self.ids[i] == id && self.loans[i] == entries
    }

    /// The position of the outstanding loan with the number `id`.
    pub open spec fn loan_index(self, id: nat) -> int {
        choose|i: int| 0 <= i < self.ids.len() && #[trigger] self.ids[i] == id
    }

    /// The invariant of the registry: the counters of each slot are the
    /// sums over the outstanding loans, a written slot has one writer and no
    /// reader, a value is away only while its slot is written, loans name
    /// registered keys only, and no two loans have one number.
    pub open spec fn wf(self) -> bool {
        &&& self.pins == self.loans.len()
        &&& self.ids.len() == self.loans.len()
        &&& forall|i: int| 0 <= i < self.ids.len() ==> #[trigger] self.ids[i] < self.issued
        &&& forall|i: int, j: int|
            0 <= i < j < self.ids.len() ==> #[trigger] self.ids[i] != #[trigger] self.ids[j]
        &&& self.slots.dom().finite()
        &&& forall|k: u64| #[trigger]
            self.slots.contains_key(k) ==> {
                &&& self.slots[k].readers == total(self.loans, k, RequestType::Read)
                &&& self.slots[k].writers == total(self.loans, k, RequestType::Write)
                &&& self.slots[k].writers <= 1
                &&& self.slots[k].writers == 1 ==> self.slots[k].readers == 0
                &&& self.slots[k].value is None ==> self.slots[k].writers == 1
            }
        &&& forall|i: int, j: int|
            0 <= i < self.loans.len() && 0 <= j < self.loans[i].len() ==> self.slots.contains_key(
                (#[trigger] self.loans[i][j]).0,
            )
    }
}

/// Adding an entry to a request adds one to the count of what it names.
pub proof fn lemma_count_push(
    entries: Seq<(u64, RequestType)>,
    entry: (u64, RequestType),
    key: u64,
    mode: RequestType,
)
    ensures
        count(entries.push(entry), key, mode) == count(entries, key, mode) + (if entry == (
            key,
            mode,
        ) {
            1nat
        } else {
            0nat
        }),
{
    assert(entries.push(entry).drop_last() =~= entries);
}

/// A prefix of a request asks for nothing more often than the request.
pub proof fn lemma_count_prefix(
    entries: Seq<(u64, RequestType)>,
    j: int,
    key: u64,
    mode: RequestType,
)
    requires
        0 <= j <= entries.len(),
    ensures
        count(entries.take(j), key, mode) <= count(entries, key, mode),
        count(entries, key, mode) <= entries.len(),
    decreases entries.len(),
{
    if entries.len() == 0 {
        assert(entries.take(j) =~= entries);
    } else if j == entries.len() {
        assert(entries.take(j) =~= entries);
        lemma_count_prefix(entries.drop_last(), j - 1, key, mode);
    } else {
        assert(entries.drop_last().take(j) =~= entries.take(j));
        lemma_count_prefix(entries.drop_last(), j, key, mode);
    }
}

/// A request asks for `mode` on `key` exactly if one of its entries does.
pub proof fn lemma_count_some(entries: Seq<(u64, RequestType)>, key: u64, mode: RequestType)
    ensures
        count(entries, key, mode) > 0 <==> exists|i: int|
            0 <= i < entries.len() && #[trigger] entries[i] == (key, mode),
    decreases entries.len(),
{
    if entries.len() > 0 {
        let front = entries.drop_last();
        lemma_count_some(front, key, mode);
        if count(entries, key, mode) > 0 {
            if entries.last() == (key, mode) {
                assert(entries[entries.len() - 1] == (key, mode));
            } else {
                let i = choose|i: int| 0 <= i < front.len() && #[trigger] front[i] == (key, mode);
                assert(entries[i] == (key, mode));
            }
        }
        if exists|i: int| 0 <= i < entries.len() && #[trigger] entries[i] == (key, mode) {
            let i = choose|i: int| 0 <= i < entries.len() && #[trigger] entries[i] == (key, mode);
            if i < entries.len() - 1 {
                assert(front[i] == (key, mode));
            }
        }
    }
}

/// In a request without a clash a key that is written is named once.
pub proof fn lemma_count_alone(entries: Seq<(u64, RequestType)>, key: u64)
    requires
        !clashes(entries),
    ensures
        count(entries, key, RequestType::Write) <= 1,
        count(entries, key, RequestType::Write) == 1 ==> count(entries, key, RequestType::Read)
            == 0,
    decreases entries.len(),
{
    if entries.len() > 0 {
        let front = entries.drop_last();
        let n = entries.len() - 1;
        assert(!clashes(front)) by {
            if clashes(front) {
                let (i, j) = choose|i: int, j: int|
                    0 <= i < j < front.len() && (#[trigger] front[i]).0 == (#[trigger] front[j]).0
                        && (front[i].1 == RequestType::Write || front[j].1 == RequestType::Write);
                assert(entries[i].0 == entries[j].0);
            }
        }
        lemma_count_alone(front, key);
        lemma_count_some(front, key, RequestType::Write);
        lemma_count_some(front, key, RequestType::Read);
        if entries.last().0 == key {
            if count(front, key, RequestType::Write) > 0 {
                let i = choose|i: int|
                    0 <= i < front.len() && #[trigger] front[i] == (key, RequestType::Write);
                assert(entries[i].0 == entries[n].0);
                assert(false);
            }
            if entries.last().1 == RequestType::Write && count(front, key, RequestType::Read) > 0 {
                let i = choose|i: int|
                    0 <= i < front.len() && #[trigger] front[i] == (key, RequestType::Read);
                assert(entries[i].0 == entries[n].0);
                assert(false);
            }
        }
    }
}

/// A new loan adds what it holds to the sums over the loans.
pub proof fn lemma_total_push(
    loans: Seq<Seq<(u64, RequestType)>>,
    entries: Seq<(u64, RequestType)>,
    key: u64,
    mode: RequestType,
)
    ensures
        total(loans.push(entries), key, mode) == total(loans, key, mode) + count(
            entries,
            key,
            mode,
        ),
{
    assert(loans.push(entries).drop_last() =~= loans);
}

/// A loan that ends takes what it holds out of the sums over the loans.
pub proof fn lemma_total_remove(
    loans: Seq<Seq<(u64, RequestType)>>,
    i: int,
    key: u64,
    mode: RequestType,
)
    requires
        0 <= i < loans.len(),
    ensures
        total(loans, key, mode) == total(loans.remove(i), key, mode) + count(loans[i], key, mode),
    decreases loans.len(),
{
    if i == loans.len() - 1 {
        assert(loans.remove(i) =~= loans.drop_last());
    } else {
        lemma_total_remove(loans.drop_last(), i, key, mode);
        assert(loans.remove(i).drop_last() =~= loans.drop_last().remove(i));
        assert(loans.remove(i).last() == loans.last());
    }
}

impl<V> Registry<V> {
    /// Granting a request that the registry answers with a grant keeps the
    /// invariant.
    pub proof fn lemma_granted_wf(self, entries: Seq<(u64, RequestType)>)
        requires
            self.wf(),
            self.answer(entries) is Grant,
        ensures
            self.granted(entries).wf(),
    {
        let after = self.granted(entries);
        assert(after.slots.dom() =~= self.slots.dom());
        assert forall|i: int, j: int| 0 <= i < j < after.ids.len() implies #[trigger] after.ids[i]
            != #[trigger] after.ids[j] by {
            if j < self.ids.len() {
                assert(self.ids[i] != self.ids[j]);
            } else {
                assert(self.ids[i] < self.issued);
            }
        }
        assert forall|i: int| 0 <= i < after.ids.len() implies #[trigger] after.ids[i]
            < after.issued by {
            if i < self.ids.len() {
                assert(self.ids[i] < self.issued);
            }
        }
        assert forall|k: u64| #[trigger] after.slots.contains_key(k) implies {
            &&& after.slots[k].readers == total(after.loans, k, RequestType::Read)
            &&& after.slots[k].writers == total(after.loans, k, RequestType::Write)
            &&& after.slots[k].writers <= 1
            &&& after.slots[k].writers == 1 ==> after.slots[k].readers == 0
            &&& after.slots[k].value is None ==> after.slots[k].writers == 1
        } by {
            assert(self.slots.contains_key(k));
            lemma_total_push(self.loans, entries, k, RequestType::Read);
            lemma_total_push(self.loans, entries, k, RequestType::Write);
            lemma_count_some(entries, k, RequestType::Read);
            lemma_count_some(entries, k, RequestType::Write);
            lemma_count_alone(entries, k);
            if count(entries, k, RequestType::Write) > 0 {
                let i = choose|i: int|
                    0 <= i < entries.len() && #[trigger] entries[i] == (k, RequestType::Write);
                assert(self.admits(entries[i]));
            }
            if count(entries, k, RequestType::Read) > 0 {
                let i = choose|i: int|
                    0 <= i < entries.len() && #[trigger] entries[i] == (k, RequestType::Read);
                assert(self.admits(entries[i]));
            }
        }
        assert forall|i: int, j: int|
            0 <= i < after.loans.len() && 0 <= j < after.loans[i].len() implies after.slots.contains_key(
            (#[trigger] after.loans[i][j]).0,
        ) by {
            if i < self.loans.len() {
                assert(self.slots.contains_key(self.loans[i][j].0));
            } else {
                assert(self.slots.contains_key(entries[j].0));
            }
        }
    }

    /// Giving a loan back keeps the invariant, provided every value that
    /// the loan took out for writing is back in its slot.
    pub proof fn lemma_released_wf(self, i: int)
        requires
            self.wf(),
            0 <= i < self.loans.len(),
            self.settled(i),
        ensures
            self.released(i).wf(),
    {
        let after = self.released(i);
        assert(after.slots.dom() =~= self.slots.dom());
        assert forall|a: int, b: int| 0 <= a < b < after.ids.len() implies #[trigger] after.ids[a]
            != #[trigger] after.ids[b] by {
            let a0 = if a < i {
                a
            } else {
                a + 1
            };
            let b0 = if b < i {
                b
            } else {
                b + 1
            };
            assert(self.ids[a0] != self.ids[b0]);
        }
        assert forall|a: int| 0 <= a < after.ids.len() implies #[trigger] after.ids[a]
            < after.issued by {
            let a0 = if a < i {
                a
            } else {
                a + 1
            };
            assert(self.ids[a0] < self.issued);
        }
        assert forall|k: u64| #[trigger] after.slots.contains_key(k) implies {
            &&& after.slots[k].readers == total(after.loans, k, RequestType::Read)
            &&& after.slots[k].writers == total(after.loans, k, RequestType::Write)
            &&& after.slots[k].writers <= 1
            &&& after.slots[k].writers == 1 ==> after.slots[k].readers == 0
            &&& after.slots[k].value is None ==> after.slots[k].writers == 1
        } by {
            assert(self.slots.contains_key(k));
            lemma_total_remove(self.loans, i, k, RequestType::Read);
            lemma_total_remove(self.loans, i, k, RequestType::Write);
            if after.slots[k].value is None {
                assert(self.slots[k].value is None);
            }
        }
        assert forall|a: int, b: int|
            0 <= a < after.loans.len() && 0 <= b < after.loans[a].len() implies after.slots.contains_key(
            (#[trigger] after.loans[a][b]).0,
        ) by {
            let a0 = if a < i {
                a
            } else {
                a + 1
            };
            assert(after.loans[a] == self.loans[a0]);
            assert(self.slots.contains_key(self.loans[a0][b].0));
        }
    }

    /// Registering a value keeps the invariant.
    pub proof fn lemma_inserted_wf(self, key: u64, value: V)
        requires
            self.wf(),
        ensures
            self.inserted(key, value).wf(),
    {
        let after = self.inserted(key, value);
        if self.takes(key) {
            assert(self.loans =~= Seq::empty());
            assert forall|k: u64| #[trigger] after.slots.contains_key(k) implies {
                &&& after.slots[k].readers == total(after.loans, k, RequestType::Read)
                &&& after.slots[k].writers == total(after.loans, k, RequestType::Write)
                &&& after.slots[k].writers <= 1
                &&& after.slots[k].writers == 1 ==> after.slots[k].readers == 0
                &&& after.slots[k].value is None ==> after.slots[k].writers == 1
            } by {
                if k != key {
                    assert(self.slots.contains_key(k));
                }
            }
        }
    }

    /// No two loans write one key at a time, and no loan reads a key while
    /// another writes it.
    pub proof fn lemma_writers_alone(self, a: int, b: int, key: u64)
        requires
            self.wf(),
            0 <= a < self.loans.len(),
            0 <= b < self.loans.len(),
            a != b,
            count(self.loans[a], key, RequestType::Write) > 0,
        ensures
            count(self.loans[b], key, RequestType::Write) == 0,
            count(self.loans[b], key, RequestType::Read) == 0,
    {
        lemma_count_some(self.loans[a], key, RequestType::Write);
        let j = choose|j: int|
            0 <= j < self.loans[a].len() && #[trigger] self.loans[a][j] == (
                key,
                RequestType::Write,
            );
        assert(self.slots.contains_key(self.loans[a][j].0));
        let rest = self.loans.remove(a);
        let b1 = if b < a {
            b
        } else {
            b - 1
        };
        assert(rest[b1] == self.loans[b]);
        lemma_total_remove(self.loans, a, key, RequestType::Write);
        lemma_total_remove(rest, b1, key, RequestType::Write);
        lemma_total_remove(self.loans, b, key, RequestType::Read);
    }

    /// Giving a loan back lowers the count of readers of every key that it
    /// read and the count of writers of every key that it wrote, and leaves
    /// the other counts as they are.
    pub proof fn lemma_release_lowers(self, i: int, key: u64)
        requires
            self.wf(),
            0 <= i < self.loans.len(),
            self.slots.contains_key(key),
        ensures
            self.released(i).slots[key].readers + count(self.loans[i], key, RequestType::Read)
                == self.slots[key].readers,
            self.released(i).slots[key].writers + count(self.loans[i], key, RequestType::Write)
                == self.slots[key].writers,
            count(self.loans[i], key, RequestType::Read) > 0 ==> self.released(i).slots[key].readers
                < self.slots[key].readers,
            count(self.loans[i], key, RequestType::Write) > 0 ==> self.released(
                i,
            ).slots[key].writers < self.slots[key].writers,
    {
        lemma_total_remove(self.loans, i, key, RequestType::Read);
        lemma_total_remove(self.loans, i, key, RequestType::Write);
    }

    /// Offering a value under a key a second time changes nothing.
    pub proof fn lemma_insert_twice(self, key: u64, first: V, second: V)
        ensures
            self.inserted(key, first).inserted(key, second) == self.inserted(key, first),
    {
    }

    /// The registry after each request of `requests`, in turn, was granted
    /// and its loan given back before the next.
    pub open spec fn served(self, requests: Seq<Seq<(u64, RequestType)>>) -> Registry<V>
        decreases requests.len(),
    {
        if requests.len() == 0 {
            self
        } else {
            self.granted(requests[0]).released(self.loans.len() as int).served(
                requests.drop_first(),
            )
        }
    }

    /// Requests that are served one at a time leave no trace but in the
    /// count of loans handed out: each meets the slots and loans that the
    /// first one met, and so gets the answer that it would get alone.
    pub proof fn lemma_served(self, requests: Seq<Seq<(u64, RequestType)>>)
        requires
            self.wf(),
        ensures
            self.served(requests) == (Registry { issued: self.issued + requests.len(), ..self }),
        decreases requests.len(),
    {
        if requests.len() > 0 {
            self.lemma_grant_release(requests[0]);
            let next = Registry { issued: self.issued + 1, ..self };
            next.lemma_served(requests.drop_first());
        }
    }

    /// A loan that is given back before anything else happens leaves the
    /// registry as it was before the loan.
    pub proof fn lemma_grant_release(self, entries: Seq<(u64, RequestType)>)
        requires
            self.wf(),
        ensures
            self.granted(entries).released(self.loans.len() as int) == (Registry {
                issued: self.issued + 1,
                ..self
            }),
    {
        let mid = self.granted(entries);
        let after = mid.released(self.loans.len() as int);
        assert(after.loans =~= self.loans);
        assert(after.ids =~= self.ids);
        assert(after.slots =~= self.slots);
    }

    /// A loan stays outstanding when another request is granted.
    pub proof fn lemma_lent_granted(
        self,
        id: nat,
        held: Seq<(u64, RequestType)>,
        entries: Seq<(u64, RequestType)>,
    )
        requires
            self.wf(),
            self.lent(id, held),
        ensures
            self.granted(entries).lent(id, held),
            self.granted(entries).lent(self.issued, entries),
            self.granted(entries).loan_index(self.issued) == self.loans.len(),
    {
        let after = self.granted(entries);
        let i = choose|i: int|
            0 <= i < self.ids.len() && #[trigger] self.ids[i] == id && self.loans[i] == held;
        assert(after.ids[i] == id && after.loans[i] == held);
        self.lemma_issued(entries);
    }

    /// The loan that a grant hands out is outstanding under the next
    /// number, at the end of the loans.
    pub proof fn lemma_issued(self, entries: Seq<(u64, RequestType)>)
        requires
            self.wf(),
        ensures
            self.granted(entries).lent(self.issued, entries),
            self.granted(entries).loan_index(self.issued) == self.loans.len(),
    {
        let after = self.granted(entries);
        let n = self.loans.len() as int;
        assert(after.ids[n] == self.issued && after.loans[n] == entries);
        let at = after.loan_index(self.issued);
        if at != n {
            assert(self.ids[at] == self.issued);
        }
    }

    /// The position of an outstanding loan is the one that holds its number.
    pub proof fn lemma_loan_index(self, id: nat, held: Seq<(u64, RequestType)>)
        requires
            self.wf(),
            self.lent(id, held),
        ensures
            0 <= self.loan_index(id) < self.loans.len(),
            self.ids[self.loan_index(id)] == id,
            self.loans[self.loan_index(id)] == held,
    {
        let i = choose|i: int|
            0 <= i < self.ids.len() && #[trigger] self.ids[i] == id && self.loans[i] == held;
        let at = self.loan_index(id);
        if at < i {
            assert(self.ids[at] != self.ids[i]);
        }
        if i < at {
            assert(self.ids[i] != self.ids[at]);
        }
    }

    /// A loan stays outstanding when another loan is given back.
    pub proof fn lemma_lent_released(self, id: nat, held: Seq<(u64, RequestType)>, other: nat)
        requires
            self.wf(),
            self.lent(id, held),
            other != id,
            exists|i: int| 0 <= i < self.ids.len() && #[trigger] self.ids[i] == other,
        ensures
            self.released(self.loan_index(other)).lent(id, held),
    {
        let at = self.loan_index(other);
        let after = self.released(at);
        let i = choose|i: int|
            0 <= i < self.ids.len() && #[trigger] self.ids[i] == id && self.loans[i] == held;
        let j = if i < at {
            i
        } else {
            i - 1
        };
        assert(after.ids[j] == id && after.loans[j] == held);
    }
}

/// A list of keys, each with the access that is asked for on it.
pub struct Request {
    resources: Vec<(u64, RequestType)>,
}

impl View for Request {
    type V = Seq<(u64, RequestType)>;

    /// The entries in the order in which they were added.
    closed spec fn view(&self) -> Seq<(u64, RequestType)> {
        self.resources@
    }
}

impl Request {
    /// A request for nothing.
    pub fn new() -> (r: Request)
        ensures
            r@ == Seq::<(u64, RequestType)>::empty(),
    {
        Request { resources: Vec::new() }
    }

    /// Adds a key with read access.
    pub fn read(&mut self, r: u64) -> (ret: &mut Self)
        ensures
            ret@ == old(self)@.push((r, RequestType::Read)),
            *final(self) == *final(ret),
    {
        self.resources.push((r, RequestType::Read));
        self
    }

    /// Adds a key with write access.
    pub fn write(&mut self, r: u64) -> (ret: &mut Self)
        ensures
            ret@ == old(self)@.push((r, RequestType::Write)),
            *final(self) == *final(ret),
    {
        self.resources.push((r, RequestType::Write));
        self
    }

    /// The number of entries.
    pub fn len(&self) -> (n: usize)
        ensures
            n == self@.len(),
    {
        self.resources.len()
    }

    /// The entry at position `i`.
    pub fn entry(&self, i: usize) -> (e: (u64, RequestType))
        requires
            i < self@.len(),
        ensures
            e == self@[i as int],
    {
        self.resources[i]
    }

    /// Whether the request names some key twice with a write among the two.
    pub fn clashing(&self) -> (r: bool)
        ensures
            r == clashes(self@),
    {
        let n = self.resources.len();
        let mut j: usize = 0;
        while j < n
            invariant
                n == self@.len(),
                j <= n,
                forall|a: int, b: int|
                    0 <= a < b < j ==> !((#[trigger] self@[a]).0 == (#[trigger] self@[b]).0 && (
                    self@[a].1 == RequestType::Write || self@[b].1 == RequestType::Write)),
            decreases n - j,
        {
            let (key, mode) = self.resources[j];
            let mut i: usize = 0;
            while i < j
                invariant
                    n == self@.len(),
                    j < n,
                    i <= j,
                    (key, mode) == self@[j as int],
                    forall|a: int|
                        0 <= a < i ==> !((#[trigger] self@[a]).0 == key && (self@[a].1
                            == RequestType::Write || mode == RequestType::Write)),
                decreases j - i,
            {
                let (other, access) = self.resources[i];
                let written = match (access, mode) {
                    (RequestType::Read, RequestType::Read) => false,
                    _ => true,
                };
                if other == key && written {
                    assert(self@[i as int].0 == self@[j as int].0);
                    return true;
                }
                i = i + 1;
            }
            j = j + 1;
        }
        false
    }
}

/// The error of a registry that can no longer be used.
#[derive(Debug)]
pub struct PoisionSyncMapError();

impl PoisionSyncMapError {
    /// What the error says.
    pub fn message(&self) -> (r: String)
        ensures
            r@ == "SyncMap has been poisioned"@,
    {
        "SyncMap has been poisioned".to_string()
    }
}

/// A value with the number of loans that read it and that write it.
pub struct RwInfo<V> {
    readers: usize,
    writers: usize,
    value: V,
}

impl<V> RwInfo<V> {
    /// The number of loans that read the value.
    pub closed spec fn readers(&self) -> nat {
        self.readers as nat
    }

    /// The number of loans that write the value.
    pub closed spec fn writers(&self) -> nat {
        self.writers as nat
    }

    /// The value.
    pub closed spec fn value(&self) -> V {
        self.value
    }

    /// A value that nobody reads or writes.
    pub fn new(value: V) -> (r: RwInfo<V>)
        ensures
            r.readers() == 0,
            r.writers() == 0,
            r.value() == value,
    {
        RwInfo { readers: 0, writers: 0, value }
    }

    /// Whether another reader can be let in: there is no writer.
    pub fn can_read(&self) -> (r: bool)
        ensures
            r == (self.writers() == 0),
    {
        self.writers == 0
    }

    /// Whether a writer can be let in: there is neither writer nor reader.
    pub fn can_write(&self) -> (r: bool)
        ensures
            r == (self.writers() == 0 && self.readers() == 0),
    {
        self.writers == 0 && self.readers == 0
    }

    /// Counts one more reader.
    fn read(&mut self)
        requires
            old(self).readers() < usize::MAX,
        ensures
            final(self).readers() == old(self).readers() + 1,
            final(self).writers() == old(self).writers(),
            final(self).value() == old(self).value(),
    {
        self.readers = self.readers + 1;
    }

    /// Counts one more writer.
    fn write(&mut self)
        requires
            old(self).writers() < usize::MAX,
        ensures
            final(self).writers() == old(self).writers() + 1,
            final(self).readers() == old(self).readers(),
            final(self).value() == old(self).value(),
    {
        self.writers = self.writers + 1;
    }

    /// Counts one reader less.
    fn unread(&mut self)
        requires
            old(self).readers() > 0,
        ensures
            final(self).readers() == old(self).readers() - 1,
            final(self).writers() == old(self).writers(),
            final(self).value() == old(self).value(),
    {
        self.readers = self.readers - 1;
    }

    /// Counts one writer less.
    fn unwrite(&mut self)
        requires
            old(self).writers() > 0,
        ensures
            final(self).writers() == old(self).writers() - 1,
            final(self).readers() == old(self).readers(),
            final(self).value() == old(self).value(),
    {
        self.writers = self.writers - 1;
    }
}

/// What a request got: the keys with the access granted on each. It stands
/// for the access until it is handed back to the registry that granted it.
pub struct Loan {
    entries: Vec<(u64, RequestType)>,
    id: Ghost<nat>,
}

impl View for Loan {
    type V = Seq<(u64, RequestType)>;

    /// The entries of the request that was granted.
    closed spec fn view(&self) -> Seq<(u64, RequestType)> {
        self.entries@
    }
}

/// How a request ended.
pub enum Fulfilment {
    /// The request was granted.
    Granted(Loan),
    /// A key of the request is not registered.
    Missing,
    /// The request has to wait until a loan is given back.
    Wait,
}

/// How an offer of a value ended.
pub enum Insertion<V> {
    /// The key holds a value: the one offered, or the one it held before.
    Done,
    /// Loans pin the registry: the value comes back, to be offered again
    /// when a loan was given back.
    Wait(V),
}

/// The record of the loans that are out.
pub struct Ledger {
    pub loans: Seq<Seq<(u64, RequestType)>>,
    pub ids: Seq<nat>,
    pub issued: nat,
}

/// The registry.
pub struct SyncMap<V> {
    map: RwInfo<HashMap<u64, RwInfo<Option<V>>>>,
    ledger: Ghost<Ledger>,
}

impl<V> View for SyncMap<V> {
    type V = Registry<V>;

    closed spec fn view(&self) -> Registry<V> {
        Registry {
            slots: Map::new(
                |k: u64| self.map.value@.contains_key(k),
                |k: u64|
                    Slot {
                        readers: self.map.value@[k].readers as nat,
                        writers: self.map.value@[k].writers as nat,
                        value: self.map.value@[k].value,
                    },
            ),
            pins: self.map.readers as nat,
            loans: self.ledger@.loans,
            ids: self.ledger@.ids,
            issued: self.ledger@.issued,
        }
    }
}

impl<V> SyncMap<V> {
    /// Whether nobody writes the registry itself.
    pub closed spec fn unwritten(&self) -> bool {
        self.map.writers == 0
    }

    /// The invariant of the registry.
    pub open spec fn wf(&self) -> bool {
        &&& self@.wf()
        &&& self.unwritten()
    }

    /// A registry without keys and loans.
    pub fn new() -> (m: SyncMap<V>)
        ensures
            m.wf(),
            m@.slots == Map::<u64, Slot<V>>::empty(),
            m@.pins == 0,
            m@.loans == Seq::<Seq<(u64, RequestType)>>::empty(),
            m@.ids == Seq::<nat>::empty(),
            m@.issued == 0,
    {
        let m = SyncMap {
            map: RwInfo::new(HashMap::new()),
            ledger: Ghost(Ledger { loans: Seq::empty(), ids: Seq::empty(), issued: 0 }),
        };
        assert(m@.slots =~= Map::<u64, Slot<V>>::empty());
        m
    }

    /// Offers `value` under `key`. A key that holds a value keeps it; a new
    /// key gets the value once no loan pins the registry.
    pub fn insert(&mut self, key: u64, value: V) -> (r: Insertion<V>)
        requires
            old(self).wf(),
        ensures
            final(self).wf(),
            final(self)@ == old(self)@.inserted(key, value),
            match r {
                Insertion::Done => old(self)@.slots.contains_key(key) || old(self)@.pins == 0,
                Insertion::Wait(back) => {
                    &&& back == value
                    &&& !old(self)@.takes(key)
                    &&& !old(self)@.slots.contains_key(key)
                },
            },
    {
        let ghost before = *self;
        proof {
            before@.lemma_inserted_wf(key, value);
        }
        if self.map.can_read() {
            if let Some(_) = self.map.value.get(&key) {
                return Insertion::Done;
            }
        }
        if self.map.can_write() {
            self.map.value.insert(key, RwInfo::new(Some(value)));
            assert(self@.slots =~= before@.inserted(key, value).slots);
            return Insertion::Done;
        }
        Insertion::Wait(value)
    }

    /// Counts one more loan with `mode` on the slot of `key`.
    fn lend(&mut self, key: u64, mode: RequestType)
        requires
            old(self).map.value@.contains_key(key),
            mode == RequestType::Read ==> old(self).map.value@[key].readers < usize::MAX,
            mode == RequestType::Write ==> old(self).map.value@[key].writers < usize::MAX,
        ensures
            final(self).map.readers == old(self).map.readers,
            final(self).map.writers == old(self).map.writers,
            final(self).ledger == old(self).ledger,
            final(self).map.value@.dom() == old(self).map.value@.dom(),
            forall|k: u64|
                k != key && old(self).map.value@.contains_key(k) ==> #[trigger] final(
                    self
                ).map.value@[k] == old(self).map.value@[k],
            final(self).map.value@[key].value == old(self).map.value@[key].value,
            final(self).map.value@[key].readers == old(self).map.value@[key].readers + (if mode
                == RequestType::Read {
                1int
            } else {
                0int
            }),
            final(self).map.value@[key].writers == old(self).map.value@[key].writers + (if mode
                == RequestType::Write {
                1int
            } else {
                0int
            }),
    {
        let ghost before = self.map.value@;
        match self.map.value.remove(&key) {
            Some(mut slot) => {
                match mode {
                    RequestType::Read => slot.read(),
                    RequestType::Write => slot.write(),
                }
                self.map.value.insert(key, slot);
                assert(self.map.value@.dom() =~= before.dom());
            },
            None => {},
        }
    }

    /// Counts one loan with `mode` less on the slot of `key`.
    fn take_back(&mut self, key: u64, mode: RequestType)
        requires
            old(self).map.value@.contains_key(key),
            mode == RequestType::Read ==> old(self).map.value@[key].readers > 0,
            mode == RequestType::Write ==> old(self).map.value@[key].writers > 0,
        ensures
            final(self).map.readers == old(self).map.readers,
            final(self).map.writers == old(self).map.writers,
            final(self).ledger == old(self).ledger,
            final(self).map.value@.dom() == old(self).map.value@.dom(),
            forall|k: u64|
                k != key && old(self).map.value@.contains_key(k) ==> #[trigger] final(
                    self
                ).map.value@[k] == old(self).map.value@[k],
            final(self).map.value@[key].value == old(self).map.value@[key].value,
            final(self).map.value@[key].readers == old(self).map.value@[key].readers - (if mode
                == RequestType::Read {
                1int
            } else {
                0int
            }),
            final(self).map.value@[key].writers == old(self).map.value@[key].writers - (if mode
                == RequestType::Write {
                1int
            } else {
                0int
            }),
    {
        let ghost before = self.map.value@;
        match self.map.value.remove(&key) {
            Some(mut slot) => {
                match mode {
                    RequestType::Read => slot.unread(),
                    RequestType::Write => slot.unwrite(),
                }
                self.map.value.insert(key, slot);
                assert(self.map.value@.dom() =~= before.dom());
            },
            None => {},
        }
    }

    /// Whether the counters can take a loan of `request` without leaving
    /// the range of the machine's integers.
    pub fn has_room(&self, request: &Request) -> (r: bool)
        ensures
            r == self@.roomy(request@),
    {
        let n = request.len();
        if self.map.readers == usize::MAX {
            return false;
        }
        let mut j: usize = 0;
        while j < n
            invariant
                n == request@.len(),
                j <= n,
                self@.pins < usize::MAX,
                forall|i: int|
                    0 <= i < j && self@.slots.contains_key((#[trigger] request@[i]).0)
                        ==> self@.slots[request@[i].0].readers + n <= usize::MAX,
            decreases n - j,
        {
            let (key, _) = request.entry(j);
            match self.map.value.get(&key) {
                Some(slot) => {
                    if slot.readers > usize::MAX - n {
                        assert(self@.slots.contains_key(request@[j as int].0));
                        return false;
                    }
                },
                None => {},
            }
            j = j + 1;
        }
        true
    }

    /// Answers a request. Where every key is registered, every entry can be
    /// had now and no two entries exclude each other, the request is granted:
    /// each entry counts on its slot, and the loan pins the registry. In
    /// every other case the registry stays as it is.
    pub fn request(&mut self, request: &Request) -> (r: Result<Fulfilment, PoisionSyncMapError>)
        requires
            old(self).wf(),
            old(self)@.roomy(request@),
        ensures
            final(self).wf(),
            match r {
                Ok(Fulfilment::Granted(loan)) => {
                    &&& old(self)@.answer(request@) is Grant
                    &&& loan@ == request@
                    &&& loan.ident() == old(self)@.issued
                    &&& final(self)@ == old(self)@.granted(request@)
                    &&& final(self)@.lent(loan.ident(), loan@)
                },
                Ok(Fulfilment::Missing) => {
                    &&& old(self)@.answer(request@) is Missing
                    &&& final(self)@ == old(self)@
                },
                Ok(Fulfilment::Wait) => {
                    &&& old(self)@.answer(request@) is Wait
                    &&& final(self)@ == old(self)@
                },
                Err(_) => {
                    &&& old(self)@.answer(request@) is Clash
                    &&& final(self)@ == old(self)@
                },
            },
    {
        let ghost before = *self;
        let ghost reg = self@;
        let ghost req = request@;
        let n = request.len();
        let mut lacking = false;
        let mut blocked = false;
        let mut j: usize = 0;
        while j < n
            invariant
                *self == before,
                reg == before@,
                req == request@,
                n == req.len(),
                j <= n,
                lacking == (exists|i: int|
                    0 <= i < j && !reg.slots.contains_key((#[trigger] req[i]).0)),
                blocked == (exists|i: int| 0 <= i < j && !reg.admits(#[trigger] req[i])),
            decreases n - j,
        {
            let (key, mode) = request.entry(j);
            match self.map.value.get(&key) {
                None => {
                    lacking = true;
                    blocked = true;
                },
                Some(slot) => {
                    let free = match mode {
                        RequestType::Read => slot.can_read(),
                        RequestType::Write => slot.can_write(),
                    };
                    if !free {
                        blocked = true;
                    }
                },
            }
            j = j + 1;
        }
        if lacking {
            return Ok(Fulfilment::Missing);
        }
        if blocked {
            return Ok(Fulfilment::Wait);
        }
        if request.clashing() {
            return Err(PoisionSyncMapError());
        }
        let mut entries: Vec<(u64, RequestType)> = Vec::new();
        let mut j: usize = 0;
        while j < n
            invariant
                before.wf(),
                reg == before@,
                req == request@,
                reg.roomy(req),
                !reg.lacks(req),
                !reg.blocks(req),
                n == req.len(),
                j <= n,
                entries@ == req.take(j as int),
                self.map.readers == before.map.readers,
                self.map.writers == before.map.writers,
                self.ledger == before.ledger,
                self.map.value@.dom() == before.map.value@.dom(),
                forall|k: u64| #[trigger]
                    before.map.value@.contains_key(k) ==> {
                        &&& self.map.value@[k].value == before.map.value@[k].value
                        &&& self.map.value@[k].readers == before.map.value@[k].readers + count(
                            req.take(j as int),
                            k,
                            RequestType::Read,
                        )
                        &&& self.map.value@[k].writers == before.map.value@[k].writers + count(
                            req.take(j as int),
                            k,
                            RequestType::Write,
                        )
                    },
            decreases n - j,
        {
            let (key, mode) = request.entry(j);
            proof {
                assert(reg.admits(req[j as int]));
                assert(reg.slots.contains_key(key));
                assert(before.map.value@.contains_key(key));
                lemma_count_prefix(req.take(j as int), j as int, key, RequestType::Read);
                lemma_count_prefix(req.take(j as int), j as int, key, RequestType::Write);
                assert(req.take(j + 1) =~= req.take(j as int).push(req[j as int]));
            }
            let ghost mid = self.map.value@;
            self.lend(key, mode);
            entries.push((key, mode));
            proof {
                assert forall|k: u64| #[trigger] before.map.value@.contains_key(k) implies {
                    &&& self.map.value@[k].value == before.map.value@[k].value
                    &&& self.map.value@[k].readers == before.map.value@[k].readers + count(
                        req.take(j + 1),
                        k,
                        RequestType::Read,
                    )
                    &&& self.map.value@[k].writers == before.map.value@[k].writers + count(
                        req.take(j + 1),
                        k,
                        RequestType::Write,
                    )
                } by {
                    lemma_count_push(req.take(j as int), req[j as int], k, RequestType::Read);
                    lemma_count_push(req.take(j as int), req[j as int], k, RequestType::Write);
                    if k != key {
                        assert(mid.contains_key(k));
                        assert(self.map.value@[k] == mid[k]);
                    }
                }
            }
            j = j + 1;
        }
        self.map.read();
        proof {
            self.ledger@ = Ledger {
                loans: reg.loans.push(req),
                ids: reg.ids.push(reg.issued),
                issued: reg.issued + 1,
            };
            assert(req.take(n as int) =~= req);
            reg.lemma_granted_wf(req);
            reg.lemma_issued(req);
            assert(self@.slots =~= reg.granted(req).slots);
        }
        Ok(Fulfilment::Granted(Loan { entries, id: Ghost(reg.issued) }))
    }

    /// Takes a loan back: every entry of the loan leaves the count of its
    /// slot, and the loan no longer pins the registry.
    pub fn resend(&mut self, loan: Loan)
        requires
            old(self).wf(),
            old(self)@.lent(loan.ident(), loan@),
            old(self)@.settled(old(self)@.loan_index(loan.ident())),
        ensures
            final(self).wf(),
            final(self)@ == old(self)@.released(old(self)@.loan_index(loan.ident())),
    {
        let ghost before = *self;
        let ghost reg = self@;
        let ghost held = loan@;
        let ghost at = reg.loan_index(loan.ident());
        proof {
            reg.lemma_loan_index(loan.ident(), held);
        }
        let n = loan.entries.len();
        let mut j: usize = 0;
        while j < n
            invariant
                before.wf(),
                reg == before@,
                held == loan@,
                0 <= at < reg.loans.len(),
                reg.loans[at] == held,
                n == held.len(),
                j <= n,
                self.map.readers == before.map.readers,
                self.map.writers == before.map.writers,
                self.ledger == before.ledger,
                self.map.value@.dom() == before.map.value@.dom(),
                forall|k: u64| #[trigger]
                    before.map.value@.contains_key(k) ==> {
                        &&& self.map.value@[k].value == before.map.value@[k].value
                        &&& self.map.value@[k].readers + count(
                            held.take(j as int),
                            k,
                            RequestType::Read,
                        ) == before.map.value@[k].readers
                        &&& self.map.value@[k].writers + count(
                            held.take(j as int),
                            k,
                            RequestType::Write,
                        ) == before.map.value@[k].writers
                    },
            decreases n - j,
        {
            let (key, mode) = loan.entries[j];
            proof {
                assert(reg.slots.contains_key(reg.loans[at][j as int].0));
                assert(before.map.value@.contains_key(key));
                lemma_total_remove(reg.loans, at, key, mode);
                lemma_count_prefix(held, j + 1, key, mode);
                assert(held.take(j + 1) =~= held.take(j as int).push(held[j as int]));
                lemma_count_push(held.take(j as int), held[j as int], key, mode);
            }
            let ghost mid = self.map.value@;
            self.take_back(key, mode);
            proof {
                assert forall|k: u64| #[trigger] before.map.value@.contains_key(k) implies {
                    &&& self.map.value@[k].value == before.map.value@[k].value
                    &&& self.map.value@[k].readers + count(held.take(j + 1), k, RequestType::Read)
                        == before.map.value@[k].readers
                    &&& self.map.value@[k].writers + count(
                        held.take(j + 1),
                        k,
                        RequestType::Write,
                    ) == before.map.value@[k].writers
                } by {
                    lemma_count_push(held.take(j as int), held[j as int], k, RequestType::Read);
                    lemma_count_push(held.take(j as int), held[j as int], k, RequestType::Write);
                    if k != key {
                        assert(mid.contains_key(k));
                        assert(self.map.value@[k] == mid[k]);
                    }
                }
            }
            j = j + 1;
        }
        self.map.unread();
        proof {
            self.ledger@ = Ledger {
                loans: reg.loans.remove(at),
                ids: reg.ids.remove(at),
                issued: reg.issued,
            };
            assert(held.take(n as int) =~= held);
            reg.lemma_released_wf(at);
            assert(self@.slots =~= reg.released(at).slots);
        }
    }
}

impl Loan {
    /// The number under which the loan was handed out.
    pub closed spec fn ident(&self) -> nat {
        self.id@
    }

    /// Whether the loan holds `mode` on `key`.
    pub fn grants(&self, key: u64, mode: RequestType) -> (r: bool)
        ensures
            r == (count(self@, key, mode) > 0),
    {
        let n = self.entries.len();
        let mut j: usize = 0;
        while j < n
            invariant
                n == self@.len(),
                j <= n,
                forall|i: int| 0 <= i < j ==> #[trigger] self@[i] != (key, mode),
            decreases n - j,
        {
            let (k, m) = self.entries[j];
            let same = match (m, mode) {
                (RequestType::Read, RequestType::Read) => true,
                (RequestType::Write, RequestType::Write) => true,
                _ => false,
            };
            if k == key && same {
                proof {
                    assert(self@[j as int] == (key, mode));
                    lemma_count_some(self@, key, mode);
                }
                return true;
            }
            j = j + 1;
        }
        proof {
            lemma_count_some(self@, key, mode);
        }
        false
    }

    /// The value under `key`, where the loan reads that key.
    pub fn read<'a, V>(&self, map: &'a SyncMap<V>, key: &u64) -> (r: Option<&'a V>)
        requires
            map.wf(),
            map@.lent(self.ident(), self@),
        ensures
            match r {
                Some(v) => count(self@, *key, RequestType::Read) > 0 && map@.slots[*key].value
                    == Some(*v),
                None => count(self@, *key, RequestType::Read) == 0,
            },
    {
        if !self.grants(*key, RequestType::Read) {
            return None;
        }
        proof {
            let at = map@.loan_index(self.ident());
            map@.lemma_loan_index(self.ident(), self@);
            lemma_count_some(self@, *key, RequestType::Read);
            let j = choose|j: int|
                0 <= j < self@.len() && #[trigger] self@[j] == (*key, RequestType::Read);
            assert(map@.slots.contains_key(map@.loans[at][j].0));
            lemma_total_remove(map@.loans, at, *key, RequestType::Read);
        }
        match map.map.value.get(key) {
            Some(slot) => match &slot.value {
                Some(v) => Some(v),
                None => None,
            },
            None => None,
        }
    }

    /// Takes the value under `key` out of its slot, where the loan writes
    /// that key and the value is there. While the value is out, a second
    /// attempt gets nothing.
    pub fn write<V>(&self, map: &mut SyncMap<V>, key: &u64) -> (r: Option<V>)
        requires
            old(map).wf(),
            old(map)@.lent(self.ident(), self@),
        ensures
            final(map).wf(),
            match r {
                Some(v) => {
                    &&& count(self@, *key, RequestType::Write) > 0
                    &&& old(map)@.slots[*key].value == Some(v)
                    &&& final(map)@ == old(map)@.with_value(*key, None)
                },
                None => {
                    &&& count(self@, *key, RequestType::Write) == 0 || old(map)@.slots[*key].value is None
                    &&& final(map)@ == old(map)@
                },
            },
    {
        if !self.grants(*key, RequestType::Write) {
            return None;
        }
        let ghost before = *map;
        proof {
            let at = before@.loan_index(self.ident());
            before@.lemma_loan_index(self.ident(), self@);
            lemma_count_some(self@, *key, RequestType::Write);
            let j = choose|j: int|
                0 <= j < self@.len() && #[trigger] self@[j] == (*key, RequestType::Write);
            assert(before@.slots.contains_key(before@.loans[at][j].0));
            lemma_total_remove(before@.loans, at, *key, RequestType::Write);
        }
        match map.map.value.remove(key) {
            Some(slot) => {
                let RwInfo { readers, writers, value } = slot;
                map.map.value.insert(*key, RwInfo { readers, writers, value: None });
                proof {
                    if value is Some {
                        assert(map@.slots =~= before@.with_value(*key, None).slots);
                    } else {
                        assert(map@.slots =~= before@.slots);
                    }
                    assert forall|k: u64| #[trigger] map@.slots.contains_key(k) implies {
                        &&& map@.slots[k].readers == total(map@.loans, k, RequestType::Read)
                        &&& map@.slots[k].writers == total(map@.loans, k, RequestType::Write)
                        &&& map@.slots[k].writers <= 1
                        &&& map@.slots[k].writers == 1 ==> map@.slots[k].readers == 0
                        &&& map@.slots[k].value is None ==> map@.slots[k].writers == 1
                    } by {
                        assert(before@.slots.contains_key(k));
                    }
                }
                value
            },
            None => None,
        }
    }

    /// Puts a value that `write` took out back into the slot of `key`.
    pub fn restore<V>(&self, map: &mut SyncMap<V>, key: u64, value: V)
        requires
            old(map).wf(),
            old(map)@.lent(self.ident(), self@),
            count(self@, key, RequestType::Write) > 0,
            old(map)@.slots.contains_key(key),
            old(map)@.slots[key].value is None,
        ensures
            final(map).wf(),
            final(map)@ == old(map)@.with_value(key, Some(value)),
    {
        let ghost before = *map;
        match map.map.value.remove(&key) {
            Some(slot) => {
                let RwInfo { readers, writers, value: _ } = slot;
                map.map.value.insert(key, RwInfo { readers, writers, value: Some(value) });
                proof {
                    assert(map@.slots =~= before@.with_value(key, Some(value)).slots);
                    assert forall|k: u64| #[trigger] map@.slots.contains_key(k) implies {
                        &&& map@.slots[k].readers == total(map@.loans, k, RequestType::Read)
                        &&& map@.slots[k].writers == total(map@.loans, k, RequestType::Write)
                        &&& map@.slots[k].writers <= 1
                        &&& map@.slots[k].writers == 1 ==> map@.slots[k].readers == 0
                        &&& map@.slots[k].value is None ==> map@.slots[k].writers == 1
                    } by {
                        assert(before@.slots.contains_key(k));
                    }
                }
            },
            None => {},
        }
    }
}

} // verus!
