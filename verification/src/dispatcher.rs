//! The systems of one state, and the rule by which the verdicts of their
//! updates become one verdict. Running the systems is the caller's part;
//! the order in which they were added is the order of the reduction.

use crate::state::Trans;
use vstd::prelude::*;

verus! {

/// Whether the verdicts of `v` from position `a` up to `b` are all `Stay`.
pub open spec fn quiet<T>(v: Seq<Trans<T>>, a: int, b: int) -> bool {
    forall|j: int| a <= j < b ==> (#[trigger] v[j]) is Stay
}

/// The systems of one state, in the order in which they were added.
pub struct Dispatcher<T> {
    systems: Vec<T>,
}

impl<T> View for Dispatcher<T> {
    type V = Seq<T>;

    closed spec fn view(&self) -> Seq<T> {
        self.systems@
    }
}

impl<T> Dispatcher<T> {
    /// A dispatcher without systems.
    pub fn new() -> (d: Dispatcher<T>)
        ensures
            d@ == Seq::<T>::empty(),
    {
        Dispatcher { systems: Vec::new() }
    }

    /// Adds a system behind those that are there.
    pub fn with(&mut self, system: T) -> (ret: &mut Self)
        ensures
            ret@ == old(self)@.push(system),
            *final(self) == *final(ret),
    {
        self.systems.push(system);
        self
    }

    /// The systems, for the caller to run.
    pub fn systems_mut(&mut self) -> (ret: &mut Vec<T>)
        ensures
            ret@ == old(self)@,
            final(self)@ == final(ret)@,
    {
        &mut self.systems
    }

    /// Reduces the verdicts that the systems returned on update, given in
    /// the order of the systems: the first verdict that is not `Stay` wins,
    /// and where all are `Stay` the result is `Stay`.
    pub fn on_update(&self, verdicts: Vec<Trans<T>>) -> (r: Trans<T>)
        ensures
            quiet(verdicts@, 0, verdicts@.len() as int) ==> r is Stay,
            forall|i: int|
                0 <= i < verdicts@.len() && quiet(verdicts@, 0, i) && !(verdicts@[i] is Stay) ==> r
                    == #[trigger] verdicts@[i],
    {
        let ghost all = verdicts@;
        let ghost n = all.len() as int;
        let mut rest = verdicts;
        let mut result: Trans<T> = Trans::Stay;
        while rest.len() > 0
            invariant
                n == all.len(),
                rest@.len() <= n,
                rest@ == all.take(rest@.len() as int),
                quiet(all, rest@.len() as int, n) ==> result is Stay,
                forall|i: int|
                    rest@.len() <= i < n && quiet(all, rest@.len() as int, i) && !(all[i] is Stay)
                        ==> result == #[trigger] all[i],
            decreases rest@.len(),
        {
            let ghost k = rest@.len() as int;
            let verdict = rest.pop();
            assert(rest@ =~= all.take(k - 1));
            match verdict {
                Some(Trans::Stay) => {
                    assert(all[k - 1] is Stay);
                    assert forall|i: int|
                        k - 1 <= i < n && quiet(all, k - 1, i) && !(all[i] is Stay) implies result
                        == #[trigger] all[i] by {
                        assert(i != k - 1);
                        assert(quiet(all, k, i));
                    }
                    assert(quiet(all, k - 1, n) ==> quiet(all, k, n));
                },
                Some(other) => {
                    result = other;
                    assert(result == all[k - 1]);
                    assert forall|i: int|
                        k - 1 <= i < n && quiet(all, k - 1, i) && !(all[i] is Stay) implies result
                        == #[trigger] all[i] by {
                        if i != k - 1 {
                            assert(all[k - 1] is Stay);
                        }
                    }
                    assert(!quiet(all, k - 1, n)) by {
                        if quiet(all, k - 1, n) {
                            assert(all[k - 1] is Stay);
                        }
                    }
                },
                Option::None => {},
            }
        }
        result
    }
}

} // verus!
