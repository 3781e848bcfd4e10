//! The bound every stored component type meets.

use vstd::prelude::*;

verus! {

/// A value that can be kept in a component store and handed between threads.
/// The stores do not look inside a component; they keep and enumerate it.
pub trait Component: Send + Sync + 'static {

}

/// A store of components of one type, as the registry holds it.
pub trait ComponentCollection: Send + Sync {

}

} // verus!
