use vstd::prelude::*;
use std::fmt::Debug;
use std::hash::Hash;

use super::{PackageName, RelativePath};

verus! {

/// Sources, dependencies, etc., might be not downloaded yet.
#[derive(Clone, Copy, Debug, Eq, PartialEq, Hash)]
pub struct Symbolic;

/// How sources and dependencies of a package are named.
pub trait Mode: 'static + Eq + Hash + Send + Sync {
    type Source: Clone + Debug + Eq + Hash + Send + Sync;
    type Dependency: Clone + Debug + Eq + Hash + Send + Sync;
}

impl Mode for Symbolic {
    type Source = RelativePath;
    type Dependency = PackageName;
}

} // verus!
