//! Executable operations and the mathematical operations that they compute.
//!
//! A caller hands in a binary operation as executable code `f`. Contracts
//! speak of it through any mathematical operation `g` that `f` computes: a
//! caller who knows such a `g` learns the results in terms of `g`.

use vstd::prelude::*;

verus! {

/// `f` can be called on every pair of values.
pub open spec fn accepts_all<T, F: Fn(T, T) -> T>(f: F) -> bool {
    forall|a: T, b: T| call_requires(f, (a, b))
}

/// Whatever `f` returns for a pair `(a, b)` is `g(a, b)`.
pub open spec fn computes<T, F: Fn(T, T) -> T>(f: F, g: spec_fn(T, T) -> T) -> bool {
    forall|a: T, b: T, r: T| call_ensures(f, (a, b), r) ==> r == g(a, b)
}

/// Whatever `T::default()` returns is `z`.
pub open spec fn default_is<T: Default>(z: T) -> bool {
    forall|r: T| call_ensures(T::default, (), r) ==> r == z
}

} // verus!
