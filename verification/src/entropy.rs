//! Randomness drawn from the process-wide generator.

use vstd::prelude::*;

verus! {

/// Relies on `rand::random`: a value of the requested type from the
/// thread-local generator. Nothing is known of which value comes back.
pub assume_specification<T>[ rand::random::<T> ]() -> (r: T)
    where
        rand::distributions::Standard: rand::distributions::Distribution<T>,
;

} // verus!
