//! How much of a long listing is shown.
use vstd::prelude::*;

verus! {

/// How many entries of a list are shown before the rest is only counted.
pub const CAP_LIST: usize = 20;

} // verus!
