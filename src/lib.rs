use vstd::prelude::*;

pub mod consensus;
pub mod correlate;
pub mod detect;
pub mod edl;
pub mod fingerprint;
pub mod media;
pub mod report;
pub mod scan;

verus! {

} // verus!
