use vstd::prelude::*;

verus! {

/// Relies on `SystemTime::now`: the wall clock's seconds since the Unix epoch
/// (0 for a clock set before it); nothing is promised of the value.
#[verifier::external_body]
pub fn timestamp() -> u64 {
    match std::time::SystemTime::now().duration_since(std::time::UNIX_EPOCH) {
        Ok(d) => d.as_secs(),
        Err(_) => 0,
    }
}

} // verus!
