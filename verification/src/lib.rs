pub mod codec;
pub mod error;
pub mod project;
pub mod store;
pub mod timestamp;

use vstd::prelude::*;
use vstd::string::StringExecFns;

verus! {

/// Connectivity smoke test: greets the caller by name. Carries no business
/// logic; the result is the fixed greeting around the given name.
pub fn greet(name: &str) -> (r: String)
    ensures
        r@ == "Hello, "@ + name@ + "! Welcome to ETAB Extension."@,
{
    let mut s = String::from_str("Hello, ");
    s.append(name);
    s.append("! Welcome to ETAB Extension.");
    s
}

} // verus!
