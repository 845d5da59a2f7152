//! The demo greeter service: its one handler computes a greeting from
//! the caller's name. Serving it over the wire is the runtime's job.

use vstd::prelude::*;

verus! {

pub struct GreeterImpl {}

impl GreeterImpl {
    /// The greeting returned for a `Say` request carrying `name`.
    pub fn say_hello(&self, name: &str) -> (message: String)
        ensures
            message@ == "Hello "@ + name@ + "!"@,
    {
        String::from_str("Hello ").concat(name).concat("!")
    }
}

} // verus!
