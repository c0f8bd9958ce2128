//! A minimal client handle: an address held as text.

use vstd::prelude::*;
use vstd::string::StringExecFns;

verus! {

/// A connection target, by address.
pub struct Client {
    addr: String,
}

impl Client {
    /// The address this client was created with.
    pub closed spec fn spec_addr(&self) -> Seq<char> {
        self.addr@
    }

    pub fn new(addr: &str) -> (r: Self)
        ensures
            r.spec_addr() == addr@,
    {
        Client { addr: String::from_str(addr) }
    }

    pub fn addr(&self) -> (r: &str)
        ensures
            r@ == self.spec_addr(),
    {
        self.addr.as_str()
    }
}

} // verus!
