use vstd::prelude::*;

pub use crate::vector::VectorOp;

verus! {

/// The two kinds of IP address.
#[derive(Clone, Copy, Debug, PartialEq, Eq, Structural)]
pub enum IpAddrKint {
    V4,
    V6,
}

impl IpAddrKint {
    /// The human-readable name of the kind.
    pub fn label(&self) -> (r: &'static str)
        ensures
            *self == IpAddrKint::V4 ==> r == "IpV4",
            *self == IpAddrKint::V6 ==> r == "IpV6",
    {
        match self {
            IpAddrKint::V4 => "IpV4",
            IpAddrKint::V6 => "IpV6",
        }
    }
}

} // verus!
