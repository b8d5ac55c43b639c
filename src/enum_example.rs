pub use crate::enums::IpAddrKint;
