//! A proxy's verified core: IPv6 subnets and their text form, random source
//! addresses, proxy credentials, request routing, the resolver cache and the
//! pool of pre-bound sockets.
pub mod text;
pub mod ipv6;
pub mod cidr;
pub mod credentials;
pub mod pool;
pub mod resolve;
pub mod proxy;
