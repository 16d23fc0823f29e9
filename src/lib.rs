pub mod ipv6;
pub mod resolver;
