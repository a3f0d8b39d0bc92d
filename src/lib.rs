//! A fake-IP DNS allocation table: each domain name gets a unique address
//! drawn from a bounded pool, with least-recently-used eviction.

pub mod addr;
pub mod table;
pub mod virtual_dns;
