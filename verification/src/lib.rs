//! A small restaurant back office: an inventory catalog of sellable items and
//! a ledger of per-date sales reports, both kept in memory and exchanged with
//! flat comma-separated text through a verified codec. A few self-contained
//! utilities (a color lookup and a prime scan) live alongside them.

pub mod text;
pub mod num;
pub mod items;
pub mod reports;
pub mod codec;
pub mod colors;
pub mod primes;
