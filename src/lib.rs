//! Aggregation of IP network prefixes (CIDR blocks) into the smallest
//! equivalent set: blocks inside other blocks are dropped and sibling blocks
//! are merged into their parent, until nothing changes.
//!
//! One design serves both address families: every operation takes the
//! address width (32 for IPv4, 128 for IPv6) and holds addresses in a `u128`.
pub mod engine;
pub mod prefix;
pub mod random;
pub mod record;

pub use engine::{aggregate_netblocks, merge_sweep, sort_prefixes};
pub use prefix::{Prefix, IPV4_WIDTH, IPV6_WIDTH};
pub use random::{
    address_from_bits,
    generation_plan,
    netblock_from_bits,
    generate_random_ipv4,
    generate_random_ipv4_netblock,
    generate_random_ipv6,
    generate_random_ipv6_netblock,
    random_host,
    random_netblock,
};
pub use record::{decimal_text, find_slash, from_parts, from_record, parse_length, NetblockParseError};
