//! Synthetic input for exercising the engine: random single addresses and
//! random canonical netblocks.
use crate::prefix::{masked, pow2_u128, Prefix, IPV4_WIDTH, IPV6_WIDTH};
use vstd::arithmetic::power2::{lemma_pow2_pos, pow2};
use vstd::prelude::*;

verus! {

/// Relies on `rand::random::<u128>`: a value drawn from the thread-local
/// generator. Nothing is known of which value comes back.
#[verifier::external_body]
fn random_bits() -> (r: u128) {
    rand::random::<u128>()
}

/// Relies on `rand::random_range` over an inclusive range: it panics only on
/// an empty range, and otherwise returns a value inside the range.
#[verifier::external_body]
fn random_len(lo: u8, hi: u8) -> (r: u8)
    requires
        lo <= hi,
    ensures
        lo <= r <= hi,
{
    rand::random_range(lo..=hi)
}

/// The address of width `w` that a drawn value stands for: its low `w` bits.
pub fn address_from_bits(bits: u128, w: u8) -> (r: u128)
    requires
        w <= 128,
    ensures
        r == bits as int % pow2(w as nat) as int,
        r < pow2(w as nat),
{
    if w == 128 {
        proof {
            crate::prefix::lemma_pow2_128();
            crate::prefix::lemma_div_range(bits as int, pow2(128) as int);
            crate::prefix::lemma_quot_unique(bits as int, pow2(128) as int, 0);
        }
        bits
    } else {
        let p = pow2_u128(w);
        proof {
            lemma_pow2_pos(w as nat);
        }
        bits % p
    }
}

/// A random address of width `w`.
fn random_addr(w: u8) -> (r: u128)
    requires
        w <= 128,
    ensures
        r < pow2(w as nat),
{
    address_from_bits(random_bits(), w)
}

/// A random single address of width `w`, as a full-length prefix.
pub fn random_host(w: u8) -> (r: Prefix)
    requires
        w <= 128,
    ensures
        r.len == w,
        r.wf(w as nat),
{
    let addr = random_addr(w);
    Prefix::new(addr, w, w)
}

/// A random canonical netblock of width `w` with a length in `lo..=hi`.
pub fn random_netblock(w: u8, lo: u8, hi: u8) -> (r: Prefix)
    requires
        lo <= hi <= w <= 128,
    ensures
        lo <= r.len <= hi,
        r.wf(w as nat),
{
    let len = random_len(lo, hi);
    netblock_from_bits(random_bits(), len, w)
}

/// The netblock that drawn bits and a drawn length stand for: the low `w`
/// bits as the address, with the bits beyond `len` cleared.
pub fn netblock_from_bits(bits: u128, len: u8, w: u8) -> (r: Prefix)
    requires
        len <= w <= 128,
    ensures
        r.len == len,
        r.addr == masked(bits as int % pow2(w as nat) as int, len as nat, w as nat),
        r.wf(w as nat),
{
    let addr = address_from_bits(bits, w);
    Prefix::new(addr, len, w)
}

/// How many single addresses and how many netblocks a batch of `count`
/// synthetic records holds: half of each, rounded down.
pub fn generation_plan(count: usize) -> (r: (usize, usize))
    ensures
        r.0 == count / 2,
        r.1 == count / 2,
{
    (count / 2, count / 2)
}

/// A random IPv4 address, as a /32.
pub fn generate_random_ipv4() -> (r: Prefix)
    ensures
        r.len == 32,
        r.wf(32),
{
    random_host(IPV4_WIDTH)
}

/// A random canonical IPv4 netblock of length 16 to 31.
pub fn generate_random_ipv4_netblock() -> (r: Prefix)
    ensures
        16 <= r.len <= 31,
        r.wf(32),
{
    random_netblock(IPV4_WIDTH, 16, 31)
}

/// A random IPv6 address, as a /128.
pub fn generate_random_ipv6() -> (r: Prefix)
    ensures
        r.len == 128,
        r.wf(128),
{
    random_host(IPV6_WIDTH)
}

/// A random canonical IPv6 netblock of length 32 to 127.
pub fn generate_random_ipv6_netblock() -> (r: Prefix)
    ensures
        32 <= r.len <= 127,
        r.wf(128),
{
    random_netblock(IPV6_WIDTH, 32, 127)
}

} // verus!
