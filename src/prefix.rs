//! Network prefixes (CIDR blocks) of a chosen address width, with the
//! containment and sibling relations and the merge of two siblings.
use vstd::arithmetic::div_mod::{lemma_fundamental_div_mod, lemma_mod_mod, lemma_mod_pos_bound};
use vstd::arithmetic::power2::{
    lemma2_to64,
    lemma_pow2_adds,
    lemma_pow2_pos,
    lemma_pow2_strictly_increases,
    lemma_pow2_unfold,
    pow2,
};
use vstd::bits::lemma_u128_shr_is_div;
use vstd::prelude::*;

verus! {

/// Address width of IPv4.
pub const IPV4_WIDTH: u8 = 32;

/// Address width of IPv6.
pub const IPV6_WIDTH: u8 = 128;

/// A network address together with the number of its significant leading bits.
///
/// The address width `w` (32 or 128, at most 128) is not stored: every
/// operation takes it as an argument, and one run never mixes widths.
#[derive(Clone, Copy, Debug, PartialEq, Eq, Hash, Structural)]
pub struct Prefix {
    pub addr: u128,
    pub len: u8,
}

/// Number of addresses in a block of `len` significant bits out of `w`.
pub open spec fn block_size(len: nat, w: nat) -> nat {
    pow2((w - len) as nat)
}

/// `addr` with its low `w - len` bits cleared.
pub open spec fn masked(addr: int, len: nat, w: nat) -> int {
    addr - addr % (block_size(len, w) as int)
}

impl Prefix {
    pub open spec fn size(self, w: nat) -> nat {
        block_size(self.len as nat, w)
    }

    /// The address fits in `w` bits, the length is at most `w`, and every bit
    /// beyond the length is zero (canonical form).
    pub open spec fn wf(self, w: nat) -> bool {
        &&& self.len <= w
        &&& self.addr < pow2(w)
        &&& self.addr as int % self.size(w) as int == 0
    }

    /// The address `x` lies in the block.
    pub open spec fn covers(self, w: nat, x: int) -> bool {
        self.addr <= x < self.addr + self.size(w)
    }

    /// `o` is a sub-block of `self`: at least as long, and equal on the
    /// first `self.len` bits.
    pub open spec fn contains_spec(self, o: Prefix, w: nat) -> bool {
        &&& self.len <= o.len
        &&& self.addr as int / self.size(w) as int == o.addr as int / self.size(w) as int
    }

    /// Same nonzero length, equal on every bit of the prefix but its last,
    /// and different in that last bit: the two halves of one parent block.
    pub open spec fn siblings_spec(self, o: Prefix, w: nat) -> bool {
        &&& self.len == o.len
        &&& self.len > 0
        &&& self.addr as int / block_size((self.len - 1) as nat, w) as int == o.addr as int
            / block_size((self.len - 1) as nat, w) as int
        &&& self.addr != o.addr
    }

    /// The block one bit shorter that holds `self`.
    pub open spec fn parent(self, w: nat) -> Prefix {
        Prefix {
            addr: masked(self.addr as int, (self.len - 1) as nat, w) as u128,
            len: (self.len - 1) as u8,
        }
    }
}

pub proof fn lemma_pow2_128()
    ensures
        pow2(128) == 0x1_0000_0000_0000_0000_0000_0000_0000_0000,
{
    lemma2_to64();
    lemma_pow2_adds(64, 64);
}

/// Quotient and remainder bounds for a positive divisor.
pub proof fn lemma_div_range(x: int, d: int)
    requires
        d > 0,
        x >= 0,
    ensures
        d * (x / d) <= x < d * (x / d) + d,
        x % d == x - d * (x / d),
        x / d >= 0,
{
    lemma_fundamental_div_mod(x, d);
    lemma_mod_pos_bound(x, d);
    assert(x / d >= 0) by (nonlinear_arith)
        requires
            d * (x / d) <= x,
            x < d * (x / d) + d,
            d > 0,
            x >= 0,
    ;
}

/// A quotient is fixed by the interval that `x` falls in.
pub proof fn lemma_quot_unique(x: int, d: int, q: int)
    requires
        d > 0,
        x >= 0,
        d * q <= x < d * q + d,
    ensures
        x / d == q,
{
    lemma_div_range(x, d);
    let k = x / d;
    assert(k == q) by (nonlinear_arith)
        requires
            d * q <= x < d * q + d,
            d * k <= x < d * k + d,
            d > 0,
    ;
}

/// Two distinct multiples of `d` are at least `d` apart.
pub proof fn lemma_aligned_gap(x: int, y: int, d: int)
    requires
        d > 0,
        x >= 0,
        y >= 0,
        x % d == 0,
        y % d == 0,
        x < y,
    ensures
        x + d <= y,
{
    lemma_div_range(x, d);
    lemma_div_range(y, d);
    let a = x / d;
    let b = y / d;
    assert(x + d <= y) by (nonlinear_arith)
        requires
            x == d * a,
            y == d * b,
            x < y,
            d > 0,
    ;
}

/// A block of a shorter prefix is a whole number of blocks of a longer one.
pub proof fn lemma_size_divides(l1: nat, l2: nat, w: nat, x: int)
    requires
        l1 <= l2 <= w,
    ensures
        block_size(l1, w) == block_size(l2, w) * pow2((l2 - l1) as nat),
        block_size(l2, w) <= block_size(l1, w),
        block_size(l2, w) > 0,
        x % (block_size(l1, w) as int) == 0 ==> x % (block_size(l2, w) as int) == 0,
{
    let a = block_size(l2, w);
    let b = pow2((l2 - l1) as nat);
    lemma_pow2_adds((w - l2) as nat, (l2 - l1) as nat);
    assert((w - l2) as nat + (l2 - l1) as nat == (w - l1) as nat);
    lemma_pow2_pos((w - l2) as nat);
    lemma_pow2_pos((l2 - l1) as nat);
    assert(a <= a * b) by (nonlinear_arith)
        requires
            b > 0,
    ;
    lemma_mod_mod(x, a as int, b as int);
    assert(block_size(l1, w) as int == a as int * b as int);
    if x % (block_size(l1, w) as int) == 0 {
        lemma_mul_mod(a as int, 0);
        assert((x % (a as int * b as int)) % (a as int) == 0);
    }
}

/// Adding whole blocks keeps an address aligned.
pub proof fn lemma_aligned_add(x: int, d: int, m: int)
    requires
        d > 0,
        x >= 0,
        m >= 0,
        x % d == 0,
    ensures
        (x + d * m) % d == 0,
{
    lemma_div_range(x, d);
    let k = x / d;
    assert(x + d * m == d * (k + m)) by (nonlinear_arith)
        requires
            x == d * k,
    ;
    lemma_mul_mod(d, k + m);
}

/// A multiple of `s` leaves no remainder.
pub proof fn lemma_mul_mod(s: int, m: int)
    requires
        s > 0,
        m >= 0,
    ensures
        (s * m) % s == 0,
        (s * m) / s == m,
{
    assert(s * m >= 0) by (nonlinear_arith)
        requires
            s > 0,
            m >= 0,
    ;
    lemma_quot_unique(s * m, s, m);
    lemma_div_range(s * m, s);
}

/// For a canonical `a`, containment is inclusion of `o`'s address in the block.
pub proof fn lemma_contains_covers(a: Prefix, o: Prefix, w: nat)
    requires
        a.wf(w),
    ensures
        a.contains_spec(o, w) <==> (a.len <= o.len && a.covers(w, o.addr as int)),
{
    let s = a.size(w) as int;
    lemma_pow2_pos((w - a.len) as nat);
    lemma_div_range(a.addr as int, s);
    lemma_div_range(o.addr as int, s);
    let k = a.addr as int / s;
    if a.covers(w, o.addr as int) {
        lemma_quot_unique(o.addr as int, s, k);
    }
}

/// A sub-block ends no later than the block that contains it.
pub proof fn lemma_contains_nested(a: Prefix, o: Prefix, w: nat)
    requires
        a.wf(w),
        o.wf(w),
        a.contains_spec(o, w),
    ensures
        a.addr <= o.addr,
        o.addr + o.size(w) <= a.addr + a.size(w),
{
    lemma_contains_covers(a, o, w);
    lemma_size_divides(a.len as nat, o.len as nat, w, a.addr as int);
    lemma_size_divides(a.len as nat, o.len as nat, w, (a.addr + a.size(w)) as int);
    lemma_pow2_pos((w - a.len) as nat);
    let s = a.size(w) as int;
    assert((a.addr + s) % s == 0) by {
        lemma_div_range(a.addr as int, s);
        let k = a.addr as int / s;
        assert(a.addr + s == s * (k + 1)) by (nonlinear_arith)
            requires
                a.addr == s * k,
        ;
        lemma_mul_mod(s, k + 1);
    }
    lemma_aligned_gap(o.addr as int, a.addr + s, o.size(w) as int);
}

/// Both blocks lie in the one block of their common parent length.
pub proof fn lemma_siblings_bounds(a: Prefix, o: Prefix, w: nat)
    requires
        a.wf(w),
        a.siblings_spec(o, w),
    ensures
        ({
            let d = block_size((a.len - 1) as nat, w) as int;
            let q = d * (a.addr as int / d);
            &&& d == 2 * a.size(w)
            &&& q <= a.addr < q + d
            &&& q <= o.addr < q + d
            &&& q % (a.size(w) as int) == 0
            &&& a.parent(w).addr == q
        }),
{
    let d = block_size((a.len - 1) as nat, w) as int;
    let s = a.size(w) as int;
    assert((w - (a.len - 1)) as nat == ((w - a.len) as nat + 1) as nat);
    lemma_pow2_unfold((w - a.len + 1) as nat);
    lemma_pow2_pos((w - a.len) as nat);
    lemma_div_range(a.addr as int, d);
    lemma_div_range(o.addr as int, d);
    let k = a.addr as int / d;
    assert((d * k) % s == 0) by {
        assert(d * k == s * (2 * k)) by (nonlinear_arith)
            requires
                d == 2 * s,
        ;
        lemma_quot_unique(d * k, s, 2 * k);
        lemma_div_range(d * k, s);
    }
}

/// The parent of two canonical siblings is canonical and is their union.
pub proof fn lemma_parent(a: Prefix, o: Prefix, w: nat)
    requires
        a.wf(w),
        o.wf(w),
        a.siblings_spec(o, w),
    ensures
        a.parent(w).wf(w),
        forall|x: int|
            a.parent(w).covers(w, x) <==> (a.covers(w, x) || o.covers(w, x)),
{
    lemma_siblings_bounds(a, o, w);
    let d = block_size((a.len - 1) as nat, w) as int;
    let s = a.size(w) as int;
    let q = d * (a.addr as int / d);
    let p = a.parent(w);
    assert((q + s) % s == 0) by {
        let m = q / s;
        lemma_div_range(q, s);
        assert(q + s == s * (m + 1)) by (nonlinear_arith)
            requires
                q == s * m,
        ;
        lemma_mul_mod(s, m + 1);
    }
    // each sibling starts at q or at q + s
    if a.addr != q {
        lemma_aligned_gap(q, a.addr as int, s);
        if a.addr != q + s {
            lemma_aligned_gap(q + s, a.addr as int, s);
        }
    }
    if o.addr != q {
        lemma_aligned_gap(q, o.addr as int, s);
        if o.addr != q + s {
            lemma_aligned_gap(q + s, o.addr as int, s);
        }
    }
    // canonical
    assert(p.addr as int % d == 0) by {
        lemma_div_range(a.addr as int, d);
        lemma_quot_unique(q, d, a.addr as int / d);
        lemma_div_range(q, d);
    }
}

/// `2^e` as a machine integer.
pub(crate) fn pow2_u128(e: u8) -> (r: u128)
    requires
        e < 128,
    ensures
        r == pow2(e as nat),
{
    let mut r: u128 = 1;
    let mut i: u8 = 0;
    proof {
        lemma2_to64();
    }
    while i < e
        invariant
            i <= e < 128,
            r == pow2(i as nat),
        decreases e - i,
    {
        proof {
            lemma_pow2_unfold((i + 1) as nat);
            lemma_pow2_strictly_increases((i + 1) as nat, 128);
            lemma_pow2_128();
        }
        r = r * 2;
        i = i + 1;
    }
    r
}

impl Prefix {
    /// Builds a prefix, clearing the bits of `addr` beyond `len`.
    pub fn new(addr: u128, len: u8, w: u8) -> (r: Prefix)
        requires
            w <= 128,
            len <= w,
            addr < pow2(w as nat),
        ensures
            r.len == len,
            r.addr == masked(addr as int, len as nat, w as nat),
            r.wf(w as nat),
    {
        if len == 0 {
            proof {
                lemma_div_range(addr as int, pow2(w as nat) as int);
                lemma_quot_unique(addr as int, pow2(w as nat) as int, 0);
            }
            Prefix { addr: 0, len }
        } else {
            let p = pow2_u128(w - len);
            proof {
                lemma_pow2_pos((w - len) as nat);
                lemma_div_range(addr as int, p as int);
                let m = addr - addr % p;
                lemma_quot_unique(m, p as int, addr as int / p as int);
                lemma_div_range(m, p as int);
            }
            Prefix { addr: addr - addr % p, len }
        }
    }

    /// True if `other` lies wholly inside `self`.
    pub fn contains(&self, other: &Prefix, w: u8) -> (r: bool)
        requires
            w <= 128,
            self.wf(w as nat),
            other.wf(w as nat),
        ensures
            r == self.contains_spec(*other, w as nat),
    {
        if self.len > other.len {
            false
        } else if self.len == 0 {
            proof {
                let s = self.size(w as nat) as int;
                lemma_pow2_pos(w as nat);
                lemma_div_range(self.addr as int, s);
                lemma_quot_unique(self.addr as int, s, 0);
                lemma_div_range(other.addr as int, s);
                lemma_quot_unique(other.addr as int, s, 0);
            }
            true
        } else {
            let shift: u128 = (w - self.len) as u128;
            proof {
                lemma_u128_shr_is_div(self.addr, shift);
                lemma_u128_shr_is_div(other.addr, shift);
            }
            (self.addr >> shift) == (other.addr >> shift)
        }
    }

    /// True if the two prefixes have the same length and differ exactly in
    /// the last bit of the prefix, so that together they form their parent.
    pub fn aggregateable_with(&self, other: &Prefix, w: u8) -> (r: bool)
        requires
            w <= 128,
            self.wf(w as nat),
            other.wf(w as nat),
        ensures
            r == self.siblings_spec(*other, w as nat),
    {
        if self.len != other.len || self.len == 0 {
            false
        } else {
            let shift: u128 = (w - self.len) as u128;
            let s = self.addr >> shift;
            let o = other.addr >> shift;
            proof {
                lemma_u128_shr_is_div(self.addr, shift);
                lemma_u128_shr_is_div(other.addr, shift);
                assert(s >> 1u128 == s / 2) by (bit_vector);
                assert(o >> 1u128 == o / 2) by (bit_vector);
                let c = pow2(shift as nat) as int;
                lemma_pow2_pos(shift as nat);
                assert((w - (self.len - 1)) as nat == (shift + 1) as nat);
                lemma_pow2_unfold((shift + 1) as nat);
                vstd::arithmetic::div_mod::lemma_div_denominator(self.addr as int, c, 2);
                vstd::arithmetic::div_mod::lemma_div_denominator(other.addr as int, c, 2);
                assert(c * 2 == 2 * c);
            }
            (s >> 1) == (o >> 1) && self.addr != other.addr
        }
    }

    /// The parent of two siblings, or `None` when they are not siblings.
    pub fn aggregate(&self, other: &Prefix, w: u8) -> (r: Option<Prefix>)
        requires
            w <= 128,
            self.wf(w as nat),
            other.wf(w as nat),
        ensures
            r == (if self.siblings_spec(*other, w as nat) {
                Some(self.parent(w as nat))
            } else {
                None
            }),
    {
        if self.aggregateable_with(other, w) {
            Some(Prefix::new(self.addr, self.len - 1, w))
        } else {
            None
        }
    }

    /// True if every bit of the address beyond the length is zero.
    pub fn is_canonical(&self, w: u8) -> (r: bool)
        requires
            w <= 128,
            self.len <= w,
            self.addr < pow2(w as nat),
        ensures
            r == self.wf(w as nat),
    {
        if self.len == 0 {
            proof {
                lemma_pow2_pos(w as nat);
                lemma_div_range(self.addr as int, pow2(w as nat) as int);
                lemma_quot_unique(self.addr as int, pow2(w as nat) as int, 0);
            }
            self.addr == 0
        } else {
            let p = pow2_u128(w - self.len);
            proof {
                lemma_pow2_pos((w - self.len) as nat);
            }
            self.addr % p == 0
        }
    }
}

} // verus!
