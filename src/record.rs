//! Reading one input record once its address has been decoded: the length
//! after the `/` (or none, meaning the full width) and the policy for
//! addresses with bits set beyond the length.
use crate::prefix::{masked, Prefix, IPV6_WIDTH};
use vstd::arithmetic::power2::pow2;
use vstd::prelude::*;

verus! {

/// Why a record was rejected.
#[derive(Clone, Copy, Debug, PartialEq, Eq, Structural)]
pub enum NetblockParseError {
    /// The length is not a decimal number, or exceeds the address width.
    BadLength,
    /// Strict mode: the address has bits set beyond the length.
    NotCanonical,
}

impl NetblockParseError {
    /// The text reported for a rejected record of address width `w`.
    pub fn message(&self, w: u8) -> (r: &'static str)
        ensures
            w == IPV6_WIDTH ==> r@ == "invalid IPv6 netblock format"@,
            w != IPV6_WIDTH ==> r@ == "invalid netblock format"@,
    {
        if w == IPV6_WIDTH {
            "invalid IPv6 netblock format"
        } else {
            "invalid netblock format"
        }
    }
}

/// Where a record's address ends: the position of its first `/`, or `None`
/// when the record is a bare address.
pub fn find_slash(line: &[u8]) -> (r: Option<usize>)
    ensures
        match r {
            Some(i) => i < line@.len() && line@[i as int] == 47 && forall|j: int|
                0 <= j < i ==> #[trigger] line@[j] != 47,
            None => forall|j: int| 0 <= j < line@.len() ==> #[trigger] line@[j] != 47,
        },
{
    let mut i: usize = 0;
    while i < line.len()
        invariant
            0 <= i <= line.len(),
            forall|j: int| 0 <= j < i ==> #[trigger] line@[j] != 47,
        decreases line.len() - i,
    {
        if line[i] == 47 {
            return Some(i);
        }
        i = i + 1;
    }
    None
}

pub open spec fn is_digit(b: u8) -> bool {
    48 <= b <= 57
}

pub open spec fn all_digits(s: Seq<u8>) -> bool {
    forall|i: int| 0 <= i < s.len() ==> is_digit(#[trigger] s[i])
}

/// The number that a string of decimal digits denotes.
pub open spec fn digits_value(s: Seq<u8>) -> nat
    decreases s.len(),
{
    if s.len() == 0 {
        0
    } else {
        digits_value(s.drop_last()) * 10 + (s.last() - 48) as nat
    }
}

/// The digits of a length text, after an optional leading `+`.
pub open spec fn length_digits(t: Seq<u8>) -> Seq<u8> {
    if t.len() > 0 && t[0] == 43 {
        t.drop_first()
    } else {
        t
    }
}

/// The length that `t` denotes, if it is a decimal number of at most `w`.
pub open spec fn length_value(t: Seq<u8>, w: nat) -> Option<u8> {
    let d = length_digits(t);
    if d.len() > 0 && all_digits(d) && digits_value(d) <= w {
        Some(digits_value(d) as u8)
    } else {
        None
    }
}

/// The decimal text of `n`, without leading zeros.
pub open spec fn decimal(n: nat) -> Seq<u8>
    decreases n,
{
    if n < 10 {
        seq![(48 + n) as u8]
    } else {
        decimal(n / 10).push((48 + n % 10) as u8)
    }
}

/// The outcome for an address and a length (`None`: none was given).
pub open spec fn record_result(addr: u128, len: Option<u8>, w: nat, strict: bool) -> Result<
    Prefix,
    NetblockParseError,
> {
    let l: nat = match len {
        Some(l) => l as nat,
        None => w,
    };
    if l > w {
        Err(NetblockParseError::BadLength)
    } else if strict && !(Prefix { addr, len: l as u8 }).wf(w) {
        Err(NetblockParseError::NotCanonical)
    } else {
        Ok(Prefix { addr: masked(addr as int, l, w) as u128, len: l as u8 })
    }
}

/// The outcome for an address and the text after its `/`, if any.
pub open spec fn text_result(addr: u128, text: Option<Seq<u8>>, w: nat, strict: bool) -> Result<
    Prefix,
    NetblockParseError,
> {
    match text {
        None => record_result(addr, None, w, strict),
        Some(t) => match length_value(t, w) {
            None => Err(NetblockParseError::BadLength),
            Some(l) => record_result(addr, Some(l), w, strict),
        },
    }
}

/// Reads a prefix length: an optional `+`, then decimal digits, with a value
/// of at most `w`.
pub fn parse_length(t: &[u8], w: u8) -> (r: Option<u8>)
    requires
        w <= 128,
    ensures
        r == length_value(t@, w as nat),
{
    let start: usize = if t.len() > 0 && t[0] == 43 {
        1
    } else {
        0
    };
    let ghost d = length_digits(t@);
    proof {
        assert(d =~= t@.subrange(start as int, t@.len() as int));
    }
    if start == t.len() {
        return None;
    }
    let mut val: u32 = 0;
    let mut big = false;
    let mut i: usize = start;
    while i < t.len()
        invariant
            start <= i <= t.len(),
            w <= 128,
            d == t@.subrange(start as int, t@.len() as int),
            d == length_digits(t@),
            all_digits(t@.subrange(start as int, i as int)),
            big ==> digits_value(t@.subrange(start as int, i as int)) > w,
            !big ==> val == digits_value(t@.subrange(start as int, i as int)) && val <= w,
        decreases t.len() - i,
    {
        let b = t[i];
        let ghost pre = t@.subrange(start as int, i as int);
        let ghost next = t@.subrange(start as int, i + 1);
        proof {
            assert(next.drop_last() =~= pre);
            assert(next.last() == b);
        }
        if b < 48 || b > 57 {
            proof {
                let k = i - start;
                assert(d[k] == t@[i as int]);
                assert(!is_digit(d[k]));
                assert(!all_digits(d));
                assert(length_value(t@, w as nat).is_none());
            }
            return None;
        }
        if !big {
            val = val * 10 + (b - 48) as u32;
            if val > w as u32 {
                big = true;
            }
        }
        proof {
            assert forall|j: int| 0 <= j < next.len() implies is_digit(#[trigger] next[j]) by {
                if j < pre.len() {
                    assert(next[j] == pre[j]);
                }
            }
        }
        i = i + 1;
    }
    proof {
        assert(t@.subrange(start as int, i as int) =~= d);
    }
    if big {
        None
    } else {
        Some(val as u8)
    }
}

/// Turns a decoded address and its optional length into a prefix. A missing
/// length means the full width. An address with bits set beyond the length
/// is cleared, or rejected when `strict` is set.
pub fn from_parts(addr: u128, len: Option<u8>, w: u8, strict: bool) -> (r: Result<
    Prefix,
    NetblockParseError,
>)
    requires
        w <= 128,
        addr < pow2(w as nat),
    ensures
        r == record_result(addr, len, w as nat, strict),
{
    let l = match len {
        Some(l) => l,
        None => w,
    };
    if l > w {
        return Err(NetblockParseError::BadLength);
    }
    let raw = Prefix { addr, len: l };
    if strict && !raw.is_canonical(w) {
        return Err(NetblockParseError::NotCanonical);
    }
    Ok(Prefix::new(addr, l, w))
}

/// Turns a decoded address and the text after its `/` (if the record had
/// one) into a prefix.
pub fn from_record(addr: u128, length_text: Option<&[u8]>, w: u8, strict: bool) -> (r: Result<
    Prefix,
    NetblockParseError,
>)
    requires
        w <= 128,
        addr < pow2(w as nat),
    ensures
        r == text_result(
            addr,
            match length_text {
                Some(t) => Some(t@),
                None => None,
            },
            w as nat,
            strict,
        ),
{
    match length_text {
        None => from_parts(addr, None, w, strict),
        Some(t) => match parse_length(t, w) {
            None => Err(NetblockParseError::BadLength),
            Some(l) => from_parts(addr, Some(l), w, strict),
        },
    }
}

/// The decimal text of a length.
pub fn decimal_text(n: u8) -> (r: Vec<u8>)
    ensures
        r@ == decimal(n as nat),
{
    if n < 10 {
        vec![48 + n]
    } else if n < 100 {
        proof {
            assert(decimal(n as nat / 10) == seq![(48 + n / 10) as u8]);
        }
        vec![48 + n / 10, 48 + n % 10]
    } else {
        proof {
            assert(decimal(n as nat / 100) == seq![(48 + n / 100) as u8]);
            assert((n as nat / 10) / 10 == n as nat / 100);
            assert(decimal(n as nat / 10) == seq![(48 + n / 100) as u8].push(
                (48 + (n / 10) % 10) as u8,
            ));
        }
        vec![48 + n / 100, 48 + (n / 10) % 10, 48 + n % 10]
    }
}

pub proof fn lemma_decimal(n: nat)
    ensures
        decimal(n).len() > 0,
        all_digits(decimal(n)),
        digits_value(decimal(n)) == n,
        decimal(n)[0] != 43,
    decreases n,
{
    if n < 10 {
        let d = decimal(n);
        assert(d.drop_last() =~= Seq::<u8>::empty());
        assert(d.last() == (48 + n) as u8);
        assert(digits_value(d.drop_last()) == 0);
        assert((d.last() - 48) as nat == n);
    } else {
        lemma_decimal(n / 10);
        let d = decimal(n);
        assert(d.drop_last() =~= decimal(n / 10));
        assert(d.last() == (48 + n % 10) as u8);
        assert((d.last() - 48) as nat == n % 10);
        assert((n / 10) * 10 + n % 10 == n);
        assert(digits_value(d) == digits_value(d.drop_last()) * 10 + (d.last() - 48) as nat);
        assert forall|i: int| 0 <= i < d.len() implies is_digit(#[trigger] d[i]) by {
            if i < d.len() - 1 {
                assert(d[i] == decimal(n / 10)[i]);
            }
        }
    }
}

/// Writing a canonical prefix's length in decimal and reading the record
/// back gives the same prefix, in either mode.
pub proof fn lemma_round_trip(p: Prefix, w: nat, strict: bool)
    requires
        w <= 128,
        p.wf(w),
    ensures
        text_result(p.addr, Some(decimal(p.len as nat)), w, strict) == Ok::<
            Prefix,
            NetblockParseError,
        >(p),
{
    lemma_decimal(p.len as nat);
    assert(length_digits(decimal(p.len as nat)) == decimal(p.len as nat));
}

} // verus!
