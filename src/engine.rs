//! The aggregation engine: sort, sweep once with an accumulator, and repeat
//! until a sweep changes nothing.
use crate::prefix::{lemma_contains_covers, lemma_contains_nested, lemma_parent, Prefix};
use vstd::arithmetic::power2::lemma_pow2_pos;
use vstd::prelude::*;
use vstd::relations::{sorted_by, total_ordering};
use vstd::seq_lib::{lemma_sorted_unique, to_multiset_build, to_multiset_contains, to_multiset_insert, to_multiset_len};

verus! {

/// The working order: by address, then by length.
pub open spec fn prefix_le(a: Prefix, b: Prefix) -> bool {
    a.addr < b.addr || (a.addr == b.addr && a.len <= b.len)
}

pub open spec fn prefix_order() -> spec_fn(Prefix, Prefix) -> bool {
    |a: Prefix, b: Prefix| prefix_le(a, b)
}

pub open spec fn sorted(s: Seq<Prefix>) -> bool {
    forall|i: int, j: int| 0 <= i < j < s.len() ==> prefix_le(#[trigger] s[i], #[trigger] s[j])
}

/// The unique sorted rearrangement of `s`.
pub open spec fn sort_spec(s: Seq<Prefix>) -> Seq<Prefix> {
    s.sort_by(prefix_order())
}

pub open spec fn all_wf(s: Seq<Prefix>, w: nat) -> bool {
    forall|i: int| 0 <= i < s.len() ==> (#[trigger] s[i]).wf(w)
}

/// Some block of `s` holds the address `x`.
pub open spec fn covered(s: Seq<Prefix>, w: nat, x: int) -> bool {
    exists|i: int| 0 <= i < s.len() && (#[trigger] s[i]).covers(w, x)
}

/// No two blocks at distinct positions are nested or siblings.
pub open spec fn minimal(s: Seq<Prefix>, w: nat) -> bool {
    forall|i: int, j: int|
        0 <= i < s.len() && 0 <= j < s.len() && i != j ==> !(#[trigger] s[i]).contains_spec(
            #[trigger] s[j],
            w,
        ) && !s[i].siblings_spec(s[j], w)
}

/// One sweep from the accumulator `acc` over `rest`: what it emits, and
/// whether it dropped or merged anything.
pub open spec fn sweep(acc: Prefix, rest: Seq<Prefix>, w: nat) -> (Seq<Prefix>, bool)
    decreases rest.len(),
{
    if rest.len() == 0 {
        (seq![acc], false)
    } else {
        let next = rest[0];
        if acc.contains_spec(next, w) {
            (sweep(acc, rest.drop_first(), w).0, true)
        } else if acc.siblings_spec(next, w) {
            (sweep(acc.parent(w), rest.drop_first(), w).0, true)
        } else {
            let r = sweep(next, rest.drop_first(), w);
            (seq![acc] + r.0, r.1)
        }
    }
}

pub open spec fn merge_pass(s: Seq<Prefix>, w: nat) -> (Seq<Prefix>, bool) {
    if s.len() == 0 {
        (s, false)
    } else {
        sweep(s[0], s.drop_first(), w)
    }
}

/// The result of the engine on `s`. A pass that changes something always
/// shortens the sequence (`lemma_sweep_shape`); the length test only makes
/// that visible to the termination check.
pub open spec fn aggregated(s: Seq<Prefix>, w: nat) -> Seq<Prefix>
    decreases s.len(),
{
    let p = merge_pass(sort_spec(s), w);
    if p.1 && p.0.len() < s.len() {
        aggregated(p.0, w)
    } else {
        p.0
    }
}

pub proof fn lemma_order_total()
    ensures
        total_ordering(prefix_order()),
{
}

pub proof fn lemma_sorted_by_iff(s: Seq<Prefix>)
    ensures
        sorted_by(s, prefix_order()) <==> sorted(s),
{
    if sorted(s) {
        assert forall|i: int, j: int| 0 <= i < j < s.len() implies #[trigger] prefix_order()(
            s[i],
            s[j],
        ) by {
            assert(prefix_le(s[i], s[j]));
        }
    }
    if sorted_by(s, prefix_order()) {
        assert forall|i: int, j: int| 0 <= i < j < s.len() implies prefix_le(
            #[trigger] s[i],
            #[trigger] s[j],
        ) by {
            assert(prefix_order()(s[i], s[j]));
        }
    }
}

/// What sorting keeps: the elements with their counts, and hence the length.
pub proof fn lemma_sort_spec(s: Seq<Prefix>)
    ensures
        sorted(sort_spec(s)),
        sort_spec(s).to_multiset() == s.to_multiset(),
        sort_spec(s).len() == s.len(),
        forall|p: Prefix| #[trigger] sort_spec(s).contains(p) <==> s.contains(p),
{
    lemma_order_total();
    s.lemma_sort_by_ensures(prefix_order());
    lemma_sorted_by_iff(sort_spec(s));
    to_multiset_len(s);
    to_multiset_len(sort_spec(s));
    assert forall|p: Prefix| #[trigger] sort_spec(s).contains(p) <==> s.contains(p) by {
        to_multiset_contains(s, p);
        to_multiset_contains(sort_spec(s), p);
    }
}

/// A sorted rearrangement of `s` is the one `sort_spec` gives.
pub proof fn lemma_sort_unique(s: Seq<Prefix>, t: Seq<Prefix>)
    requires
        sorted(t),
        t.to_multiset() == s.to_multiset(),
    ensures
        t == sort_spec(s),
{
    lemma_sort_spec(s);
    lemma_order_total();
    lemma_sorted_by_iff(t);
    lemma_sorted_by_iff(sort_spec(s));
    lemma_sorted_unique(t, sort_spec(s), prefix_order());
}

pub proof fn lemma_covered_cons(a: Prefix, t: Seq<Prefix>, w: nat, x: int)
    ensures
        covered(seq![a] + t, w, x) == (a.covers(w, x) || covered(t, w, x)),
{
    let s = seq![a] + t;
    if covered(t, w, x) {
        let i = choose|i: int| 0 <= i < t.len() && (#[trigger] t[i]).covers(w, x);
        assert(s[i + 1] == t[i]);
    }
    if a.covers(w, x) {
        assert(s[0] == a);
    }
    if covered(s, w, x) {
        let i = choose|i: int| 0 <= i < s.len() && (#[trigger] s[i]).covers(w, x);
        if i > 0 {
            assert(t[i - 1] == s[i]);
        }
    }
}

pub proof fn lemma_covered_first(s: Seq<Prefix>, w: nat, x: int)
    requires
        s.len() > 0,
    ensures
        covered(s, w, x) == (s[0].covers(w, x) || covered(s.drop_first(), w, x)),
{
    assert(s =~= seq![s[0]] + s.drop_first());
    lemma_covered_cons(s[0], s.drop_first(), w, x);
}

/// Two sequences with the same elements cover the same addresses.
pub proof fn lemma_covered_same_elems(s: Seq<Prefix>, t: Seq<Prefix>, w: nat, x: int)
    requires
        forall|p: Prefix| s.contains(p) <==> t.contains(p),
    ensures
        covered(s, w, x) == covered(t, w, x),
{
    if covered(s, w, x) {
        let i = choose|i: int| 0 <= i < s.len() && (#[trigger] s[i]).covers(w, x);
        assert(s.contains(s[i]));
        let j = choose|j: int| 0 <= j < t.len() && t[j] == s[i];
        assert(t[j].covers(w, x));
    }
    if covered(t, w, x) {
        let i = choose|i: int| 0 <= i < t.len() && (#[trigger] t[i]).covers(w, x);
        assert(t.contains(t[i]));
        let j = choose|j: int| 0 <= j < s.len() && s[j] == t[i];
        assert(s[j].covers(w, x));
    }
}

pub proof fn lemma_sort_keeps(s: Seq<Prefix>, w: nat)
    ensures
        all_wf(s, w) ==> all_wf(sort_spec(s), w),
        forall|x: int| #[trigger] covered(sort_spec(s), w, x) == covered(s, w, x),
{
    lemma_sort_spec(s);
    let t = sort_spec(s);
    if all_wf(s, w) {
        assert forall|i: int| 0 <= i < t.len() implies (#[trigger] t[i]).wf(w) by {
            assert(t.contains(t[i]));
            assert(s.contains(t[i]));
        }
    }
    assert forall|x: int| #[trigger] covered(t, w, x) == covered(s, w, x) by {
        lemma_covered_same_elems(t, s, w, x);
    }
}

/// Length of a sweep, and what an unchanged sweep returns.
pub proof fn lemma_sweep_shape(acc: Prefix, rest: Seq<Prefix>, w: nat)
    ensures
        sweep(acc, rest, w).0.len() <= rest.len() + 1,
        sweep(acc, rest, w).1 ==> sweep(acc, rest, w).0.len() < rest.len() + 1,
        !sweep(acc, rest, w).1 ==> sweep(acc, rest, w).0 == seq![acc] + rest,
    decreases rest.len(),
{
    if rest.len() == 0 {
        assert(seq![acc] + rest =~= seq![acc]);
    } else {
        let next = rest[0];
        if acc.contains_spec(next, w) {
            lemma_sweep_shape(acc, rest.drop_first(), w);
        } else if acc.siblings_spec(next, w) {
            lemma_sweep_shape(acc.parent(w), rest.drop_first(), w);
        } else {
            lemma_sweep_shape(next, rest.drop_first(), w);
            assert(seq![next] + rest.drop_first() =~= rest);
            assert(seq![acc] + (seq![next] + rest.drop_first()) =~= seq![acc] + rest);
        }
    }
}

/// A sweep keeps canonical form and the covered addresses.
pub proof fn lemma_sweep_keeps(acc: Prefix, rest: Seq<Prefix>, w: nat)
    requires
        acc.wf(w),
        all_wf(rest, w),
    ensures
        all_wf(sweep(acc, rest, w).0, w),
        forall|x: int| #[trigger]
            covered(sweep(acc, rest, w).0, w, x) == (acc.covers(w, x) || covered(rest, w, x)),
    decreases rest.len(),
{
    let o = sweep(acc, rest, w).0;
    if rest.len() == 0 {
        assert forall|x: int| #[trigger]
            covered(o, w, x) == (acc.covers(w, x) || covered(rest, w, x)) by {
            lemma_covered_cons(acc, rest, w, x);
            assert(seq![acc] + rest =~= o);
        }
    } else {
        let next = rest[0];
        let tail = rest.drop_first();
        assert(all_wf(tail, w)) by {
            assert forall|i: int| 0 <= i < tail.len() implies (#[trigger] tail[i]).wf(w) by {
                assert(tail[i] == rest[i + 1]);
            }
        }
        if acc.contains_spec(next, w) {
            lemma_sweep_keeps(acc, tail, w);
            assert forall|x: int| #[trigger]
                covered(o, w, x) == (acc.covers(w, x) || covered(rest, w, x)) by {
                lemma_covered_first(rest, w, x);
                lemma_contains_nested(acc, next, w);
            }
        } else if acc.siblings_spec(next, w) {
            lemma_parent(acc, next, w);
            lemma_sweep_keeps(acc.parent(w), tail, w);
            assert forall|x: int| #[trigger]
                covered(o, w, x) == (acc.covers(w, x) || covered(rest, w, x)) by {
                lemma_covered_first(rest, w, x);
            }
        } else {
            lemma_sweep_keeps(next, tail, w);
            let r = sweep(next, tail, w).0;
            assert(o == seq![acc] + r);
            assert forall|i: int| 0 <= i < o.len() implies (#[trigger] o[i]).wf(w) by {
                if i > 0 {
                    assert(o[i] == r[i - 1]);
                }
            }
            assert forall|x: int| #[trigger]
                covered(o, w, x) == (acc.covers(w, x) || covered(rest, w, x)) by {
                lemma_covered_first(rest, w, x);
                lemma_covered_cons(acc, r, w, x);
            }
        }
    }
}

/// An unchanged sweep saw neither nesting nor siblings between neighbours.
pub proof fn lemma_sweep_stable(acc: Prefix, rest: Seq<Prefix>, w: nat)
    requires
        !sweep(acc, rest, w).1,
    ensures
        forall|i: int|
            0 <= i < rest.len() ==> !(#[trigger] (seq![acc] + rest)[i]).contains_spec(
                (seq![acc] + rest)[i + 1],
                w,
            ) && !(seq![acc] + rest)[i].siblings_spec((seq![acc] + rest)[i + 1], w),
    decreases rest.len(),
{
    if rest.len() > 0 {
        let next = rest[0];
        let tail = rest.drop_first();
        lemma_sweep_stable(next, tail, w);
        let t = seq![acc] + rest;
        let u = seq![next] + tail;
        assert forall|i: int| 0 <= i < rest.len() implies !(#[trigger] t[i]).contains_spec(
            t[i + 1],
            w,
        ) && !t[i].siblings_spec(t[i + 1], w) by {
            if i > 0 {
                assert(t[i] == u[i - 1]);
                assert(t[i + 1] == u[i]);
            }
        }
    }
}

/// A sweep over neighbours that are neither nested nor siblings emits them
/// all and reports no change.
pub proof fn lemma_sweep_unchanged(acc: Prefix, rest: Seq<Prefix>, w: nat)
    requires
        forall|i: int|
            0 <= i < rest.len() ==> !(#[trigger] (seq![acc] + rest)[i]).contains_spec(
                (seq![acc] + rest)[i + 1],
                w,
            ) && !(seq![acc] + rest)[i].siblings_spec((seq![acc] + rest)[i + 1], w),
    ensures
        sweep(acc, rest, w) == (seq![acc] + rest, false),
    decreases rest.len(),
{
    let t = seq![acc] + rest;
    if rest.len() == 0 {
        assert(t =~= seq![acc]);
    } else {
        let next = rest[0];
        let tail = rest.drop_first();
        let u = seq![next] + tail;
        assert(t[0] == acc && t[1] == next);
        assert forall|i: int| 0 <= i < tail.len() implies !(#[trigger] u[i]).contains_spec(
            u[i + 1],
            w,
        ) && !u[i].siblings_spec(u[i + 1], w) by {
            assert(u[i] == t[i + 1]);
            assert(u[i + 1] == t[i + 2]);
        }
        lemma_sweep_unchanged(next, tail, w);
        assert(u =~= rest);
        assert(seq![acc] + u =~= t);
    }
}

/// Neighbours of a sorted canonical sequence that are not nested are disjoint,
/// the first ending where or before the second begins.
pub proof fn lemma_neighbours_disjoint(a: Prefix, b: Prefix, w: nat)
    requires
        a.wf(w),
        b.wf(w),
        prefix_le(a, b),
        !a.contains_spec(b, w),
    ensures
        a.addr + a.size(w) <= b.addr,
{
    lemma_contains_covers(a, b, w);
    if b.addr < a.addr + a.size(w) {
        if a.len <= b.len {
            assert(false);
        } else {
            crate::prefix::lemma_size_divides(b.len as nat, a.len as nat, w, b.addr as int);
            if a.addr < b.addr {
                crate::prefix::lemma_aligned_gap(
                    a.addr as int,
                    b.addr as int,
                    a.size(w) as int,
                );
            }
        }
    }
}

/// A sorted canonical sequence whose neighbours are neither nested nor
/// siblings is minimal.
pub proof fn lemma_minimal_from_neighbours(s: Seq<Prefix>, w: nat)
    requires
        sorted(s),
        all_wf(s, w),
        forall|i: int|
            0 <= i < s.len() - 1 ==> !(#[trigger] s[i]).contains_spec(s[i + 1], w)
                && !s[i].siblings_spec(s[i + 1], w),
    ensures
        minimal(s, w),
        forall|i: int, j: int|
            0 <= i < j < s.len() ==> (#[trigger] s[i]).addr + s[i].size(w) <= (#[trigger] s[j]).addr,
{
    assert forall|i: int, j: int| 0 <= i < j < s.len() implies (#[trigger] s[i]).addr + s[i].size(
        w,
    ) <= (#[trigger] s[j]).addr by {
        lemma_neighbours_disjoint(s[i], s[i + 1], w);
        assert(prefix_le(s[i + 1], s[j]) || i + 1 == j);
    }
    assert forall|i: int, j: int|
        0 <= i < s.len() && 0 <= j < s.len() && i != j implies !(#[trigger] s[i]).contains_spec(
        #[trigger] s[j],
        w,
    ) && !s[i].siblings_spec(s[j], w) by {
        let (lo, hi) = if i < j {
            (i, j)
        } else {
            (j, i)
        };
        let a = s[lo];
        let b = s[hi];
        lemma_pow2_pos((w - a.len) as nat);
        lemma_pow2_pos((w - b.len) as nat);
        assert(a.addr + a.size(w) <= b.addr);
        if s[i].contains_spec(s[j], w) {
            lemma_contains_nested(s[i], s[j], w);
        }
        if s[i].siblings_spec(s[j], w) {
            crate::prefix::lemma_siblings_bounds(a, b, w);
            crate::prefix::lemma_siblings_bounds(s[i], s[j], w);
            if hi > lo + 1 {
                let m = s[lo + 1];
                lemma_pow2_pos((w - m.len) as nat);
                assert(a.addr + a.size(w) <= m.addr);
                assert(m.addr + m.size(w) <= b.addr);
                let d = crate::prefix::block_size((a.len - 1) as nat, w) as int;
                let q = d * (a.addr as int / d);
                let z = a.size(w) as int;
                if q < a.addr {
                    crate::prefix::lemma_aligned_gap(q, a.addr as int, z);
                }
                if b.addr < q + 2 * z {
                    crate::prefix::lemma_aligned_add(q, z, 2);
                    crate::prefix::lemma_aligned_gap(b.addr as int, q + 2 * z, z);
                }
                assert(false);
            }
        }
    }
}

/// What the engine returns is canonical, sorted, a fixed point of one
/// pass, and covers what its input covered.
pub proof fn lemma_aggregated_props(s: Seq<Prefix>, w: nat)
    requires
        all_wf(s, w),
    ensures
        all_wf(aggregated(s, w), w),
        sorted(aggregated(s, w)),
        merge_pass(aggregated(s, w), w) == (aggregated(s, w), false),
        forall|x: int| #[trigger] covered(aggregated(s, w), w, x) == covered(s, w, x),
    decreases s.len(),
{
    let t = sort_spec(s);
    let p = merge_pass(t, w);
    lemma_sort_spec(s);
    lemma_sort_keeps(s, w);
    if t.len() == 0 {
        assert(!p.1);
        assert forall|x: int| #[trigger] covered(aggregated(s, w), w, x) == covered(s, w, x) by {
        }
    } else {
        lemma_sweep_shape(t[0], t.drop_first(), w);
        assert(all_wf(t.drop_first(), w)) by {
            assert forall|i: int| 0 <= i < t.drop_first().len() implies (
            #[trigger] t.drop_first()[i]).wf(w) by {
                assert(t.drop_first()[i] == t[i + 1]);
            }
        }
        lemma_sweep_keeps(t[0], t.drop_first(), w);
        assert forall|x: int| #[trigger] covered(p.0, w, x) == covered(s, w, x) by {
            lemma_covered_first(t, w, x);
        }
        if p.1 {
            lemma_aggregated_props(p.0, w);
        } else {
            assert(seq![t[0]] + t.drop_first() =~= t);
        }
    }
}

/// Exec form of the working order.
fn prefix_le_exec(a: &Prefix, b: &Prefix) -> (r: bool)
    ensures
        r == prefix_le(*a, *b),
{
    a.addr < b.addr || (a.addr == b.addr && a.len <= b.len)
}

/// Sorts by address, then length (insertion sort, placing each element by
/// binary search).
pub fn sort_prefixes(v: &Vec<Prefix>) -> (r: Vec<Prefix>)
    ensures
        r@ == sort_spec(v@),
        sorted(r@),
{
    let mut out: Vec<Prefix> = Vec::new();
    let mut i: usize = 0;
    proof {
        assert(out@ =~= v@.subrange(0, 0));
    }
    while i < v.len()
        invariant
            0 <= i <= v.len(),
            sorted(out@),
            out@.to_multiset() == v@.subrange(0, i as int).to_multiset(),
        decreases v.len() - i,
    {
        let x = v[i];
        // binary search for the first element that `x` must precede
        let mut lo: usize = 0;
        let mut hi: usize = out.len();
        while lo < hi
            invariant
                0 <= lo <= hi <= out.len(),
                sorted(out@),
                forall|j: int| 0 <= j < lo ==> prefix_le(#[trigger] out@[j], x),
                forall|j: int| hi <= j < out.len() ==> !prefix_le(#[trigger] out@[j], x),
            decreases hi - lo,
        {
            let mid = lo + (hi - lo) / 2;
            if prefix_le_exec(&out[mid], &x) {
                proof {
                    assert forall|j: int| 0 <= j <= mid implies prefix_le(#[trigger] out@[j], x) by {
                        if j < mid {
                            assert(prefix_le(out@[j], out@[mid as int]));
                        }
                    }
                }
                lo = mid + 1;
            } else {
                proof {
                    assert forall|j: int| mid <= j < out.len() implies !prefix_le(
                        #[trigger] out@[j],
                        x,
                    ) by {
                        if j > mid {
                            assert(prefix_le(out@[mid as int], out@[j]));
                        }
                    }
                }
                hi = mid;
            }
        }
        let k = lo;
        let ghost before = out@;
        proof {
            assert forall|j: int| k <= j < before.len() implies prefix_le(x, #[trigger] before[j]) by {
                assert(!prefix_le(before[k as int], x));
                if j > k {
                    assert(prefix_le(before[k as int], before[j]));
                }
            }
        }
        out.insert(k, x);
        proof {
            let t = out@;
            assert forall|a: int, b: int| 0 <= a < b < t.len() implies prefix_le(
                #[trigger] t[a],
                #[trigger] t[b],
            ) by {
                if a < k {
                    assert(t[a] == before[a]);
                }
                if a > k {
                    assert(t[a] == before[a - 1]);
                }
                if b < k {
                    assert(t[b] == before[b]);
                }
                if b > k {
                    assert(t[b] == before[b - 1]);
                }
            }
            to_multiset_insert(before, k as int, x);
            assert(v@.subrange(0, i + 1) =~= v@.subrange(0, i as int).push(x));
            to_multiset_build(v@.subrange(0, i as int), x);
        }
        i = i + 1;
    }
    proof {
        assert(v@.subrange(0, v@.len() as int) =~= v@);
        lemma_sort_unique(v@, out@);
    }
    out
}

/// One left-to-right sweep over a sorted sequence: drops what the
/// accumulator contains, merges siblings into it, and emits it otherwise.
/// Also tells whether anything was dropped or merged.
pub fn merge_sweep(s: &Vec<Prefix>, w: u8) -> (r: (Vec<Prefix>, bool))
    requires
        w <= 128,
        all_wf(s@, w as nat),
    ensures
        (r.0@, r.1) == merge_pass(s@, w as nat),
{
    let n = s.len();
    let mut out: Vec<Prefix> = Vec::new();
    if n == 0 {
        return (out, false);
    }
    let mut acc = s[0];
    let mut changed = false;
    let mut i: usize = 1;
    proof {
        assert(s@.subrange(1, n as int) =~= s@.drop_first());
    }
    while i < n
        invariant
            1 <= i <= n,
            n == s@.len(),
            w <= 128,
            all_wf(s@, w as nat),
            acc.wf(w as nat),
            merge_pass(s@, w as nat).0 == out@ + sweep(acc, s@.subrange(i as int, n as int), w as nat).0,
            merge_pass(s@, w as nat).1 == (changed || sweep(
                acc,
                s@.subrange(i as int, n as int),
                w as nat,
            ).1),
        decreases n - i,
    {
        let next = s[i];
        let ghost rest = s@.subrange(i as int, n as int);
        proof {
            assert(rest[0] == next);
            assert(rest.drop_first() =~= s@.subrange(i + 1, n as int));
        }
        if acc.contains(&next, w) {
            changed = true;
        } else {
            match acc.aggregate(&next, w) {
                Some(m) => {
                    proof {
                        lemma_parent(acc, next, w as nat);
                    }
                    acc = m;
                    changed = true;
                },
                None => {
                    let ghost old_out = out@;
                    out.push(acc);
                    proof {
                        let r = sweep(next, rest.drop_first(), w as nat).0;
                        assert(old_out + (seq![acc] + r) =~= out@ + r);
                    }
                    acc = next;
                },
            }
        }
        i = i + 1;
    }
    let ghost old_out = out@;
    out.push(acc);
    proof {
        assert(s@.subrange(n as int, n as int).len() == 0);
        assert(old_out + seq![acc] =~= out@);
    }
    (out, changed)
}

/// Aggregates canonical prefixes of width `w` into the minimal equivalent
/// sorted set: sort, sweep, and repeat while a sweep changes something.
pub fn aggregate_netblocks(netblocks: Vec<Prefix>, w: u8) -> (r: Vec<Prefix>)
    requires
        w <= 128,
        all_wf(netblocks@, w as nat),
    ensures
        r@ == aggregated(netblocks@, w as nat),
        all_wf(r@, w as nat),
        sorted(r@),
        minimal(r@, w as nat),
        forall|x: int| #[trigger] covered(r@, w as nat, x) == covered(netblocks@, w as nat, x),
{
    let mut cur = netblocks;
    loop
        invariant
            w <= 128,
            all_wf(netblocks@, w as nat),
            all_wf(cur@, w as nat),
            aggregated(cur@, w as nat) == aggregated(netblocks@, w as nat),
        decreases cur@.len(),
    {
        let sorted_blocks = sort_prefixes(&cur);
        proof {
            lemma_sort_spec(cur@);
            lemma_sort_keeps(cur@, w as nat);
        }
        let (out, changed) = merge_sweep(&sorted_blocks, w);
        proof {
            if sorted_blocks@.len() > 0 {
                lemma_sweep_shape(sorted_blocks@[0], sorted_blocks@.drop_first(), w as nat);
            }
        }
        if !changed {
            proof {
                lemma_minimal_law(netblocks@, w as nat);
                lemma_union_law(netblocks@, w as nat);
                lemma_aggregated_props(netblocks@, w as nat);
            }
            return out;
        }
        proof {
            assert(all_wf(sorted_blocks@.drop_first(), w as nat)) by {
                let d = sorted_blocks@.drop_first();
                assert forall|i: int| 0 <= i < d.len() implies (#[trigger] d[i]).wf(w as nat) by {
                    assert(d[i] == sorted_blocks@[i + 1]);
                }
            }
            lemma_sweep_keeps(sorted_blocks@[0], sorted_blocks@.drop_first(), w as nat);
        }
        cur = out;
    }
}

/// Aggregating an aggregated set gives it back unchanged.
pub proof fn lemma_idempotent(s: Seq<Prefix>, w: nat)
    requires
        all_wf(s, w),
    ensures
        aggregated(aggregated(s, w), w) == aggregated(s, w),
{
    let o = aggregated(s, w);
    lemma_aggregated_props(s, w);
    lemma_sort_unique(o, o);
}

/// A sorted, canonical and minimal set is its own aggregate.
pub proof fn lemma_aggregated_fixed(s: Seq<Prefix>, w: nat)
    requires
        all_wf(s, w),
        sorted(s),
        minimal(s, w),
    ensures
        aggregated(s, w) == s,
{
    lemma_sort_unique(s, s);
    if s.len() > 0 {
        let t = seq![s[0]] + s.drop_first();
        assert(t =~= s);
        assert forall|i: int| 0 <= i < s.drop_first().len() implies !(#[trigger] t[i]).contains_spec(
            t[i + 1],
            w,
        ) && !t[i].siblings_spec(t[i + 1], w) by {
            assert(t[i] == s[i] && t[i + 1] == s[i + 1]);
        }
        lemma_sweep_unchanged(s[0], s.drop_first(), w);
    }
}

/// The aggregated set covers exactly the addresses that its input covers.
pub proof fn lemma_union_law(s: Seq<Prefix>, w: nat)
    requires
        all_wf(s, w),
    ensures
        forall|x: int| #[trigger] covered(aggregated(s, w), w, x) == covered(s, w, x),
{
    lemma_aggregated_props(s, w);
}

/// No block of the aggregated set contains another or is a sibling of another.
pub proof fn lemma_minimal_law(s: Seq<Prefix>, w: nat)
    requires
        all_wf(s, w),
    ensures
        minimal(aggregated(s, w), w),
{
    let o = aggregated(s, w);
    lemma_aggregated_props(s, w);
    if o.len() > 0 {
        lemma_sweep_stable(o[0], o.drop_first(), w);
        assert(seq![o[0]] + o.drop_first() =~= o);
    }
    lemma_minimal_from_neighbours(o, w);
}

/// Any rearrangement of the input gives the same output sequence.
pub proof fn lemma_order_invariant(s: Seq<Prefix>, t: Seq<Prefix>, w: nat)
    requires
        s.to_multiset() == t.to_multiset(),
    ensures
        aggregated(s, w) == aggregated(t, w),
{
    lemma_sort_spec(s);
    lemma_sort_spec(t);
    lemma_sort_unique(t, sort_spec(s));
}

} // verus!
