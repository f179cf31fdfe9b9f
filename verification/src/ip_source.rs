//! Enumeration of target hosts from IPv4 CIDR blocks.
//!
//! The input blocks are merged into a canonical list of disjoint,
//! non-adjacent, ascending address ranges whose union is exactly the set of
//! usable host addresses (network and broadcast addresses excluded for
//! prefixes up to 30; a `/31` contributes both addresses; a `/32`
//! contributes none). Enumeration then walks the ranges in order, so equal
//! host sets always enumerate identically, however the blocks were given.

use vstd::arithmetic::div_mod::lemma_fundamental_div_mod;
use vstd::prelude::*;
use vstd::seq_lib::*;
use vstd::set_lib::*;

verus! {

/// An IPv4 CIDR block: a 32-bit address and a prefix length (`0..=32`).
#[derive(Clone, Copy, PartialEq, Eq, Structural, Debug)]
pub struct Cidr {
    /// Any address of the block, as `a*2^24 + b*2^16 + c*2^8 + d`.
    pub addr: u32,
    /// Prefix length; host bits of `addr` are ignored.
    pub prefix: u8,
}

/// `2^k` for `k >= 0`.
pub open spec fn pow2_spec(k: int) -> int
    decreases k,
{
    if k <= 0 {
        1
    } else {
        2 * pow2_spec(k - 1)
    }
}

proof fn lemma_pow2_pos(k: int)
    ensures
        pow2_spec(k) >= 1,
    decreases k,
{
    if k > 0 {
        lemma_pow2_pos(k - 1);
    }
}

proof fn lemma_pow2_add(a: int, b: int)
    requires
        a >= 0,
        b >= 0,
    ensures
        pow2_spec(a) * pow2_spec(b) == pow2_spec(a + b),
    decreases b,
{
    if b == 0 {
    } else {
        lemma_pow2_add(a, b - 1);
        assert(pow2_spec(a) * pow2_spec(b) == pow2_spec(a) * (2 * pow2_spec(b - 1)))
            by (nonlinear_arith)
            requires
                pow2_spec(b) == 2 * pow2_spec(b - 1),
        ;
        assert(pow2_spec(a) * (2 * pow2_spec(b - 1)) == 2 * (pow2_spec(a) * pow2_spec(b - 1)))
            by (nonlinear_arith);
    }
}

impl Cidr {
    /// Number of addresses the block spans.
    pub open spec fn block_size(self) -> int {
        pow2_spec(32 - self.prefix)
    }

    /// First address of the block (host bits cleared).
    pub open spec fn network(self) -> int {
        (self.addr as int / self.block_size()) * self.block_size()
    }

    /// First usable host address.
    pub open spec fn hosts_lo(self) -> int {
        if self.prefix <= 30 {
            self.network() + 1
        } else {
            self.network()
        }
    }

    /// Last usable host address (one below `hosts_lo` when there is none).
    pub open spec fn hosts_hi(self) -> int {
        if self.prefix <= 30 {
            self.network() + self.block_size() - 2
        } else if self.prefix == 31 {
            self.network() + 1
        } else {
            self.network() - 1
        }
    }

    /// The set of usable host addresses of this block.
    pub open spec fn host_set(self) -> Set<int> {
        set_int_range(self.hosts_lo(), self.hosts_hi() + 1)
    }
}

/// The set of usable host addresses of a list of blocks.
pub open spec fn hosts_of_cidrs(cs: Seq<Cidr>) -> Set<int>
    decreases cs.len(),
{
    if cs.len() == 0 {
        Set::empty()
    } else {
        hosts_of_cidrs(cs.drop_last()).union(cs.last().host_set())
    }
}

/// An inclusive range of host addresses.
#[derive(Clone, Copy, PartialEq, Eq, Structural, Debug)]
pub struct HostRange {
    pub lo: u32,
    pub hi: u32,
}

impl HostRange {
    /// The addresses of the range, as a set.
    pub open spec fn rset(self) -> Set<int> {
        set_int_range(self.lo as int, self.hi as int + 1)
    }

    /// The addresses of the range, ascending.
    pub open spec fn rseq(self) -> Seq<int> {
        Seq::new((self.hi as int + 1 - self.lo as int) as nat, |i: int| self.lo as int + i)
    }
}

/// A canonical range list: each range non-empty, ascending, and separated
/// by a gap of at least one address (so no two ranges could be merged).
pub open spec fn canonical(s: Seq<HostRange>) -> bool {
    &&& (forall|k: int| 0 <= k < s.len() ==> (#[trigger] s[k]).lo <= s[k].hi)
    &&& (forall|k: int| 0 <= k < s.len() - 1 ==> (#[trigger] s[k]).hi + 1 < s[k + 1].lo)
}

/// Union of the address sets of a range list.
pub open spec fn ranges_set(s: Seq<HostRange>) -> Set<int>
    decreases s.len(),
{
    if s.len() == 0 {
        Set::empty()
    } else {
        s.first().rset().union(ranges_set(s.drop_first()))
    }
}

/// Concatenation of the address sequences of a range list.
pub open spec fn ranges_seq(s: Seq<HostRange>) -> Seq<int>
    decreases s.len(),
{
    if s.len() == 0 {
        Seq::empty()
    } else {
        s.first().rseq() + ranges_seq(s.drop_first())
    }
}

/// `2^k` as a machine integer.
fn pow2_u64(k: u8) -> (r: u64)
    requires
        k <= 32,
    ensures
        r as int == pow2_spec(k as int),
{
    let mut r: u64 = 1;
    let mut i: u8 = 0;
    proof {
        lemma_pow2_pos(k as int);
    }
    while i < k
        invariant
            i <= k,
            k <= 32,
            r as int == pow2_spec(i as int),
            r <= 0x1_0000_0000u64,
        decreases k - i,
    {
        proof {
            lemma_pow2_add(i as int, (k - i) as int);
            lemma_pow2_pos((k - i) as int);
            lemma_pow2_pos(i as int);
            assert(pow2_spec(i as int) * pow2_spec((k - i) as int) == pow2_spec(k as int));
            assert(pow2_spec(i as int) * 2 <= pow2_spec(i as int) * pow2_spec((k - i) as int))
                by (nonlinear_arith)
                requires
                    pow2_spec((k - i) as int) >= 2,
                    pow2_spec(i as int) >= 1,
            ;
            assert(pow2_spec(k as int) <= pow2_spec(32)) by {
                if (k as int) < 32 {
                    lemma_pow2_add(k as int, 32 - k as int);
                    lemma_pow2_pos(32 - k as int);
                    assert(pow2_spec(k as int) * 1 <= pow2_spec(k as int) * pow2_spec(
                        32 - k as int,
                    )) by (nonlinear_arith)
                        requires
                            pow2_spec(32 - k as int) >= 1,
                            pow2_spec(k as int) >= 1,
                    ;
                }
            }
            assert(pow2_spec(32) == 0x1_0000_0000) by {
                reveal_with_fuel(pow2_spec, 33);
            }
        }
        r = r * 2;
        i = i + 1;
    }
    r
}

/// The usable host addresses of one block, as an inclusive range; `None`
/// when the block contributes no hosts (`/32`).
pub fn host_range(c: &Cidr) -> (r: Option<HostRange>)
    requires
        c.prefix <= 32,
    ensures
        (r is Some) == (c.prefix < 32),
        (match r {
            Some(hr) => hr.lo <= hr.hi && hr.rset() == c.host_set() && hr.lo as int
                == c.hosts_lo() && hr.hi as int == c.hosts_hi(),
            None => c.host_set() == Set::<int>::empty(),
        }),
{
    if c.prefix == 32 {
        proof {
            assert(c.block_size() == 1);
            assert(c.network() == c.addr as int) by {
                lemma_fundamental_div_mod(c.addr as int, 1);
            }
            assert(c.host_set() =~= Set::<int>::empty());
        }
        return None;
    }
    let bs: u64 = pow2_u64(32 - c.prefix);
    proof {
        lemma_pow2_pos(32 - c.prefix as int);
        lemma_fundamental_div_mod(c.addr as int, bs as int);
        assert((bs as int) * ((c.addr as int) / (bs as int)) <= c.addr as int);
        assert(((c.addr as int) / (bs as int)) * (bs as int) == (bs as int) * ((c.addr as int) / (
        bs as int))) by (nonlinear_arith);
    }
    let net: u64 = ((c.addr as u64) / bs) * bs;
    proof {
        let a = c.addr as int;
        let b = bs as int;
        let p = c.prefix as int;
        lemma_pow2_pos(32 - p);
        lemma_pow2_add(32 - p, p);
        lemma_pow2_pos(p);
        assert(pow2_spec(32) == 0x1_0000_0000) by {
            reveal_with_fuel(pow2_spec, 33);
        }
        let m = pow2_spec(p);
        lemma_fundamental_div_mod(a, b);
        assert(b * (a / b) <= a);
        assert(a < b * m) by (nonlinear_arith)
            requires
                a < 0x1_0000_0000,
                b * m == 0x1_0000_0000,
        ;
        assert(a / b < m) by (nonlinear_arith)
            requires
                b * (a / b) <= a,
                a < b * m,
                b >= 1,
        ;
        assert((a / b) * b + b <= m * b) by (nonlinear_arith)
            requires
                a / b < m,
                b >= 1,
        ;
        assert(net as int == c.network());
        assert(net as int + bs as int <= 0x1_0000_0000);
        if c.prefix <= 30 {
            assert(bs as int >= 4) by {
                assert(pow2_spec(2) == 4) by {
                    reveal_with_fuel(pow2_spec, 3);
                }
                if 32 - p > 2 {
                    lemma_pow2_add(2, 32 - p - 2);
                    lemma_pow2_pos(32 - p - 2);
                    assert(4 * 1 <= 4 * pow2_spec(32 - p - 2)) by (nonlinear_arith)
                        requires
                            pow2_spec(32 - p - 2) >= 1,
                    ;
                }
            }
        } else {
            assert(p == 31);
            assert(bs as int == 2) by {
                reveal_with_fuel(pow2_spec, 2);
            }
        }
    }
    if c.prefix <= 30 {
        let lo: u64 = net + 1;
        let hi: u64 = net + bs - 2;
        Some(HostRange { lo: lo as u32, hi: hi as u32 })
    } else {
        Some(HostRange { lo: net as u32, hi: (net + 1) as u32 })
    }
}

/// In a canonical list every earlier range ends below every later one.
proof fn lemma_canonical_gap(s: Seq<HostRange>, m: int, k: int)
    requires
        canonical(s),
        0 <= m < k < s.len(),
    ensures
        s[m].hi + 1 < s[k].lo,
    decreases k - m,
{
    if m + 1 < k {
        lemma_canonical_gap(s, m, k - 1);
    }
}

/// Appending a range adds its addresses to the union.
proof fn lemma_ranges_set_push(s: Seq<HostRange>, x: HostRange)
    ensures
        ranges_set(s.push(x)) == ranges_set(s).union(x.rset()),
    decreases s.len(),
{
    let t = s.push(x);
    if s.len() == 0 {
        assert(t.drop_first() =~= Seq::<HostRange>::empty());
        assert(t.first() == x);
        assert(ranges_set(t) == x.rset().union(ranges_set(Seq::<HostRange>::empty())));
        assert(ranges_set(t) =~= ranges_set(s).union(x.rset()));
    } else {
        assert(t.first() == s.first());
        assert(t.drop_first() =~= s.drop_first().push(x));
        assert(ranges_set(t) == t.first().rset().union(ranges_set(t.drop_first())));
        lemma_ranges_set_push(s.drop_first(), x);
        assert(ranges_set(t.drop_first()) == ranges_set(s.drop_first()).union(x.rset()));
        assert(ranges_set(s) == s.first().rset().union(ranges_set(s.drop_first())));
        assert(ranges_set(t) =~= ranges_set(s).union(x.rset()));
    }
}

/// Taking one more element adds its addresses to the union.
proof fn lemma_ranges_set_take_succ(s: Seq<HostRange>, k: int)
    requires
        0 <= k < s.len(),
    ensures
        ranges_set(s.take(k + 1)) == ranges_set(s.take(k)).union(s[k].rset()),
{
    assert(s.take(k + 1) =~= s.take(k).push(s[k]));
    lemma_ranges_set_push(s.take(k), s[k]);
}

/// Inserts range `nr` into a canonical list, merging it with every range it
/// overlaps or touches, so that the list stays canonical and its union
/// grows by exactly the addresses of `nr`.
#[verifier::rlimit(60)]
pub fn insert_range(ranges: &mut Vec<HostRange>, nr: HostRange)
    requires
        canonical(old(ranges)@),
        nr.lo <= nr.hi,
    ensures
        canonical(final(ranges)@),
        ranges_set(final(ranges)@) == ranges_set(old(ranges)@).union(nr.rset()),
{
    let n = ranges.len();
    let mut out: Vec<HostRange> = Vec::new();
    let mut cur: HostRange = nr;
    let mut placed: bool = false;
    let mut k: usize = 0;
    while k < n
        invariant
            n == ranges@.len(),
            canonical(ranges@),
            nr.lo <= nr.hi,
            k <= n,
            canonical(out@),
            (!placed ==> {
                &&& out@ == ranges@.take(out@.len() as int)
                &&& out@.len() <= k
                &&& cur.lo <= cur.hi
                &&& (out@.len() > 0 ==> out@.last().hi + 1 < cur.lo)
                &&& (out@.len() < k ==> cur.lo as int <= ranges@[out@.len() as int].lo as int)
                &&& ranges_set(out@).union(cur.rset()) == ranges_set(ranges@.take(k as int)).union(
                    nr.rset(),
                )
            }),
            (placed ==> {
                &&& k > 0
                &&& out@.len() > 0
                &&& out@.last() == ranges@[k - 1]
                &&& ranges_set(out@) == ranges_set(ranges@.take(k as int)).union(nr.rset())
            }),
        decreases n - k,
    {
        let r = ranges[k];
        let ghost pre = out@;
        if placed {
            out.push(r);
            proof {
                assert(out@ == pre.push(r));
                lemma_ranges_set_push(pre, r);
                lemma_ranges_set_take_succ(ranges@, k as int);
                assert(canonical(out@)) by {
                    assert(forall|m: int| 0 <= m < pre.len() ==> out@[m] == pre[m]);
                    assert(out@.last() == r);
                    assert(pre.last().hi + 1 < r.lo);
                }
                assert(ranges_set(out@) =~= ranges_set(ranges@.take(k as int + 1)).union(
                    nr.rset(),
                ));
            }
        } else if (r.hi as u64) + 1 < (cur.lo as u64) {
            proof {
                if pre.len() < k {
                    lemma_canonical_gap(ranges@, pre.len() as int, k as int);
                    assert(ranges@[pre.len() as int].lo as int <= ranges@[pre.len() as int].hi
                        as int);
                    assert(false);
                }
                assert(pre.len() == k);
            }
            out.push(r);
            proof {
                assert(out@ == pre.push(r));
                lemma_ranges_set_push(pre, r);
                lemma_ranges_set_take_succ(ranges@, k as int);
                assert(out@ =~= ranges@.take(k as int + 1));
                assert(canonical(out@)) by {
                    assert(forall|m: int| 0 <= m < out@.len() ==> out@[m] == ranges@[m]);
                }
                assert forall|x: int|
                    ranges_set(out@).union(cur.rset()).contains(x) == ranges_set(
                        ranges@.take(k as int + 1),
                    ).union(nr.rset()).contains(x) by {
                    assert(ranges_set(pre).union(cur.rset()).contains(x) == ranges_set(
                        ranges@.take(k as int),
                    ).union(nr.rset()).contains(x));
                }
                assert(ranges_set(out@).union(cur.rset()) =~= ranges_set(
                    ranges@.take(k as int + 1),
                ).union(nr.rset()));
            }
        } else if (cur.hi as u64) + 1 < (r.lo as u64) {
            out.push(cur);
            out.push(r);
            placed = true;
            proof {
                assert(out@ == pre.push(cur).push(r));
                lemma_ranges_set_push(pre, cur);
                lemma_ranges_set_push(pre.push(cur), r);
                lemma_ranges_set_take_succ(ranges@, k as int);
                assert(canonical(out@)) by {
                    assert(forall|m: int| 0 <= m < pre.len() ==> out@[m] == pre[m]);
                    assert(out@[out@.len() - 2] == cur);
                    assert(out@[out@.len() - 1] == r);
                    assert(cur.hi + 1 < r.lo);
                }
                assert(ranges_set(pre).union(cur.rset()) == ranges_set(
                    ranges@.take(k as int),
                ).union(nr.rset()));
                assert(ranges_set(out@) == ranges_set(pre).union(cur.rset()).union(r.rset()));
                assert(ranges_set(ranges@.take(k as int + 1)) == ranges_set(
                    ranges@.take(k as int),
                ).union(r.rset()));
                assert(ranges_set(out@) =~= ranges_set(ranges@.take(k as int + 1)).union(
                    nr.rset(),
                ));
            }
        } else {
            // overlap or adjacency: absorb `r` into the pending range
            let nlo: u32 = if r.lo < cur.lo {
                r.lo
            } else {
                cur.lo
            };
            let nhi: u32 = if r.hi > cur.hi {
                r.hi
            } else {
                cur.hi
            };
            let merged = HostRange { lo: nlo, hi: nhi };
            proof {
                assert(merged.rset() =~= cur.rset().union(r.rset()));
                lemma_ranges_set_take_succ(ranges@, k as int);
                if pre.len() > 0 && r.lo < cur.lo {
                    lemma_canonical_gap(ranges@, pre.len() as int - 1, k as int);
                    assert(pre.last() == ranges@[pre.len() as int - 1]);
                }
                assert(pre.len() > 0 ==> pre.last().hi + 1 < merged.lo);
                assert(ranges_set(pre).union(cur.rset()) == ranges_set(
                    ranges@.take(k as int),
                ).union(nr.rset()));
                assert(ranges_set(ranges@.take(k as int + 1)) == ranges_set(
                    ranges@.take(k as int),
                ).union(r.rset()));
                assert forall|x: int|
                    ranges_set(pre).union(merged.rset()).contains(x) == ranges_set(
                        ranges@.take(k as int + 1),
                    ).union(nr.rset()).contains(x) by {
                    assert(merged.rset().contains(x) == (cur.rset().contains(x)
                        || r.rset().contains(x)));
                    assert(ranges_set(pre).union(cur.rset()).contains(x) == ranges_set(
                        ranges@.take(k as int),
                    ).union(nr.rset()).contains(x));
                }
                assert(ranges_set(pre).union(merged.rset()) =~= ranges_set(
                    ranges@.take(k as int + 1),
                ).union(nr.rset()));
                if pre.len() < k {
                    assert(merged.lo as int <= ranges@[pre.len() as int].lo as int);
                } else {
                    assert(merged.lo as int <= r.lo as int);
                }
            }
            cur = merged;
        }
        k += 1;
    }
    if !placed {
        let ghost pre = out@;
        out.push(cur);
        proof {
            assert(out@ == pre.push(cur));
            lemma_ranges_set_push(pre, cur);
            assert(canonical(out@)) by {
                assert(forall|m: int| 0 <= m < pre.len() ==> out@[m] == pre[m]);
                assert(out@.last() == cur);
            }
            assert(ranges_set(out@) =~= ranges_set(pre).union(cur.rset()));
        }
    }
    proof {
        assert(ranges@.take(n as int) =~= ranges@);
    }
    *ranges = out;
}

/// Merges the host ranges of all blocks into one canonical list whose union
/// is exactly the usable host addresses of the input, duplicates and all
/// overlaps collapsed.
pub fn build_host_ranges(cidrs: &Vec<Cidr>) -> (r: Vec<HostRange>)
    requires
        forall|i: int| 0 <= i < cidrs@.len() ==> (#[trigger] cidrs@[i]).prefix <= 32,
    ensures
        canonical(r@),
        ranges_set(r@) == hosts_of_cidrs(cidrs@),
{
    let mut out: Vec<HostRange> = Vec::new();
    let mut k: usize = 0;
    while k < cidrs.len()
        invariant
            k <= cidrs@.len(),
            forall|i: int| 0 <= i < cidrs@.len() ==> (#[trigger] cidrs@[i]).prefix <= 32,
            canonical(out@),
            ranges_set(out@) == hosts_of_cidrs(cidrs@.take(k as int)),
        decreases cidrs@.len() - k,
    {
        let c = cidrs[k];
        let ghost pre = out@;
        match host_range(&c) {
            Some(hr) => {
                insert_range(&mut out, hr);
                proof {
                    assert(ranges_set(out@) == ranges_set(pre).union(c.host_set()));
                }
            },
            None => {
                proof {
                    assert(ranges_set(out@) =~= ranges_set(pre).union(c.host_set()));
                }
            },
        }
        k += 1;
        proof {
            assert(cidrs@.take(k as int).drop_last() =~= cidrs@.take(k as int - 1));
            assert(cidrs@.take(k as int).last() == cidrs@[k as int - 1]);
            assert(ranges_set(out@) == hosts_of_cidrs(cidrs@.take(k as int)));
        }
    }
    proof {
        assert(cidrs@.take(cidrs@.len() as int) =~= cidrs@);
    }
    out
}

/// Appending a range appends its addresses to the enumeration.
proof fn lemma_ranges_seq_push(s: Seq<HostRange>, x: HostRange)
    ensures
        ranges_seq(s.push(x)) == ranges_seq(s) + x.rseq(),
    decreases s.len(),
{
    let t = s.push(x);
    if s.len() == 0 {
        assert(t.drop_first() =~= Seq::<HostRange>::empty());
        assert(t.first() == x);
        assert(ranges_seq(Seq::<HostRange>::empty()) == Seq::<int>::empty());
        assert(ranges_seq(t) == x.rseq() + Seq::<int>::empty());
        assert(ranges_seq(s) == Seq::<int>::empty());
        assert(ranges_seq(t) =~= ranges_seq(s) + x.rseq());
    } else {
        assert(t.first() == s.first());
        assert(t.drop_first() =~= s.drop_first().push(x));
        lemma_ranges_seq_push(s.drop_first(), x);
        assert(ranges_seq(t) == s.first().rseq() + (ranges_seq(s.drop_first()) + x.rseq()));
        assert(ranges_seq(s) == s.first().rseq() + ranges_seq(s.drop_first()));
        assert(s.first().rseq() + (ranges_seq(s.drop_first()) + x.rseq()) =~= (s.first().rseq()
            + ranges_seq(s.drop_first())) + x.rseq());
        assert(ranges_seq(t) =~= ranges_seq(s) + x.rseq());
    }
}

/// Taking one more range appends its addresses to the enumeration.
proof fn lemma_ranges_seq_take_succ(s: Seq<HostRange>, k: int)
    requires
        0 <= k < s.len(),
    ensures
        ranges_seq(s.take(k + 1)) == ranges_seq(s.take(k)) + s[k].rseq(),
{
    assert(s.take(k + 1) =~= s.take(k).push(s[k]));
    lemma_ranges_seq_push(s.take(k), s[k]);
}

/// A canonical list enumerates at most the whole address space: the count
/// is bounded by `2^32` less the first address.
pub proof fn lemma_canonical_total_bound(s: Seq<HostRange>)
    requires
        canonical(s),
    ensures
        s.len() == 0 ==> ranges_seq(s).len() == 0,
        s.len() > 0 ==> ranges_seq(s).len() + s[0].lo as int <= 0x1_0000_0000,
    decreases s.len(),
{
    if s.len() > 0 {
        let d = s.drop_first();
        assert(canonical(d)) by {
            assert(forall|k: int| 0 <= k < d.len() ==> d[k] == s[k + 1]);
        }
        lemma_canonical_total_bound(d);
        assert(ranges_seq(s).len() == s[0].rseq().len() + ranges_seq(d).len());
        if d.len() > 0 {
            assert(d[0] == s[1]);
            assert(s[0].hi + 1 < s[1].lo);
        }
    }
}

/// Membership in the union is membership in some range.
proof fn lemma_ranges_set_membership(s: Seq<HostRange>, x: int)
    ensures
        ranges_set(s).contains(x) <==> exists|k: int|
            0 <= k < s.len() && (#[trigger] s[k]).rset().contains(x),
    decreases s.len(),
{
    if s.len() == 0 {
    } else {
        let d = s.drop_first();
        lemma_ranges_set_membership(d, x);
        assert(forall|k: int| 0 <= k < d.len() ==> d[k] == s[k + 1]);
        if ranges_set(s).contains(x) {
            if s.first().rset().contains(x) {
                assert(s[0].rset().contains(x));
            } else {
                let k = choose|k: int| 0 <= k < d.len() && (#[trigger] d[k]).rset().contains(x);
                assert(s[k + 1].rset().contains(x));
            }
        }
        if exists|k: int| 0 <= k < s.len() && (#[trigger] s[k]).rset().contains(x) {
            let k = choose|k: int| 0 <= k < s.len() && (#[trigger] s[k]).rset().contains(x);
            if k == 0 {
                assert(s.first().rset().contains(x));
            } else {
                assert(d[k - 1].rset().contains(x));
                assert(ranges_set(d).contains(x));
            }
        }
    }
}

/// A canonical list is determined by the set it covers: the merged range
/// list is a canonical form, so equal host sets give equal lists — and
/// therefore identical enumerations, whatever order or duplication the
/// input blocks had.
#[verifier::rlimit(100)]
#[verifier::spinoff_prover]
pub proof fn lemma_canonical_unique(s1: Seq<HostRange>, s2: Seq<HostRange>)
    requires
        canonical(s1),
        canonical(s2),
        ranges_set(s1) == ranges_set(s2),
    ensures
        s1 == s2,
    decreases s1.len(),
{
    if s1.len() == 0 && s2.len() == 0 {
        assert(s1 =~= s2);
    } else if s1.len() == 0 {
        assert(s2[0].rset().contains(s2[0].lo as int));
        lemma_ranges_set_membership(s2, s2[0].lo as int);
        assert(ranges_set(s2).contains(s2[0].lo as int));
        lemma_ranges_set_membership(s1, s2[0].lo as int);
    } else if s2.len() == 0 {
        assert(s1[0].rset().contains(s1[0].lo as int));
        lemma_ranges_set_membership(s1, s1[0].lo as int);
        lemma_ranges_set_membership(s2, s1[0].lo as int);
    } else {
        let a = s1[0];
        let b = s2[0];
        // the first range starts at the least covered address
        assert(a.lo == b.lo) by {
            lemma_range_heads_align(s1, s2);
            lemma_range_heads_align(s2, s1);
        }
        // and ends just before the first uncovered address
        assert(a.hi == b.hi) by {
            lemma_range_head_end(s1, s2);
            lemma_range_head_end(s2, s1);
        }
        let d1 = s1.drop_first();
        let d2 = s2.drop_first();
        assert(canonical(d1)) by {
            assert(forall|k: int| 0 <= k < d1.len() ==> d1[k] == s1[k + 1]);
        }
        assert(canonical(d2)) by {
            assert(forall|k: int| 0 <= k < d2.len() ==> d2[k] == s2[k + 1]);
        }
        lemma_tail_set(s1);
        lemma_tail_set(s2);
        assert(ranges_set(d1) =~= ranges_set(d2));
        lemma_canonical_unique(d1, d2);
        assert(a == b);
        assert(s1.len() == s2.len());
        assert forall|m: int| 0 <= m < s1.len() implies s1[m] == s2[m] by {
            if m > 0 {
                assert(s1[m] == d1[m - 1]);
                assert(s2[m] == d2[m - 1]);
            }
        }
        assert(s1 =~= s2);
    }
}

/// The first range of a canonical list starts no later than any covered
/// address; hence two canonical lists of one set start together.
proof fn lemma_range_heads_align(s1: Seq<HostRange>, s2: Seq<HostRange>)
    requires
        canonical(s1),
        canonical(s2),
        ranges_set(s1) == ranges_set(s2),
        s1.len() > 0,
        s2.len() > 0,
    ensures
        s1[0].lo >= s2[0].lo,
{
    assert(s1[0].rset().contains(s1[0].lo as int));
    lemma_ranges_set_membership(s1, s1[0].lo as int);
    lemma_ranges_set_membership(s2, s1[0].lo as int);
    let k = choose|k: int| 0 <= k < s2.len() && (#[trigger] s2[k]).rset().contains(s1[0].lo as int);
    if k > 0 {
        lemma_canonical_gap(s2, 0, k);
    }
}

/// When the first ranges start together, `s1`'s cannot end earlier: the
/// address one past its end would be covered by `s2` but not by `s1`.
proof fn lemma_range_head_end(s1: Seq<HostRange>, s2: Seq<HostRange>)
    requires
        canonical(s1),
        canonical(s2),
        ranges_set(s1) == ranges_set(s2),
        s1.len() > 0,
        s2.len() > 0,
        s1[0].lo == s2[0].lo,
    ensures
        s1[0].hi >= s2[0].hi,
{
    if s1[0].hi < s2[0].hi {
        let x = s1[0].hi as int + 1;
        assert(s2[0].rset().contains(x));
        lemma_ranges_set_membership(s2, x);
        lemma_ranges_set_membership(s1, x);
        let k = choose|k: int| 0 <= k < s1.len() && (#[trigger] s1[k]).rset().contains(x);
        if k > 0 {
            lemma_canonical_gap(s1, 0, k);
        }
        assert(false);
    }
}

/// Dropping the first range of a canonical list removes exactly its
/// addresses from the union.
proof fn lemma_tail_set(s: Seq<HostRange>)
    requires
        canonical(s),
        s.len() > 0,
    ensures
        ranges_set(s.drop_first()) == ranges_set(s).difference(s[0].rset()),
{
    let d = s.drop_first();
    assert(forall|k: int| 0 <= k < d.len() ==> d[k] == s[k + 1]);
    assert forall|x: int| ranges_set(d).contains(x) implies ranges_set(s).contains(x)
        && !s[0].rset().contains(x) by {
        lemma_ranges_set_membership(d, x);
        let k = choose|k: int| 0 <= k < d.len() && (#[trigger] d[k]).rset().contains(x);
        lemma_canonical_gap(s, 0, k + 1);
    }
    assert forall|x: int|
        ranges_set(s).contains(x) && !s[0].rset().contains(x) implies ranges_set(d).contains(
        x,
    ) by {
        lemma_ranges_set_membership(s, x);
        let k = choose|k: int| 0 <= k < s.len() && (#[trigger] s[k]).rset().contains(x);
        assert(k > 0);
        assert(d[k - 1].rset().contains(x));
        lemma_ranges_set_membership(d, x);
    }
    assert(ranges_set(d) =~= ranges_set(s).difference(s[0].rset()));
}

/// Order independence of enumeration: two merged range lists built from
/// inputs that cover the same hosts — the same blocks in another order, or
/// with duplicates — are identical, and so enumerate identical host
/// sequences.
pub proof fn lemma_enumeration_determined(
    c1: Seq<Cidr>,
    c2: Seq<Cidr>,
    r1: Seq<HostRange>,
    r2: Seq<HostRange>,
)
    requires
        canonical(r1),
        canonical(r2),
        ranges_set(r1) == hosts_of_cidrs(c1),
        ranges_set(r2) == hosts_of_cidrs(c2),
        hosts_of_cidrs(c1) == hosts_of_cidrs(c2),
    ensures
        r1 == r2,
        ranges_seq(r1) == ranges_seq(r2),
{
    lemma_canonical_unique(r1, r2);
}

/// Listing two blocks in either order covers the same hosts.
pub proof fn lemma_hosts_commute(a: Cidr, b: Cidr)
    ensures
        hosts_of_cidrs(seq![a, b]) == hosts_of_cidrs(seq![b, a]),
{
    lemma_hosts_pair(a, b);
    lemma_hosts_pair(b, a);
    assert(a.host_set().union(b.host_set()) =~= b.host_set().union(a.host_set()));
}

/// Unfolding of the host set of a two-block list.
proof fn lemma_hosts_pair(a: Cidr, b: Cidr)
    ensures
        hosts_of_cidrs(seq![a, b]) == a.host_set().union(b.host_set()),
{
    let s = seq![a, b];
    assert(s.last() == b);
    assert(s.drop_last() =~= seq![a]);
    assert(seq![a].last() == a);
    assert(seq![a].drop_last() =~= Seq::<Cidr>::empty());
    assert(hosts_of_cidrs(Seq::<Cidr>::empty()) == Set::<int>::empty());
    assert(hosts_of_cidrs(seq![a]) == Set::<int>::empty().union(a.host_set()));
    assert(hosts_of_cidrs(s) == hosts_of_cidrs(seq![a]).union(b.host_set()));
    assert(Set::<int>::empty().union(a.host_set()) =~= a.host_set());
}

/// Listing a block twice covers the same hosts as listing it once.
pub proof fn lemma_hosts_duplicate(a: Cidr)
    ensures
        hosts_of_cidrs(seq![a, a]) == hosts_of_cidrs(seq![a]),
{
    lemma_hosts_pair(a, a);
    assert(seq![a].last() == a);
    assert(seq![a].drop_last() =~= Seq::<Cidr>::empty());
    assert(hosts_of_cidrs(seq![a]) == hosts_of_cidrs(Seq::<Cidr>::empty()).union(a.host_set()));
    assert(a.host_set().union(a.host_set()) =~= Set::<int>::empty().union(a.host_set()));
}

/// Number of hosts a canonical range list enumerates.
pub fn host_count(ranges: &Vec<HostRange>) -> (n: u64)
    requires
        canonical(ranges@),
    ensures
        n as int == ranges_seq(ranges@).len(),
        n <= 0x1_0000_0000u64,
{
    let mut n: u64 = 0;
    let mut k: usize = 0;
    proof {
        assert(ranges_seq(ranges@.take(0)) =~= Seq::<int>::empty());
    }
    while k < ranges.len()
        invariant
            canonical(ranges@),
            k <= ranges@.len(),
            n as int == ranges_seq(ranges@.take(k as int)).len(),
            n <= 0x1_0000_0000u64,
        decreases ranges@.len() - k,
    {
        let r = ranges[k];
        proof {
            lemma_ranges_seq_take_succ(ranges@, k as int);
            lemma_take_bound(ranges@, k as int + 1);
        }
        n = n + ((r.hi - r.lo) as u64 + 1);
        k += 1;
    }
    proof {
        assert(ranges@.take(ranges@.len() as int) =~= ranges@);
    }
    n
}

/// A prefix of a canonical list never enumerates more than the whole
/// address space.
proof fn lemma_take_bound(s: Seq<HostRange>, k: int)
    requires
        canonical(s),
        0 <= k <= s.len(),
    ensures
        ranges_seq(s.take(k)).len() <= 0x1_0000_0000,
{
    let t = s.take(k);
    assert(canonical(t)) by {
        assert(forall|m: int| 0 <= m < t.len() ==> t[m] == s[m]);
    }
    lemma_canonical_total_bound(t);
}

/// Walks the hosts of a canonical range list in ascending order.
pub struct HostIter {
    ranges: Vec<HostRange>,
    ri: usize,
    cur: u64,
}

impl HostIter {
    /// Internal consistency: the position points into the current range.
    pub closed spec fn wf(self) -> bool {
        &&& canonical(self.ranges@)
        &&& self.ri as int <= self.ranges@.len()
        &&& ((self.ri as int) < self.ranges@.len() ==> self.ranges@[self.ri as int].lo as int
            <= self.cur as int && self.cur as int <= self.ranges@[self.ri as int].hi as int)
    }

    /// The hosts not yet yielded, in the order they will come.
    pub closed spec fn remaining(self) -> Seq<int> {
        if (self.ri as int) < self.ranges@.len() {
            let r = self.ranges@[self.ri as int];
            Seq::new((r.hi as int + 1 - self.cur as int) as nat, |i: int| self.cur as int + i)
                + ranges_seq(self.ranges@.skip(self.ri as int + 1))
        } else {
            Seq::empty()
        }
    }

    /// Starts an enumeration over `ranges`.
    pub fn new(ranges: Vec<HostRange>) -> (r: Self)
        requires
            canonical(ranges@),
        ensures
            r.wf(),
            r.remaining() == ranges_seq(ranges@),
    {
        let cur: u64 = if ranges.len() > 0 {
            ranges[0].lo as u64
        } else {
            0
        };
        let it = HostIter { ranges, ri: 0, cur };
        proof {
            if it.ranges@.len() > 0 {
                assert(it.ranges@.skip(1) =~= it.ranges@.drop_first());
                assert(it.ranges@[0].rseq() == Seq::new(
                    (it.ranges@[0].hi as int + 1 - it.cur as int) as nat,
                    |i: int| it.cur as int + i,
                ));
                assert(it.remaining() == ranges_seq(it.ranges@));
            } else {
                assert(ranges_seq(it.ranges@) =~= Seq::<int>::empty());
            }
        }
        it
    }

    /// Whether a host is still waiting.
    pub fn has_next(&self) -> (r: bool)
        requires
            self.wf(),
        ensures
            r == (self.remaining().len() > 0),
    {
        self.ri < self.ranges.len()
    }

    /// Yields the next host, or `None` when the enumeration is done.
    pub fn next(&mut self) -> (r: Option<u32>)
        requires
            old(self).wf(),
        ensures
            final(self).wf(),
            (old(self).remaining().len() == 0 ==> r is None && final(self).remaining()
                == old(self).remaining()),
            (old(self).remaining().len() > 0 ==> r is Some && r.unwrap() as int == old(
                self,
            ).remaining().first() && final(self).remaining() == old(self).remaining().drop_first()),
    {
        if self.ri >= self.ranges.len() {
            return None;
        }
        let r = self.ranges[self.ri];
        let v = self.cur as u32;
        if self.cur < r.hi as u64 {
            self.cur = self.cur + 1;
            proof {
                assert(final(self).remaining() =~= old(self).remaining().drop_first());
            }
        } else {
            self.ri = self.ri + 1;
            if self.ri < self.ranges.len() {
                let nxt = self.ranges[self.ri];
                self.cur = nxt.lo as u64;
            }
            proof {
                let rs = self.ranges@;
                if (self.ri as int) < rs.len() {
                    assert(rs.skip(old(self).ri as int + 1).first() == rs[self.ri as int]);
                    assert(rs.skip(old(self).ri as int + 1) =~= seq![rs[self.ri as int]]
                        + rs.skip(self.ri as int + 1));
                    assert(ranges_seq(rs.skip(old(self).ri as int + 1)) == rs[
                        self.ri as int
                    ].rseq() + ranges_seq(rs.skip(self.ri as int + 1))) by {
                        let t = rs.skip(old(self).ri as int + 1);
                        assert(t.len() > 0);
                        assert(t.first() == rs[self.ri as int]);
                        assert(t.drop_first() =~= rs.skip(self.ri as int + 1));
                    }
                    assert(final(self).remaining() =~= old(self).remaining().drop_first());
                } else {
                    assert(rs.skip(old(self).ri as int + 1) =~= Seq::<HostRange>::empty());
                    assert(final(self).remaining() =~= old(self).remaining().drop_first());
                }
            }
        }
        Some(v)
    }
}

} // verus!
