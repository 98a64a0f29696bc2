//! An ordered collection of pairwise disjoint, non-touching inclusive byte
//! ranges, tracking free physical memory. Supports marking memory free
//! (`insert`, coalescing), marking it unavailable (`remove`, splitting), and
//! first-fit aligned allocation (`allocate`).

use vstd::arithmetic::div_mod::{lemma_fundamental_div_mod, lemma_mod_multiples_basic};
use vstd::prelude::*;

verus! {

/// An inclusive interval of physical addresses `[start, end]`.
#[derive(Clone, Copy, PartialEq, Eq, Structural)]
pub struct Range {
    pub start: u64,
    pub end: u64,
}

impl Range {
    /// A range is well formed when it is non-empty: `start <= end`.
    pub open spec fn wf(self) -> bool {
        self.start <= self.end
    }

    /// Does this range cover the address `a`?
    pub open spec fn covers(self, a: int) -> bool {
        self.start <= a <= self.end
    }
}

/// Free physical memory, as an ordered sequence of pairwise disjoint,
/// non-touching ranges (adjacent free ranges are always coalesced).
pub struct RangeSet {
    ranges: Vec<Range>,
}

impl RangeSet {
    /// The ranges tracked, in ascending address order.
    pub closed spec fn ranges(self) -> Seq<Range> {
        self.ranges@
    }

    /// The tracker's invariant: every range is non-empty, and any two ranges
    /// are separated by a gap of at least one address (so no two ranges
    /// overlap or touch without having been merged).
    pub open spec fn wf(self) -> bool {
        wf_ranges(self.ranges())
    }

    /// Is the address `a` tracked as free?
    pub open spec fn contains_addr(self, a: int) -> bool {
        seq_covers(self.ranges(), a)
    }

    /// An empty tracker.
    pub fn new() -> (s: Self)
        ensures
            s.wf(),
            s.ranges().len() == 0,
            forall|a: int| !s.contains_addr(a),
    {
        RangeSet { ranges: Vec::new() }
    }

    /// How many ranges are currently tracked.
    pub fn num_ranges(&self) -> (n: usize)
        ensures
            n == self.ranges().len(),
    {
        self.ranges.len()
    }

    /// The `i`-th tracked range, in ascending address order.
    pub fn range_at(&self, i: usize) -> (r: Range)
        requires
            i < self.ranges().len(),
        ensures
            r == self.ranges()[i as int],
    {
        self.ranges[i]
    }

    /// Mark the range `r` as free, merging it with every tracked range it
    /// overlaps or touches. Afterwards an address is free exactly when it was
    /// free before or lies in `r`.
    #[verifier::rlimit(50)]
    pub fn insert(&mut self, r: Range)
        requires
            old(self).wf(),
            r.wf(),
        ensures
            final(self).wf(),
            forall|a: int|
                #[trigger] final(self).contains_addr(a) <==> old(self).contains_addr(a) || r.covers(a),
    {
        let n = self.ranges.len();
        let ghost s = old(self).ranges();

        // Ranges entirely before `r` (with a gap) form a prefix; ranges
        // entirely after `r` (with a gap) form a suffix; everything between
        // overlaps or touches `r` and is merged with it.
        let mut lo: usize = 0;
        while lo < n && strictly_before(self.ranges[lo], r)
            invariant
                old(self).wf(),
                s == old(self).ranges(),
                self.ranges@ == s,
                n == s.len(),
                lo <= n,
                forall|i: int| 0 <= i < lo ==> s[i].end + 1 < r.start,
            decreases n - lo,
        {
            lo += 1;
        }

        let mut hi: usize = lo;
        let mut merged = r;
        while hi < n && !strictly_after(self.ranges[hi], r)
            invariant
                old(self).wf(),
                s == old(self).ranges(),
                r.wf(),
                self.ranges@ == s,
                n == s.len(),
                lo <= hi <= n,
                merged.wf(),
                merged.start == if lo < hi { min_u64(r.start, s[lo as int].start) } else { r.start },
                merged.end == if lo < hi { max_u64(r.end, s[hi - 1].end) } else { r.end },
                forall|i: int| lo <= i < hi ==> !(s[i].end + 1 < r.start) && !(r.end + 1 < s[i].start),
                forall|i: int| 0 <= i < lo ==> s[i].end + 1 < r.start,
                lo < n ==> !(s[lo as int].end + 1 < r.start),
            decreases n - hi,
        {
            proof {
                assert(s[hi as int].wf());
                if lo < hi {
                    assert(s[hi - 1].end + 1 < s[hi as int].start);
                    // Nothing at or past `lo` lies strictly below `r`.
                    assert(s[lo as int].end + 1 < s[hi as int].start);
                    assert(s[lo as int].wf());
                }
            }
            let c = self.ranges[hi];
            merged = Range {
                start: if c.start < merged.start { c.start } else { merged.start },
                end: if c.end > merged.end { c.end } else { merged.end },
            };
            hi += 1;
        }

        let ghost m = merged;
        proof {
            // Facts about the three zones, used to re-establish wf and
            // coverage below.
            assert(forall|i: int| 0 <= i < lo ==> s[i].end + 1 < r.start);
            assert forall|i: int| hi <= i < n implies r.end + 1 < s[i].start by {
                if i > hi {
                    assert(s[hi as int].end + 1 < s[i].start);
                    assert(s[hi as int].wf());
                }
            }
            assert(forall|i: int| lo <= i < hi ==> !(s[i].end + 1 < r.start) && !(r.end + 1 < s[i].start));
            assert(m.start <= r.start && r.end <= m.end);
            // The merged range stays clear of the prefix and the suffix.
            assert forall|i: int| 0 <= i < lo implies s[i].end + 1 < m.start by {
                if lo < hi {
                    assert(s[i].end + 1 < s[lo as int].start);
                }
            }
            assert forall|i: int| hi <= i < n implies m.end + 1 < s[i].start by {
                if lo < hi {
                    assert(s[hi - 1].end + 1 < s[i].start);
                }
            }
        }

        let mut out: Vec<Range> = Vec::new();
        let mut i: usize = 0;
        while i < lo
            invariant
                s == old(self).ranges(),
                self.ranges@ == s,
                n == s.len(),
                i <= lo <= n,
                out@ == s.take(i as int),
            decreases lo - i,
        {
            out.push(self.ranges[i]);
            i += 1;
        }
        out.push(merged);
        let mut j: usize = hi;
        while j < n
            invariant
                s == old(self).ranges(),
                self.ranges@ == s,
                n == s.len(),
                lo <= hi <= j <= n,
                out@ == s.take(lo as int).push(m) + s.subrange(hi as int, j as int),
            decreases n - j,
        {
            out.push(self.ranges[j]);
            proof {
                assert(out@ == s.take(lo as int).push(m) + s.subrange(hi as int, j + 1 as int));
            }
            j += 1;
        }
        self.ranges = out;

        proof {
            let t = self.ranges@;
            assert(t == s.take(lo as int).push(m) + s.subrange(hi as int, n as int));
            assert(t.len() == lo + 1 + (n - hi));
            assert forall|i2: int| 0 <= i2 < t.len() implies t[i2].wf() by {
                if i2 < lo {
                    assert(t[i2] == s[i2]);
                } else if i2 == lo {
                    assert(t[i2] == m);
                } else {
                    assert(t[i2] == s[hi + i2 - lo - 1]);
                }
            }
            assert forall|i2: int, j2: int| 0 <= i2 < j2 < t.len() implies t[i2].end + 1 < t[j2].start by {
                if i2 < lo { assert(t[i2] == s[i2]); }
                if i2 == lo { assert(t[i2] == m); }
                if i2 > lo { assert(t[i2] == s[hi + i2 - lo - 1]); }
                if j2 < lo { assert(t[j2] == s[j2]); }
                if j2 == lo { assert(t[j2] == m); }
                if j2 > lo { assert(t[j2] == s[hi + j2 - lo - 1]); }
            }
            // Coverage in both directions.
            assert forall|a: int|
                #[trigger] self.contains_addr(a) <==> old(self).contains_addr(a) || r.covers(a) by {
                if self.contains_addr(a) {
                    let k = choose|k: int| 0 <= k < t.len() && t[k].covers(a);
                    if k < lo {
                        assert(s[k].covers(a));
                    } else if k > lo {
                        assert(s[hi + k - lo - 1].covers(a));
                    } else {
                        assert(m.covers(a));
                        if !r.covers(a) {
                            if a < r.start {
                                lemma_cover_left(s, lo as int, hi as int, r, a);
                            } else {
                                lemma_cover_right(s, lo as int, hi as int, r, a);
                            }
                        }
                    }
                }
                if r.covers(a) {
                    assert(t[lo as int] == m);
                    assert(self.ranges()[lo as int].covers(a));
                } else if old(self).contains_addr(a) {
                    let k = choose|k: int| 0 <= k < n && s[k].covers(a);
                    if k < lo {
                        assert(t[k] == s[k]);
                        assert(self.ranges()[k].covers(a));
                    } else if k >= hi {
                        assert(t[lo + 1 + k - hi] == s[k]);
                        assert(self.ranges()[lo + 1 + k - hi].covers(a));
                    } else {
                        // A middle range is swallowed by the merged range.
                        assert(lo < hi);
                        if lo < k {
                            assert(s[lo as int].end + 1 < s[k].start);
                            assert(s[lo as int].wf());
                        }
                        if k < hi - 1 {
                            assert(s[k].end + 1 < s[hi - 1].start);
                            assert(s[hi - 1].wf());
                        }
                        assert(m.start <= s[k].start && s[k].end <= m.end);
                        assert(t[lo as int] == m);
                        assert(self.ranges()[lo as int].covers(a));
                    }
                }
            }
        }
    }

    /// Mark the range `r` as unavailable. Every tracked range is trimmed to
    /// its part outside `r`; a range that `r` splits in the middle leaves two
    /// pieces. Afterwards an address is free exactly when it was free before
    /// and lies outside `r`.
    pub fn remove(&mut self, r: Range)
        requires
            old(self).wf(),
            r.wf(),
        ensures
            final(self).wf(),
            forall|a: int|
                #[trigger] final(self).contains_addr(a) <==> old(self).contains_addr(a) && !r.covers(a),
    {
        let n = self.ranges.len();
        let ghost s = old(self).ranges();
        let mut out: Vec<Range> = Vec::new();
        let mut i: usize = 0;
        while i < n
            invariant
                old(self).wf(),
                s == old(self).ranges(),
                self.ranges@ == s,
                n == s.len(),
                r.wf(),
                i <= n,
                forall|k: int| 0 <= k < out@.len() ==> (#[trigger] out@[k]).wf(),
                forall|k: int, l: int| 0 <= k < l < out@.len() ==> out@[k].end + 1 < out@[l].start,
                // Every piece kept so far ends below the next unprocessed range.
                i < n ==> forall|k: int| 0 <= k < out@.len() ==> (#[trigger] out@[k]).end + 1 < s[i as int].start,
                // Pieces so far cover exactly the processed free addresses outside `r`.
                forall|a: int| #[trigger] seq_covers(out@, a)
                    <==> seq_covers(s.take(i as int), a) && !r.covers(a),
            decreases n - i,
        {
            let c = self.ranges[i];
            proof {
                assert(s[i as int].wf());
                if i + 1 < n {
                    assert(s[i as int].end + 1 < s[i + 1].start);
                }
            }
            let ghost out0 = out@;
            if c.end < r.start || c.start > r.end {
                // No overlap: keep the range whole.
                out.push(c);
            } else {
                if c.start < r.start {
                    out.push(Range { start: c.start, end: r.start - 1 });
                }
                if c.end > r.end {
                    out.push(Range { start: r.end + 1, end: c.end });
                }
            }
            proof {
                let outn = out@;
                assert(forall|k: int| 0 <= k < out0.len() ==> outn[k] == out0[k]);
                assert(forall|k: int| out0.len() <= k < outn.len()
                    ==> s[i as int].start <= (#[trigger] outn[k]).start && outn[k].end <= s[i as int].end);
                assert(forall|k: int| out0.len() <= k < outn.len()
                    ==> (#[trigger] outn[k]).end < r.start || outn[k].start > r.end);
                let ghost pre = s.take(i as int);
                let ghost post = s.take(i + 1 as int);
                assert(forall|j: int| 0 <= j < pre.len() ==> pre[j] == s[j] && post[j] == s[j]);
                assert(post[i as int] == s[i as int]);
                assert forall|a: int|
                    #[trigger] seq_covers(outn, a) <==> seq_covers(post, a) && !r.covers(a) by {
                    if seq_covers(outn, a) {
                        let k = choose|k: int| 0 <= k < outn.len() && outn[k].covers(a);
                        if k < out0.len() {
                            assert(out0[k].covers(a));
                            assert(seq_covers(out0, a));
                            assert(seq_covers(pre, a) && !r.covers(a));
                            let j = choose|j: int| 0 <= j < pre.len() && pre[j].covers(a);
                            assert(post[j].covers(a));
                        } else {
                            // A fresh piece: it lies inside the current range
                            // and outside `r`.
                            assert(s[i as int].covers(a));
                            assert(post[i as int].covers(a));
                            assert(!r.covers(a));
                        }
                    }
                    if seq_covers(post, a) && !r.covers(a) {
                        let j = choose|j: int| 0 <= j < post.len() && post[j].covers(a);
                        if j < i {
                            assert(pre[j].covers(a));
                            assert(seq_covers(pre, a));
                            assert(seq_covers(out0, a));
                            let k = choose|k: int| 0 <= k < out0.len() && out0[k].covers(a);
                            assert(outn[k].covers(a));
                        } else {
                            // The address sits in the current range, outside
                            // `r`: one of the kept pieces covers it.
                            assert(s[i as int].covers(a));
                            if c.end < r.start || c.start > r.end {
                                assert(outn[outn.len() - 1].covers(a));
                            } else if a < r.start {
                                assert(c.start < r.start);
                                assert(outn[out0.len() as int].covers(a));
                            } else {
                                assert(a > r.end);
                                assert(c.end > r.end);
                                assert(outn[outn.len() - 1].covers(a));
                            }
                        }
                    }
                }
            }
            i += 1;
        }
        self.ranges = out;
        proof {
            assert(s.take(n as int) == s);
        }
    }

    /// Carve `size` bytes aligned to `align` out of the first tracked range
    /// that can hold such a block, and return the block's base address.
    /// Returns `None`, leaving the tracker unchanged, when `size` is zero or
    /// no tracked range can hold an aligned block of `size` bytes.
    pub fn allocate(&mut self, size: u64, align: u64) -> (r: Option<u64>)
        requires
            old(self).wf(),
            align >= 1,
        ensures
            final(self).wf(),
            r == spec_first_fit(old(self).ranges(), size, align),
            r is None ==> *final(self) == *old(self),
            r matches Some(base) ==> {
                &&& size >= 1
                &&& base % align == 0
                &&& base + size - 1 <= u64::MAX
                &&& forall|a: int| base <= a <= base + size - 1 ==> old(self).contains_addr(a)
                &&& forall|a: int| #[trigger] final(self).contains_addr(a)
                    <==> old(self).contains_addr(a) && !(base <= a <= base + size - 1)
            },
    {
        let n = self.ranges.len();
        let ghost s = old(self).ranges();
        let mut i: usize = 0;
        while i < n
            invariant
                old(self).wf(),
                s == old(self).ranges(),
                *self == *old(self),
                self.ranges@ == s,
                n == s.len(),
                align >= 1,
                i <= n,
                forall|j: int| 0 <= j < i ==> spec_fit(#[trigger] s[j], size, align) is None,
            decreases n - i,
        {
            let c = self.ranges[i];
            proof {
                assert(s[i as int].wf());
            }
            // Round the range's start up to the requested alignment; if that
            // rounding leaves the address space, nothing here fits.
            let rem = c.start % align;
            let base_opt: Option<u64> = if rem == 0 {
                Some(c.start)
            } else {
                c.start.checked_add(align - rem)
            };
            proof {
                let st = c.start as int;
                let al = align as int;
                let q = st / al;
                lemma_fundamental_div_mod(st, al);
                if base_opt is Some {
                    let b = base_opt.unwrap() as int;
                    assert(b == spec_align_up(st, al));
                    if rem == 0 {
                        assert(b % al == 0);
                    } else {
                        assert(st == al * q + rem);
                        assert(b == st + al - rem);
                        assert(b == al * (q + 1)) by (nonlinear_arith)
                            requires b == al * q + rem + al - rem,
                        ;
                        lemma_mod_multiples_basic(q + 1, al);
                        assert((q + 1) * al == al * (q + 1)) by (nonlinear_arith);
                        assert(b % al == 0);
                    }
                } else {
                    assert(spec_align_up(st, al) > u64::MAX);
                    assert(spec_fit(s[i as int], size, align) is None);
                }
            }
            if let Some(base) = base_opt {
                if size >= 1 && base <= c.end && size - 1 <= c.end - base {
                    proof {
                        assert(spec_fit(s[i as int], size, align) == Some(base as int));
                        lemma_first_fit_prefix(s, i as int, size, align);
                        assert(spec_first_fit(s, size, align) == Some(base));
                        assert(base >= c.start);
                        assert forall|a: int| base <= a <= base + size - 1
                            implies old(self).contains_addr(a) by {
                            assert(s[i as int].covers(a));
                        }
                    }
                    let block = Range { start: base, end: base + (size - 1) };
                    self.remove(block);
                    proof {
                        assert forall|a: int| #[trigger] self.contains_addr(a)
                            <==> old(self).contains_addr(a) && !(base <= a <= base + size - 1) by {
                            assert(block.covers(a) == (base <= a <= base + size - 1));
                        }
                    }
                    return Some(base);
                }
                proof {
                    assert(spec_fit(s[i as int], size, align) is None);
                }
            }
            i += 1;
        }
        proof {
            lemma_first_fit_prefix(s, n as int, size, align);
        }
        None
    }
}

/// Where an aligned block of `size` bytes would sit in `r`: at `r.start`
/// rounded up to `align`, if the block's last byte stays inside `r`.
pub open spec fn spec_fit(r: Range, size: u64, align: u64) -> Option<int>
    recommends
        align >= 1,
{
    let base = spec_align_up(r.start as int, align as int);
    if size >= 1 && base + size - 1 <= r.end {
        Some(base)
    } else {
        None
    }
}

/// `start` rounded up to the next multiple of `align`.
pub open spec fn spec_align_up(start: int, align: int) -> int
    recommends
        align >= 1,
{
    if start % align == 0 {
        start
    } else {
        start + align - start % align
    }
}

/// The base of the aligned block carved from the first range of `rs` that can
/// hold `size` bytes, if any can.
pub open spec fn spec_first_fit(rs: Seq<Range>, size: u64, align: u64) -> Option<u64>
    decreases rs.len(),
{
    if rs.len() == 0 {
        None
    } else {
        match spec_fit(rs[0], size, align) {
            Some(base) => Some(base as u64),
            None => spec_first_fit(rs.drop_first(), size, align),
        }
    }
}

/// When no range before index `i` fits, the first fit over the whole sequence
/// is the first fit over the ranges from `i` on.
proof fn lemma_first_fit_prefix(s: Seq<Range>, i: int, size: u64, align: u64)
    requires
        0 <= i <= s.len(),
        forall|j: int| 0 <= j < i ==> spec_fit(#[trigger] s[j], size, align) is None,
    ensures
        spec_first_fit(s, size, align) == spec_first_fit(s.subrange(i, s.len() as int), size, align),
    decreases i,
{
    if i > 0 {
        assert(spec_fit(s[0], size, align) is None);
        lemma_first_fit_prefix(s.drop_first(), i - 1, size, align);
        assert(s.drop_first().subrange(i - 1, s.drop_first().len() as int)
            == s.subrange(i, s.len() as int));
    } else {
        assert(s.subrange(0, s.len() as int) == s);
    }
}

/// Is `c` entirely below `r`, with at least one address in between?
fn strictly_before(c: Range, r: Range) -> (b: bool)
    ensures
        b == (c.end + 1 < r.start),
{
    c.end < u64::MAX && c.end + 1 < r.start
}

/// Is `c` entirely above `r`, with at least one address in between?
fn strictly_after(c: Range, r: Range) -> (b: bool)
    ensures
        b == (r.end + 1 < c.start),
{
    r.end < u64::MAX && r.end + 1 < c.start
}

/// Every range of `rs` is non-empty, and the sequence is ordered with a gap
/// of at least one address between consecutive ranges.
pub open spec fn wf_ranges(rs: Seq<Range>) -> bool {
    &&& forall|i: int| 0 <= i < rs.len() ==> (#[trigger] rs[i]).wf()
    &&& forall|i: int, j: int| 0 <= i < j < rs.len() ==> rs[i].end + 1 < rs[j].start
}

/// Does some range of `rs` cover the address `a`?
pub open spec fn seq_covers(rs: Seq<Range>, a: int) -> bool {
    exists|i: int| 0 <= i < rs.len() && rs[i].covers(a)
}

/// Coalescing leaves no choice of representation: a well-formed range
/// sequence is determined by the set of addresses it covers, so two
/// well-formed trackers of the same free memory hold identical ranges.
pub proof fn lemma_ranges_canonical(r1: RangeSet, r2: RangeSet)
    requires
        r1.wf(),
        r2.wf(),
        forall|a: int| r1.contains_addr(a) <==> r2.contains_addr(a),
    ensures
        r1.ranges() == r2.ranges(),
{
    assert forall|a: int| #[trigger] seq_covers(r1.ranges(), a)
        <==> seq_covers(r2.ranges(), a) by {
        assert(r1.contains_addr(a) <==> r2.contains_addr(a));
    }
    lemma_wf_ranges_canonical(r1.ranges(), r2.ranges());
}

/// The sequence form of [`lemma_ranges_canonical`].
pub proof fn lemma_wf_ranges_canonical(s1: Seq<Range>, s2: Seq<Range>)
    requires
        wf_ranges(s1),
        wf_ranges(s2),
        forall|a: int| #[trigger] seq_covers(s1, a) <==> seq_covers(s2, a),
    ensures
        s1 == s2,
    decreases s1.len(),
{
    if s1.len() == 0 {
        if s2.len() > 0 {
            assert(s2[0].covers(s2[0].start as int));
            assert(seq_covers(s2, s2[0].start as int));
            assert(seq_covers(s1, s2[0].start as int));
            assert(false);
        }
        assert(s1 =~= s2);
    } else if s2.len() == 0 {
        assert(s1[0].covers(s1[0].start as int));
        assert(seq_covers(s1, s1[0].start as int));
        assert(seq_covers(s2, s1[0].start as int));
        assert(false);
    } else {
        // The first starts agree: each is the least covered address.
        lemma_first_start_le(s1, s2);
        lemma_first_start_le(s2, s1);
        assert(s1[0].start == s2[0].start);
        // The first ends agree: one past the shorter first range would be
        // covered on one side only.
        lemma_first_end_le(s1, s2);
        lemma_first_end_le(s2, s1);
        assert(s1[0].end == s2[0].end);
        assert(s1[0] == s2[0]);

        let t1 = s1.drop_first();
        let t2 = s2.drop_first();
        assert forall|a: int| #[trigger] seq_covers(t1, a) <==> seq_covers(t2, a) by {
            if seq_covers(t1, a) {
                lemma_tail_covers(s1, s2, a);
            }
            if seq_covers(t2, a) {
                lemma_tail_covers(s2, s1, a);
            }
        }
        lemma_wf_ranges_canonical(t1, t2);
        assert(s1.len() == s2.len());
        assert forall|i: int| 0 <= i < s1.len() implies s1[i] == s2[i] by {
            if i > 0 {
                assert(t1[i - 1] == s1[i]);
                assert(t2[i - 1] == s2[i]);
            }
        }
        assert(s1 =~= s2);
    }
}

/// The first range of `s1` starts no earlier than the first of `s2` when
/// every address of `s1` is covered by `s2`.
proof fn lemma_first_start_le(s1: Seq<Range>, s2: Seq<Range>)
    requires
        wf_ranges(s1),
        wf_ranges(s2),
        s1.len() > 0,
        s2.len() > 0,
        forall|a: int| seq_covers(s1, a) ==> #[trigger] seq_covers(s2, a),
    ensures
        s2[0].start <= s1[0].start,
{
    assert(s1[0].covers(s1[0].start as int));
    assert(seq_covers(s1, s1[0].start as int));
    assert(seq_covers(s2, s1[0].start as int));
    let j = choose|j: int| 0 <= j < s2.len() && s2[j].covers(s1[0].start as int);
    if j > 0 {
        assert(s2[0].end + 1 < s2[j].start);
        assert(s2[0].wf());
    }
}

/// Given equal first starts, the first range of `s1` ends no later than the
/// first of `s2` when every address of `s1` is covered by `s2`.
proof fn lemma_first_end_le(s1: Seq<Range>, s2: Seq<Range>)
    requires
        wf_ranges(s1),
        wf_ranges(s2),
        s1.len() > 0,
        s2.len() > 0,
        s1[0].start == s2[0].start,
        forall|a: int| seq_covers(s1, a) ==> #[trigger] seq_covers(s2, a),
    ensures
        s1[0].end <= s2[0].end,
{
    if s1[0].end > s2[0].end {
        // The address one past s2's first range is covered by s1's first
        // range, so s2 covers it too — but only past a gap, contradiction.
        let a = s2[0].end + 1;
        assert(s1[0].covers(a));
        assert(seq_covers(s1, a));
        assert(seq_covers(s2, a));
        let j = choose|j: int| 0 <= j < s2.len() && s2[j].covers(a);
        assert(j > 0);
        assert(s2[0].end + 1 < s2[j].start);
        assert(false);
    }
}

/// An address covered by the tail of `s1` is covered by the tail of `s2`,
/// given equal first ranges and equal coverage.
proof fn lemma_tail_covers(s1: Seq<Range>, s2: Seq<Range>, a: int)
    requires
        wf_ranges(s1),
        wf_ranges(s2),
        s1.len() > 0,
        s2.len() > 0,
        s1[0] == s2[0],
        forall|x: int| seq_covers(s1, x) ==> #[trigger] seq_covers(s2, x),
        seq_covers(s1.drop_first(), a),
    ensures
        seq_covers(s2.drop_first(), a),
{
    let t1 = s1.drop_first();
    let i = choose|i: int| 0 <= i < t1.len() && t1[i].covers(a);
    assert(t1[i] == s1[i + 1]);
    assert(s1[0].end + 1 < s1[i + 1].start);
    assert(seq_covers(s1, a));
    assert(seq_covers(s2, a));
    let j = choose|j: int| 0 <= j < s2.len() && s2[j].covers(a);
    assert(j > 0);
    assert(s2.drop_first()[j - 1] == s2[j]);
    assert(seq_covers(s2.drop_first(), a));
}

/// The smaller of two addresses.
pub open spec fn min_u64(a: u64, b: u64) -> u64 {
    if a < b { a } else { b }
}

/// The larger of two addresses.
pub open spec fn max_u64(a: u64, b: u64) -> u64 {
    if a > b { a } else { b }
}

/// In a well-formed run of ranges that all overlap or touch `r`, an address
/// below `r.start` covered by none of them cannot lie between the run's first
/// start and `r.start`.
proof fn lemma_cover_left(s: Seq<Range>, lo: int, hi: int, r: Range, a: int)
    requires
        0 <= lo < hi <= s.len(),
        forall|i: int| 0 <= i < s.len() ==> s[i].wf(),
        forall|i: int, j: int| 0 <= i < j < s.len() ==> s[i].end + 1 < s[j].start,
        forall|i: int| lo <= i < hi ==> !(s[i].end + 1 < r.start),
        a < r.start,
        min_u64(r.start, s[lo].start) <= a,
    ensures
        exists|i: int| lo <= i < hi && s[i].covers(a),
    decreases hi - lo,
{
    assert(s[lo].start <= a);
    if s[hi - 1].start <= a {
        // The last range of the run reaches at least to r.start - 1.
        assert(!(s[hi - 1].end + 1 < r.start));
        assert(a <= s[hi - 1].end);
        assert(s[hi - 1].covers(a));
    } else {
        assert(lo < hi - 1);
        lemma_cover_left(s, lo, hi - 1, r, a);
    }
}

/// Mirror image of `lemma_cover_left`, above `r.end`.
proof fn lemma_cover_right(s: Seq<Range>, lo: int, hi: int, r: Range, a: int)
    requires
        0 <= lo < hi <= s.len(),
        forall|i: int| 0 <= i < s.len() ==> s[i].wf(),
        forall|i: int, j: int| 0 <= i < j < s.len() ==> s[i].end + 1 < s[j].start,
        forall|i: int| lo <= i < hi ==> !(r.end + 1 < s[i].start),
        a > r.end,
        a <= max_u64(r.end, s[hi - 1].end),
    ensures
        exists|i: int| lo <= i < hi && s[i].covers(a),
    decreases hi - lo,
{
    assert(a <= s[hi - 1].end);
    if s[hi - 1].start <= a {
        assert(s[hi - 1].covers(a));
    } else {
        // a lies below the last range's start but above r.end: the last
        // range starts at r.end + 1 at the latest, a contradiction unless
        // the run is longer.
        assert(!(r.end + 1 < s[hi - 1].start));
        assert(s[hi - 1].start <= r.end + 1);
        assert(a >= r.end + 1);
        assert(a < s[hi - 1].start);
        assert(false);
    }
}

} // verus!
