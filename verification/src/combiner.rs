use vstd::prelude::*;

use vstd::slice::slice_subrange;

use crate::parse::{cidr_range, is_cidr, parse_cidr, sep_pos, split_bytes, NEWLINE};
use crate::parse::{find_byte, lemma_split_step, lemma_split_whole};
use crate::range::{in_range, IpRange};

verus! {

/// The combiner's representation invariant: every stored range is a
/// non-empty interval, and any two stored ranges are disjoint with at
/// least one address between them (so no pair could be merged further),
/// which also keeps the sequence sorted by start address.
pub open spec fn wf_seq(s: Seq<IpRange>) -> bool {
    &&& forall|i: int| #![trigger s[i]] 0 <= i < s.len() ==> s[i].wf()
    &&& forall|i: int, j: int| #![trigger s[i], s[j]]
        0 <= i < j < s.len() ==> s[i].end + 1 < s[j].start
}

/// Does address `a` fall inside some range of the sequence `s`?
pub open spec fn covers(s: Seq<IpRange>, a: u32) -> bool {
    exists|i: int| 0 <= i < s.len() && in_range(#[trigger] s[i], a)
}

/// Replacing the stored ranges `lo..hi` and the inserted range `r` by the
/// single range `merged` spanning them keeps the sequence well formed and
/// changes the covered address set by exactly the addresses of `r`.
proof fn lemma_insert_splice(orig: Seq<IpRange>, r: IpRange, lo: int, hi: int, merged: IpRange)
    requires
        wf_seq(orig),
        r.wf(),
        0 <= lo <= hi <= orig.len(),
        forall|i: int| 0 <= i < lo ==> #[trigger] orig[i].end + 1 < r.start,
        forall|i: int| lo <= i < orig.len() ==> #[trigger] orig[i].end + 1 >= r.start,
        forall|i: int| 0 <= i < hi ==> #[trigger] orig[i].start <= r.end + 1,
        forall|i: int| hi <= i < orig.len() ==> #[trigger] orig[i].start > r.end + 1,
        merged.start <= r.start,
        r.end <= merged.end,
        lo < hi ==> merged.start <= orig[lo].start && orig[hi - 1].end <= merged.end,
        merged.start == r.start || (lo < hi && merged.start == orig[lo].start),
        merged.end == r.end || (lo < hi && merged.end == orig[hi - 1].end),
    ensures
        wf_seq(splice(orig, lo, hi, merged)),
        forall|a: u32|
            #![trigger covers(splice(orig, lo, hi, merged), a)]
            #![trigger covers(orig, a)]
            covers(splice(orig, lo, hi, merged), a) <==> covers(orig, a) || in_range(r, a),
{
    let n = orig.len() as int;
    let news = splice(orig, lo, hi, merged);
    assert(news.len() == lo + 1 + (n - hi));
    assert forall|x: int| 0 <= x < news.len() implies (#[trigger] news[x]) == (if x < lo {
        orig[x]
    } else if x == lo {
        merged
    } else {
        orig[x - lo - 1 + hi]
    }) by {
        if x < lo {
            assert(news[x] == orig.subrange(0, lo)[x]);
        } else if x > lo {
            assert(news[x] == orig.subrange(hi, n)[x - lo - 1]);
        }
    }

    // Well-formedness of the spliced sequence.
    assert forall|x: int| 0 <= x < news.len() implies (#[trigger] news[x]).wf() by {
        if x != lo {
            assert(news[x].wf());  // from wf_seq(orig)
        }
    }
    assert forall|x: int, y: int| #![trigger news[x], news[y]]
        0 <= x < y < news.len() implies news[x].end + 1 < news[y].start by {
        let xo = x - lo - 1 + hi;
        let yo = y - lo - 1 + hi;
        if y < lo {
            assert(orig[x].end + 1 < orig[y].start);
        } else if y == lo {
            // prefix range against the merged range
            assert(orig[x].end + 1 < r.start);
            if lo < hi {
                assert(orig[x].end + 1 < orig[lo].start);
            }
        } else if x == lo {
            // the merged range against a suffix range
            assert(orig[yo].start > r.end + 1);
            if lo < hi {
                assert(orig[hi - 1].end + 1 < orig[yo].start);
            }
        } else if x < lo {
            // prefix against suffix
            assert(orig[x].end + 1 < orig[yo].start);
        } else {
            assert(orig[xo].end + 1 < orig[yo].start);
        }
    }

    // The covered set changes by exactly the addresses of `r`.
    assert forall|a: u32| covers(news, a) <==> covers(orig, a) || in_range(r, a) by {
        if covers(news, a) {
            let k = choose|i: int| 0 <= i < news.len() && in_range(news[i], a);
            if k < lo {
                assert(in_range(orig[k], a));
                assert(covers(orig, a));
            } else if k > lo {
                assert(in_range(orig[k - lo - 1 + hi], a));
                assert(covers(orig, a));
            } else {
                // `a` lies in the merged range
                assert(in_range(merged, a));
                if a < r.start {
                    // below `r`, so inside the first absorbed range
                    assert(lo < hi && merged.start == orig[lo].start);
                    assert(orig[lo].end + 1 >= r.start);
                    assert(in_range(orig[lo], a));
                    assert(covers(orig, a));
                } else if a > r.end {
                    // above `r`, so inside the last absorbed range
                    assert(lo < hi && merged.end == orig[hi - 1].end);
                    assert(orig[hi - 1].start <= r.end + 1);
                    assert(in_range(orig[hi - 1], a));
                    assert(covers(orig, a));
                } else {
                    assert(in_range(r, a));
                }
            }
        }
        if covers(orig, a) {
            let k = choose|i: int| 0 <= i < orig.len() && in_range(orig[i], a);
            if k < lo {
                assert(news[k] == orig[k]);
                assert(in_range(news[k], a));
                assert(covers(news, a));
            } else if k >= hi {
                assert(news[k - hi + lo + 1] == orig[k]);
                assert(in_range(news[k - hi + lo + 1], a));
                assert(covers(news, a));
            } else {
                // an absorbed range lies inside the merged range
                if lo < k {
                    assert(orig[lo].end + 1 < orig[k].start);
                    assert(orig[lo].wf());
                }
                if k < hi - 1 {
                    assert(orig[k].end + 1 < orig[hi - 1].start);
                    assert(orig[hi - 1].wf());
                }
                assert(in_range(merged, a));
                assert(news[lo] == merged);
                assert(covers(news, a));
            }
        }
        if in_range(r, a) {
            assert(in_range(merged, a));
            assert(news[lo] == merged);
            assert(covers(news, a));
        }
    }
}

/// The sequence `orig` with its ranges `lo..hi` replaced by `merged`.
spec fn splice(orig: Seq<IpRange>, lo: int, hi: int, merged: IpRange) -> Seq<IpRange> {
    orig.subrange(0, lo) + seq![merged] + orig.subrange(hi, orig.len() as int)
}

/// Some line of `lines` is a valid CIDR line whose range covers the
/// address `a`.
pub open spec fn line_covers(lines: Seq<Seq<u8>>, a: u32) -> bool {
    exists|i: int|
        0 <= i < lines.len() && is_cidr(#[trigger] lines[i]) && in_range(cidr_range(lines[i]), a)
}

/// Extending a prefix of lines by one line extends the addresses it
/// covers by that line's range, if the line is valid.
proof fn lemma_line_covers_snoc(lines: Seq<Seq<u8>>, k: int, a: u32)
    requires
        0 <= k < lines.len(),
    ensures
        line_covers(lines.subrange(0, k + 1), a) <==> line_covers(lines.subrange(0, k), a) || (
        is_cidr(lines[k]) && in_range(cidr_range(lines[k]), a)),
{
    let s1 = lines.subrange(0, k + 1);
    let s0 = lines.subrange(0, k);
    if line_covers(s1, a) {
        let i = choose|i: int|
            0 <= i < s1.len() && is_cidr(s1[i]) && in_range(cidr_range(s1[i]), a);
        if i < k {
            assert(s0[i] == s1[i]);
            assert(line_covers(s0, a));
        } else {
            assert(s1[k] == lines[k]);
        }
    }
    if line_covers(s0, a) {
        let i = choose|i: int|
            0 <= i < s0.len() && is_cidr(s0[i]) && in_range(cidr_range(s0[i]), a);
        assert(s1[i] == s0[i]);
        assert(line_covers(s1, a));
    }
    if is_cidr(lines[k]) && in_range(cidr_range(lines[k]), a) {
        assert(s1[k] == lines[k]);
        assert(line_covers(s1, a));
    }
}

/// The canonical merged form of a set of inserted CIDR blocks: a sorted
/// sequence of disjoint, non-adjacent ranges, answering containment
/// queries by binary search.
pub struct Combiner {
    ranges: Vec<IpRange>,
}

impl View for Combiner {
    type V = Seq<IpRange>;

    closed spec fn view(&self) -> Seq<IpRange> {
        self.ranges@
    }
}

impl Combiner {
    /// The representation invariant, established by [`Combiner::new`] and
    /// preserved by every operation.
    pub open spec fn inv(self) -> bool {
        wf_seq(self@)
    }

    /// An empty combiner: no ranges, no address covered.
    pub fn new() -> (c: Combiner)
        ensures
            c.inv(),
            c@ == Seq::<IpRange>::empty(),
    {
        Combiner { ranges: Vec::new() }
    }

    /// The number of disjoint ranges currently stored.
    pub fn size(&self) -> (n: usize)
        ensures
            n == self@.len(),
    {
        self.ranges.len()
    }

    /// A copy of the stored ranges, sorted by start address.
    pub fn ranges(&self) -> (v: Vec<IpRange>)
        ensures
            v@ == self@,
    {
        let mut v: Vec<IpRange> = Vec::new();
        let mut i: usize = 0;
        while i < self.ranges.len()
            invariant
                i <= self.ranges@.len(),
                v@ == self.ranges@.subrange(0, i as int),
            decreases self.ranges@.len() - i,
        {
            v.push(self.ranges[i]);
            assert(v@ =~= self.ranges@.subrange(0, i as int + 1));
            i = i + 1;
        }
        assert(v@ == self.ranges@);
        v
    }

    /// Merge one range into the stored set: every range that overlaps or
    /// touches `r` is replaced, together with `r` itself, by the single
    /// range spanning all of them. The set of covered addresses afterwards
    /// is exactly the old covered set united with `r`, and the range count
    /// grows by at most one.
    pub fn insert(&mut self, r: IpRange)
        requires
            old(self).inv(),
            r.wf(),
        ensures
            final(self).inv(),
            forall|a: u32|
                #![trigger covers(final(self)@, a)]
                #![trigger covers(old(self)@, a)]
                covers(final(self)@, a) <==> covers(old(self)@, a) || in_range(r, a),
            final(self)@.len() <= old(self)@.len() + 1,
            1 <= final(self)@.len(),
    {
        let ghost orig: Seq<IpRange> = self.ranges@;
        let n = self.ranges.len();

        // Binary search: `lo` becomes the index of the first stored range
        // that ends at `r.start - 1` or later, i.e. the first that could
        // overlap or touch `r`.
        let mut lo: usize = 0;
        let mut lo_bound: usize = n;
        while lo < lo_bound
            invariant
                wf_seq(orig),
                self.ranges@ == orig,
                lo <= lo_bound <= n == orig.len(),
                forall|i: int| 0 <= i < lo ==> #[trigger] orig[i].end + 1 < r.start,
                forall|i: int| lo_bound <= i < n ==> #[trigger] orig[i].end + 1 >= r.start,
            decreases lo_bound - lo,
        {
            let mid = lo + (lo_bound - lo) / 2;
            if (self.ranges[mid].end as u64) + 1 < (r.start as u64) {
                assert forall|i: int| 0 <= i < mid + 1 implies #[trigger] orig[i].end + 1
                    < r.start by {
                    if i < mid {
                        assert(orig[i].end + 1 < orig[mid as int].start);
                        assert(orig[mid as int].wf());
                    }
                }
                lo = mid + 1;
            } else {
                lo_bound = mid;
            }
        }

        // Binary search: `hi` becomes the index just past the last stored
        // range that starts at `r.end + 1` or earlier, i.e. just past the
        // last that could overlap or touch `r`.
        proof {
            assert forall|i: int| 0 <= i < lo implies #[trigger] orig[i].start <= r.end
                + 1 by {
                assert(orig[i].wf());
            }
        }
        let mut hi: usize = lo;
        let mut hi_bound: usize = n;
        while hi < hi_bound
            invariant
                wf_seq(orig),
                self.ranges@ == orig,
                r.wf(),
                lo <= hi <= hi_bound <= n == orig.len(),
                forall|i: int| 0 <= i < hi ==> #[trigger] orig[i].start <= r.end + 1,
                forall|i: int| hi_bound <= i < n ==> #[trigger] orig[i].start > r.end + 1,
            decreases hi_bound - hi,
        {
            let mid = hi + (hi_bound - hi) / 2;
            if (self.ranges[mid].start as u64) <= (r.end as u64) + 1 {
                assert forall|i: int| 0 <= i < mid + 1 implies #[trigger] orig[i].start <= r.end
                    + 1 by {
                    if i < mid {
                        assert(orig[i].end + 1 < orig[mid as int].start);
                        assert(orig[i].wf());
                    }
                }
                hi = mid + 1;
            } else {
                hi_bound = mid;
            }
        }

        // The merged range spans `r` and every stored range in `lo..hi`.
        let mut m_start: u32 = r.start;
        let mut m_end: u32 = r.end;
        if lo < hi {
            if self.ranges[lo].start < m_start {
                m_start = self.ranges[lo].start;
            }
            if self.ranges[hi - 1].end > m_end {
                m_end = self.ranges[hi - 1].end;
            }
        }
        let merged = IpRange { start: m_start, end: m_end };
        proof {
            assert(merged.start <= r.start && r.end <= merged.end);
            assert(merged.wf());
            assert(lo < hi ==> merged.start <= orig[lo as int].start && orig[hi - 1].end
                <= merged.end);
            assert(merged.start == r.start || (lo < hi && merged.start == orig[
                lo as int
            ].start));
            assert(merged.end == r.end || (lo < hi && merged.end == orig[hi - 1].end));
        }

        // Splice: keep the prefix before `lo`, the merged range, and the
        // suffix from `hi` on.
        let mut out: Vec<IpRange> = Vec::new();
        let mut i: usize = 0;
        while i < lo
            invariant
                self.ranges@ == orig,
                i <= lo <= orig.len(),
                out@ == orig.subrange(0, i as int),
            decreases lo - i,
        {
            out.push(self.ranges[i]);
            assert(out@ =~= orig.subrange(0, i as int + 1));
            i = i + 1;
        }
        out.push(merged);
        let mut j: usize = hi;
        while j < n
            invariant
                self.ranges@ == orig,
                lo <= hi <= j <= n == orig.len(),
                out@ == orig.subrange(0, lo as int) + seq![merged] + orig.subrange(
                    hi as int,
                    j as int,
                ),
            decreases n - j,
        {
            out.push(self.ranges[j]);
            assert(out@ =~= orig.subrange(0, lo as int) + seq![merged] + orig.subrange(
                hi as int,
                j as int + 1,
            ));
            j = j + 1;
        }
        self.ranges = out;

        proof {
            assert(self@ =~= splice(orig, lo as int, hi as int, merged));
            lemma_insert_splice(orig, r, lo as int, hi as int, merged);
        }
    }

    /// Does the address `a` fall inside any stored range? A binary search
    /// for the last range starting at or below `a`, then one bound check;
    /// never an error, and always false on an empty combiner.
    pub fn contains(&self, a: u32) -> (b: bool)
        requires
            self.inv(),
        ensures
            b == covers(self@, a),
    {
        let n = self.ranges.len();
        // Binary search: `lo` becomes the index just past the last stored
        // range that starts at or below `a`.
        let mut lo: usize = 0;
        let mut hi: usize = n;
        while lo < hi
            invariant
                self.inv(),
                lo <= hi <= n == self@.len(),
                forall|i: int| 0 <= i < lo ==> #[trigger] self@[i].start <= a,
                forall|i: int| hi <= i < n ==> #[trigger] self@[i].start > a,
            decreases hi - lo,
        {
            let mid = lo + (hi - lo) / 2;
            if self.ranges[mid].start <= a {
                assert forall|i: int| 0 <= i < mid + 1 implies #[trigger] self@[i].start <= a by {
                    if i < mid {
                        assert(self@[i].end + 1 < self@[mid as int].start);
                        assert(self@[i].wf());
                    }
                }
                lo = mid + 1;
            } else {
                hi = mid;
            }
        }
        if lo == 0 {
            // every stored range starts above `a`
            proof {
                if covers(self@, a) {
                    let k = choose|i: int| 0 <= i < self@.len() && in_range(self@[i], a);
                    assert(self@[k].start > a);
                }
            }
            false
        } else {
            let cand = self.ranges[lo - 1];
            if a <= cand.end {
                proof {
                    assert(in_range(self@[lo - 1], a));
                }
                true
            } else {
                // `a` lies in the gap above the candidate: earlier ranges
                // end below the candidate's start, later ones start above `a`
                proof {
                    if covers(self@, a) {
                        let k = choose|i: int| 0 <= i < self@.len() && in_range(self@[i], a);
                        if k < lo - 1 {
                            assert(self@[k].end + 1 < self@[lo - 1].start);
                        } else if k >= lo {
                            assert(self@[k].start > a);
                        }
                    }
                }
                false
            }
        }
    }

    /// Bulk-merge a newline-delimited list of CIDR lines. Every line that
    /// parses as `a.b.c.d/p` is merged into the stored set; every other
    /// line is skipped silently. Afterwards an address is covered exactly
    /// when it was covered before or some valid line of the text covers
    /// it.
    pub fn load(&mut self, text: &[u8])
        requires
            old(self).inv(),
        ensures
            final(self).inv(),
            forall|a: u32|
                #![trigger covers(final(self)@, a)]
                #![trigger line_covers(split_bytes(text@, NEWLINE), a)]
                covers(final(self)@, a) <==> covers(old(self)@, a) || line_covers(
                    split_bytes(text@, NEWLINE),
                    a,
                ),
    {
        let ghost lines = split_bytes(text@, NEWLINE);
        let ghost orig = self@;
        let n = text.len();
        let mut pos: usize = 0;
        let ghost mut done: int = 0;
        proof {
            crate::parse::lemma_split_nonempty(text@, NEWLINE);
            assert(text@.subrange(0, n as int) =~= text@);
        }
        loop
            invariant_except_break
                self.inv(),
                pos <= n == text@.len(),
                0 <= done < lines.len(),
                split_bytes(text@.subrange(pos as int, n as int), NEWLINE) == lines.subrange(
                    done,
                    lines.len() as int,
                ),
                forall|a: u32|
                    #![trigger covers(self@, a)]
                    covers(self@, a) <==> covers(orig, a) || line_covers(
                        lines.subrange(0, done),
                        a,
                    ),
            ensures
                self.inv(),
                forall|a: u32|
                    #![trigger covers(self@, a)]
                    covers(self@, a) <==> covers(orig, a) || line_covers(lines, a),
            decreases n - pos,
        {
            let rem = slice_subrange(text, pos, n);
            let p = find_byte(rem, NEWLINE);
            let line = slice_subrange(rem, 0, p);
            let ghost last = (p == rem@.len());
            proof {
                if last {
                    lemma_split_whole(rem@, NEWLINE);
                    assert(rem@ == text@.subrange(pos as int, n as int));
                    assert(split_bytes(rem@, NEWLINE) == seq![rem@]);
                    assert(lines.subrange(done, lines.len() as int) == split_bytes(rem@, NEWLINE));
                    assert(lines.subrange(done, lines.len() as int).len() == lines.len() - done);
                    assert(seq![rem@].len() == 1);
                    assert(lines.len() == done + 1);
                    assert(lines[done] == lines.subrange(done, lines.len() as int)[0]);
                } else {
                    lemma_split_step(rem@, NEWLINE);
                    let u = lines.subrange(done, lines.len() as int);
                    let first = rem@.subrange(0, p as int);
                    let t = split_bytes(rem@.subrange(p as int + 1, rem@.len() as int), NEWLINE);
                    assert(u == seq![first] + t);
                    assert(u.len() == lines.len() - done);
                    assert(u.len() == 1 + t.len());
                    assert forall|i: int| 0 <= i < t.len() implies t[i] == lines[done + 1 + i] by {
                        assert(t[i] == u[i + 1]);
                        assert(u[i + 1] == lines[done + 1 + i]);
                    }
                    assert(t =~= lines.subrange(done + 1, lines.len() as int));
                    assert(lines[done] == lines.subrange(done, lines.len() as int)[0]);
                }
                assert(line@ == lines[done]);
            }
            match parse_cidr(line) {
                Some(rg) => {
                    self.insert(rg);
                },
                None => {},
            }
            proof {
                assert forall|a: u32| #![trigger covers(self@, a)]
                    covers(self@, a) <==> covers(orig, a) || line_covers(
                        lines.subrange(0, done + 1),
                        a,
                    ) by {
                    lemma_line_covers_snoc(lines, done, a);
                }
                done = done + 1;
            }
            if p == rem.len() {
                proof {
                    assert(lines.subrange(0, done) =~= lines);
                }
                break;
            }
            let next = pos + p + 1;
            proof {
                assert(text@.subrange(next as int, n as int) =~= rem@.subrange(
                    p as int + 1,
                    rem@.len() as int,
                ));
            }
            pos = next;
        }
    }

    /// Drop every stored range; afterwards no address is covered.
    pub fn clear(&mut self)
        ensures
            final(self).inv(),
            final(self)@ == Seq::<IpRange>::empty(),
            forall|a: u32| !covers(final(self)@, a),
    {
        self.ranges = Vec::new();
    }
}

} // verus!
