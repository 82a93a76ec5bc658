use vstd::prelude::*;

use crate::combiner::{covers, line_covers, wf_seq};
use crate::parse::{cidr_range, is_cidr};
use crate::range::{in_range, IpRange};

verus! {

/// Canonical form: a sorted sequence of disjoint, non-adjacent ranges is
/// determined by the set of addresses it covers — two well-formed
/// sequences covering exactly the same addresses are the same sequence.
pub proof fn lemma_canonical_form(s1: Seq<IpRange>, s2: Seq<IpRange>)
    requires
        wf_seq(s1),
        wf_seq(s2),
        forall|a: u32| covers(s1, a) <==> covers(s2, a),
    ensures
        s1 == s2,
    decreases s1.len(),
{
    if s1.len() == 0 {
        if s2.len() != 0 {
            assert(s2[0].wf());
            assert(in_range(s2[0], s2[0].start));
            assert(covers(s2, s2[0].start));
            let k = choose|i: int| 0 <= i < s1.len() && in_range(s1[i], s2[0].start);
            assert(false);
        }
        assert(s1 =~= s2);
    } else if s2.len() == 0 {
        assert(s1[0].wf());
        assert(in_range(s1[0], s1[0].start));
        assert(covers(s1, s1[0].start));
        let k = choose|i: int| 0 <= i < s2.len() && in_range(s2[i], s1[0].start);
        assert(false);
    } else {
        let r1 = s1[0];
        let r2 = s2[0];
        // The first starts agree: each is the least covered address.
        assert(in_range(s1[0], r1.start));
        assert(covers(s1, r1.start));
        assert(in_range(s2[0], r2.start));
        assert(covers(s2, r2.start));
        let j = choose|i: int| 0 <= i < s2.len() && in_range(s2[i], r1.start);
        if j > 0 {
            assert(s2[0].end + 1 < s2[j].start);
            assert(s2[0].wf());
        }
        assert(r2.start <= r1.start);
        let k = choose|i: int| 0 <= i < s1.len() && in_range(s1[i], r2.start);
        if k > 0 {
            assert(s1[0].end + 1 < s1[k].start);
            assert(s1[0].wf());
        }
        assert(r1.start == r2.start);
        // The first ends agree: one address past the shorter first range
        // would be covered by one sequence only.
        if r1.end < r2.end {
            let b: u32 = (r1.end + 1) as u32;
            assert(in_range(r2, b));
            assert(covers(s2, b));
            assert(covers(s1, b));
            let m = choose|i: int| 0 <= i < s1.len() && in_range(s1[i], b);
            if m > 0 {
                assert(s1[0].end + 1 < s1[m].start);
            }
            assert(false);
        }
        if r2.end < r1.end {
            let b: u32 = (r2.end + 1) as u32;
            assert(in_range(r1, b));
            assert(covers(s1, b));
            assert(covers(s2, b));
            let m = choose|i: int| 0 <= i < s2.len() && in_range(s2[i], b);
            if m > 0 {
                assert(s2[0].end + 1 < s2[m].start);
            }
            assert(false);
        }
        assert(r1 == r2);
        // The tails are well formed and cover the same addresses, so they
        // agree by induction.
        let t1 = s1.subrange(1, s1.len() as int);
        let t2 = s2.subrange(1, s2.len() as int);
        assert forall|i: int| 0 <= i < t1.len() implies (#[trigger] t1[i]).wf() by {
            assert(t1[i] == s1[i + 1]);
        }
        assert forall|i: int, j: int| #![trigger t1[i], t1[j]]
            0 <= i < j < t1.len() implies t1[i].end + 1 < t1[j].start by {
            assert(t1[i] == s1[i + 1]);
            assert(t1[j] == s1[j + 1]);
        }
        assert forall|i: int| 0 <= i < t2.len() implies (#[trigger] t2[i]).wf() by {
            assert(t2[i] == s2[i + 1]);
        }
        assert forall|i: int, j: int| #![trigger t2[i], t2[j]]
            0 <= i < j < t2.len() implies t2[i].end + 1 < t2[j].start by {
            assert(t2[i] == s2[i + 1]);
            assert(t2[j] == s2[j + 1]);
        }
        assert forall|a: u32| covers(t1, a) <==> covers(t2, a) by {
            if covers(t1, a) {
                let i = choose|i: int| 0 <= i < t1.len() && in_range(t1[i], a);
                assert(t1[i] == s1[i + 1]);
                assert(s1[0].end + 1 < s1[i + 1].start);
                assert(covers(s1, a));
                assert(covers(s2, a));
                let j2 = choose|i: int| 0 <= i < s2.len() && in_range(s2[i], a);
                assert(j2 != 0);
                assert(t2[j2 - 1] == s2[j2]);
                assert(in_range(t2[j2 - 1], a));
                assert(covers(t2, a));
            }
            if covers(t2, a) {
                let i = choose|i: int| 0 <= i < t2.len() && in_range(t2[i], a);
                assert(t2[i] == s2[i + 1]);
                assert(s2[0].end + 1 < s2[i + 1].start);
                assert(covers(s2, a));
                assert(covers(s1, a));
                let j1 = choose|i: int| 0 <= i < s1.len() && in_range(s1[i], a);
                assert(j1 != 0);
                assert(t1[j1 - 1] == s1[j1]);
                assert(in_range(t1[j1 - 1], a));
                assert(covers(t1, a));
            }
        }
        lemma_canonical_form(t1, t2);
        assert forall|i: int| 0 <= i < s1.len() implies s1[i] == s2[i] by {
            if i > 0 {
                assert(s1[i] == t1[i - 1]);
                assert(s2[i] == t2[i - 1]);
            }
        }
        assert(s1 =~= s2);
    }
}

/// Idempotence: inserting the same range a second time changes nothing —
/// any well-formed result of one insert of `r` into `s` equals any
/// well-formed result of inserting `r` twice.
pub proof fn lemma_insert_idempotent(
    s: Seq<IpRange>,
    once: Seq<IpRange>,
    twice: Seq<IpRange>,
    r: IpRange,
)
    requires
        r.wf(),
        wf_seq(s),
        wf_seq(once),
        wf_seq(twice),
        forall|a: u32| #[trigger] covers(once, a) <==> covers(s, a) || in_range(r, a),
        forall|a: u32| #[trigger] covers(twice, a) <==> covers(once, a) || in_range(r, a),
    ensures
        once == twice,
{
    assert forall|a: u32| covers(once, a) <==> covers(twice, a) by {
        assert(covers(twice, a) <==> covers(once, a) || in_range(r, a));
        assert(covers(once, a) <==> covers(s, a) || in_range(r, a));
    }
    lemma_canonical_form(once, twice);
}

/// Merge correctness: when two ranges overlap or touch, the merged set
/// is the single range spanning both.
pub proof fn lemma_merge_overlapping(a: IpRange, b: IpRange, s: Seq<IpRange>)
    requires
        a.wf(),
        b.wf(),
        b.start <= a.end + 1,
        a.start <= b.end + 1,
        wf_seq(s),
        forall|x: u32| #[trigger] covers(s, x) <==> in_range(a, x) || in_range(b, x),
    ensures
        s == seq![
            IpRange {
                start: if a.start <= b.start { a.start } else { b.start },
                end: if a.end >= b.end { a.end } else { b.end },
            },
        ],
{
    let m = IpRange {
        start: if a.start <= b.start { a.start } else { b.start },
        end: if a.end >= b.end { a.end } else { b.end },
    };
    let sm = seq![m];
    assert(m.wf());
    assert(wf_seq(sm));
    assert forall|x: u32| covers(sm, x) <==> in_range(a, x) || in_range(b, x) by {
        if covers(sm, x) {
            let i = choose|i: int| 0 <= i < sm.len() && in_range(sm[i], x);
            assert(sm[i] == m);
            // inside the span but outside `a`: the overlap or adjacency
            // forces `x` into `b`
            if !in_range(a, x) {
                assert(in_range(b, x));
            }
        }
        if in_range(a, x) || in_range(b, x) {
            assert(in_range(sm[0], x));
            assert(covers(sm, x));
        }
    }
    lemma_canonical_form(s, sm);
}

/// Order independence: two line lists with the same lines in any order
/// lead to the same combiner.
pub proof fn lemma_order_independent(
    lines1: Seq<Seq<u8>>,
    lines2: Seq<Seq<u8>>,
    s1: Seq<IpRange>,
    s2: Seq<IpRange>,
)
    requires
        lines1.to_multiset() == lines2.to_multiset(),
        wf_seq(s1),
        wf_seq(s2),
        forall|a: u32| #[trigger] covers(s1, a) <==> line_covers(lines1, a),
        forall|a: u32| #[trigger] covers(s2, a) <==> line_covers(lines2, a),
    ensures
        s1 == s2,
{
    lines1.to_multiset_ensures();
    lines2.to_multiset_ensures();
    assert forall|a: u32| line_covers(lines1, a) <==> line_covers(lines2, a) by {
        if line_covers(lines1, a) {
            let i = choose|i: int|
                0 <= i < lines1.len() && is_cidr(lines1[i]) && in_range(cidr_range(lines1[i]), a);
            assert(lines1.contains(lines1[i]));
            assert(lines1.to_multiset().count(lines1[i]) > 0);
            assert(lines2.to_multiset().count(lines1[i]) > 0);
            assert(lines2.contains(lines1[i]));
            let j = choose|j: int| 0 <= j < lines2.len() && lines2[j] == lines1[i];
            assert(is_cidr(lines2[j]) && in_range(cidr_range(lines2[j]), a));
            assert(line_covers(lines2, a));
        }
        if line_covers(lines2, a) {
            let i = choose|i: int|
                0 <= i < lines2.len() && is_cidr(lines2[i]) && in_range(cidr_range(lines2[i]), a);
            assert(lines2.contains(lines2[i]));
            assert(lines2.to_multiset().count(lines2[i]) > 0);
            assert(lines1.to_multiset().count(lines2[i]) > 0);
            assert(lines1.contains(lines2[i]));
            let j = choose|j: int| 0 <= j < lines1.len() && lines1[j] == lines2[i];
            assert(is_cidr(lines1[j]) && in_range(cidr_range(lines1[j]), a));
            assert(line_covers(lines1, a));
        }
    }
    assert forall|a: u32| covers(s1, a) <==> covers(s2, a) by {
        assert(covers(s1, a) <==> line_covers(lines1, a));
        assert(covers(s2, a) <==> line_covers(lines2, a));
    }
    lemma_canonical_form(s1, s2);
}

/// Disjointness: consecutive stored ranges, sorted by start, leave a gap
/// of at least one address between them.
pub proof fn lemma_disjoint_gap(s: Seq<IpRange>, i: int)
    requires
        wf_seq(s),
        0 <= i < s.len() - 1,
    ensures
        s[i].end + 1 < s[i + 1].start,
{
}

} // verus!
