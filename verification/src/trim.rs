use vstd::prelude::*;

verus! {

broadcast use vstd::seq_lib::group_filter_ensures;

/// A contiguous run of frames worth keeping, by frame index (both ends
/// included). `tag` lets the caller find the run again after reordering.
#[derive(Debug, Clone, Copy, PartialEq, Eq, Structural)]
pub struct RelevantSegment {
    pub start_idx: usize,
    pub end_idx: usize,
    pub enabled: bool,
    pub tag: usize,
}

/// Selects the segments that start at frame `v`.
pub open spec fn starts_at(v: usize) -> spec_fn(RelevantSegment) -> bool {
    |g: RelevantSegment| g.start_idx == v
}

/// Segments ordered by start frame.
pub open spec fn sorted_by_start(s: Seq<RelevantSegment>) -> bool {
    forall|i: int, j: int| 0 <= i < j < s.len() ==> s[i].start_idx <= s[j].start_idx
}

/// `out` is the stable sort of `inp` by start frame: ordered by start, and the
/// segments sharing any start frame appear in their original relative order.
pub open spec fn is_stable_sort_by_start(out: Seq<RelevantSegment>, inp: Seq<RelevantSegment>) -> bool {
    &&& sorted_by_start(out)
    &&& forall|v: usize| #[trigger] out.filter(starts_at(v)) == inp.filter(starts_at(v))
}

proof fn lemma_filter_none(s: Seq<RelevantSegment>, v: usize)
    requires
        forall|i: int| 0 <= i < s.len() ==> s[i].start_idx != v,
    ensures
        s.filter(starts_at(v)) == Seq::<RelevantSegment>::empty(),
{
    assert(s.all(|x: RelevantSegment| !starts_at(v)(x)));
    s.lemma_all_neg_filter_empty(starts_at(v));
}

proof fn lemma_insert_keeps_filters(out: Seq<RelevantSegment>, k: int, x: RelevantSegment, v: usize)
    requires
        0 <= k <= out.len(),
        forall|i: int| k <= i < out.len() ==> out[i].start_idx > x.start_idx,
    ensures
        out.insert(k, x).filter(starts_at(v)) == if v == x.start_idx {
            out.filter(starts_at(v)).push(x)
        } else {
            out.filter(starts_at(v))
        },
{
    let a = out.take(k);
    let b = out.skip(k);
    assert(out =~= a + b);
    assert(out.insert(k, x) =~= a.push(x) + b);
    Seq::filter_distributes_over_add(a, b, starts_at(v));
    Seq::filter_distributes_over_add(a.push(x), b, starts_at(v));
    a.lemma_filter_push(x, starts_at(v));
    if v == x.start_idx {
        lemma_filter_none(b, v);
        assert(out.filter(starts_at(v)) =~= a.filter(starts_at(v)));
        assert(out.insert(k, x).filter(starts_at(v)) =~= a.filter(starts_at(v)).push(x));
    } else {
        assert(out.insert(k, x).filter(starts_at(v)) =~= a.filter(starts_at(v)) + b.filter(starts_at(v)));
    }
}

/// Sorts segments by start frame, keeping the original order among segments
/// with the same start frame.
pub fn sort_by_start(segs: &Vec<RelevantSegment>) -> (out: Vec<RelevantSegment>)
    ensures
        is_stable_sort_by_start(out@, segs@),
{
    let mut out: Vec<RelevantSegment> = Vec::new();
    let mut i: usize = 0;
    while i < segs.len()
        invariant
            0 <= i <= segs.len(),
            sorted_by_start(out@),
            forall|v: usize| #[trigger] out@.filter(starts_at(v)) == segs@.take(i as int).filter(starts_at(v)),
        decreases segs.len() - i,
    {
        let x = segs[i];
        let mut k: usize = out.len();
        while k > 0 && out[k - 1].start_idx > x.start_idx
            invariant
                0 <= k <= out.len(),
                sorted_by_start(out@),
                forall|j: int| k <= j < out.len() ==> out@[j].start_idx > x.start_idx,
            decreases k,
        {
            k = k - 1;
        }
        let ghost old_out = out@;
        proof {
            assert forall|v: usize| #[trigger] old_out.insert(k as int, x).filter(starts_at(v))
                == segs@.take(i + 1).filter(starts_at(v)) by {
                lemma_insert_keeps_filters(old_out, k as int, x, v);
                assert(segs@.take(i + 1) =~= segs@.take(i as int).push(x));
                segs@.take(i as int).lemma_filter_push(x, starts_at(v));
            }
        }
        out.insert(k, x);
        proof {
            assert forall|a: int, b: int| 0 <= a < b < out@.len() implies out@[a].start_idx <= out@[b].start_idx by {
                if b < k {
                } else if b == k {
                    assert(old_out[a].start_idx <= x.start_idx);
                } else if a < k {
                } else if a == k {
                } else {
                }
            }
        }
        i = i + 1;
    }
    assert(segs@.take(segs.len() as int) =~= segs@);
    out
}

proof fn lemma_sorted_last_is_max(s: Seq<RelevantSegment>, i: int)
    requires
        sorted_by_start(s),
        0 <= i < s.len(),
    ensures
        s[i].start_idx <= s.last().start_idx,
{
}

proof fn lemma_filter_nonempty(s: Seq<RelevantSegment>, v: usize) -> (i: int)
    requires
        s.filter(starts_at(v)).len() > 0,
    ensures
        0 <= i < s.len(),
        s[i].start_idx == v,
{
    let f = s.filter(starts_at(v));
    assert(starts_at(v)(f[0]));
    assert(s.contains(f[0])) by {
        s.lemma_filter_contains_rev(starts_at(v), f[0]);
    }
    let i = choose|i: int| 0 <= i < s.len() && s[i] == f[0];
    i
}

/// Two start-ordered sequences with the same segments per start frame, in the
/// same relative order, are equal: the stable sort has a single result.
pub proof fn lemma_stable_sort_unique(a: Seq<RelevantSegment>, b: Seq<RelevantSegment>)
    requires
        sorted_by_start(a),
        sorted_by_start(b),
        forall|v: usize| #[trigger] a.filter(starts_at(v)) == b.filter(starts_at(v)),
    ensures
        a == b,
    decreases a.len() + b.len(),
{
    if a.len() == 0 && b.len() == 0 {
        assert(a =~= b);
    } else if a.len() == 0 {
        b.lemma_filter_contains(starts_at(b[0].start_idx), 0);
        assert(a.filter(starts_at(b[0].start_idx)) == b.filter(starts_at(b[0].start_idx)));
        lemma_filter_none(a, b[0].start_idx);
    } else if b.len() == 0 {
        a.lemma_filter_contains(starts_at(a[0].start_idx), 0);
        assert(a.filter(starts_at(a[0].start_idx)) == b.filter(starts_at(a[0].start_idx)));
        lemma_filter_none(b, a[0].start_idx);
    } else {
        let x = a.last();
        let y = b.last();
        let k = x.start_idx;
        let kk = y.start_idx;
        assert(a =~= a.drop_last().push(x));
        assert(b =~= b.drop_last().push(y));
        a.drop_last().lemma_filter_push(x, starts_at(k));
        b.drop_last().lemma_filter_push(y, starts_at(kk));
        assert(a.filter(starts_at(kk)) == b.filter(starts_at(kk)));
        let ia = lemma_filter_nonempty(a, kk);
        lemma_sorted_last_is_max(a, ia);
        assert(a.filter(starts_at(k)) == b.filter(starts_at(k)));
        let ib = lemma_filter_nonempty(b, k);
        lemma_sorted_last_is_max(b, ib);
        assert(k == kk);
        assert(x == y) by {
            assert(a.filter(starts_at(k)).last() == x);
            assert(b.filter(starts_at(k)).last() == y);
        }
        assert forall|v: usize| #[trigger] a.drop_last().filter(starts_at(v)) == b.drop_last().filter(starts_at(v)) by {
            a.drop_last().lemma_filter_push(x, starts_at(v));
            b.drop_last().lemma_filter_push(y, starts_at(v));
            assert(a.filter(starts_at(v)) == b.filter(starts_at(v)));
            if v == k {
                assert(a.drop_last().filter(starts_at(v)) =~= a.filter(starts_at(v)).drop_last());
                assert(b.drop_last().filter(starts_at(v)) =~= b.filter(starts_at(v)).drop_last());
            }
        }
        lemma_stable_sort_unique(a.drop_last(), b.drop_last());
        assert(a =~= b);
    }
}

/// A start-ordered sequence is its own stable sort.
pub proof fn lemma_sorted_is_own_stable_sort(out: Seq<RelevantSegment>, inp: Seq<RelevantSegment>)
    requires
        sorted_by_start(inp),
        is_stable_sort_by_start(out, inp),
    ensures
        out == inp,
{
    lemma_stable_sort_unique(out, inp);
}


/// A segment within `0..=max_idx` with its ends in order.
pub open spec fn placed(g: RelevantSegment, max_idx: usize) -> bool {
    g.start_idx <= g.end_idx <= max_idx
}

/// Every segment within `0..=max_idx` with its ends in order.
pub open spec fn all_placed(s: Seq<RelevantSegment>, max_idx: usize) -> bool {
    forall|i: int| 0 <= i < s.len() ==> #[trigger] placed(s[i], max_idx)
}

/// A segment with both ends clamped to `max_idx` and put in increasing order.
pub open spec fn clamp_segment(g: RelevantSegment, max_idx: usize) -> RelevantSegment {
    let s = if g.start_idx <= max_idx { g.start_idx } else { max_idx };
    let e = if g.end_idx <= max_idx { g.end_idx } else { max_idx };
    RelevantSegment {
        start_idx: if e < s { e } else { s },
        end_idx: if e < s { s } else { e },
        ..g
    }
}

/// Every segment clamped to `max_idx`.
pub open spec fn clamp_all(s: Seq<RelevantSegment>, max_idx: usize) -> Seq<RelevantSegment> {
    Seq::new(s.len(), |i: int| clamp_segment(s[i], max_idx))
}

/// `g` moved to start right after `prev` when it starts on or before the end
/// of `prev` (never past `max_idx`), and stretched to stay non-empty.
pub open spec fn push_past(prev: RelevantSegment, g: RelevantSegment, max_idx: usize) -> RelevantSegment {
    if g.start_idx <= prev.end_idx {
        let ns: usize = if prev.end_idx + 1 <= max_idx { (prev.end_idx + 1) as usize } else { max_idx };
        RelevantSegment {
            start_idx: ns,
            end_idx: if g.end_idx < ns { ns } else { g.end_idx },
            ..g
        }
    } else {
        g
    }
}

/// Left to right, each segment pushed past its (already adjusted) predecessor.
pub open spec fn push_apart(s: Seq<RelevantSegment>, max_idx: usize) -> Seq<RelevantSegment>
    decreases s.len(),
{
    if s.len() <= 1 {
        s
    } else {
        let p = push_apart(s.drop_last(), max_idx);
        p.push(push_past(p.last(), s.last(), max_idx))
    }
}

/// Segments that lie within `0..=max_idx`, each non-empty, ordered by start,
/// each starting after the previous one ends unless pinned at `max_idx`.
pub open spec fn well_placed(s: Seq<RelevantSegment>, max_idx: usize) -> bool {
    &&& forall|i: int| 0 <= i < s.len() ==> #[trigger] s[i].start_idx <= s[i].end_idx <= max_idx
    &&& forall|i: int| 0 < i < s.len() ==> (#[trigger] s[i].start_idx > s[i - 1].end_idx || s[i].start_idx == max_idx)
    &&& sorted_by_start(s)
}

proof fn lemma_push_apart_len(s: Seq<RelevantSegment>, max_idx: usize)
    ensures
        push_apart(s, max_idx).len() == s.len(),
    decreases s.len(),
{
    if s.len() > 1 {
        lemma_push_apart_len(s.drop_last(), max_idx);
    }
}

/// Pushing apart segments that each lie within `0..=max_idx` and are
/// non-empty leaves them well placed, keeping their tags and flags in order.
pub proof fn lemma_push_apart_well_placed(s: Seq<RelevantSegment>, max_idx: usize)
    requires
        all_placed(s, max_idx),
    ensures
        push_apart(s, max_idx).len() == s.len(),
        well_placed(push_apart(s, max_idx), max_idx),
        forall|i: int| 0 <= i < s.len() ==> #[trigger] push_apart(s, max_idx)[i].tag == s[i].tag
            && push_apart(s, max_idx)[i].enabled == s[i].enabled,
    decreases s.len(),
{
    lemma_push_apart_len(s, max_idx);
    if s.len() > 1 {
        let d = s.drop_last();
        assert forall|i: int| 0 <= i < d.len() implies #[trigger] placed(d[i], max_idx) by {
            assert(d[i] == s[i]);
            assert(placed(s[i], max_idx));
        }
        lemma_push_apart_well_placed(d, max_idx);
        let p = push_apart(d, max_idx);
        let r = push_apart(s, max_idx);
        assert(r == p.push(push_past(p.last(), s.last(), max_idx)));
        let n = s.len() - 1;
        assert(p.last() == p[n - 1]);
        assert forall|i: int, j: int| 0 <= i < j < r.len() implies r[i].start_idx <= r[j].start_idx by {
            if j < n {
                assert(r[i] == p[i] && r[j] == p[j]);
            } else {
                assert(r[i] == p[i]);
                assert(p[i].start_idx <= p[n - 1].start_idx);
            }
        }
        assert(placed(s[n], max_idx));
        assert(s.last() == s[n]);
        assert forall|i: int| 0 <= i < r.len() implies #[trigger] r[i].start_idx <= r[i].end_idx <= max_idx by {
            if i < n { assert(r[i] == p[i]); }
        }
        assert forall|i: int| 0 < i < r.len() implies (#[trigger] r[i].start_idx > r[i - 1].end_idx || r[i].start_idx == max_idx) by {
            if i < n { assert(r[i] == p[i] && r[i - 1] == p[i - 1]); }
        }
        assert forall|i: int| 0 <= i < s.len() implies #[trigger] r[i].tag == s[i].tag && r[i].enabled == s[i].enabled by {
            if i < n { assert(r[i] == p[i] && d[i] == s[i]); }
        }
    } else {
        assert(push_apart(s, max_idx) == s);
        if s.len() == 1 {
            assert(placed(s[0], max_idx));
        }
    }
}

/// Pushing apart segments that are already well placed changes nothing.
pub proof fn lemma_push_apart_fixes_well_placed(s: Seq<RelevantSegment>, max_idx: usize)
    requires
        well_placed(s, max_idx),
    ensures
        push_apart(s, max_idx) == s,
    decreases s.len(),
{
    if s.len() > 1 {
        let d = s.drop_last();
        assert(well_placed(d, max_idx)) by {
            assert forall|i: int| 0 < i < d.len() implies (#[trigger] d[i].start_idx > d[i - 1].end_idx || d[i].start_idx == max_idx) by {
                assert(d[i] == s[i] && d[i - 1] == s[i - 1]);
            }
            assert forall|i: int| 0 <= i < d.len() implies #[trigger] d[i].start_idx <= d[i].end_idx <= max_idx by {
                assert(d[i] == s[i]);
            }
        }
        lemma_push_apart_fixes_well_placed(d, max_idx);
        let n = s.len() - 1;
        assert(d.last() == s[n - 1]);
        assert(s[n].start_idx > s[n - 1].end_idx || s[n].start_idx == max_idx);
        assert(push_past(d.last(), s.last(), max_idx) == s.last());
        assert(s =~= d.push(s.last()));
    }
}

/// Clamping segments that already lie within `0..=max_idx` in order changes nothing.
pub proof fn lemma_clamp_fixes_placed(s: Seq<RelevantSegment>, max_idx: usize)
    requires
        all_placed(s, max_idx),
    ensures
        clamp_all(s, max_idx) == s,
{
    assert forall|i: int| 0 <= i < s.len() implies #[trigger] clamp_all(s, max_idx)[i] == s[i] by {
        assert(placed(s[i], max_idx));
    }
    assert(clamp_all(s, max_idx) =~= s);
}

} // verus!
