//! Half-open integer intervals `[start, end)` and the specification-level
//! machinery for queries over sorted interval sequences: point coverage,
//! pairwise clipping (intersection), and summed lengths.

use vstd::prelude::*;

verus! {

/// A half-open interval `[start, end)` over unsigned 32-bit values.
pub type Iv = (u32, u32);

/// An interval entry of the list store: start, end, payload.
pub type IvP = (u32, u32, u64);

/// The interval is well formed: its end does not precede its start.
pub open spec fn iv_ok(a: Iv) -> bool {
    a.0 <= a.1
}

/// `x` lies in the half-open interval `a`.
pub open spec fn covers(a: Iv, x: int) -> bool {
    a.0 <= x < a.1
}

/// Some interval of `s` covers `x`.
pub open spec fn covered(s: Seq<Iv>, x: int) -> bool {
    exists|k: int| 0 <= k < s.len() && covers(s[k], x)
}

/// Starts are non-decreasing.
pub open spec fn sorted_by_start(s: Seq<Iv>) -> bool {
    forall|i: int, j: int| 0 <= i <= j < s.len() ==> (#[trigger] s[i]).0 <= (#[trigger] s[j]).0
}

/// Well-formed intervals, sorted by start, pairwise non-overlapping (they may
/// touch). What the set store requires of stored records and both stores
/// require of query inputs.
pub open spec fn sorted_disjoint(s: Seq<Iv>) -> bool {
    &&& forall|k: int| 0 <= k < s.len() ==> iv_ok(#[trigger] s[k])
    &&& forall|i: int, j: int|
        0 <= i < j < s.len() ==> (#[trigger] s[i]).1 <= (#[trigger] s[j]).0
}

/// The common part of two intervals: latest start, earliest end.
pub open spec fn clip(a: Iv, b: Iv) -> Iv {
    (
        if a.0 >= b.0 {
            a.0
        } else {
            b.0
        },
        if a.1 <= b.1 {
            a.1
        } else {
            b.1
        },
    )
}

/// The two intervals share at least one point.
pub open spec fn overlaps(a: Iv, b: Iv) -> bool {
    clip(a, b).0 < clip(a, b).1
}

/// Length of an interval; a backwards pair counts as zero.
pub open spec fn iv_len(a: Iv) -> int {
    if a.1 >= a.0 {
        a.1 - a.0
    } else {
        0
    }
}

/// Total length of a sequence of intervals.
pub open spec fn total_len(s: Seq<Iv>) -> int
    decreases s.len(),
{
    if s.len() == 0 {
        0
    } else {
        total_len(s.drop_last()) + iv_len(s.last())
    }
}

pub proof fn lemma_total_len_push(s: Seq<Iv>, c: Iv)
    ensures
        total_len(s.push(c)) == total_len(s) + iv_len(c),
{
    assert(s.push(c).drop_last() =~= s);
}

pub proof fn lemma_total_len_nonneg(s: Seq<Iv>)
    ensures
        total_len(s) >= 0,
    decreases s.len(),
{
    if s.len() > 0 {
        lemma_total_len_nonneg(s.drop_last());
    }
}

/// A sorted, disjoint sequence is no longer in total than the span from its
/// first start to its last end; in particular it fits in 32 bits.
pub proof fn lemma_sorted_disjoint_total_len(s: Seq<Iv>)
    requires
        sorted_disjoint(s),
    ensures
        s.len() > 0 ==> total_len(s) <= s.last().1 - s[0].0,
        total_len(s) <= u32::MAX,
    decreases s.len(),
{
    if s.len() > 0 {
        let d = s.drop_last();
        assert(sorted_disjoint(d)) by {
            assert(forall|k: int| 0 <= k < d.len() ==> d[k] == s[k]);
        }
        lemma_sorted_disjoint_total_len(d);
        if s.len() > 1 {
            assert(d.last() == s[s.len() - 2]);
            assert(s[s.len() - 2].1 <= s.last().0);
            assert(d[0] == s[0]);
        }
        lemma_total_len_nonneg(d);
    }
}

pub proof fn lemma_covered_push(s: Seq<Iv>, c: Iv, x: int)
    ensures
        covered(s.push(c), x) <==> (covered(s, x) || covers(c, x)),
{
    let t = s.push(c);
    if covered(t, x) {
        let k = choose|k: int| 0 <= k < t.len() && covers(t[k], x);
        if k < s.len() {
            assert(s[k] == t[k]);
            assert(covered(s, x));
        } else {
            assert(t[k] == c);
        }
    }
    if covered(s, x) {
        let k = choose|k: int| 0 <= k < s.len() && covers(s[k], x);
        assert(covers(t[k], x));
    }
    if covers(c, x) {
        assert(covers(t[s.len() as int], x));
    }
}

pub proof fn lemma_covered_take_succ(s: Seq<Iv>, i: int, x: int)
    requires
        0 <= i < s.len(),
    ensures
        covered(s.take(i + 1), x) <==> (covered(s.take(i), x) || covers(s[i], x)),
{
    assert(s.take(i + 1) =~= s.take(i).push(s[i]));
    lemma_covered_push(s.take(i), s[i], x);
}

/// The clips of one interval `a` against each interval of `bs` that it
/// overlaps, in order.
pub open spec fn row_clips(a: Iv, bs: Seq<Iv>) -> Seq<Iv>
    decreases bs.len(),
{
    if bs.len() == 0 {
        Seq::empty()
    } else {
        row_clips(a, bs.drop_last()) + (if overlaps(a, bs.last()) {
            seq![clip(a, bs.last())]
        } else {
            Seq::empty()
        })
    }
}

/// Every pairwise overlap of `a_s` against `bs`, clipped, in row-major order:
/// the brute-force intersection of the two families.
pub open spec fn clip_pairs(a_s: Seq<Iv>, bs: Seq<Iv>) -> Seq<Iv>
    decreases a_s.len(),
{
    if a_s.len() == 0 {
        Seq::empty()
    } else {
        clip_pairs(a_s.drop_last(), bs) + row_clips(a_s.last(), bs)
    }
}

pub proof fn lemma_row_clips_take_succ(a: Iv, bs: Seq<Iv>, j: int)
    requires
        0 <= j < bs.len(),
    ensures
        row_clips(a, bs.take(j + 1)) == row_clips(a, bs.take(j)) + (if overlaps(a, bs[j]) {
            seq![clip(a, bs[j])]
        } else {
            Seq::<Iv>::empty()
        }),
{
    let t = bs.take(j + 1);
    assert(t.drop_last() =~= bs.take(j));
    assert(t.last() == bs[j]);
}

pub proof fn lemma_row_clips_take_stable(a: Iv, bs: Seq<Iv>, m: int)
    requires
        0 <= m <= bs.len(),
        forall|k: int| m <= k < bs.len() ==> !overlaps(a, #[trigger] bs[k]),
    ensures
        row_clips(a, bs) == row_clips(a, bs.take(m)),
    decreases bs.len() - m,
{
    if m == bs.len() {
        assert(bs.take(m) =~= bs);
    } else {
        let d = bs.take(bs.len() - 1);
        assert(bs.take(bs.len() as int) =~= bs);
        lemma_row_clips_take_succ(a, bs, bs.len() - 1);
        assert(row_clips(a, bs) == row_clips(a, d));
        lemma_row_clips_take_stable(a, d, m);
        assert(d.take(m) =~= bs.take(m));
    }
}

pub proof fn lemma_row_clips_covered(a: Iv, bs: Seq<Iv>, x: int)
    ensures
        covered(row_clips(a, bs), x) <==> (covers(a, x) && covered(bs, x)),
    decreases bs.len(),
{
    if bs.len() == 0 {
        assert(!covered(row_clips(a, bs), x));
        assert(!covered(bs, x));
    } else {
        let d = bs.drop_last();
        lemma_row_clips_covered(a, d, x);
        let r = row_clips(a, bs);
        let rd = row_clips(a, d);
        if overlaps(a, bs.last()) {
            assert(r =~= rd.push(clip(a, bs.last())));
            lemma_covered_push(rd, clip(a, bs.last()), x);
        } else {
            assert(r =~= rd);
        }
        assert(covered(bs, x) <==> (covered(d, x) || covers(bs.last(), x))) by {
            assert(bs =~= d.push(bs.last()));
            lemma_covered_push(d, bs.last(), x);
        }
    }
}

pub proof fn lemma_clip_pairs_take_succ(a_s: Seq<Iv>, bs: Seq<Iv>, i: int)
    requires
        0 <= i < a_s.len(),
    ensures
        clip_pairs(a_s.take(i + 1), bs) == clip_pairs(a_s.take(i), bs) + row_clips(a_s[i], bs),
{
    let t = a_s.take(i + 1);
    assert(t.drop_last() =~= a_s.take(i));
    assert(t.last() == a_s[i]);
}

pub proof fn lemma_clip_pairs_take_stable(a_s: Seq<Iv>, bs: Seq<Iv>, m: int)
    requires
        0 <= m <= a_s.len(),
        forall|p: int| m <= p < a_s.len() ==> row_clips(#[trigger] a_s[p], bs) == Seq::<Iv>::empty(),
    ensures
        clip_pairs(a_s, bs) == clip_pairs(a_s.take(m), bs),
    decreases a_s.len() - m,
{
    if m == a_s.len() {
        assert(a_s.take(m) =~= a_s);
    } else {
        let d = a_s.take(a_s.len() - 1);
        lemma_clip_pairs_take_succ(a_s, bs, a_s.len() - 1);
        assert(a_s.take(a_s.len() as int) =~= a_s);
        assert(clip_pairs(a_s, bs) == clip_pairs(d, bs) + row_clips(a_s[a_s.len() - 1], bs));
        assert(clip_pairs(a_s, bs) =~= clip_pairs(d, bs));
        lemma_clip_pairs_take_stable(d, bs, m);
        assert(d.take(m) =~= a_s.take(m));
    }
}

pub proof fn lemma_clip_pairs_covered(a_s: Seq<Iv>, bs: Seq<Iv>, x: int)
    ensures
        covered(clip_pairs(a_s, bs), x) <==> (covered(a_s, x) && covered(bs, x)),
    decreases a_s.len(),
{
    if a_s.len() == 0 {
        assert(!covered(clip_pairs(a_s, bs), x));
        assert(!covered(a_s, x));
    } else {
        let d = a_s.drop_last();
        lemma_clip_pairs_covered(d, bs, x);
        lemma_row_clips_covered(a_s.last(), bs, x);
        let whole = clip_pairs(a_s, bs);
        let left = clip_pairs(d, bs);
        let right = row_clips(a_s.last(), bs);
        assert(covered(whole, x) <==> (covered(left, x) || covered(right, x))) by {
            lemma_covered_concat(left, right, x);
        }
        assert(covered(a_s, x) <==> (covered(d, x) || covers(a_s.last(), x))) by {
            assert(a_s =~= d.push(a_s.last()));
            lemma_covered_push(d, a_s.last(), x);
        }
    }
}

pub proof fn lemma_covered_concat(s: Seq<Iv>, t: Seq<Iv>, x: int)
    ensures
        covered(s + t, x) <==> (covered(s, x) || covered(t, x)),
{
    let u = s + t;
    if covered(u, x) {
        let k = choose|k: int| 0 <= k < u.len() && covers(u[k], x);
        if k < s.len() {
            assert(s[k] == u[k]);
        } else {
            assert(t[k - s.len()] == u[k]);
            assert(covered(t, x));
        }
    }
    if covered(s, x) {
        let k = choose|k: int| 0 <= k < s.len() && covers(s[k], x);
        assert(covers(u[k], x));
    }
    if covered(t, x) {
        let k = choose|k: int| 0 <= k < t.len() && covers(t[k], x);
        assert(covers(u[k + s.len()], x));
    }
}

pub proof fn lemma_total_len_concat(s: Seq<Iv>, t: Seq<Iv>)
    ensures
        total_len(s + t) == total_len(s) + total_len(t),
    decreases t.len(),
{
    if t.len() == 0 {
        assert(s + t =~= s);
    } else {
        assert((s + t).drop_last() =~= s + t.drop_last());
        assert((s + t).last() == t.last());
        lemma_total_len_concat(s, t.drop_last());
    }
}

/// Sum of the overlap lengths of `a` against every interval of `bs`.
pub open spec fn row_sum(a: Iv, bs: Seq<Iv>) -> int
    decreases bs.len(),
{
    if bs.len() == 0 {
        0
    } else {
        row_sum(a, bs.drop_last()) + iv_len(clip(a, bs.last()))
    }
}

/// Sum of the overlap lengths of every pair drawn from `a_s` and `bs`.
pub open spec fn pair_sum(a_s: Seq<Iv>, bs: Seq<Iv>) -> int
    decreases a_s.len(),
{
    if a_s.len() == 0 {
        0
    } else {
        pair_sum(a_s.drop_last(), bs) + row_sum(a_s.last(), bs)
    }
}

pub proof fn lemma_row_sum_nonneg(a: Iv, bs: Seq<Iv>)
    ensures
        row_sum(a, bs) >= 0,
    decreases bs.len(),
{
    if bs.len() > 0 {
        lemma_row_sum_nonneg(a, bs.drop_last());
    }
}

pub proof fn lemma_pair_sum_nonneg(a_s: Seq<Iv>, bs: Seq<Iv>)
    ensures
        pair_sum(a_s, bs) >= 0,
    decreases a_s.len(),
{
    if a_s.len() > 0 {
        lemma_pair_sum_nonneg(a_s.drop_last(), bs);
        lemma_row_sum_nonneg(a_s.last(), bs);
    }
}

/// The length of one row of clips is the row's summed overlap.
pub proof fn lemma_row_clips_total(a: Iv, bs: Seq<Iv>)
    ensures
        total_len(row_clips(a, bs)) == row_sum(a, bs),
    decreases bs.len(),
{
    if bs.len() > 0 {
        lemma_row_clips_total(a, bs.drop_last());
        let d = bs.drop_last();
        if overlaps(a, bs.last()) {
            assert(row_clips(a, bs) =~= row_clips(a, d).push(clip(a, bs.last())));
            lemma_total_len_push(row_clips(a, d), clip(a, bs.last()));
        } else {
            assert(row_clips(a, bs) =~= row_clips(a, d));
            assert(iv_len(clip(a, bs.last())) == 0);
        }
    }
}

/// Summing pairwise overlaps agrees with the total length of the brute-force
/// clipped intersection.
pub proof fn lemma_clip_pairs_total(a_s: Seq<Iv>, bs: Seq<Iv>)
    ensures
        total_len(clip_pairs(a_s, bs)) == pair_sum(a_s, bs),
    decreases a_s.len(),
{
    if a_s.len() > 0 {
        lemma_clip_pairs_total(a_s.drop_last(), bs);
        lemma_row_clips_total(a_s.last(), bs);
        lemma_total_len_concat(clip_pairs(a_s.drop_last(), bs), row_clips(a_s.last(), bs));
    }
}

pub proof fn lemma_row_sum_take_succ(a: Iv, bs: Seq<Iv>, j: int)
    requires
        0 <= j < bs.len(),
    ensures
        row_sum(a, bs.take(j + 1)) == row_sum(a, bs.take(j)) + iv_len(clip(a, bs[j])),
{
    let t = bs.take(j + 1);
    assert(t.drop_last() =~= bs.take(j));
    assert(t.last() == bs[j]);
}

pub proof fn lemma_row_sum_take_stable(a: Iv, bs: Seq<Iv>, m: int)
    requires
        0 <= m <= bs.len(),
        forall|k: int| m <= k < bs.len() ==> iv_len(clip(a, #[trigger] bs[k])) == 0,
    ensures
        row_sum(a, bs) == row_sum(a, bs.take(m)),
    decreases bs.len() - m,
{
    if m == bs.len() {
        assert(bs.take(m) =~= bs);
    } else {
        let d = bs.take(bs.len() - 1);
        lemma_row_sum_take_succ(a, bs, bs.len() - 1);
        assert(bs.take(bs.len() as int) =~= bs);
        lemma_row_sum_take_stable(a, d, m);
        assert(d.take(m) =~= bs.take(m));
    }
}

pub proof fn lemma_pair_sum_take_succ(a_s: Seq<Iv>, bs: Seq<Iv>, i: int)
    requires
        0 <= i < a_s.len(),
    ensures
        pair_sum(a_s.take(i + 1), bs) == pair_sum(a_s.take(i), bs) + row_sum(a_s[i], bs),
{
    let t = a_s.take(i + 1);
    assert(t.drop_last() =~= a_s.take(i));
    assert(t.last() == a_s[i]);
}

pub proof fn lemma_pair_sum_take_stable(a_s: Seq<Iv>, bs: Seq<Iv>, m: int)
    requires
        0 <= m <= a_s.len(),
        forall|p: int| m <= p < a_s.len() ==> row_sum(#[trigger] a_s[p], bs) == 0,
    ensures
        pair_sum(a_s, bs) == pair_sum(a_s.take(m), bs),
    decreases a_s.len() - m,
{
    if m == a_s.len() {
        assert(a_s.take(m) =~= a_s);
    } else {
        let d = a_s.take(a_s.len() - 1);
        lemma_pair_sum_take_succ(a_s, bs, a_s.len() - 1);
        assert(a_s.take(a_s.len() as int) =~= a_s);
        lemma_pair_sum_take_stable(d, bs, m);
        assert(d.take(m) =~= a_s.take(m));
    }
}

/// Partial pair sums never exceed the whole.
pub proof fn lemma_pair_sum_prefix_bound(a_s: Seq<Iv>, bs: Seq<Iv>, i: int)
    requires
        0 <= i <= a_s.len(),
    ensures
        pair_sum(a_s.take(i), bs) <= pair_sum(a_s, bs),
    decreases a_s.len() - i,
{
    if i == a_s.len() {
        assert(a_s.take(i) =~= a_s);
    } else {
        lemma_pair_sum_take_succ(a_s, bs, i);
        lemma_row_sum_nonneg(a_s[i], bs);
        lemma_pair_sum_prefix_bound(a_s, bs, i + 1);
    }
}

pub proof fn lemma_row_sum_prefix_bound(a: Iv, bs: Seq<Iv>, j: int)
    requires
        0 <= j <= bs.len(),
    ensures
        row_sum(a, bs.take(j)) <= row_sum(a, bs),
    decreases bs.len() - j,
{
    if j == bs.len() {
        assert(bs.take(j) =~= bs);
    } else {
        lemma_row_sum_take_succ(a, bs, j);
        lemma_row_sum_prefix_bound(a, bs, j + 1);
    }
}

pub proof fn lemma_total_len_take_succ(s: Seq<Iv>, k: int)
    requires
        0 <= k < s.len(),
    ensures
        total_len(s.take(k + 1)) == total_len(s.take(k)) + iv_len(s[k]),
{
    let t = s.take(k + 1);
    assert(t.drop_last() =~= s.take(k));
    assert(t.last() == s[k]);
}

pub proof fn lemma_total_len_prefix_bound(s: Seq<Iv>, k: int)
    requires
        0 <= k <= s.len(),
    ensures
        total_len(s.take(k)) <= total_len(s),
    decreases s.len() - k,
{
    if k == s.len() {
        assert(s.take(k) =~= s);
    } else {
        lemma_total_len_take_succ(s, k);
        lemma_total_len_prefix_bound(s, k + 1);
    }
}

/// Appending an interval that starts no earlier than the last end keeps a
/// sequence sorted and disjoint.
pub proof fn lemma_sorted_disjoint_push(s: Seq<Iv>, c: Iv)
    requires
        sorted_disjoint(s),
        iv_ok(c),
        s.len() > 0 ==> s.last().1 <= c.0,
    ensures
        sorted_disjoint(s.push(c)),
{
    let t = s.push(c);
    assert forall|i: int, j: int| 0 <= i < j < t.len() implies (#[trigger] t[i]).1 <= (
    #[trigger] t[j]).0 by {
        if j < s.len() {
        } else {
            assert(t[j] == c);
            if i < s.len() - 1 {
                assert(s[i].1 <= s[s.len() - 1].0);
                assert(s[s.len() - 1].0 <= s[s.len() - 1].1);
            }
        }
    }
}

/// The payload, masked, equals the sought value.
pub open spec fn payload_matches(p: u64, mask: u64, value: u64) -> bool {
    p & mask == value
}

/// The intervals of a list-store record whose masked payload matches, in
/// stored order.
pub open spec fn matching_intervals(r: Seq<IvP>, mask: u64, value: u64) -> Seq<Iv>
    decreases r.len(),
{
    if r.len() == 0 {
        Seq::empty()
    } else {
        matching_intervals(r.drop_last(), mask, value) + (if payload_matches(
            r.last().2,
            mask,
            value,
        ) {
            seq![(r.last().0, r.last().1)]
        } else {
            Seq::empty()
        })
    }
}

pub proof fn lemma_matching_take_succ(r: Seq<IvP>, mask: u64, value: u64, k: int)
    requires
        0 <= k < r.len(),
    ensures
        matching_intervals(r.take(k + 1), mask, value) == matching_intervals(r.take(k), mask, value)
            + (if payload_matches(r[k].2, mask, value) {
            seq![(r[k].0, r[k].1)]
        } else {
            Seq::<Iv>::empty()
        }),
{
    let t = r.take(k + 1);
    assert(t.drop_last() =~= r.take(k));
    assert(t.last() == r[k]);
}

pub proof fn lemma_and_zero(p: u64)
    ensures
        p & 0 == 0,
{
    assert(p & 0 == 0) by (bit_vector);
}

/// Masking with zero matches every payload, so the matching intervals are all
/// of them.
pub proof fn lemma_matching_all(r: Seq<IvP>)
    ensures
        matching_intervals(r, 0, 0).len() == r.len(),
    decreases r.len(),
{
    if r.len() > 0 {
        lemma_matching_all(r.drop_last());
        lemma_and_zero(r.last().2);
    }
}

/// A well-formed list-store record: intervals sorted by start, ends not
/// before starts.
pub open spec fn list_record_wf(r: Seq<IvP>) -> bool {
    &&& forall|i: int, j: int|
        0 <= i <= j < r.len() ==> (#[trigger] r[i]).0 <= (#[trigger] r[j]).0
    &&& forall|k: int| 0 <= k < r.len() ==> (#[trigger] r[k]).0 <= r[k].1
}

/// Filtering a well-formed record by payload keeps it sorted and well formed,
/// and no filtered start exceeds any later record start.
pub proof fn lemma_matching_wf(r: Seq<IvP>, mask: u64, value: u64)
    requires
        list_record_wf(r),
    ensures
        sorted_by_start(matching_intervals(r, mask, value)),
        forall|k: int|
            0 <= k < matching_intervals(r, mask, value).len() ==> iv_ok(
                #[trigger] matching_intervals(r, mask, value)[k],
            ),
        r.len() > 0 ==> forall|k: int|
            0 <= k < matching_intervals(r, mask, value).len()
                ==> (#[trigger] matching_intervals(r, mask, value)[k]).0 <= r.last().0,
    decreases r.len(),
{
    if r.len() > 0 {
        let d = r.drop_last();
        assert(list_record_wf(d)) by {
            assert(forall|k: int| 0 <= k < d.len() ==> d[k] == r[k]);
        }
        lemma_matching_wf(d, mask, value);
        let md = matching_intervals(d, mask, value);
        let m = matching_intervals(r, mask, value);
        if d.len() > 0 {
            assert(d.last() == r[r.len() - 2]);
            assert(r[r.len() - 2].0 <= r.last().0);
        }
        if payload_matches(r.last().2, mask, value) {
            assert(m =~= md.push((r.last().0, r.last().1)));
        } else {
            assert(m =~= md);
        }
    }
}

/// Some matching interval of the record covers `target` and begins no more
/// than `window` before it: the hits that a windowed containment search is
/// specified to find.
pub open spec fn window_hit(
    r: Seq<IvP>,
    mask: u64,
    value: u64,
    target: u32,
    window: u32,
) -> bool {
    exists|k: int|
        0 <= k < r.len() && payload_matches((#[trigger] r[k]).2, mask, value) && r[k].0 <= target
            < r[k].1 && target <= r[k].0 + window
}

/// Some matching interval of the record covers `target`, regardless of how
/// far back it starts.
pub open spec fn record_hit(r: Seq<IvP>, mask: u64, value: u64, target: u32) -> bool {
    exists|k: int|
        0 <= k < r.len() && payload_matches((#[trigger] r[k]).2, mask, value) && r[k].0 <= target
            < r[k].1
}

pub proof fn lemma_matching_total_take_succ(r: Seq<IvP>, mask: u64, value: u64, k: int)
    requires
        0 <= k < r.len(),
    ensures
        total_len(matching_intervals(r.take(k + 1), mask, value)) == total_len(
            matching_intervals(r.take(k), mask, value),
        ) + (if payload_matches(r[k].2, mask, value) {
            iv_len((r[k].0, r[k].1))
        } else {
            0
        }),
{
    lemma_matching_take_succ(r, mask, value, k);
    let m = matching_intervals(r.take(k), mask, value);
    if payload_matches(r[k].2, mask, value) {
        assert(matching_intervals(r.take(k + 1), mask, value) =~= m.push((r[k].0, r[k].1)));
        lemma_total_len_push(m, (r[k].0, r[k].1));
    } else {
        assert(matching_intervals(r.take(k + 1), mask, value) =~= m);
    }
}

pub proof fn lemma_matching_total_prefix_bound(r: Seq<IvP>, mask: u64, value: u64, k: int)
    requires
        0 <= k <= r.len(),
    ensures
        total_len(matching_intervals(r.take(k), mask, value)) <= total_len(
            matching_intervals(r, mask, value),
        ),
    decreases r.len() - k,
{
    if k == r.len() {
        assert(r.take(k) =~= r);
    } else {
        lemma_matching_total_take_succ(r, mask, value, k);
        lemma_matching_total_prefix_bound(r, mask, value, k + 1);
    }
}

/// One step of coalescing: merge the candidate into the last interval kept
/// when the two strictly overlap, else append it.
pub open spec fn cpush(acc: Seq<Iv>, c: Iv) -> Seq<Iv> {
    if acc.len() > 0 && overlaps(c, acc.last()) {
        acc.update(
            acc.len() - 1,
            (
                if c.0 <= acc.last().0 {
                    c.0
                } else {
                    acc.last().0
                },
                if c.1 >= acc.last().1 {
                    c.1
                } else {
                    acc.last().1
                },
            ),
        )
    } else {
        acc.push(c)
    }
}

/// Coalesce a sequence of interval candidates: merge each into its
/// predecessor while they strictly overlap.
pub open spec fn coalesce(s: Seq<Iv>) -> Seq<Iv>
    decreases s.len(),
{
    if s.len() == 0 {
        Seq::empty()
    } else {
        cpush(coalesce(s.drop_last()), s.last())
    }
}

/// Coalescing candidates that are sorted by start and non-empty yields a
/// sorted, non-overlapping sequence whose kept starts do not exceed the last
/// candidate's start.
pub proof fn lemma_coalesce_canonical(s: Seq<Iv>)
    requires
        sorted_by_start(s),
        forall|k: int| 0 <= k < s.len() ==> (#[trigger] s[k]).0 < s[k].1,
    ensures
        sorted_disjoint(coalesce(s)),
        forall|k: int| 0 <= k < coalesce(s).len() ==> (#[trigger] coalesce(s)[k]).0 < coalesce(
            s,
        )[k].1,
        s.len() > 0 ==> coalesce(s).len() > 0 && coalesce(s).last().0 <= s.last().0,
    decreases s.len(),
{
    if s.len() > 0 {
        let d = s.drop_last();
        let c = s.last();
        assert(sorted_by_start(d) && forall|k: int| 0 <= k < d.len() ==> (#[trigger] d[k]).0
            < d[k].1) by {
            assert(forall|k: int| 0 <= k < d.len() ==> d[k] == s[k]);
        }
        lemma_coalesce_canonical(d);
        let acc = coalesce(d);
        if acc.len() > 0 && overlaps(c, acc.last()) {
            assert(d.len() > 0);
            assert(acc.last().0 <= d.last().0);
            assert(d.last().0 <= c.0);
            let merged = (acc.last().0, if c.1 >= acc.last().1 {
                c.1
            } else {
                acc.last().1
            });
            assert(coalesce(s) =~= acc.update(acc.len() - 1, merged));
            assert forall|i: int, j: int|
                0 <= i < j < coalesce(s).len() implies (#[trigger] coalesce(s)[i]).1 <= (
            #[trigger] coalesce(s)[j]).0 by {
                if j < acc.len() - 1 {
                    assert(coalesce(s)[i] == acc[i] && coalesce(s)[j] == acc[j]);
                } else {
                    assert(coalesce(s)[i] == acc[i]);
                    assert(coalesce(s)[j].0 == acc[acc.len() - 1].0);
                }
            }
        } else {
            assert(coalesce(s) == acc.push(c));
            if acc.len() > 0 {
                assert(acc.last().0 <= c.0);
                assert(!overlaps(c, acc.last()));
                assert(clip(c, acc.last()).0 == c.0);
                assert(clip(c, acc.last()).1 <= c.0);
                assert(acc.last().1 <= c.0);
                lemma_sorted_disjoint_push(acc, c);
            } else {
                assert forall|i: int, j: int|
                    0 <= i < j < coalesce(s).len() implies (#[trigger] coalesce(s)[i]).1 <= (
                #[trigger] coalesce(s)[j]).0 by {}
            }
        }
    }
}

/// Coalescing a sequence that is already sorted, non-overlapping and
/// non-empty leaves it unchanged.
pub proof fn lemma_coalesce_fixed(s: Seq<Iv>)
    requires
        sorted_disjoint(s),
        forall|k: int| 0 <= k < s.len() ==> (#[trigger] s[k]).0 < s[k].1,
    ensures
        coalesce(s) == s,
    decreases s.len(),
{
    if s.len() > 0 {
        let d = s.drop_last();
        let c = s.last();
        assert(sorted_disjoint(d) && forall|k: int| 0 <= k < d.len() ==> (#[trigger] d[k]).0
            < d[k].1) by {
            assert(forall|k: int| 0 <= k < d.len() ==> d[k] == s[k]);
        }
        lemma_coalesce_fixed(d);
        if d.len() > 0 {
            assert(d.last().1 <= c.0);
            assert(!overlaps(c, d.last())) by {
                assert(clip(c, d.last()).1 <= d.last().1);
                assert(clip(c, d.last()).0 >= c.0);
            }
        }
        assert(coalesce(s) == d.push(c));
        assert(d.push(c) =~= s);
    }
}

/// Law: the coalescing pass of the list store's intersection is idempotent.
/// Candidates from the sweep are sorted by start and non-empty; one pass
/// yields a sorted, non-overlapping sequence, and a second pass leaves that
/// unchanged.
pub proof fn lemma_coalesce_idempotent(s: Seq<Iv>)
    requires
        sorted_by_start(s),
        forall|k: int| 0 <= k < s.len() ==> (#[trigger] s[k]).0 < s[k].1,
    ensures
        coalesce(coalesce(s)) == coalesce(s),
{
    lemma_coalesce_canonical(s);
    lemma_coalesce_fixed(coalesce(s));
}

/// Law: a point of a stored interval whose payload matches is found by the
/// windowed containment search whenever the window is at least every
/// interval's length.
pub proof fn lemma_window_round_trip(
    r: Seq<IvP>,
    mask: u64,
    value: u64,
    target: u32,
    window: u32,
    k: int,
)
    requires
        0 <= k < r.len(),
        payload_matches(r[k].2, mask, value),
        r[k].0 <= target < r[k].1,
        forall|j: int| 0 <= j < r.len() ==> (#[trigger] r[j]).1 - r[j].0 <= window,
    ensures
        window_hit(r, mask, value, target, window),
{
    assert(target <= r[k].0 + window);
}

/// One step of the set-difference walk: the active remainder of the current
/// query interval (`ma`, if any part of it was already cut) is compared
/// against the current stored interval; surviving parts are emitted in order.
pub open spec fn minus_walk(a_s: Seq<Iv>, bs: Seq<Iv>, i: int, j: int, ma: Option<Iv>) -> Seq<Iv>
    decreases a_s.len() - i + bs.len() - j,
    when 0 <= i <= a_s.len() && 0 <= j <= bs.len()
{
    if i >= a_s.len() {
        Seq::empty()
    } else if j >= bs.len() {
        match ma {
            Some(v) => seq![v] + a_s.skip(i + 1),
            None => a_s.skip(i),
        }
    } else {
        let a = match ma {
            Some(v) => v,
            None => a_s[i],
        };
        let b = bs[j];
        if a.0 < b.0 {
            if a.1 <= b.0 {
                seq![a] + minus_walk(a_s, bs, i + 1, j, None)
            } else if a.1 <= b.1 {
                seq![(a.0, b.0)] + minus_walk(a_s, bs, i + 1, j, None)
            } else {
                seq![(a.0, b.0)] + minus_walk(a_s, bs, i, j + 1, Some((b.1, a.1)))
            }
        } else {
            if a.0 >= b.1 {
                minus_walk(a_s, bs, i, j + 1, ma)
            } else if a.1 <= b.1 {
                minus_walk(a_s, bs, i + 1, j, None)
            } else {
                minus_walk(a_s, bs, i, j + 1, Some((b.1, a.1)))
            }
        }
    }
}

/// The set difference `a_s` minus `bs`, interval by interval: the part of the
/// query not covered by the stored intervals, emitted by the walk above.
pub open spec fn minus_seq(a_s: Seq<Iv>, bs: Seq<Iv>) -> Seq<Iv> {
    minus_walk(a_s, bs, 0, 0, None)
}

/// One interval lies within another.
pub open spec fn within(c: Iv, d: Iv) -> bool {
    d.0 <= c.0 && c.1 <= d.1
}

proof fn lemma_minus_walk_within(a_s: Seq<Iv>, bs: Seq<Iv>, i: int, j: int, ma: Option<Iv>)
    requires
        0 <= i <= a_s.len(),
        0 <= j <= bs.len(),
        forall|q: int| 0 <= q < bs.len() ==> iv_ok(#[trigger] bs[q]),
        ma matches Some(v) ==> i < a_s.len() && a_s[i].0 <= v.0 && v.0 <= v.1 && v.1 == a_s[i].1,
    ensures
        minus_walk(a_s, bs, i, j, ma).len() <= (a_s.len() - i) + (bs.len() - j),
        forall|k: int|
            0 <= k < minus_walk(a_s, bs, i, j, ma).len() ==> exists|p: int|
                i <= p < a_s.len() && within(#[trigger] minus_walk(a_s, bs, i, j, ma)[k], a_s[p]),
    decreases a_s.len() - i + bs.len() - j,
{
    let w = minus_walk(a_s, bs, i, j, ma);
    if i >= a_s.len() {
    } else if j >= bs.len() {
        assert forall|k: int| 0 <= k < w.len() implies exists|p: int|
            i <= p < a_s.len() && within(#[trigger] w[k], a_s[p]) by {
            match ma {
                Some(v) => {
                    if k == 0 {
                        assert(within(w[k], a_s[i]));
                    } else {
                        assert(w[k] == a_s[i + k]);
                        assert(within(w[k], a_s[i + k]));
                    }
                },
                None => {
                    assert(w[k] == a_s[i + k]);
                    assert(within(w[k], a_s[i + k]));
                },
            }
        }
    } else {
        let a = match ma {
            Some(v) => v,
            None => a_s[i],
        };
        let b = bs[j];
        assert(a_s[i].0 <= a.0 && a.1 == a_s[i].1);
        if a.0 < b.0 {
            if a.1 <= b.0 {
                lemma_minus_walk_within(a_s, bs, i + 1, j, None);
                let t = minus_walk(a_s, bs, i + 1, j, None);
                assert forall|k: int| 0 <= k < w.len() implies exists|p: int|
                    i <= p < a_s.len() && within(#[trigger] w[k], a_s[p]) by {
                    if k == 0 {
                        assert(within(a, a_s[i]));
                    } else {
                        assert(w[k] == t[k - 1]);
                    }
                }
            } else if a.1 <= b.1 {
                lemma_minus_walk_within(a_s, bs, i + 1, j, None);
                let t = minus_walk(a_s, bs, i + 1, j, None);
                assert forall|k: int| 0 <= k < w.len() implies exists|p: int|
                    i <= p < a_s.len() && within(#[trigger] w[k], a_s[p]) by {
                    if k == 0 {
                        assert(within((a.0, b.0), a_s[i]));
                    } else {
                        assert(w[k] == t[k - 1]);
                    }
                }
            } else {
                lemma_minus_walk_within(a_s, bs, i, j + 1, Some((b.1, a.1)));
                let t = minus_walk(a_s, bs, i, j + 1, Some((b.1, a.1)));
                assert forall|k: int| 0 <= k < w.len() implies exists|p: int|
                    i <= p < a_s.len() && within(#[trigger] w[k], a_s[p]) by {
                    if k == 0 {
                        assert(within((a.0, b.0), a_s[i]));
                    } else {
                        assert(w[k] == t[k - 1]);
                    }
                }
            }
        } else {
            if a.0 >= b.1 {
                lemma_minus_walk_within(a_s, bs, i, j + 1, ma);
            } else if a.1 <= b.1 {
                lemma_minus_walk_within(a_s, bs, i + 1, j, None);
            } else {
                assert(a_s[i].0 <= a.0 <= b.1) by {
                    assert(b.0 <= b.1);
                }
                lemma_minus_walk_within(a_s, bs, i, j + 1, Some((b.1, a.1)));
            }
        }
    }
}

/// Law: the set difference never invents points or splits beyond need — every
/// output interval lies within some query interval, and there are at most as
/// many output intervals as query and stored intervals together.
pub proof fn lemma_minus_seq_within(q: Seq<Iv>, b: Seq<Iv>)
    requires
        forall|k: int| 0 <= k < b.len() ==> iv_ok(#[trigger] b[k]),
    ensures
        minus_seq(q, b).len() <= q.len() + b.len(),
        forall|k: int|
            0 <= k < minus_seq(q, b).len() ==> exists|p: int|
                0 <= p < q.len() && within(#[trigger] minus_seq(q, b)[k], q[p]),
{
    lemma_minus_walk_within(q, b, 0, 0, None);
}

proof fn lemma_minus_walk_disjoint(a_s: Seq<Iv>, bs: Seq<Iv>, i: int, j: int)
    requires
        0 <= i <= a_s.len(),
        0 <= j <= bs.len(),
        forall|p: int| 0 <= p < a_s.len() ==> (#[trigger] a_s[p]).0 < a_s[p].1,
        forall|q: int| 0 <= q < bs.len() ==> (#[trigger] bs[q]).0 < bs[q].1,
        forall|p: int, q: int|
            0 <= p < a_s.len() && 0 <= q < bs.len() ==> !overlaps(
                #[trigger] a_s[p],
                #[trigger] bs[q],
            ),
    ensures
        minus_walk(a_s, bs, i, j, None) == a_s.skip(i),
    decreases a_s.len() - i + bs.len() - j,
{
    if i >= a_s.len() {
        assert(minus_walk(a_s, bs, i, j, None) =~= a_s.skip(i));
    } else if j >= bs.len() {
    } else {
        let a = a_s[i];
        let b = bs[j];
        assert(!overlaps(a, b));
        if a.0 < b.0 {
            assert(a.1 <= b.0) by {
                assert(clip(a, b).0 == b.0);
                assert(clip(a, b).1 <= clip(a, b).0);
                assert(b.1 > b.0);
            }
            lemma_minus_walk_disjoint(a_s, bs, i + 1, j);
            assert(seq![a] + a_s.skip(i + 1) =~= a_s.skip(i));
        } else {
            assert(a.0 >= b.1) by {
                assert(clip(a, b).0 == a.0);
                assert(clip(a, b).1 <= clip(a, b).0);
                assert(a.1 > a.0);
            }
            lemma_minus_walk_disjoint(a_s, bs, i, j + 1);
        }
    }
}

/// Law: subtracting a record that overlaps no query interval returns the
/// query unchanged, provided every interval on both sides is non-empty (an
/// empty stored interval inside a query interval splits it in two without
/// removing any point, and an empty query interval inside a stored one is
/// swallowed).
pub proof fn lemma_minus_seq_disjoint_identity(q: Seq<Iv>, b: Seq<Iv>)
    requires
        forall|p: int| 0 <= p < q.len() ==> (#[trigger] q[p]).0 < q[p].1,
        forall|k: int| 0 <= k < b.len() ==> (#[trigger] b[k]).0 < b[k].1,
        forall|p: int, k: int|
            0 <= p < q.len() && 0 <= k < b.len() ==> !overlaps(#[trigger] q[p], #[trigger] b[k]),
    ensures
        minus_seq(q, b) == q,
{
    lemma_minus_walk_disjoint(q, b, 0, 0);
    assert(q.skip(0) =~= q);
}

/// The raw overlap candidates of the two-pointer sweep, in emission order:
/// each clipped pair that is non-empty, advancing the query pointer when its
/// interval ends no later than the record's, else the record pointer.
pub open spec fn sweep_clips(a_s: Seq<Iv>, bs: Seq<Iv>, i: int, j: int) -> Seq<Iv>
    decreases a_s.len() - i + bs.len() - j,
    when 0 <= i <= a_s.len() && 0 <= j <= bs.len()
{
    if i >= a_s.len() || j >= bs.len() {
        Seq::empty()
    } else {
        let c = clip(a_s[i], bs[j]);
        (if c.0 < c.1 {
            seq![c]
        } else {
            Seq::<Iv>::empty()
        }) + (if a_s[i].1 <= bs[j].1 {
            sweep_clips(a_s, bs, i + 1, j)
        } else {
            sweep_clips(a_s, bs, i, j + 1)
        })
    }
}

/// The list store's intersection: the sweep's candidates, coalesced.
pub open spec fn list_intersection(a_s: Seq<Iv>, bs: Seq<Iv>) -> Seq<Iv> {
    coalesce(sweep_clips(a_s, bs, 0, 0))
}

/// A sequence's total length is at most one full 32-bit range per interval.
pub proof fn lemma_total_len_bound(s: Seq<Iv>)
    ensures
        0 <= total_len(s) <= s.len() * (u32::MAX as int),
    decreases s.len(),
{
    if s.len() > 0 {
        lemma_total_len_bound(s.drop_last());
    }
}

/// The matching intervals' total length is at most one full 32-bit range per
/// record entry.
pub proof fn lemma_matching_total_bound(r: Seq<IvP>, mask: u64, value: u64)
    ensures
        0 <= total_len(matching_intervals(r, mask, value)) <= r.len() * (u32::MAX as int),
    decreases r.len(),
{
    if r.len() > 0 {
        lemma_matching_total_bound(r.drop_last(), mask, value);
        let m = matching_intervals(r.drop_last(), mask, value);
        if payload_matches(r.last().2, mask, value) {
            assert(matching_intervals(r, mask, value) =~= m.push((r.last().0, r.last().1)));
            lemma_total_len_push(m, (r.last().0, r.last().1));
        } else {
            assert(matching_intervals(r, mask, value) =~= m);
        }
    }
}

/// Law: the set difference and the intersection of the same query against the
/// same record partition the query's points: together they reconstruct it,
/// and they share no point.
pub proof fn lemma_minus_reconstructs(q: Seq<Iv>, b: Seq<Iv>, m: Seq<Iv>, n: Seq<Iv>)
    requires
        forall|x: int| #[trigger] covered(m, x) <==> (covered(q, x) && !covered(b, x)),
        n == clip_pairs(q, b),
    ensures
        forall|x: int| #[trigger] covered(q, x) <==> (covered(m, x) || covered(n, x)),
        forall|x: int| !(#[trigger] covered(m, x) && covered(n, x)),
{
    assert forall|x: int| #[trigger]
        covered(q, x) <==> (covered(m, x) || covered(n, x)) by {
        lemma_clip_pairs_covered(q, b, x);
    }
    assert forall|x: int| !(#[trigger] covered(m, x) && covered(n, x)) by {
        lemma_clip_pairs_covered(q, b, x);
    }
}

} // verus!
