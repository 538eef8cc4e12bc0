//! A read-only, memory-mapped store of per-identifier interval sets. Stored
//! intervals of one record are required (of the data, not checked) to be
//! non-overlapping and sorted by start; queries rely on that for exactness.

use vstd::prelude::*;
use memmap::Mmap;
use crate::common::{
    mmap_seq, mmap_slice, mmap_len, slice_u32, u32_at, OffsetIndex, parse_offsets, parse_ok,
    parse_map, index_within, Id,
};
use crate::intervals::{
    Iv, covers, covered, sorted_disjoint, clip, overlaps, total_len, clip_pairs, row_clips,
    pair_sum, lemma_covered_push, lemma_covered_take_succ, lemma_row_clips_take_succ,
    lemma_row_clips_take_stable, lemma_clip_pairs_take_succ, lemma_clip_pairs_take_stable,
    lemma_clip_pairs_covered, lemma_clip_pairs_total, lemma_total_len_push,
    lemma_total_len_nonneg, lemma_total_len_take_succ, lemma_total_len_prefix_bound,
    lemma_sorted_disjoint_total_len, lemma_sorted_disjoint_push, minus_seq, minus_walk,
};
use crate::StoreError;

verus! {

/// The intervals of a set-store record laid out at byte `base`: `cnt` entries
/// of two little-endian `u32` fields each.
pub open spec fn record_ivs(s: Seq<u8>, base: int, cnt: int) -> Seq<Iv> {
    Seq::new(
        cnt as nat,
        |k: int| (u32_at(s, base + 8 * k), u32_at(s, base + 8 * k + 4)),
    )
}

/// One interval entry read from the mapping.
fn read_iv(m: &Mmap, base: usize, k: usize) -> (r: Iv)
    requires
        base + (k + 1) * 8 <= mmap_seq(*m).len(),
    ensures
        r == (u32_at(mmap_seq(*m), base + 8 * (k as int)), u32_at(
            mmap_seq(*m),
            base + 8 * (k as int) + 4,
        )),
{
    let s = mmap_slice(m);
    let _slen = s.len();
    let off = base + k * 8;
    (slice_u32(s, off), slice_u32(s, off + 4))
}

/// All interval entries of one record, in stored order.
fn read_record(m: &Mmap, base: usize, cnt: usize) -> (r: Vec<Iv>)
    requires
        base + cnt * 8 <= mmap_seq(*m).len(),
    ensures
        r@ == record_ivs(mmap_seq(*m), base as int, cnt as int),
{
    let ghost target = record_ivs(mmap_seq(*m), base as int, cnt as int);
    let mut out: Vec<Iv> = Vec::new();
    let mut k: usize = 0;
    while k < cnt
        invariant
            k <= cnt,
            base + cnt * 8 <= mmap_seq(*m).len(),
            target == record_ivs(mmap_seq(*m), base as int, cnt as int),
            out@ == target.take(k as int),
        decreases cnt - k,
    {
        let iv = read_iv(m, base, k);
        out.push(iv);
        proof {
            assert(out@ =~= target.take(k + 1));
        }
        k = k + 1;
    }
    proof {
        assert(target.take(cnt as int) =~= target);
    }
    out
}

/// A mapping from identifiers to sets of non-overlapping intervals, backed by
/// a read-only memory mapping. A zero-length backing (no mapping at all) is a
/// valid empty store.
pub struct MmapIntervalSetMapping {
    data: Option<Mmap>,
    index: OffsetIndex,
}

impl MmapIntervalSetMapping {
    /// The bytes backing the store; empty when no file is mapped.
    pub closed spec fn data_seq(self) -> Seq<u8> {
        match self.data {
            Some(m) => mmap_seq(m),
            None => Seq::empty(),
        }
    }

    /// The identifiers the store indexes.
    pub closed spec fn id_set(self) -> Set<Id> {
        self.index@.dom()
    }

    pub open spec fn has_spec(self, id: Id) -> bool {
        self.id_set().contains(id)
    }

    /// The indexed identifiers in index order; `get_ids` returns exactly this
    /// sequence, which lists `id_set()` without duplicates.
    pub closed spec fn id_seq(self) -> Seq<Id> {
        self.index.id_seq()
    }

    /// The intervals stored for `id` (meaningful when `has_spec(id)`).
    pub closed spec fn ivs(self, id: Id) -> Seq<Iv> {
        record_ivs(self.data_seq(), self.index@[id].0 as int, self.index@[id].1 as int)
    }

    /// The stored record for `id` is sorted and non-overlapping, as the format
    /// demands of set stores. Queries rely on the data meeting it.
    pub open spec fn record_wf(self, id: Id) -> bool {
        self.has_spec(id) ==> sorted_disjoint(self.ivs(id))
    }

    /// Total stored length over the listed identifiers, in order.
    pub open spec fn records_total(self, ids: Seq<Id>) -> int
        decreases ids.len(),
    {
        if ids.len() == 0 {
            0
        } else {
            self.records_total(ids.drop_last()) + total_len(self.ivs(ids.last()))
        }
    }

    /// Total stored length across all identifiers: what `sum` returns.
    pub open spec fn total_spec(self) -> int {
        self.records_total(self.id_seq())
    }

    #[verifier::type_invariant]
    spec fn inv(self) -> bool {
        &&& index_within(self.index@, 0, self.data_seq().len() as int)
        &&& self.data_seq().len() <= usize::MAX
        &&& self.data is None ==> self.index@.dom() =~= Set::<Id>::empty()
    }

    /// Open a store over an optional mapping: `None` stands for a zero-length
    /// file and yields the empty store. A mapped length that is not a multiple
    /// of four, or a record scan that does not consume the bytes exactly, is a
    /// format error.
    pub fn new(data: Option<Mmap>) -> (r: Result<Self, StoreError>)
        ensures
            ({
                let sq = match data {
                    Some(m) => mmap_seq(m),
                    None => Seq::<u8>::empty(),
                };
                match r {
                    Ok(s) => {
                        &&& sq.len() % 4 == 0
                        &&& parse_ok(sq, 0)
                        &&& s.data_seq() == sq
                        &&& s.id_set() == parse_map(sq, 0).dom()
                        &&& data is None ==> s.id_set() == Set::<Id>::empty()
                        &&& forall|id: Id|
                            s.has_spec(id) ==> s.ivs(id) == record_ivs(
                                sq,
                                parse_map(sq, 0)[id].0 as int,
                                parse_map(sq, 0)[id].1 as int,
                            )
                    },
                    Err(e) => {
                        &&& e == StoreError::Format
                        &&& !(sq.len() % 4 == 0 && parse_ok(sq, 0))
                    },
                }
            }),
    {
        match data {
            None => {
                let s = MmapIntervalSetMapping { data: None, index: OffsetIndex::empty() };
                proof {
                    assert(s.data_seq() =~= Seq::<u8>::empty());
                    assert(parse_ok_empty());
                    assert(s.id_set() =~= parse_map(Seq::<u8>::empty(), 0).dom());
                }
                Ok(s)
            },
            Some(m) => {
                let len = mmap_len(&m);
                if len % 4 != 0 {
                    return Err(StoreError::Format);
                }
                match parse_offsets(&m, 0) {
                    Some(ix) => {
                        let s = MmapIntervalSetMapping { data: Some(m), index: ix };
                        Ok(s)
                    },
                    None => Err(StoreError::Format),
                }
            },
        }
    }

    /// Number of identifiers indexed.
    pub fn len(&self) -> (r: usize)
        ensures
            r == self.id_set().len(),
    {
        self.index.len()
    }

    /// The indexed identifiers; their order carries no meaning.
    pub fn get_ids(&self) -> (r: Vec<Id>)
        ensures
            r@ == self.id_seq(),
            r@.to_set() == self.id_set(),
            r@.no_duplicates(),
            r@.len() == self.id_set().len(),
    {
        self.index.id_list()
    }

    /// Membership test for an identifier.
    pub fn has_id(&self, id: Id) -> (r: bool)
        ensures
            r == self.has_spec(id),
    {
        self.index.contains(id)
    }

    /// Number of intervals stored for `id`.
    pub fn get_interval_count(&self, id: Id) -> (r: Result<usize, StoreError>)
        ensures
            match r {
                Ok(c) => self.has_spec(id) && c == self.ivs(id).len(),
                Err(e) => !self.has_spec(id) && e == StoreError::NotFound,
            },
    {
        match self.index.get(id) {
            Some((_base, cnt)) => Ok(cnt),
            None => Err(StoreError::NotFound),
        }
    }

    /// The `idx`-th interval stored for `id`.
    pub fn get_interval(&self, id: Id, idx: usize) -> (r: Result<Iv, StoreError>)
        ensures
            match r {
                Ok(iv) => self.has_spec(id) && idx < self.ivs(id).len() && iv == self.ivs(
                    id,
                )[idx as int],
                Err(StoreError::NotFound) => !self.has_spec(id),
                Err(StoreError::OutOfRange) => self.has_spec(id) && idx >= self.ivs(id).len(),
                Err(_) => false,
            },
    {
        proof {
            use_type_invariant(&*self);
        }
        match (self.index.get(id), &self.data) {
            (Some((base, cnt)), Some(m)) => {
                if idx >= cnt {
                    return Err(StoreError::OutOfRange);
                }
                proof {
                    assert(self.index@.dom().contains(id));
                    assert(self.data_seq() == mmap_seq(*m));
                    assert(base + cnt * (8 + 0) <= self.data_seq().len() as int);
                    assert((idx as int + 1) * 8 <= (cnt as int) * (8 + 0)) by (nonlinear_arith)
                        requires
                            (idx as int) < (cnt as int),
                    ;
                    assert(base + (idx + 1) * 8 <= mmap_seq(*m).len());
                }
                Ok(read_iv(m, base, idx))
            },
            (Some((_base, _cnt)), None) => {
                proof {
                    assert(self.index@.dom().contains(id));
                    assert(false);
                }
                Err(StoreError::NotFound)
            },
            (None, _) => Err(StoreError::NotFound),
        }
    }

    /// All intervals stored for `id`, in stored order. An absent identifier
    /// yields the empty list when `use_default` is set, otherwise an error.
    pub fn get_intervals(&self, id: Id, use_default: bool) -> (r: Result<Vec<Iv>, StoreError>)
        ensures
            match r {
                Ok(v) => if self.has_spec(id) {
                    v@ == self.ivs(id)
                } else {
                    use_default && v@ == Seq::<Iv>::empty()
                },
                Err(e) => !self.has_spec(id) && !use_default && e == StoreError::NotFound,
            },
    {
        proof {
            use_type_invariant(&*self);
        }
        match (self.index.get(id), &self.data) {
            (Some((base, cnt)), Some(m)) => Ok(read_record(m, base, cnt)),
            (Some((_base, _cnt)), None) => {
                proof {
                    assert(self.index@.dom().contains(id));
                    assert(false);
                }
                Err(StoreError::NotFound)
            },
            (None, _) => {
                if use_default {
                    Ok(Vec::new())
                } else {
                    Err(StoreError::NotFound)
                }
            },
        }
    }

    /// Total summed interval length across all identifiers. The caller owes
    /// the overflow bound; `lemma_records_total_bound` discharges it from a
    /// per-record cap, which `lemma_sorted_disjoint_total_len` (or
    /// `lemma_total_len_bound`) supplies.
    pub fn sum(&self) -> (r: u64)
        requires
            self.total_spec() <= u64::MAX,
        ensures
            r == self.total_spec(),
    {
        proof {
            use_type_invariant(&*self);
        }
        let ids = self.index.id_list();
        let ghost idseq = self.index.id_seq();
        let mut acc: u64 = 0;
        let mut p: usize = 0;
        while p < ids.len()
            invariant
                self.total_spec() <= u64::MAX,
                self.inv(),
                ids@ == idseq,
                idseq == self.index.id_seq(),
                ids@.to_set() == self.index@.dom(),
                p <= ids@.len(),
                acc == self.records_total(idseq.take(p as int)),
            decreases ids@.len() - p,
        {
            let id = ids[p];
            proof {
                assert(ids@.contains(idseq[p as int]));
                assert(ids@.to_set().contains(id));
                self.lemma_records_total_take_succ(idseq, p as int);
                self.lemma_records_total_prefix_bound(idseq, p as int + 1);
                lemma_total_len_nonneg(self.ivs(id));
            }
            match (self.index.get(id), &self.data) {
                (Some((base, cnt)), Some(m)) => {
                    let ghost rec = self.ivs(id);
                    proof {
                        assert(self.index@.dom().contains(id));
                        assert(base + cnt * 8 <= mmap_seq(*m).len());
                        assert(rec.len() == cnt as int);
                    }
                    let mut k: usize = 0;
                    let mut inner: u64 = 0;
                    while k < cnt
                        invariant
                            self.total_spec() <= u64::MAX,
                            acc == self.records_total(idseq.take(p as int)),
                            acc + total_len(rec) <= u64::MAX,
                            k <= cnt,
                            rec == self.ivs(id),
                            rec.len() == cnt as int,
                            self.data == Some(*m),
                            base + cnt * 8 <= mmap_seq(*m).len(),
                            rec == record_ivs(mmap_seq(*m), base as int, cnt as int),
                            inner == total_len(rec.take(k as int)),
                        decreases cnt - k,
                    {
                        let iv = read_iv(m, base, k);
                        proof {
                            assert(iv == rec[k as int]);
                            lemma_total_len_take_succ(rec, k as int);
                            lemma_total_len_prefix_bound(rec, k as int + 1);
                            lemma_total_len_nonneg(rec.take(k as int));
                        }
                        let d: u64 = if iv.1 >= iv.0 {
                            ((iv.1 - iv.0) as u64)
                        } else {
                            0
                        };
                        inner = inner + d;
                        k = k + 1;
                    }
                    proof {
                        assert(rec.take(cnt as int) =~= rec);
                    }
                    acc = acc + inner;
                },
                (Some((_base, _cnt)), None) => {
                    proof {
                        assert(self.index@.dom().contains(id));
                        assert(false);
                    }
                },
                (None, _) => {
                    proof {
                        assert(false);
                    }
                },
            }
            proof {
                assert(acc == self.records_total(idseq.take(p as int + 1)));
            }
            p = p + 1;
        }
        proof {
            assert(idseq.take(idseq.len() as int) =~= idseq);
        }
        acc
    }

    proof fn lemma_records_total_take_succ(self, ids: Seq<Id>, p: int)
        requires
            0 <= p < ids.len(),
        ensures
            self.records_total(ids.take(p + 1)) == self.records_total(ids.take(p)) + total_len(
                self.ivs(ids[p]),
            ),
    {
        let t = ids.take(p + 1);
        assert(t.drop_last() =~= ids.take(p));
        assert(t.last() == ids[p]);
    }

    proof fn lemma_records_total_prefix_bound(self, ids: Seq<Id>, p: int)
        requires
            0 <= p <= ids.len(),
        ensures
            self.records_total(ids.take(p)) <= self.records_total(ids),
        decreases ids.len() - p,
    {
        if p == ids.len() {
            assert(ids.take(p) =~= ids);
        } else {
            self.lemma_records_total_take_succ(ids, p);
            lemma_total_len_nonneg(self.ivs(ids[p]));
            self.lemma_records_total_prefix_bound(ids, p + 1);
        }
    }

    /// A caller-side bound for `sum`'s overflow precondition: the total over
    /// any identifier list stays within `cap` per listed record. A per-record
    /// cap comes from `lemma_total_len_bound` (one 32-bit range per interval)
    /// or, for sorted non-overlapping records, from
    /// `lemma_sorted_disjoint_total_len` (one 32-bit range in all).
    pub proof fn lemma_records_total_bound(self, ids: Seq<Id>, cap: int)
        requires
            cap >= 0,
            forall|k: int| 0 <= k < ids.len() ==> total_len(self.ivs(#[trigger] ids[k])) <= cap,
        ensures
            0 <= self.records_total(ids) <= ids.len() * cap,
        decreases ids.len(),
    {
        if ids.len() > 0 {
            let d = ids.drop_last();
            assert(forall|k: int| 0 <= k < d.len() ==> total_len(self.ivs(#[trigger] d[k]))
                <= cap) by {
                assert(forall|k: int| 0 <= k < d.len() ==> d[k] == ids[k]);
            }
            self.lemma_records_total_bound(d, cap);
            assert(ids.last() == ids[ids.len() - 1]);
            lemma_total_len_nonneg(self.ivs(ids.last()));
            assert((ids.len() - 1) * cap + cap == ids.len() * cap) by (nonlinear_arith);
        }
    }
}

proof fn lemma_entry_bound(k: int, cnt: int)
    requires
        0 <= k < cnt,
    ensures
        (k + 1) * 8 <= cnt * (8 + 0),
{
    assert((k + 1) * 8 <= cnt * (8 + 0)) by (nonlinear_arith)
        requires
            0 <= k < cnt,
    ;
}

/// Binary search over one record's sorted, non-overlapping intervals. Exact
/// mode finds an interval containing `target`; fuzzy mode finds the first
/// interval ending after `target` (the lower bound an intersection scan
/// starts from), or nothing if every interval ends at or before it.
fn binary_search(m: &Mmap, base: usize, n: usize, target: u32, fuzzy: bool) -> (r: Option<usize>)
    requires
        base + n * (8 + 0) <= mmap_seq(*m).len(),
        sorted_disjoint(record_ivs(mmap_seq(*m), base as int, n as int)),
    ensures
        ({
            let ivs = record_ivs(mmap_seq(*m), base as int, n as int);
            &&& !fuzzy ==> match r {
                Some(k) => k < n && covers(ivs[k as int], target as int),
                None => !covered(ivs, target as int),
            }
            &&& fuzzy ==> match r {
                Some(k) => k < n && target < ivs[k as int].1 && (forall|j: int|
                    0 <= j < k ==> (#[trigger] ivs[j]).1 <= target),
                None => forall|j: int| 0 <= j < n ==> (#[trigger] ivs[j]).1 <= target,
            }
        }),
{
    let ghost ivs = record_ivs(mmap_seq(*m), base as int, n as int);
    let mut lo: usize = 0;
    let mut hi: usize = n;
    while lo < hi
        invariant
            lo <= hi <= n,
            base + n * (8 + 0) <= mmap_seq(*m).len(),
            ivs == record_ivs(mmap_seq(*m), base as int, n as int),
            sorted_disjoint(ivs),
            forall|j: int| 0 <= j < lo ==> (#[trigger] ivs[j]).1 <= target,
            forall|j: int| hi <= j < n ==> target < (#[trigger] ivs[j]).0,
        decreases hi - lo,
    {
        let pivot = lo + (hi - lo) / 2;
        proof {
            lemma_entry_bound(pivot as int, n as int);
        }
        let iv = read_iv(m, base, pivot);
        proof {
            assert(iv == ivs[pivot as int]);
        }
        if target >= iv.0 && target < iv.1 {
            proof {
                assert forall|j: int| 0 <= j < pivot implies (#[trigger] ivs[j]).1 <= target by {
                    assert(ivs[j].1 <= ivs[pivot as int].0);
                }
            }
            return Some(pivot);
        } else if target < iv.0 {
            proof {
                assert forall|j: int| pivot <= j < n implies target < (#[trigger] ivs[j]).0 by {
                    if j > pivot {
                        assert(ivs[pivot as int].1 <= ivs[j].0);
                        assert(ivs[pivot as int].0 <= ivs[pivot as int].1);
                    }
                }
            }
            hi = pivot;
        } else {
            proof {
                assert(target >= iv.1);
                assert forall|j: int| 0 <= j < pivot + 1 implies (#[trigger] ivs[j]).1 <= target by {
                    if j < pivot {
                        assert(ivs[j].1 <= ivs[pivot as int].0);
                        assert(ivs[pivot as int].0 <= ivs[pivot as int].1);
                    }
                }
            }
            lo = pivot + 1;
        }
    }
    if fuzzy && lo != n {
        proof {
            assert(target < ivs[lo as int].0);
            assert(ivs[lo as int].0 <= ivs[lo as int].1);
        }
        Some(lo)
    } else {
        proof {
            if !fuzzy {
                assert forall|k: int| 0 <= k < n implies !covers(#[trigger] ivs[k], target as int) by {
                    if k < lo {
                        assert(ivs[k].1 <= target);
                    } else {
                        assert(target < ivs[k].0);
                    }
                }
                assert(!covered(ivs, target as int));
            }
        }
        None
    }
}

impl MmapIntervalSetMapping {
    /// Whether some stored interval of `id` contains `target`. Exact: relies
    /// on the record being sorted and non-overlapping.
    pub fn is_contained(&self, id: Id, target: u32, use_default: bool) -> (r: Result<
        bool,
        StoreError,
    >)
        requires
            self.record_wf(id),
        ensures
            match r {
                Ok(b) => if self.has_spec(id) {
                    b == covered(self.ivs(id), target as int)
                } else {
                    use_default && b == false
                },
                Err(e) => !self.has_spec(id) && !use_default && e == StoreError::NotFound,
            },
    {
        proof {
            use_type_invariant(&*self);
        }
        match (self.index.get(id), &self.data) {
            (Some((base, cnt)), Some(m)) => {
                proof {
                    assert(self.index@.dom().contains(id));
                    assert(self.data_seq() == mmap_seq(*m));
                }
                Ok(binary_search(m, base, cnt, target, false).is_some())
            },
            (Some((_base, _cnt)), None) => {
                proof {
                    assert(self.index@.dom().contains(id));
                    assert(false);
                }
                Err(StoreError::NotFound)
            },
            (None, _) => {
                if use_default {
                    Ok(false)
                } else {
                    Err(StoreError::NotFound)
                }
            },
        }
    }

    /// Whether `[start, end)` overlaps any stored interval of `id`. Exact:
    /// true exactly when some stored interval shares a point with the range.
    pub fn has_intersection(&self, id: Id, start: u32, end: u32, use_default: bool) -> (r: Result<
        bool,
        StoreError,
    >)
        requires
            self.record_wf(id),
        ensures
            match r {
                Ok(b) => if self.has_spec(id) {
                    b == exists|k: int|
                        0 <= k < self.ivs(id).len() && overlaps(
                            #[trigger] self.ivs(id)[k],
                            (start, end),
                        )
                } else {
                    use_default && b == false
                },
                Err(e) => !self.has_spec(id) && !use_default && e == StoreError::NotFound,
            },
    {
        proof {
            use_type_invariant(&*self);
        }
        match (self.index.get(id), &self.data) {
            (Some((base, cnt)), Some(m)) => {
                let ghost ivs = self.ivs(id);
                proof {
                    assert(self.index@.dom().contains(id));
                    assert(self.data_seq() == mmap_seq(*m));
                    assert(ivs == record_ivs(mmap_seq(*m), base as int, cnt as int));
                }
                match binary_search(m, base, cnt, start, true) {
                    Some(min_idx) => {
                        let mut i = min_idx;
                        let mut isects = false;
                        while i < cnt
                            invariant
                                min_idx <= i <= cnt,
                                !isects,
                                self.has_spec(id),
                                ivs == self.ivs(id),
                                ivs.len() == cnt as int,
                                base + cnt * (8 + 0) <= mmap_seq(*m).len(),
                                ivs == record_ivs(mmap_seq(*m), base as int, cnt as int),
                                sorted_disjoint(ivs),
                                forall|k: int|
                                    0 <= k < i ==> !overlaps(#[trigger] ivs[k], (start, end)),
                            decreases cnt - i,
                        {
                            proof {
                                lemma_entry_bound(i as int, cnt as int);
                            }
                            let iv = read_iv(m, base, i);
                            proof {
                                assert(iv == ivs[i as int]);
                            }
                            let lo = if start >= iv.0 {
                                start
                            } else {
                                iv.0
                            };
                            let hi = if end <= iv.1 {
                                end
                            } else {
                                iv.1
                            };
                            if hi > lo {
                                proof {
                                    assert(overlaps(ivs[i as int], (start, end)));
                                }
                                return Ok(true);
                            }
                            if iv.0 > end {
                                proof {
                                    assert forall|k: int| 0 <= k < cnt implies !overlaps(
                                        #[trigger] ivs[k],
                                        (start, end),
                                    ) by {
                                        if k >= i {
                                            if k > i {
                                                assert(ivs[i as int].1 <= ivs[k].0);
                                                assert(ivs[i as int].0 <= ivs[i as int].1);
                                            }
                                            assert(ivs[k].0 >= iv.0);
                                            assert(clip(ivs[k], (start, end)).1 <= end);
                                        }
                                    }
                                }
                                return Ok(false);
                            }
                            i = i + 1;
                        }
                        proof {
                            assert forall|k: int| 0 <= k < cnt implies !overlaps(
                                #[trigger] ivs[k],
                                (start, end),
                            ) by {}
                        }
                        Ok(false)
                    },
                    None => {
                        proof {
                            assert forall|k: int| 0 <= k < cnt implies !overlaps(
                                #[trigger] ivs[k],
                                (start, end),
                            ) by {
                                assert(ivs[k].1 <= start);
                            }
                        }
                        Ok(false)
                    },
                }
            },
            (Some((_base, _cnt)), None) => {
                proof {
                    assert(self.index@.dom().contains(id));
                    assert(false);
                }
                Err(StoreError::NotFound)
            },
            (None, _) => {
                if use_default {
                    Ok(false)
                } else {
                    Err(StoreError::NotFound)
                }
            },
        }
    }
}

impl MmapIntervalSetMapping {
    /// Intersect a sorted, non-overlapping query sequence with the record of
    /// `id`: exactly the clipped pairwise overlaps, in order. No coalescing is
    /// needed, because stored intervals are non-overlapping.
    pub fn intersect(&self, id: Id, intervals: Vec<Iv>, use_default: bool) -> (r: Result<
        Vec<Iv>,
        StoreError,
    >)
        requires
            sorted_disjoint(intervals@),
            self.record_wf(id),
        ensures
            match r {
                Ok(v) => if self.has_spec(id) {
                    &&& v@ == clip_pairs(intervals@, self.ivs(id))
                    &&& sorted_disjoint(v@)
                    &&& forall|x: int|
                        #[trigger] covered(v@, x) <==> (covered(intervals@, x) && covered(
                            self.ivs(id),
                            x,
                        ))
                } else {
                    use_default && v@ == Seq::<Iv>::empty()
                },
                Err(e) => !self.has_spec(id) && !use_default && e == StoreError::NotFound,
            },
    {
        proof {
            use_type_invariant(&*self);
        }
        match (self.index.get(id), &self.data) {
            (Some((base, cnt)), Some(m)) => {
                let ghost a_s = intervals@;
                let ghost bs = self.ivs(id);
                proof {
                    assert(self.index@.dom().contains(id));
                    assert(self.data_seq() == mmap_seq(*m));
                    assert(bs == record_ivs(mmap_seq(*m), base as int, cnt as int));
                }
                let alen = intervals.len();
                let mut res: Vec<Iv> = Vec::new();
                let mut i: usize = 0;
                let mut j: usize = 0;
                while i < alen && j < cnt
                    invariant
                        i <= alen,
                        j <= cnt,
                        alen == a_s.len(),
                        a_s == intervals@,
                        self.has_spec(id),
                        bs == self.ivs(id),
                        bs.len() == cnt as int,
                        sorted_disjoint(a_s),
                        sorted_disjoint(bs),
                        base + cnt * (8 + 0) <= mmap_seq(*m).len(),
                        bs == record_ivs(mmap_seq(*m), base as int, cnt as int),
                        i < alen ==> res@ == clip_pairs(a_s.take(i as int), bs) + row_clips(
                            a_s[i as int],
                            bs.take(j as int),
                        ),
                        i == alen ==> res@ == clip_pairs(a_s, bs),
                        forall|p: int, q: int|
                            i < p < a_s.len() && 0 <= q < j ==> !overlaps(
                                #[trigger] a_s[p],
                                #[trigger] bs[q],
                            ),
                        sorted_disjoint(res@),
                        res@.len() > 0 && i < alen && j < cnt ==> (res@.last().1
                            <= a_s[i as int].0 || res@.last().1 <= bs[j as int].0),
                    decreases alen - i + cnt - j,
                {
                    let a = intervals[i];
                    proof {
                        lemma_entry_bound(j as int, cnt as int);
                    }
                    let b = read_iv(m, base, j);
                    proof {
                        assert(b == bs[j as int]);
                    }
                    let st = if a.0 >= b.0 {
                        a.0
                    } else {
                        b.0
                    };
                    let en = if a.1 <= b.1 {
                        a.1
                    } else {
                        b.1
                    };
                    let ghost c = clip(a, b);
                    let ghost old_res = res@;
                    proof {
                        assert(c == (st, en));
                        lemma_row_clips_take_succ(a_s[i as int], bs, j as int);
                    }
                    if en > st {
                        proof {
                            lemma_sorted_disjoint_push(res@, c);
                        }
                        res.push((st, en));
                        proof {
                            assert(res@ =~= clip_pairs(a_s.take(i as int), bs) + row_clips(
                                a_s[i as int],
                                bs.take(j as int + 1),
                            ));
                        }
                    } else {
                        proof {
                            assert(!overlaps(a_s[i as int], bs[j as int]));
                            assert(res@ =~= clip_pairs(a_s.take(i as int), bs) + row_clips(
                                a_s[i as int],
                                bs.take(j as int + 1),
                            ));
                        }
                    }
                    if a.1 <= b.1 {
                        proof {
                            assert forall|k: int| j as int + 1 <= k < bs.len() implies !overlaps(
                                a_s[i as int],
                                #[trigger] bs[k],
                            ) by {
                                assert(bs[j as int].1 <= bs[k].0);
                            }
                            lemma_row_clips_take_stable(a_s[i as int], bs, j as int + 1);
                            lemma_clip_pairs_take_succ(a_s, bs, i as int);
                            if i as int + 1 < a_s.len() {
                                assert forall|k: int| 0 <= k < j as int implies !overlaps(
                                    a_s[i as int + 1],
                                    #[trigger] bs.take(j as int)[k],
                                ) by {
                                    assert(bs.take(j as int)[k] == bs[k]);
                                }
                                lemma_row_clips_take_stable(
                                    a_s[i as int + 1],
                                    bs.take(j as int),
                                    0,
                                );
                                assert(bs.take(j as int).take(0) =~= Seq::<Iv>::empty());
                                assert(res@ == clip_pairs(a_s.take(i as int + 1), bs) + row_clips(
                                    a_s[i as int + 1],
                                    bs.take(j as int),
                                ));
                            } else {
                                assert(a_s.take(i as int + 1) =~= a_s);
                            }
                            if res@.len() > 0 && i as int + 1 < a_s.len() {
                                assert(a_s[i as int].1 <= a_s[i as int + 1].0);
                                assert(a_s[i as int].0 <= a_s[i as int].1);
                            }
                        }
                        i = i + 1;
                    } else {
                        proof {
                            assert forall|p: int| (i as int) < p < a_s.len() implies !overlaps(
                                #[trigger] a_s[p],
                                bs[j as int],
                            ) by {
                                assert(a_s[i as int].1 <= a_s[p].0);
                            }
                            if res@.len() > 0 && j as int + 1 < bs.len() {
                                assert(bs[j as int].1 <= bs[j as int + 1].0);
                                assert(bs[j as int].0 <= bs[j as int].1);
                            }
                        }
                        j = j + 1;
                    }
                }
                proof {
                    if i < alen {
                        assert(j == cnt);
                        assert(bs.take(j as int) =~= bs);
                        assert forall|p: int|
                            i as int + 1 <= p < a_s.len() implies row_clips(#[trigger] a_s[p], bs)
                            == Seq::<Iv>::empty() by {
                            assert forall|k: int| 0 <= k < bs.len() implies !overlaps(
                                a_s[p],
                                #[trigger] bs[k],
                            ) by {}
                            lemma_row_clips_take_stable(a_s[p], bs, 0);
                            assert(bs.take(0) =~= Seq::<Iv>::empty());
                        }
                        lemma_clip_pairs_take_stable(a_s, bs, i as int + 1);
                        lemma_clip_pairs_take_succ(a_s, bs, i as int);
                        assert(res@ == clip_pairs(a_s, bs));
                    }
                    assert forall|x: int| #[trigger]
                        covered(res@, x) <==> (covered(a_s, x) && covered(bs, x)) by {
                        lemma_clip_pairs_covered(a_s, bs, x);
                    }
                }
                Ok(res)
            },
            (Some((_base, _cnt)), None) => {
                proof {
                    assert(self.index@.dom().contains(id));
                    assert(false);
                }
                Err(StoreError::NotFound)
            },
            (None, _) => {
                if use_default {
                    Ok(Vec::new())
                } else {
                    Err(StoreError::NotFound)
                }
            },
        }
    }

    /// Sum of the overlap lengths between a sorted, non-overlapping query
    /// sequence and the record of `id`: the total length of what `intersect`
    /// returns, equally the summed pairwise overlap.
    pub fn intersect_sum(&self, id: Id, intervals: &Vec<Iv>, use_default: bool) -> (r: Result<
        usize,
        StoreError,
    >)
        requires
            sorted_disjoint(intervals@),
            self.record_wf(id),
        ensures
            match r {
                Ok(s) => if self.has_spec(id) {
                    &&& s == total_len(clip_pairs(intervals@, self.ivs(id)))
                    &&& s == pair_sum(intervals@, self.ivs(id))
                } else {
                    use_default && s == 0
                },
                Err(e) => !self.has_spec(id) && !use_default && e == StoreError::NotFound,
            },
    {
        proof {
            use_type_invariant(&*self);
        }
        match (self.index.get(id), &self.data) {
            (Some((base, cnt)), Some(m)) => {
                let ghost a_s = intervals@;
                let ghost bs = self.ivs(id);
                proof {
                    assert(self.index@.dom().contains(id));
                    assert(self.data_seq() == mmap_seq(*m));
                    assert(bs == record_ivs(mmap_seq(*m), base as int, cnt as int));
                }
                let alen = intervals.len();
                let mut acc: usize = 0;
                let ghost mut pieces = Seq::<Iv>::empty();
                let mut i: usize = 0;
                let mut j: usize = 0;
                while i < alen && j < cnt
                    invariant
                        i <= alen,
                        j <= cnt,
                        alen == a_s.len(),
                        a_s == intervals@,
                        self.has_spec(id),
                        bs == self.ivs(id),
                        bs.len() == cnt as int,
                        sorted_disjoint(a_s),
                        sorted_disjoint(bs),
                        base + cnt * (8 + 0) <= mmap_seq(*m).len(),
                        bs == record_ivs(mmap_seq(*m), base as int, cnt as int),
                        i < alen ==> pieces == clip_pairs(a_s.take(i as int), bs) + row_clips(
                            a_s[i as int],
                            bs.take(j as int),
                        ),
                        i == alen ==> pieces == clip_pairs(a_s, bs),
                        forall|p: int, q: int|
                            i < p < a_s.len() && 0 <= q < j ==> !overlaps(
                                #[trigger] a_s[p],
                                #[trigger] bs[q],
                            ),
                        sorted_disjoint(pieces),
                        pieces.len() > 0 && i < alen && j < cnt ==> (pieces.last().1
                            <= a_s[i as int].0 || pieces.last().1 <= bs[j as int].0),
                        acc == total_len(pieces),
                    decreases alen - i + cnt - j,
                {
                    let a = intervals[i];
                    proof {
                        lemma_entry_bound(j as int, cnt as int);
                    }
                    let b = read_iv(m, base, j);
                    proof {
                        assert(b == bs[j as int]);
                    }
                    let st = if a.0 >= b.0 {
                        a.0
                    } else {
                        b.0
                    };
                    let en = if a.1 <= b.1 {
                        a.1
                    } else {
                        b.1
                    };
                    let ghost c = clip(a, b);
                    proof {
                        assert(c == (st, en));
                        lemma_row_clips_take_succ(a_s[i as int], bs, j as int);
                    }
                    if en > st {
                        proof {
                            lemma_sorted_disjoint_push(pieces, c);
                            lemma_total_len_push(pieces, c);
                            lemma_sorted_disjoint_total_len(pieces.push(c));
                            lemma_total_len_nonneg(pieces);
                        }
                        acc = acc + ((en - st) as usize);
                        proof {
                            pieces = pieces.push(c);
                            assert(pieces =~= clip_pairs(a_s.take(i as int), bs) + row_clips(
                                a_s[i as int],
                                bs.take(j as int + 1),
                            ));
                        }
                    } else {
                        proof {
                            assert(!overlaps(a_s[i as int], bs[j as int]));
                            assert(pieces =~= clip_pairs(a_s.take(i as int), bs) + row_clips(
                                a_s[i as int],
                                bs.take(j as int + 1),
                            ));
                        }
                    }
                    if a.1 <= b.1 {
                        proof {
                            assert forall|k: int| j as int + 1 <= k < bs.len() implies !overlaps(
                                a_s[i as int],
                                #[trigger] bs[k],
                            ) by {
                                assert(bs[j as int].1 <= bs[k].0);
                            }
                            lemma_row_clips_take_stable(a_s[i as int], bs, j as int + 1);
                            lemma_clip_pairs_take_succ(a_s, bs, i as int);
                            if i as int + 1 < a_s.len() {
                                assert forall|k: int| 0 <= k < j as int implies !overlaps(
                                    a_s[i as int + 1],
                                    #[trigger] bs.take(j as int)[k],
                                ) by {
                                    assert(bs.take(j as int)[k] == bs[k]);
                                }
                                lemma_row_clips_take_stable(
                                    a_s[i as int + 1],
                                    bs.take(j as int),
                                    0,
                                );
                                assert(bs.take(j as int).take(0) =~= Seq::<Iv>::empty());
                                assert(pieces == clip_pairs(a_s.take(i as int + 1), bs)
                                    + row_clips(a_s[i as int + 1], bs.take(j as int)));
                            } else {
                                assert(a_s.take(i as int + 1) =~= a_s);
                            }
                            if pieces.len() > 0 && i as int + 1 < a_s.len() {
                                assert(a_s[i as int].1 <= a_s[i as int + 1].0);
                                assert(a_s[i as int].0 <= a_s[i as int].1);
                            }
                        }
                        i = i + 1;
                    } else {
                        proof {
                            assert forall|p: int| (i as int) < p < a_s.len() implies !overlaps(
                                #[trigger] a_s[p],
                                bs[j as int],
                            ) by {
                                assert(a_s[i as int].1 <= a_s[p].0);
                            }
                            if pieces.len() > 0 && j as int + 1 < bs.len() {
                                assert(bs[j as int].1 <= bs[j as int + 1].0);
                                assert(bs[j as int].0 <= bs[j as int].1);
                            }
                        }
                        j = j + 1;
                    }
                }
                proof {
                    if i < alen {
                        assert(j == cnt);
                        assert(bs.take(j as int) =~= bs);
                        assert forall|p: int|
                            i as int + 1 <= p < a_s.len() implies row_clips(#[trigger] a_s[p], bs)
                            == Seq::<Iv>::empty() by {
                            assert forall|k: int| 0 <= k < bs.len() implies !overlaps(
                                a_s[p],
                                #[trigger] bs[k],
                            ) by {}
                            lemma_row_clips_take_stable(a_s[p], bs, 0);
                            assert(bs.take(0) =~= Seq::<Iv>::empty());
                        }
                        lemma_clip_pairs_take_stable(a_s, bs, i as int + 1);
                        lemma_clip_pairs_take_succ(a_s, bs, i as int);
                        assert(pieces == clip_pairs(a_s, bs));
                    }
                    lemma_clip_pairs_total(a_s, bs);
                }
                Ok(acc)
            },
            (Some((_base, _cnt)), None) => {
                proof {
                    assert(self.index@.dom().contains(id));
                    assert(false);
                }
                Err(StoreError::NotFound)
            },
            (None, _) => {
                if use_default {
                    Ok(0)
                } else {
                    Err(StoreError::NotFound)
                }
            },
        }
    }
}

/// The first point of the query not yet accounted for while subtracting:
/// the start of the active remainder, or of the next untouched query interval.
spec fn frontier(a_s: Seq<Iv>, i: int, ma: Option<Iv>) -> int {
    match ma {
        Some(v) => v.0 as int,
        None => if i < a_s.len() {
            a_s[i].0 as int
        } else {
            0
        },
    }
}

impl MmapIntervalSetMapping {
    /// Set difference: the part of the sorted, non-overlapping query sequence
    /// not covered by the record of `id`, emitted exactly as the walk of
    /// `minus_seq` describes: the active query remainder is cut against each
    /// stored interval in turn, surviving heads first. An absent identifier
    /// leaves the input unchanged when `use_default` is set.
    pub fn minus(&self, id: Id, intervals: Vec<Iv>, use_default: bool) -> (r: Result<
        Vec<Iv>,
        StoreError,
    >)
        requires
            sorted_disjoint(intervals@),
            self.record_wf(id),
        ensures
            match r {
                Ok(v) => if self.has_spec(id) {
                    &&& v@ == minus_seq(intervals@, self.ivs(id))
                    &&& sorted_disjoint(v@)
                    &&& forall|x: int|
                        #[trigger] covered(v@, x) <==> (covered(intervals@, x) && !covered(
                            self.ivs(id),
                            x,
                        ))
                } else {
                    use_default && v@ == intervals@
                },
                Err(e) => !self.has_spec(id) && !use_default && e == StoreError::NotFound,
            },
    {
        proof {
            use_type_invariant(&*self);
        }
        match (self.index.get(id), &self.data) {
            (Some((base, cnt)), Some(m)) => {
                let ghost a_s = intervals@;
                let ghost bs = self.ivs(id);
                proof {
                    assert(self.index@.dom().contains(id));
                    assert(self.data_seq() == mmap_seq(*m));
                    assert(bs == record_ivs(mmap_seq(*m), base as int, cnt as int));
                }
                let alen = intervals.len();
                let mut res: Vec<Iv> = Vec::new();
                let mut i: usize = 0;
                let mut j: usize = 0;
                let mut mod_a: Option<Iv> = None;
                proof {
                    assert(Seq::<Iv>::empty() + minus_walk(a_s, bs, 0, 0, None) =~= minus_walk(
                        a_s,
                        bs,
                        0,
                        0,
                        None,
                    ));
                }
                while i < alen && j < cnt
                    invariant
                        i <= alen,
                        j <= cnt,
                        alen == a_s.len(),
                        a_s == intervals@,
                        self.has_spec(id),
                        bs == self.ivs(id),
                        bs.len() == cnt as int,
                        sorted_disjoint(a_s),
                        sorted_disjoint(bs),
                        base + cnt * (8 + 0) <= mmap_seq(*m).len(),
                        bs == record_ivs(mmap_seq(*m), base as int, cnt as int),
                        mod_a matches Some(v) ==> i < alen && a_s[i as int].0 <= v.0 && v.0 <= v.1
                            && v.1 == a_s[i as int].1,
                        forall|q: int|
                            0 <= q < j && i < alen ==> (#[trigger] bs[q]).1 <= frontier(
                                a_s,
                                i as int,
                                mod_a,
                            ),
                        forall|x: int|
                            #[trigger] covered(res@, x) <==> ((covered(a_s.take(i as int), x) || (
                            (i as int) < a_s.len() && covers(a_s[i as int], x) && x < frontier(
                                a_s,
                                i as int,
                                mod_a,
                            ))) && !covered(bs, x)),
                        sorted_disjoint(res@),
                        res@.len() > 0 && i < alen ==> res@.last().1 <= frontier(
                            a_s,
                            i as int,
                            mod_a,
                        ),
                        minus_seq(a_s, bs) == res@ + minus_walk(
                            a_s,
                            bs,
                            i as int,
                            j as int,
                            mod_a,
                        ),
                    decreases alen - i + cnt - j,
                {
                    let a: Iv = match mod_a {
                        Some(v) => v,
                        None => intervals[i],
                    };
                    proof {
                        assert(a.0 as int == frontier(a_s, i as int, mod_a));
                        assert(a_s[i as int].0 <= a.0 && a.0 <= a.1 && a.1 == a_s[i as int].1);
                        lemma_entry_bound(j as int, cnt as int);
                    }
                    let b = read_iv(m, base, j);
                    proof {
                        assert(b == bs[j as int]);
                        assert(b.0 <= b.1);
                    }
                    let ghost old_res = res@;
                    let ghost old_ma = mod_a;
                    if a.0 < b.0 {
                        if a.1 <= b.0 {
                            proof {
                                lemma_sorted_disjoint_push(res@, a);
                            }
                            res.push(a);
                            mod_a = None;
                            proof {
                                assert forall|x: int| #[trigger]
                                    covered(res@, x) <==> ((covered(a_s.take(i as int + 1), x) || (
                                    (i as int + 1) < a_s.len() && covers(a_s[i as int + 1], x) && x
                                        < frontier(a_s, i as int + 1, mod_a))) && !covered(
                                        bs,
                                        x,
                                    )) by {
                                    lemma_covered_push(old_res, a, x);
                                    lemma_covered_take_succ(a_s, i as int, x);
                                    if covers(a, x) {
                                        assert forall|q: int| 0 <= q < bs.len() implies !covers(
                                            #[trigger] bs[q],
                                            x,
                                        ) by {
                                            if q >= j {
                                                assert(bs[j as int].0 <= bs[q].0);
                                            }
                                        }
                                        assert(!covered(bs, x));
                                    }
                                    if (i as int + 1) < a_s.len() && covers(a_s[i as int + 1], x)
                                        && x < frontier(a_s, i as int + 1, mod_a) {
                                        assert(a_s[i as int + 1].0 <= x);
                                        assert(x < a_s[i as int + 1].0);
                                    }
                                }
                                assert(minus_walk(a_s, bs, i as int, j as int, old_ma) == seq![a]
                                    + minus_walk(a_s, bs, i as int + 1, j as int, None));
                                assert(old_res + minus_walk(a_s, bs, i as int, j as int, old_ma)
                                    =~= res@ + minus_walk(a_s, bs, i as int + 1, j as int, None));
                            }
                            i = i + 1;
                        } else {
                            let head = (a.0, b.0);
                            proof {
                                lemma_sorted_disjoint_push(res@, head);
                            }
                            res.push(head);
                            if a.1 <= b.1 {
                                mod_a = None;
                                proof {
                                    assert forall|x: int| #[trigger]
                                        covered(res@, x) <==> ((covered(a_s.take(i as int + 1), x)
                                            || ((i as int + 1) < a_s.len() && covers(
                                            a_s[i as int + 1],
                                            x,
                                        ) && x < frontier(a_s, i as int + 1, mod_a))) && !covered(
                                            bs,
                                            x,
                                        )) by {
                                        lemma_covered_push(old_res, head, x);
                                        lemma_covered_take_succ(a_s, i as int, x);
                                        if covers(head, x) {
                                            assert forall|q: int| 0 <= q < bs.len() implies !covers(
                                                #[trigger] bs[q],
                                                x,
                                            ) by {
                                                if q >= j {
                                                    assert(bs[j as int].0 <= bs[q].0);
                                                }
                                            }
                                            assert(!covered(bs, x));
                                        }
                                        if covers(a_s[i as int], x) && x >= b.0 && x < a.1 {
                                            assert(covers(bs[j as int], x));
                                            assert(covered(bs, x));
                                        }
                                        if (i as int + 1) < a_s.len() && covers(
                                            a_s[i as int + 1],
                                            x,
                                        ) && x < frontier(a_s, i as int + 1, mod_a) {
                                            assert(a_s[i as int + 1].0 <= x);
                                            assert(x < a_s[i as int + 1].0);
                                        }
                                    }
                                    assert(minus_walk(a_s, bs, i as int, j as int, old_ma)
                                        == seq![head] + minus_walk(
                                        a_s,
                                        bs,
                                        i as int + 1,
                                        j as int,
                                        None,
                                    ));
                                    assert(old_res + minus_walk(a_s, bs, i as int, j as int, old_ma)
                                        =~= res@ + minus_walk(
                                        a_s,
                                        bs,
                                        i as int + 1,
                                        j as int,
                                        None,
                                    ));
                                }
                                i = i + 1;
                            } else {
                                mod_a = Some((b.1, a.1));
                                proof {
                                    assert forall|x: int| #[trigger]
                                        covered(res@, x) <==> ((covered(a_s.take(i as int), x) || (
                                        (i as int) < a_s.len() && covers(a_s[i as int], x) && x
                                            < frontier(a_s, i as int, mod_a))) && !covered(
                                            bs,
                                            x,
                                        )) by {
                                        lemma_covered_push(old_res, head, x);
                                        if covers(head, x) {
                                            assert forall|q: int| 0 <= q < bs.len() implies !covers(
                                                #[trigger] bs[q],
                                                x,
                                            ) by {
                                                if q >= j {
                                                    assert(bs[j as int].0 <= bs[q].0);
                                                }
                                            }
                                            assert(!covered(bs, x));
                                        }
                                        if covers(a_s[i as int], x) && x >= b.0 && x < b.1 {
                                            assert(covers(bs[j as int], x));
                                            assert(covered(bs, x));
                                        }
                                    }
                                    assert(minus_walk(a_s, bs, i as int, j as int, old_ma)
                                        == seq![head] + minus_walk(
                                        a_s,
                                        bs,
                                        i as int,
                                        j as int + 1,
                                        Some((b.1, a.1)),
                                    ));
                                    assert(old_res + minus_walk(a_s, bs, i as int, j as int, old_ma)
                                        =~= res@ + minus_walk(
                                        a_s,
                                        bs,
                                        i as int,
                                        j as int + 1,
                                        Some((b.1, a.1)),
                                    ));
                                }
                                j = j + 1;
                            }
                        }
                    } else {
                        if a.0 >= b.1 {
                            proof {
                                assert(frontier(a_s, i as int, mod_a) == a.0 as int);
                                assert(minus_walk(a_s, bs, i as int, j as int, old_ma)
                                    == minus_walk(a_s, bs, i as int, j as int + 1, old_ma));
                            }
                            j = j + 1;
                        } else {
                            if a.1 <= b.1 {
                                mod_a = None;
                                proof {
                                    assert forall|x: int| #[trigger]
                                        covered(res@, x) <==> ((covered(a_s.take(i as int + 1), x)
                                            || ((i as int + 1) < a_s.len() && covers(
                                            a_s[i as int + 1],
                                            x,
                                        ) && x < frontier(a_s, i as int + 1, mod_a))) && !covered(
                                            bs,
                                            x,
                                        )) by {
                                        lemma_covered_take_succ(a_s, i as int, x);
                                        if covers(a_s[i as int], x) && x >= a.0 {
                                            assert(covers(bs[j as int], x));
                                            assert(covered(bs, x));
                                        }
                                        if (i as int + 1) < a_s.len() && covers(
                                            a_s[i as int + 1],
                                            x,
                                        ) && x < frontier(a_s, i as int + 1, mod_a) {
                                            assert(a_s[i as int + 1].0 <= x);
                                            assert(x < a_s[i as int + 1].0);
                                        }
                                    }
                                    assert(minus_walk(a_s, bs, i as int, j as int, old_ma)
                                        == minus_walk(a_s, bs, i as int + 1, j as int, None));
                                }
                                i = i + 1;
                            } else {
                                mod_a = Some((b.1, a.1));
                                proof {
                                    assert forall|x: int| #[trigger]
                                        covered(res@, x) <==> ((covered(a_s.take(i as int), x) || (
                                        (i as int) < a_s.len() && covers(a_s[i as int], x) && x
                                            < frontier(a_s, i as int, mod_a))) && !covered(
                                            bs,
                                            x,
                                        )) by {
                                        if covers(a_s[i as int], x) && x >= a.0 && x < b.1 {
                                            assert(covers(bs[j as int], x));
                                            assert(covered(bs, x));
                                        }
                                    }
                                    assert(minus_walk(a_s, bs, i as int, j as int, old_ma)
                                        == minus_walk(a_s, bs, i as int, j as int + 1, Some((
                                        b.1,
                                        a.1,
                                    ))));
                                }
                                j = j + 1;
                            }
                        }
                    }
                }
                let ghost mid_res = res@;
                let ghost mid_i = i as int;
                let ghost mid_ma = mod_a;
                match mod_a {
                    Some(v) => {
                        proof {
                            assert(i < alen);
                            assert(j == cnt);
                            lemma_sorted_disjoint_push(res@, v);
                        }
                        res.push(v);
                        proof {
                            assert forall|x: int| #[trigger]
                                covered(res@, x) <==> (covered(a_s.take(i as int + 1), x)
                                    && !covered(bs, x)) by {
                                lemma_covered_push(mid_res, v, x);
                                lemma_covered_take_succ(a_s, i as int, x);
                                if covers(v, x) {
                                    assert forall|q: int| 0 <= q < bs.len() implies !covers(
                                        #[trigger] bs[q],
                                        x,
                                    ) by {
                                        assert(bs[q].1 <= frontier(a_s, mid_i, mid_ma));
                                    }
                                    assert(!covered(bs, x));
                                }
                            }
                            assert(minus_walk(a_s, bs, mid_i, j as int, mid_ma) == seq![v]
                                + a_s.skip(mid_i + 1));
                            assert(mid_res + minus_walk(a_s, bs, mid_i, j as int, mid_ma) =~= res@
                                + a_s.skip(mid_i + 1));
                        }
                        i = i + 1;
                    },
                    None => {
                        proof {
                            assert forall|x: int| #[trigger]
                                covered(res@, x) <==> (covered(a_s.take(i as int), x) && !covered(
                                    bs,
                                    x,
                                )) by {
                                if (i as int) < a_s.len() {
                                    if covers(a_s[i as int], x) && x < frontier(
                                        a_s,
                                        i as int,
                                        mod_a,
                                    ) {
                                        assert(a_s[i as int].0 <= x);
                                        assert(x < a_s[i as int].0);
                                    }
                                }
                            }
                            if (i as int) < a_s.len() {
                                assert(j == cnt);
                                assert(minus_walk(a_s, bs, i as int, j as int, mod_a) == a_s.skip(
                                    i as int,
                                ));
                            } else {
                                assert(minus_walk(a_s, bs, i as int, j as int, mod_a) == Seq::<
                                    Iv,
                                >::empty());
                                assert(res@ + Seq::<Iv>::empty() =~= res@ + a_s.skip(i as int));
                            }
                        }
                    },
                }
                while i < alen
                    invariant
                        i <= alen,
                        alen == a_s.len(),
                        a_s == intervals@,
                        self.has_spec(id),
                        bs == self.ivs(id),
                        sorted_disjoint(a_s),
                        forall|q: int|
                            0 <= q < bs.len() && i < alen ==> (#[trigger] bs[q]).1
                                <= a_s[i as int].0,
                        forall|x: int|
                            #[trigger] covered(res@, x) <==> (covered(a_s.take(i as int), x)
                                && !covered(bs, x)),
                        sorted_disjoint(res@),
                        res@.len() > 0 && i < alen ==> res@.last().1 <= a_s[i as int].0,
                        minus_seq(a_s, bs) == res@ + a_s.skip(i as int),
                    decreases alen - i,
                {
                    let a = intervals[i];
                    let ghost old_res = res@;
                    proof {
                        lemma_sorted_disjoint_push(res@, a);
                    }
                    res.push(a);
                    proof {
                        assert forall|x: int| #[trigger]
                            covered(res@, x) <==> (covered(a_s.take(i as int + 1), x) && !covered(
                                bs,
                                x,
                            )) by {
                            lemma_covered_push(old_res, a, x);
                            lemma_covered_take_succ(a_s, i as int, x);
                            if covers(a, x) {
                                assert forall|q: int| 0 <= q < bs.len() implies !covers(
                                    #[trigger] bs[q],
                                    x,
                                ) by {}
                                assert(!covered(bs, x));
                            }
                        }
                        assert(a_s.skip(i as int) =~= seq![a_s[i as int]] + a_s.skip(
                            i as int + 1,
                        ));
                        assert(old_res + a_s.skip(i as int) =~= res@ + a_s.skip(i as int + 1));
                    }
                    i = i + 1;
                }
                proof {
                    assert(a_s.take(alen as int) =~= a_s);
                    assert(a_s.skip(alen as int) =~= Seq::<Iv>::empty());
                    assert(res@ + Seq::<Iv>::empty() =~= res@);
                }
                Ok(res)
            },
            (Some((_base, _cnt)), None) => {
                proof {
                    assert(self.index@.dom().contains(id));
                    assert(false);
                }
                Err(StoreError::NotFound)
            },
            (None, _) => {
                if use_default {
                    Ok(intervals)
                } else {
                    Err(StoreError::NotFound)
                }
            },
        }
    }
}

/// An empty byte sequence parses to the empty index.
spec fn parse_ok_empty() -> bool {
    parse_ok(Seq::<u8>::empty(), 0) && parse_map(Seq::<u8>::empty(), 0) == Map::<
        Id,
        (usize, usize),
    >::empty()
}

} // verus!
