//! A read-only, memory-mapped store of per-identifier interval lists. Stored
//! intervals may overlap, are sorted by start (of the data, not checked), and
//! each carries a fixed-width little-endian payload filtered by bitmask.

use vstd::prelude::*;
use memmap::Mmap;
use crate::common::{
    mmap_seq, mmap_slice, mmap_len, slice_u32, slice_le_value, u32_at, le_value, OffsetIndex,
    parse_offsets, parse_ok, parse_map, index_within, Id,
};
use crate::intervals::{
    Iv, IvP, iv_ok, covers, covered, sorted_disjoint, sorted_by_start, clip, overlaps, iv_len,
    total_len, clip_pairs, row_clips, pair_sum, row_sum, list_record_wf, matching_intervals,
    payload_matches, window_hit, record_hit, lemma_matching_take_succ, lemma_matching_all,
    lemma_matching_wf, lemma_matching_total_take_succ, lemma_matching_total_prefix_bound,
    lemma_total_len_nonneg, lemma_covered_push, lemma_covered_take_succ,
    lemma_row_clips_take_succ, lemma_row_clips_take_stable, lemma_clip_pairs_take_succ,
    lemma_clip_pairs_take_stable, lemma_sorted_disjoint_push, lemma_row_sum_nonneg,
    lemma_pair_sum_nonneg, lemma_row_sum_take_succ, lemma_row_sum_take_stable,
    lemma_pair_sum_take_succ, lemma_pair_sum_take_stable, lemma_pair_sum_prefix_bound,
    lemma_row_sum_prefix_bound, sweep_clips, list_intersection, coalesce, cpush,
};
use crate::StoreError;

verus! {

/// One entry of a list-store record at byte `base`: start, end, and a
/// `plen`-byte little-endian payload.
pub open spec fn entry_at(s: Seq<u8>, base: int, plen: int, k: int) -> IvP {
    (
        u32_at(s, base + k * (8 + plen)),
        u32_at(s, base + k * (8 + plen) + 4),
        le_value(s, base + k * (8 + plen) + 8, plen as nat) as u64,
    )
}

/// The entries of a list-store record: `cnt` of them, each `8 + plen` bytes.
pub open spec fn list_record(s: Seq<u8>, base: int, cnt: int, plen: int) -> Seq<IvP> {
    Seq::new(cnt as nat, |k: int| entry_at(s, base, plen, k))
}

proof fn lemma_unit_step(k: int, cnt: int, unit: int)
    requires
        0 <= k < cnt,
        unit > 0,
    ensures
        k * unit + unit == (k + 1) * unit,
        (k + 1) * unit <= cnt * unit,
        0 <= k * unit,
{
    assert(k * unit + unit == (k + 1) * unit) by (nonlinear_arith);
    assert((k + 1) * unit <= cnt * unit) by (nonlinear_arith)
        requires
            k + 1 <= cnt,
            unit > 0,
    ;
    assert(0 <= k * unit) by (nonlinear_arith)
        requires
            k >= 0,
            unit > 0,
    ;
}

/// One record entry read from the mapping.
fn read_entry(m: &Mmap, base: usize, k: usize, plen: usize) -> (r: IvP)
    requires
        plen <= 8,
        base + (k + 1) * (8 + plen) <= mmap_seq(*m).len(),
    ensures
        r == entry_at(mmap_seq(*m), base as int, plen as int, k as int),
{
    let s = mmap_slice(m);
    let _slen = s.len();
    proof {
        lemma_unit_step(k as int, k as int + 1, 8 + plen as int);
    }
    let off = base + k * (8 + plen);
    (slice_u32(s, off), slice_u32(s, off + 4), slice_le_value(s, off + 8, plen))
}

/// A mapping from identifiers to lists of payload-tagged intervals, backed by
/// a read-only memory mapping.
pub struct MmapIntervalListMapping {
    data: Mmap,
    index: OffsetIndex,
    payload_len: usize,
}

impl MmapIntervalListMapping {
    /// The bytes backing the store.
    pub closed spec fn data_seq(self) -> Seq<u8> {
        mmap_seq(self.data)
    }

    /// The payload width the store was opened with.
    pub closed spec fn payload_spec(self) -> int {
        self.payload_len as int
    }

    /// The identifiers the store indexes.
    pub closed spec fn id_set(self) -> Set<Id> {
        self.index@.dom()
    }

    pub open spec fn has_spec(self, id: Id) -> bool {
        self.id_set().contains(id)
    }

    /// The indexed identifiers in index order; `get_ids` returns exactly this
    /// sequence, which lists `id_set()` without duplicates.
    pub closed spec fn id_seq(self) -> Seq<Id> {
        self.index.id_seq()
    }

    /// The full record stored for `id` (meaningful when `has_spec(id)`).
    pub closed spec fn raw(self, id: Id) -> Seq<IvP> {
        list_record(
            self.data_seq(),
            self.index@[id].0 as int,
            self.index@[id].1 as int,
            self.payload_spec(),
        )
    }

    /// The record's intervals whose masked payload matches, in stored order.
    pub open spec fn matching(self, id: Id, mask: u64, value: u64) -> Seq<Iv> {
        matching_intervals(self.raw(id), mask, value)
    }

    /// The stored record for `id` is sorted by start with well-formed
    /// intervals, as the format demands of list stores. Queries rely on the
    /// data meeting it.
    pub open spec fn record_wf(self, id: Id) -> bool {
        self.has_spec(id) ==> list_record_wf(self.raw(id))
    }

    /// Total matching length over the listed identifiers, in order.
    pub open spec fn records_total(self, ids: Seq<Id>, mask: u64, value: u64) -> int
        decreases ids.len(),
    {
        if ids.len() == 0 {
            0
        } else {
            self.records_total(ids.drop_last(), mask, value) + total_len(
                matching_intervals(self.raw(ids.last()), mask, value),
            )
        }
    }

    /// Total matching length across all identifiers: what `sum` returns.
    pub open spec fn total_spec(self, mask: u64, value: u64) -> int {
        self.records_total(self.id_seq(), mask, value)
    }

    #[verifier::type_invariant]
    spec fn inv(self) -> bool {
        &&& index_within(
            self.index@,
            self.payload_len as nat,
            self.data_seq().len() as int,
        )
        &&& self.payload_len <= 8
        &&& self.data_seq().len() <= usize::MAX
    }

    /// Open a store over a mapping with the given payload width. A record
    /// scan that does not consume the bytes exactly is a format error.
    pub fn new(data: Mmap, payload_len: usize) -> (r: Result<Self, StoreError>)
        requires
            payload_len <= 8,
        ensures
            match r {
                Ok(s) => {
                    &&& parse_ok(mmap_seq(data), payload_len as nat)
                    &&& s.data_seq() == mmap_seq(data)
                    &&& s.payload_spec() == payload_len as int
                    &&& s.id_set() == parse_map(mmap_seq(data), payload_len as nat).dom()
                    &&& forall|id: Id|
                        s.has_spec(id) ==> s.raw(id) == list_record(
                            mmap_seq(data),
                            parse_map(mmap_seq(data), payload_len as nat)[id].0 as int,
                            parse_map(mmap_seq(data), payload_len as nat)[id].1 as int,
                            payload_len as int,
                        )
                },
                Err(e) => {
                    &&& e == StoreError::Format
                    &&& !parse_ok(mmap_seq(data), payload_len as nat)
                },
            },
    {
        let _len = mmap_len(&data);
        match parse_offsets(&data, payload_len) {
            Some(ix) => Ok(MmapIntervalListMapping { data, index: ix, payload_len }),
            None => Err(StoreError::Format),
        }
    }

    /// Number of identifiers indexed.
    pub fn len(&self) -> (r: usize)
        ensures
            r == self.id_set().len(),
    {
        self.index.len()
    }

    /// The indexed identifiers; their order carries no meaning.
    pub fn get_ids(&self) -> (r: Vec<Id>)
        ensures
            r@ == self.id_seq(),
            r@.to_set() == self.id_set(),
            r@.no_duplicates(),
            r@.len() == self.id_set().len(),
    {
        self.index.id_list()
    }

    /// Membership test for an identifier.
    pub fn has_id(&self, id: Id) -> (r: bool)
        ensures
            r == self.has_spec(id),
    {
        self.index.contains(id)
    }

    /// Number of intervals of `id` whose masked payload equals `value`. A
    /// zero mask with a zero value matches everything, so that case returns
    /// the raw record length without reading payloads.
    pub fn get_interval_count(&self, id: Id, payload_mask: u64, payload_value: u64) -> (r: Result<
        usize,
        StoreError,
    >)
        ensures
            match r {
                Ok(c) => self.has_spec(id) && c == self.matching(
                    id,
                    payload_mask,
                    payload_value,
                ).len(),
                Err(e) => !self.has_spec(id) && e == StoreError::NotFound,
            },
    {
        proof {
            use_type_invariant(&*self);
        }
        match self.index.get(id) {
            Some((base, cnt)) => {
                let ghost rec = self.raw(id);
                proof {
                    assert(self.index@.dom().contains(id));
                    assert(rec.len() == cnt as int);
                }
                if payload_mask == 0 && payload_value == 0 {
                    proof {
                        lemma_matching_all(rec);
                    }
                    Ok(cnt)
                } else {
                    let m = &self.data;
                    let plen = self.payload_len;
                    let mut count: usize = 0;
                    let mut k: usize = 0;
                    while k < cnt
                        invariant
                            k <= cnt,
                            count <= k,
                            plen <= 8,
                            base + cnt * (8 + plen) <= mmap_seq(*m).len(),
                            rec == list_record(mmap_seq(*m), base as int, cnt as int, plen as int),
                            rec.len() == cnt as int,
                            count == matching_intervals(
                                rec.take(k as int),
                                payload_mask,
                                payload_value,
                            ).len(),
                        decreases cnt - k,
                    {
                        proof {
                            lemma_unit_step(k as int, cnt as int, 8 + plen as int);
                            lemma_matching_take_succ(rec, payload_mask, payload_value, k as int);
                        }
                        let e = read_entry(m, base, k, plen);
                        if (e.2 & payload_mask) == payload_value {
                            count = count + 1;
                        }
                        k = k + 1;
                    }
                    proof {
                        assert(rec.take(cnt as int) =~= rec);
                    }
                    Ok(count)
                }
            },
            None => Err(StoreError::NotFound),
        }
    }

    /// All intervals of `id` whose masked payload matches, in stored order.
    pub fn get_intervals(
        &self,
        id: Id,
        payload_mask: u64,
        payload_value: u64,
        use_default: bool,
    ) -> (r: Result<Vec<Iv>, StoreError>)
        ensures
            match r {
                Ok(v) => if self.has_spec(id) {
                    v@ == self.matching(id, payload_mask, payload_value)
                } else {
                    use_default && v@ == Seq::<Iv>::empty()
                },
                Err(e) => !self.has_spec(id) && !use_default && e == StoreError::NotFound,
            },
    {
        proof {
            use_type_invariant(&*self);
        }
        match self.index.get(id) {
            Some((base, cnt)) => {
                proof {
                    assert(self.index@.dom().contains(id));
                }
                Ok(
                    read_matching(
                        &self.data,
                        base,
                        cnt,
                        self.payload_len,
                        payload_mask,
                        payload_value,
                    ),
                )
            },
            None => {
                if use_default {
                    Ok(Vec::new())
                } else {
                    Err(StoreError::NotFound)
                }
            },
        }
    }

    /// All entries of `id` with their payloads, unfiltered, in stored order.
    pub fn get_intervals_with_payload(&self, id: Id, use_default: bool) -> (r: Result<
        Vec<IvP>,
        StoreError,
    >)
        ensures
            match r {
                Ok(v) => if self.has_spec(id) {
                    v@ == self.raw(id)
                } else {
                    use_default && v@ == Seq::<IvP>::empty()
                },
                Err(e) => !self.has_spec(id) && !use_default && e == StoreError::NotFound,
            },
    {
        proof {
            use_type_invariant(&*self);
        }
        match self.index.get(id) {
            Some((base, cnt)) => {
                proof {
                    assert(self.index@.dom().contains(id));
                }
                let m = &self.data;
                let plen = self.payload_len;
                let ghost rec = self.raw(id);
                let mut out: Vec<IvP> = Vec::new();
                let mut k: usize = 0;
                while k < cnt
                    invariant
                        k <= cnt,
                        plen <= 8,
                        base + cnt * (8 + plen) <= mmap_seq(*m).len(),
                        rec == list_record(mmap_seq(*m), base as int, cnt as int, plen as int),
                        rec.len() == cnt as int,
                        out@ == rec.take(k as int),
                    decreases cnt - k,
                {
                    proof {
                        lemma_unit_step(k as int, cnt as int, 8 + plen as int);
                    }
                    let e = read_entry(m, base, k, plen);
                    out.push(e);
                    proof {
                        assert(out@ =~= rec.take(k + 1));
                    }
                    k = k + 1;
                }
                proof {
                    assert(rec.take(cnt as int) =~= rec);
                }
                Ok(out)
            },
            None => {
                if use_default {
                    Ok(Vec::new())
                } else {
                    Err(StoreError::NotFound)
                }
            },
        }
    }

    /// Total summed length, across all identifiers, of the intervals whose
    /// masked payload equals `value`. The caller owes the overflow bound;
    /// `lemma_records_total_bound` discharges it from a per-record cap, which
    /// `lemma_matching_total_bound` supplies.
    pub fn sum(&self, payload_mask: u64, payload_value: u64) -> (r: u64)
        requires
            self.total_spec(payload_mask, payload_value) <= u64::MAX,
        ensures
            r == self.total_spec(payload_mask, payload_value),
    {
        proof {
            use_type_invariant(&*self);
        }
        let ids = self.index.id_list();
        let ghost idseq = self.index.id_seq();
        let m = &self.data;
        let plen = self.payload_len;
        let mut acc: u64 = 0;
        let mut p: usize = 0;
        while p < ids.len()
            invariant
                self.total_spec(payload_mask, payload_value) <= u64::MAX,
                self.inv(),
                m == &self.data,
                plen == self.payload_len,
                ids@ == idseq,
                idseq == self.index.id_seq(),
                ids@.to_set() == self.index@.dom(),
                p <= ids@.len(),
                acc == self.records_total(idseq.take(p as int), payload_mask, payload_value),
            decreases ids@.len() - p,
        {
            let id = ids[p];
            proof {
                assert(ids@[p as int] == id);
                assert(ids@.contains(id));
                assert(ids@.to_set().contains(id));
                self.lemma_records_total_take_succ(idseq, p as int, payload_mask, payload_value);
                self.lemma_records_total_prefix_bound(idseq, p as int + 1, payload_mask, payload_value);
                lemma_total_len_nonneg(matching_intervals(self.raw(id), payload_mask, payload_value));
            }
            match self.index.get(id) {
                Some((base, cnt)) => {
                    let ghost rec = self.raw(id);
                    let ghost mseq = matching_intervals(rec, payload_mask, payload_value);
                    proof {
                        assert(self.index@.dom().contains(id));
                        assert(rec.len() == cnt as int);
                    }
                    let mut k: usize = 0;
                    let mut inner: u64 = 0;
                    while k < cnt
                        invariant
                            self.total_spec(payload_mask, payload_value) <= u64::MAX,
                            acc == self.records_total(idseq.take(p as int), payload_mask, payload_value),
                            acc + total_len(mseq) <= u64::MAX,
                            k <= cnt,
                            plen <= 8,
                            rec.len() == cnt as int,
                            base + cnt * (8 + plen) <= mmap_seq(*m).len(),
                            rec == list_record(mmap_seq(*m), base as int, cnt as int, plen as int),
                            mseq == matching_intervals(rec, payload_mask, payload_value),
                            inner == total_len(
                                matching_intervals(rec.take(k as int), payload_mask, payload_value),
                            ),
                        decreases cnt - k,
                    {
                        proof {
                            lemma_unit_step(k as int, cnt as int, 8 + plen as int);
                            lemma_matching_total_take_succ(
                                rec,
                                payload_mask,
                                payload_value,
                                k as int,
                            );
                            lemma_matching_total_prefix_bound(
                                rec,
                                payload_mask,
                                payload_value,
                                k as int + 1,
                            );
                            lemma_total_len_nonneg(
                                matching_intervals(rec.take(k as int), payload_mask, payload_value),
                            );
                        }
                        let e = read_entry(m, base, k, plen);
                        if (e.2 & payload_mask) == payload_value {
                            let d: u64 = if e.1 >= e.0 {
                                ((e.1 - e.0) as u64)
                            } else {
                                0
                            };
                            inner = inner + d;
                        }
                        k = k + 1;
                    }
                    proof {
                        assert(rec.take(cnt as int) =~= rec);
                    }
                    acc = acc + inner;
                },
                None => {
                    proof {
                        assert(false);
                    }
                },
            }
            proof {
                assert(acc == self.records_total(
                    idseq.take(p as int + 1),
                    payload_mask,
                    payload_value,
                ));
            }
            p = p + 1;
        }
        proof {
            assert(idseq.take(idseq.len() as int) =~= idseq);
        }
        acc
    }

    proof fn lemma_records_total_take_succ(self, ids: Seq<Id>, p: int, mask: u64, value: u64)
        requires
            0 <= p < ids.len(),
        ensures
            self.records_total(ids.take(p + 1), mask, value) == self.records_total(ids.take(p), mask, value)
                + total_len(matching_intervals(self.raw(ids[p]), mask, value)),
    {
        let t = ids.take(p + 1);
        assert(t.drop_last() =~= ids.take(p));
        assert(t.last() == ids[p]);
    }

    proof fn lemma_records_total_prefix_bound(self, ids: Seq<Id>, p: int, mask: u64, value: u64)
        requires
            0 <= p <= ids.len(),
        ensures
            self.records_total(ids.take(p), mask, value) <= self.records_total(ids, mask, value),
        decreases ids.len() - p,
    {
        if p == ids.len() {
            assert(ids.take(p) =~= ids);
        } else {
            self.lemma_records_total_take_succ(ids, p, mask, value);
            lemma_total_len_nonneg(matching_intervals(self.raw(ids[p]), mask, value));
            self.lemma_records_total_prefix_bound(ids, p + 1, mask, value);
        }
    }

    /// A caller-side bound for `sum`'s overflow precondition: the total over
    /// any identifier list stays within `cap` per listed record. A per-record
    /// cap comes from `lemma_matching_total_bound`: one full 32-bit range per
    /// record entry.
    pub proof fn lemma_records_total_bound(
        self,
        ids: Seq<Id>,
        mask: u64,
        value: u64,
        cap: int,
    )
        requires
            cap >= 0,
            forall|k: int|
                0 <= k < ids.len() ==> total_len(
                    matching_intervals(self.raw(#[trigger] ids[k]), mask, value),
                ) <= cap,
        ensures
            0 <= self.records_total(ids, mask, value) <= ids.len() * cap,
        decreases ids.len(),
    {
        if ids.len() > 0 {
            let d = ids.drop_last();
            assert(forall|k: int|
                0 <= k < d.len() ==> total_len(
                    matching_intervals(self.raw(#[trigger] d[k]), mask, value),
                ) <= cap) by {
                assert(forall|k: int| 0 <= k < d.len() ==> d[k] == ids[k]);
            }
            self.lemma_records_total_bound(d, mask, value, cap);
            assert(ids.last() == ids[ids.len() - 1]);
            lemma_total_len_nonneg(matching_intervals(self.raw(ids.last()), mask, value));
            assert((ids.len() - 1) * cap + cap == ids.len() * cap) by (nonlinear_arith);
        }
    }
}

/// The record's matching intervals, materialized in stored order.
fn read_matching(
    m: &Mmap,
    base: usize,
    cnt: usize,
    plen: usize,
    mask: u64,
    value: u64,
) -> (r: Vec<Iv>)
    requires
        plen <= 8,
        base + cnt * (8 + plen) <= mmap_seq(*m).len(),
    ensures
        r@ == matching_intervals(
            list_record(mmap_seq(*m), base as int, cnt as int, plen as int),
            mask,
            value,
        ),
{
    let ghost rec = list_record(mmap_seq(*m), base as int, cnt as int, plen as int);
    let mut out: Vec<Iv> = Vec::new();
    let mut k: usize = 0;
    while k < cnt
        invariant
            k <= cnt,
            plen <= 8,
            base + cnt * (8 + plen) <= mmap_seq(*m).len(),
            rec == list_record(mmap_seq(*m), base as int, cnt as int, plen as int),
            rec.len() == cnt as int,
            out@ == matching_intervals(rec.take(k as int), mask, value),
        decreases cnt - k,
    {
        proof {
            lemma_unit_step(k as int, cnt as int, 8 + plen as int);
            lemma_matching_take_succ(rec, mask, value, k as int);
        }
        let e = read_entry(m, base, k, plen);
        if (e.2 & mask) == value {
            out.push((e.0, e.1));
            proof {
                assert(out@ =~= matching_intervals(rec.take(k + 1), mask, value));
            }
        } else {
            proof {
                assert(out@ =~= matching_intervals(rec.take(k + 1), mask, value));
            }
        }
        k = k + 1;
    }
    proof {
        assert(rec.take(cnt as int) =~= rec);
    }
    out
}

/// Scan rightward from `s_idx` while starts stay at or below `target`,
/// looking for a matching interval that contains it.
fn scan_right(
    m: &Mmap,
    base: usize,
    cnt: usize,
    plen: usize,
    s_idx: usize,
    target: u32,
    mask: u64,
    value: u64,
) -> (r: bool)
    requires
        plen <= 8,
        base + cnt * (8 + plen) <= mmap_seq(*m).len(),
        s_idx <= cnt,
        list_record_wf(list_record(mmap_seq(*m), base as int, cnt as int, plen as int)),
    ensures
        ({
            let rec = list_record(mmap_seq(*m), base as int, cnt as int, plen as int);
            &&& r ==> record_hit(rec, mask, value, target)
            &&& !r ==> forall|k: int|
                s_idx <= k < cnt ==> !(payload_matches((#[trigger] rec[k]).2, mask, value)
                    && rec[k].0 <= target < rec[k].1)
        }),
{
    let ghost rec = list_record(mmap_seq(*m), base as int, cnt as int, plen as int);
    let mut i = s_idx;
    while i < cnt
        invariant
            s_idx <= i <= cnt,
            plen <= 8,
            base + cnt * (8 + plen) <= mmap_seq(*m).len(),
            rec == list_record(mmap_seq(*m), base as int, cnt as int, plen as int),
            rec.len() == cnt as int,
            list_record_wf(rec),
            forall|k: int|
                s_idx <= k < i ==> !(payload_matches((#[trigger] rec[k]).2, mask, value)
                    && rec[k].0 <= target < rec[k].1),
        decreases cnt - i,
    {
        proof {
            lemma_unit_step(i as int, cnt as int, 8 + plen as int);
        }
        let e = read_entry(m, base, i, plen);
        proof {
            assert(e == rec[i as int]);
        }
        if e.0 > target {
            proof {
                assert forall|k: int| s_idx <= k < cnt implies !(payload_matches(
                    (#[trigger] rec[k]).2,
                    mask,
                    value,
                ) && rec[k].0 <= target < rec[k].1) by {
                    if k >= i {
                        assert(rec[i as int].0 <= rec[k].0);
                    }
                }
            }
            return false;
        }
        if e.0 <= target && e.1 > target && (e.2 & mask) == value {
            proof {
                assert(payload_matches(rec[i as int].2, mask, value));
            }
            return true;
        }
        i = i + 1;
    }
    false
}

/// Scan leftward from just below `s_idx` while starts stay within `window`
/// of `target`, looking for a matching interval that contains it.
fn scan_left(
    m: &Mmap,
    base: usize,
    cnt: usize,
    plen: usize,
    s_idx: usize,
    target: u32,
    mask: u64,
    value: u64,
    window: u32,
) -> (r: bool)
    requires
        plen <= 8,
        base + cnt * (8 + plen) <= mmap_seq(*m).len(),
        s_idx <= cnt,
        list_record_wf(list_record(mmap_seq(*m), base as int, cnt as int, plen as int)),
    ensures
        ({
            let rec = list_record(mmap_seq(*m), base as int, cnt as int, plen as int);
            &&& r ==> record_hit(rec, mask, value, target)
            &&& !r ==> forall|k: int|
                0 <= k < s_idx ==> !(payload_matches((#[trigger] rec[k]).2, mask, value)
                    && rec[k].0 <= target < rec[k].1 && target <= rec[k].0 + window)
        }),
{
    let ghost rec = list_record(mmap_seq(*m), base as int, cnt as int, plen as int);
    let mut i = s_idx;
    while i > 0
        invariant
            i <= s_idx <= cnt,
            plen <= 8,
            base + cnt * (8 + plen) <= mmap_seq(*m).len(),
            rec == list_record(mmap_seq(*m), base as int, cnt as int, plen as int),
            rec.len() == cnt as int,
            list_record_wf(rec),
            forall|k: int|
                i <= k < s_idx ==> !(payload_matches((#[trigger] rec[k]).2, mask, value)
                    && rec[k].0 <= target < rec[k].1),
        decreases i,
    {
        i = i - 1;
        proof {
            lemma_unit_step(i as int, cnt as int, 8 + plen as int);
        }
        let e = read_entry(m, base, i, plen);
        proof {
            assert(e == rec[i as int]);
        }
        if (e.0 as u64) + (window as u64) < (target as u64) {
            proof {
                assert forall|k: int| 0 <= k < s_idx implies !(payload_matches(
                    (#[trigger] rec[k]).2,
                    mask,
                    value,
                ) && rec[k].0 <= target < rec[k].1 && target <= rec[k].0 + window) by {
                    if k <= i {
                        assert(rec[k].0 <= rec[i as int].0);
                    }
                }
            }
            return false;
        }
        if e.0 <= target && e.1 > target && (e.2 & mask) == value {
            proof {
                assert(payload_matches(rec[i as int].2, mask, value));
            }
            return true;
        }
    }
    false
}

impl MmapIntervalListMapping {
    /// Whether some interval of `id` with matching masked payload contains
    /// `target`. The search looks right from a binary-searched lower bound
    /// while starts stay at or below `target`, and left while starts stay
    /// within `search_window` of it; a hit further back than the window goes
    /// unseen, so the caller must choose a window at least as large as the
    /// longest interval for the search to be complete.
    pub fn is_contained(
        &self,
        id: Id,
        target: u32,
        payload_mask: u64,
        payload_value: u64,
        use_default: bool,
        search_window: u32,
    ) -> (r: Result<bool, StoreError>)
        requires
            self.record_wf(id),
        ensures
            match r {
                Ok(b) => if self.has_spec(id) {
                    &&& b ==> record_hit(self.raw(id), payload_mask, payload_value, target)
                    &&& window_hit(
                        self.raw(id),
                        payload_mask,
                        payload_value,
                        target,
                        search_window,
                    ) ==> b
                } else {
                    use_default && b == false
                },
                Err(e) => !self.has_spec(id) && !use_default && e == StoreError::NotFound,
            },
    {
        proof {
            use_type_invariant(&*self);
        }
        match self.index.get(id) {
            Some((base, cnt)) => {
                let m = &self.data;
                let plen = self.payload_len;
                let ghost rec = self.raw(id);
                proof {
                    assert(self.index@.dom().contains(id));
                    assert(rec == list_record(mmap_seq(*m), base as int, cnt as int, plen as int));
                    assert(rec.len() == cnt as int);
                }
                let mut lo: usize = 0;
                let mut hi: usize = cnt;
                while lo < hi
                    invariant
                        lo <= hi <= cnt,
                        plen <= 8,
                        base + cnt * (8 + plen) <= mmap_seq(*m).len(),
                    decreases hi - lo,
                {
                    let pivot = lo + (hi - lo) / 2;
                    proof {
                        lemma_unit_step(pivot as int, cnt as int, 8 + plen as int);
                    }
                    let e = read_entry(m, base, pivot, plen);
                    if e.0 <= target && e.1 > target {
                        lo = pivot;
                        hi = pivot;
                    } else if e.0 > target {
                        hi = pivot;
                    } else {
                        lo = pivot + 1;
                    }
                }
                if scan_right(m, base, cnt, plen, lo, target, payload_mask, payload_value) {
                    return Ok(true);
                }
                if scan_left(
                    m,
                    base,
                    cnt,
                    plen,
                    lo,
                    target,
                    payload_mask,
                    payload_value,
                    search_window,
                ) {
                    return Ok(true);
                }
                proof {
                    assert forall|k: int|
                        0 <= k < rec.len() implies !(payload_matches(
                        (#[trigger] rec[k]).2,
                        payload_mask,
                        payload_value,
                    ) && rec[k].0 <= target < rec[k].1 && target <= rec[k].0 + search_window) by {}
                    assert(!window_hit(rec, payload_mask, payload_value, target, search_window));
                }
                Ok(false)
            },
            None => {
                if use_default {
                    Ok(false)
                } else {
                    Err(StoreError::NotFound)
                }
            },
        }
    }
}

impl MmapIntervalListMapping {
    /// Intersect a sorted, non-overlapping query sequence with the matching
    /// intervals of `id`: exactly the sweep's clipped overlap candidates with
    /// strictly overlapping neighbours coalesced (`list_intersection`). The
    /// result is sorted and non-overlapping and covers exactly the points
    /// covered by both the query and the matching record; when the matching
    /// record happens to be non-overlapping, the result is exactly the
    /// clipped pairwise overlaps, as in the set store.
    pub fn intersect(
        &self,
        id: Id,
        intervals: Vec<Iv>,
        payload_mask: u64,
        payload_value: u64,
        use_default: bool,
    ) -> (r: Result<Vec<Iv>, StoreError>)
        requires
            sorted_disjoint(intervals@),
            self.record_wf(id),
        ensures
            match r {
                Ok(v) => if self.has_spec(id) {
                    &&& v@ == list_intersection(
                        intervals@,
                        self.matching(id, payload_mask, payload_value),
                    )
                    &&& sorted_disjoint(v@)
                    &&& forall|x: int|
                        #[trigger] covered(v@, x) <==> (covered(intervals@, x) && covered(
                            self.matching(id, payload_mask, payload_value),
                            x,
                        ))
                    &&& sorted_disjoint(self.matching(id, payload_mask, payload_value)) ==> v@
                        == clip_pairs(
                        intervals@,
                        self.matching(id, payload_mask, payload_value),
                    )
                } else {
                    use_default && v@ == Seq::<Iv>::empty()
                },
                Err(e) => !self.has_spec(id) && !use_default && e == StoreError::NotFound,
            },
    {
        proof {
            use_type_invariant(&*self);
        }
        match self.index.get(id) {
            Some((base, cnt)) => {
                proof {
                    assert(self.index@.dom().contains(id));
                }
                let bvec = read_matching(
                    &self.data,
                    base,
                    cnt,
                    self.payload_len,
                    payload_mask,
                    payload_value,
                );
                let ghost a_s = intervals@;
                let ghost bm = self.matching(id, payload_mask, payload_value);
                proof {
                    assert(bvec@ == bm);
                    lemma_matching_wf(self.raw(id), payload_mask, payload_value);
                }
                let alen = intervals.len();
                let blen = bvec.len();
                let mut res: Vec<Iv> = Vec::new();
                let ghost mut cands = Seq::<Iv>::empty();
                let mut i: usize = 0;
                let mut j: usize = 0;
                proof {
                    assert(Seq::<Iv>::empty() + sweep_clips(a_s, bm, 0, 0) =~= sweep_clips(
                        a_s,
                        bm,
                        0,
                        0,
                    ));
                }
                while i < alen && j < blen
                    invariant
                        i <= alen,
                        j <= blen,
                        alen == a_s.len(),
                        blen == bm.len(),
                        a_s == intervals@,
                        bvec@ == bm,
                        self.has_spec(id),
                        bm == self.matching(id, payload_mask, payload_value),
                        res@ == coalesce(cands),
                        sweep_clips(a_s, bm, 0, 0) == cands + sweep_clips(
                            a_s,
                            bm,
                            i as int,
                            j as int,
                        ),
                        sorted_disjoint(a_s),
                        sorted_by_start(bm),
                        forall|k: int| 0 <= k < bm.len() ==> iv_ok(#[trigger] bm[k]),
                        forall|x: int|
                            #[trigger] covered(res@, x) ==> (covered(a_s, x) && covered(bm, x)),
                        forall|x: int|
                            (#[trigger] covered(a_s.take(i as int), x) && covered(bm, x))
                                ==> covered(res@, x),
                        i < alen ==> forall|x: int|
                            (covers(a_s[i as int], x) && #[trigger] covered(
                                bm.take(j as int),
                                x,
                            )) ==> covered(res@, x),
                        forall|q: int|
                            0 <= q < j && i < alen ==> (#[trigger] bm[q]).1 <= a_s[i as int].1,
                        sorted_disjoint(res@),
                        forall|k: int| 0 <= k < res@.len() ==> (#[trigger] res@[k]).0 < res@[k].1,
                        res@.len() > 0 && i < alen && j < blen ==> (res@.last().0
                            <= a_s[i as int].0 || res@.last().0 <= bm[j as int].0),
                        sorted_disjoint(bm) ==> {
                            &&& i < alen ==> res@ == clip_pairs(a_s.take(i as int), bm)
                                + row_clips(a_s[i as int], bm.take(j as int))
                            &&& i == alen ==> res@ == clip_pairs(a_s, bm)
                            &&& forall|p: int, q: int|
                                i < p < a_s.len() && 0 <= q < j ==> !overlaps(
                                    #[trigger] a_s[p],
                                    #[trigger] bm[q],
                                )
                            &&& res@.len() > 0 && i < alen && j < blen ==> (res@.last().1
                                <= a_s[i as int].0 || res@.last().1 <= bm[j as int].0)
                        },
                    decreases alen - i + blen - j,
                {
                    let a = intervals[i];
                    let b = bvec[j];
                    let st = if a.0 >= b.0 {
                        a.0
                    } else {
                        b.0
                    };
                    let en = if a.1 <= b.1 {
                        a.1
                    } else {
                        b.1
                    };
                    let ghost c = clip(a, b);
                    let ghost old_res = res@;
                    let ghost old_cands = cands;
                    let ghost rest = if a.1 <= b.1 {
                        sweep_clips(a_s, bm, i as int + 1, j as int)
                    } else {
                        sweep_clips(a_s, bm, i as int, j as int + 1)
                    };
                    proof {
                        assert(c == (st, en));
                        lemma_row_clips_take_succ(a_s[i as int], bm, j as int);
                        assert(sweep_clips(a_s, bm, i as int, j as int) == (if c.0 < c.1 {
                            seq![c]
                        } else {
                            Seq::<Iv>::empty()
                        }) + rest);
                    }
                    if en > st {
                        let rl = res.len();
                        let mut merged = false;
                        if rl > 0 {
                            let last = res[rl - 1];
                            let me = if en <= last.1 {
                                en
                            } else {
                                last.1
                            };
                            let ms = if st >= last.0 {
                                st
                            } else {
                                last.0
                            };
                            if me > ms {
                                let nst = if st <= last.0 {
                                    st
                                } else {
                                    last.0
                                };
                                let nen = if en >= last.1 {
                                    en
                                } else {
                                    last.1
                                };
                                proof {
                                    assert(last.0 <= st);
                                    assert(nst == last.0);
                                }
                                res[rl - 1] = (nst, nen);
                                merged = true;
                                proof {
                                    let nr = res@;
                                    assert(nr == old_res.update(rl - 1, (nst, nen)));
                                    assert forall|x: int| #[trigger]
                                        covered(nr, x) <==> (covered(old_res, x) || covers(
                                            c,
                                            x,
                                        )) by {
                                        if covered(nr, x) {
                                            let k = choose|k: int|
                                                0 <= k < nr.len() && covers(nr[k], x);
                                            if k < rl - 1 {
                                                assert(covers(old_res[k], x));
                                            } else {
                                                if x < last.1 {
                                                    assert(covers(old_res[rl - 1], x));
                                                } else {
                                                    assert(x < en);
                                                    assert(st <= ms < me <= last.1);
                                                    assert(covers(c, x));
                                                }
                                            }
                                        }
                                        if covered(old_res, x) {
                                            let k = choose|k: int|
                                                0 <= k < old_res.len() && covers(old_res[k], x);
                                            if k < rl - 1 {
                                                assert(covers(nr[k], x));
                                            } else {
                                                assert(covers(nr[rl - 1], x));
                                            }
                                        }
                                        if covers(c, x) {
                                            assert(covers(nr[rl - 1], x));
                                        }
                                    }
                                    assert forall|p: int, q: int|
                                        0 <= p < q < nr.len() implies (#[trigger] nr[p]).1 <= (
                                    #[trigger] nr[q]).0 by {
                                        if q < rl - 1 {
                                            assert(nr[p] == old_res[p] && nr[q] == old_res[q]);
                                        } else {
                                            assert(nr[p] == old_res[p]);
                                            assert(nr[q].0 == last.0);
                                            assert(old_res[p].1 <= old_res[rl - 1].0);
                                        }
                                    }
                                    if sorted_disjoint(bm) {
                                        assert(old_res.last().1 <= a_s[i as int].0
                                            || old_res.last().1 <= bm[j as int].0);
                                        assert(last.1 <= st);
                                        assert(me <= ms);
                                        assert(false);
                                    }
                                    cands = old_cands.push(c);
                                    assert(cands.drop_last() =~= old_cands);
                                    assert(coalesce(cands) == cpush(coalesce(old_cands), c));
                                    assert(overlaps(c, old_res.last()));
                                    assert(res@ == cpush(old_res, c));
                                    assert(old_cands + (seq![c] + rest) =~= cands + rest);
                                }
                            }
                        }
                        if !merged {
                            proof {
                                if old_res.len() > 0 {
                                    let last = old_res.last();
                                    assert(last.0 <= st);
                                    assert(if en <= last.1 {
                                        en
                                    } else {
                                        last.1
                                    } <= if st >= last.0 {
                                        st
                                    } else {
                                        last.0
                                    });
                                    assert(last.1 <= st);
                                }
                                lemma_sorted_disjoint_push(old_res, c);
                            }
                            res.push((st, en));
                            proof {
                                assert forall|x: int| #[trigger]
                                    covered(res@, x) <==> (covered(old_res, x) || covers(
                                        c,
                                        x,
                                    )) by {
                                    lemma_covered_push(old_res, c, x);
                                }
                                if sorted_disjoint(bm) {
                                    assert(res@ =~= clip_pairs(a_s.take(i as int), bm) + row_clips(
                                        a_s[i as int],
                                        bm.take(j as int + 1),
                                    ));
                                }
                                cands = old_cands.push(c);
                                assert(cands.drop_last() =~= old_cands);
                                assert(coalesce(cands) == cpush(coalesce(old_cands), c));
                                if old_res.len() > 0 {
                                    assert(old_res.last().1 <= c.0);
                                    assert(!overlaps(c, old_res.last()));
                                }
                                assert(res@ == cpush(old_res, c));
                                assert(old_cands + (seq![c] + rest) =~= cands + rest);
                            }
                        }
                        proof {
                            assert forall|x: int| #[trigger]
                                covered(res@, x) implies (covered(a_s, x) && covered(bm, x)) by {
                                if covers(c, x) {
                                    assert(covers(a_s[i as int], x));
                                    assert(covers(bm[j as int], x));
                                    assert(covered(a_s, x));
                                    assert(covered(bm, x));
                                }
                            }
                        }
                    } else {
                        proof {
                            assert(!overlaps(a_s[i as int], bm[j as int]));
                            if sorted_disjoint(bm) {
                                assert(res@ =~= clip_pairs(a_s.take(i as int), bm) + row_clips(
                                    a_s[i as int],
                                    bm.take(j as int + 1),
                                ));
                            }
                            assert(!(c.0 < c.1));
                            assert(Seq::<Iv>::empty() + rest =~= rest);
                            assert(sweep_clips(a_s, bm, 0, 0) == cands + rest);
                        }
                    }
                    proof {
                        assert forall|x: int|
                            (covers(a_s[i as int], x) && #[trigger] covered(
                                bm.take(j as int + 1),
                                x,
                            )) implies covered(res@, x) by {
                            lemma_covered_take_succ(bm, j as int, x);
                            if covered(bm.take(j as int), x) {
                                assert(covered(old_res, x));
                                assert(forall|k: int|
                                    0 <= k < old_res.len() ==> covered(res@, x) || !covers(
                                        #[trigger] old_res[k],
                                        x,
                                    ) || covered(res@, x));
                                assert(covered(res@, x)) by {
                                    if covered(old_res, x) {
                                        let k = choose|k: int|
                                            0 <= k < old_res.len() && covers(old_res[k], x);
                                        if res@ == old_res {
                                            assert(covers(res@[k], x));
                                        } else if res@ == old_res.push(c) {
                                            assert(covers(res@[k], x));
                                        } else {
                                            assert(covered(res@, x));
                                        }
                                    }
                                }
                            } else {
                                assert(covers(bm[j as int], x));
                                assert(covers(c, x));
                                assert(covered(res@, x));
                            }
                        }
                    }
                    if a.1 <= b.1 {
                        proof {
                            assert forall|x: int|
                                (#[trigger] covered(a_s.take(i as int + 1), x) && covered(
                                    bm,
                                    x,
                                )) implies covered(res@, x) by {
                                lemma_covered_take_succ(a_s, i as int, x);
                                if covered(a_s.take(i as int), x) {
                                    assert(covered(old_res, x));
                                    if covered(old_res, x) {
                                        let k = choose|k: int|
                                            0 <= k < old_res.len() && covers(old_res[k], x);
                                        assert(covered(res@, x)) by {
                                            if res@.len() == old_res.len() && res@ != old_res {
                                                if k < old_res.len() - 1 {
                                                    assert(covers(res@[k], x));
                                                } else {
                                                    assert(covers(res@[k], x));
                                                }
                                            } else if res@ == old_res {
                                                assert(covers(res@[k], x));
                                            } else {
                                                assert(covers(res@[k], x));
                                            }
                                        }
                                    }
                                } else if covers(a_s[i as int], x) {
                                    let q = choose|q: int| 0 <= q < bm.len() && covers(bm[q], x);
                                    if q < j {
                                        assert(covered(bm.take(j as int + 1), x)) by {
                                            assert(bm.take(j as int + 1)[q] == bm[q]);
                                        }
                                    } else if q == j {
                                        assert(covers(c, x));
                                    } else {
                                        assert(bm[j as int].0 <= bm[q].0);
                                        assert(x < a_s[i as int].1);
                                        assert(covers(c, x));
                                    }
                                }
                            }
                            assert(forall|q: int|
                                0 <= q < j && (i as int) + 1 < a_s.len() ==> (#[trigger] bm[q]).1
                                    <= a_s[i as int + 1].1);
                            if (i as int) + 1 < a_s.len() {
                                assert forall|x: int|
                                    (covers(a_s[i as int + 1], x) && #[trigger] covered(
                                        bm.take(j as int),
                                        x,
                                    )) implies covered(res@, x) by {
                                    let q = choose|q: int|
                                        0 <= q < j && covers(bm.take(j as int)[q], x);
                                    assert(bm[q].1 <= a_s[i as int].1);
                                    assert(a_s[i as int].1 <= a_s[i as int + 1].0);
                                    assert(x < bm[q].1);
                                    assert(a_s[i as int + 1].0 <= x);
                                }
                            }
                            if sorted_disjoint(bm) {
                                assert forall|k: int|
                                    j as int + 1 <= k < bm.len() implies !overlaps(
                                    a_s[i as int],
                                    #[trigger] bm[k],
                                ) by {
                                    assert(bm[j as int].1 <= bm[k].0);
                                }
                                lemma_row_clips_take_stable(a_s[i as int], bm, j as int + 1);
                                lemma_clip_pairs_take_succ(a_s, bm, i as int);
                                if (i as int) + 1 < a_s.len() {
                                    assert forall|k: int| 0 <= k < j as int implies !overlaps(
                                        a_s[i as int + 1],
                                        #[trigger] bm.take(j as int)[k],
                                    ) by {
                                        assert(bm.take(j as int)[k] == bm[k]);
                                    }
                                    lemma_row_clips_take_stable(
                                        a_s[i as int + 1],
                                        bm.take(j as int),
                                        0,
                                    );
                                    assert(bm.take(j as int).take(0) =~= Seq::<Iv>::empty());
                                    assert(res@ == clip_pairs(a_s.take(i as int + 1), bm)
                                        + row_clips(a_s[i as int + 1], bm.take(j as int)));
                                } else {
                                    assert(a_s.take(i as int + 1) =~= a_s);
                                }
                                if res@.len() > 0 && (i as int) + 1 < a_s.len() {
                                    assert(a_s[i as int].1 <= a_s[i as int + 1].0);
                                }
                            }
                            if res@.len() > 0 && (i as int) + 1 < a_s.len() {
                                assert(a_s[i as int].0 <= a_s[i as int + 1].0);
                            }
                        }
                        i = i + 1;
                    } else {
                        proof {
                            assert(bm[j as int].1 < a_s[i as int].1);
                            if sorted_disjoint(bm) {
                                assert forall|p: int| (i as int) < p < a_s.len() implies !overlaps(
                                    #[trigger] a_s[p],
                                    bm[j as int],
                                ) by {
                                    assert(a_s[i as int].1 <= a_s[p].0);
                                }
                            }
                            if res@.len() > 0 && (j as int) + 1 < bm.len() {
                                assert(bm[j as int].0 <= bm[j as int + 1].0);
                            }
                        }
                        j = j + 1;
                    }
                }
                proof {
                    assert(sweep_clips(a_s, bm, i as int, j as int) == Seq::<Iv>::empty());
                    assert(cands + Seq::<Iv>::empty() =~= cands);
                    assert(res@ == list_intersection(a_s, bm));
                    if i == alen {
                        assert(a_s.take(i as int) =~= a_s);
                        assert forall|x: int| #[trigger]
                            covered(res@, x) <==> (covered(a_s, x) && covered(bm, x)) by {
                            if covered(a_s, x) && covered(bm, x) {
                                assert(covered(a_s.take(i as int), x));
                            }
                        }
                    } else {
                        assert(j == blen);
                        assert(bm.take(j as int) =~= bm);
                        assert forall|x: int| #[trigger]
                            covered(res@, x) <==> (covered(a_s, x) && covered(bm, x)) by {
                            if covered(a_s, x) && covered(bm, x) {
                                let p = choose|p: int| 0 <= p < a_s.len() && covers(a_s[p], x);
                                let q = choose|q: int| 0 <= q < bm.len() && covers(bm[q], x);
                                if p < i {
                                    assert(covered(a_s.take(i as int), x)) by {
                                        assert(a_s.take(i as int)[p] == a_s[p]);
                                    }
                                } else if p == i {
                                    assert(covered(bm.take(j as int), x));
                                } else {
                                    assert(bm[q].1 <= a_s[i as int].1);
                                    assert(a_s[i as int].1 <= a_s[p].0);
                                    assert(x < bm[q].1);
                                    assert(a_s[p].0 <= x);
                                }
                            }
                        }
                        if sorted_disjoint(bm) {
                            assert forall|p: int|
                                (i as int) + 1 <= p < a_s.len() implies row_clips(
                                #[trigger] a_s[p],
                                bm,
                            ) == Seq::<Iv>::empty() by {
                                assert forall|k: int| 0 <= k < bm.len() implies !overlaps(
                                    a_s[p],
                                    #[trigger] bm[k],
                                ) by {}
                                lemma_row_clips_take_stable(a_s[p], bm, 0);
                                assert(bm.take(0) =~= Seq::<Iv>::empty());
                            }
                            lemma_clip_pairs_take_stable(a_s, bm, i as int + 1);
                            lemma_clip_pairs_take_succ(a_s, bm, i as int);
                            assert(res@ == clip_pairs(a_s, bm));
                        }
                    }
                }
                Ok(res)
            },
            None => {
                if use_default {
                    Ok(Vec::new())
                } else {
                    Err(StoreError::NotFound)
                }
            },
        }
    }
}

impl MmapIntervalListMapping {
    /// Sum of the overlap lengths between every query interval and every
    /// matching interval of `id`, without materializing the overlaps. Each
    /// overlapping pair contributes its full overlap, so an interval stored
    /// twice counts twice. The retained lower bound `j_bound` only skips
    /// matching intervals that can no longer overlap later query intervals.
    pub fn intersect_sum(
        &self,
        id: Id,
        intervals: &Vec<Iv>,
        payload_mask: u64,
        payload_value: u64,
        use_default: bool,
    ) -> (r: Result<u64, StoreError>)
        requires
            sorted_disjoint(intervals@),
            self.record_wf(id),
            self.has_spec(id) ==> pair_sum(
                intervals@,
                self.matching(id, payload_mask, payload_value),
            ) <= u64::MAX,
        ensures
            match r {
                Ok(s) => if self.has_spec(id) {
                    s == pair_sum(intervals@, self.matching(id, payload_mask, payload_value))
                } else {
                    use_default && s == 0
                },
                Err(e) => !self.has_spec(id) && !use_default && e == StoreError::NotFound,
            },
    {
        proof {
            use_type_invariant(&*self);
        }
        match self.index.get(id) {
            Some((base, cnt)) => {
                proof {
                    assert(self.index@.dom().contains(id));
                }
                let bvec = read_matching(
                    &self.data,
                    base,
                    cnt,
                    self.payload_len,
                    payload_mask,
                    payload_value,
                );
                let ghost a_s = intervals@;
                let ghost bm = self.matching(id, payload_mask, payload_value);
                proof {
                    assert(bvec@ == bm);
                    lemma_matching_wf(self.raw(id), payload_mask, payload_value);
                    lemma_pair_sum_nonneg(a_s, bm);
                }
                let alen = intervals.len();
                let blen = bvec.len();
                let mut res: u64 = 0;
                let mut j_bound: usize = 0;
                let mut i: usize = 0;
                while i < alen && j_bound < blen
                    invariant
                        i <= alen,
                        j_bound <= blen,
                        alen == a_s.len(),
                        blen == bm.len(),
                        a_s == intervals@,
                        bvec@ == bm,
                        self.has_spec(id),
                        bm == self.matching(id, payload_mask, payload_value),
                        sorted_disjoint(a_s),
                        sorted_by_start(bm),
                        pair_sum(a_s, bm) <= u64::MAX,
                        res == pair_sum(a_s.take(i as int), bm),
                        forall|p: int, q: int|
                            i <= p < a_s.len() && 0 <= q < j_bound ==> iv_len(
                                clip(#[trigger] a_s[p], #[trigger] bm[q]),
                            ) == 0,
                    decreases alen - i,
                {
                    let a = intervals[i];
                    let ghost jb0 = j_bound as int;
                    let mut j_local = j_bound;
                    let mut j_bound_end: u32 = 0;
                    let mut early = false;
                    proof {
                        assert forall|k: int| 0 <= k < jb0 implies iv_len(
                            clip(a_s[i as int], #[trigger] bm.take(jb0)[k]),
                        ) == 0 by {
                            assert(bm.take(jb0)[k] == bm[k]);
                        }
                        lemma_row_sum_take_stable(a_s[i as int], bm.take(jb0), 0);
                        assert(bm.take(jb0).take(0) =~= Seq::<Iv>::empty());
                        assert(row_sum(a_s[i as int], bm.take(jb0)) == 0);
                    }
                    while j_local < blen && !early
                        invariant
                            jb0 <= j_bound <= j_local <= blen,
                            i < alen,
                            alen == a_s.len(),
                            blen == bm.len(),
                            a_s == intervals@,
                            bvec@ == bm,
                            a == a_s[i as int],
                            sorted_disjoint(a_s),
                            sorted_by_start(bm),
                            pair_sum(a_s, bm) <= u64::MAX,
                            res == pair_sum(a_s.take(i as int), bm) + row_sum(
                                a_s[i as int],
                                bm.take(j_local as int),
                            ),
                            forall|p: int, q: int|
                                i < p < a_s.len() && 0 <= q < j_bound ==> iv_len(
                                    clip(#[trigger] a_s[p], #[trigger] bm[q]),
                                ) == 0,
                            forall|p: int, q: int|
                                i <= p < a_s.len() && 0 <= q < jb0 ==> iv_len(
                                    clip(#[trigger] a_s[p], #[trigger] bm[q]),
                                ) == 0,
                            forall|q: int|
                                jb0 <= q < j_local ==> (#[trigger] bm[q]).1 <= j_bound_end,
                            early ==> forall|k: int|
                                j_local <= k < blen ==> iv_len(
                                    clip(a_s[i as int], #[trigger] bm[k]),
                                ) == 0,
                        decreases blen - j_local + (if early {
                            0int
                        } else {
                            1int
                        }),
                    {
                        let b = bvec[j_local];
                        let st = if a.0 >= b.0 {
                            a.0
                        } else {
                            b.0
                        };
                        let en = if a.1 <= b.1 {
                            a.1
                        } else {
                            b.1
                        };
                        proof {
                            assert(clip(a_s[i as int], bm[j_local as int]) == (st, en));
                            lemma_row_sum_take_succ(a_s[i as int], bm, j_local as int);
                        }
                        if en > st {
                            proof {
                                lemma_row_sum_prefix_bound(a_s[i as int], bm, j_local as int + 1);
                                lemma_pair_sum_take_succ(a_s, bm, i as int);
                                lemma_pair_sum_prefix_bound(a_s, bm, i as int + 1);
                                lemma_pair_sum_nonneg(a_s.take(i as int), bm);
                                lemma_row_sum_nonneg(a_s[i as int], bm.take(j_local as int));
                            }
                            res = res + ((en - st) as u64);
                        } else {
                            proof {
                                assert(iv_len(clip(a_s[i as int], bm[j_local as int])) == 0);
                            }
                        }
                        if a.1 <= b.0 {
                            proof {
                                assert(iv_len(clip(a_s[i as int], bm[j_local as int])) == 0);
                                assert forall|k: int| j_local <= k < blen implies iv_len(
                                    clip(a_s[i as int], #[trigger] bm[k]),
                                ) == 0 by {
                                    assert(bm[j_local as int].0 <= bm[k].0);
                                }
                            }
                            early = true;
                        } else {
                            if b.1 >= j_bound_end {
                                j_bound_end = b.1;
                            }
                            if j_bound_end <= a.1 {
                                proof {
                                    assert forall|p: int, q: int|
                                        i < p < a_s.len() && 0 <= q < j_local implies iv_len(
                                        clip(#[trigger] a_s[p], #[trigger] bm[q]),
                                    ) == 0 by {
                                        if q >= jb0 {
                                            assert(bm[q].1 <= j_bound_end);
                                            assert(a_s[i as int].1 <= a_s[p].0);
                                        }
                                    }
                                }
                                j_bound = j_local;
                            }
                            j_local = j_local + 1;
                        }
                    }
                    proof {
                        if early {
                            lemma_row_sum_take_stable(a_s[i as int], bm, j_local as int);
                        } else {
                            assert(bm.take(j_local as int) =~= bm);
                        }
                        lemma_pair_sum_take_succ(a_s, bm, i as int);
                        assert(res == pair_sum(a_s.take(i as int + 1), bm));
                    }
                    i = i + 1;
                }
                proof {
                    if i == alen {
                        assert(a_s.take(i as int) =~= a_s);
                    } else {
                        assert(j_bound == blen);
                        assert forall|p: int| i as int <= p < a_s.len() implies row_sum(
                            #[trigger] a_s[p],
                            bm,
                        ) == 0 by {
                            assert forall|k: int| 0 <= k < bm.len() implies iv_len(
                                clip(a_s[p], #[trigger] bm[k]),
                            ) == 0 by {}
                            lemma_row_sum_take_stable(a_s[p], bm, 0);
                            assert(bm.take(0) =~= Seq::<Iv>::empty());
                        }
                        lemma_pair_sum_take_stable(a_s, bm, i as int);
                        assert(res == pair_sum(a_s, bm));
                    }
                }
                Ok(res)
            },
            None => {
                if use_default {
                    Ok(0)
                } else {
                    Err(StoreError::NotFound)
                }
            },
        }
    }
}

} // verus!
