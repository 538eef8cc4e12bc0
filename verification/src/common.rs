//! Byte-level access to a read-only memory mapping, little-endian field
//! extraction, and the offset index built by one sequential scan.

use vstd::prelude::*;
use memmap::Mmap;
use std::collections::HashMap;

verus! {

broadcast use vstd::std_specs::hash::group_hash_axioms;

/// An identifier keying one record of intervals.
pub type Id = u32;

#[verifier::external_type_specification]
#[verifier::external_body]
pub struct ExMmap(Mmap);

/// The bytes that a mapping holds. The mapping is read-only and the backing
/// file is assumed not to change while mapped, so the contents are a function
/// of the mapping itself.
pub uninterp spec fn mmap_seq(m: Mmap) -> Seq<u8>;

/// Relies on memmap's `Deref<Target = [u8]>`: a `Mmap` dereferences to the
/// mapped bytes, unchanged for the life of the mapping.
#[verifier::external_body]
pub fn mmap_slice(m: &Mmap) -> (r: &[u8])
    ensures
        r@ == mmap_seq(*m),
{
    &m[..]
}

/// Number of mapped bytes.
pub fn mmap_len(m: &Mmap) -> (r: usize)
    ensures
        r == mmap_seq(*m).len(),
{
    let s = mmap_slice(m);
    s.len()
}

/// 256 to the power `n`: the number of values `n` bytes can take.
pub open spec fn pow256(n: nat) -> nat
    decreases n,
{
    if n == 0 {
        1
    } else {
        256 * pow256((n - 1) as nat)
    }
}

/// The unsigned little-endian value of the `n` bytes of `s` starting at `i`.
pub open spec fn le_value(s: Seq<u8>, i: int, n: nat) -> nat
    decreases n,
{
    if n == 0 {
        0
    } else {
        (s[i] as nat) + 256 * le_value(s, i + 1, (n - 1) as nat)
    }
}

/// The four-byte little-endian field of `s` at `i`.
pub open spec fn u32_at(s: Seq<u8>, i: int) -> u32 {
    le_value(s, i, 4) as u32
}

pub proof fn lemma_le_value_bound(s: Seq<u8>, i: int, n: nat)
    ensures
        le_value(s, i, n) < pow256(n),
    decreases n,
{
    if n > 0 {
        lemma_le_value_bound(s, i + 1, (n - 1) as nat);
    }
}

pub proof fn lemma_pow256_values()
    ensures
        pow256(4) == 0x1_0000_0000,
        forall|n: nat| n <= 8 ==> #[trigger] pow256(n) <= 0x1_0000_0000_0000_0000,
{
    assert(pow256(0) == 1);
    assert(pow256(1) == 256);
    assert(pow256(2) == 0x1_0000);
    assert(pow256(3) == 0x100_0000);
    assert(pow256(4) == 0x1_0000_0000);
    assert(pow256(5) == 0x100_0000_0000);
    assert(pow256(6) == 0x1_0000_0000_0000);
    assert(pow256(7) == 0x100_0000_0000_0000);
    assert(pow256(8) == 0x1_0000_0000_0000_0000);
    assert forall|n: nat| n <= 8 implies #[trigger] pow256(n) <= 0x1_0000_0000_0000_0000 by {
        if n == 0 {
        } else if n == 1 {
        } else if n == 2 {
        } else if n == 3 {
        } else if n == 4 {
        } else if n == 5 {
        } else if n == 6 {
        } else if n == 7 {
        } else {
            assert(n == 8);
        }
    }
}

/// Little-endian read of `n` bytes (at most eight) of a slice, widened to 64
/// bits; zero bytes yield zero.
pub fn slice_le_value(s: &[u8], i: usize, n: usize) -> (r: u64)
    requires
        i + n <= s@.len(),
        n <= 8,
    ensures
        r as nat == le_value(s@, i as int, n as nat),
{
    let slen = s.len();
    let mut acc: u64 = 0;
    let mut k: usize = n;
    while k > 0
        invariant
            i + n <= s@.len(),
            s@.len() == slen,
            n <= 8,
            k <= n,
            acc as nat == le_value(s@, i + k, (n - k) as nat),
        decreases k,
    {
        k = k - 1;
        let b = s[i + k];
        proof {
            lemma_le_value_bound(s@, i + k, (n - k) as nat);
            lemma_pow256_values();
            assert(le_value(s@, i + k, (n - k) as nat) == (s@[i + k] as nat) + 256 * le_value(
                s@,
                i + k + 1,
                (n - k - 1) as nat,
            ));
        }
        acc = (b as u64) + 256 * acc;
    }
    acc
}

/// Four-byte little-endian read from a slice.
pub fn slice_u32(s: &[u8], i: usize) -> (r: u32)
    requires
        i + 4 <= s@.len(),
    ensures
        r == u32_at(s@, i as int),
{
    let v = slice_le_value(s, i, 4);
    proof {
        lemma_le_value_bound(s@, i as int, 4);
        lemma_pow256_values();
    }
    v as u32
}

/// Four-byte little-endian field of the mapped bytes at offset `i`.
pub fn mmap_read_u32(m: &Mmap, i: usize) -> (r: u32)
    requires
        i + 4 <= mmap_seq(*m).len(),
    ensures
        r == u32_at(mmap_seq(*m), i as int),
{
    let s = mmap_slice(m);
    slice_u32(s, i)
}

/// `n`-byte little-endian payload field of the mapped bytes at offset `i`,
/// zero-extended to 64 bits.
pub fn mmap_read_payload(m: &Mmap, i: usize, n: usize) -> (r: u64)
    requires
        i + n <= mmap_seq(*m).len(),
        n <= 8,
    ensures
        r as nat == le_value(mmap_seq(*m), i as int, n as nat),
{
    let s = mmap_slice(m);
    slice_le_value(s, i, n)
}

/// Whether the flat record format parses exactly to the end of `s`, scanning
/// from byte `i`: each record is an identifier, an interval count `n`, and
/// then `n` entries of `8 + payload_len` bytes.
pub open spec fn parse_ok_at(s: Seq<u8>, payload_len: nat, i: int) -> bool
    decreases s.len() - i,
    when 0 <= i <= s.len()
{
    if i == s.len() {
        true
    } else if i + 8 > s.len() {
        false
    } else {
        let n = le_value(s, i + 4, 4);
        let next = i + 8 + n * (8 + payload_len);
        if next > s.len() {
            false
        } else {
            parse_ok_at(s, payload_len, next)
        }
    }
}

/// The offset index that the scan from byte `i` produces: identifier to
/// (byte offset of the entries, interval count), a later record winning over
/// an earlier one with the same identifier.
pub open spec fn parse_map_at(s: Seq<u8>, payload_len: nat, i: int) -> Map<Id, (usize, usize)>
    decreases s.len() - i,
    when 0 <= i <= s.len()
{
    if i == s.len() || i + 8 > s.len() {
        Map::empty()
    } else {
        let id = u32_at(s, i);
        let n = le_value(s, i + 4, 4);
        let next = i + 8 + n * (8 + payload_len);
        if next > s.len() {
            Map::empty()
        } else {
            let tail = parse_map_at(s, payload_len, next);
            if tail.dom().contains(id) {
                tail
            } else {
                tail.insert(id, ((i + 8) as usize, n as usize))
            }
        }
    }
}

pub open spec fn parse_ok(s: Seq<u8>, payload_len: nat) -> bool {
    parse_ok_at(s, payload_len, 0)
}

pub open spec fn parse_map(s: Seq<u8>, payload_len: nat) -> Map<Id, (usize, usize)> {
    parse_map_at(s, payload_len, 0)
}

/// Every record span that the index describes lies within `limit` bytes.
pub open spec fn index_within(m: Map<Id, (usize, usize)>, payload_len: nat, limit: int) -> bool {
    forall|id: Id| #[trigger]
        m.dom().contains(id) ==> m[id].0 + m[id].1 * (8 + payload_len) <= limit
}

/// Identifier-to-record map built once at load time; immutable thereafter.
/// Iteration order of `id_seq` is the order records appear in the file and is
/// not semantically significant.
pub struct OffsetIndex {
    map: HashMap<Id, (usize, usize)>,
    ids: Vec<Id>,
}

impl View for OffsetIndex {
    type V = Map<Id, (usize, usize)>;

    closed spec fn view(&self) -> Map<Id, (usize, usize)> {
        self.map@
    }
}

impl OffsetIndex {
    pub closed spec fn id_seq(self) -> Seq<Id> {
        self.ids@
    }

    /// The index of an empty store: no identifiers.
    pub fn empty() -> (r: Self)
        ensures
            r@ == Map::<Id, (usize, usize)>::empty(),
            r.id_seq() == Seq::<Id>::empty(),
    {
        let map: HashMap<Id, (usize, usize)> = HashMap::new();
        let ids: Vec<Id> = Vec::new();
        proof {
            assert(ids@.to_set() =~= map@.dom());
        }
        OffsetIndex { map, ids }
    }

    #[verifier::type_invariant]
    spec fn inv(self) -> bool {
        &&& self.ids@.no_duplicates()
        &&& self.ids@.to_set() == self.map@.dom()
    }

    /// Number of identifiers indexed.
    pub fn len(&self) -> (r: usize)
        ensures
            r == self@.dom().len(),
    {
        proof {
            use_type_invariant(self);
            self.ids@.unique_seq_to_set();
        }
        self.ids.len()
    }

    /// Membership test.
    pub fn contains(&self, id: Id) -> (r: bool)
        ensures
            r == self@.dom().contains(id),
    {
        self.map.contains_key(&id)
    }

    /// Record span for `id`: byte offset of its entries and interval count.
    pub fn get(&self, id: Id) -> (r: Option<(usize, usize)>)
        ensures
            r == if self@.dom().contains(id) {
                Some(self@[id])
            } else {
                None::<(usize, usize)>
            },
    {
        match self.map.get(&id) {
            Some(v) => Some(*v),
            None => None,
        }
    }

    /// The indexed identifiers, in file order.
    pub fn id_list(&self) -> (r: Vec<Id>)
        ensures
            r@ == self.id_seq(),
            r@.no_duplicates(),
            r@.to_set() == self@.dom(),
            r@.len() == self@.dom().len(),
    {
        proof {
            use_type_invariant(self);
            self.ids@.unique_seq_to_set();
        }
        let mut out: Vec<Id> = Vec::new();
        let mut k: usize = 0;
        while k < self.ids.len()
            invariant
                k <= self.ids@.len(),
                out@ == self.ids@.take(k as int),
            decreases self.ids@.len() - k,
        {
            out.push(self.ids[k]);
            proof {
                assert(out@ =~= self.ids@.take(k + 1));
            }
            k = k + 1;
        }
        proof {
            assert(out@ =~= self.ids@);
        }
        out
    }
}

/// One sequential pass over the mapped bytes: partitions them into record
/// spans and validates that the scan lands exactly on the end of the buffer.
/// `None` exactly when the format is malformed (a header or a span would
/// overrun the end, or the scan stops short).
pub fn parse_offsets(m: &Mmap, payload_len: usize) -> (r: Option<OffsetIndex>)
    requires
        payload_len <= 8,
    ensures
        match r {
            Some(ix) => {
                &&& parse_ok(mmap_seq(*m), payload_len as nat)
                &&& ix@ == parse_map(mmap_seq(*m), payload_len as nat)
                &&& index_within(ix@, payload_len as nat, mmap_seq(*m).len() as int)
            },
            None => !parse_ok(mmap_seq(*m), payload_len as nat),
        },
{
    let s = mmap_slice(m);
    let ghost sq = mmap_seq(*m);
    let ghost plen = payload_len as nat;
    let len = s.len();
    let unit = 8 + payload_len;
    let mut map: HashMap<Id, (usize, usize)> = HashMap::new();
    let mut ids: Vec<Id> = Vec::new();
    let mut cursor: usize = 0;
    while cursor < len
        invariant
            s@ == sq,
            sq == mmap_seq(*m),
            len == sq.len(),
            plen == payload_len as nat,
            payload_len <= 8,
            unit == 8 + payload_len,
            cursor <= len,
            parse_ok_at(sq, plen, 0) <==> parse_ok_at(sq, plen, cursor as int),
            parse_ok_at(sq, plen, 0) ==> parse_map_at(sq, plen, 0) == map@.union_prefer_right(
                parse_map_at(sq, plen, cursor as int),
            ),
            ids@.no_duplicates(),
            ids@.to_set() == map@.dom(),
            index_within(map@, plen, cursor as int),
        decreases len - cursor,
    {
        if len - cursor < 8 {
            assert(!parse_ok_at(sq, plen, cursor as int));
            return None;
        }
        let id = slice_u32(s, cursor);
        let n32 = slice_u32(s, cursor + 4);
        let n = n32 as usize;
        proof {
            lemma_le_value_bound(sq, cursor + 4, 4);
            lemma_pow256_values();
            assert(n as nat == le_value(sq, cursor + 4, 4));
        }
        let remaining = len - (cursor + 8);
        if n > remaining / unit {
            proof {
                vstd::arithmetic::div_mod::lemma_fundamental_div_mod(
                    remaining as int,
                    unit as int,
                );
                let q = remaining as int / unit as int;
                let md = remaining as int % unit as int;
                assert(n * unit > remaining) by (nonlinear_arith)
                    requires
                        n as int >= q + 1,
                        remaining as int == unit as int * q + md,
                        0 <= md < unit as int,
                        unit as int > 0,
                ;
                assert(!parse_ok_at(sq, plen, cursor as int));
            }
            return None;
        }
        proof {
            vstd::arithmetic::div_mod::lemma_fundamental_div_mod(remaining as int, unit as int);
            let q = remaining as int / unit as int;
            let md = remaining as int % unit as int;
            assert(n * unit <= remaining) by (nonlinear_arith)
                requires
                    n as int <= q,
                    remaining as int == unit as int * q + md,
                    md >= 0,
                    unit as int > 0,
            ;
        }
        let span = n * unit;
        let base = cursor + 8;
        let ghost next = cursor as int + 8 + le_value(sq, cursor + 4, 4) * (8 + plen);
        proof {
            assert(next == base + span);
            assert(next <= len);
            assert(parse_ok_at(sq, plen, cursor as int) <==> parse_ok_at(sq, plen, next));
        }
        if !map.contains_key(&id) {
            let ghost ids0 = ids@;
            ids.push(id);
            proof {
                assert(!map@.dom().contains(id));
                assert(!ids0.contains(id));
                assert(ids@ == ids0.push(id));
                assert forall|p: int, q: int|
                    0 <= p < ids@.len() && 0 <= q < ids@.len() && p != q implies ids@[p]
                    != ids@[q] by {
                    if p < ids0.len() && q < ids0.len() {
                    } else if p == ids0.len() {
                        assert(ids0[q] != id);
                    } else {
                        assert(ids0[p] != id);
                    }
                }
                assert(ids@.no_duplicates());
                assert forall|x: Id| ids@.to_set().contains(x) <==> map@.dom().insert(
                    id,
                ).contains(x) by {
                    if ids@.contains(x) {
                        let w = choose|w: int| 0 <= w < ids@.len() && ids@[w] == x;
                        if w < ids0.len() {
                            assert(ids0.contains(x));
                        }
                    }
                    if map@.dom().insert(id).contains(x) {
                        if x == id {
                            assert(ids@[ids0.len() as int] == x);
                        } else {
                            assert(ids0.contains(x));
                            let w = choose|w: int| 0 <= w < ids0.len() && ids0[w] == x;
                            assert(ids@[w] == x);
                        }
                    }
                }
                assert(ids@.to_set() =~= map@.dom().insert(id));
            }
        }
        let ghost m0 = map@;
        map.insert(id, (base, n));
        proof {
            assert(map@ == m0.insert(id, (base, n)));
            assert(ids@.to_set() =~= map@.dom());
            if parse_ok_at(sq, plen, 0) {
                let tail = parse_map_at(sq, plen, next);
                let here = parse_map_at(sq, plen, cursor as int);
                assert(here == if tail.dom().contains(id) {
                    tail
                } else {
                    tail.insert(id, (base, n))
                });
                assert(m0.union_prefer_right(here) =~= map@.union_prefer_right(tail));
                assert(parse_map_at(sq, plen, 0) == map@.union_prefer_right(tail));
            }
            assert(index_within(map@, plen, next)) by {
                assert(map@[id].0 + map@[id].1 * (8 + plen) == next);
                assert forall|x: Id| #[trigger] map@.dom().contains(x) implies map@[x].0
                    + map@[x].1 * (8 + plen) <= next by {
                    if x != id {
                        assert(m0.dom().contains(x));
                    }
                }
            }
        }
        cursor = base + span;
    }
    proof {
        assert(cursor == len);
        assert(parse_ok_at(sq, plen, cursor as int));
        assert(parse_map_at(sq, plen, cursor as int) == Map::<Id, (usize, usize)>::empty());
    }
    let ix = OffsetIndex { map, ids };
    proof {
        assert(ix@ =~= ix@.union_prefer_right(Map::empty()));
    }
    Some(ix)
}

} // verus!
