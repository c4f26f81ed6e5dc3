//! Immutable sorted runs of records and the sparse index over them.
use vstd::prelude::*;
use crate::order::{
    KeyOrder, compare_keys, key_lt, lemma_key_lt_asymmetric, lemma_key_lt_irreflexive,
    lemma_key_lt_transitive,
};
use crate::entries::{
    EntryView, copy_bytes, fits_u32, lemma_lookup_sorted_key, lookup, opt_bytes, sorted,
};
use crate::codec::{decode_record, decode_records, record_at, records_from};

verus! {

/// `a` followed by the entries of `o`, or nothing when `o` is nothing.
pub open spec fn prepend(a: Seq<EntryView>, o: Option<Seq<EntryView>>) -> Option<Seq<EntryView>> {
    match o {
        Some(s) => Some(a + s),
        None => None,
    }
}

/// The position of the last sample whose key is at most `key`, or -1.
pub open spec fn start_sample(s: Seq<(Seq<u8>, int)>, key: Seq<u8>) -> int
    decreases s.len(),
{
    if s.len() == 0 {
        -1
    } else if !key_lt(key, s.last().0) {
        s.len() - 1
    } else {
        start_sample(s.drop_last(), key)
    }
}

/// Where a scan for `key` starts: the offset of the greatest sampled key at
/// most `key`, or the start of the segment.
pub open spec fn start_offset(s: Seq<(Seq<u8>, int)>, key: Seq<u8>) -> int {
    let i = start_sample(s, key);
    if i < 0 {
        0
    } else {
        s[i].1
    }
}

pub proof fn lemma_start_sample(s: Seq<(Seq<u8>, int)>, key: Seq<u8>)
    ensures
        -1 <= start_sample(s, key) < s.len(),
        start_sample(s, key) >= 0 ==> !key_lt(key, s[start_sample(s, key)].0),
        forall|j: int| start_sample(s, key) < j < s.len() ==> key_lt(key, #[trigger] s[j].0),
    decreases s.len(),
{
    if s.len() > 0 && key_lt(key, s.last().0) {
        lemma_start_sample(s.drop_last(), key);
        assert forall|j: int| start_sample(s, key) < j < s.len() implies key_lt(key, #[trigger] s[j].0) by {
            if j < s.len() - 1 {
                assert(s[j] == s.drop_last()[j]);
            }
        }
    }
}

proof fn lemma_start_sample_at(s: Seq<(Seq<u8>, int)>, key: Seq<u8>, p: int)
    requires
        0 <= p <= s.len(),
        forall|j: int| p <= j < s.len() ==> key_lt(key, #[trigger] s[j].0),
        p > 0 ==> !key_lt(key, s[p - 1].0),
    ensures
        start_sample(s, key) == p - 1,
    decreases s.len(),
{
    if s.len() > p {
        assert(key_lt(key, s[s.len() - 1].0));
        lemma_start_sample_at(s.drop_last(), key, p);
    }
}

/// The record numbers `pos` sample `n` records every `interval` records,
/// from the first one on.
pub open spec fn sampled_every(pos: Seq<int>, n: int, interval: int) -> bool {
    &&& n == 0 ==> pos.len() == 0
    &&& n > 0 ==> pos.len() > 0 && pos[0] == 0 && pos.last() <= n - 1 && n - 1 < pos.last() + interval
    &&& forall|s: int| 0 <= s < pos.len() - 1 ==> #[trigger] pos[s + 1] == pos[s] + interval
}

/// Sampled keys with the byte offsets of their records, ascending by key.
pub struct SparseIndex {
    samples: Vec<(Vec<u8>, usize)>,
    positions: Ghost<Seq<int>>,
}

impl SparseIndex {
    /// The samples as keys and offsets.
    pub closed spec fn samples_spec(&self) -> Seq<(Seq<u8>, int)> {
        self.samples@.map_values(|x: (Vec<u8>, usize)| (x.0@, x.1 as int))
    }

    /// The record number that each sample points at.
    pub closed spec fn positions_spec(&self) -> Seq<int> {
        self.positions@
    }

    pub closed spec fn wf(&self) -> bool {
        &&& self.positions@.len() == self.samples@.len()
        &&& forall|i: int, j: int|
            0 <= i < j < self.samples@.len() ==> #[trigger] key_lt(
                self.samples_spec()[i].0,
                self.samples_spec()[j].0,
            )
    }

    /// Number of samples.
    pub fn len(&self) -> (r: usize)
        ensures
            r == self.samples_spec().len(),
    {
        self.samples.len()
    }

    /// The offset at which a scan for `key` may start without passing it.
    pub fn lookup(&self, key: &[u8]) -> (r: usize)
        requires
            self.wf(),
        ensures
            r as int == start_offset(self.samples_spec(), key@),
    {
        let ghost s = self.samples_spec();
        let mut lo: usize = 0;
        let mut hi: usize = self.samples.len();
        while lo < hi
            invariant
                s == self.samples_spec(),
                self.wf(),
                s.len() == self.samples@.len(),
                lo <= hi <= s.len(),
                forall|i: int| 0 <= i < lo ==> !key_lt(key@, #[trigger] s[i].0),
                forall|j: int| hi <= j < s.len() ==> key_lt(key@, #[trigger] s[j].0),
            decreases hi - lo,
        {
            let mid = lo + (hi - lo) / 2;
            let c = compare_keys(key, self.samples[mid].0.as_slice());
            proof {
                assert(s[mid as int].0 == self.samples@[mid as int].0@);
            }
            if c == KeyOrder::Less {
                proof {
                    assert forall|j: int| mid <= j < s.len() implies key_lt(key@, #[trigger] s[j].0) by {
                        if j > mid {
                            assert(key_lt(s[mid as int].0, s[j].0));
                            lemma_key_lt_transitive(key@, s[mid as int].0, s[j].0);
                        }
                    }
                }
                hi = mid;
            } else {
                proof {
                    assert forall|i: int| 0 <= i <= mid implies !key_lt(key@, #[trigger] s[i].0) by {
                        if i < mid && key_lt(key@, s[i].0) {
                            assert(key_lt(s[i].0, s[mid as int].0));
                            lemma_key_lt_transitive(key@, s[i].0, s[mid as int].0);
                        }
                    }
                }
                lo = mid + 1;
            }
        }
        proof {
            lemma_start_sample_at(s, key@, lo as int);
        }
        if lo == 0 {
            0
        } else {
            proof {
                assert(s[lo - 1].1 == self.samples@[lo - 1].1 as int);
            }
            self.samples[lo - 1].1
        }
    }
}

/// Diagnostic figures of a segment.
#[derive(PartialEq, Eq, Structural, Clone, Copy, Debug)]
pub struct SegmentInfo {
    pub id: u64,
    pub records: usize,
    pub samples: usize,
    pub bytes: usize,
}

/// An immutable sorted run of records, with its sparse index.
pub struct Segment {
    id: u64,
    data: Vec<u8>,
    index: SparseIndex,
    record_count: usize,
    records: Ghost<Seq<EntryView>>,
}

impl Segment {
    pub closed spec fn id_spec(&self) -> u64 {
        self.id
    }

    /// The segment's bytes.
    pub closed spec fn data_spec(&self) -> Seq<u8> {
        self.data@
    }

    /// The records, ascending by key.
    pub closed spec fn records(&self) -> Seq<EntryView> {
        self.records@
    }

    pub closed spec fn index_spec(&self) -> SparseIndex {
        self.index
    }

    pub closed spec fn wf(&self) -> bool {
        let recs = self.records@;
        let s = self.index.samples_spec();
        let pos = self.index.positions@;
        &&& decode_records(self.data@) == Some(recs)
        &&& sorted(recs)
        &&& fits_u32(recs)
        &&& self.record_count == recs.len()
        &&& self.index.wf()
        &&& forall|i: int|
            #![trigger pos[i]]
            0 <= i < s.len() ==> {
                &&& 0 <= pos[i] < recs.len()
                &&& s[i].0 == recs[pos[i]].0
                &&& records_from(self.data@, s[i].1) == Some(recs.subrange(pos[i], recs.len() as int))
            }
    }

    /// A well-formed segment decodes to its records, which are sorted, and
    /// each sample names the key and offset of the record it points at.
    pub proof fn lemma_wf(&self)
        requires
            self.wf(),
        ensures
            decode_records(self.data_spec()) == Some(self.records()),
            sorted(self.records()),
            fits_u32(self.records()),
            self.index_spec().wf(),
            self.index_spec().positions_spec().len() == self.index_spec().samples_spec().len(),
            forall|i: int|
                #![trigger self.index_spec().positions_spec()[i]]
                0 <= i < self.index_spec().samples_spec().len() ==> {
                    let p = self.index_spec().positions_spec()[i];
                    &&& 0 <= p < self.records().len()
                    &&& self.index_spec().samples_spec()[i].0 == self.records()[p].0
                    &&& records_from(self.data_spec(), self.index_spec().samples_spec()[i].1)
                        == Some(self.records().subrange(p, self.records().len() as int))
                },
    {
    }

    /// The scan for `key` starts at a record boundary, after records whose keys
    /// all sort before `key`.
    pub proof fn lemma_start_never_overshoots(&self, key: Seq<u8>) -> (n: int)
        requires
            self.wf(),
        ensures
            0 <= n <= self.records().len(),
            records_from(self.data_spec(), start_offset(self.index_spec().samples_spec(), key))
                == Some(self.records().subrange(n, self.records().len() as int)),
            forall|j: int| 0 <= j < n ==> key_lt(#[trigger] self.records()[j].0, key),
    {
        let recs = self.records@;
        let s = self.index.samples_spec();
        let pos = self.index.positions@;
        lemma_start_sample(s, key);
        let i = start_sample(s, key);
        if i < 0 {
            assert(recs.subrange(0, recs.len() as int) =~= recs);
            assert(records_from(self.data@, 0) == Some(recs.subrange(0, recs.len() as int)));
            0
        } else {
            let n = pos[i];
            assert forall|j: int| 0 <= j < n implies key_lt(#[trigger] recs[j].0, key) by {
                assert(key_lt(recs[j].0, recs[n].0));
                if recs[n].0 != key {
                    crate::order::lemma_key_lt_total(key, recs[n].0);
                    lemma_key_lt_transitive(recs[j].0, recs[n].0, key);
                }
            }
            assert(records_from(self.data@, start_offset(s, key)) == Some(
                recs.subrange(n, recs.len() as int),
            ));
            n
        }
    }

    pub fn id(&self) -> (r: u64)
        ensures
            r == self.id_spec(),
    {
        self.id
    }

    pub fn data(&self) -> (r: &Vec<u8>)
        ensures
            r@ == self.data_spec(),
    {
        &self.data
    }

    pub fn index(&self) -> (r: &SparseIndex)
        ensures
            *r == self.index_spec(),
    {
        &self.index
    }

    /// Record count, sample count and size in bytes.
    pub fn inspect(&self) -> (r: SegmentInfo)
        requires
            self.wf(),
        ensures
            r.id == self.id_spec(),
            r.records == self.records().len(),
            r.samples == self.index_spec().samples_spec().len(),
            r.bytes == self.data_spec().len(),
    {
        SegmentInfo {
            id: self.id,
            records: self.record_count,
            samples: self.index.len(),
            bytes: self.data.len(),
        }
    }

    /// Loads a segment image, sampling every `interval`-th record; `None`
    /// unless the image is well formed with keys strictly ascending.
    pub fn load(id: u64, data: Vec<u8>, interval: usize) -> (r: Option<Segment>)
        requires
            interval > 0,
        ensures
            r is Some <==> (decode_records(data@) is Some && sorted(decode_records(data@).unwrap())),
            r is Some ==> {
                &&& r.unwrap().wf()
                &&& r.unwrap().id_spec() == id
                &&& r.unwrap().data_spec() == data@
                &&& r.unwrap().records() == decode_records(data@).unwrap()
                &&& sampled_every(
                    r.unwrap().index_spec().positions_spec(),
                    r.unwrap().records().len() as int,
                    interval as int,
                )
            },
    {
        let ghost d = data@;
        let mut p: usize = 0;
        let mut n: usize = 0;
        let mut until: usize = 0;
        let ghost mut seen: Seq<EntryView> = Seq::empty();
        let mut last_key: Option<Vec<u8>> = None;
        let mut samples: Vec<(Vec<u8>, usize)> = Vec::new();
        let ghost mut pos: Seq<int> = Seq::empty();
        proof {
            assert(prepend(seen, records_from(d, p as int)) == records_from(d, 0)) by {
                match records_from(d, 0) {
                    Some(x) => {
                        assert(seen + x =~= x);
                    },
                    None => {},
                }
            }
        }
        while p < data.len()
            invariant
                d == data@,
                interval > 0,
                p <= d.len(),
                n == seen.len(),
                n <= p,
                records_from(d, 0) == prepend(seen, records_from(d, p as int)),
                sorted(seen),
                fits_u32(seen),
                last_key is Some <==> seen.len() > 0,
                last_key is Some ==> last_key.unwrap()@ == seen.last().0,
                samples@.len() == pos.len(),
                sampled_every(pos, n as int, interval as int),
                n == 0 ==> until == 0,
                n > 0 ==> until == pos.last() + interval - n,
                forall|i: int, j: int| 0 <= i < j < pos.len() ==> pos[i] < pos[j],
                forall|i: int|
                    #![trigger pos[i]]
                    0 <= i < pos.len() ==> {
                        &&& 0 <= pos[i] < seen.len()
                        &&& samples@[i].0@ == seen[pos[i]].0
                        &&& records_from(d, samples@[i].1 as int) == prepend(
                            seen.subrange(pos[i], seen.len() as int),
                            records_from(d, p as int),
                        )
                    },
            decreases d.len() - p,
        {
            let rec = decode_record(data.as_slice(), p);
            match rec {
                None => {
                    return None;
                },
                Some((k, v, next)) => {
                    let ghost x: EntryView = (k@, v@);
                    let ghost rest = records_from(d, next as int);
                    proof {
                        assert(records_from(d, p as int) == prepend(seq![x], rest));
                    }
                    match &last_key {
                        Some(lk) => {
                            if compare_keys(lk.as_slice(), k.as_slice()) != KeyOrder::Less {
                                proof {
                                    match rest {
                                        Some(t) => {
                                            let full = seen + (seq![x] + t);
                                            assert(full[seen.len() - 1] == seen.last());
                                            assert(full[seen.len() as int] == x);
                                            assert(!key_lt(full[seen.len() - 1].0, full[seen.len() as int].0));
                                        },
                                        None => {},
                                    }
                                }
                                return None;
                            }
                        },
                        None => {},
                    }
                    proof {
                        let ns = seen.push(x);
                        assert forall|i: int, j: int| 0 <= i < j < ns.len() implies #[trigger] key_lt(
                            ns[i].0,
                            ns[j].0,
                        ) by {
                            if j == seen.len() && i < seen.len() - 1 {
                                assert(key_lt(seen[i].0, seen.last().0));
                                lemma_key_lt_transitive(seen[i].0, seen.last().0, x.0);
                            } else if j < seen.len() {
                                assert(key_lt(seen[i].0, seen[j].0));
                            }
                        }
                        assert forall|i: int| 0 <= i < pos.len() implies
                            records_from(d, #[trigger] samples@[i].1 as int) == prepend(
                                ns.subrange(pos[i], ns.len() as int),
                                rest,
                            ) by {
                            assert(seen.subrange(pos[i], seen.len() as int) + seq![x] =~= ns.subrange(
                                pos[i],
                                ns.len() as int,
                            ));
                            match rest {
                                Some(t) => {
                                    assert(seen.subrange(pos[i], seen.len() as int) + (seq![x] + t)
                                        =~= ns.subrange(pos[i], ns.len() as int) + t);
                                },
                                None => {},
                            }
                        }
                        match rest {
                            Some(t) => {
                                assert(seen + (seq![x] + t) =~= ns + t);
                            },
                            None => {},
                        }
                    }
                    if until == 0 {
                        until = interval - 1;
                        let kc = copy_bytes(k.as_slice());
                        samples.push((kc, p));
                        proof {
                            let ns = seen.push(x);
                            assert(ns.subrange(n as int, ns.len() as int) =~= seq![x]);
                            pos = pos.push(n as int);
                        }
                    } else {
                        until = until - 1;
                    }
                    proof {
                        seen = seen.push(x);
                    }
                    last_key = Some(k);
                    n = n + 1;
                    p = next;
                }
            }
        }
        proof {
            assert(records_from(d, p as int) == Some(Seq::<EntryView>::empty()));
            assert(seen + Seq::<EntryView>::empty() =~= seen);
            assert forall|i: int| 0 <= i < pos.len() implies
                seen.subrange(pos[i], seen.len() as int) + Seq::<EntryView>::empty()
                    =~= #[trigger] seen.subrange(pos[i], seen.len() as int) by {}
        }
        let index = SparseIndex { samples, positions: Ghost(pos) };
        proof {
            let s = index.samples_spec();
            assert forall|i: int, j: int| 0 <= i < j < s.len() implies #[trigger] key_lt(
                s[i].0,
                s[j].0,
            ) by {
                assert(s[i].0 == seen[pos[i]].0);
                assert(s[j].0 == seen[pos[j]].0);
            }
            assert forall|i: int| 0 <= i < s.len() implies s[i].1 == samples@[i].1 as int && s[i].0
                == samples@[i].0@ by {}
        }
        let seg = Segment { id, data, index, record_count: n, records: Ghost(seen) };
        proof {
            let s = seg.index.samples_spec();
            assert forall|i: int|
                #![trigger pos[i]]
                0 <= i < s.len() implies records_from(seg.data@, s[i].1) == Some(
                    seen.subrange(pos[i], seen.len() as int),
                ) by {
                assert(s[i].1 == seg.index.samples@[i].1 as int);
            }
        }
        Some(seg)
    }

    /// The value of `key` in this segment, if any.
    pub fn get(&self, key: &[u8]) -> (r: Option<Vec<u8>>)
        requires
            self.wf(),
        ensures
            opt_bytes(r) == lookup(self.records(), key@),
    {
        let ghost recs = self.records@;
        let ghost d = self.data@;
        let mut p: usize = self.index.lookup(key);
        let ghost mut n: int = self.lemma_start_never_overshoots(key@);
        proof {
            lemma_lookup_sorted_key(recs, key@);
            lemma_key_lt_irreflexive(key@);
        }
        while p < self.data.len()
            invariant
                self.wf(),
                recs == self.records@,
                d == self.data@,
                lookup(recs, key@) is Some <==> exists|i: int| 0 <= i < recs.len() && recs[i].0 == key@,
                forall|i: int| 0 <= i < recs.len() && recs[i].0 == key@ ==> lookup(recs, key@) == Some(recs[i].1),
                !key_lt(key@, key@),
                0 <= n <= recs.len(),
                records_from(d, p as int) == Some(recs.subrange(n, recs.len() as int)),
                forall|j: int| 0 <= j < n ==> key_lt(#[trigger] recs[j].0, key@),
            decreases d.len() - p,
        {
            let rec = decode_record(self.data.as_slice(), p);
            match rec {
                None => {
                    return None;
                },
                Some((k, v, next)) => {
                    proof {
                        let t = recs.subrange(n, recs.len() as int);
                        assert(record_at(d, p as int) == Some(((k@, v@), next as int)));
                        assert(next > p);
                        assert(records_from(d, next as int) is Some);
                        assert(t =~= seq![(k@, v@)] + records_from(d, next as int).unwrap());
                        assert(t[0] == recs[n]);
                        assert(t.drop_first() =~= recs.subrange(n + 1, recs.len() as int));
                    }
                    match compare_keys(k.as_slice(), key) {
                        KeyOrder::Equal => {
                            return Some(v);
                        },
                        KeyOrder::Greater => {
                            proof {
                                assert forall|i: int| 0 <= i < recs.len() implies recs[i].0 != key@ by {
                                    if i > n {
                                        assert(key_lt(recs[n].0, recs[i].0));
                                        lemma_key_lt_transitive(key@, recs[n].0, recs[i].0);
                                    } else if i < n {
                                        assert(key_lt(recs[i].0, key@));
                                    }
                                }
                            }
                            return None;
                        },
                        KeyOrder::Less => {
                            proof {
                                n = n + 1;
                            }
                            p = next;
                        },
                    }
                },
            }
        }
        proof {
            assert forall|i: int| 0 <= i < recs.len() implies recs[i].0 != key@ by {
                assert(key_lt(recs[i].0, key@));
            }
        }
        None
    }

    /// All records, ascending by key.
    pub fn entries(&self) -> (r: Vec<(Vec<u8>, Vec<u8>)>)
        requires
            self.wf(),
        ensures
            crate::entries::entries_view(r@) == self.records(),
    {
        let ghost recs = self.records@;
        let ghost d = self.data@;
        let mut out: Vec<(Vec<u8>, Vec<u8>)> = Vec::new();
        let mut p: usize = 0;
        proof {
            assert(recs.subrange(0, recs.len() as int) =~= recs);
        }
        while p < self.data.len()
            invariant
                self.wf(),
                recs == self.records@,
                d == self.data@,
                out@.len() <= recs.len(),
                crate::entries::entries_view(out@) == recs.subrange(0, out@.len() as int),
                records_from(d, p as int) == Some(recs.subrange(out@.len() as int, recs.len() as int)),
            decreases d.len() - p,
        {
            let rec = decode_record(self.data.as_slice(), p);
            let ghost n = out@.len() as int;
            match rec {
                None => {
                    proof {
                        assert(false);
                    }
                    return out;
                },
                Some((k, v, next)) => {
                    proof {
                        let t = recs.subrange(n, recs.len() as int);
                        assert(record_at(d, p as int) == Some(((k@, v@), next as int)));
                        assert(records_from(d, next as int) is Some);
                        assert(t =~= seq![(k@, v@)] + records_from(d, next as int).unwrap());
                        assert(t[0] == recs[n]);
                        assert(t.drop_first() =~= recs.subrange(n + 1, recs.len() as int));
                    }
                    out.push((k, v));
                    proof {
                        assert(crate::entries::entries_view(out@) =~= recs.subrange(0, n + 1));
                    }
                    p = next;
                },
            }
        }
        proof {
            assert(recs.subrange(out@.len() as int, recs.len() as int).len() == 0);
            assert(crate::entries::entries_view(out@) =~= recs);
        }
        out
    }
}

} // verus!
