//! The store: the segment list, the log image, and the rules that tie them.
use vstd::prelude::*;
use crate::entries::{
    EntryView, entries_view, fits_u32, lemma_lookup_sorted_key, lookup, opt_bytes, sorted, to_map,
};
use crate::memtable::Memtable;
use crate::segment::{Segment, SegmentInfo};
use crate::config::{segment_file_id, segment_id_of};
use crate::codec::{decode_records, encode_records, encode_segment, lemma_decode_encode};
use crate::compaction::{lemma_lookup_concat, merge_runs, newer_wins};
use crate::wal::{WalError, encode_assignment, line_of, parse_wal, valid_key, valid_value, apply_all};

verus! {

/// Records between two samples of a segment's sparse index.
pub const SAMPLE_INTERVAL: usize = 16;

/// The image decodes to records with keys strictly ascending.
pub open spec fn loadable(d: Seq<u8>) -> bool {
    crate::codec::decode_records(d) is Some && sorted(crate::codec::decode_records(d).unwrap())
}

/// `files` holds an image with this id that decodes to these records.
pub open spec fn from_file(files: Seq<(u64, Vec<u8>)>, id: u64, recs: Seq<EntryView>) -> bool {
    exists|i: int|
        0 <= i < files.len() && #[trigger] files[i].0 == id && recs == crate::codec::decode_records(
            files[i].1@,
        ).unwrap()
}

/// The value of `k` in the newest run that holds it.
pub open spec fn newest_first(runs: Seq<Seq<EntryView>>, k: Seq<u8>) -> Option<Seq<u8>>
    decreases runs.len(),
{
    if runs.len() == 0 {
        None
    } else {
        match lookup(runs.last(), k) {
            Some(v) => Some(v),
            None => newest_first(runs.drop_last(), k),
        }
    }
}

/// What one compaction did: the segment written and the segments it replaced.
pub struct Compaction {
    pub id: u64,
    pub removed: Vec<u64>,
}

/// Segments from oldest to newest, and the write-ahead log's contents.
pub struct Store {
    segments: Vec<Segment>,
    wal: Vec<u8>,
    next_id: u64,
}

impl View for Store {
    type V = Map<Seq<u8>, Seq<u8>>;

    /// What a read of each key returns.
    closed spec fn view(&self) -> Map<Seq<u8>, Seq<u8>> {
        Map::new(
            |k: Seq<u8>| newest_first(self.runs(), k) is Some,
            |k: Seq<u8>| newest_first(self.runs(), k).unwrap(),
        )
    }
}

impl Store {
    /// The records of each segment, oldest first.
    pub closed spec fn runs(&self) -> Seq<Seq<EntryView>> {
        self.segments@.map_values(|s: Segment| s.records())
    }

    /// The id of each segment, oldest first.
    pub closed spec fn ids(&self) -> Seq<u64> {
        self.segments@.map_values(|s: Segment| s.id_spec())
    }

    pub closed spec fn wal_spec(&self) -> Seq<u8> {
        self.wal@
    }

    pub closed spec fn next_id_spec(&self) -> u64 {
        self.next_id
    }

    pub closed spec fn wf(&self) -> bool {
        &&& forall|i: int| 0 <= i < self.segments@.len() ==> (#[trigger] self.segments@[i]).wf()
        &&& forall|i: int, j: int|
            #![trigger self.segments@[i], self.segments@[j]]
            0 <= i < j < self.segments@.len() ==> self.segments@[i].id_spec()
                < self.segments@[j].id_spec()
        &&& forall|i: int|
            0 <= i < self.segments@.len() ==> (#[trigger] self.segments@[i]).id_spec()
                < self.next_id
    }

    /// An empty store.
    pub fn new() -> (r: Store)
        ensures
            r.wf(),
            r.runs().len() == 0,
            r.wal_spec().len() == 0,
            r@ == Map::<Seq<u8>, Seq<u8>>::empty(),
    {
        let r = Store { segments: Vec::new(), wal: Vec::new(), next_id: 1 };
        proof {
            assert(r@ =~= Map::<Seq<u8>, Seq<u8>>::empty());
        }
        r
    }

    /// A store over existing segment images, given as ids with bytes in any
    /// order, and the log's contents. Images that do not load are skipped;
    /// of two with one id the first is kept.
    pub fn open(files: &Vec<(u64, Vec<u8>)>, wal: Vec<u8>) -> (r: Store)
        ensures
            r.wf(),
            r.wal_spec() == wal@,
            forall|s: int|
                0 <= s < r.ids().len() ==> #[trigger] from_file(files@, r.ids()[s], r.runs()[s]),
            forall|i: int|
                0 <= i < files@.len() && files@[i].0 < u64::MAX && #[trigger] loadable(files@[i].1@) ==> r.ids().contains(files@[i].0),
    {
        let mut segments: Vec<Segment> = Vec::new();
        let mut next_id: u64 = 1;
        let mut i: usize = 0;
        while i < files.len()
            invariant
                i <= files@.len(),
                forall|t: int| 0 <= t < segments@.len() ==> (#[trigger] segments@[t]).wf(),
                forall|s: int, t: int|
                    #![trigger segments@[s], segments@[t]]
                    0 <= s < t < segments@.len() ==> segments@[s].id_spec()
                        < segments@[t].id_spec(),
                forall|t: int| 0 <= t < segments@.len() ==> (#[trigger] segments@[t]).id_spec() < next_id,
                forall|s: int|
                    #![trigger segments@[s]]
                    0 <= s < segments@.len() ==> exists|t: int|
                        0 <= t < files@.len() && #[trigger] files@[t].0 == segments@[s].id_spec()
                            && segments@[s].records() == crate::codec::decode_records(
                            files@[t].1@,
                        ).unwrap(),
                forall|t: int|
                    0 <= t < i && files@[t].0 < u64::MAX && #[trigger] loadable(files@[t].1@) ==> exists|s: int|
                        0 <= s < segments@.len() && segments@[s].id_spec() == files@[t].0,
            decreases files@.len() - i,
        {
            let id = files[i].0;
            if id < u64::MAX {
                let data = crate::entries::copy_bytes(files[i].1.as_slice());
                match Segment::load(id, data, SAMPLE_INTERVAL) {
                    Some(seg) => {
                        let mut p: usize = 0;
                        while p < segments.len() && segments[p].id() < id
                            invariant
                                p <= segments@.len(),
                                forall|t: int| 0 <= t < p ==> (#[trigger] segments@[t]).id_spec() < id,
                            decreases segments@.len() - p,
                        {
                            p = p + 1;
                        }
                        if p < segments.len() && segments[p].id() == id {
                            proof {
                                assert(segments@[p as int].id_spec() == files@[i as int].0);
                            }
                        } else {
                            let ghost old_segs = segments@;
                            segments.insert(p, seg);
                            proof {
                                assert forall|s: int, t: int|
                                    #![trigger segments@[s], segments@[t]]
                                    0 <= s < t < segments@.len() implies segments@[s].id_spec()
                                        < segments@[t].id_spec() by {
                                    if s < p && t > p {
                                        assert(old_segs[s].id_spec() < id);
                                        assert(segments@[t] == old_segs[t - 1]);
                                        if p < old_segs.len() {
                                            assert(id < old_segs[p as int].id_spec());
                                            if t - 1 > p {
                                                assert(old_segs[p as int].id_spec()
                                                    < old_segs[t - 1].id_spec());
                                            }
                                        }
                                    } else if s == p && t > p {
                                        assert(id < old_segs[p as int].id_spec());
                                        if t - 1 > p {
                                            assert(old_segs[p as int].id_spec()
                                                < old_segs[t - 1].id_spec());
                                        }
                                    } else if s > p {
                                        assert(segments@[s] == old_segs[s - 1]);
                                        assert(segments@[t] == old_segs[t - 1]);
                                    } else if t == p {
                                        assert(old_segs[s].id_spec() < id);
                                    }
                                }
                                assert forall|t: int| #![trigger segments@[t]] 0 <= t < segments@.len() implies
                                segments@[t].wf() && segments@[t].id_spec() < (if id
                                    >= next_id {
                                    id + 1
                                } else {
                                    next_id as int
                                }) by {
                                    if t < p {
                                        assert(segments@[t] == old_segs[t]);
                                    } else if t > p {
                                        assert(segments@[t] == old_segs[t - 1]);
                                    }
                                }
                                assert forall|s: int| #![trigger segments@[s]] 0 <= s < segments@.len() implies exists|
                                    t: int,
                                |
                                    0 <= t < files@.len() && #[trigger] files@[t].0
                                        == segments@[s].id_spec() && segments@[s].records()
                                        == crate::codec::decode_records(files@[t].1@).unwrap() by {
                                    if s < p {
                                        assert(segments@[s] == old_segs[s]);
                                    } else if s > p {
                                        assert(segments@[s] == old_segs[s - 1]);
                                    } else {
                                        assert(files@[i as int].0 == segments@[s].id_spec());
                                    }
                                }
                                assert forall|t: int|
                                    0 <= t < i && files@[t].0 < u64::MAX && #[trigger] loadable(files@[t].1@) implies exists|s: int|
                                        0 <= s < segments@.len() && segments@[s].id_spec()
                                            == files@[t].0 by {
                                    let s = choose|s: int|
                                        0 <= s < old_segs.len() && old_segs[s].id_spec()
                                            == files@[t].0;
                                    if s < p {
                                        assert(segments@[s] == old_segs[s]);
                                    } else {
                                        assert(segments@[s + 1] == old_segs[s]);
                                    }
                                }
                            }
                            proof {
                                assert(segments@[p as int].id_spec() == files@[i as int].0);
                            }
                            if id >= next_id {
                                next_id = id + 1;
                            }
                        }
                    },
                    None => {},
                }
            }
            i = i + 1;
        }
        let r = Store { segments, wal, next_id };
        proof {
            assert forall|s: int| 0 <= s < r.ids().len() implies #[trigger] from_file(files@, r.ids()[s], r.runs()[s]) by {
                assert(r.ids()[s] == r.segments@[s].id_spec());
                assert(r.runs()[s] == r.segments@[s].records());
                let t = choose|t: int|
                    0 <= t < files@.len() && #[trigger] files@[t].0 == r.segments@[s].id_spec()
                        && r.segments@[s].records() == crate::codec::decode_records(files@[t].1@).unwrap();
                assert(files@[t].0 == r.ids()[s]);
            }
            assert forall|i: int|
                0 <= i < files@.len() && files@[i].0 < u64::MAX && #[trigger] loadable(files@[i].1@) implies r.ids().contains(files@[i].0) by {
                let s = choose|s: int|
                    0 <= s < r.segments@.len() && r.segments@[s].id_spec() == files@[i].0;
                assert(r.ids()[s] == files@[i].0);
            }
        }
        r
    }

    proof fn lemma_runs_index(&self, i: int)
        requires
            0 <= i < self.segments@.len(),
        ensures
            self.runs()[i] == self.segments@[i].records(),
            self.ids()[i] == self.segments@[i].id_spec(),
            self.runs().len() == self.segments@.len(),
            self.ids().len() == self.segments@.len(),
    {
    }

    /// The value of `key` in the newest segment that holds it.
    pub fn get(&self, key: &[u8]) -> (r: Option<Vec<u8>>)
        requires
            self.wf(),
        ensures
            opt_bytes(r) == newest_first(self.runs(), key@),
            r is Some <==> self@.contains_key(key@),
            r is Some ==> r.unwrap()@ == self@[key@],
    {
        let ghost runs = self.runs();
        let mut i: usize = self.segments.len();
        proof {
            assert(runs.subrange(0, runs.len() as int) =~= runs);
        }
        while i > 0
            invariant
                self.wf(),
                runs == self.runs(),
                i <= self.segments@.len(),
                runs.len() == self.segments@.len(),
                newest_first(runs, key@) == newest_first(runs.subrange(0, i as int), key@),
            decreases i,
        {
            let r = self.segments[i - 1].get(key);
            proof {
                self.lemma_runs_index(i - 1);
                assert(runs.subrange(0, i as int).drop_last() =~= runs.subrange(0, i - 1));
            }
            if r.is_some() {
                return r;
            }
            i = i - 1;
        }
        None
    }

    /// Writes the memtable's entries as a new segment with the next id and
    /// clears the log; `None`, with nothing changed, once ids are used up.
    pub fn write_memtable(&mut self, memtable: &Memtable) -> (r: Option<u64>)
        requires
            old(self).wf(),
            memtable.wf(),
        ensures
            final(self).wf(),
            old(self).next_id_spec() < u64::MAX ==> {
                &&& r == Some(old(self).next_id_spec())
                &&& final(self).runs() == old(self).runs().push(memtable.entries_spec())
                &&& final(self).ids() == old(self).ids().push(old(self).next_id_spec())
                &&& final(self).wal_spec().len() == 0
                &&& final(self)@ == old(self)@.union_prefer_right(memtable@)
            },
            old(self).next_id_spec() == u64::MAX ==> r is None && *final(self) == *old(self),
    {
        if self.next_id == u64::MAX {
            return None;
        }
        let entries = memtable.entries();
        let data = encode_segment(entries);
        proof {
            lemma_decode_encode(memtable.entries_spec());
        }
        let id = self.next_id;
        let seg = match Segment::load(id, data, SAMPLE_INTERVAL) {
            Some(seg) => seg,
            None => {
                proof {
                    assert(false);
                }
                return None;
            },
        };
        let ghost old_runs = self.runs();
        let ghost old_view = self@;
        self.segments.push(seg);
        self.wal = Vec::new();
        self.next_id = id + 1;
        proof {
            let e = memtable.entries_spec();
            assert(self.runs() =~= old_runs.push(e));
            assert(self.ids() =~= old(self).ids().push(id));
            assert(self.runs().drop_last() =~= old_runs);
            assert forall|t: int| 0 <= t < self.segments@.len() implies (#[trigger] self.segments@[t]).wf()
                && self.segments@[t].id_spec() < self.next_id by {
                if t < self.segments@.len() - 1 {
                    assert(self.segments@[t] == old(self).segments@[t]);
                }
            }
            assert forall|k: Seq<u8>| #[trigger] newest_first(self.runs(), k) == newer_wins(
                newest_first(old_runs, k),
                lookup(e, k),
            ) by {}
            assert(self@ =~= old_view.union_prefer_right(memtable@));
        }
        Some(id)
    }

    /// Appends `key=value` to the log.
    pub fn write_ahead(&mut self, key: &[u8], value: &[u8]) -> (r: Result<(), WalError>)
        requires
            old(self).wf(),
        ensures
            final(self).wf(),
            final(self).runs() == old(self).runs(),
            final(self).ids() == old(self).ids(),
            final(self).next_id_spec() == old(self).next_id_spec(),
            r is Ok <==> valid_key(key@) && valid_value(value@),
            r is Ok ==> final(self).wal_spec() == old(self).wal_spec() + line_of(key@, value@),
            !valid_key(key@) ==> r == Err::<(), WalError>(WalError::InvalidKey) && final(self).wal_spec() == old(self).wal_spec(),
            valid_key(key@) && !valid_value(value@) ==> r == Err::<(), WalError>(WalError::InvalidValue) && final(self).wal_spec() == old(self).wal_spec(),
    {
        match encode_assignment(key, value) {
            Ok(line) => {
                crate::codec::push_bytes(&mut self.wal, line.as_slice());
                Ok(())
            },
            Err(e) => Err(e),
        }
    }

    /// Applies the log to `memtable`, line by line in order.
    pub fn replay_wal(&self, memtable: &mut Memtable) -> (r: Result<(), WalError>)
        requires
            old(memtable).wf(),
        ensures
            final(memtable).wf(),
            match parse_wal(self.wal_spec()) {
                Some(a) => r is Ok && final(memtable)@ == apply_all(old(memtable)@, a),
                None => r == Err::<(), WalError>(WalError::Corrupt) && *final(memtable) == *old(memtable),
            },
    {
        crate::wal::replay(self.wal.as_slice(), memtable)
    }

    /// The entries of all segments merged, newest entries winning.
    fn merged_entries(&self) -> (acc: Vec<(Vec<u8>, Vec<u8>)>)
        requires
            self.wf(),
            self.runs().len() >= 1,
        ensures
            sorted(entries_view(acc@)),
            fits_u32(entries_view(acc@)),
            forall|k: Seq<u8>| #[trigger] lookup(entries_view(acc@), k) == newest_first(self.runs(), k),
    {
        let ghost runs = self.runs();
        let mut acc = self.segments[0].entries();
        proof {
            self.lemma_runs_index(0);
            self.segments@[0].lemma_wf();
            assert(runs.subrange(0, 1).drop_last() =~= Seq::<Seq<EntryView>>::empty());
            assert forall|k: Seq<u8>| #[trigger] lookup(entries_view(acc@), k) == newest_first(runs.subrange(0, 1), k) by {
                assert(runs.subrange(0, 1).last() == runs[0]);
                assert(newest_first(runs.subrange(0, 1).drop_last(), k) is None);
            }
        }
        let mut i: usize = 1;
        while i < self.segments.len()
            invariant
                self.wf(),
                runs == self.runs(),
                runs.len() == self.segments@.len(),
                1 <= i <= runs.len(),
                sorted(entries_view(acc@)),
                fits_u32(entries_view(acc@)),
                forall|k: Seq<u8>| #[trigger] lookup(entries_view(acc@), k) == newest_first(runs.subrange(0, i as int), k),
            decreases runs.len() - i,
        {
            let next = self.segments[i].entries();
            proof {
                self.lemma_runs_index(i as int);
                self.segments@[i as int].lemma_wf();
            }
            let merged = merge_runs(&acc, &next);
            proof {
                assert(runs.subrange(0, i + 1).drop_last() =~= runs.subrange(0, i as int));
                assert forall|k: Seq<u8>| #[trigger] lookup(entries_view(merged@), k) == newest_first(runs.subrange(0, i + 1), k) by {
                    lemma_lookup_concat(entries_view(acc@), entries_view(next@), k);
                }
            }
            acc = merged;
            i = i + 1;
        }
        proof {
            assert(runs.subrange(0, runs.len() as int) =~= runs);
        }
        acc
    }

    /// The image of the segment that `compact` would write, with the id it
    /// would take; it changes nothing, so the image can be made durable first.
    pub fn compaction_image(&self) -> (r: Option<(u64, Vec<u8>)>)
        requires
            self.wf(),
        ensures
            r is Some <==> self.runs().len() >= 2 && self.next_id_spec() < u64::MAX,
            r matches Some((id, data)) ==> {
                &&& id == self.next_id_spec()
                &&& loadable(data@)
                &&& forall|k: Seq<u8>| #[trigger] lookup(decode_records(data@).unwrap(), k) == newest_first(self.runs(), k)
            },
    {
        if self.segments.len() < 2 || self.next_id == u64::MAX {
            return None;
        }
        let acc = self.merged_entries();
        let data = encode_segment(&acc);
        proof {
            lemma_decode_encode(entries_view(acc@));
        }
        Some((self.next_id, data))
    }

    /// Merges every segment into one new segment, newest entries winning; it
    /// takes the next id. `None`, with nothing changed, with fewer than two
    /// segments or once ids are used up.
    pub fn compact(&mut self) -> (r: Option<Compaction>)
        requires
            old(self).wf(),
        ensures
            final(self).wf(),
            final(self)@ == old(self)@,
            old(self).runs().len() >= 2 && old(self).next_id_spec() < u64::MAX ==> {
                &&& r is Some
                &&& r.unwrap().id == old(self).next_id_spec()
                &&& r.unwrap().removed@ == old(self).ids()
                &&& final(self).ids() == seq![r.unwrap().id]
                &&& final(self).next_id_spec() == r.unwrap().id + 1
            },
            !(old(self).runs().len() >= 2 && old(self).next_id_spec() < u64::MAX) ==> r is None && *final(self) == *old(self),
            final(self).wal_spec() == old(self).wal_spec(),
    {
        if self.segments.len() < 2 || self.next_id == u64::MAX {
            return None;
        }
        let ghost runs = self.runs();
        let acc = self.merged_entries();
        let mut removed: Vec<u64> = Vec::new();
        let mut t: usize = 0;
        while t < self.segments.len()
            invariant
                t <= self.segments@.len(),
                removed@ == self.ids().subrange(0, t as int),
            decreases self.segments@.len() - t,
        {
            removed.push(self.segments[t].id());
            proof {
                assert(removed@ =~= self.ids().subrange(0, t + 1));
            }
            t = t + 1;
        }
        proof {
            assert(removed@ =~= self.ids());
            assert(runs.subrange(0, runs.len() as int) =~= runs);
        }
        let data = encode_segment(&acc);
        proof {
            lemma_decode_encode(entries_view(acc@));
        }
        let id = self.next_id;
        let seg = match Segment::load(id, data, SAMPLE_INTERVAL) {
            Some(seg) => seg,
            None => {
                proof {
                    assert(false);
                }
                return None;
            },
        };
        let ghost old_view = self@;
        let mut segments: Vec<Segment> = Vec::new();
        segments.push(seg);
        self.segments = segments;
        self.next_id = id + 1;
        proof {
            let e = entries_view(acc@);
            assert(self.runs() =~= seq![e]);
            assert(self.ids() =~= seq![id]);
            assert(self.runs().drop_last() =~= Seq::<Seq<EntryView>>::empty());
            assert forall|k: Seq<u8>| #[trigger] newest_first(self.runs(), k) == newest_first(runs, k) by {
                assert(self.runs().last() == e);
                assert(newest_first(self.runs().drop_last(), k) is None);
                assert(lookup(e, k) == newest_first(runs.subrange(0, runs.len() as int), k));
            }
            assert(self@ =~= old_view);
        }
        Some(Compaction { id, removed })
    }

    /// Diagnostic figures of the segment whose file is named `name`
    /// (`segment-<N>.dat`); `None` when the store holds no such segment.
    pub fn inspect_segment(&self, name: &[u8]) -> (r: Option<SegmentInfo>)
        requires
            self.wf(),
        ensures
            r is Some <==> (segment_id_of(name@) matches Some(id) && self.ids().contains(id)),
            r is Some ==> r.unwrap().id == segment_id_of(name@).unwrap(),
    {
        match segment_file_id(name) {
            Some(id) => self.inspect_segment_id(id),
            None => None,
        }
    }

    /// Diagnostic figures of the segment with this id, if the store holds it.
    pub fn inspect_segment_id(&self, id: u64) -> (r: Option<SegmentInfo>)
        requires
            self.wf(),
        ensures
            r is Some <==> self.ids().contains(id),
            r is Some ==> r.unwrap().id == id && exists|s: int| 0 <= s < self.runs().len() && self.ids()[s] == id && r.unwrap().records == self.runs()[s].len(),
    {
        let mut i: usize = 0;
        while i < self.segments.len()
            invariant
                self.wf(),
                i <= self.segments@.len(),
                forall|t: int| 0 <= t < i ==> self.ids()[t] != id,
            decreases self.segments@.len() - i,
        {
            if self.segments[i].id() == id {
                proof {
                    self.lemma_runs_index(i as int);
                }
                return Some(self.segments[i].inspect());
            }
            proof {
                self.lemma_runs_index(i as int);
            }
            i = i + 1;
        }
        proof {
            assert forall|t: int| 0 <= t < self.ids().len() implies self.ids()[t] != id by {
                self.lemma_runs_index(t);
            }
        }
        None
    }

    /// The segments, oldest first.
    pub fn segments(&self) -> (r: &Vec<Segment>)
        ensures
            r@.map_values(|s: Segment| s.records()) == self.runs(),
            r@.map_values(|s: Segment| s.id_spec()) == self.ids(),
    {
        &self.segments
    }

    /// The id that the next segment written will take.
    pub fn next_segment_id(&self) -> (r: u64)
        ensures
            r == self.next_id_spec(),
    {
        self.next_id
    }

    /// The log's contents.
    pub fn wal(&self) -> (r: &Vec<u8>)
        ensures
            r@ == self.wal_spec(),
    {
        &self.wal
    }
}

/// Entries flushed from a memtable load back as a segment, and a lookup in it
/// finds exactly what the memtable holds.
pub proof fn lemma_flush_round_trip(m: &Memtable)
    requires
        m.wf(),
    ensures
        loadable(encode_records(m.entries_spec())),
        decode_records(encode_records(m.entries_spec())) == Some(m.entries_spec()),
        forall|k: Seq<u8>|
            #[trigger] lookup(decode_records(encode_records(m.entries_spec())).unwrap(), k) == (if m@.contains_key(k) {
                Some(m@[k])
            } else {
                None::<Seq<u8>>
            }),
{
    lemma_decode_encode(m.entries_spec());
}

/// After a flush the log is empty, so replaying it changes no memtable.
pub proof fn lemma_replay_after_flush(s: &Store, m: Map<Seq<u8>, Seq<u8>>)
    requires
        s.wal_spec().len() == 0,
    ensures
        parse_wal(s.wal_spec()) == Some(Seq::<EntryView>::empty()),
        apply_all(m, parse_wal(s.wal_spec()).unwrap()) == m,
{
}

} // verus!
