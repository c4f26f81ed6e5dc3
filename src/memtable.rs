//! The in-memory write buffer: a sorted map from keys to values.
use vstd::prelude::*;
use crate::order::{
    KeyOrder, compare_keys, key_lt, lemma_key_lt_asymmetric, lemma_key_lt_irreflexive,
    lemma_key_lt_total, lemma_key_lt_transitive,
};
use crate::entries::{
    EntryView, entries_view, fits_u32, lemma_lookup_sorted_key, lookup, opt_bytes, sorted, to_map,
};

verus! {

/// Recent writes, held in ascending key order with each key once.
pub struct Memtable {
    entries: Vec<(Vec<u8>, Vec<u8>)>,
}

impl View for Memtable {
    type V = Map<Seq<u8>, Seq<u8>>;

    open spec fn view(&self) -> Map<Seq<u8>, Seq<u8>> {
        to_map(self.entries_spec())
    }
}

impl Memtable {
    /// The entries in ascending key order.
    pub closed spec fn entries_spec(&self) -> Seq<EntryView> {
        entries_view(self.entries@)
    }

    pub open spec fn wf(&self) -> bool {
        sorted(self.entries_spec()) && fits_u32(self.entries_spec())
    }

    pub fn new() -> (r: Memtable)
        ensures
            r.wf(),
            r.entries_spec().len() == 0,
            r@ == Map::<Seq<u8>, Seq<u8>>::empty(),
    {
        let r = Memtable { entries: Vec::new() };
        proof {
            assert(r.entries_spec() =~= Seq::<EntryView>::empty());
            assert(r@ =~= Map::<Seq<u8>, Seq<u8>>::empty());
        }
        r
    }

    /// Number of distinct keys held.
    pub fn len(&self) -> (r: usize)
        requires
            self.wf(),
        ensures
            r == self.entries_spec().len(),
            r == self@.dom().len(),
    {
        proof {
            self.lemma_dom_len();
        }
        self.entries.len()
    }

    pub fn is_empty(&self) -> (r: bool)
        requires
            self.wf(),
        ensures
            r <==> self@.dom().is_empty(),
    {
        proof {
            self.lemma_dom_len();
            if self.entries.len() > 0 {
                lemma_lookup_sorted_key(self.entries_spec(), self.entries_spec()[0].0);
                assert(self@.dom().contains(self.entries_spec()[0].0));
            }
        }
        self.entries.len() == 0
    }

    proof fn lemma_dom_len(&self)
        requires
            self.wf(),
        ensures
            self@.dom().len() == self.entries_spec().len(),
            self@.dom() == self.entries_spec().map_values(|e: EntryView| e.0).to_set(),
    {
        let e = self.entries_spec();
        let keys = e.map_values(|x: EntryView| x.0);
        assert forall|k: Seq<u8>| self@.dom().contains(k) <==> keys.to_set().contains(k) by {
            lemma_lookup_sorted_key(e, k);
            if keys.to_set().contains(k) {
                let i = choose|i: int| 0 <= i < keys.len() && keys[i] == k;
                assert(e[i].0 == k);
            }
            if self@.dom().contains(k) {
                let i = choose|i: int| 0 <= i < e.len() && e[i].0 == k;
                assert(keys[i] == k);
            }
        }
        assert(self@.dom() =~= keys.to_set());
        assert forall|i: int, j: int| 0 <= i < keys.len() && 0 <= j < keys.len() && i != j
            implies keys[i] != keys[j] by {
            if i < j {
                assert(key_lt(e[i].0, e[j].0));
            } else {
                assert(key_lt(e[j].0, e[i].0));
            }
            lemma_key_lt_irreflexive(e[i].0);
        }
        keys.unique_seq_to_set();
    }

    /// The value written last for `key`, if any.
    pub fn get(&self, key: &[u8]) -> (r: Option<Vec<u8>>)
        requires
            self.wf(),
        ensures
            opt_bytes(r) == lookup(self.entries_spec(), key@),
            r is Some <==> self@.contains_key(key@),
            r is Some ==> r.unwrap()@ == self@[key@],
    {
        let p = self.search(key);
        proof {
            lemma_lookup_sorted_key(self.entries_spec(), key@);
        }
        if p < self.entries.len() {
            match compare_keys(self.entries[p].0.as_slice(), key) {
                KeyOrder::Equal => {
                    proof {
                        let e = self.entries_spec();
                        assert(e[p as int] == (self.entries@[p as int].0@, self.entries@[p as int].1@));
                        assert(e[p as int].0 == key@);
                    }
                    return Some(crate::entries::copy_bytes(self.entries[p].1.as_slice()));
                },
                _ => {},
            }
        }
        proof {
            let e = self.entries_spec();
            assert forall|i: int| 0 <= i < e.len() implies e[i].0 != key@ by {
                if i >= p {
                    lemma_key_lt_irreflexive(key@);
                    if i > p {
                        lemma_key_lt_asymmetric(key@, e[p as int].0);
                        lemma_key_lt_total(key@, e[p as int].0);
                        assert(key_lt(e[p as int].0, e[i].0));
                        lemma_key_lt_transitive(key@, e[p as int].0, e[i].0);
                    }
                } else {
                    lemma_key_lt_irreflexive(key@);
                }
            }
        }
        None
    }

    /// The first position whose key does not sort before `key`.
    fn search(&self, key: &[u8]) -> (p: usize)
        requires
            self.wf(),
        ensures
            p <= self.entries_spec().len(),
            forall|i: int| 0 <= i < p ==> key_lt(#[trigger] self.entries_spec()[i].0, key@),
            forall|j: int|
                p <= j < self.entries_spec().len() ==> !key_lt(
                    #[trigger] self.entries_spec()[j].0,
                    key@,
                ),
    {
        let ghost e = self.entries_spec();
        let mut lo: usize = 0;
        let mut hi: usize = self.entries.len();
        while lo < hi
            invariant
                e == self.entries_spec(),
                self.wf(),
                e.len() == self.entries@.len(),
                lo <= hi <= e.len(),
                forall|i: int| 0 <= i < lo ==> key_lt(#[trigger] e[i].0, key@),
                forall|j: int| hi <= j < e.len() ==> !key_lt(#[trigger] e[j].0, key@),
            decreases hi - lo,
        {
            let mid = lo + (hi - lo) / 2;
            let c = compare_keys(self.entries[mid].0.as_slice(), key);
            proof {
                assert(e[mid as int] == (self.entries@[mid as int].0@, self.entries@[mid as int].1@));
            }
            if c == KeyOrder::Less {
                proof {
                    assert forall|i: int| 0 <= i <= mid implies key_lt(#[trigger] e[i].0, key@) by {
                        if i < mid {
                            assert(key_lt(e[i].0, e[mid as int].0));
                            lemma_key_lt_transitive(e[i].0, e[mid as int].0, key@);
                        }
                    }
                }
                lo = mid + 1;
            } else {
                proof {
                    assert forall|j: int| mid <= j < e.len() implies !key_lt(#[trigger] e[j].0, key@) by {
                        if j > mid && key_lt(e[j].0, key@) {
                            assert(key_lt(e[mid as int].0, e[j].0));
                            lemma_key_lt_transitive(e[mid as int].0, e[j].0, key@);
                        }
                    }
                }
                hi = mid;
            }
        }
        lo
    }

    /// Inserts `key` with `value`, replacing the value it had.
    pub fn set(&mut self, key: Vec<u8>, value: Vec<u8>)
        requires
            old(self).wf(),
            key@.len() <= u32::MAX,
            value@.len() <= u32::MAX,
        ensures
            final(self).wf(),
            final(self)@ == old(self)@.insert(key@, value@),
    {
        let ghost e = self.entries_spec();
        let ghost k = key@;
        let ghost v = value@;
        let p = self.search(key.as_slice());
        let mut replace = false;
        if p < self.entries.len() {
            if compare_keys(self.entries[p].0.as_slice(), key.as_slice()) == KeyOrder::Equal {
                replace = true;
            }
        }
        if replace {
            self.entries.set(p, (key, value));
            proof {
                let n = self.entries_spec();
                assert(n =~= e.update(p as int, (k, v)));
            }
        } else {
            self.entries.insert(p, (key, value));
            proof {
                let n = self.entries_spec();
                assert(n =~= e.insert(p as int, (k, v)));
                if p < e.len() {
                    lemma_key_lt_total(k, e[p as int].0);
                }
                assert forall|i: int, j: int| 0 <= i < j < n.len() implies #[trigger] key_lt(
                    n[i].0,
                    n[j].0,
                ) by {
                    if j == p {
                    } else if i == p {
                        if j > p + 1 {
                            assert(key_lt(e[p as int].0, e[j - 1].0));
                            lemma_key_lt_transitive(k, e[p as int].0, e[j - 1].0);
                        }
                    } else if i < p && j > p {
                        assert(key_lt(e[i].0, k));
                        if j > p + 1 {
                            assert(key_lt(e[p as int].0, e[j - 1].0));
                            lemma_key_lt_transitive(k, e[p as int].0, e[j - 1].0);
                        }
                        lemma_key_lt_transitive(e[i].0, k, e[j - 1].0);
                    } else if i > p {
                        assert(key_lt(e[i - 1].0, e[j - 1].0));
                    } else {
                        assert(key_lt(e[i].0, e[j].0));
                    }
                }
            }
        }
        proof {
            let n = self.entries_spec();
            assert(sorted(n)) by {
                if replace {
                    assert forall|i: int, j: int| 0 <= i < j < n.len() implies #[trigger] key_lt(
                        n[i].0,
                        n[j].0,
                    ) by {
                        assert(key_lt(e[i].0, e[j].0));
                    }
                }
            }
            assert forall|kk: Seq<u8>| #[trigger] lookup(n, kk) == (if kk == k {
                Some(v)
            } else {
                lookup(e, kk)
            }) by {
                lemma_lookup_sorted_key(n, kk);
                lemma_lookup_sorted_key(e, kk);
                if kk == k {
                    assert(n[p as int].0 == k);
                } else if exists|i: int| 0 <= i < e.len() && e[i].0 == kk {
                    let i = choose|i: int| 0 <= i < e.len() && e[i].0 == kk;
                    if replace {
                        assert(n[i].0 == kk);
                    } else if i < p {
                        assert(n[i].0 == kk);
                    } else {
                        assert(n[i + 1].0 == kk);
                    }
                } else {
                    if exists|i: int| 0 <= i < n.len() && n[i].0 == kk {
                        let i = choose|i: int| 0 <= i < n.len() && n[i].0 == kk;
                        if replace || i < p {
                            assert(e[i].0 == kk);
                        } else {
                            assert(e[i - 1].0 == kk);
                        }
                    }
                }
            }
            assert(self@ =~= old(self)@.insert(k, v));
        }
    }

    /// The entries in ascending key order.
    pub fn entries(&self) -> (r: &Vec<(Vec<u8>, Vec<u8>)>)
        requires
            self.wf(),
        ensures
            entries_view(r@) == self.entries_spec(),
            sorted(entries_view(r@)),
            fits_u32(entries_view(r@)),
    {
        &self.entries
    }
}

} // verus!
