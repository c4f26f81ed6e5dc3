//! Sequences of key/value entries and the lookups over them.
use vstd::prelude::*;
use crate::order::{key_lt, lemma_key_lt_irreflexive};

verus! {

/// A key/value entry as plain byte sequences.
pub type EntryView = (Seq<u8>, Seq<u8>);

pub open spec fn entry_view(e: (Vec<u8>, Vec<u8>)) -> EntryView {
    (e.0@, e.1@)
}

pub open spec fn entries_view(v: Seq<(Vec<u8>, Vec<u8>)>) -> Seq<EntryView> {
    v.map_values(|e: (Vec<u8>, Vec<u8>)| entry_view(e))
}

pub open spec fn opt_bytes(o: Option<Vec<u8>>) -> Option<Seq<u8>> {
    match o {
        Some(v) => Some(v@),
        None => None,
    }
}

/// The value of `k` in `e`, where a later entry overrides an earlier one.
pub open spec fn lookup(e: Seq<EntryView>, k: Seq<u8>) -> Option<Seq<u8>>
    decreases e.len(),
{
    if e.len() == 0 {
        None
    } else if e.last().0 == k {
        Some(e.last().1)
    } else {
        lookup(e.drop_last(), k)
    }
}

/// Keys strictly ascending.
pub open spec fn sorted(e: Seq<EntryView>) -> bool {
    forall|i: int, j: int| 0 <= i < j < e.len() ==> #[trigger] key_lt(e[i].0, e[j].0)
}

/// Every key and value has a length that a 32-bit length prefix can carry.
pub open spec fn fits_u32(e: Seq<EntryView>) -> bool {
    forall|i: int|
        0 <= i < e.len() ==> (#[trigger] e[i]).0.len() <= u32::MAX && e[i].1.len() <= u32::MAX
}

/// The mapping that the entries describe, later entries overriding earlier ones.
pub open spec fn to_map(e: Seq<EntryView>) -> Map<Seq<u8>, Seq<u8>> {
    Map::new(|k: Seq<u8>| lookup(e, k) is Some, |k: Seq<u8>| lookup(e, k).unwrap())
}

pub proof fn lemma_lookup_push(e: Seq<EntryView>, x: EntryView, k: Seq<u8>)
    ensures
        lookup(e.push(x), k) == if x.0 == k { Some(x.1) } else { lookup(e, k) },
{
    assert(e.push(x).drop_last() =~= e);
}

pub proof fn lemma_lookup_absent(e: Seq<EntryView>, k: Seq<u8>)
    requires
        forall|i: int| 0 <= i < e.len() ==> (#[trigger] e[i]).0 != k,
    ensures
        lookup(e, k) is None,
    decreases e.len(),
{
    if e.len() > 0 {
        assert(e.last() == e[e.len() - 1]);
        lemma_lookup_absent(e.drop_last(), k);
    }
}

pub proof fn lemma_lookup_sorted(e: Seq<EntryView>, i: int)
    requires
        sorted(e),
        0 <= i < e.len(),
    ensures
        lookup(e, e[i].0) == Some(e[i].1),
    decreases e.len(),
{
    if i < e.len() - 1 {
        assert(key_lt(e[i].0, e[e.len() - 1].0));
        lemma_key_lt_irreflexive(e[i].0);
        lemma_lookup_sorted(e.drop_last(), i);
    }
}

/// In a sorted sequence, a key is found exactly where it stands.
pub proof fn lemma_lookup_sorted_key(e: Seq<EntryView>, k: Seq<u8>)
    requires
        sorted(e),
    ensures
        lookup(e, k) is Some <==> exists|i: int| 0 <= i < e.len() && e[i].0 == k,
        forall|i: int| 0 <= i < e.len() && e[i].0 == k ==> lookup(e, k) == Some(e[i].1),
{
    assert forall|i: int| 0 <= i < e.len() && e[i].0 == k implies lookup(e, k) == Some(e[i].1) by {
        lemma_lookup_sorted(e, i);
    }
    if !(exists|i: int| 0 <= i < e.len() && e[i].0 == k) {
        lemma_lookup_absent(e, k);
    }
}

/// Copies `s[from..to]` into a fresh vector.
pub fn copy_range(s: &[u8], from: usize, to: usize) -> (r: Vec<u8>)
    requires
        from <= to <= s@.len(),
    ensures
        r@ == s@.subrange(from as int, to as int),
{
    let mut r: Vec<u8> = Vec::with_capacity(to - from);
    let mut i: usize = from;
    while i < to
        invariant
            from <= i <= to <= s@.len(),
            r@ == s@.subrange(from as int, i as int),
        decreases to - i,
    {
        r.push(s[i]);
        i = i + 1;
        proof {
            assert(r@ =~= s@.subrange(from as int, i as int));
        }
    }
    r
}

/// Copies a byte slice into a fresh vector.
pub fn copy_bytes(s: &[u8]) -> (r: Vec<u8>)
    ensures
        r@ == s@,
{
    proof {
        assert(s@ =~= s@.subrange(0, s@.len() as int));
    }
    copy_range(s, 0, s.len())
}

} // verus!
