//! Merging sorted runs into one, the newer run winning on equal keys.
use vstd::prelude::*;
use crate::order::{KeyOrder, compare_keys, key_lt, lemma_key_lt_irreflexive, lemma_key_lt_transitive};
use crate::entries::{EntryView, entry_view, entries_view, fits_u32, lemma_lookup_absent, lemma_lookup_push, lookup, sorted};

verus! {

/// The value that a newer run gives, else the older one.
pub open spec fn newer_wins(older: Option<Seq<u8>>, newer: Option<Seq<u8>>) -> Option<Seq<u8>> {
    match newer {
        Some(v) => Some(v),
        None => older,
    }
}

/// Reading `a + b` finds what `b` holds first, then what `a` holds.
pub proof fn lemma_lookup_concat(a: Seq<EntryView>, b: Seq<EntryView>, k: Seq<u8>)
    ensures
        lookup(a + b, k) == newer_wins(lookup(a, k), lookup(b, k)),
    decreases b.len(),
{
    if b.len() == 0 {
        assert(a + b =~= a);
    } else {
        assert((a + b).drop_last() =~= a + b.drop_last());
        lemma_lookup_concat(a, b.drop_last(), k);
    }
}

proof fn lemma_below_all_absent(e: Seq<EntryView>, k: Seq<u8>)
    requires
        forall|t: int| 0 <= t < e.len() ==> key_lt(#[trigger] e[t].0, k),
    ensures
        lookup(e, k) is None,
{
    assert forall|t: int| 0 <= t < e.len() implies (#[trigger] e[t]).0 != k by {
        lemma_key_lt_irreflexive(k);
    }
    lemma_lookup_absent(e, k);
}

/// Merges two sorted runs; on equal keys the entry of `newer` is kept.
pub fn merge_runs(older: &Vec<(Vec<u8>, Vec<u8>)>, newer: &Vec<(Vec<u8>, Vec<u8>)>) -> (r: Vec<
    (Vec<u8>, Vec<u8>),
>)
    requires
        sorted(entries_view(older@)),
        sorted(entries_view(newer@)),
        fits_u32(entries_view(older@)),
        fits_u32(entries_view(newer@)),
    ensures
        sorted(entries_view(r@)),
        fits_u32(entries_view(r@)),
        forall|k: Seq<u8>|
            #[trigger] lookup(entries_view(r@), k) == lookup(
                entries_view(older@) + entries_view(newer@),
                k,
            ),
{
    let ghost a = entries_view(older@);
    let ghost b = entries_view(newer@);
    let mut out: Vec<(Vec<u8>, Vec<u8>)> = Vec::new();
    let mut i: usize = 0;
    let mut j: usize = 0;
    while i < older.len() || j < newer.len()
        invariant
            a == entries_view(older@),
            b == entries_view(newer@),
            sorted(a),
            sorted(b),
            fits_u32(a),
            fits_u32(b),
            i <= a.len(),
            j <= b.len(),
            sorted(entries_view(out@)),
            fits_u32(entries_view(out@)),
            forall|t: int|
                0 <= t < out@.len() && i < a.len() ==> key_lt(
                    #[trigger] entries_view(out@)[t].0,
                    a[i as int].0,
                ),
            forall|t: int|
                0 <= t < out@.len() && j < b.len() ==> key_lt(
                    #[trigger] entries_view(out@)[t].0,
                    b[j as int].0,
                ),
            forall|t: int| 0 <= t < j && i < a.len() ==> key_lt(#[trigger] b[t].0, a[i as int].0),
            forall|t: int| 0 <= t < i && j < b.len() ==> key_lt(#[trigger] a[t].0, b[j as int].0),
            forall|k: Seq<u8>|
                #[trigger] lookup(entries_view(out@), k) == newer_wins(
                    lookup(a.subrange(0, i as int), k),
                    lookup(b.subrange(0, j as int), k),
                ),
        decreases a.len() - i + b.len() - j,
    {
        let ghost o = entries_view(out@);
        let take_older: bool;
        let take_newer: bool;
        if i < older.len() && j < newer.len() {
            let c = compare_keys(older[i].0.as_slice(), newer[j].0.as_slice());
            take_older = c != KeyOrder::Greater;
            take_newer = c != KeyOrder::Less;
        } else {
            take_older = i < older.len();
            take_newer = j < newer.len();
        }
        proof {
            if i < a.len() {
                assert(a[i as int] == entry_view(older@[i as int]));
            }
            if j < b.len() {
                assert(b[j as int] == entry_view(newer@[j as int]));
            }
        }
        if take_newer {
            let k = crate::entries::copy_bytes(newer[j].0.as_slice());
            let v = crate::entries::copy_bytes(newer[j].1.as_slice());
            out.push((k, v));
        } else {
            let k = crate::entries::copy_bytes(older[i].0.as_slice());
            let v = crate::entries::copy_bytes(older[i].1.as_slice());
            out.push((k, v));
        }
        let ghost x = entries_view(out@).last();
        proof {
            let no = entries_view(out@);
            assert(no =~= o.push(x));
            let oi = i;
            let oj = j;
            if take_older && take_newer {
                assert(x == b[j as int]);
                assert(a[i as int].0 == b[j as int].0);
            }
            // the new entry sorts after everything already written
            assert forall|s: int, t: int| 0 <= s < t < no.len() implies #[trigger] key_lt(
                no[s].0,
                no[t].0,
            ) by {
                if t < o.len() {
                    assert(key_lt(o[s].0, o[t].0));
                } else if take_newer {
                    assert(key_lt(o[s].0, b[j as int].0));
                } else {
                    assert(key_lt(o[s].0, a[i as int].0));
                }
            }
            assert forall|s: int| 0 <= s < no.len() implies (#[trigger] no[s]).0.len() <= u32::MAX
                && no[s].1.len() <= u32::MAX by {
                if s < o.len() {
                    assert(no[s] == o[s]);
                }
            }
            // lookups
            let ni: int = if take_older { i + 1 } else { i as int };
            let nj: int = if take_newer { j + 1 } else { j as int };
            assert forall|k: Seq<u8>| #[trigger] lookup(no, k) == newer_wins(
                lookup(a.subrange(0, ni), k),
                lookup(b.subrange(0, nj), k),
            ) by {
                lemma_lookup_push(o, x, k);
                assert(lookup(o, k) == newer_wins(
                    lookup(a.subrange(0, i as int), k),
                    lookup(b.subrange(0, j as int), k),
                ));
                if take_older {
                    assert(a.subrange(0, ni) =~= a.subrange(0, i as int).push(a[i as int]));
                    lemma_lookup_push(a.subrange(0, i as int), a[i as int], k);
                }
                if take_newer {
                    assert(b.subrange(0, nj) =~= b.subrange(0, j as int).push(b[j as int]));
                    lemma_lookup_push(b.subrange(0, j as int), b[j as int], k);
                }
                if take_older && !take_newer && k == x.0 {
                    assert forall|t: int| 0 <= t < j implies key_lt(
                        #[trigger] b.subrange(0, j as int)[t].0,
                        k,
                    ) by {
                        assert(b.subrange(0, j as int)[t] == b[t]);
                    }
                    lemma_below_all_absent(b.subrange(0, j as int), k);
                }
            }
        }
        if take_older {
            i = i + 1;
        }
        if take_newer {
            j = j + 1;
        }
        proof {
            let no = entries_view(out@);
            assert forall|t: int| 0 <= t < no.len() && i < a.len() implies key_lt(
                #[trigger] no[t].0,
                a[i as int].0,
            ) by {
                if take_older {
                    assert(key_lt(a[i - 1].0, a[i as int].0));
                    if t < no.len() - 1 {
                        lemma_key_lt_transitive(no[t].0, a[i - 1].0, a[i as int].0);
                    }
                } else {
                    if t < no.len() - 1 {
                    }
                }
            }
            assert forall|t: int| 0 <= t < no.len() && j < b.len() implies key_lt(
                #[trigger] no[t].0,
                b[j as int].0,
            ) by {
                if take_newer {
                    assert(key_lt(b[j - 1].0, b[j as int].0));
                    if t < no.len() - 1 {
                        lemma_key_lt_transitive(no[t].0, b[j - 1].0, b[j as int].0);
                    }
                }
            }
            assert forall|t: int| 0 <= t < j && i < a.len() implies key_lt(
                #[trigger] b[t].0,
                a[i as int].0,
            ) by {
                if take_older {
                    assert(key_lt(a[i - 1].0, a[i as int].0));
                    if take_newer {
                        if t < j - 1 {
                            lemma_key_lt_transitive(b[t].0, a[i - 1].0, a[i as int].0);
                        }
                    } else {
                        lemma_key_lt_transitive(b[t].0, a[i - 1].0, a[i as int].0);
                    }
                }
            }
            assert forall|t: int| 0 <= t < i && j < b.len() implies key_lt(
                #[trigger] a[t].0,
                b[j as int].0,
            ) by {
                if take_newer {
                    assert(key_lt(b[j - 1].0, b[j as int].0));
                    if take_older {
                        if t < i - 1 {
                            lemma_key_lt_transitive(a[t].0, b[j - 1].0, b[j as int].0);
                        }
                    } else {
                        lemma_key_lt_transitive(a[t].0, b[j - 1].0, b[j as int].0);
                    }
                }
            }
        }
    }
    proof {
        assert(a.subrange(0, a.len() as int) =~= a);
        assert(b.subrange(0, b.len() as int) =~= b);
        assert forall|k: Seq<u8>| #[trigger] lookup(entries_view(out@), k) == lookup(a + b, k) by {
            lemma_lookup_concat(a, b, k);
        }
    }
    out
}

} // verus!
