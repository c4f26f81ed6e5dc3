//! The segment record format: `[key_len u32 BE][key][value_len u32 BE][value]`, repeated.
use vstd::prelude::*;
use crate::entries::{EntryView, entries_view, fits_u32};

verus! {

/// The four big-endian bytes of `n`.
pub open spec fn be32(n: u32) -> Seq<u8> {
    seq![(n >> 24u32) as u8, (n >> 16u32) as u8, (n >> 8u32) as u8, n as u8]
}

pub open spec fn be32_value(b0: u8, b1: u8, b2: u8, b3: u8) -> u32 {
    ((b0 as u32) << 24u32) | ((b1 as u32) << 16u32) | ((b2 as u32) << 8u32) | (b3 as u32)
}

/// The big-endian number held by `d[p..p + 4]`.
pub open spec fn read_be32(d: Seq<u8>, p: int) -> int {
    be32_value(d[p], d[p + 1], d[p + 2], d[p + 3]) as int
}

pub proof fn lemma_be32_round_trip(n: u32)
    ensures
        be32_value((n >> 24u32) as u8, (n >> 16u32) as u8, (n >> 8u32) as u8, n as u8) == n,
{
    assert(((((n >> 24u32) as u8) as u32) << 24u32) | ((((n >> 16u32) as u8) as u32) << 16u32)
        | ((((n >> 8u32) as u8) as u32) << 8u32) | ((n as u8) as u32) == n) by (bit_vector);
}

/// One record: a length-prefixed key followed by a length-prefixed value.
pub open spec fn encode_record(x: EntryView) -> Seq<u8> {
    be32(x.0.len() as u32) + x.0 + be32(x.1.len() as u32) + x.1
}

/// The records of `e`, in order.
pub open spec fn encode_records(e: Seq<EntryView>) -> Seq<u8>
    decreases e.len(),
{
    if e.len() == 0 {
        Seq::empty()
    } else {
        encode_records(e.drop_last()) + encode_record(e.last())
    }
}

/// The record that starts at `p`, with the position just past it.
pub open spec fn record_at(d: Seq<u8>, p: int) -> Option<(EntryView, int)> {
    if 0 <= p && p + 4 <= d.len() {
        let ke = p + 4 + read_be32(d, p);
        if ke + 4 <= d.len() {
            let ve = ke + 4 + read_be32(d, ke);
            if ve <= d.len() {
                Some(((d.subrange(p + 4, ke), d.subrange(ke + 4, ve)), ve))
            } else {
                None
            }
        } else {
            None
        }
    } else {
        None
    }
}

/// The records from `p` to the end of `d`, if they are well formed.
pub open spec fn records_from(d: Seq<u8>, p: int) -> Option<Seq<EntryView>>
    decreases d.len() - p,
{
    if p >= d.len() {
        Some(Seq::empty())
    } else {
        match record_at(d, p) {
            Some((x, n)) => if n <= p {
                None
            } else {
                match records_from(d, n) {
                    Some(rest) => Some(seq![x] + rest),
                    None => None,
                }
            },
            None => None,
        }
    }
}

/// The records of a whole segment image.
pub open spec fn decode_records(d: Seq<u8>) -> Option<Seq<EntryView>> {
    records_from(d, 0)
}

pub proof fn lemma_encode_records_first(e: Seq<EntryView>)
    requires
        e.len() > 0,
    ensures
        encode_records(e) == encode_record(e[0]) + encode_records(e.drop_first()),
    decreases e.len(),
{
    if e.len() == 1 {
        assert(e.drop_last() =~= Seq::<EntryView>::empty());
        assert(e.drop_first() =~= Seq::<EntryView>::empty());
        assert(encode_records(e) =~= encode_record(e[0]) + encode_records(e.drop_first()));
    } else {
        lemma_encode_records_first(e.drop_last());
        assert(e.drop_last().drop_first() =~= e.drop_first().drop_last());
        assert(e.drop_first().last() == e.last());
        assert(encode_records(e) =~= encode_record(e[0]) + encode_records(e.drop_first()));
    }
}

pub proof fn lemma_record_at_encoded(pre: Seq<u8>, x: EntryView, post: Seq<u8>)
    requires
        x.0.len() <= u32::MAX,
        x.1.len() <= u32::MAX,
    ensures
        record_at(pre + encode_record(x) + post, pre.len() as int) == Some(
            (x, pre.len() + encode_record(x).len() as int),
        ),
{
    let d = pre + encode_record(x) + post;
    let p = pre.len() as int;
    let kl = x.0.len() as u32;
    let vl = x.1.len() as u32;
    lemma_be32_round_trip(kl);
    lemma_be32_round_trip(vl);
    assert(d[p] == be32(kl)[0] && d[p + 1] == be32(kl)[1] && d[p + 2] == be32(kl)[2] && d[p + 3]
        == be32(kl)[3]);
    assert(read_be32(d, p) == kl);
    let ke = p + 4 + kl;
    assert(d[ke] == be32(vl)[0] && d[ke + 1] == be32(vl)[1] && d[ke + 2] == be32(vl)[2] && d[ke
        + 3] == be32(vl)[3]);
    assert(read_be32(d, ke) == vl);
    assert(d.subrange(p + 4, ke) =~= x.0);
    assert(d.subrange(ke + 4, ke + 4 + vl) =~= x.1);
}

/// Records written after any prefix read back as the same entries.
pub proof fn lemma_records_from_encoded(pre: Seq<u8>, e: Seq<EntryView>)
    requires
        fits_u32(e),
    ensures
        records_from(pre + encode_records(e), pre.len() as int) == Some(e),
    decreases e.len(),
{
    if e.len() == 0 {
        assert(pre + encode_records(e) =~= pre);
        assert(e =~= Seq::<EntryView>::empty());
    } else {
        lemma_encode_records_first(e);
        let r = encode_record(e[0]);
        let rest = encode_records(e.drop_first());
        assert(pre + encode_records(e) =~= pre + r + rest);
        assert(e[0].0.len() <= u32::MAX && e[0].1.len() <= u32::MAX);
        lemma_record_at_encoded(pre, e[0], rest);
        assert(fits_u32(e.drop_first())) by {
            assert forall|i: int| 0 <= i < e.drop_first().len() implies (
            #[trigger] e.drop_first()[i]).0.len() <= u32::MAX && e.drop_first()[i].1.len()
                <= u32::MAX by {
                assert(e.drop_first()[i] == e[i + 1]);
            }
        }
        lemma_records_from_encoded(pre + r, e.drop_first());
        assert(pre + r + rest =~= (pre + r) + rest);
        assert(seq![e[0]] + e.drop_first() =~= e);
    }
}

/// A segment image decodes to the entries it was encoded from.
pub proof fn lemma_decode_encode(e: Seq<EntryView>)
    requires
        fits_u32(e),
    ensures
        decode_records(encode_records(e)) == Some(e),
{
    lemma_records_from_encoded(Seq::empty(), e);
    assert(Seq::<u8>::empty() + encode_records(e) =~= encode_records(e));
}

/// Reads the big-endian number at `d[p..p + 4]`.
pub fn read_u32_be(d: &[u8], p: usize) -> (r: u32)
    requires
        p + 4 <= d@.len(),
    ensures
        r as int == read_be32(d@, p as int),
{
    ((d[p] as u32) << 24u32) | ((d[p + 1] as u32) << 16u32) | ((d[p + 2] as u32) << 8u32) | (d[p
        + 3] as u32)
}

/// Appends the big-endian bytes of `n`.
pub fn push_u32_be(out: &mut Vec<u8>, n: u32)
    ensures
        final(out)@ == old(out)@ + be32(n),
{
    out.push((n >> 24u32) as u8);
    out.push((n >> 16u32) as u8);
    out.push((n >> 8u32) as u8);
    out.push(n as u8);
    proof {
        assert(final(out)@ =~= old(out)@ + be32(n));
    }
}

/// Appends the bytes of `s`.
pub fn push_bytes(out: &mut Vec<u8>, s: &[u8])
    ensures
        final(out)@ == old(out)@ + s@,
{
    let mut i: usize = 0;
    while i < s.len()
        invariant
            i <= s@.len(),
            out@ == old(out)@ + s@.subrange(0, i as int),
        decreases s@.len() - i,
    {
        out.push(s[i]);
        i = i + 1;
        proof {
            assert(out@ =~= old(out)@ + s@.subrange(0, i as int));
        }
    }
    proof {
        assert(s@ =~= s@.subrange(0, s@.len() as int));
    }
}

/// Appends one record.
pub fn push_record(out: &mut Vec<u8>, key: &[u8], value: &[u8])
    requires
        key@.len() <= u32::MAX,
        value@.len() <= u32::MAX,
    ensures
        final(out)@ == old(out)@ + encode_record((key@, value@)),
{
    push_u32_be(out, key.len() as u32);
    push_bytes(out, key);
    push_u32_be(out, value.len() as u32);
    push_bytes(out, value);
    proof {
        assert(final(out)@ =~= old(out)@ + encode_record((key@, value@)));
    }
}

/// The segment image of the entries, in their order.
pub fn encode_segment(entries: &Vec<(Vec<u8>, Vec<u8>)>) -> (r: Vec<u8>)
    requires
        fits_u32(entries_view(entries@)),
    ensures
        r@ == encode_records(entries_view(entries@)),
{
    let ghost e = entries_view(entries@);
    let mut out: Vec<u8> = Vec::new();
    let mut i: usize = 0;
    while i < entries.len()
        invariant
            e == entries_view(entries@),
            fits_u32(e),
            i <= e.len(),
            out@ == encode_records(e.subrange(0, i as int)),
        decreases e.len() - i,
    {
        proof {
            assert(e[i as int] == (entries@[i as int].0@, entries@[i as int].1@));
        }
        push_record(&mut out, entries[i].0.as_slice(), entries[i].1.as_slice());
        proof {
            assert(e.subrange(0, i + 1).drop_last() =~= e.subrange(0, i as int));
        }
        i = i + 1;
    }
    proof {
        assert(e.subrange(0, e.len() as int) =~= e);
    }
    out
}

/// Decodes the record that starts at `p`, with the position just past it.
pub fn decode_record(d: &[u8], p: usize) -> (r: Option<(Vec<u8>, Vec<u8>, usize)>)
    ensures
        match r {
            Some(x) => record_at(d@, p as int) == Some(((x.0@, x.1@), x.2 as int)),
            None => record_at(d@, p as int) is None,
        },
{
    let len = d.len();
    if p > len || len - p < 4 {
        return None;
    }
    let kl = read_u32_be(d, p) as usize;
    if len - p - 4 < kl || len - p - 4 - kl < 4 {
        return None;
    }
    let ke = p + 4 + kl;
    let vl = read_u32_be(d, ke) as usize;
    if len - ke - 4 < vl {
        return None;
    }
    let ve = ke + 4 + vl;
    let key = crate::entries::copy_range(d, p + 4, ke);
    let value = crate::entries::copy_range(d, ke + 4, ve);
    Some((key, value, ve))
}

} // verus!
