//! The write-ahead log: one `key=value` line per write.
use vstd::prelude::*;
use crate::entries::{EntryView, entries_view, fits_u32};
use crate::memtable::Memtable;
use crate::segment::prepend;

verus! {

pub const NEWLINE: u8 = 10;

pub const SEPARATOR: u8 = 61;

/// Why a log write or a replay was refused.
#[derive(PartialEq, Eq, Structural, Clone, Copy, Debug)]
pub enum WalError {
    /// The key holds `=` or a newline, or is too long for a segment.
    InvalidKey,
    /// The value holds a newline, or is too long for a segment.
    InvalidValue,
    /// A line of the log is not of the form `key=value`.
    Corrupt,
}

pub open spec fn valid_key(k: Seq<u8>) -> bool {
    k.len() <= u32::MAX && forall|i: int| 0 <= i < k.len() ==> #[trigger] k[i] != SEPARATOR && k[i] != NEWLINE
}

pub open spec fn valid_value(v: Seq<u8>) -> bool {
    v.len() <= u32::MAX && forall|i: int| 0 <= i < v.len() ==> #[trigger] v[i] != NEWLINE
}

/// The log line of one assignment.
pub open spec fn line_of(k: Seq<u8>, v: Seq<u8>) -> Seq<u8> {
    k + seq![SEPARATOR] + v + seq![NEWLINE]
}

/// The position of the first newline at or after `p`, or the end.
pub open spec fn line_end(d: Seq<u8>, p: int) -> int
    decreases d.len() - p,
{
    if p < 0 || p >= d.len() {
        d.len() as int
    } else if d[p] == NEWLINE {
        p
    } else {
        line_end(d, p + 1)
    }
}

/// The position of the first `=` at or after `i`, or -1.
pub open spec fn separator_at(l: Seq<u8>, i: int) -> int
    decreases l.len() - i,
{
    if i < 0 || i >= l.len() {
        -1
    } else if l[i] == SEPARATOR {
        i
    } else {
        separator_at(l, i + 1)
    }
}

/// A line split at its first `=`.
pub open spec fn parse_line(l: Seq<u8>) -> Option<EntryView> {
    let q = separator_at(l, 0);
    if q < 0 {
        None
    } else {
        let k = l.subrange(0, q);
        let v = l.subrange(q + 1, l.len() as int);
        if k.len() <= u32::MAX && v.len() <= u32::MAX {
            Some((k, v))
        } else {
            None
        }
    }
}

/// The assignments of the lines from `p` on.
pub open spec fn parse_wal_from(d: Seq<u8>, p: int) -> Option<Seq<EntryView>>
    decreases d.len() + 1 - p,
{
    if p < 0 || p >= d.len() {
        Some(Seq::empty())
    } else {
        let q = line_end(d, p);
        if q < p || q > d.len() {
            None
        } else {
            match parse_line(d.subrange(p, q)) {
                Some(a) => match parse_wal_from(d, q + 1) {
                    Some(r) => Some(seq![a] + r),
                    None => None,
                },
                None => None,
            }
        }
    }
}

/// The assignments of a whole log, in order.
pub open spec fn parse_wal(d: Seq<u8>) -> Option<Seq<EntryView>> {
    parse_wal_from(d, 0)
}

/// The map after applying the assignments in order.
pub open spec fn apply_all(m: Map<Seq<u8>, Seq<u8>>, a: Seq<EntryView>) -> Map<Seq<u8>, Seq<u8>>
    decreases a.len(),
{
    if a.len() == 0 {
        m
    } else {
        apply_all(m, a.drop_last()).insert(a.last().0, a.last().1)
    }
}

/// The log line for `key=value`, refused where the key or value cannot be
/// read back.
pub fn encode_assignment(key: &[u8], value: &[u8]) -> (r: Result<Vec<u8>, WalError>)
    ensures
        r matches Ok(l) ==> valid_key(key@) && valid_value(value@) && l@ == line_of(key@, value@),
        r == Err::<Vec<u8>, WalError>(WalError::InvalidKey) <==> !valid_key(key@),
        r == Err::<Vec<u8>, WalError>(WalError::InvalidValue) <==> valid_key(key@) && !valid_value(value@),
        r is Ok || r == Err::<Vec<u8>, WalError>(WalError::InvalidKey) || r == Err::<Vec<u8>, WalError>(WalError::InvalidValue),
{
    if key.len() > u32::MAX as usize {
        return Err(WalError::InvalidKey);
    }
    let mut i: usize = 0;
    while i < key.len()
        invariant
            i <= key@.len(),
            forall|t: int| 0 <= t < i ==> #[trigger] key@[t] != SEPARATOR && key@[t] != NEWLINE,
        decreases key@.len() - i,
    {
        if key[i] == SEPARATOR || key[i] == NEWLINE {
            return Err(WalError::InvalidKey);
        }
        i = i + 1;
    }
    if value.len() > u32::MAX as usize {
        return Err(WalError::InvalidValue);
    }
    let mut j: usize = 0;
    while j < value.len()
        invariant
            valid_key(key@),
            j <= value@.len(),
            forall|t: int| 0 <= t < j ==> #[trigger] value@[t] != NEWLINE,
        decreases value@.len() - j,
    {
        if value[j] == NEWLINE {
            return Err(WalError::InvalidValue);
        }
        j = j + 1;
    }
    let mut out: Vec<u8> = Vec::new();
    crate::codec::push_bytes(&mut out, key);
    out.push(SEPARATOR);
    crate::codec::push_bytes(&mut out, value);
    out.push(NEWLINE);
    proof {
        assert(out@ =~= line_of(key@, value@));
    }
    Ok(out)
}

/// Splits one line at its first `=`.
pub fn parse_assignment(d: &[u8], from: usize, to: usize) -> (r: Option<(Vec<u8>, Vec<u8>)>)
    requires
        from <= to <= d@.len(),
    ensures
        match r {
            Some(x) => parse_line(d@.subrange(from as int, to as int)) == Some((x.0@, x.1@)),
            None => parse_line(d@.subrange(from as int, to as int)) is None,
        },
{
    let ghost l = d@.subrange(from as int, to as int);
    let mut q: usize = from;
    while q < to && d[q] != SEPARATOR
        invariant
            from <= q <= to <= d@.len(),
            l == d@.subrange(from as int, to as int),
            separator_at(l, 0) == separator_at(l, q - from),
        decreases to - q,
    {
        q = q + 1;
    }
    if q == to {
        return None;
    }
    if q - from > u32::MAX as usize || to - q - 1 > u32::MAX as usize {
        proof {
            assert(l.subrange(0, q - from) =~= d@.subrange(from as int, q as int));
        }
        return None;
    }
    let k = crate::entries::copy_range(d, from, q);
    let v = crate::entries::copy_range(d, q + 1, to);
    proof {
        assert(l.subrange(0, q - from) =~= d@.subrange(from as int, q as int));
        assert(l.subrange(q - from + 1, l.len() as int) =~= d@.subrange(q + 1, to as int));
    }
    Some((k, v))
}

/// The assignments that the log holds, in order; `Corrupt` where a line is
/// not `key=value`.
pub fn parse_log(d: &[u8]) -> (r: Result<Vec<(Vec<u8>, Vec<u8>)>, WalError>)
    ensures
        match r {
            Ok(v) => parse_wal(d@) == Some(entries_view(v@)),
            Err(e) => parse_wal(d@) is None && e == WalError::Corrupt,
        },
{
    let mut out: Vec<(Vec<u8>, Vec<u8>)> = Vec::new();
    let mut p: usize = 0;
    proof {
        match parse_wal(d@) {
            Some(x) => {
                assert(Seq::<EntryView>::empty() + x =~= x);
            },
            None => {},
        }
    }
    while p < d.len()
        invariant
            p <= d@.len(),
            parse_wal(d@) == prepend(entries_view(out@), parse_wal_from(d@, p as int)),
        decreases d@.len() - p,
    {
        let mut q: usize = p;
        while q < d.len() && d[q] != NEWLINE
            invariant
                p <= q <= d@.len(),
                line_end(d@, p as int) == line_end(d@, q as int),
            decreases d@.len() - q,
        {
            q = q + 1;
        }
        let ghost o = entries_view(out@);
        match parse_assignment(d, p, q) {
            None => {
                return Err(WalError::Corrupt);
            },
            Some(x) => {
                let ghost rest = parse_wal_from(d@, q + 1);
                out.push(x);
                proof {
                    assert(entries_view(out@) =~= o.push((x.0@, x.1@)));
                    match rest {
                        Some(t) => {
                            assert(o + (seq![(x.0@, x.1@)] + t) =~= o.push((x.0@, x.1@)) + t);
                        },
                        None => {},
                    }
                }
                if q == d.len() {
                    p = q;
                } else {
                    p = q + 1;
                }
            },
        }
    }
    proof {
        assert(entries_view(out@) + Seq::<EntryView>::empty() =~= entries_view(out@));
    }
    Ok(out)
}

/// Applies the assignments of the log to `memtable` in order, later lines
/// overriding earlier ones; a corrupt log leaves it unchanged.
pub fn replay(d: &[u8], memtable: &mut Memtable) -> (r: Result<(), WalError>)
    requires
        old(memtable).wf(),
    ensures
        final(memtable).wf(),
        match parse_wal(d@) {
            Some(a) => r is Ok && final(memtable)@ == apply_all(old(memtable)@, a),
            None => r == Err::<(), WalError>(WalError::Corrupt) && *final(memtable) == *old(memtable),
        },
{
    let assignments = match parse_log(d) {
        Ok(v) => v,
        Err(e) => {
            return Err(e);
        },
    };
    let ghost a = entries_view(assignments@);
    proof {
        lemma_parse_fits(d@);
    }
    let mut i: usize = 0;
    while i < assignments.len()
        invariant
            a == entries_view(assignments@),
            fits_u32(a),
            i <= a.len(),
            memtable.wf(),
            memtable@ == apply_all(old(memtable)@, a.subrange(0, i as int)),
        decreases a.len() - i,
    {
        proof {
            assert(a[i as int] == (assignments@[i as int].0@, assignments@[i as int].1@));
        }
        let k = crate::entries::copy_bytes(assignments[i].0.as_slice());
        let v = crate::entries::copy_bytes(assignments[i].1.as_slice());
        memtable.set(k, v);
        proof {
            assert(a.subrange(0, i + 1).drop_last() =~= a.subrange(0, i as int));
        }
        i = i + 1;
    }
    proof {
        assert(a.subrange(0, a.len() as int) =~= a);
    }
    Ok(())
}

proof fn lemma_parse_fits_from(d: Seq<u8>, p: int)
    requires
        parse_wal_from(d, p) is Some,
    ensures
        fits_u32(parse_wal_from(d, p).unwrap()),
    decreases d.len() + 1 - p,
{
    if p >= 0 && p < d.len() {
        let q = line_end(d, p);
        assert(p <= q <= d.len());
        lemma_parse_fits_from(d, q + 1);
        let s = parse_wal_from(d, p).unwrap();
        let r = parse_wal_from(d, q + 1).unwrap();
        assert forall|i: int| 0 <= i < s.len() implies (#[trigger] s[i]).0.len() <= u32::MAX
            && s[i].1.len() <= u32::MAX by {
            if i > 0 {
                assert(s[i] == r[i - 1]);
            }
        }
    }
}

proof fn lemma_parse_fits(d: Seq<u8>)
    requires
        parse_wal(d) is Some,
    ensures
        fits_u32(parse_wal(d).unwrap()),
{
    lemma_parse_fits_from(d, 0);
}

/// The log is empty or ends with a whole line.
pub open spec fn ends_at_line(w: Seq<u8>) -> bool {
    w.len() == 0 || w.last() == NEWLINE
}

proof fn lemma_line_end_stable(w: Seq<u8>, tail: Seq<u8>, p: int)
    requires
        0 <= p < w.len(),
        w.last() == NEWLINE,
    ensures
        line_end(w + tail, p) == line_end(w, p),
        p <= line_end(w, p) < w.len(),
    decreases w.len() - p,
{
    assert((w + tail)[p] == w[p]);
    if w[p] != NEWLINE {
        lemma_line_end_stable(w, tail, p + 1);
    }
}

proof fn lemma_line_end_last(d: Seq<u8>, q: int, end: int)
    requires
        0 <= q <= end < d.len(),
        d[end] == NEWLINE,
        forall|t: int| q <= t < end ==> #[trigger] d[t] != NEWLINE,
    ensures
        line_end(d, q) == end,
    decreases end - q,
{
    if q < end {
        lemma_line_end_last(d, q + 1, end);
    }
}

proof fn lemma_separator_first(l: Seq<u8>, n: int, i: int)
    requires
        0 <= i <= n < l.len(),
        l[n] == SEPARATOR,
        forall|t: int| 0 <= t < n ==> #[trigger] l[t] != SEPARATOR,
    ensures
        separator_at(l, i) == n,
    decreases n - i,
{
    if i < n {
        lemma_separator_first(l, n, i + 1);
    }
}

proof fn lemma_wal_append_from(w: Seq<u8>, k: Seq<u8>, v: Seq<u8>, p: int)
    requires
        valid_key(k),
        valid_value(v),
        ends_at_line(w),
        0 <= p <= w.len(),
        parse_wal_from(w, p) is Some,
    ensures
        parse_wal_from(w + line_of(k, v), p) == Some(parse_wal_from(w, p).unwrap().push((k, v))),
    decreases w.len() - p,
{
    let l = line_of(k, v);
    let d = w + l;
    if p == w.len() {
        let end: int = p + k.len() + 1 + v.len();
        assert forall|t: int| p <= t < end implies #[trigger] d[t] != NEWLINE by {
            if t < p + k.len() {
                assert(d[t] == k[t - p]);
            } else if t > p + k.len() {
                assert(d[t] == v[t - p - k.len() - 1]);
            }
        }
        assert(d[end] == NEWLINE);
        lemma_line_end_last(d, p, end);
        let ln = d.subrange(p, end);
        assert(ln =~= k + seq![SEPARATOR] + v);
        assert forall|t: int| 0 <= t < k.len() implies #[trigger] ln[t] != SEPARATOR by {
            assert(ln[t] == k[t]);
        }
        lemma_separator_first(ln, k.len() as int, 0);
        assert(ln.subrange(0, k.len() as int) =~= k);
        assert(ln.subrange(k.len() + 1 as int, ln.len() as int) =~= v);
        assert(parse_line(ln) == Some((k, v)));
        assert(parse_wal_from(d, end + 1) == Some(Seq::<EntryView>::empty()));
        assert(seq![(k, v)] + Seq::<EntryView>::empty() =~= Seq::<EntryView>::empty().push((k, v)));
    } else {
        lemma_line_end_stable(w, l, p);
        let q = line_end(w, p);
        assert(d.subrange(p, q) =~= w.subrange(p, q));
        lemma_wal_append_from(w, k, v, q + 1);
        let a = parse_line(w.subrange(p, q)).unwrap();
        let r = parse_wal_from(w, q + 1).unwrap();
        assert(seq![a] + r.push((k, v)) =~= (seq![a] + r).push((k, v)));
    }
}

/// Appending the line of an assignment to a log that ends with a whole
/// line adds exactly that assignment to what a replay applies, so the key
/// reads back with that value.
pub proof fn lemma_wal_append(w: Seq<u8>, k: Seq<u8>, v: Seq<u8>, m: Map<Seq<u8>, Seq<u8>>)
    requires
        valid_key(k),
        valid_value(v),
        ends_at_line(w),
        parse_wal(w) is Some,
    ensures
        parse_wal(w + line_of(k, v)) == Some(parse_wal(w).unwrap().push((k, v))),
        ends_at_line(w + line_of(k, v)),
        apply_all(m, parse_wal(w + line_of(k, v)).unwrap()).contains_key(k),
        apply_all(m, parse_wal(w + line_of(k, v)).unwrap())[k] == v,
{
    lemma_wal_append_from(w, k, v, 0);
    let a = parse_wal(w).unwrap().push((k, v));
    assert(a.drop_last() =~= parse_wal(w).unwrap());
}

} // verus!
