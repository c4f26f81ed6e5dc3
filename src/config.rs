//! Store configuration, and the names of the files in a store directory.
use vstd::prelude::*;
use crate::codec::push_bytes;

verus! {

pub open spec fn is_digit(b: u8) -> bool {
    48 <= b <= 57
}

pub open spec fn all_digits(d: Seq<u8>) -> bool {
    forall|i: int| 0 <= i < d.len() ==> is_digit(#[trigger] d[i])
}

/// The number that decimal digits write.
pub open spec fn decimal_value(d: Seq<u8>) -> int
    decreases d.len(),
{
    if d.len() == 0 {
        0
    } else {
        decimal_value(d.drop_last()) * 10 + (d.last() - 48)
    }
}

/// A non-empty run of decimal digits whose number fits in a `u64`.
pub open spec fn decimal_of(d: Seq<u8>) -> Option<u64> {
    if d.len() > 0 && all_digits(d) && decimal_value(d) <= u64::MAX {
        Some(decimal_value(d) as u64)
    } else {
        None
    }
}

proof fn lemma_decimal_grows(d: Seq<u8>, i: int)
    requires
        all_digits(d),
        0 <= i <= d.len(),
    ensures
        0 <= decimal_value(d.subrange(0, i)) <= decimal_value(d),
    decreases d.len(),
{
    if d.len() > 0 {
        assert(all_digits(d.drop_last()));
        assert(is_digit(d[d.len() - 1]));
        if i == d.len() {
            assert(d.subrange(0, i) =~= d);
            lemma_decimal_grows(d.drop_last(), 0);
        } else {
            assert(d.drop_last().subrange(0, i) =~= d.subrange(0, i));
            lemma_decimal_grows(d.drop_last(), i);
        }
        let v = decimal_value(d.drop_last());
        assert(v * 10 + (d.last() - 48) >= v) by (nonlinear_arith)
            requires
                v >= 0,
                d.last() >= 48,
        ;
    } else {
        assert(d.subrange(0, i) =~= d);
    }
}

/// Reads a decimal number.
pub fn parse_decimal(d: &[u8]) -> (r: Option<u64>)
    ensures
        r == decimal_of(d@),
{
    if d.len() == 0 {
        return None;
    }
    let mut v: u64 = 0;
    let mut i: usize = 0;
    while i < d.len()
        invariant
            i <= d@.len(),
            all_digits(d@.subrange(0, i as int)),
            v as int == decimal_value(d@.subrange(0, i as int)),
        decreases d@.len() - i,
    {
        let b = d[i];
        proof {
            assert(d@.subrange(0, i + 1).drop_last() =~= d@.subrange(0, i as int));
        }
        if b < 48 || b > 57 {
            proof {
                assert(!is_digit(d@[i as int]));
            }
            return None;
        }
        let digit = (b - 48) as u64;
        if v > (u64::MAX - digit) / 10 {
            proof {
                assert(v * 10 + digit > u64::MAX) by (nonlinear_arith)
                    requires
                        v > (u64::MAX - digit) / 10,
                        digit <= 9,
                ;
                if all_digits(d@) {
                    lemma_decimal_grows(d@, i + 1);
                }
            }
            return None;
        }
        proof {
            assert(v * 10 + digit <= u64::MAX) by (nonlinear_arith)
                requires
                    v <= (u64::MAX - digit) / 10,
                    digit <= 9,
            ;
        }
        v = v * 10 + digit;
        i = i + 1;
        proof {
            assert forall|t: int| 0 <= t < i implies is_digit(#[trigger] d@.subrange(0, i as int)[t]) by {
                if t < i - 1 {
                    assert(d@.subrange(0, i as int)[t] == d@.subrange(0, i - 1)[t]);
                }
            }
        }
    }
    proof {
        assert(d@.subrange(0, d@.len() as int) =~= d@);
    }
    Some(v)
}

/// `segment-`
pub open spec fn segment_prefix() -> Seq<u8> {
    seq![115u8, 101, 103, 109, 101, 110, 116, 45]
}

/// `.dat`
pub open spec fn segment_suffix() -> Seq<u8> {
    seq![46u8, 100, 97, 116]
}

/// The id in a file name of the form `segment-<N>.dat`.
pub open spec fn segment_id_of(name: Seq<u8>) -> Option<u64> {
    if name.len() >= 12 && name.subrange(0, 8) == segment_prefix() && name.subrange(
        name.len() - 4,
        name.len() as int,
    ) == segment_suffix() {
        decimal_of(name.subrange(8, name.len() - 4))
    } else {
        None
    }
}

fn starts_with_at(d: &[u8], at: usize, pat: &[u8]) -> (r: bool)
    requires
        at + pat@.len() <= d@.len(),
    ensures
        r == (d@.subrange(at as int, at + pat@.len()) == pat@),
{
    let n = d.len();
    let mut i: usize = 0;
    while i < pat.len()
        invariant
            i <= pat@.len(),
            n == d@.len(),
            at + pat@.len() <= d@.len(),
            forall|t: int| 0 <= t < i ==> d@[at + t] == pat@[t],
        decreases pat@.len() - i,
    {
        if d[at + i] != pat[i] {
            proof {
                assert(d@.subrange(at as int, at + pat@.len())[i as int] != pat@[i as int]);
            }
            return false;
        }
        i = i + 1;
    }
    proof {
        assert(d@.subrange(at as int, at + pat@.len()) =~= pat@);
    }
    true
}

/// The id of a segment file, read from its name `segment-<N>.dat`.
pub fn segment_file_id(name: &[u8]) -> (r: Option<u64>)
    ensures
        r == segment_id_of(name@),
{
    if name.len() < 12 {
        return None;
    }
    let prefix: [u8; 8] = [115u8, 101, 103, 109, 101, 110, 116, 45];
    let suffix: [u8; 4] = [46u8, 100, 97, 116];
    proof {
        assert(prefix@ =~= segment_prefix());
        assert(suffix@ =~= segment_suffix());
    }
    if !starts_with_at(name, 0, prefix.as_slice()) || !starts_with_at(
        name,
        name.len() - 4,
        suffix.as_slice(),
    ) {
        return None;
    }
    let digits = crate::entries::copy_range(name, 8, name.len() - 4);
    parse_decimal(digits.as_slice())
}

/// `/wal.dat`
pub open spec fn wal_suffix() -> Seq<u8> {
    seq![47u8, 119, 97, 108, 46, 100, 97, 116]
}

/// The path of the log file in the store directory `store_path`.
pub fn wal_path(store_path: &[u8]) -> (r: Vec<u8>)
    ensures
        r@ == store_path@ + wal_suffix(),
{
    let mut out: Vec<u8> = Vec::new();
    push_bytes(&mut out, store_path);
    let suffix: [u8; 8] = [47u8, 119, 97, 108, 46, 100, 97, 116];
    push_bytes(&mut out, suffix.as_slice());
    proof {
        assert(suffix@ =~= wal_suffix());
        assert(out@ =~= store_path@ + wal_suffix());
    }
    out
}

/// `true` or `false`.
pub open spec fn bool_of(d: Seq<u8>) -> Option<bool> {
    if d == seq![116u8, 114, 117, 101] {
        Some(true)
    } else if d == seq![102u8, 97, 108, 115, 101] {
        Some(false)
    } else {
        None
    }
}

pub fn parse_bool(d: &[u8]) -> (r: Option<bool>)
    ensures
        r == bool_of(d@),
{
    let t: [u8; 4] = [116u8, 114, 117, 101];
    let f: [u8; 5] = [102u8, 97, 108, 115, 101];
    proof {
        assert(t@ =~= seq![116u8, 114, 117, 101]);
        assert(f@ =~= seq![102u8, 97, 108, 115, 101]);
    }
    if d.len() == 4 && starts_with_at(d, 0, t.as_slice()) {
        proof {
            assert(d@ =~= d@.subrange(0, 4));
        }
        Some(true)
    } else if d.len() == 5 && starts_with_at(d, 0, f.as_slice()) {
        proof {
            assert(d@ =~= d@.subrange(0, 5));
        }
        Some(false)
    } else {
        proof {
            if d@.len() == 4 {
                assert(d@ =~= d@.subrange(0, 4));
            }
            if d@.len() == 5 {
                assert(d@ =~= d@.subrange(0, 5));
            }
        }
        None
    }
}

pub const DEFAULT_COMPACTION_INTERVAL_SECONDS: u64 = 600;

/// How the store runs compaction.
#[derive(PartialEq, Eq, Structural, Clone, Copy, Debug)]
pub struct StoreArgs {
    pub compaction_enabled: bool,
    pub compaction_interval_seconds: u64,
}

impl Default for StoreArgs {
    fn default() -> (r: StoreArgs)
        ensures
            r.compaction_enabled,
            r.compaction_interval_seconds == DEFAULT_COMPACTION_INTERVAL_SECONDS,
    {
        StoreArgs {
            compaction_enabled: true,
            compaction_interval_seconds: DEFAULT_COMPACTION_INTERVAL_SECONDS,
        }
    }
}

impl StoreArgs {
    /// The configuration from the values of the two settings, where set; a
    /// setting that is absent or does not parse keeps its default.
    pub fn from_env(compaction_enabled: Option<&[u8]>, compaction_interval_seconds: Option<&[u8]>) -> (r: StoreArgs)
        ensures
            r.compaction_enabled == match compaction_enabled {
                Some(s) => match bool_of(s@) {
                    Some(b) => b,
                    None => true,
                },
                None => true,
            },
            r.compaction_interval_seconds == match compaction_interval_seconds {
                Some(s) => match decimal_of(s@) {
                    Some(n) => n,
                    None => DEFAULT_COMPACTION_INTERVAL_SECONDS,
                },
                None => DEFAULT_COMPACTION_INTERVAL_SECONDS,
            },
    {
        let enabled = match compaction_enabled {
            Some(s) => match parse_bool(s) {
                Some(b) => b,
                None => true,
            },
            None => true,
        };
        let interval = match compaction_interval_seconds {
            Some(s) => match parse_decimal(s) {
                Some(n) => n,
                None => DEFAULT_COMPACTION_INTERVAL_SECONDS,
            },
            None => DEFAULT_COMPACTION_INTERVAL_SECONDS,
        };
        StoreArgs { compaction_enabled: enabled, compaction_interval_seconds: interval }
    }
}

} // verus!
