//! Ordering of game version names such as `1.20` and `1.20.4`.

use vstd::prelude::*;
use vstd::utf8::encode_utf8;
use crate::region::{all_digits, digits_value, dot_from, is_digit, lemma_digits_prefix};

verus! {

/// A version field: a non-empty decimal no larger than 0xFFFF.
pub open spec fn field_value(p: Seq<u8>) -> Option<nat> {
    if p.len() > 0 && all_digits(p) && digits_value(p) <= 0xFFFF {
        Some(digits_value(p) as nat)
    } else {
        None
    }
}

/// `A.B` counts as `(A << 16) + (B << 8)` and `A.B.C` as
/// `(A << 16) + (B << 8) + C`; any other text counts as 0.
pub open spec fn version_value(s: Seq<u8>) -> nat {
    let d1 = dot_from(s, 0);
    let a = field_value(s.subrange(0, d1));
    let rest = s.subrange(d1 + 1, s.len() as int);
    let d2 = dot_from(rest, 0);
    let b = field_value(rest.subrange(0, d2));
    let tail = rest.subrange(d2 + 1, rest.len() as int);
    if d1 >= s.len() || a is None || b is None {
        0
    } else if d2 >= rest.len() {
        a->Some_0 * 65536 + b->Some_0 * 256
    } else if dot_from(tail, 0) < tail.len() || field_value(tail) is None {
        0
    } else {
        a->Some_0 * 65536 + b->Some_0 * 256 + field_value(tail)->Some_0
    }
}

/// The value of one version field.
fn field(p: &[u8]) -> (r: Option<u64>)
    ensures
        match r {
            Some(v) => field_value(p@) == Some(v as nat),
            None => field_value(p@) is None,
        },
        r is Some ==> r->Some_0 <= 0xFFFF,
{
    if p.len() == 0 {
        return None;
    }
    let mut acc: u64 = 0;
    let mut i: usize = 0;
    while i < p.len()
        invariant
            i <= p@.len(),
            forall|k: int| 0 <= k < i ==> is_digit(#[trigger] p@[k]),
            acc == digits_value(p@.subrange(0, i as int)),
            acc <= 0xFFFF,
        decreases p@.len() - i,
    {
        let b = p[i];
        if b < 48 || b > 57 {
            assert(!is_digit(p@[i as int]));
            return None;
        }
        assert(p@.subrange(0, i + 1).drop_last() =~= p@.subrange(0, i as int));
        acc = acc * 10 + (b - 48) as u64;
        i = i + 1;
        if acc > 0xFFFF {
            proof {
                if all_digits(p@) {
                    lemma_digits_prefix(p@, i as int);
                }
            }
            return None;
        }
    }
    assert(p@.subrange(0, i as int) =~= p@);
    Some(acc)
}

/// Index of the first `.` in `s`, or its length.
fn find_dot(s: &[u8]) -> (r: usize)
    ensures
        r == dot_from(s@, 0),
        r <= s@.len(),
{
    let mut d: usize = 0;
    while d < s.len() && s[d] != 46
        invariant
            d <= s@.len(),
            dot_from(s@, 0) == dot_from(s@, d as int),
        decreases s@.len() - d,
    {
        d = d + 1;
    }
    d
}

/// The numeric value of a version name, for comparison.
pub fn version_int(version_number: &str) -> (r: u64)
    ensures
        r == version_value(encode_utf8(version_number@)),
{
    let s = version_number.as_bytes();
    let d1 = find_dot(s);
    if d1 >= s.len() {
        return 0;
    }
    let a = field(&s[0..d1]);
    let rest = &s[d1 + 1..s.len()];
    let d2 = find_dot(rest);
    let b = field(&rest[0..d2]);
    let (a, b) = match (a, b) {
        (Some(a), Some(b)) => (a, b),
        _ => {
            return 0;
        },
    };
    if d2 >= rest.len() {
        return a * 65536 + b * 256;
    }
    let tail = &rest[d2 + 1..rest.len()];
    if find_dot(tail) < tail.len() {
        return 0;
    }
    match field(tail) {
        Some(c) => a * 65536 + b * 256 + c,
        None => 0,
    }
}

/// The later of two version names; the first when they rank equal.
pub fn newer_version(ver_1: &str, ver_2: &str) -> (r: String)
    ensures
        r@ == if version_value(encode_utf8(ver_1@)) < version_value(encode_utf8(ver_2@)) {
            ver_2@
        } else {
            ver_1@
        },
{
    if version_int(ver_1) < version_int(ver_2) {
        ver_2.to_owned()
    } else {
        ver_1.to_owned()
    }
}

} // verus!
