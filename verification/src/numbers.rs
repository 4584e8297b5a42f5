use vstd::prelude::*;
use vstd::string::StringSliceAdditionalSpecFns;

use crate::part::{hex_byte_val, is_hex_byte, trim_bytes};

verus! {

/// A decimal digit in ASCII.
pub open spec fn is_dec_byte(b: u8) -> bool {
    0x30 <= b && b <= 0x39
}

/// The numeric value of a digit string under a base, most significant first.
pub open spec fn digits_val(s: Seq<u8>, base: int) -> int
    decreases s.len(),
{
    if s.len() == 0 {
        0
    } else {
        digits_val(s.drop_last(), base) * base + hex_byte_val(s.last())
    }
}

/// A digit string with an optional leading plus sign removed.
pub open spec fn strip_plus(s: Seq<u8>) -> Seq<u8> {
    if s.len() > 0 && s[0] == 0x2b {
        s.drop_first()
    } else {
        s
    }
}

/// Whether a string denotes an integer under a base that fits in 64 bits:
/// an optional plus sign, then at least one digit of the base, with the
/// denoted value at most `u64::MAX`.
pub open spec fn parses_as(s: Seq<u8>, base: int) -> bool {
    let t = strip_plus(s);
    &&& t.len() > 0
    &&& forall|i: int|
        0 <= i < t.len() ==> (if base == 10 {
            is_dec_byte(#[trigger] t[i])
        } else {
            is_hex_byte(t[i])
        })
    &&& digits_val(t, base) <= u64::MAX
}

/// What `parse_int` returns: the catalogs write integers as decimal, as
/// bare hexadecimal, or as hexadecimal behind an `0x` prefix, tried in that
/// order on the whitespace-trimmed string.
pub open spec fn spec_parse_int(s: Seq<u8>) -> Option<u64> {
    let t = trim_bytes(s);
    if parses_as(t, 10) {
        Some(digits_val(strip_plus(t), 10) as u64)
    } else if parses_as(t, 16) {
        Some(digits_val(strip_plus(t), 16) as u64)
    } else if t.len() >= 2 && t[0] == 0x30 && t[1] == 0x78 && parses_as(
        t.subrange(2, t.len() as int),
        16,
    ) {
        Some(digits_val(strip_plus(t.subrange(2, t.len() as int)), 16) as u64)
    } else {
        None
    }
}

/// A longer digit string never denotes a smaller value.
proof fn lemma_digits_val_monotone(s: Seq<u8>, i: int, base: int)
    requires
        0 <= i <= s.len(),
        base >= 2,
        forall|j: int| 0 <= j < s.len() ==> hex_byte_val(#[trigger] s[j]) >= 0,
    ensures
        digits_val(s, base) >= digits_val(s.subrange(0, i), base),
        digits_val(s, base) >= 0,
    decreases s.len(),
{
    if s.len() == 0 {
    } else {
        assert(forall|j: int| 0 <= j < s.drop_last().len() ==> s.drop_last()[j] == s[j]);
        if i == s.len() {
            assert(s.subrange(0, i) =~= s);
            lemma_digits_val_monotone(s.drop_last(), s.len() - 1, base);
            assert(digits_val(s.drop_last(), base) * base >= digits_val(s.drop_last(), base))
                by (nonlinear_arith)
                requires
                    base >= 2,
                    digits_val(s.drop_last(), base) >= 0,
            ;
        } else {
            lemma_digits_val_monotone(s.drop_last(), i, base);
            assert(s.drop_last().subrange(0, i) =~= s.subrange(0, i));
            assert(digits_val(s.drop_last(), base) * base >= digits_val(s.drop_last(), base))
                by (nonlinear_arith)
                requires
                    base >= 2,
                    digits_val(s.drop_last(), base) >= 0,
            ;
        }
    }
}

/// Parse all of a digit slice under a base, `None` on a non-digit, an empty
/// slice, or 64-bit overflow.
fn parse_radix(s: &[u8], base: u64) -> (r: Option<u64>)
    requires
        base == 10 || base == 16,
    ensures
        ({
            let t = s@;
            let ok = t.len() > 0 && (forall|i: int|
                0 <= i < t.len() ==> (if base == 10 {
                    is_dec_byte(#[trigger] t[i])
                } else {
                    is_hex_byte(t[i])
                })) && digits_val(t, base as int) <= u64::MAX;
            match r {
                Some(v) => ok && v == digits_val(t, base as int),
                None => !ok,
            }
        }),
{
    let n: usize = s.len();
    if n == 0 {
        return None;
    }
    let mut val: u64 = 0;
    let mut i: usize = 0;
    proof {
        assert(s@.subrange(0, 0) =~= Seq::<u8>::empty());
    }
    while i < n
        invariant
            0 <= i <= n,
            n == s@.len(),
            base == 10 || base == 16,
            val == digits_val(s@.subrange(0, i as int), base as int),
            forall|j: int|
                0 <= j < i ==> (if base == 10 {
                    is_dec_byte(#[trigger] s@[j])
                } else {
                    is_hex_byte(s@[j])
                }),
        decreases n - i,
    {
        let b = s[i];
        let good = if base == 10 {
            0x30 <= b && b <= 0x39
        } else {
            (0x30 <= b && b <= 0x39) || (0x41 <= b && b <= 0x46) || (0x61 <= b && b <= 0x66)
        };
        if !good {
            proof {
                if base == 10 {
                    assert(!is_dec_byte(s@[i as int]));
                } else {
                    assert(!is_hex_byte(s@[i as int]));
                }
            }
            return None;
        }
        let d: u64 = if 0x30 <= b && b <= 0x39 {
            (b - 0x30) as u64
        } else if 0x41 <= b && b <= 0x46 {
            (b - 0x37) as u64
        } else {
            (b - 0x57) as u64
        };
        proof {
            assert(s@.subrange(0, i + 1).drop_last() =~= s@.subrange(0, i as int));
            assert(s@.subrange(0, i + 1).last() == s@[i as int]);
        }
        let next = match val.checked_mul(base) {
            Some(m) => m.checked_add(d),
            None => None,
        };
        match next {
            Some(v) => {
                val = v;
            },
            None => {
                proof {
                    let full = s@;
                    let pre = s@.subrange(0, i + 1);
                    assert(digits_val(pre, base as int) == digits_val(
                        s@.subrange(0, i as int),
                        base as int,
                    ) * (base as int) + hex_byte_val(s@[i as int]));
                    assert(digits_val(pre, base as int) > u64::MAX);
                    lemma_digits_val_monotone(full, i + 1, base as int);
                }
                return None;
            },
        }
        i = i + 1;
    }
    proof {
        assert(s@.subrange(0, n as int) =~= s@);
    }
    Some(val)
}

/// Parse an integer the way the upstream catalogs write them: decimal
/// first, then bare hexadecimal, then hexadecimal behind an `0x` prefix,
/// each with whitespace around it ignored and an optional plus sign.
pub fn parse_int(s: &str) -> (r: Option<u64>)
    ensures
        r == spec_parse_int(s.spec_bytes()),
{
    let bytes: &[u8] = s.as_bytes();
    let (start, end) = crate::part::trim_slice_bounds(bytes);
    let ghost t = trim_bytes(s.spec_bytes());
    let (pstart, pend) = if end > start && bytes[start] == 0x2b {
        (start + 1, end)
    } else {
        (start, end)
    };
    proof {
        if t.len() > 0 && t[0] == 0x2b {
            assert(strip_plus(t) =~= bytes@.subrange(pstart as int, pend as int));
        } else {
            assert(strip_plus(t) =~= bytes@.subrange(pstart as int, pend as int));
        }
    }
    let digits = slice_range(bytes, pstart, pend);
    if let Some(v) = parse_radix(digits, 10) {
        return Some(v);
    }
    if let Some(v) = parse_radix(digits, 16) {
        return Some(v);
    }
    if end - start >= 2 && bytes[start] == 0x30 && bytes[start + 1] == 0x78 {
        let ghost rest = t.subrange(2, t.len() as int);
        let (rstart, rend) = if end > start + 2 && bytes[start + 2] == 0x2b {
            (start + 3, end)
        } else {
            (start + 2, end)
        };
        proof {
            assert(t[0] == bytes@[start as int]);
            assert(t[1] == bytes@[start + 1]);
            if rest.len() > 0 && rest[0] == 0x2b {
                assert(rest[0] == bytes@[start + 2]);
                assert(strip_plus(rest) =~= bytes@.subrange(rstart as int, rend as int));
            } else {
                if rest.len() > 0 {
                    assert(rest[0] == bytes@[start + 2]);
                }
                assert(strip_plus(rest) =~= bytes@.subrange(rstart as int, rend as int));
            }
        }
        let hex_digits = slice_range(bytes, rstart, rend);
        if let Some(v) = parse_radix(hex_digits, 16) {
            return Some(v);
        }
        return None;
    }
    proof {
        if t.len() >= 2 && t[0] == 0x30 && t[1] == 0x78 {
            assert(t[0] == bytes@[start as int]);
            assert(t[1] == bytes@[start + 1]);
            assert(false);
        }
    }
    None
}

/// The subslice between two bounds.
fn slice_range(s: &[u8], start: usize, end: usize) -> (r: &[u8])
    requires
        0 <= start <= end <= s@.len(),
    ensures
        r@ == s@.subrange(start as int, end as int),
{
    &s[start..end]
}

} // verus!
