use vstd::prelude::*;
use vstd::string::StringSliceAdditionalSpecFns;

use crate::part::ws_len_back;

verus! {

/// The least index at which `pat` occurs in `s`, if any.
pub open spec fn first_match(s: Seq<u8>, pat: Seq<u8>) -> Option<int>
    decreases s.len(),
{
    if pat.len() == 0 {
        Some(0)
    } else if s.len() < pat.len() {
        None
    } else if s.subrange(0, pat.len() as int) == pat {
        Some(0)
    } else {
        match first_match(s.drop_first(), pat) {
            Some(j) => Some(j + 1),
            None => None,
        }
    }
}

/// `first_match` names the least occurrence.
pub proof fn lemma_first_match_spec(s: Seq<u8>, pat: Seq<u8>)
    ensures
        (match first_match(s, pat) {
            Some(i) => 0 <= i && i + pat.len() <= s.len() && s.subrange(i, i + pat.len() as int)
                == pat && forall|j: int|
                0 <= j < i ==> #[trigger] s.subrange(j, j + pat.len() as int) != pat,
            None => forall|j: int|
                0 <= j && j + pat.len() <= s.len() ==> #[trigger] s.subrange(j, j + pat.len() as int)
                    != pat,
        }),
    decreases s.len(),
{
    if pat.len() == 0 {
        assert(s.subrange(0, 0) =~= pat);
    } else if s.len() < pat.len() {
    } else if s.subrange(0, pat.len() as int) == pat {
    } else {
        lemma_first_match_spec(s.drop_first(), pat);
        assert forall|j: int|
            1 <= j && j + pat.len() <= s.len() implies #[trigger] s.subrange(j, j + pat.len() as int)
            == s.drop_first().subrange(j - 1, j - 1 + pat.len() as int) by {
            assert(s.subrange(j, j + pat.len() as int) =~= s.drop_first().subrange(
                j - 1,
                j - 1 + pat.len() as int,
            ));
        }
    }
}

/// Whether `pat` occurs anywhere in `s`.
pub open spec fn contains_seq(s: Seq<u8>, pat: Seq<u8>) -> bool {
    first_match(s, pat) is Some
}

/// Whether `pat` is a prefix of `s`.
pub open spec fn starts_with_seq(s: Seq<u8>, pat: Seq<u8>) -> bool {
    pat.len() <= s.len() && s.subrange(0, pat.len() as int) == pat
}

/// Compare two byte slices for equality.
pub fn bytes_eq(a: &[u8], b: &[u8]) -> (r: bool)
    ensures
        r == (a@ == b@),
{
    if a.len() != b.len() {
        proof {
            assert(a@.len() != b@.len());
        }
        return false;
    }
    let n: usize = a.len();
    let mut i: usize = 0;
    while i < n
        invariant
            0 <= i <= n,
            n == a@.len(),
            n == b@.len(),
            forall|j: int| 0 <= j < i ==> a@[j] == b@[j],
        decreases n - i,
    {
        if a[i] != b[i] {
            return false;
        }
        i = i + 1;
    }
    proof {
        assert(a@ =~= b@);
    }
    true
}

/// Whether `pat` is a prefix of `s`.
pub fn bytes_starts_with(s: &[u8], pat: &[u8]) -> (r: bool)
    ensures
        r == starts_with_seq(s@, pat@),
{
    let m: usize = pat.len();
    if m > s.len() {
        return false;
    }
    let mut i: usize = 0;
    while i < m
        invariant
            0 <= i <= m,
            m == pat@.len(),
            m <= s@.len(),
            forall|j: int| 0 <= j < i ==> s@[j] == pat@[j],
        decreases m - i,
    {
        if s[i] != pat[i] {
            proof {
                assert(s@.subrange(0, m as int)[i as int] == s@[i as int]);
            }
            return false;
        }
        i = i + 1;
    }
    proof {
        assert(s@.subrange(0, m as int) =~= pat@);
    }
    true
}

/// The least index at which `pat` occurs in `s`, if any.
pub fn bytes_find(s: &[u8], pat: &[u8]) -> (r: Option<usize>)
    ensures
        (match r {
            Some(i) => first_match(s@, pat@) == Some(i as int),
            None => first_match(s@, pat@) is None,
        }),
{
    proof {
        lemma_first_match_spec(s@, pat@);
    }
    let n: usize = s.len();
    let m: usize = pat.len();
    if m > n {
        return None;
    }
    if m == 0 {
        proof {
            assert(s@.subrange(0, 0) =~= pat@);
        }
        return Some(0);
    }
    let mut i: usize = 0;
    while i <= n - m
        invariant
            0 <= i <= n - m + 1,
            0 < m <= n,
            n == s@.len(),
            m == pat@.len(),
            forall|j: int| 0 <= j < i ==> #[trigger] s@.subrange(j, j + pat@.len() as int) != pat@,
        decreases n - i,
    {
        let mut k: usize = 0;
        let mut hit = true;
        while k < m
            invariant
                0 <= k <= m,
                0 <= i <= n - m,
                n == s@.len(),
                m == pat@.len(),
                hit ==> forall|j: int| 0 <= j < k ==> s@[i + j] == pat@[j],
                !hit ==> s@.subrange(i as int, i + pat@.len() as int) != pat@,
            decreases m - k,
        {
            if s[i + k] != pat[k] {
                proof {
                    assert(s@.subrange(i as int, i + pat@.len() as int)[k as int] == s@[i + k]);
                }
                hit = false;
                k = m;
            } else {
                k = k + 1;
            }
        }
        if hit {
            proof {
                assert(s@.subrange(i as int, i + pat@.len() as int) =~= pat@);
                lemma_first_match_spec(s@, pat@);
                if first_match(s@, pat@) is None {
                    assert(false);
                }
                let fm = first_match(s@, pat@)->Some_0;
                if fm < i {
                    assert(s@.subrange(fm, fm + pat@.len() as int) != pat@);
                    assert(false);
                }
                if fm > i {
                    assert(s@.subrange(i as int, i + pat@.len() as int) != pat@);
                    assert(false);
                }
            }
            return Some(i);
        }
        i = i + 1;
    }
    proof {
        lemma_first_match_spec(s@, pat@);
        match first_match(s@, pat@) {
            Some(fm) => {
                assert(s@.subrange(fm, fm + pat@.len() as int) == pat@);
                assert(false);
            },
            None => {},
        }
    }
    None
}

/// Whether `pat` occurs anywhere in `s`.
pub fn bytes_contains(s: &[u8], pat: &[u8]) -> (r: bool)
    ensures
        r == contains_seq(s@, pat@),
{
    match bytes_find(s, pat) {
        Some(_) => true,
        None => false,
    }
}

/// Lexicographic order on byte strings.
pub open spec fn spec_bytes_cmp(a: Seq<u8>, b: Seq<u8>) -> core::cmp::Ordering
    decreases a.len(),
{
    if a.len() == 0 && b.len() == 0 {
        core::cmp::Ordering::Equal
    } else if a.len() == 0 {
        core::cmp::Ordering::Less
    } else if b.len() == 0 {
        core::cmp::Ordering::Greater
    } else if a[0] < b[0] {
        core::cmp::Ordering::Less
    } else if a[0] > b[0] {
        core::cmp::Ordering::Greater
    } else {
        spec_bytes_cmp(a.drop_first(), b.drop_first())
    }
}

/// Compare two byte slices lexicographically.
pub fn bytes_cmp(a: &[u8], b: &[u8]) -> (r: core::cmp::Ordering)
    ensures
        r == spec_bytes_cmp(a@, b@),
{
    let an: usize = a.len();
    let bn: usize = b.len();
    let mut i: usize = 0;
    proof {
        assert(a@.subrange(0, an as int) =~= a@);
        assert(b@.subrange(0, bn as int) =~= b@);
    }
    while i < an && i < bn
        invariant
            0 <= i,
            i <= an,
            i <= bn,
            an == a@.len(),
            bn == b@.len(),
            spec_bytes_cmp(a@, b@) == spec_bytes_cmp(
                a@.subrange(i as int, an as int),
                b@.subrange(i as int, bn as int),
            ),
        decreases an - i,
    {
        let x = a[i];
        let y = b[i];
        proof {
            let at = a@.subrange(i as int, an as int);
            let bt = b@.subrange(i as int, bn as int);
            assert(at[0] == a@[i as int]);
            assert(bt[0] == b@[i as int]);
            assert(at.drop_first() =~= a@.subrange(i + 1, an as int));
            assert(bt.drop_first() =~= b@.subrange(i + 1, bn as int));
        }
        if x < y {
            return core::cmp::Ordering::Less;
        }
        if x > y {
            return core::cmp::Ordering::Greater;
        }
        i = i + 1;
    }
    proof {
        let at = a@.subrange(i as int, an as int);
        let bt = b@.subrange(i as int, bn as int);
        if i == an && i == bn {
            assert(at.len() == 0 && bt.len() == 0);
        } else if i == an {
            assert(at.len() == 0 && bt.len() > 0);
        } else {
            assert(bt.len() == 0 && at.len() > 0);
        }
    }
    if an == bn {
        core::cmp::Ordering::Equal
    } else if an < bn {
        core::cmp::Ordering::Less
    } else {
        core::cmp::Ordering::Greater
    }
}

/// Byte strings compare equal exactly when they are equal.
pub proof fn lemma_bytes_cmp_eq(a: Seq<u8>, b: Seq<u8>)
    ensures
        (spec_bytes_cmp(a, b) == core::cmp::Ordering::Equal) <==> (a == b),
    decreases a.len(),
{
    if a.len() == 0 && b.len() == 0 {
        assert(a =~= b);
    } else if a.len() == 0 || b.len() == 0 {
    } else {
        lemma_bytes_cmp_eq(a.drop_first(), b.drop_first());
        if spec_bytes_cmp(a, b) == core::cmp::Ordering::Equal {
            assert(a.drop_first() == b.drop_first());
            assert forall|i: int| 0 <= i < a.len() implies a[i] == b[i] by {
                if i > 0 {
                    assert(a.drop_first()[i - 1] == b.drop_first()[i - 1]);
                }
            }
            assert(a =~= b);
        }
    }
}

/// Swapping the operands of the byte comparison flips its verdict.
pub proof fn lemma_bytes_cmp_antisym(a: Seq<u8>, b: Seq<u8>)
    ensures
        (spec_bytes_cmp(a, b) == core::cmp::Ordering::Greater) <==> (spec_bytes_cmp(b, a)
            == core::cmp::Ordering::Less),
    decreases a.len(),
{
    if a.len() == 0 || b.len() == 0 {
    } else {
        lemma_bytes_cmp_antisym(a.drop_first(), b.drop_first());
    }
}

/// The byte comparison is transitive on not-greater.
pub proof fn lemma_bytes_cmp_trans(a: Seq<u8>, b: Seq<u8>, c: Seq<u8>)
    requires
        spec_bytes_cmp(a, b) != core::cmp::Ordering::Greater,
        spec_bytes_cmp(b, c) != core::cmp::Ordering::Greater,
    ensures
        spec_bytes_cmp(a, c) != core::cmp::Ordering::Greater,
    decreases a.len(),
{
    if a.len() == 0 {
    } else if b.len() == 0 {
    } else if c.len() == 0 {
    } else {
        if a[0] == b[0] && b[0] == c[0] {
            lemma_bytes_cmp_trans(a.drop_first(), b.drop_first(), c.drop_first());
        }
    }
}

/// The position the trailing whitespace characters before `from` start at.
pub open spec fn trim_back_from(s: Seq<u8>, from: int) -> int
    decreases (if from >= 0 {
        from
    } else {
        0
    }),
{
    if 0 <= from && from <= s.len() && ws_len_back(s.subrange(0, from)) > 0 {
        trim_back_from(s, from - ws_len_back(s.subrange(0, from)))
    } else {
        from
    }
}

/// What cutting a string before a byte pattern yields: the characters before
/// the pattern's first occurrence, trailing ASCII whitespace dropped. A
/// string without the pattern, or whose cut point would fall inside one
/// character's encoding, stays whole.
pub open spec fn spec_cut_before(chars: Seq<char>, pat: Seq<u8>) -> Seq<char> {
    let bytes = vstd::utf8::encode_utf8(chars);
    match first_match(bytes, pat) {
        None => chars,
        Some(i) => {
            let cut = trim_back_from(bytes, i);
            if vstd::utf8::is_char_boundary(bytes, cut) {
                vstd::utf8::decode_utf8(bytes.subrange(0, cut))
            } else {
                chars
            }
        },
    }
}

/// Cut a string before the first occurrence of a byte pattern, dropping the
/// whitespace characters just before it.
pub fn cut_before<'s>(s: &'s str, pat: &[u8]) -> (r: &'s str)
    ensures
        r@ == spec_cut_before(s@, pat@),
{
    match bytes_find(s.as_bytes(), pat) {
        None => s,
        Some(i) => {
            let b: &[u8] = s.as_bytes();
            proof {
                lemma_first_match_spec(s.spec_bytes(), pat@);
            }
            let mut end: usize = i;
            while crate::part::ws_back_at(b, 0, end) > 0
                invariant
                    0 <= end <= i,
                    i <= b@.len(),
                    b@ == s.spec_bytes(),
                    trim_back_from(s.spec_bytes(), i as int) == trim_back_from(
                        s.spec_bytes(),
                        end as int,
                    ),
                decreases end,
            {
                let k = crate::part::ws_back_at(b, 0, end);
                end = end - k;
            }
            let r = cut_at(s, end);
            proof {
                broadcast use vstd::utf8::encode_utf8_decode_utf8;

                assert(trim_back_from(s.spec_bytes(), end as int) == end);
            }
            r
        },
    }
}

/// Cut a string before a byte index, when that index falls on a character
/// boundary; a string whose boundary the index misses is returned whole.
pub fn cut_at(s: &str, end: usize) -> (r: &str)
    requires
        end <= s.spec_bytes().len(),
    ensures
        (if vstd::utf8::is_char_boundary(s.spec_bytes(), end as int) {
            r.spec_bytes() == s.spec_bytes().subrange(0, end as int)
        } else {
            r@ == s@
        }),
{
    if s.is_char_boundary(end) {
        let (head, _) = s.split_at(end);
        head
    } else {
        s
    }
}

} // verus!
