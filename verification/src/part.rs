use vstd::prelude::*;
use vstd::string::StringExecFns;
use vstd::string::StringSliceAdditionalSpecFns;

verus! {

broadcast use vstd::array::axiom_array_ext_equal;

/// Mathematical value of a content identity: the variant tag and the digest bytes.
pub struct PartView {
    pub is_disk: bool,
    pub sha1: Seq<u8>,
}

impl PartView {
    /// A well-formed identity carries exactly 20 digest bytes.
    pub open spec fn wf(self) -> bool {
        self.sha1.len() == 20
    }
}

/// Content identity of a catalog entry: a ROM is identified by the SHA-1 of
/// its whole content, a disk image by the SHA-1 recorded in its header.
#[derive(Clone, Copy, Debug)]
pub enum Part {
    Rom { sha1: [u8; 20] },
    Disk { sha1: [u8; 20] },
}

impl View for Part {
    type V = PartView;

    open spec fn view(&self) -> PartView {
        match self {
            Part::Rom { sha1 } => PartView { is_disk: false, sha1: sha1@ },
            Part::Disk { sha1 } => PartView { is_disk: true, sha1: sha1@ },
        }
    }
}

/// Compare two digest arrays for byte equality.
fn digest_eq(a: &[u8; 20], b: &[u8; 20]) -> (r: bool)
    ensures
        r == (a@ == b@),
        r == (*a == *b),
{
    let mut i: usize = 0;
    while i < 20
        invariant
            0 <= i <= 20,
            forall|j: int| 0 <= j < i ==> a@[j] == b@[j],
        decreases 20 - i,
    {
        if a[i] != b[i] {
            return false;
        }
        i = i + 1;
    }
    proof {
        assert(a@ =~= b@);
        assert(*a =~= *b);
    }
    true
}

impl PartialEq for Part {
    fn eq(&self, other: &Part) -> (r: bool) {
        match (self, other) {
            (Part::Rom { sha1: a }, Part::Rom { sha1: b }) => digest_eq(a, b),
            (Part::Disk { sha1: a }, Part::Disk { sha1: b }) => digest_eq(a, b),
            _ => false,
        }
    }
}

impl vstd::std_specs::cmp::PartialEqSpecImpl for Part {
    open spec fn obeys_eq_spec() -> bool {
        true
    }

    open spec fn eq_spec(&self, other: &Part) -> bool {
        self == other
    }
}

/// Why a textual SHA-1 digest could not be decoded.
#[derive(Clone, Copy, Debug, PartialEq, Eq, Structural)]
pub enum Sha1ParseError {
    IncorrectLength,
    NonHexDigits,
}

impl Sha1ParseError {
    /// Human-readable description of the decoding failure.
    pub fn message(&self) -> (r: String)
        ensures
            r@ == (match self {
                Sha1ParseError::IncorrectLength => "incorrect SHA1 hash length"@,
                Sha1ParseError::NonHexDigits => "non hex digits in SHA1 hash"@,
            }),
    {
        match self {
            Sha1ParseError::IncorrectLength => String::from_str("incorrect SHA1 hash length"),
            Sha1ParseError::NonHexDigits => String::from_str("non hex digits in SHA1 hash"),
        }
    }
}

/// A single-byte whitespace character: the ASCII whitespace set.
pub open spec fn is_space_byte(b: u8) -> bool {
    b == 0x20 || b == 0x09 || b == 0x0a || b == 0x0d || b == 0x0b || b == 0x0c
}

/// The two-byte encodings of whitespace characters: next line and no-break
/// space.
pub open spec fn is_space_pair(b0: u8, b1: u8) -> bool {
    b0 == 0xc2 && (b1 == 0x85 || b1 == 0xa0)
}

/// The three-byte encodings of whitespace characters: the ogham space mark,
/// the typographic spaces, the line and paragraph separators, the narrow
/// no-break space, the medium mathematical space and the ideographic space.
pub open spec fn is_space_triple(b0: u8, b1: u8, b2: u8) -> bool {
    ||| (b0 == 0xe1 && b1 == 0x9a && b2 == 0x80)
    ||| (b0 == 0xe2 && b1 == 0x80 && ((0x80 <= b2 && b2 <= 0x8a) || b2 == 0xa8 || b2 == 0xa9
        || b2 == 0xaf))
    ||| (b0 == 0xe2 && b1 == 0x81 && b2 == 0x9f)
    ||| (b0 == 0xe3 && b1 == 0x80 && b2 == 0x80)
}

/// The length of the whitespace character encoding the byte string starts
/// with, 0 when it starts with none. In valid UTF-8 every leading
/// whitespace character matches exactly one of the three patterns, so this
/// removes the same characters the standard trim does.
pub open spec fn ws_len_front(s: Seq<u8>) -> int {
    if s.len() >= 1 && is_space_byte(s[0]) {
        1
    } else if s.len() >= 2 && is_space_pair(s[0], s[1]) {
        2
    } else if s.len() >= 3 && is_space_triple(s[0], s[1], s[2]) {
        3
    } else {
        0
    }
}

/// The length of the whitespace character encoding the byte string ends
/// with, 0 when it ends with none. The multi-byte patterns open with a
/// leading byte, which in valid UTF-8 never stands inside another
/// character's encoding, so the match is unambiguous.
pub open spec fn ws_len_back(s: Seq<u8>) -> int {
    let n = s.len() as int;
    if n >= 1 && is_space_byte(s[n - 1]) {
        1
    } else if n >= 2 && is_space_pair(s[n - 2], s[n - 1]) {
        2
    } else if n >= 3 && is_space_triple(s[n - 3], s[n - 2], s[n - 1]) {
        3
    } else {
        0
    }
}

pub open spec fn trim_start_bytes(s: Seq<u8>) -> Seq<u8>
    decreases s.len(),
{
    if ws_len_front(s) > 0 {
        trim_start_bytes(s.subrange(ws_len_front(s), s.len() as int))
    } else {
        s
    }
}

pub open spec fn trim_end_bytes(s: Seq<u8>) -> Seq<u8>
    decreases s.len(),
{
    if ws_len_back(s) > 0 {
        trim_end_bytes(s.subrange(0, s.len() - ws_len_back(s)))
    } else {
        s
    }
}

/// The byte string with whitespace characters removed from both ends.
pub open spec fn trim_bytes(s: Seq<u8>) -> Seq<u8> {
    trim_end_bytes(trim_start_bytes(s))
}

/// A hexadecimal digit in ASCII.
pub open spec fn is_hex_byte(b: u8) -> bool {
    (0x30 <= b && b <= 0x39) || (0x41 <= b && b <= 0x46) || (0x61 <= b && b <= 0x66)
}

/// Numeric value of a hexadecimal digit.
pub open spec fn hex_byte_val(b: u8) -> u8 {
    if 0x30 <= b && b <= 0x39 {
        (b - 0x30) as u8
    } else if 0x41 <= b && b <= 0x46 {
        (b - 0x37) as u8
    } else {
        (b - 0x57) as u8
    }
}

pub open spec fn all_hex(s: Seq<u8>) -> bool {
    forall|i: int| 0 <= i < s.len() ==> is_hex_byte(s[i])
}

/// The bytes denoted by a string of hexadecimal digit pairs.
pub open spec fn hex_pairs(s: Seq<u8>) -> Seq<u8> {
    Seq::new((s.len() / 2) as nat, |i: int| (hex_byte_val(s[2 * i]) * 16 + hex_byte_val(s[2 * i + 1])) as u8)
}

/// What `parse_sha1` returns: the digest bytes of a 40-digit hexadecimal
/// string (whitespace around it ignored), or the reason it is rejected.
pub open spec fn spec_parse_sha1(s: Seq<u8>) -> Result<Seq<u8>, Sha1ParseError> {
    let t = trim_bytes(s);
    if t.len() != 40 {
        Err(Sha1ParseError::IncorrectLength)
    } else if !all_hex(t) {
        Err(Sha1ParseError::NonHexDigits)
    } else {
        Ok(hex_pairs(t))
    }
}

/// The length of the whitespace encoding at an offset of a slice.
fn ws_front_at(s: &[u8], i: usize) -> (r: usize)
    requires
        i <= s@.len(),
    ensures
        r == ws_len_front(s@.subrange(i as int, s@.len() as int)),
        i + r <= s@.len(),
{
    let n: usize = s.len();
    proof {
        let sub = s@.subrange(i as int, n as int);
        if sub.len() >= 1 {
            assert(sub[0] == s@[i as int]);
        }
        if sub.len() >= 2 {
            assert(sub[1] == s@[i + 1]);
        }
        if sub.len() >= 3 {
            assert(sub[2] == s@[i + 2]);
        }
    }
    if n - i >= 1 && space_byte(s[i]) {
        1
    } else if n - i >= 2 && s[i] == 0xc2 && (s[i + 1] == 0x85 || s[i + 1] == 0xa0) {
        2
    } else if n - i >= 3 && space_triple(s[i], s[i + 1], s[i + 2]) {
        3
    } else {
        0
    }
}

/// The length of the whitespace encoding just before an offset of a slice,
/// looking no further back than a lower bound.
pub(crate) fn ws_back_at(s: &[u8], lo: usize, j: usize) -> (r: usize)
    requires
        lo <= j <= s@.len(),
    ensures
        r == ws_len_back(s@.subrange(lo as int, j as int)),
        r <= j - lo,
{
    proof {
        let sub = s@.subrange(lo as int, j as int);
        let n = sub.len() as int;
        if n >= 1 {
            assert(sub[n - 1] == s@[j - 1]);
        }
        if n >= 2 {
            assert(sub[n - 2] == s@[j - 2]);
        }
        if n >= 3 {
            assert(sub[n - 3] == s@[j - 3]);
        }
    }
    if j - lo >= 1 && space_byte(s[j - 1]) {
        1
    } else if j - lo >= 2 && s[j - 2] == 0xc2 && (s[j - 1] == 0x85 || s[j - 1] == 0xa0) {
        2
    } else if j - lo >= 3 && space_triple(s[j - 3], s[j - 2], s[j - 1]) {
        3
    } else {
        0
    }
}

fn space_byte(b: u8) -> (r: bool)
    ensures
        r == is_space_byte(b),
{
    b == 0x20 || b == 0x09 || b == 0x0a || b == 0x0d || b == 0x0b || b == 0x0c
}

fn space_triple(b0: u8, b1: u8, b2: u8) -> (r: bool)
    ensures
        r == is_space_triple(b0, b1, b2),
{
    (b0 == 0xe1 && b1 == 0x9a && b2 == 0x80) || (b0 == 0xe2 && b1 == 0x80 && ((0x80 <= b2 && b2
        <= 0x8a) || b2 == 0xa8 || b2 == 0xa9 || b2 == 0xaf)) || (b0 == 0xe2 && b1 == 0x81 && b2
        == 0x9f) || (b0 == 0xe3 && b1 == 0x80 && b2 == 0x80)
}

/// Bounds of the whitespace-trimmed middle of a byte slice.
pub(crate) fn trim_slice_bounds(s: &[u8]) -> (r: (usize, usize))
    ensures
        0 <= r.0 <= r.1 <= s@.len(),
        s@.subrange(r.0 as int, r.1 as int) == trim_bytes(s@),
{
    let len: usize = s.len();
    let mut i: usize = 0;
    proof {
        assert(s@.subrange(0, len as int) =~= s@);
    }
    while ws_front_at(s, i) > 0
        invariant
            0 <= i <= len,
            len == s@.len(),
            trim_start_bytes(s@) == trim_start_bytes(s@.subrange(i as int, len as int)),
        decreases len - i,
    {
        let k = ws_front_at(s, i);
        proof {
            let sub = s@.subrange(i as int, len as int);
            assert(sub.subrange(k as int, sub.len() as int) =~= s@.subrange(i + k, len as int));
        }
        i = i + k;
    }
    proof {
        assert(trim_start_bytes(s@.subrange(i as int, len as int)) == s@.subrange(
            i as int,
            len as int,
        ));
    }
    let mut j: usize = len;
    while ws_back_at(s, i, j) > 0
        invariant
            i <= j <= len,
            len == s@.len(),
            trim_start_bytes(s@) == s@.subrange(i as int, len as int),
            trim_end_bytes(s@.subrange(i as int, len as int)) == trim_end_bytes(
                s@.subrange(i as int, j as int),
            ),
        decreases j,
    {
        let k = ws_back_at(s, i, j);
        proof {
            let sub = s@.subrange(i as int, j as int);
            assert(sub.subrange(0, sub.len() - k) =~= s@.subrange(i as int, j - k));
        }
        j = j - k;
    }
    proof {
        assert(trim_end_bytes(s@.subrange(i as int, j as int)) == s@.subrange(i as int, j as int));
    }
    (i, j)
}

/// Decode a 40-digit hexadecimal string into 20 digest bytes.
/// Whitespace around the digits is ignored; a string of the wrong length or
/// with a non-hexadecimal digit is rejected, in that order of precedence.
pub fn parse_sha1(hex: &str) -> (r: Result<[u8; 20], Sha1ParseError>)
    ensures
        (match r {
            Ok(b) => spec_parse_sha1(hex.spec_bytes()) == Ok::<Seq<u8>, Sha1ParseError>(b@),
            Err(e) => spec_parse_sha1(hex.spec_bytes()) == Err::<Seq<u8>, Sha1ParseError>(e),
        }),
{
    let s: &[u8] = hex.as_bytes();
    let (start, end) = trim_slice_bounds(s);
    let ghost t = trim_bytes(hex.spec_bytes());

    if end - start != 40 {
        return Err(Sha1ParseError::IncorrectLength);
    }

    let mut k: usize = start;
    while k < end
        invariant
            start <= k <= end,
            end - start == 40,
            end <= s@.len(),
            s@ == hex.spec_bytes(),
            t == trim_bytes(hex.spec_bytes()),
            t == s@.subrange(start as int, end as int),
            t.len() == 40,
            forall|m: int| start <= m < k ==> is_hex_byte(s@[m]),
        decreases end - k,
    {
        let b = s[k];
        if !((0x30 <= b && b <= 0x39) || (0x41 <= b && b <= 0x46) || (0x61 <= b && b <= 0x66)) {
            proof {
                assert(t[k - start] == s@[k as int]);
                assert(!is_hex_byte(t[k - start]));
                assert(!all_hex(t));
            }
            return Err(Sha1ParseError::NonHexDigits);
        }
        k = k + 1;
    }
    proof {
        assert forall|m: int| 0 <= m < t.len() implies is_hex_byte(t[m]) by {
            assert(t[m] == s@[start + m]);
        }
    }

    let mut out: [u8; 20] = [0u8; 20];
    let mut idx: usize = 0;
    while idx < 20
        invariant
            0 <= idx <= 20,
            end - start == 40,
            end <= s@.len(),
            s@ == hex.spec_bytes(),
            t == trim_bytes(hex.spec_bytes()),
            t == s@.subrange(start as int, end as int),
            t.len() == 40,
            all_hex(t),
            forall|m: int| 0 <= m < idx ==> out@[m] == hex_pairs(t)[m],
        decreases 20 - idx,
    {
        let hi = s[start + 2 * idx];
        let lo = s[start + 2 * idx + 1];
        proof {
            assert(t[2 * idx] == s@[start + 2 * idx]);
            assert(t[2 * idx + 1] == s@[start + 2 * idx + 1]);
            assert(is_hex_byte(t[2 * idx]));
            assert(is_hex_byte(t[2 * idx + 1]));
        }
        let hi_v: u8 = if 0x30 <= hi && hi <= 0x39 {
            hi - 0x30
        } else if 0x41 <= hi && hi <= 0x46 {
            hi - 0x37
        } else {
            hi - 0x57
        };
        let lo_v: u8 = if 0x30 <= lo && lo <= 0x39 {
            lo - 0x30
        } else if 0x41 <= lo && lo <= 0x46 {
            lo - 0x37
        } else {
            lo - 0x57
        };
        out[idx] = hi_v * 16 + lo_v;
        idx = idx + 1;
    }
    proof {
        assert(out@ =~= hex_pairs(t));
    }
    Ok(out)
}

impl Part {
    /// A ROM identity decoded from a hexadecimal digest string.
    pub fn new_rom(sha1: &str) -> (r: Result<Self, Sha1ParseError>)
        ensures
            (match r {
                Ok(p) => !p@.is_disk && spec_parse_sha1(sha1.spec_bytes()) == Ok::<Seq<u8>, Sha1ParseError>(p@.sha1),
                Err(e) => spec_parse_sha1(sha1.spec_bytes()) == Err::<Seq<u8>, Sha1ParseError>(e),
            }),
    {
        match parse_sha1(sha1) {
            Ok(b) => Ok(Part::Rom { sha1: b }),
            Err(e) => Err(e),
        }
    }

    /// A disk identity decoded from a hexadecimal digest string.
    pub fn new_disk(sha1: &str) -> (r: Result<Self, Sha1ParseError>)
        ensures
            (match r {
                Ok(p) => p@.is_disk && spec_parse_sha1(sha1.spec_bytes()) == Ok::<Seq<u8>, Sha1ParseError>(p@.sha1),
                Err(e) => spec_parse_sha1(sha1.spec_bytes()) == Err::<Seq<u8>, Sha1ParseError>(e),
            }),
    {
        match parse_sha1(sha1) {
            Ok(b) => Ok(Part::Disk { sha1: b }),
            Err(e) => Err(e),
        }
    }

    /// The on-disk file name of a disk image: the catalog name with a `.chd` suffix.
    pub fn name_to_chd(name: &str) -> (r: String)
        ensures
            r@ == name@ + ".chd"@,
    {
        let mut d = String::from_str(name);
        d.append(".chd");
        d
    }

    /// The raw digest bytes of this identity.
    pub fn digest(&self) -> (r: Digest<'_>)
        ensures
            r.0@ == self@.sha1,
    {
        match self {
            Part::Rom { sha1 } => Digest(sha1.as_slice()),
            Part::Disk { sha1 } => Digest(sha1.as_slice()),
        }
    }

    /// True of a disk identity.
    pub fn is_disk(&self) -> (r: bool)
        ensures
            r == self@.is_disk,
    {
        match self {
            Part::Rom { .. } => false,
            Part::Disk { .. } => true,
        }
    }
}

/// A borrowed digest, rendered as lowercase hexadecimal.
pub struct Digest<'a>(pub &'a [u8]);

/// The lowercase hexadecimal digit for a value below 16.
pub open spec fn hex_char(n: u8) -> char {
    if n == 0 { '0' } else if n == 1 { '1' } else if n == 2 { '2' } else if n == 3 { '3' }
    else if n == 4 { '4' } else if n == 5 { '5' } else if n == 6 { '6' } else if n == 7 { '7' }
    else if n == 8 { '8' } else if n == 9 { '9' } else if n == 10 { 'a' } else if n == 11 { 'b' }
    else if n == 12 { 'c' } else if n == 13 { 'd' } else if n == 14 { 'e' } else { 'f' }
}

/// The lowercase hexadecimal rendering of a byte string, two digits per byte.
pub open spec fn hex_str_of(s: Seq<u8>) -> Seq<char> {
    Seq::new(2 * s.len(), |i: int| if i % 2 == 0 { hex_char(s[i / 2] / 16) } else { hex_char((s[i / 2] % 16) as u8) })
}

/// Append one hexadecimal digit to a string.
fn push_hex_digit(s: &mut String, n: u8)
    requires
        n < 16,
    ensures
        final(s)@ == old(s)@ + seq![hex_char(n)],
{
    proof {
        reveal_strlit("0"); reveal_strlit("1"); reveal_strlit("2"); reveal_strlit("3");
        reveal_strlit("4"); reveal_strlit("5"); reveal_strlit("6"); reveal_strlit("7");
        reveal_strlit("8"); reveal_strlit("9"); reveal_strlit("a"); reveal_strlit("b");
        reveal_strlit("c"); reveal_strlit("d"); reveal_strlit("e"); reveal_strlit("f");
    }
    if n == 0 { s.append("0") } else if n == 1 { s.append("1") } else if n == 2 { s.append("2") }
    else if n == 3 { s.append("3") } else if n == 4 { s.append("4") } else if n == 5 { s.append("5") }
    else if n == 6 { s.append("6") } else if n == 7 { s.append("7") } else if n == 8 { s.append("8") }
    else if n == 9 { s.append("9") } else if n == 10 { s.append("a") } else if n == 11 { s.append("b") }
    else if n == 12 { s.append("c") } else if n == 13 { s.append("d") } else if n == 14 { s.append("e") }
    else { s.append("f") }
    proof {
        assert(final(s)@ =~= old(s)@ + seq![hex_char(n)]);
    }
}

impl<'a> Digest<'a> {
    /// The digest as a lowercase hexadecimal string.
    pub fn hex(&self) -> (r: String)
        ensures
            r@ == hex_str_of(self.0@),
    {
        let mut out = String::new();
        let len: usize = self.0.len();
        let mut i: usize = 0;
        while i < len
            invariant
                0 <= i <= len,
                len == self.0@.len(),
                out@ == hex_str_of(self.0@.subrange(0, i as int)),
            decreases len - i,
        {
            let b = self.0[i];
            push_hex_digit(&mut out, b / 16);
            push_hex_digit(&mut out, b % 16);
            proof {
                assert(out@ =~= hex_str_of(self.0@.subrange(0, i + 1)));
            }
            i = i + 1;
        }
        proof {
            assert(self.0@.subrange(0, len as int) =~= self.0@);
        }
        out
    }
}

} // verus!
