use vstd::prelude::*;

use crate::identify::spec_identify;
use crate::part::{Part, PartView};
use crate::IoError;

verus! {

/// Locator of one archive member: a top-level index, or an index pair for a
/// member of an archive nested one level down.
#[derive(Clone, Copy, Debug, PartialEq, Eq, Structural)]
pub enum ZipPart {
    Zip { index: usize },
    SubZip { index: usize, sub_index: usize },
}

/// Mathematical value of a source locator.
pub enum RomSourceView {
    File { file: Seq<char>, has_xattr: bool },
    ZipFile { file: Seq<char>, zip_part: ZipPart },
}

/// A locator for a usable instance of a part: a plain file (recording whether
/// its persistent identity cache is already written), or an archive member.
#[derive(Debug)]
pub enum RomSource {
    File { file: String, has_xattr: bool },
    ZipFile { file: String, zip_part: ZipPart },
}

impl View for RomSource {
    type V = RomSourceView;

    open spec fn view(&self) -> RomSourceView {
        match self {
            RomSource::File { file, has_xattr } => RomSourceView::File {
                file: file@,
                has_xattr: *has_xattr,
            },
            RomSource::ZipFile { file, zip_part } => RomSourceView::ZipFile {
                file: file@,
                zip_part: *zip_part,
            },
        }
    }
}

impl RomSource {
    /// A value-equal copy of this locator.
    pub fn duplicate(&self) -> (r: Self)
        ensures
            r@ == self@,
    {
        match self {
            RomSource::File { file, has_xattr } => RomSource::File {
                file: file.clone(),
                has_xattr: *has_xattr,
            },
            RomSource::ZipFile { file, zip_part } => RomSource::ZipFile {
                file: file.clone(),
                zip_part: *zip_part,
            },
        }
    }
}

/// The member count of an archive, `None` for content that is not an archive
/// the codec accepts. A function of the bytes alone.
pub uninterp spec fn zip_entry_count(data: Seq<u8>) -> Option<int>;

/// The decompressed bytes of one archive member. A function of the bytes
/// and the index alone.
pub uninterp spec fn zip_entry(data: Seq<u8>, index: int) -> Seq<u8>;

/// Whether the archive codec can serve the member at an index: locating it
/// and reading its decompressed bytes succeed. A function of the bytes and
/// the index alone.
pub uninterp spec fn zip_entry_ok(data: Seq<u8>, index: int) -> bool;

/// Relies on zip::ZipArchive::new and zip::ZipArchive::len: how many members
/// an archive holds; refused content is no archive.
#[verifier::external_body]
fn archive_entry_count(data: &Vec<u8>) -> (r: Option<usize>)
    ensures
        (match r {
            Some(n) => zip_entry_count(data@) == Some(n as int),
            None => zip_entry_count(data@) is None,
        }),
{
    match zip::ZipArchive::new(std::io::Cursor::new(data.as_slice())) {
        Ok(z) => Some(z.len()),
        Err(_) => None,
    }
}

/// Relies on zip::ZipArchive::by_index and read_to_end: the decompressed
/// bytes of the member at an index. For an index within the archive's
/// member count, success is exactly the member's servability.
#[verifier::external_body]
fn archive_entry(data: &Vec<u8>, index: usize) -> (r: Option<Vec<u8>>)
    ensures
        (match r {
            Some(v) => (zip_entry_count(data@) matches Some(n) && index < n) && zip_entry_ok(
                data@,
                index as int,
            ) && v@ == zip_entry(data@, index as int),
            None => !((zip_entry_count(data@) matches Some(n) && index < n) && zip_entry_ok(
                data@,
                index as int,
            )),
        }),
{
    let mut z = zip::ZipArchive::new(std::io::Cursor::new(data.as_slice())).ok()?;
    if index >= z.len() {
        return None;
    }
    let mut out = Vec::new();
    let r = match z.by_index(index) {
        Ok(mut f) => std::io::Read::read_to_end(&mut f, &mut out).ok().map(|_| out),
        Err(_) => None,
    };
    r
}

/// The four signature bytes that open an archive.
pub open spec fn spec_is_zip(data: Seq<u8>) -> bool {
    data.len() >= 4 && data[0] == 0x50 && data[1] == 0x4b && data[2] == 3 && data[3] == 4
}

/// Whether content carries the archive signature.
pub fn is_zip(data: &[u8]) -> (r: bool)
    ensures
        r == spec_is_zip(data@),
{
    data.len() >= 4 && data[0] == 0x50 && data[1] == 0x4b && data[2] == 3 && data[3] == 4
}

/// A cataloged archive member: the locator names a member of the archive
/// content whose identity is the paired part.
pub open spec fn member_names_part(data: Seq<u8>, part: Part, zip_part: ZipPart) -> bool {
    match zip_part {
        ZipPart::Zip { index } => {
            &&& zip_entry_count(data) matches Some(n) && index < n
            &&& spec_identify(zip_entry(data, index as int)) == Ok::<PartView, IoError>(part@)
        },
        ZipPart::SubZip { index, sub_index } => {
            &&& zip_entry_count(data) matches Some(n) && index < n
            &&& {
                let sub = zip_entry(data, index as int);
                &&& zip_entry_count(sub) matches Some(m) && sub_index < m
                &&& spec_identify(zip_entry(sub, sub_index as int)) == Ok::<PartView, IoError>(
                    part@,
                )
            }
        },
    }
}

impl ZipPart {
    /// The decompressed bytes of the member this locator names inside the
    /// given archive content: the call succeeds exactly when the archive can
    /// serve every member on the locator's way.
    pub fn member_data(&self, data: &Vec<u8>) -> (r: Option<Vec<u8>>)
        ensures
            (match self {
                ZipPart::Zip { index } => ({
                    let ok = (zip_entry_count(data@) matches Some(n) && *index < n)
                        && zip_entry_ok(data@, *index as int);
                    match r {
                        Some(v) => ok && v@ == zip_entry(data@, *index as int),
                        None => !ok,
                    }
                }),
                ZipPart::SubZip { index, sub_index } => ({
                    let outer_ok = (zip_entry_count(data@) matches Some(n) && *index < n)
                        && zip_entry_ok(data@, *index as int);
                    let sub = zip_entry(data@, *index as int);
                    let inner_ok = (zip_entry_count(sub) matches Some(m) && *sub_index < m)
                        && zip_entry_ok(sub, *sub_index as int);
                    match r {
                        Some(v) => outer_ok && inner_ok && v@ == zip_entry(sub, *sub_index as int),
                        None => !(outer_ok && inner_ok),
                    }
                }),
            }),
    {
        match self {
            ZipPart::Zip { index } => archive_entry(data, *index),
            ZipPart::SubZip { index, sub_index } => {
                match archive_entry(data, *index) {
                    Some(sub) => archive_entry(&sub, *sub_index),
                    None => None,
                }
            },
        }
    }

    /// Catalog every member of archive content, one nesting level down
    /// included: exactly the pairs of the archive scan, each a member
    /// locator with that member's identity. A top-level member whose
    /// identity cannot be computed is skipped but its nested members are
    /// still scanned; a member the archive cannot serve, a nested archive
    /// that cannot be opened, or a nested member whose identity cannot be
    /// computed ends the scan with the pairs gathered so far.
    pub fn from_zip(data: &Vec<u8>) -> (r: Vec<(Part, ZipPart)>)
        ensures
            member_pairs_view(r@) == spec_from_zip(data@),
            forall|k: int|
                0 <= k < r@.len() ==> #[trigger] member_names_part(data@, r@[k].0, r@[k].1),
    {
        let mut result: Vec<(Part, ZipPart)> = Vec::new();
        let n: usize = match archive_entry_count(data) {
            Some(n) => n,
            None => {
                proof {
                    assert(member_pairs_view(result@) =~= spec_from_zip(data@));
                }
                return result;
            },
        };
        proof {
            assert(member_pairs_view(result@) =~= Seq::<(PartView, ZipPart)>::empty());
        }
        let mut index: usize = 0;
        while index < n
            invariant
                zip_entry_count(data@) == Some(n as int),
                0 <= index <= n,
                spec_from_zip(data@) == member_pairs_view(result@) + spec_zip_scan(
                    data@,
                    n as int,
                    index as int,
                ),
                forall|k: int|
                    0 <= k < result@.len() ==> #[trigger] member_names_part(
                        data@,
                        result@[k].0,
                        result@[k].1,
                    ),
            decreases n - index,
        {
            let file_data = match archive_entry(data, index) {
                Some(v) => v,
                None => {
                    proof {
                        assert(spec_zip_scan(data@, n as int, index as int) =~= Seq::<
                            (PartView, ZipPart),
                        >::empty());
                        assert(member_pairs_view(result@) =~= spec_from_zip(data@));
                    }
                    return result;
                },
            };
            let ghost member = zip_entry(data@, index as int);
            let ghost own = spec_member_own(member, index as int);
            match Part::from_slice(file_data.as_slice()) {
                Ok(part) => {
                    result.push((part, ZipPart::Zip { index }));
                    proof {
                        assert(member_pairs_view(result@) =~= member_pairs_view(
                            result@.drop_last(),
                        ) + own);
                    }
                },
                Err(_) => {
                    proof {
                        assert(own =~= Seq::<(PartView, ZipPart)>::empty());
                    }
                },
            }
            if is_zip(file_data.as_slice()) {
                let m: usize = match archive_entry_count(&file_data) {
                    Some(m) => m,
                    None => {
                        proof {
                            assert(spec_zip_scan(data@, n as int, index as int) =~= own);
                            assert(member_pairs_view(result@) =~= spec_from_zip(data@));
                        }
                        return result;
                    },
                };
                let mut sub_index: usize = 0;
                proof {
                    let subr = spec_sub_scan(member, index as int, m as int, 0);
                    assert(spec_zip_scan(data@, n as int, index as int) == own + subr.0 + (
                    if subr.1 {
                        spec_zip_scan(data@, n as int, index + 1)
                    } else {
                        Seq::<(PartView, ZipPart)>::empty()
                    }));
                    assert(spec_from_zip(data@) =~= member_pairs_view(result@) + subr.0 + (
                    if subr.1 {
                        spec_zip_scan(data@, n as int, index + 1)
                    } else {
                        Seq::<(PartView, ZipPart)>::empty()
                    }));
                }
                while sub_index < m
                    invariant
                        zip_entry_count(data@) == Some(n as int),
                        0 <= index < n,
                        0 <= sub_index <= m,
                        file_data@ == zip_entry(data@, index as int),
                        member == zip_entry(data@, index as int),
                        zip_entry_count(file_data@) == Some(m as int),
                        ({
                            let subr = spec_sub_scan(
                                member,
                                index as int,
                                m as int,
                                sub_index as int,
                            );
                            spec_from_zip(data@) == member_pairs_view(result@) + subr.0 + (
                            if subr.1 {
                                spec_zip_scan(data@, n as int, index + 1)
                            } else {
                                Seq::<(PartView, ZipPart)>::empty()
                            })
                        }),
                        forall|k: int|
                            0 <= k < result@.len() ==> #[trigger] member_names_part(
                                data@,
                                result@[k].0,
                                result@[k].1,
                            ),
                    decreases m - sub_index,
                {
                    let sub_data = match archive_entry(&file_data, sub_index) {
                        Some(v) => v,
                        None => {
                            proof {
                                let subr = spec_sub_scan(
                                    member,
                                    index as int,
                                    m as int,
                                    sub_index as int,
                                );
                                assert(subr.0 =~= Seq::<(PartView, ZipPart)>::empty());
                                assert(!subr.1);
                                assert(member_pairs_view(result@) =~= spec_from_zip(data@));
                            }
                            return result;
                        },
                    };
                    let part = match Part::from_slice(sub_data.as_slice()) {
                        Ok(part) => part,
                        Err(_) => {
                            proof {
                                let subr = spec_sub_scan(
                                    member,
                                    index as int,
                                    m as int,
                                    sub_index as int,
                                );
                                assert(subr.0 =~= Seq::<(PartView, ZipPart)>::empty());
                                assert(!subr.1);
                                assert(member_pairs_view(result@) =~= spec_from_zip(data@));
                            }
                            return result;
                        },
                    };
                    result.push((part, ZipPart::SubZip { index, sub_index }));
                    proof {
                        let subr = spec_sub_scan(member, index as int, m as int, sub_index as int);
                        let subr2 = spec_sub_scan(member, index as int, m as int, sub_index + 1);
                        assert(subr.0 == seq![
                            (part@, ZipPart::SubZip { index, sub_index }),
                        ] + subr2.0);
                        assert(member_pairs_view(result@) =~= member_pairs_view(
                            result@.drop_last(),
                        ).push((part@, ZipPart::SubZip { index, sub_index })));
                        assert(spec_from_zip(data@) =~= member_pairs_view(result@) + subr2.0 + (
                        if subr2.1 {
                            spec_zip_scan(data@, n as int, index + 1)
                        } else {
                            Seq::<(PartView, ZipPart)>::empty()
                        }));
                    }
                    sub_index = sub_index + 1;
                }
                proof {
                    let subr = spec_sub_scan(member, index as int, m as int, m as int);
                    assert(subr.0 =~= Seq::<(PartView, ZipPart)>::empty());
                    assert(subr.1);
                }
            } else {
                proof {
                    assert(spec_zip_scan(data@, n as int, index as int) == own + spec_zip_scan(
                        data@,
                        n as int,
                        index + 1,
                    ));
                    assert(spec_from_zip(data@) =~= member_pairs_view(result@) + spec_zip_scan(
                        data@,
                        n as int,
                        index + 1,
                    ));
                }
            }
            index = index + 1;
        }
        proof {
            assert(spec_zip_scan(data@, n as int, n as int) =~= Seq::<(PartView, ZipPart)>::empty());
            assert(member_pairs_view(result@) =~= spec_from_zip(data@));
        }
        result
    }
}

/// The views of cataloged member pairs.
pub open spec fn member_pairs_view(s: Seq<(Part, ZipPart)>) -> Seq<(PartView, ZipPart)> {
    s.map_values(|e: (Part, ZipPart)| (e.0@, e.1))
}

/// The identity entry a top-level member contributes to the scan: none when
/// its identity cannot be computed.
pub open spec fn spec_member_own(member: Seq<u8>, index: int) -> Seq<(PartView, ZipPart)> {
    match spec_identify(member) {
        Ok(pv) => seq![(pv, ZipPart::Zip { index: index as usize })],
        Err(_) => Seq::empty(),
    }
}

/// The entries a nested archive's members contribute from one sub-index on,
/// and whether the scan survives them: a nested member the archive cannot
/// serve, or whose identity cannot be computed, stops the whole scan.
pub open spec fn spec_sub_scan(sub: Seq<u8>, index: int, m: int, j: int) -> (
    Seq<(PartView, ZipPart)>,
    bool,
)
    decreases m - j,
{
    if j >= m {
        (Seq::empty(), true)
    } else if !zip_entry_ok(sub, j) {
        (Seq::empty(), false)
    } else {
        match spec_identify(zip_entry(sub, j)) {
            Ok(pv) => {
                let rec = spec_sub_scan(sub, index, m, j + 1);
                (
                    seq![
                        (pv, ZipPart::SubZip { index: index as usize, sub_index: j as usize }),
                    ] + rec.0,
                    rec.1,
                )
            },
            Err(_) => (Seq::empty(), false),
        }
    }
}

/// The entries an archive's members contribute from one index on: each
/// servable member's own identity entry, then the entries of its nested
/// archive, then the members after it; an unservable member, an unopenable
/// nested archive, or a stopped nested scan ends everything here.
pub open spec fn spec_zip_scan(data: Seq<u8>, n: int, index: int) -> Seq<(PartView, ZipPart)>
    decreases n - index,
{
    if index >= n {
        Seq::empty()
    } else if !zip_entry_ok(data, index) {
        Seq::empty()
    } else {
        let member = zip_entry(data, index);
        let own = spec_member_own(member, index);
        if spec_is_zip(member) {
            match zip_entry_count(member) {
                Some(m) => {
                    let sub = spec_sub_scan(member, index, m, 0);
                    own + sub.0 + (if sub.1 {
                        spec_zip_scan(data, n, index + 1)
                    } else {
                        Seq::empty()
                    })
                },
                None => own,
            }
        } else {
            own + spec_zip_scan(data, n, index + 1)
        }
    }
}

/// Every member entry the archive scan yields, in scan order; nothing for
/// content that is no archive.
pub open spec fn spec_from_zip(data: Seq<u8>) -> Seq<(PartView, ZipPart)> {
    match zip_entry_count(data) {
        Some(n) => spec_zip_scan(data, n, 0),
        None => Seq::empty(),
    }
}

/// A set of parts, as gathered from a catalog query.
pub struct PartSet {
    items: Vec<Part>,
}

impl View for PartSet {
    type V = Set<Part>;

    closed spec fn view(&self) -> Set<Part> {
        self.items@.to_set()
    }
}

impl PartSet {
    /// An empty set.
    pub fn new() -> (r: Self)
        ensures
            r@ == Set::<Part>::empty(),
    {
        let r = PartSet { items: Vec::new() };
        proof {
            assert(r@ =~= Set::<Part>::empty());
        }
        r
    }

    /// Whether the set holds this part.
    pub fn contains(&self, part: &Part) -> (r: bool)
        ensures
            r == self@.contains(*part),
    {
        let n: usize = self.items.len();
        let mut i: usize = 0;
        while i < n
            invariant
                0 <= i <= n,
                n == self.items@.len(),
                forall|j: int| 0 <= j < i ==> self.items@[j] != *part,
            decreases n - i,
        {
            if self.items[i] == *part {
                proof {
                    assert(self.items@[i as int] == *part);
                    assert(self.items@.contains(*part));
                }
                return true;
            }
            i = i + 1;
        }
        proof {
            if self@.contains(*part) {
                let j = choose|j: int|
                    0 <= j < self.items@.len() && self.items@[j] == *part;
                assert(false);
            }
        }
        false
    }

    /// Add one part.
    pub fn insert(&mut self, part: Part)
        ensures
            final(self)@ == old(self)@.insert(part),
    {
        self.items.push(part);
        proof {
            let newseq = self.items@;
            let oldseq = old(self).items@;
            assert forall|x: Part| newseq.contains(x) implies (oldseq.contains(x) || x
                == part) by {
                let j = choose|j: int| 0 <= j < newseq.len() && newseq[j] == x;
                if j < oldseq.len() {
                    assert(oldseq[j] == x);
                }
            }
            assert forall|x: Part| oldseq.contains(x) implies newseq.contains(x) by {
                let j = choose|j: int| 0 <= j < oldseq.len() && oldseq[j] == x;
                assert(newseq[j] == x);
            }
            assert(newseq.contains(part)) by {
                assert(newseq[newseq.len() - 1] == part);
            }
            assert(newseq.to_set() =~= oldseq.to_set().insert(part));
        }
    }
}

/// The mapping a source association list denotes; later entries win.
pub open spec fn sources_map(s: Seq<(Part, RomSource)>) -> Map<Part, RomSourceView>
    decreases s.len(),
{
    if s.len() == 0 {
        Map::empty()
    } else {
        sources_map(s.drop_last()).insert(s.last().0, s.last().1@)
    }
}

pub open spec fn sources_unique(s: Seq<(Part, RomSource)>) -> bool {
    forall|i: int, j: int| 0 <= i < j < s.len() ==> s[i].0 != s[j].0
}

proof fn lemma_sources_map_get(s: Seq<(Part, RomSource)>, i: int)
    requires
        sources_unique(s),
        0 <= i < s.len(),
    ensures
        sources_map(s).contains_key(s[i].0),
        sources_map(s)[s[i].0] == s[i].1@,
    decreases s.len(),
{
    if i == s.len() - 1 {
    } else {
        assert(s.drop_last()[i] == s[i]);
        lemma_sources_map_get(s.drop_last(), i);
    }
}

proof fn lemma_sources_map_absent(s: Seq<(Part, RomSource)>, part: Part)
    requires
        forall|i: int| 0 <= i < s.len() ==> s[i].0 != part,
    ensures
        !sources_map(s).contains_key(part),
    decreases s.len(),
{
    if s.len() > 0 {
        assert(forall|i: int| 0 <= i < s.drop_last().len() ==> s.drop_last()[i] == s[i]);
        lemma_sources_map_absent(s.drop_last(), part);
    }
}

proof fn lemma_sources_map_remove(s: Seq<(Part, RomSource)>, i: int)
    requires
        sources_unique(s),
        0 <= i < s.len(),
    ensures
        sources_unique(s.remove(i)),
        sources_map(s.remove(i)) == sources_map(s).remove(s[i].0),
    decreases s.len(),
{
    assert(forall|a: int, b: int|
        0 <= a < b < s.remove(i).len() ==> s.remove(i)[a] == (if a < i {
            s[a]
        } else {
            s[a + 1]
        }) && s.remove(i)[b] == (if b < i {
            s[b]
        } else {
            s[b + 1]
        }));
    if i == s.len() - 1 {
        assert(s.remove(i) =~= s.drop_last());
        assert(forall|j: int| 0 <= j < s.drop_last().len() ==> s.drop_last()[j] == s[j]);
        lemma_sources_map_absent(s.drop_last(), s[i].0);
        assert(sources_map(s.drop_last()).insert(s.last().0, s.last().1@).remove(s[i].0)
            =~= sources_map(s.drop_last()));
    } else {
        let t = s.remove(i);
        assert(t.drop_last() =~= s.drop_last().remove(i));
        assert(t.last() == s.last());
        assert(forall|j: int| 0 <= j < s.drop_last().len() ==> s.drop_last()[j] == s[j]);
        lemma_sources_map_remove(s.drop_last(), i);
        assert(s.last().0 != s[i].0);
        assert(sources_map(s.drop_last()).remove(s[i].0).insert(s.last().0, s.last().1@)
            =~= sources_map(s.drop_last()).insert(s.last().0, s.last().1@).remove(s[i].0));
    }
}

/// The source index: for each part, one locator where its content can be
/// read. Duplicate keys are resolved by keeping the later entry.
pub struct RomSources {
    entries: Vec<(Part, RomSource)>,
}

impl View for RomSources {
    type V = Map<Part, RomSourceView>;

    closed spec fn view(&self) -> Map<Part, RomSourceView> {
        sources_map(self.entries@)
    }
}

impl RomSources {
    /// Each part is located at most once.
    pub closed spec fn wf(&self) -> bool {
        sources_unique(self.entries@)
    }

    /// An empty index.
    pub fn new() -> (r: Self)
        ensures
            r.wf(),
            r@ == Map::<Part, RomSourceView>::empty(),
    {
        RomSources { entries: Vec::new() }
    }

    /// Whether the index locates this part.
    pub fn contains(&self, part: &Part) -> (r: bool)
        requires
            self.wf(),
        ensures
            r == self@.contains_key(*part),
    {
        match self.get(part) {
            Some(_) => true,
            None => false,
        }
    }

    /// The locator of this part, if any.
    pub fn get(&self, part: &Part) -> (r: Option<&RomSource>)
        requires
            self.wf(),
        ensures
            (match r {
                Some(src) => self@.contains_key(*part) && src@ == self@[*part],
                None => !self@.contains_key(*part),
            }),
    {
        let n: usize = self.entries.len();
        let mut i: usize = 0;
        while i < n
            invariant
                0 <= i <= n,
                n == self.entries@.len(),
                self.wf(),
                forall|j: int| 0 <= j < i ==> self.entries@[j].0 != *part,
            decreases n - i,
        {
            let e = &self.entries[i];
            if e.0 == *part {
                proof {
                    lemma_sources_map_get(self.entries@, i as int);
                }
                return Some(&e.1);
            }
            i = i + 1;
        }
        proof {
            lemma_sources_map_absent(self.entries@, *part);
        }
        None
    }

    /// Locate a part, replacing any earlier locator for the same part.
    pub fn insert(&mut self, part: Part, source: RomSource)
        requires
            old(self).wf(),
        ensures
            final(self).wf(),
            final(self)@ == old(self)@.insert(part, source@),
    {
        let n: usize = self.entries.len();
        let mut i: usize = 0;
        while i < n
            invariant
                0 <= i <= n,
                n == self.entries@.len(),
                self.wf(),
                self.entries@ == old(self).entries@,
                forall|j: int| 0 <= j < i ==> self.entries@[j].0 != part,
            decreases n - i,
        {
            if self.entries[i].0 == part {
                let ghost before = self.entries@;
                proof {
                    lemma_sources_map_remove(before, i as int);
                }
                self.entries.remove(i);
                self.entries.push((part, source));
                proof {
                    let rem = before.remove(i as int);
                    assert(self.entries@.drop_last() =~= rem);
                    assert(self.entries@.last() == (part, source));
                    assert forall|j: int| 0 <= j < rem.len() implies rem[j].0 != part by {
                        if j < i {
                            assert(rem[j] == before[j]);
                        } else {
                            assert(rem[j] == before[j + 1]);
                        }
                    }
                    assert forall|a: int, b: int|
                        0 <= a < b < self.entries@.len() implies self.entries@[a].0
                        != self.entries@[b].0 by {
                        assert(self.entries@[a] == rem[a]);
                        if b < self.entries@.len() - 1 {
                            assert(self.entries@[b] == rem[b]);
                        }
                    }
                    lemma_sources_map_absent(rem, part);
                    assert(sources_map(self.entries@) == sources_map(rem).insert(part, source@));
                    assert(sources_map(before).remove(part).insert(part, source@)
                        =~= sources_map(before).insert(part, source@));
                }
                return ;
            }
            i = i + 1;
        }
        proof {
            lemma_sources_map_absent(self.entries@, part);
        }
        self.entries.push((part, source));
        proof {
            assert(self.entries@.drop_last() =~= old(self).entries@);
        }
    }
}

/// The index that cataloged pairs denote under a filter: pairs are taken in
/// order, later parts win, and a required-set filter keeps only its members.
pub open spec fn spec_filtered_sources(
    pairs: Seq<(Part, RomSource)>,
    keep: Option<Set<Part>>,
) -> Map<Part, RomSourceView>
    decreases pairs.len(),
{
    if pairs.len() == 0 {
        Map::empty()
    } else {
        let rest = spec_filtered_sources(pairs.drop_last(), keep);
        let last = pairs.last();
        if (match keep {
            Some(s) => s.contains(last.0),
            None => true,
        }) {
            rest.insert(last.0, last.1@)
        } else {
            rest
        }
    }
}

impl RomSources {
    /// Build the index from cataloged pairs: later pairs win on a duplicate
    /// part, and with a required set only its members are retained.
    pub fn build(pairs: Vec<(Part, RomSource)>, required: Option<&PartSet>) -> (r: RomSources)
        ensures
            r.wf(),
            r@ == spec_filtered_sources(
                pairs@,
                (match required {
                    Some(s) => Some(s@),
                    None => None,
                }),
            ),
    {
        let ghost keep: Option<Set<Part>> = match required {
            Some(s) => Some(s@),
            None => None,
        };
        let mut out = RomSources::new();
        let n: usize = pairs.len();
        let mut i: usize = 0;
        while i < n
            invariant
                0 <= i <= n,
                n == pairs@.len(),
                out.wf(),
                keep == (match required {
                    Some(s) => Some::<Set<Part>>(s@),
                    None => None::<Set<Part>>,
                }),
                out@ == spec_filtered_sources(pairs@.subrange(0, i as int), keep),
            decreases n - i,
        {
            let e = &pairs[i];
            let wanted = match required {
                Some(s) => s.contains(&e.0),
                None => true,
            };
            if wanted {
                out.insert(e.0, e.1.duplicate());
            }
            proof {
                assert(pairs@.subrange(0, i + 1).drop_last() =~= pairs@.subrange(0, i as int));
                assert(pairs@.subrange(0, i + 1).last() == pairs@[i as int]);
            }
            i = i + 1;
        }
        proof {
            assert(pairs@.subrange(0, n as int) =~= pairs@);
        }
        out
    }
}

/// Catalog one file's content. When the persistent identity cache already
/// holds an identity, that single entry is returned and the content is not
/// read. Otherwise the content's own identity comes first, followed by
/// exactly the entries of the archive scan when the content carries the
/// archive signature.
pub fn catalog_file(file: &String, cached: Option<Part>, data: &Vec<u8>) -> (r: Result<
    Vec<(Part, RomSource)>,
    IoError,
>)
    ensures
        (match cached {
            Some(p) => r matches Ok(v) && v@.len() == 1 && v@[0].0 == p && v@[0].1@
                == (RomSourceView::File { file: file@, has_xattr: true }),
            None => (match r {
                Ok(v) => {
                    let members = if spec_is_zip(data@) {
                        spec_from_zip(data@)
                    } else {
                        Seq::<(PartView, ZipPart)>::empty()
                    };
                    &&& v@.len() == 1 + members.len()
                    &&& spec_identify(data@) == Ok::<PartView, IoError>(v@[0].0@)
                    &&& v@[0].1@ == (RomSourceView::File { file: file@, has_xattr: false })
                    &&& forall|k: int|
                        1 <= k < v@.len() ==> ((#[trigger] v@[k]).0@ == members[k - 1].0 && v@[k].1@
                            == (RomSourceView::ZipFile {
                            file: file@,
                            zip_part: members[k - 1].1,
                        }))
                    &&& forall|k: int|
                        1 <= k < v@.len() ==> ((#[trigger] v@[k].1@) matches
                            RomSourceView::ZipFile {
                            file: f,
                            zip_part,
                        } && f == file@ && member_names_part(data@, v@[k].0, zip_part))
                },
                Err(e) => spec_identify(data@) == Err::<PartView, IoError>(e),
            }),
        }),
{
    if let Some(part) = cached {
        let mut out: Vec<(Part, RomSource)> = Vec::new();
        out.push((part, RomSource::File { file: file.clone(), has_xattr: true }));
        return Ok(out);
    }

    let part = match Part::from_slice(data.as_slice()) {
        Ok(p) => p,
        Err(e) => {
            return Err(e);
        },
    };

    let mut out: Vec<(Part, RomSource)> = Vec::new();
    out.push((part, RomSource::File { file: file.clone(), has_xattr: false }));

    if is_zip(data.as_slice()) {
        let members = ZipPart::from_zip(data);
        let n: usize = members.len();
        let mut i: usize = 0;
        while i < n
            invariant
                0 <= i <= n,
                n == members@.len(),
                member_pairs_view(members@) == spec_from_zip(data@),
                spec_is_zip(data@),
                forall|k: int|
                    0 <= k < members@.len() ==> #[trigger] member_names_part(
                        data@,
                        members@[k].0,
                        members@[k].1,
                    ),
                out@.len() == 1 + i,
                spec_identify(data@) == Ok::<PartView, IoError>(out@[0].0@),
                out@[0].1@ == (RomSourceView::File { file: file@, has_xattr: false }),
                forall|k: int|
                    1 <= k < out@.len() ==> ((#[trigger] out@[k]).0@ == spec_from_zip(data@)[k - 1].0
                        && out@[k].1@ == (RomSourceView::ZipFile {
                        file: file@,
                        zip_part: spec_from_zip(data@)[k - 1].1,
                    })),
                forall|k: int|
                    1 <= k < out@.len() ==> ((#[trigger] out@[k].1@) matches RomSourceView::ZipFile {
                        file: f,
                        zip_part,
                    } && f == file@ && member_names_part(data@, out@[k].0, zip_part)),
            decreases n - i,
        {
            let m = &members[i];
            proof {
                assert(member_pairs_view(members@)[i as int] == (members@[i as int].0@, members@[i as int].1));
            }
            out.push((m.0, RomSource::ZipFile { file: file.clone(), zip_part: m.1 }));
            i = i + 1;
        }
    }
    Ok(out)
}


/// Whether an inode occurs among the entries before an index.
pub open spec fn ino_seen_before(s: Seq<(String, u64)>, upto: int, ino: u64) -> bool {
    exists|j: int| 0 <= j < upto && (#[trigger] s[j]).1 == ino
}

/// The paths of the entries before an index whose inode no earlier entry
/// carries, in order.
pub open spec fn spec_dedup_by_ino(s: Seq<(String, u64)>, upto: int) -> Seq<Seq<char>>
    decreases upto,
{
    if upto <= 0 {
        Seq::empty()
    } else {
        let rest = spec_dedup_by_ino(s, upto - 1);
        if ino_seen_before(s, upto - 1, s[upto - 1].1) {
            rest
        } else {
            rest.push(s[upto - 1].0@)
        }
    }
}

/// Keep the first path found for each inode, in discovery order: a file
/// reached through several hardlinks is cataloged once.
pub fn dedup_by_ino(entries: &Vec<(String, u64)>) -> (r: Vec<String>)
    ensures
        r@.map_values(|n: String| n@) == spec_dedup_by_ino(entries@, entries@.len() as int),
{
    let mut out: Vec<String> = Vec::new();
    let n: usize = entries.len();
    let mut i: usize = 0;
    proof {
        assert(out@.map_values(|n2: String| n2@) =~= spec_dedup_by_ino(entries@, 0));
    }
    while i < n
        invariant
            0 <= i <= n,
            n == entries@.len(),
            out@.map_values(|n2: String| n2@) == spec_dedup_by_ino(entries@, i as int),
        decreases n - i,
    {
        let ino = entries[i].1;
        let mut j: usize = 0;
        let mut seen = false;
        while j < i
            invariant
                0 <= j <= i < n,
                n == entries@.len(),
                ino == entries@[i as int].1,
                seen ==> ino_seen_before(entries@, i as int, ino),
                !seen ==> forall|k: int| 0 <= k < j ==> (#[trigger] entries@[k]).1 != ino,
            decreases i - j,
        {
            if entries[j].1 == ino {
                seen = true;
                proof {
                    assert(entries@[j as int].1 == ino);
                }
                j = i;
            } else {
                j = j + 1;
            }
        }
        proof {
            if !seen && ino_seen_before(entries@, i as int, ino) {
                let k = choose|k: int| 0 <= k < i && (#[trigger] entries@[k]).1 == ino;
                assert(false);
            }
        }
        if !seen {
            out.push(entries[i].0.clone());
        }
        proof {
            assert(out@.map_values(|n2: String| n2@) =~= spec_dedup_by_ino(entries@, i + 1));
        }
        i = i + 1;
    }
    out
}

} // verus!
