use vstd::prelude::*;
use vstd::string::StringExecFns;
use vstd::string::StringSliceAdditionalSpecFns;

use crate::text::{
    bytes_cmp, bytes_contains, bytes_eq, bytes_starts_with, contains_seq, spec_bytes_cmp,
    starts_with_seq,
};
use crate::Status;

verus! {

/// One row of the game report, borrowing the fields it shows.
#[derive(Clone, Copy)]
pub struct GameRow<'a> {
    pub name: &'a str,
    pub description: &'a str,
    pub creator: &'a str,
    pub year: &'a str,
    pub status: Status,
}

/// Mathematical value of a report row.
pub struct RowView {
    pub name: Seq<char>,
    pub description: Seq<char>,
    pub creator: Seq<char>,
    pub year: Seq<char>,
    pub status: Status,
}

impl<'a> View for GameRow<'a> {
    type V = RowView;

    open spec fn view(&self) -> RowView {
        RowView {
            name: self.name@,
            description: self.description@,
            creator: self.creator@,
            year: self.year@,
            status: self.status,
        }
    }
}

/// Whether a search string selects a row.
pub open spec fn spec_row_matches(r: RowView, search: Seq<char>) -> bool {
    ||| starts_with_seq(vstd::utf8::encode_utf8(r.name), vstd::utf8::encode_utf8(search))
    ||| contains_seq(vstd::utf8::encode_utf8(r.description), vstd::utf8::encode_utf8(search))
    ||| contains_seq(vstd::utf8::encode_utf8(r.creator), vstd::utf8::encode_utf8(search))
    ||| vstd::utf8::encode_utf8(r.year) == vstd::utf8::encode_utf8(search)
}

/// The report column rows are sorted by.
#[derive(Clone, Copy, Debug, PartialEq, Eq, Structural)]
pub enum GameColumn {
    Description,
    Creator,
    Year,
}

impl GameColumn {
    /// Parse a sort-column name.
    pub fn from_str(s: &str) -> (r: Result<GameColumn, String>)
        ensures
            (if s.spec_bytes() == "description".spec_bytes() {
                r == Ok::<GameColumn, String>(GameColumn::Description)
            } else if s.spec_bytes() == "creator".spec_bytes() {
                r == Ok::<GameColumn, String>(GameColumn::Creator)
            } else if s.spec_bytes() == "year".spec_bytes() {
                r == Ok::<GameColumn, String>(GameColumn::Year)
            } else {
                r matches Err(e) && e@ == "invalid sort by value"@
            }),
    {
        if bytes_eq(s.as_bytes(), "description".as_bytes()) {
            Ok(GameColumn::Description)
        } else if bytes_eq(s.as_bytes(), "creator".as_bytes()) {
            Ok(GameColumn::Creator)
        } else if bytes_eq(s.as_bytes(), "year".as_bytes()) {
            Ok(GameColumn::Year)
        } else {
            Err(String::from_str("invalid sort by value"))
        }
    }
}

/// Lexicographic order on a three-part sort key, by bytes.
pub open spec fn spec_key_cmp(
    a: (Seq<u8>, Seq<u8>, Seq<u8>),
    b: (Seq<u8>, Seq<u8>, Seq<u8>),
) -> core::cmp::Ordering {
    if spec_bytes_cmp(a.0, b.0) != core::cmp::Ordering::Equal {
        spec_bytes_cmp(a.0, b.0)
    } else if spec_bytes_cmp(a.1, b.1) != core::cmp::Ordering::Equal {
        spec_bytes_cmp(a.1, b.1)
    } else {
        spec_bytes_cmp(a.2, b.2)
    }
}

impl<'a> GameRow<'a> {
    /// Whether a search string selects this row: it is a prefix of the name,
    /// occurs in the description or the creator, or equals the year.
    pub fn matches(&self, search: &str) -> (r: bool)
        ensures
            r == (starts_with_seq(self.name.spec_bytes(), search.spec_bytes()) || contains_seq(
                self.description.spec_bytes(),
                search.spec_bytes(),
            ) || contains_seq(self.creator.spec_bytes(), search.spec_bytes())
                || self.year.spec_bytes() == search.spec_bytes()),
    {
        bytes_starts_with(self.name.as_bytes(), search.as_bytes()) || bytes_contains(
            self.description.as_bytes(),
            search.as_bytes(),
        ) || bytes_contains(self.creator.as_bytes(), search.as_bytes()) || bytes_eq(
            self.year.as_bytes(),
            search.as_bytes(),
        )
    }

    /// The fields a row is ordered by under a sort column, most significant
    /// first.
    pub open spec fn spec_sort_key(&self, sort: GameColumn) -> (&'a str, &'a str, &'a str) {
        match sort {
            GameColumn::Description => (self.description, self.creator, self.year),
            GameColumn::Creator => (self.creator, self.description, self.year),
            GameColumn::Year => (self.year, self.description, self.creator),
        }
    }

    /// The fields this row is ordered by under a sort column, most
    /// significant first.
    pub fn sort_key(&self, sort: GameColumn) -> (r: (&'a str, &'a str, &'a str))
        ensures
            r == self.spec_sort_key(sort),
    {
        match sort {
            GameColumn::Description => (self.description, self.creator, self.year),
            GameColumn::Creator => (self.creator, self.description, self.year),
            GameColumn::Year => (self.year, self.description, self.creator),
        }
    }

    /// Order two rows under a sort column, comparing their sort keys
    /// lexicographically by bytes.
    pub fn compare(&self, other: &GameRow, sort: GameColumn) -> (r: core::cmp::Ordering)
        ensures
            ({
                let a = self.spec_sort_key(sort);
                let b = other.spec_sort_key(sort);
                r == spec_key_cmp(
                    (a.0.spec_bytes(), a.1.spec_bytes(), a.2.spec_bytes()),
                    (b.0.spec_bytes(), b.1.spec_bytes(), b.2.spec_bytes()),
                )
            }),
    {
        let a = self.sort_key(sort);
        let b = other.sort_key(sort);
        let c0 = bytes_cmp(a.0.as_bytes(), b.0.as_bytes());
        if !matches!(c0, core::cmp::Ordering::Equal) {
            return c0;
        }
        let c1 = bytes_cmp(a.1.as_bytes(), b.1.as_bytes());
        if !matches!(c1, core::cmp::Ordering::Equal) {
            return c1;
        }
        bytes_cmp(a.2.as_bytes(), b.2.as_bytes())
    }
}

/// The byte-level sort key of a row under a sort column.
pub open spec fn spec_row_key(r: RowView, sort: GameColumn) -> (Seq<u8>, Seq<u8>, Seq<u8>) {
    let d = vstd::utf8::encode_utf8(r.description);
    let c = vstd::utf8::encode_utf8(r.creator);
    let y = vstd::utf8::encode_utf8(r.year);
    match sort {
        GameColumn::Description => (d, c, y),
        GameColumn::Creator => (c, d, y),
        GameColumn::Year => (y, d, c),
    }
}

/// Order two rows under a sort column.
pub open spec fn spec_row_cmp(a: RowView, b: RowView, sort: GameColumn) -> core::cmp::Ordering {
    spec_key_cmp(spec_row_key(a, sort), spec_row_key(b, sort))
}

/// The at-most order rows are sorted by.
pub open spec fn row_leq(sort: GameColumn) -> spec_fn(RowView, RowView) -> bool {
    |a: RowView, b: RowView| spec_row_cmp(a, b, sort) != core::cmp::Ordering::Greater
}

/// A row ordered strictly after another is, the other way around, ordered
/// strictly before it.
pub proof fn lemma_row_cmp_antisym(a: RowView, b: RowView, sort: GameColumn)
    ensures
        spec_row_cmp(a, b, sort) == core::cmp::Ordering::Greater ==> spec_row_cmp(b, a, sort)
            == core::cmp::Ordering::Less,
{
    let ka = spec_row_key(a, sort);
    let kb = spec_row_key(b, sort);
    crate::text::lemma_bytes_cmp_eq(ka.0, kb.0);
    crate::text::lemma_bytes_cmp_eq(ka.1, kb.1);
    crate::text::lemma_bytes_cmp_antisym(ka.0, kb.0);
    crate::text::lemma_bytes_cmp_antisym(ka.1, kb.1);
    crate::text::lemma_bytes_cmp_antisym(ka.2, kb.2);
    crate::text::lemma_bytes_cmp_eq(kb.0, ka.0);
    crate::text::lemma_bytes_cmp_eq(kb.1, ka.1);
}

/// The row order is transitive.
pub proof fn lemma_row_cmp_trans(a: RowView, b: RowView, c: RowView, sort: GameColumn)
    requires
        spec_row_cmp(a, b, sort) != core::cmp::Ordering::Greater,
        spec_row_cmp(b, c, sort) != core::cmp::Ordering::Greater,
    ensures
        spec_row_cmp(a, c, sort) != core::cmp::Ordering::Greater,
{
    let ka = spec_row_key(a, sort);
    let kb = spec_row_key(b, sort);
    let kc = spec_row_key(c, sort);
    crate::text::lemma_bytes_cmp_eq(ka.0, kb.0);
    crate::text::lemma_bytes_cmp_eq(kb.0, kc.0);
    crate::text::lemma_bytes_cmp_eq(ka.0, kc.0);
    crate::text::lemma_bytes_cmp_antisym(ka.0, kb.0);
    crate::text::lemma_bytes_cmp_antisym(kb.0, kc.0);
    crate::text::lemma_bytes_cmp_antisym(kc.0, ka.0);
    crate::text::lemma_bytes_cmp_trans(ka.0, kb.0, kc.0);
    if crate::text::spec_bytes_cmp(ka.0, kc.0) == core::cmp::Ordering::Equal {
        // The first fields must agree pairwise, so the second fields decide.
        if crate::text::spec_bytes_cmp(ka.0, kb.0) == core::cmp::Ordering::Less {
            crate::text::lemma_bytes_cmp_trans(kb.0, kc.0, ka.0);
        }
        assert(ka.0 == kb.0);
        assert(kb.0 == kc.0);
        crate::text::lemma_bytes_cmp_eq(ka.1, kb.1);
        crate::text::lemma_bytes_cmp_eq(kb.1, kc.1);
        crate::text::lemma_bytes_cmp_eq(ka.1, kc.1);
        crate::text::lemma_bytes_cmp_antisym(ka.1, kb.1);
        crate::text::lemma_bytes_cmp_antisym(kb.1, kc.1);
        crate::text::lemma_bytes_cmp_antisym(kc.1, ka.1);
        crate::text::lemma_bytes_cmp_trans(ka.1, kb.1, kc.1);
        if crate::text::spec_bytes_cmp(ka.1, kc.1) == core::cmp::Ordering::Equal {
            if crate::text::spec_bytes_cmp(ka.1, kb.1) == core::cmp::Ordering::Less {
                crate::text::lemma_bytes_cmp_trans(kb.1, kc.1, ka.1);
            }
            assert(ka.1 == kb.1);
            assert(kb.1 == kc.1);
            crate::text::lemma_bytes_cmp_trans(ka.2, kb.2, kc.2);
        }
    }
}

/// Whether one row orders strictly after another.
fn row_greater(a: &GameRow<'_>, b: &GameRow<'_>, sort: GameColumn) -> (r: bool)
    ensures
        r == (spec_row_cmp(a@, b@, sort) == core::cmp::Ordering::Greater),
{
    matches!(a.compare(b, sort), core::cmp::Ordering::Greater)
}

/// The row views of a row list.
pub open spec fn rows_view(s: Seq<GameRow<'_>>) -> Seq<RowView> {
    s.map_values(|row: GameRow| row@)
}

/// Sort report rows by a column: the same rows, ordered by the column.
pub fn sort_rows<'a>(rows: Vec<GameRow<'a>>, sort: GameColumn) -> (r: Vec<GameRow<'a>>)
    ensures
        rows_view(r@).to_multiset() == rows_view(rows@).to_multiset(),
        vstd::relations::sorted_by(rows_view(r@), row_leq(sort)),
{
    broadcast use vstd::seq_lib::group_to_multiset_ensures;

    let mut out: Vec<GameRow<'a>> = Vec::new();
    let n: usize = rows.len();
    let mut i: usize = 0;
    proof {
        assert(rows_view(rows@).subrange(0, 0) =~= Seq::<RowView>::empty());
        assert(rows_view(out@) =~= Seq::<RowView>::empty());
        assert(rows_view(out@).to_multiset() =~= rows_view(rows@).subrange(0, 0).to_multiset());
    }
    while i < n
        invariant
            0 <= i <= n,
            n == rows@.len(),
            rows_view(out@).to_multiset() == rows_view(rows@).subrange(0, i as int).to_multiset(),
            vstd::relations::sorted_by(rows_view(out@), row_leq(sort)),
        decreases n - i,
    {
        broadcast use vstd::seq_lib::group_to_multiset_ensures;

        let x = rows[i];
        let m: usize = out.len();
        let mut p: usize = 0;
        while p < m && !row_greater(&out[p], &x, sort)
            invariant
                0 <= p <= m,
                m == out@.len(),
                forall|j: int|
                    0 <= j < p ==> spec_row_cmp((#[trigger] out@[j])@, x@, sort)
                        != core::cmp::Ordering::Greater,
            decreases m - p,
        {
            p = p + 1;
        }
        let ghost before = out@;
        out.insert(p, x);
        proof {
            let old_view = rows_view(before);
            let t = rows_view(out@);
            assert(out@ == before.insert(p as int, x));
            assert(t.len() == old_view.len() + 1);
            assert forall|j: int| 0 <= j < t.len() implies t[j] == (if j < p {
                old_view[j]
            } else if j == p {
                x@
            } else {
                old_view[j - 1]
            }) by {
                if j < p {
                    assert(out@[j] == before[j]);
                } else if j == p {
                    assert(out@[j] == x);
                } else {
                    assert(out@[j] == before[j - 1]);
                }
            }
            // Everything from the insertion point on orders after the row.
            assert forall|j: int|
                p <= j < old_view.len() implies spec_row_cmp(x@, old_view[j], sort)
                != core::cmp::Ordering::Greater by {
                if p < m {
                    assert(spec_row_cmp(before[p as int]@, x@, sort)
                        == core::cmp::Ordering::Greater);
                    lemma_row_cmp_antisym(before[p as int]@, x@, sort);
                    if j > p {
                        assert(row_leq(sort)(old_view[p as int], old_view[j]));
                        lemma_row_cmp_trans(x@, old_view[p as int], old_view[j], sort);
                    }
                }
            }
            assert forall|j1: int, j2: int| 0 <= j1 < j2 < t.len() implies row_leq(sort)(
                t[j1],
                t[j2],
            ) by {
                if j1 < p && j2 < p {
                    assert(row_leq(sort)(old_view[j1], old_view[j2]));
                } else if j1 < p && j2 == p {
                    assert(spec_row_cmp(before[j1]@, x@, sort) != core::cmp::Ordering::Greater);
                } else if j1 < p && j2 > p {
                    assert(row_leq(sort)(old_view[j1], old_view[j2 - 1]));
                } else if j1 == p {
                    assert(spec_row_cmp(x@, old_view[j2 - 1], sort)
                        != core::cmp::Ordering::Greater);
                } else {
                    assert(row_leq(sort)(old_view[j1 - 1], old_view[j2 - 1]));
                }
            }
            assert(vstd::relations::sorted_by(t, row_leq(sort)));
            // The insertion adds exactly the one row to the multiset.
            assert(t.remove(p as int) =~= old_view);
            assert(t.to_multiset().remove(t[p as int]) =~= old_view.to_multiset());
            assert(t[p as int] == x@);
            assert(t.contains(t[p as int]));
            assert(t.to_multiset().count(x@) > 0);
            assert(t.to_multiset() =~= old_view.to_multiset().insert(x@));
            assert(rows_view(rows@).subrange(0, i + 1).drop_last() =~= rows_view(rows@).subrange(
                0,
                i as int,
            ));
            assert(rows_view(rows@).subrange(0, i + 1) =~= rows_view(rows@).subrange(
                0,
                i as int,
            ).push(x@));
        }
        i = i + 1;
    }
    proof {
        assert(rows_view(rows@).subrange(0, n as int) =~= rows_view(rows@));
    }
    out
}

} // verus!
