use vstd::prelude::*;

use vstd::string::StringExecFns;

use crate::failures::{failures_view, FailureView, VerifyFailure};
use crate::part::Part;
use crate::row::{spec_row_matches, GameRow, RowView};
use crate::text::spec_cut_before;
use crate::{Error, IoError, Status};

verus! {

/// A working entry, or one with minor faults; only entries that do not work
/// at all fail this.
pub open spec fn spec_is_working(status: Status) -> bool {
    status != Status::NotWorking
}

/// Mathematical value of a catalog entry.
pub struct GameView {
    pub name: Seq<char>,
    pub description: Seq<char>,
    pub creator: Seq<char>,
    pub year: Seq<char>,
    pub status: Status,
    pub is_device: bool,
    pub parts: Map<Seq<char>, Part>,
    pub devices: Seq<Seq<char>>,
}

/// The mapping a manifest association list denotes; later entries win.
pub open spec fn parts_map_of(s: Seq<(String, Part)>) -> Map<Seq<char>, Part>
    decreases s.len(),
{
    if s.len() == 0 {
        Map::empty()
    } else {
        parts_map_of(s.drop_last()).insert(s.last().0@, s.last().1)
    }
}

pub open spec fn parts_keys_unique(s: Seq<(String, Part)>) -> bool {
    forall|i: int, j: int| 0 <= i < j < s.len() ==> s[i].0@ != s[j].0@
}

proof fn lemma_parts_map_get(s: Seq<(String, Part)>, i: int)
    requires
        parts_keys_unique(s),
        0 <= i < s.len(),
    ensures
        parts_map_of(s).contains_key(s[i].0@),
        parts_map_of(s)[s[i].0@] == s[i].1,
    decreases s.len(),
{
    if i == s.len() - 1 {
    } else {
        assert(s.drop_last()[i] == s[i]);
        lemma_parts_map_get(s.drop_last(), i);
    }
}

proof fn lemma_parts_map_absent(s: Seq<(String, Part)>, name: Seq<char>)
    requires
        forall|i: int| 0 <= i < s.len() ==> s[i].0@ != name,
    ensures
        !parts_map_of(s).contains_key(name),
    decreases s.len(),
{
    if s.len() > 0 {
        assert(forall|i: int| 0 <= i < s.drop_last().len() ==> s.drop_last()[i] == s[i]);
        lemma_parts_map_absent(s.drop_last(), name);
    }
}

/// The expected files of one catalog entry: a map from relative filename to
/// the part expected there.
pub struct PartsMap {
    entries: Vec<(String, Part)>,
}

impl View for PartsMap {
    type V = Map<Seq<char>, Part>;

    closed spec fn view(&self) -> Map<Seq<char>, Part> {
        parts_map_of(self.entries@)
    }
}

impl PartsMap {
    /// Each filename is expected at most once.
    pub closed spec fn wf(&self) -> bool {
        parts_keys_unique(self.entries@)
    }

    /// The manifest as ordered pairs of filename and part.
    pub closed spec fn pairs(&self) -> Seq<(Seq<char>, Part)> {
        self.entries@.map_values(|e: (String, Part)| (e.0@, e.1))
    }

    /// The pairs list the mapping exactly.
    pub proof fn lemma_pairs(&self)
        requires
            self.wf(),
        ensures
            forall|i: int|
                0 <= i < self.pairs().len() ==> self@.contains_key(#[trigger] self.pairs()[i].0)
                    && self@[self.pairs()[i].0] == self.pairs()[i].1,
            forall|k: Seq<char>|
                self@.contains_key(k) ==> exists|i: int|
                    0 <= i < self.pairs().len() && (#[trigger] self.pairs()[i]).0 == k,
            forall|i: int, j: int|
                0 <= i < j < self.pairs().len() ==> self.pairs()[i].0 != self.pairs()[j].0,
    {
        assert forall|i: int| 0 <= i < self.pairs().len() implies self@.contains_key(
            #[trigger] self.pairs()[i].0,
        ) && self@[self.pairs()[i].0] == self.pairs()[i].1 by {
            lemma_parts_map_get(self.entries@, i);
        }
        assert forall|k: Seq<char>| self@.contains_key(k) implies exists|i: int|
            0 <= i < self.pairs().len() && (#[trigger] self.pairs()[i]).0 == k by {
            if forall|i: int| 0 <= i < self.entries@.len() ==> (#[trigger] self.entries@[i]).0@
                != k {
                lemma_parts_map_absent(self.entries@, k);
            }
            let i = choose|i: int| 0 <= i < self.entries@.len() && self.entries@[i].0@ == k;
            assert(self.pairs()[i].0 == k);
        }
    }

    /// An empty manifest.
    pub fn new() -> (r: Self)
        ensures
            r.wf(),
            r@ == Map::<Seq<char>, Part>::empty(),
            r.pairs() == Seq::<(Seq<char>, Part)>::empty(),
    {
        let r = PartsMap { entries: Vec::new() };
        proof {
            assert(r.pairs() =~= Seq::<(Seq<char>, Part)>::empty());
        }
        r
    }

    /// How many files are expected.
    pub fn len(&self) -> (r: usize)
        ensures
            r == self.pairs().len(),
    {
        self.entries.len()
    }

    /// The filename of the entry at an index.
    pub fn name_at(&self, i: usize) -> (r: &String)
        requires
            i < self.pairs().len(),
        ensures
            r@ == self.pairs()[i as int].0,
    {
        &self.entries[i].0
    }

    /// The expected part of the entry at an index.
    pub fn part_at(&self, i: usize) -> (r: &Part)
        requires
            i < self.pairs().len(),
        ensures
            *r == self.pairs()[i as int].1,
    {
        &self.entries[i].1
    }

    /// Expect a part at a filename not yet in the manifest.
    pub fn insert(&mut self, name: String, part: Part)
        requires
            old(self).wf(),
            !old(self)@.contains_key(name@),
        ensures
            final(self).wf(),
            final(self)@ == old(self)@.insert(name@, part),
            final(self).pairs() == old(self).pairs().push((name@, part)),
    {
        proof {
            assert forall|i: int| 0 <= i < self.entries@.len() implies self.entries@[i].0@
                != name@ by {
                lemma_parts_map_get(self.entries@, i);
            }
        }
        self.entries.push((name, part));
        proof {
            assert(self.entries@.drop_last() =~= old(self).entries@);
            assert(self.pairs() =~= old(self).pairs().push(
                (self.entries@.last().0@, self.entries@.last().1),
            ));
        }
    }

    /// The expected part at a filename, if any.
    pub fn get(&self, name: &str) -> (r: Option<&Part>)
        requires
            self.wf(),
        ensures
            (match r {
                Some(p) => self@.contains_key(name@) && self@[name@] == *p,
                None => !self@.contains_key(name@),
            }),
    {
        let n: usize = self.entries.len();
        let mut i: usize = 0;
        while i < n
            invariant
                0 <= i <= n,
                n == self.entries@.len(),
                self.wf(),
                forall|j: int| 0 <= j < i ==> self.entries@[j].0@ != name@,
            decreases n - i,
        {
            let e = &self.entries[i];
            if crate::text::bytes_eq(e.0.as_str().as_bytes(), name.as_bytes()) {
                proof {
                    vstd::utf8::encode_utf8_decode_utf8(e.0@);
                    vstd::utf8::encode_utf8_decode_utf8(name@);
                    lemma_parts_map_get(self.entries@, i as int);
                }
                return Some(&e.1);
            }
            i = i + 1;
        }
        proof {
            lemma_parts_map_absent(self.entries@, name@);
        }
        None
    }
}

/// A catalog entry: its metadata, expected files, and the devices whose
/// parts it needs besides its own.
pub struct Game {
    pub name: String,
    pub description: String,
    pub creator: String,
    pub year: String,
    pub status: Status,
    pub is_device: bool,
    pub parts: PartsMap,
    pub devices: Vec<String>,
}

impl View for Game {
    type V = GameView;

    open spec fn view(&self) -> GameView {
        GameView {
            name: self.name@,
            description: self.description@,
            creator: self.creator@,
            year: self.year@,
            status: self.status,
            is_device: self.is_device,
            parts: self.parts@,
            devices: self.devices@.map_values(|d: String| d@),
        }
    }
}

impl Game {
    /// The manifest is well formed.
    pub open spec fn wf(&self) -> bool {
        self.parts.wf()
    }

    /// Whether this entry works well enough to list.
    pub fn is_working(&self) -> (r: bool)
        ensures
            r == spec_is_working(self.status),
    {
        match self.status {
            Status::Working | Status::Partial => true,
            Status::NotWorking => false,
        }
    }

    /// The report row of this entry. Simplified rows drop a parenthesized
    /// tail from the description and the creator, and an alternate-title
    /// tail (separated by a spaced slash) from the description.
    pub fn report(&self, simple: bool) -> (r: GameRow<'_>)
        ensures
            r@ == spec_report(self@, simple),
    {
        let mut paren: Vec<u8> = Vec::new();
        paren.push(0x28u8);
        let mut slash: Vec<u8> = Vec::new();
        slash.push(0x20u8);
        slash.push(0x2fu8);
        slash.push(0x20u8);
        proof {
            assert(paren@ =~= paren_pat());
            assert(slash@ =~= slash_pat());
        }
        GameRow {
            name: self.name.as_str(),
            description: if simple {
                crate::text::cut_before(
                    crate::text::cut_before(self.description.as_str(), paren.as_slice()),
                    slash.as_slice(),
                )
            } else {
                self.description.as_str()
            },
            creator: if simple {
                crate::text::cut_before(self.creator.as_str(), paren.as_slice())
            } else {
                self.creator.as_str()
            },
            year: self.year.as_str(),
            status: self.status,
        }
    }
}

/// The byte that opens a parenthesized tail.
pub open spec fn paren_pat() -> Seq<u8> {
    seq![0x28u8]
}

/// The spaced slash that separates alternate titles.
pub open spec fn slash_pat() -> Seq<u8> {
    seq![0x20u8, 0x2fu8, 0x20u8]
}

/// The report row of an entry.
pub open spec fn spec_report(g: GameView, simple: bool) -> RowView {
    RowView {
        name: g.name,
        description: if simple {
            spec_cut_before(spec_cut_before(g.description, paren_pat()), slash_pat())
        } else {
            g.description
        },
        creator: if simple {
            spec_cut_before(g.creator, paren_pat())
        } else {
            g.creator
        },
        year: g.year,
        status: g.status,
    }
}

/// The report rows of a catalog in order: one per entry that is not a
/// device, simplified on request, and kept only when it matches the search.
pub open spec fn spec_list_rows(
    pairs: Seq<(Seq<char>, GameView)>,
    search: Option<Seq<char>>,
    simple: bool,
) -> Seq<RowView>
    decreases pairs.len(),
{
    if pairs.len() == 0 {
        Seq::empty()
    } else {
        let rest = spec_list_rows(pairs.drop_last(), search, simple);
        let g = pairs.last().1;
        if !g.is_device && (match search {
            None => true,
            Some(s) => spec_row_matches(spec_report(g, simple), s),
        }) {
            rest.push(spec_report(g, simple))
        } else {
            rest
        }
    }
}

/// The report rows of a set of names in order: one per name the catalog
/// holds under an entry that is not a device, kept only when it matches the
/// search.
pub open spec fn spec_report_rows(
    games: Map<Seq<char>, GameView>,
    names: Seq<Seq<char>>,
    search: Option<Seq<char>>,
    simple: bool,
) -> Seq<RowView>
    decreases names.len(),
{
    if names.len() == 0 {
        Seq::empty()
    } else {
        let rest = spec_report_rows(games, names.drop_last(), search, simple);
        let n = names.last();
        if games.contains_key(n) && !games[n].is_device && (match search {
            None => true,
            Some(s) => spec_row_matches(spec_report(games[n], simple), s),
        }) {
            rest.push(spec_report(games[n], simple))
        } else {
            rest
        }
    }
}

/// The mapping a catalog association list denotes; later entries win.
pub open spec fn games_map_of(s: Seq<(String, Game)>) -> Map<Seq<char>, GameView>
    decreases s.len(),
{
    if s.len() == 0 {
        Map::empty()
    } else {
        games_map_of(s.drop_last()).insert(s.last().0@, s.last().1@)
    }
}

pub open spec fn games_keys_unique(s: Seq<(String, Game)>) -> bool {
    forall|i: int, j: int| 0 <= i < j < s.len() ==> s[i].0@ != s[j].0@
}

proof fn lemma_games_map_get(s: Seq<(String, Game)>, i: int)
    requires
        games_keys_unique(s),
        0 <= i < s.len(),
    ensures
        games_map_of(s).contains_key(s[i].0@),
        games_map_of(s)[s[i].0@] == s[i].1@,
    decreases s.len(),
{
    if i == s.len() - 1 {
    } else {
        assert(s.drop_last()[i] == s[i]);
        lemma_games_map_get(s.drop_last(), i);
    }
}

proof fn lemma_games_map_absent(s: Seq<(String, Game)>, name: Seq<char>)
    requires
        forall|i: int| 0 <= i < s.len() ==> s[i].0@ != name,
    ensures
        !games_map_of(s).contains_key(name),
    decreases s.len(),
{
    if s.len() > 0 {
        assert(forall|i: int| 0 <= i < s.drop_last().len() ==> s.drop_last()[i] == s[i]);
        lemma_games_map_absent(s.drop_last(), name);
    }
}

proof fn lemma_games_map_remove(s: Seq<(String, Game)>, i: int)
    requires
        games_keys_unique(s),
        0 <= i < s.len(),
    ensures
        games_keys_unique(s.remove(i)),
        games_map_of(s.remove(i)) == games_map_of(s).remove(s[i].0@),
    decreases s.len(),
{
    assert(forall|a: int|
        0 <= a < s.remove(i).len() ==> #[trigger] s.remove(i)[a] == (if a < i {
            s[a]
        } else {
            s[a + 1]
        }));
    if i == s.len() - 1 {
        assert(s.remove(i) =~= s.drop_last());
        assert(forall|j: int| 0 <= j < s.drop_last().len() ==> s.drop_last()[j] == s[j]);
        lemma_games_map_absent(s.drop_last(), s[i].0@);
        assert(games_map_of(s.drop_last()).insert(s.last().0@, s.last().1@).remove(s[i].0@)
            =~= games_map_of(s.drop_last()));
    } else {
        let t = s.remove(i);
        assert(t.drop_last() =~= s.drop_last().remove(i));
        assert(t.last() == s.last());
        assert(forall|j: int| 0 <= j < s.drop_last().len() ==> s.drop_last()[j] == s[j]);
        lemma_games_map_remove(s.drop_last(), i);
        assert(s.last().0@ != s[i].0@);
        assert(games_map_of(s.drop_last()).remove(s[i].0@).insert(s.last().0@, s.last().1@)
            =~= games_map_of(s.drop_last()).insert(s.last().0@, s.last().1@).remove(s[i].0@));
    }
}

/// The catalog's entries, keyed by name.
pub struct GamesMap {
    entries: Vec<(String, Game)>,
}

impl View for GamesMap {
    type V = Map<Seq<char>, GameView>;

    closed spec fn view(&self) -> Map<Seq<char>, GameView> {
        games_map_of(self.entries@)
    }
}

impl GamesMap {
    /// Each name keys at most one entry, and every manifest is well formed.
    pub closed spec fn wf(&self) -> bool {
        games_keys_unique(self.entries@) && (forall|i: int|
            0 <= i < self.entries@.len() ==> (#[trigger] self.entries@[i].1).wf())
    }

    /// The catalog as ordered pairs of name and entry.
    pub closed spec fn pairs(&self) -> Seq<(Seq<char>, GameView)> {
        self.entries@.map_values(|e: (String, Game)| (e.0@, e.1@))
    }

    /// The pairs list the mapping exactly.
    pub proof fn lemma_pairs(&self)
        requires
            self.wf(),
        ensures
            forall|i: int|
                0 <= i < self.pairs().len() ==> self@.contains_key(#[trigger] self.pairs()[i].0)
                    && self@[self.pairs()[i].0] == self.pairs()[i].1,
            forall|k: Seq<char>|
                self@.contains_key(k) ==> exists|i: int|
                    0 <= i < self.pairs().len() && (#[trigger] self.pairs()[i]).0 == k,
            forall|i: int, j: int|
                0 <= i < j < self.pairs().len() ==> self.pairs()[i].0 != self.pairs()[j].0,
    {
        assert forall|i: int| 0 <= i < self.pairs().len() implies self@.contains_key(
            #[trigger] self.pairs()[i].0,
        ) && self@[self.pairs()[i].0] == self.pairs()[i].1 by {
            lemma_games_map_get(self.entries@, i);
        }
        assert forall|k: Seq<char>| self@.contains_key(k) implies exists|i: int|
            0 <= i < self.pairs().len() && (#[trigger] self.pairs()[i]).0 == k by {
            if forall|i: int| 0 <= i < self.entries@.len() ==> (#[trigger] self.entries@[i]).0@
                != k {
                lemma_games_map_absent(self.entries@, k);
            }
            let i = choose|i: int| 0 <= i < self.entries@.len() && self.entries@[i].0@ == k;
            assert(self.pairs()[i].0 == k);
        }
    }

    /// The catalog keys finitely many entries.
    pub proof fn lemma_dom_finite(&self)
        ensures
            self@.dom().finite(),
    {
        lemma_games_map_finite(self.entries@);
    }

    /// An empty catalog.
    pub fn new() -> (r: Self)
        ensures
            r.wf(),
            r@ == Map::<Seq<char>, GameView>::empty(),
            r.pairs() == Seq::<(Seq<char>, GameView)>::empty(),
    {
        let r = GamesMap { entries: Vec::new() };
        proof {
            assert(r.pairs() =~= Seq::<(Seq<char>, GameView)>::empty());
        }
        r
    }

    /// How many entries the catalog holds.
    pub fn len(&self) -> (r: usize)
        ensures
            r == self.pairs().len(),
    {
        self.entries.len()
    }

    /// The name of the entry at an index.
    pub fn name_at(&self, i: usize) -> (r: &String)
        requires
            i < self.pairs().len(),
        ensures
            r@ == self.pairs()[i as int].0,
    {
        &self.entries[i].0
    }

    /// The entry at an index.
    pub fn game_at(&self, i: usize) -> (r: &Game)
        requires
            self.wf(),
            i < self.pairs().len(),
        ensures
            r@ == self.pairs()[i as int].1,
            r.wf(),
    {
        &self.entries[i].1
    }

    /// Add an entry under a name not yet in the catalog.
    pub fn insert(&mut self, name: String, game: Game)
        requires
            old(self).wf(),
            game.wf(),
            !old(self)@.contains_key(name@),
        ensures
            final(self).wf(),
            final(self)@ == old(self)@.insert(name@, game@),
            final(self).pairs() == old(self).pairs().push((name@, game@)),
    {
        proof {
            assert forall|i: int| 0 <= i < self.entries@.len() implies self.entries@[i].0@
                != name@ by {
                lemma_games_map_get(self.entries@, i);
            }
        }
        self.entries.push((name, game));
        proof {
            assert(self.entries@.drop_last() =~= old(self).entries@);
            assert(self.pairs() =~= old(self).pairs().push(
                (self.entries@.last().0@, self.entries@.last().1@),
            ));
        }
    }

    /// The entry under a name, if any.
    pub fn get(&self, name: &str) -> (r: Option<&Game>)
        requires
            self.wf(),
        ensures
            (match r {
                Some(g) => self@.contains_key(name@) && self@[name@] == g@ && g.wf(),
                None => !self@.contains_key(name@),
            }),
    {
        let n: usize = self.entries.len();
        let mut i: usize = 0;
        while i < n
            invariant
                0 <= i <= n,
                n == self.entries@.len(),
                self.wf(),
                forall|j: int| 0 <= j < i ==> self.entries@[j].0@ != name@,
            decreases n - i,
        {
            let e = &self.entries[i];
            if crate::text::bytes_eq(e.0.as_str().as_bytes(), name.as_bytes()) {
                proof {
                    vstd::utf8::encode_utf8_decode_utf8(e.0@);
                    vstd::utf8::encode_utf8_decode_utf8(name@);
                    lemma_games_map_get(self.entries@, i as int);
                }
                return Some(&e.1);
            }
            i = i + 1;
        }
        proof {
            lemma_games_map_absent(self.entries@, name@);
        }
        None
    }

    /// Drop every entry that does not work at all; the rest keep their
    /// places.
    pub fn retain_working(&mut self)
        requires
            old(self).wf(),
        ensures
            final(self).wf(),
            forall|k: Seq<char>|
                final(self)@.contains_key(k) <==> (old(self)@.contains_key(k) && spec_is_working(
                    #[trigger] old(self)@[k].status,
                )),
            forall|k: Seq<char>|
                final(self)@.contains_key(k) ==> final(self)@[k] == #[trigger] old(self)@[k],
    {
        let ghost orig = self.entries@;
        proof {
            assert forall|k: Seq<char>| games_map_of(orig).contains_key(k) implies exists|j: int|
                0 <= j < orig.len() && orig[j].0@ == k by {
                if forall|j: int| 0 <= j < orig.len() ==> orig[j].0@ != k {
                    lemma_games_map_absent(orig, k);
                }
            }
        }
        let mut i: usize = self.entries.len();
        while i > 0
            invariant
                0 <= i <= self.entries@.len(),
                self.wf(),
                self.entries@.subrange(0, i as int) == orig.subrange(0, i as int),
                i <= orig.len(),
                games_keys_unique(orig),
                forall|k: Seq<char>|
                    self@.contains_key(k) <==> (games_map_of(orig).contains_key(k) && (
                    spec_is_working(#[trigger] games_map_of(orig)[k].status) || (exists|j: int|
                        0 <= j < i && orig[j].0@ == k))),
                forall|k: Seq<char>|
                    self@.contains_key(k) ==> self@[k] == #[trigger] games_map_of(orig)[k],
            decreases i,
        {
            i = i - 1;
            proof {
                assert(self.entries@.subrange(0, i + 1)[i as int] == self.entries@[i as int]);
                assert(orig.subrange(0, i + 1)[i as int] == orig[i as int]);
                assert(self.entries@[i as int] == orig[i as int]);
            }
            let working = self.entries[i].1.is_working();
            if !working {
                let ghost before = self.entries@;
                proof {
                    lemma_games_map_remove(before, i as int);
                    lemma_games_map_get(before, i as int);
                }
                self.entries.remove(i);
                proof {
                    assert(self.entries@.subrange(0, i as int) =~= before.subrange(0, i as int));
                    assert(orig.subrange(0, i + 1)[i as int] == orig[i as int]);
                    assert(!spec_is_working(orig[i as int].1@.status));
                    assert forall|k: Seq<char>| self@.contains_key(k) implies (games_map_of(
                        orig,
                    ).contains_key(k) && (spec_is_working(#[trigger] games_map_of(orig)[k].status)
                        || (exists|j: int| 0 <= j < i && orig[j].0@ == k))) by {
                        assert(games_map_of(before).contains_key(k));
                        assert(k != orig[i as int].0@);
                        if !spec_is_working(games_map_of(orig)[k].status) {
                            let j = choose|j: int| 0 <= j < i + 1 && orig[j].0@ == k;
                            assert(j < i);
                        }
                    }
                    assert forall|k: Seq<char>|
                        (games_map_of(orig).contains_key(k) && (spec_is_working(
                            #[trigger] games_map_of(orig)[k].status,
                        ) || (exists|j: int| 0 <= j < i && orig[j].0@ == k))) implies self
                        @.contains_key(k) by {
                        if k == orig[i as int].0@ {
                            lemma_games_map_get(orig, i as int);
                            assert(games_map_of(orig)[k] == orig[i as int].1@);
                            assert(!spec_is_working(games_map_of(orig)[k].status));
                            if exists|j: int| 0 <= j < i && orig[j].0@ == k {
                                let j = choose|j: int| 0 <= j < i && orig[j].0@ == k;
                                assert(false);
                            }
                            assert(false);
                        } else {
                            assert(games_map_of(before).contains_key(k));
                        }
                    }
                }
            } else {
                proof {
                    assert(spec_is_working(orig[i as int].1@.status));
                    lemma_games_map_get(orig, i as int);
                    assert forall|k: Seq<char>| self@.contains_key(k) implies (games_map_of(
                        orig,
                    ).contains_key(k) && (spec_is_working(#[trigger] games_map_of(orig)[k].status)
                        || (exists|j: int| 0 <= j < i && orig[j].0@ == k))) by {
                        if !spec_is_working(games_map_of(orig)[k].status) {
                            let j = choose|j: int| 0 <= j < i + 1 && orig[j].0@ == k;
                            if j == i {
                                assert(games_map_of(orig)[k] == orig[i as int].1@);
                                assert(false);
                            }
                        }
                    }
                    assert forall|k: Seq<char>|
                        (games_map_of(orig).contains_key(k) && (spec_is_working(
                            #[trigger] games_map_of(orig)[k].status,
                        ) || (exists|j: int| 0 <= j < i && orig[j].0@ == k))) implies self
                        @.contains_key(k) by {
                        if k == orig[i as int].0@ {
                            assert(exists|j: int| 0 <= j < i + 1 && orig[j].0@ == k);
                        } else if exists|j: int| 0 <= j < i && orig[j].0@ == k {
                            assert(exists|j: int| 0 <= j < i + 1 && orig[j].0@ == k);
                        }
                    }
                }
            }
        }
    }
}

/// The catalog: the entries of one upstream database plus its metadata.
pub struct GameDb {
    pub description: String,
    pub date: Option<String>,
    pub games: GamesMap,
}

impl GameDb {
    /// The catalog is well formed.
    pub open spec fn wf(&self) -> bool {
        self.games.wf()
    }

    /// Whether a name is in the catalog.
    pub fn is_game(&self, game: &str) -> (r: bool)
        requires
            self.wf(),
        ensures
            r == self.games@.contains_key(game@),
    {
        match self.games.get(game) {
            Some(_) => true,
            None => false,
        }
    }

    /// The entry under a name, if any.
    pub fn game(&self, game: &str) -> (r: Option<&Game>)
        requires
            self.wf(),
        ensures
            (match r {
                Some(g) => self.games@.contains_key(game@) && self.games@[game@] == g@ && g.wf(),
                None => !self.games@.contains_key(game@),
            }),
    {
        self.games.get(game)
    }

    /// Every entry, in catalog order.
    pub fn games_iter(&self) -> (r: Vec<&Game>)
        requires
            self.wf(),
        ensures
            r@.len() == self.games.pairs().len(),
            forall|i: int| 0 <= i < r@.len() ==> (#[trigger] r@[i])@ == self.games.pairs()[i].1,
    {
        let mut out: Vec<&Game> = Vec::new();
        let n: usize = self.games.len();
        let mut i: usize = 0;
        while i < n
            invariant
                0 <= i <= n,
                self.wf(),
                n == self.games.pairs().len(),
                out@.len() == i,
                forall|j: int| 0 <= j < i ==> (#[trigger] out@[j])@ == self.games.pairs()[j].1,
            decreases n - i,
        {
            out.push(self.games.game_at(i));
            i = i + 1;
        }
        out
    }

    /// Every name in the catalog, in catalog order.
    pub fn all_games(&self) -> (r: Vec<String>)
        requires
            self.wf(),
        ensures
            r@.len() == self.games.pairs().len(),
            forall|i: int| 0 <= i < r@.len() ==> (#[trigger] r@[i])@ == self.games.pairs()[i].0,
    {
        let mut out: Vec<String> = Vec::new();
        let n: usize = self.games.len();
        let mut i: usize = 0;
        while i < n
            invariant
                0 <= i <= n,
                self.wf(),
                n == self.games.pairs().len(),
                out@.len() == i,
                forall|j: int| 0 <= j < i ==> (#[trigger] out@[j])@ == self.games.pairs()[j].0,
            decreases n - i,
        {
            out.push(self.games.name_at(i).clone());
            i = i + 1;
        }
        out
    }

    /// Drop every entry that does not work at all; the catalog's metadata
    /// stays as it is.
    pub fn retain_working(&mut self)
        requires
            old(self).wf(),
        ensures
            final(self).wf(),
            forall|k: Seq<char>|
                final(self).games@.contains_key(k) <==> (old(self).games@.contains_key(k)
                    && spec_is_working(#[trigger] old(self).games@[k].status)),
            forall|k: Seq<char>|
                final(self).games@.contains_key(k) ==> final(self).games@[k] == #[trigger] old(
                    self,
                ).games@[k],
            final(self).description == old(self).description,
            final(self).date == old(self).date,
    {
        self.games.retain_working()
    }

    /// Check that every requested name is in the catalog; the first that is
    /// not, in the order given, becomes the error.
    pub fn validate_games(&self, games: &Vec<String>) -> (r: Result<(), Error>)
        requires
            self.wf(),
        ensures
            (match r {
                Ok(()) => forall|i: int|
                    0 <= i < games@.len() ==> self.games@.contains_key((#[trigger] games@[i])@),
                Err(e) => e matches Error::NoSuchSoftware(n) && exists|i: int|
                    0 <= i < games@.len() && (#[trigger] games@[i])@ == n@
                        && !self.games@.contains_key(n@) && (forall|j: int|
                        0 <= j < i ==> self.games@.contains_key((#[trigger] games@[j])@)),
            }),
    {
        let n: usize = games.len();
        let mut i: usize = 0;
        while i < n
            invariant
                0 <= i <= n,
                self.wf(),
                n == games@.len(),
                forall|j: int|
                    0 <= j < i ==> self.games@.contains_key((#[trigger] games@[j])@),
            decreases n - i,
        {
            let name = &games[i];
            if !self.is_game(name.as_str()) {
                proof {
                    assert((games@[i as int])@ == name@);
                }
                return Err(Error::NoSuchSoftware(name.clone()));
            }
            i = i + 1;
        }
        Ok(())
    }

    /// The report rows of the catalog: one per entry that is not a device,
    /// kept only when it matches the search string, if one is given.
    pub fn list_results(&self, search: Option<&str>, simple: bool) -> (r: Vec<GameRow<'_>>)
        requires
            self.wf(),
        ensures
            r@.map_values(|row: GameRow| row@) == spec_list_rows(
                self.games.pairs(),
                (match search {
                    Some(s) => Some(s@),
                    None => None,
                }),
                simple,
            ),
    {
        let ghost sv: Option<Seq<char>> = match search {
            Some(s) => Some(s@),
            None => None,
        };
        let mut out: Vec<GameRow<'_>> = Vec::new();
        let n: usize = self.games.len();
        let mut i: usize = 0;
        proof {
            assert(out@.map_values(|row: GameRow| row@) =~= spec_list_rows(
                self.games.pairs().subrange(0, 0),
                sv,
                simple,
            ));
        }
        while i < n
            invariant
                0 <= i <= n,
                self.wf(),
                n == self.games.pairs().len(),
                sv == (match search {
                    Some(s) => Some::<Seq<char>>(s@),
                    None => None::<Seq<char>>,
                }),
                out@.map_values(|row: GameRow| row@) == spec_list_rows(
                    self.games.pairs().subrange(0, i as int),
                    sv,
                    simple,
                ),
            decreases n - i,
        {
            proof {
                assert(self.games.pairs().subrange(0, i + 1).drop_last() =~= self.games.pairs(
                ).subrange(0, i as int));
                assert(self.games.pairs().subrange(0, i + 1).last() == self.games.pairs()[i as int]);
            }
            let g = self.games.game_at(i);
            if !g.is_device {
                let row = g.report(simple);
                let keep = match search {
                    Some(s) => row.matches(s),
                    None => true,
                };
                if keep {
                    out.push(row);
                    proof {
                        assert(out@.map_values(|row: GameRow| row@) =~= spec_list_rows(
                            self.games.pairs().subrange(0, i + 1),
                            sv,
                            simple,
                        ));
                    }
                }
            }
            proof {
                assert(out@.map_values(|row: GameRow| row@) =~= spec_list_rows(
                    self.games.pairs().subrange(0, i + 1),
                    sv,
                    simple,
                ));
            }
            i = i + 1;
        }
        proof {
            assert(self.games.pairs().subrange(0, n as int) =~= self.games.pairs());
        }
        out
    }

    /// The report rows of a set of names, in the order given: one per name
    /// the catalog holds under an entry that is not a device, kept only when
    /// it matches the search string, if one is given.
    pub fn report_results(&self, games: &Vec<String>, search: Option<&str>, simple: bool) -> (r:
        Vec<GameRow<'_>>)
        requires
            self.wf(),
        ensures
            r@.map_values(|row: GameRow| row@) == spec_report_rows(
                self.games@,
                games@.map_values(|n: String| n@),
                (match search {
                    Some(s) => Some(s@),
                    None => None,
                }),
                simple,
            ),
    {
        let ghost sv: Option<Seq<char>> = match search {
            Some(s) => Some(s@),
            None => None,
        };
        let ghost nv = games@.map_values(|n: String| n@);
        let mut out: Vec<GameRow<'_>> = Vec::new();
        let n: usize = games.len();
        let mut i: usize = 0;
        proof {
            assert(out@.map_values(|row: GameRow| row@) =~= spec_report_rows(
                self.games@,
                nv.subrange(0, 0),
                sv,
                simple,
            ));
        }
        while i < n
            invariant
                0 <= i <= n,
                self.wf(),
                n == games@.len(),
                nv == games@.map_values(|n2: String| n2@),
                sv == (match search {
                    Some(s) => Some::<Seq<char>>(s@),
                    None => None::<Seq<char>>,
                }),
                out@.map_values(|row: GameRow| row@) == spec_report_rows(
                    self.games@,
                    nv.subrange(0, i as int),
                    sv,
                    simple,
                ),
            decreases n - i,
        {
            proof {
                assert(nv.subrange(0, i + 1).drop_last() =~= nv.subrange(0, i as int));
                assert(nv.subrange(0, i + 1).last() == nv[i as int]);
            }
            match self.games.get(games[i].as_str()) {
                Some(g) => {
                    if !g.is_device {
                        let row = g.report(simple);
                        let keep = match search {
                            Some(s) => row.matches(s),
                            None => true,
                        };
                        if keep {
                            out.push(row);
                        }
                    }
                },
                None => {},
            }
            proof {
                assert(out@.map_values(|row: GameRow| row@) =~= spec_report_rows(
                    self.games@,
                    nv.subrange(0, i + 1),
                    sv,
                    simple,
                ));
            }
            i = i + 1;
        }
        proof {
            assert(nv.subrange(0, n as int) =~= nv);
        }
        out
    }
}


/// One regular file of a game directory, its identity already computed by
/// the caller.
pub struct DirEntry {
    pub name: String,
    pub path: String,
    pub ident: Result<Part, IoError>,
}

/// Mathematical value of a directory entry.
pub struct DirEntryView {
    pub name: Seq<char>,
    pub path: Seq<char>,
    pub ident: Result<Part, IoError>,
}

impl View for DirEntry {
    type V = DirEntryView;

    open spec fn view(&self) -> DirEntryView {
        DirEntryView { name: self.name@, path: self.path@, ident: self.ident }
    }
}

/// The entry views of a directory listing.
pub open spec fn listing_view(s: Seq<DirEntry>) -> Seq<DirEntryView> {
    s.map_values(|e: DirEntry| e@)
}

/// The least listing index carrying a filename, if any.
pub open spec fn spec_first_entry(entries: Seq<DirEntryView>, name: Seq<char>) -> Option<int>
    decreases entries.len(),
{
    if entries.len() == 0 {
        None
    } else if entries.first().name == name {
        Some(0)
    } else {
        match spec_first_entry(entries.drop_first(), name) {
            Some(j) => Some(j + 1),
            None => None,
        }
    }
}

/// `spec_first_entry` names the least index with the name.
proof fn lemma_first_entry_spec(entries: Seq<DirEntryView>, name: Seq<char>)
    ensures
        (match spec_first_entry(entries, name) {
            Some(i) => 0 <= i < entries.len() && entries[i].name == name && forall|j: int|
                0 <= j < i ==> (#[trigger] entries[j]).name != name,
            None => forall|j: int| 0 <= j < entries.len() ==> (#[trigger] entries[j]).name != name,
        }),
    decreases entries.len(),
{
    if entries.len() == 0 {
    } else if entries.first().name == name {
    } else {
        lemma_first_entry_spec(entries.drop_first(), name);
        assert(forall|j: int|
            1 <= j < entries.len() ==> #[trigger] entries[j] == entries.drop_first()[j - 1]);
    }
}

/// A path under a directory: the directory, a separator, the filename.
pub open spec fn spec_join(root: Seq<char>, name: Seq<char>) -> Seq<char> {
    root + seq!['/'] + name
}

/// The path of a file under a directory.
pub fn join_path(root: &str, name: &str) -> (r: String)
    ensures
        r@ == spec_join(root@, name@),
{
    proof {
        reveal_strlit("/");
    }
    let mut s = String::from_str(root);
    s.append("/");
    s.append(name);
    proof {
        assert(s@ =~= spec_join(root@, name@));
    }
    s
}

/// The failure verifying one manifest entry yields, if any: no failure for a
/// present file with the expected identity, `Bad` for one with another
/// identity, `Error` for one whose identity could not be computed, and
/// `Missing` for an absent file.
pub open spec fn spec_check_entry(
    entries: Seq<DirEntryView>,
    root: Seq<char>,
    name: Seq<char>,
    part: Part,
) -> Option<FailureView> {
    match spec_first_entry(entries, name) {
        Some(i) => (match entries[i].ident {
            Ok(a) => if a == part {
                None
            } else {
                Some(FailureView::Bad { path: entries[i].path, expected: part, actual: a })
            },
            Err(e) => Some(FailureView::Error { path: entries[i].path, err: e }),
        }),
        None => Some(FailureView::Missing { path: spec_join(root, name), part }),
    }
}

/// The failures of the manifest pass, in manifest order.
pub open spec fn spec_manifest_failures(
    manifest: Seq<(Seq<char>, Part)>,
    entries: Seq<DirEntryView>,
    root: Seq<char>,
) -> Seq<FailureView>
    decreases manifest.len(),
{
    if manifest.len() == 0 {
        Seq::empty()
    } else {
        spec_manifest_failures(manifest.drop_last(), entries, root) + (match spec_check_entry(
            entries,
            root,
            manifest.last().0,
            manifest.last().1,
        ) {
            Some(f) => seq![f],
            None => Seq::empty(),
        })
    }
}

/// Whether a listing entry is claimed by the manifest: some expected name is
/// first found in the listing at this index.
pub open spec fn entry_claimed(
    manifest: Seq<(Seq<char>, Part)>,
    entries: Seq<DirEntryView>,
    k: int,
) -> bool {
    exists|j: int|
        0 <= j < manifest.len() && spec_first_entry(entries, (#[trigger] manifest[j]).0) == Some(k)
}

/// The extra failures of the listing entries before `upto`, in listing
/// order: one per entry the manifest does not claim.
pub open spec fn spec_extra_failures(
    manifest: Seq<(Seq<char>, Part)>,
    entries: Seq<DirEntryView>,
    upto: int,
) -> Seq<FailureView>
    decreases upto,
{
    if upto <= 0 {
        Seq::empty()
    } else {
        spec_extra_failures(manifest, entries, upto - 1) + (if entry_claimed(
            manifest,
            entries,
            upto - 1,
        ) || !(upto <= entries.len()) {
            Seq::empty()
        } else {
            seq![
                FailureView::Extra {
                    path: entries[upto - 1].path,
                    part: entries[upto - 1].ident,
                },
            ]
        })
    }
}

/// The classification of one game directory against a manifest. A directory
/// that cannot be read at all counts as empty: everything expected is
/// missing, and with nothing expected there is no failure.
pub open spec fn spec_classify(
    manifest: Seq<(Seq<char>, Part)>,
    listing: Option<Seq<DirEntryView>>,
    root: Seq<char>,
) -> Seq<FailureView> {
    match listing {
        None => spec_manifest_failures(manifest, Seq::empty(), root),
        Some(entries) => spec_manifest_failures(manifest, entries, root) + spec_extra_failures(
            manifest,
            entries,
            entries.len() as int,
        ),
    }
}

/// The least listing index carrying a filename, if any.
fn find_entry(entries: &Vec<DirEntry>, name: &str) -> (r: Option<usize>)
    ensures
        (match r {
            Some(i) => i < entries@.len() && spec_first_entry(listing_view(entries@), name@)
                == Some(i as int),
            None => spec_first_entry(listing_view(entries@), name@) is None,
        }),
{
    proof {
        lemma_first_entry_spec(listing_view(entries@), name@);
    }
    let n: usize = entries.len();
    let mut i: usize = 0;
    while i < n
        invariant
            0 <= i <= n,
            n == entries@.len(),
            forall|j: int| 0 <= j < i ==> (#[trigger] listing_view(entries@)[j]).name != name@,
        decreases n - i,
    {
        let e = &entries[i];
        if crate::text::bytes_eq(e.name.as_str().as_bytes(), name.as_bytes()) {
            proof {
                vstd::utf8::encode_utf8_decode_utf8(e.name@);
                vstd::utf8::encode_utf8_decode_utf8(name@);
                lemma_first_entry_spec(listing_view(entries@), name@);
                assert(listing_view(entries@)[i as int].name == name@);
            }
            return Some(i);
        }
        proof {
            assert(listing_view(entries@)[i as int].name == entries@[i as int].name@);
        }
        i = i + 1;
    }
    proof {
        lemma_first_entry_spec(listing_view(entries@), name@);
        match spec_first_entry(listing_view(entries@), name@) {
            Some(i2) => {
                assert(listing_view(entries@)[i2].name == name@);
                assert(false);
            },
            None => {},
        }
    }
    None
}

/// The failures of the manifest pass over a directory listing.
fn manifest_pass(parts: &PartsMap, entries: &Vec<DirEntry>, root: &str) -> (r: Vec<
    VerifyFailure<String>,
>)
    requires
        parts.wf(),
    ensures
        failures_view(r@) == spec_manifest_failures(parts.pairs(), listing_view(entries@), root@),
{
    let mut failures: Vec<VerifyFailure<String>> = Vec::new();
    let n: usize = parts.len();
    let mut i: usize = 0;
    proof {
        assert(failures_view(failures@) =~= spec_manifest_failures(
            parts.pairs().subrange(0, 0),
            listing_view(entries@),
            root@,
        ));
    }
    while i < n
        invariant
            0 <= i <= n,
            parts.wf(),
            n == parts.pairs().len(),
            failures_view(failures@) == spec_manifest_failures(
                parts.pairs().subrange(0, i as int),
                listing_view(entries@),
                root@,
            ),
        decreases n - i,
    {
        proof {
            assert(parts.pairs().subrange(0, i + 1).drop_last() =~= parts.pairs().subrange(
                0,
                i as int,
            ));
            assert(parts.pairs().subrange(0, i + 1).last() == parts.pairs()[i as int]);
        }
        let name = parts.name_at(i);
        let part = parts.part_at(i);
        match find_entry(entries, name.as_str()) {
            Some(k) => {
                let e = &entries[k];
                match &e.ident {
                    Ok(a) => {
                        if !(*part == *a) {
                            failures.push(
                                VerifyFailure::Bad {
                                    path: e.path.clone(),
                                    expected: *part,
                                    actual: *a,
                                },
                            );
                        }
                    },
                    Err(err) => {
                        failures.push(VerifyFailure::Error { path: e.path.clone(), err: *err });
                    },
                }
            },
            None => {
                failures.push(
                    VerifyFailure::Missing {
                        path: join_path(root, name.as_str()),
                        part: *part,
                    },
                );
            },
        }
        proof {
            assert(failures_view(failures@) =~= spec_manifest_failures(
                parts.pairs().subrange(0, i + 1),
                listing_view(entries@),
                root@,
            ));
        }
        i = i + 1;
    }
    proof {
        assert(parts.pairs().subrange(0, n as int) =~= parts.pairs());
    }
    failures
}

/// Whether the manifest claims the listing entry at an index.
fn claimed_by_manifest(parts: &PartsMap, entries: &Vec<DirEntry>, k: usize) -> (r: bool)
    requires
        parts.wf(),
    ensures
        r == entry_claimed(parts.pairs(), listing_view(entries@), k as int),
{
    let n: usize = parts.len();
    let mut j: usize = 0;
    while j < n
        invariant
            0 <= j <= n,
            parts.wf(),
            n == parts.pairs().len(),
            forall|j2: int|
                0 <= j2 < j ==> spec_first_entry(
                    listing_view(entries@),
                    (#[trigger] parts.pairs()[j2]).0,
                ) != Some(k as int),
        decreases n - j,
    {
        let name = parts.name_at(j);
        match find_entry(entries, name.as_str()) {
            Some(i) => {
                if i == k {
                    proof {
                        assert(spec_first_entry(listing_view(entries@), parts.pairs()[j as int].0)
                            == Some(k as int));
                    }
                    return true;
                }
            },
            None => {},
        }
        j = j + 1;
    }
    proof {
        if entry_claimed(parts.pairs(), listing_view(entries@), k as int) {
            let j2 = choose|j2: int|
                0 <= j2 < parts.pairs().len() && spec_first_entry(
                    listing_view(entries@),
                    (#[trigger] parts.pairs()[j2]).0,
                ) == Some(k as int);
            assert(false);
        }
    }
    false
}

impl Game {
    /// Classify this entry's directory against its manifest: a failure for
    /// every expected file that is absent, carries the wrong identity, or
    /// could not be identified, and one for every file the manifest does not
    /// name. A directory that could not be read counts as empty, so nothing
    /// expected means no failures.
    pub fn verify(&self, game_root: &str, listing: Option<&Vec<DirEntry>>) -> (r: Vec<
        VerifyFailure<String>,
    >)
        requires
            self.wf(),
        ensures
            failures_view(r@) == spec_classify(
                self.parts.pairs(),
                (match listing {
                    Some(v) => Some(listing_view(v@)),
                    None => None,
                }),
                game_root@,
            ),
    {
        match listing {
            None => {
                let empty_entries: Vec<DirEntry> = Vec::new();
                let r = manifest_pass(&self.parts, &empty_entries, game_root);
                proof {
                    assert(listing_view(empty_entries@) =~= Seq::<DirEntryView>::empty());
                }
                r
            },
            Some(v) => {
                let mut failures = manifest_pass(&self.parts, v, game_root);
                let n: usize = v.len();
                let mut k: usize = 0;
                proof {
                    assert(failures_view(failures@) =~= spec_manifest_failures(
                        self.parts.pairs(),
                        listing_view(v@),
                        game_root@,
                    ) + spec_extra_failures(self.parts.pairs(), listing_view(v@), 0));
                }
                while k < n
                    invariant
                        0 <= k <= n,
                        self.wf(),
                        n == v@.len(),
                        failures_view(failures@) == spec_manifest_failures(
                            self.parts.pairs(),
                            listing_view(v@),
                            game_root@,
                        ) + spec_extra_failures(self.parts.pairs(), listing_view(v@), k as int),
                    decreases n - k,
                {
                    let claimed = claimed_by_manifest(&self.parts, v, k);
                    proof {
                        assert(claimed == entry_claimed(
                            self.parts.pairs(),
                            listing_view(v@),
                            k as int,
                        ));
                    }
                    let ghost before_view = failures_view(failures@);
                    if !claimed {
                        let e = &v[k];
                        failures.push(VerifyFailure::Extra { path: e.path.clone(), part: e.ident });
                        proof {
                            assert(listing_view(v@)[k as int] == v@[k as int]@);
                            assert(failures_view(failures@) =~= before_view.push(
                                (FailureView::Extra {
                                    path: listing_view(v@)[k as int].path,
                                    part: listing_view(v@)[k as int].ident,
                                }),
                            ));
                        }
                    }
                    proof {
                        let m = self.parts.pairs();
                        let ev = listing_view(v@);
                        assert(k + 1 <= ev.len());
                        assert(spec_extra_failures(m, ev, k + 1) == spec_extra_failures(
                            m,
                            ev,
                            k as int,
                        ) + (if entry_claimed(m, ev, k as int) {
                            Seq::<FailureView>::empty()
                        } else {
                            seq![
                                (FailureView::Extra {
                                    path: ev[k as int].path,
                                    part: ev[k as int].ident,
                                }),
                            ]
                        }));
                        let lhs = failures_view(failures@);
                        let rhs = spec_manifest_failures(m, ev, game_root@) + spec_extra_failures(
                            m,
                            ev,
                            k + 1,
                        );
                        assert(lhs.len() == rhs.len());
                        assert forall|t: int| 0 <= t < lhs.len() implies lhs[t] == rhs[t] by {
                            let pre = spec_manifest_failures(m, ev, game_root@)
                                + spec_extra_failures(m, ev, k as int);
                            if t < pre.len() {
                                assert(lhs[t] == pre[t]);
                            }
                        }
                        assert(lhs =~= rhs);
                    }
                    k = k + 1;
                }
                failures
            },
        }
    }
}


/// A chain of device references: each name is in the catalog and lists the
/// next as a device.
pub open spec fn device_path_ok(
    games: Map<Seq<char>, GameView>,
    path: Seq<Seq<char>>,
) -> bool {
    &&& path.len() >= 1
    &&& forall|t: int|
        0 <= t < path.len() - 1 ==> games.contains_key(#[trigger] path[t]) && games[path[t]].devices.contains(
            path[t + 1],
        )
}

/// A name reachable from a start name through device references.
pub open spec fn spec_reaches(
    games: Map<Seq<char>, GameView>,
    start: Seq<char>,
    name: Seq<char>,
) -> bool {
    exists|path: Seq<Seq<char>>|
        #[trigger] device_path_ok(games, path) && path.first() == start && path.last() == name
}

proof fn lemma_reaches_self(games: Map<Seq<char>, GameView>, start: Seq<char>)
    ensures
        spec_reaches(games, start, start),
{
    let path = seq![start];
    assert(device_path_ok(games, path));
}

proof fn lemma_reaches_step(
    games: Map<Seq<char>, GameView>,
    start: Seq<char>,
    g: Seq<char>,
    d: Seq<char>,
)
    requires
        spec_reaches(games, start, g),
        games.contains_key(g),
        games[g].devices.contains(d),
    ensures
        spec_reaches(games, start, d),
{
    let path = choose|path: Seq<Seq<char>>|
        #[trigger] device_path_ok(games, path) && path.first() == start && path.last() == g;
    let path2 = path.push(d);
    assert(path2.last() == d);
    assert(path2.first() == start);
    assert forall|t: int|
        0 <= t < path2.len() - 1 implies games.contains_key(#[trigger] path2[t])
        && games[path2[t]].devices.contains(path2[t + 1]) by {
        if t < path.len() - 1 {
            assert(path2[t] == path[t]);
            assert(path2[t + 1] == path[t + 1]);
        } else {
            assert(path2[t] == path.last());
            assert(path2[t + 1] == d);
        }
    }
    assert(device_path_ok(games, path2));
}

/// The mapping an association list denotes has finitely many keys.
proof fn lemma_games_map_finite(s: Seq<(String, Game)>)
    ensures
        games_map_of(s).dom().finite(),
    decreases s.len(),
{
    if s.len() == 0 {
        assert(games_map_of(s).dom() =~= Set::<Seq<char>>::empty());
    } else {
        lemma_games_map_finite(s.drop_last());
    }
}

/// Distinct names that all key a finite map number at most its size.
proof fn lemma_visited_bound(names: Seq<Seq<char>>, m: Map<Seq<char>, GameView>)
    requires
        m.dom().finite(),
        names.no_duplicates(),
        forall|i: int| 0 <= i < names.len() ==> m.contains_key(#[trigger] names[i]),
    ensures
        names.len() <= m.dom().len(),
{
    names.unique_seq_to_set();
    assert(names.to_set().subset_of(m.dom()));
    vstd::set_lib::lemma_len_subset(names.to_set(), m.dom());
}

/// Whether a list of names holds one with the given view.
pub open spec fn in_views(v: Seq<String>, x: Seq<char>) -> bool {
    exists|i: int| 0 <= i < v.len() && (#[trigger] v[i])@ == x
}

proof fn lemma_in_views_push(v: Seq<String>, y: String, x: Seq<char>)
    ensures
        in_views(v, x) ==> in_views(v.push(y), x),
        in_views(v.push(y), y@),
        in_views(v.push(y), x) ==> in_views(v, x) || x == y@,
{
    if in_views(v, x) {
        let i = choose|i: int| 0 <= i < v.len() && (#[trigger] v[i])@ == x;
        assert(v.push(y)[i]@ == x);
    }
    assert(v.push(y)[v.len() as int]@ == y@);
    if in_views(v.push(y), x) {
        let i = choose|i: int| 0 <= i < v.push(y).len() && (#[trigger] v.push(y)[i])@ == x;
        if i < v.len() {
            assert(v[i]@ == x);
        }
    }
}

proof fn lemma_in_views_pop(v: Seq<String>, x: Seq<char>)
    requires
        v.len() > 0,
    ensures
        in_views(v, x) ==> in_views(v.drop_last(), x) || x == v.last()@,
{
    if in_views(v, x) {
        let i = choose|i: int| 0 <= i < v.len() && (#[trigger] v[i])@ == x;
        if i < v.len() - 1 {
            assert(v.drop_last()[i]@ == x);
        }
    }
}

/// Whether a name's view occurs in a list of names.
fn names_contain(names: &Vec<String>, name: &str) -> (r: bool)
    ensures
        r == in_views(names@, name@),
{
    let n: usize = names.len();
    let mut i: usize = 0;
    while i < n
        invariant
            0 <= i <= n,
            n == names@.len(),
            forall|j: int| 0 <= j < i ==> (#[trigger] names@[j])@ != name@,
        decreases n - i,
    {
        if crate::text::bytes_eq(names[i].as_str().as_bytes(), name.as_bytes()) {
            proof {
                vstd::utf8::encode_utf8_decode_utf8(names@[i as int]@);
                vstd::utf8::encode_utf8_decode_utf8(name@);
                assert(names@[i as int]@ == name@);
            }
            return true;
        }
        i = i + 1;
    }
    proof {
        if in_views(names@, name@) {
            let j = choose|j: int| 0 <= j < names@.len() && (#[trigger] names@[j])@ == name@;
            assert(false);
        }
    }
    false
}

/// Every device of every gathered name, when the catalog holds it, is
/// gathered or still waiting.
pub open spec fn closure_pending(
    m: Map<Seq<char>, GameView>,
    visited: Seq<String>,
    work: Seq<String>,
) -> bool {
    forall|i: int, d: int|
        0 <= i < visited.len() && 0 <= d < m[visited[i]@].devices.len() && m.contains_key(
            #[trigger] m[(#[trigger] visited[i])@].devices[d],
        ) ==> in_views(visited, m[visited[i]@].devices[d]) || in_views(
            work,
            m[visited[i]@].devices[d],
        )
}

impl GameDb {
    /// The names of a catalog entry and of every device it transitively
    /// references, each once. A start name the catalog does not hold yields
    /// nothing; a referenced device the catalog does not hold is silently
    /// ignored.
    pub fn device_closure(&self, name: &String) -> (r: Vec<String>)
        requires
            self.wf(),
        ensures
            forall|i: int, j: int|
                0 <= i < j < r@.len() ==> (#[trigger] r@[i])@ != (#[trigger] r@[j])@,
            forall|i: int| 0 <= i < r@.len() ==> self.games@.contains_key((#[trigger] r@[i])@),
            forall|i: int|
                0 <= i < r@.len() ==> spec_reaches(self.games@, name@, (#[trigger] r@[i])@),
            self.games@.contains_key(name@) ==> in_views(r@, name@),
            !self.games@.contains_key(name@) ==> r@.len() == 0,
            forall|i: int, d: int|
                0 <= i < r@.len() && 0 <= d < self.games@[r@[i]@].devices.len()
                    && self.games@.contains_key(
                    #[trigger] self.games@[(#[trigger] r@[i])@].devices[d],
                ) ==> in_views(r@, self.games@[r@[i]@].devices[d]),
    {
        let ghost m = self.games@;
        let mut visited: Vec<String> = Vec::new();
        let mut work: Vec<String> = Vec::new();
        work.push(name.clone());
        proof {
            lemma_reaches_self(m, name@);
            self.games.lemma_dom_finite();
            assert(work@[0]@ == name@);
        }
        while work.len() > 0
            invariant
                self.wf(),
                m == self.games@,
                m.dom().finite(),
                forall|i: int, j: int|
                    0 <= i < j < visited@.len() ==> (#[trigger] visited@[i])@ != (
                    #[trigger] visited@[j])@,
                forall|i: int|
                    0 <= i < visited@.len() ==> m.contains_key((#[trigger] visited@[i])@),
                forall|i: int|
                    0 <= i < visited@.len() ==> spec_reaches(m, name@, (#[trigger] visited@[i])@),
                forall|i: int|
                    0 <= i < work@.len() ==> spec_reaches(m, name@, (#[trigger] work@[i])@),
                m.contains_key(name@) ==> in_views(visited@, name@) || in_views(work@, name@),
                !m.contains_key(name@) ==> visited@.len() == 0 && (forall|i: int|
                    0 <= i < work@.len() ==> (#[trigger] work@[i])@ == name@),
                visited@.len() <= m.dom().len(),
                closure_pending(m, visited@, work@),
            decreases m.dom().len() - visited@.len(), work@.len(),
        {
            let ghost work0 = work@;
            let ghost visited0 = visited@;
            let w = work.pop().unwrap();
            let ghost wv = w@;
            proof {
                assert(work@ == work0.drop_last());
                assert(wv == work0.last()@);
            }
            let in_visited = names_contain(&visited, w.as_str());
            if in_visited {
                proof {
                    if m.contains_key(name@) && !in_views(visited0, name@) {
                        lemma_in_views_pop(work0, name@);
                    }
                    assert forall|i: int, d: int|
                        0 <= i < visited@.len() && 0 <= d < m[visited@[i]@].devices.len()
                            && m.contains_key(
                            #[trigger] m[(#[trigger] visited@[i])@].devices[d],
                        ) implies in_views(visited@, m[visited@[i]@].devices[d]) || in_views(
                        work@,
                        m[visited@[i]@].devices[d],
                    ) by {
                        let dev = m[visited@[i]@].devices[d];
                        if !in_views(visited0, dev) {
                            lemma_in_views_pop(work0, dev);
                        }
                    }
                }
            } else {
                let gopt = self.games.get(w.as_str());
                match gopt {
                    Some(g) => {
                        proof {
                            if !m.contains_key(name@) {
                                assert(wv == name@);
                                assert(false);
                            }
                            let vv = visited0.map_values(|s2: String| s2@);
                            assert forall|i: int, j: int|
                                0 <= i < j < vv.push(wv).len() implies #[trigger] vv.push(wv)[i]
                                != #[trigger] vv.push(wv)[j] by {
                                if j < vv.len() {
                                    assert(vv.push(wv)[i] == visited0[i]@);
                                    assert(vv.push(wv)[j] == visited0[j]@);
                                } else {
                                    assert(vv.push(wv)[i] == visited0[i]@);
                                    assert(vv.push(wv)[j] == wv);
                                    if in_views(visited0, wv) {
                                    } else {
                                        assert(visited0[i]@ != wv);
                                    }
                                }
                            }
                            assert(vv.push(wv).no_duplicates());
                            assert forall|i: int|
                                0 <= i < vv.push(wv).len() implies m.contains_key(
                                #[trigger] vv.push(wv)[i],
                            ) by {
                                if i < vv.len() {
                                    assert(vv.push(wv)[i] == visited0[i]@);
                                }
                            }
                            lemma_visited_bound(vv.push(wv), m);
                            assert(visited0.push(w).map_values(|s2: String| s2@) =~= vv.push(wv));
                        }
                        visited.push(w);
                        proof {
                            assert(visited@ == visited0.push(w));
                            assert(visited@.len() == visited0.len() + 1);
                            assert(visited@.last()@ == wv);
                            assert forall|i: int, j: int|
                                0 <= i < j < visited@.len() implies (#[trigger] visited@[i])@ != (
                                #[trigger] visited@[j])@ by {
                                let vv = visited0.map_values(|s2: String| s2@);
                                assert(vv.push(wv)[i] == visited@[i]@);
                                assert(vv.push(wv)[j] == visited@[j]@);
                            }
                            if m.contains_key(name@) && !in_views(visited0, name@) {
                                lemma_in_views_pop(work0, name@);
                            }
                            lemma_in_views_push(visited0, w, name@);
                            lemma_reaches_self(m, name@);
                        }
                        let dn: usize = g.devices.len();
                        let mut di: usize = 0;
                        proof {
                            assert(g@ == m[wv]);
                            assert forall|i: int, d: int|
                                0 <= i < visited@.len() && 0 <= d < m[visited@[i]@].devices.len()
                                    && m.contains_key(
                                    #[trigger] m[(#[trigger] visited@[i])@].devices[d],
                                ) implies (i == visited@.len() - 1 && d >= 0) || in_views(
                                visited@,
                                m[visited@[i]@].devices[d],
                            ) || in_views(work@, m[visited@[i]@].devices[d]) by {
                                if i < visited@.len() - 1 {
                                    let dev = m[visited@[i]@].devices[d];
                                    assert(visited0[i]@ == visited@[i]@);
                                    if !in_views(visited0, dev) {
                                        lemma_in_views_pop(work0, dev);
                                        if dev == wv {
                                            lemma_in_views_push(visited0, w, dev);
                                        }
                                    } else {
                                        lemma_in_views_push(visited0, w, dev);
                                    }
                                }
                            }
                        }
                        while di < dn
                            invariant
                                0 <= di <= dn,
                                self.wf(),
                                m == self.games@,
                                m.dom().finite(),
                                dn == g.devices@.len(),
                                visited@.len() >= 1,
                                visited@.len() <= m.dom().len(),
                                g@ == m[wv],
                                wv == visited@.last()@,
                                m.contains_key(wv),
                                spec_reaches(m, name@, wv),
                                m.contains_key(name@),
                                forall|i: int, j: int|
                                    0 <= i < j < visited@.len() ==> (#[trigger] visited@[i])@ != (
                                    #[trigger] visited@[j])@,
                                forall|i: int|
                                    0 <= i < visited@.len() ==> m.contains_key(
                                        (#[trigger] visited@[i])@,
                                    ),
                                forall|i: int|
                                    0 <= i < visited@.len() ==> spec_reaches(
                                        m,
                                        name@,
                                        (#[trigger] visited@[i])@,
                                    ),
                                forall|i: int|
                                    0 <= i < work@.len() ==> spec_reaches(
                                        m,
                                        name@,
                                        (#[trigger] work@[i])@,
                                    ),
                                in_views(visited@, name@) || in_views(work@, name@),
                                forall|i: int, d: int|
                                    0 <= i < visited@.len() && 0 <= d
                                        < m[visited@[i]@].devices.len() && m.contains_key(
                                        #[trigger] m[(#[trigger] visited@[i])@].devices[d],
                                    ) ==> (i == visited@.len() - 1 && d >= di) || in_views(
                                        visited@,
                                        m[visited@[i]@].devices[d],
                                    ) || in_views(work@, m[visited@[i]@].devices[d]),
                            decreases dn - di,
                        {
                            let ghost inner_work0 = work@;
                            let d = &g.devices[di];
                            proof {
                                assert(m[wv].devices[di as int] == g.devices@[di as int]@);
                                assert(m[wv].devices.contains(g.devices@[di as int]@));
                                lemma_reaches_step(m, name@, wv, g.devices@[di as int]@);
                            }
                            work.push(d.clone());
                            proof {
                                let dv = g.devices@[di as int]@;
                                lemma_in_views_push(inner_work0, work@.last(), dv);
                                assert(work@.last()@ == dv);
                                assert(in_views(work@, dv));
                                assert forall|x: Seq<char>| in_views(inner_work0, x) implies
                                    in_views(work@, x) by {
                                    lemma_in_views_push(inner_work0, work@.last(), x);
                                }
                                assert forall|i: int|
                                    0 <= i < work@.len() implies spec_reaches(
                                    m,
                                    name@,
                                    (#[trigger] work@[i])@,
                                ) by {
                                    if i < inner_work0.len() {
                                        assert(work@[i] == inner_work0[i]);
                                    } else {
                                        assert(work@[i]@ == dv);
                                    }
                                }
                            }
                            di = di + 1;
                        }
                        proof {
                            assert forall|i: int, d: int|
                                0 <= i < visited@.len() && 0 <= d < m[visited@[i]@].devices.len()
                                    && m.contains_key(
                                    #[trigger] m[(#[trigger] visited@[i])@].devices[d],
                                ) implies in_views(visited@, m[visited@[i]@].devices[d])
                                || in_views(work@, m[visited@[i]@].devices[d]) by {
                                if i == visited@.len() - 1 {
                                    assert(d < dn);
                                }
                            }
                        }
                    },
                    None => {
                        proof {
                            if m.contains_key(name@) && !in_views(visited0, name@) {
                                lemma_in_views_pop(work0, name@);
                                if name@ == wv {
                                    assert(false);
                                }
                            }
                            if !m.contains_key(name@) {
                                assert forall|i: int|
                                    0 <= i < work@.len() implies (#[trigger] work@[i])@
                                    == name@ by {
                                    assert(work@[i] == work0[i]);
                                }
                            }
                            assert forall|i: int, d: int|
                                0 <= i < visited@.len() && 0 <= d < m[visited@[i]@].devices.len()
                                    && m.contains_key(
                                    #[trigger] m[(#[trigger] visited@[i])@].devices[d],
                                ) implies in_views(visited@, m[visited@[i]@].devices[d])
                                || in_views(work@, m[visited@[i]@].devices[d]) by {
                                let dev = m[visited@[i]@].devices[d];
                                if !in_views(visited0, dev) {
                                    lemma_in_views_pop(work0, dev);
                                    if dev == wv {
                                        assert(false);
                                    }
                                }
                            }
                        }
                    },
                }
            }
        }
        visited
    }
}


/// Whether an entry expects a part under any filename.
pub open spec fn game_has_part(g: GameView, p: Part) -> bool {
    exists|f: Seq<char>| #[trigger] g.parts.contains_key(f) && g.parts[f] == p
}

/// A gathered name list that is closed under device references holds every
/// name reachable from a start it holds.
proof fn lemma_path_in_closure(
    m: Map<Seq<char>, GameView>,
    names: Seq<String>,
    path: Seq<Seq<char>>,
)
    requires
        device_path_ok(m, path),
        m.contains_key(path.last()),
        m.contains_key(path.first()) ==> in_views(names, path.first()),
        forall|i: int| 0 <= i < names.len() ==> m.contains_key((#[trigger] names[i])@),
        forall|i: int, d: int|
            0 <= i < names.len() && 0 <= d < m[names[i]@].devices.len() && m.contains_key(
                #[trigger] m[(#[trigger] names[i])@].devices[d],
            ) ==> in_views(names, m[names[i]@].devices[d]),
    ensures
        in_views(names, path.last()),
    decreases path.len(),
{
    if path.len() == 1 {
    } else {
        let pre = path.drop_last();
        assert(pre.len() == path.len() - 1);
        assert forall|t: int|
            0 <= t < pre.len() - 1 implies m.contains_key(#[trigger] pre[t])
            && m[pre[t]].devices.contains(pre[t + 1]) by {
            assert(pre[t] == path[t]);
            assert(pre[t + 1] == path[t + 1]);
        }
        assert(device_path_ok(m, pre));
        assert(pre.last() == path[path.len() - 2]);
        assert(m.contains_key(path[path.len() - 2]));
        assert(pre.first() == path.first());
        lemma_path_in_closure(m, names, pre);
        let i = choose|i: int| 0 <= i < names.len() && (#[trigger] names[i])@ == pre.last();
        assert(m[names[i]@].devices.contains(path.last()));
        let d = choose|d: int|
            0 <= d < m[names[i]@].devices.len() && m[names[i]@].devices[d] == path.last();
        assert(m.contains_key(m[names[i]@].devices[d]));
    }
}

/// The device closure of a start name holds every name reachable from it.
proof fn lemma_closure_complete(
    m: Map<Seq<char>, GameView>,
    start: Seq<char>,
    names: Seq<String>,
)
    requires
        m.contains_key(start) ==> in_views(names, start),
        forall|i: int| 0 <= i < names.len() ==> m.contains_key((#[trigger] names[i])@),
        forall|i: int, d: int|
            0 <= i < names.len() && 0 <= d < m[names[i]@].devices.len() && m.contains_key(
                #[trigger] m[(#[trigger] names[i])@].devices[d],
            ) ==> in_views(names, m[names[i]@].devices[d]),
    ensures
        forall|gn: Seq<char>|
            spec_reaches(m, start, gn) && m.contains_key(gn) ==> in_views(names, gn),
{
    assert forall|gn: Seq<char>|
        spec_reaches(m, start, gn) && m.contains_key(gn) implies in_views(names, gn) by {
        let path = choose|path: Seq<Seq<char>>|
            #[trigger] device_path_ok(m, path) && path.first() == start && path.last() == gn;
        lemma_path_in_closure(m, names, path);
    }
}

impl GameDb {
    /// The parts needed by a set of entries: the union, over each requested
    /// name and every entry transitively reachable from it through device
    /// references, of the expected parts. A requested name the catalog does
    /// not hold is an error.
    pub fn required_parts(&self, games: &Vec<String>) -> (r: Result<crate::sources::PartSet, Error>)
        requires
            self.wf(),
        ensures
            (match r {
                Ok(s) => {
                    &&& forall|p: Part|
                        s@.contains(p) ==> exists|ni: int, gn: Seq<char>|
                            #![trigger spec_reaches(self.games@, games@[ni]@, gn)]
                            0 <= ni < games@.len() && spec_reaches(self.games@, games@[ni]@, gn)
                                && self.games@.contains_key(gn) && game_has_part(
                                self.games@[gn],
                                p,
                            )
                    &&& forall|ni: int, gn: Seq<char>, p: Part|
                        #![trigger spec_reaches(self.games@, games@[ni]@, gn), game_has_part(self.games@[gn], p)]
                        0 <= ni < games@.len() && spec_reaches(self.games@, games@[ni]@, gn)
                            && self.games@.contains_key(gn) && game_has_part(self.games@[gn], p)
                            ==> s@.contains(p)
                    &&& forall|ni: int|
                        0 <= ni < games@.len() ==> self.games@.contains_key(
                            (#[trigger] games@[ni])@,
                        )
                },
                Err(e) => e matches Error::NoSuchSoftware(n) && exists|ni: int|
                    0 <= ni < games@.len() && (#[trigger] games@[ni])@ == n@
                        && !self.games@.contains_key(n@) && (forall|j: int|
                        0 <= j < ni ==> self.games@.contains_key((#[trigger] games@[j])@)),
            }),
    {
        if let Err(e) = self.validate_games(games) {
            proof {
                match e {
                    Error::NoSuchSoftware(_) => {},
                    Error::IO(_) => {
                        assert(false);
                    },
                }
            }
            return Err(e);
        }
        let ghost m = self.games@;
        let mut parts = crate::sources::PartSet::new();
        let n: usize = games.len();
        let mut ni: usize = 0;
        while ni < n
            invariant
                0 <= ni <= n,
                self.wf(),
                m == self.games@,
                n == games@.len(),
                forall|k: int| 0 <= k < n ==> m.contains_key((#[trigger] games@[k])@),
                forall|p: Part|
                    parts@.contains(p) ==> exists|k: int, gn: Seq<char>|
                        #![trigger spec_reaches(m, games@[k]@, gn)]
                        0 <= k < ni && spec_reaches(m, games@[k]@, gn) && m.contains_key(gn)
                            && game_has_part(m[gn], p),
                forall|k: int, gn: Seq<char>, p: Part|
                    #![trigger spec_reaches(m, games@[k]@, gn), game_has_part(m[gn], p)]
                    0 <= k < ni && spec_reaches(m, games@[k]@, gn) && m.contains_key(gn)
                        && game_has_part(m[gn], p) ==> parts@.contains(p),
            decreases n - ni,
        {
            let name = &games[ni];
            let closure = self.device_closure(name);
            let cn: usize = closure.len();
            let mut ci: usize = 0;
            while ci < cn
                invariant
                    0 <= ci <= cn,
                    0 <= ni < n,
                    self.wf(),
                    m == self.games@,
                    n == games@.len(),
                    cn == closure@.len(),
                    name == games@[ni as int],
                    forall|k: int| 0 <= k < n ==> m.contains_key((#[trigger] games@[k])@),
                    forall|i: int|
                        0 <= i < closure@.len() ==> m.contains_key((#[trigger] closure@[i])@),
                    forall|i: int|
                        0 <= i < closure@.len() ==> spec_reaches(
                            m,
                            name@,
                            (#[trigger] closure@[i])@,
                        ),
                    m.contains_key(name@) ==> in_views(closure@, name@),
                    forall|i: int, d: int|
                        0 <= i < closure@.len() && 0 <= d < m[closure@[i]@].devices.len()
                            && m.contains_key(
                            #[trigger] m[(#[trigger] closure@[i])@].devices[d],
                        ) ==> in_views(closure@, m[closure@[i]@].devices[d]),
                    forall|p: Part|
                        parts@.contains(p) ==> (exists|k: int, gn: Seq<char>|
                            #![trigger spec_reaches(m, games@[k]@, gn)]
                            0 <= k < ni && spec_reaches(m, games@[k]@, gn) && m.contains_key(gn)
                                && game_has_part(m[gn], p)) || (exists|i: int|
                            0 <= i < ci && game_has_part(m[(#[trigger] closure@[i])@], p)),
                    forall|k: int, gn: Seq<char>, p: Part|
                        #![trigger spec_reaches(m, games@[k]@, gn), game_has_part(m[gn], p)]
                        0 <= k < ni && spec_reaches(m, games@[k]@, gn) && m.contains_key(gn)
                            && game_has_part(m[gn], p) ==> parts@.contains(p),
                    forall|i: int, p: Part|
                        #![trigger game_has_part(m[closure@[i]@], p)]
                        0 <= i < ci && game_has_part(m[closure@[i]@], p) ==> parts@.contains(p),
                decreases cn - ci,
            {
                let cname = &closure[ci];
                match self.games.get(cname.as_str()) {
                    Some(g) => {
                        let pn: usize = g.parts.len();
                        let mut pi: usize = 0;
                        proof {
                            g.parts.lemma_pairs();
                        }
                        while pi < pn
                            invariant
                                0 <= pi <= pn,
                                0 <= ci < cn,
                                0 <= ni < n,
                                self.wf(),
                                m == self.games@,
                                g.wf(),
                                pn == g.parts.pairs().len(),
                                g@ == m[closure@[ci as int]@],
                                cn == closure@.len(),
                                n == games@.len(),
                                name == games@[ni as int],
                                forall|p: Part|
                                    parts@.contains(p) ==> (exists|k: int, gn: Seq<char>|
                                        #![trigger spec_reaches(m, games@[k]@, gn)]
                                        0 <= k < ni && spec_reaches(m, games@[k]@, gn)
                                            && m.contains_key(gn) && game_has_part(m[gn], p)) || (
                                    exists|i: int|
                                        0 <= i < ci && game_has_part(
                                            m[(#[trigger] closure@[i])@],
                                            p,
                                        )) || (exists|j: int|
                                        0 <= j < pi && (#[trigger] g.parts.pairs()[j]).1 == p),
                                forall|k: int, gn: Seq<char>, p: Part|
                                    #![trigger spec_reaches(m, games@[k]@, gn), game_has_part(m[gn], p)]
                                    0 <= k < ni && spec_reaches(m, games@[k]@, gn)
                                        && m.contains_key(gn) && game_has_part(m[gn], p)
                                        ==> parts@.contains(p),
                                forall|i: int, p: Part|
                                    #![trigger game_has_part(m[closure@[i]@], p)]
                                    0 <= i < ci && game_has_part(m[closure@[i]@], p)
                                        ==> parts@.contains(p),
                                forall|j: int|
                                    0 <= j < pi ==> parts@.contains(
                                        (#[trigger] g.parts.pairs()[j]).1,
                                    ),
                                forall|i: int|
                                    0 <= i < closure@.len() ==> m.contains_key(
                                        (#[trigger] closure@[i])@,
                                    ),
                                forall|i: int|
                                    0 <= i < closure@.len() ==> spec_reaches(
                                        m,
                                        name@,
                                        (#[trigger] closure@[i])@,
                                    ),
                                m.contains_key(name@) ==> in_views(closure@, name@),
                                forall|i: int, d: int|
                                    0 <= i < closure@.len() && 0 <= d
                                        < m[closure@[i]@].devices.len() && m.contains_key(
                                        #[trigger] m[(#[trigger] closure@[i])@].devices[d],
                                    ) ==> in_views(closure@, m[closure@[i]@].devices[d]),
                                forall|k: int| 0 <= k < n ==> m.contains_key((#[trigger] games@[k])@),
                            decreases pn - pi,
                        {
                            let p = g.parts.part_at(pi);
                            parts.insert(*p);
                            proof {
                                g.parts.lemma_pairs();
                                assert(g.parts@.contains_key(g.parts.pairs()[pi as int].0));
                                assert(g@.parts == g.parts@);
                                assert(game_has_part(m[closure@[ci as int]@], *p));
                            }
                            pi = pi + 1;
                        }
                        proof {
                            g.parts.lemma_pairs();
                            assert forall|p: Part|
                                game_has_part(#[trigger] m[(#[trigger] closure@[ci as int])@], p)
                                implies parts@.contains(p) by {
                                let f = choose|f: Seq<char>|
                                    #[trigger] m[closure@[ci as int]@].parts.contains_key(f)
                                        && m[closure@[ci as int]@].parts[f] == p;
                                assert(g.parts@.contains_key(f));
                                let j = choose|j: int|
                                    0 <= j < g.parts.pairs().len() && (#[trigger] g.parts.pairs(
                                    )[j]).0 == f;
                                assert(g.parts.pairs()[j].1 == p);
                            }
                            assert forall|p: Part| parts@.contains(p) implies ((exists|
                                k: int,
                                gn: Seq<char>,
                            |
                                #![trigger spec_reaches(m, games@[k]@, gn)]
                                0 <= k < ni && spec_reaches(m, games@[k]@, gn) && m.contains_key(
                                    gn,
                                ) && game_has_part(m[gn], p)) || (exists|i: int|
                                0 <= i < ci + 1 && game_has_part(
                                    m[(#[trigger] closure@[i])@],
                                    p,
                                ))) by {
                                if !((exists|k: int, gn: Seq<char>|
                                    #![trigger spec_reaches(m, games@[k]@, gn)]
                                    0 <= k < ni && spec_reaches(m, games@[k]@, gn)
                                        && m.contains_key(gn) && game_has_part(m[gn], p)) || (
                                exists|i: int|
                                    0 <= i < ci && game_has_part(
                                        m[(#[trigger] closure@[i])@],
                                        p,
                                    ))) {
                                    let j = choose|j: int|
                                        0 <= j < g.parts.pairs().len() && (#[trigger] g.parts.pairs(
                                        )[j]).1 == p;
                                    assert(g.parts@.contains_key(g.parts.pairs()[j].0));
                                    assert(m[closure@[ci as int]@].parts.contains_key(
                                        g.parts.pairs()[j].0,
                                    ));
                                    assert(game_has_part(m[(closure@[ci as int])@], p));
                                }
                            }
                        }
                    },
                    None => {
                        proof {
                            assert(false);
                        }
                    },
                }
                ci = ci + 1;
            }
            proof {
                lemma_closure_complete(m, name@, closure@);
                assert forall|gn: Seq<char>, p: Part|
                    #![trigger spec_reaches(m, games@[ni as int]@, gn), game_has_part(m[gn], p)]
                    spec_reaches(m, games@[ni as int]@, gn) && m.contains_key(gn)
                        && game_has_part(m[gn], p) implies parts@.contains(p) by {
                    assert(in_views(closure@, gn));
                    let i = choose|i: int|
                        0 <= i < closure@.len() && (#[trigger] closure@[i])@ == gn;
                    assert(game_has_part(m[closure@[i]@], p));
                }
            }
            ni = ni + 1;
        }
        Ok(parts)
    }
}

/// The listings handed to game-level verification: per game name, the
/// directory's readable regular files, or `None` where the directory could
/// not be read.
pub open spec fn listings_view(ls: Seq<(String, Option<Vec<DirEntry>>)>) -> Seq<
    (Seq<char>, Option<Seq<DirEntryView>>),
> {
    ls.map_values(
        |e: (String, Option<Vec<DirEntry>>)|
            (
                e.0@,
                match e.1 {
                    Some(v) => Some(listing_view(v@)),
                    None => None,
                },
            ),
    )
}

/// The listing recorded for a name: the first record under it, or `None`
/// when no record names it.
pub open spec fn spec_listing_for(
    ls: Seq<(Seq<char>, Option<Seq<DirEntryView>>)>,
    name: Seq<char>,
) -> Option<Seq<DirEntryView>>
    decreases ls.len(),
{
    if ls.len() == 0 {
        None
    } else if ls.first().0 == name {
        ls.first().1
    } else {
        spec_listing_for(ls.drop_first(), name)
    }
}

/// The listing recorded for a name.
fn listing_for<'a>(listings: &'a Vec<(String, Option<Vec<DirEntry>>)>, name: &str) -> (r: Option<
    &'a Vec<DirEntry>,
>)
    ensures
        ({
            let s = spec_listing_for(listings_view(listings@), name@);
            match r {
                Some(v) => s == Some(listing_view(v@)),
                None => s is None,
            }
        }),
{
    let n: usize = listings.len();
    let mut i: usize = 0;
    proof {
        assert(listings_view(listings@).subrange(0, n as int) =~= listings_view(listings@));
    }
    while i < n
        invariant
            0 <= i <= n,
            n == listings@.len(),
            spec_listing_for(listings_view(listings@), name@) == spec_listing_for(
                listings_view(listings@).subrange(i as int, n as int),
                name@,
            ),
        decreases n - i,
    {
        let e = &listings[i];
        proof {
            let tail = listings_view(listings@).subrange(i as int, n as int);
            assert(tail.first() == listings_view(listings@)[i as int]);
            assert(tail.drop_first() =~= listings_view(listings@).subrange(i + 1, n as int));
        }
        let same = crate::text::bytes_eq(e.0.as_str().as_bytes(), name.as_bytes());
        if same {
            proof {
                vstd::utf8::encode_utf8_decode_utf8(e.0@);
                vstd::utf8::encode_utf8_decode_utf8(name@);
            }
            return (match &e.1 {
                Some(v) => Some(v),
                None => None,
            });
        }
        i = i + 1;
    }
    None
}

/// A manifest pairs list that lists a map exactly, each filename once.
pub open spec fn pairs_match_map(
    pairs: Seq<(Seq<char>, Part)>,
    m: Map<Seq<char>, Part>,
) -> bool {
    &&& forall|i: int|
        0 <= i < pairs.len() ==> m.contains_key((#[trigger] pairs[i]).0) && m[pairs[i].0]
            == pairs[i].1
    &&& forall|k: Seq<char>|
        m.contains_key(k) ==> exists|i: int|
            0 <= i < pairs.len() && (#[trigger] pairs[i]).0 == k
    &&& forall|i: int, j: int| 0 <= i < j < pairs.len() ==> pairs[i].0 != pairs[j].0
}

/// The concatenated classification of a list of games, each against its own
/// directory under the root.
pub open spec fn spec_concat_classify(
    manifests: Seq<Seq<(Seq<char>, Part)>>,
    order: Seq<Seq<char>>,
    listings: Seq<(Seq<char>, Option<Seq<DirEntryView>>)>,
    root: Seq<char>,
) -> Seq<FailureView>
    decreases order.len(),
{
    if order.len() == 0 {
        Seq::empty()
    } else {
        spec_concat_classify(manifests.drop_last(), order.drop_last(), listings, root)
            + spec_classify(
            manifests.last(),
            spec_listing_for(listings, order.last()),
            spec_join(root, order.last()),
        )
    }
}

impl GameDb {
    /// Verify one catalog entry and every device it transitively references:
    /// the classifications of their directories under the root, one after
    /// another, each entry once. The caller provides the directory listings
    /// it could read; a name without a record, like one whose record is
    /// `None`, counts as an unreadable directory.
    pub fn verify_game(
        &self,
        root: &str,
        game_name: &String,
        listings: &Vec<(String, Option<Vec<DirEntry>>)>,
    ) -> (r: Vec<VerifyFailure<String>>)
        requires
            self.wf(),
        ensures
            exists|order: Seq<Seq<char>>, manifests: Seq<Seq<(Seq<char>, Part)>>|
                #![trigger spec_concat_classify(manifests, order, listings_view(listings@), root@)]
                {
                    &&& order.no_duplicates()
                    &&& manifests.len() == order.len()
                    &&& forall|k: int|
                        0 <= k < order.len() ==> self.games@.contains_key(#[trigger] order[k])
                    &&& forall|k: int|
                        0 <= k < order.len() ==> spec_reaches(
                            self.games@,
                            game_name@,
                            #[trigger] order[k],
                        )
                    &&& (self.games@.contains_key(game_name@) ==> order.contains(game_name@))
                    &&& (!self.games@.contains_key(game_name@) ==> order.len() == 0)
                    &&& forall|k: int, d: int|
                        0 <= k < order.len() && 0 <= d < self.games@[order[k]].devices.len()
                            && self.games@.contains_key(
                            #[trigger] self.games@[#[trigger] order[k]].devices[d],
                        ) ==> order.contains(self.games@[order[k]].devices[d])
                    &&& forall|k: int|
                        0 <= k < order.len() ==> pairs_match_map(
                            #[trigger] manifests[k],
                            self.games@[order[k]].parts,
                        )
                    &&& failures_view(r@) == spec_concat_classify(
                        manifests,
                        order,
                        listings_view(listings@),
                        root@,
                    )
                },
    {
        let ghost m = self.games@;
        let closure = self.device_closure(game_name);
        let mut failures: Vec<VerifyFailure<String>> = Vec::new();
        let ghost mut ord: Seq<Seq<char>> = Seq::empty();
        let ghost mut mans: Seq<Seq<(Seq<char>, Part)>> = Seq::empty();
        let cn: usize = closure.len();
        let mut ci: usize = 0;
        proof {
            assert(failures_view(failures@) =~= spec_concat_classify(
                mans,
                ord,
                listings_view(listings@),
                root@,
            ));
        }
        while ci < cn
            invariant
                0 <= ci <= cn,
                self.wf(),
                m == self.games@,
                cn == closure@.len(),
                ord.len() == ci,
                mans.len() == ci,
                forall|k: int| 0 <= k < ci ==> ord[k] == (#[trigger] closure@[k])@,
                forall|i: int, j: int|
                    0 <= i < j < closure@.len() ==> (#[trigger] closure@[i])@ != (
                    #[trigger] closure@[j])@,
                forall|i: int|
                    0 <= i < closure@.len() ==> m.contains_key((#[trigger] closure@[i])@),
                forall|i: int|
                    0 <= i < closure@.len() ==> spec_reaches(m, game_name@, (#[trigger] closure@[i])@),
                m.contains_key(game_name@) ==> in_views(closure@, game_name@),
                !m.contains_key(game_name@) ==> closure@.len() == 0,
                forall|i: int, d: int|
                    0 <= i < closure@.len() && 0 <= d < m[closure@[i]@].devices.len()
                        && m.contains_key(#[trigger] m[(#[trigger] closure@[i])@].devices[d])
                        ==> in_views(closure@, m[closure@[i]@].devices[d]),
                forall|k: int|
                    0 <= k < ci ==> pairs_match_map(#[trigger] mans[k], m[ord[k]].parts),
                failures_view(failures@) == spec_concat_classify(
                    mans,
                    ord,
                    listings_view(listings@),
                    root@,
                ),
            decreases cn - ci,
        {
            let cname = &closure[ci];
            match self.games.get(cname.as_str()) {
                Some(g) => {
                    let listing = listing_for(listings, cname.as_str());
                    let game_root = join_path(root, cname.as_str());
                    let mut fs = g.verify(game_root.as_str(), listing);
                    let ghost fs_view = failures_view(fs@);
                    let ghost failures0 = failures_view(failures@);
                    failures.append(&mut fs);
                    proof {
                        g.parts.lemma_pairs();
                        let ord2 = ord.push(cname@);
                        let mans2 = mans.push(g.parts.pairs());
                        assert(ord2.drop_last() =~= ord);
                        assert(mans2.drop_last() =~= mans);
                        assert(failures_view(failures@) =~= failures0 + fs_view);
                        assert(spec_concat_classify(mans2, ord2, listings_view(listings@), root@)
                            == failures0 + spec_classify(
                            g.parts.pairs(),
                            spec_listing_for(listings_view(listings@), cname@),
                            spec_join(root@, cname@),
                        ));
                        assert(fs_view == spec_classify(
                            g.parts.pairs(),
                            spec_listing_for(listings_view(listings@), cname@),
                            spec_join(root@, cname@),
                        ));
                        ord = ord2;
                        mans = mans2;
                    }
                },
                None => {
                    proof {
                        assert(false);
                    }
                },
            }
            ci = ci + 1;
        }
        proof {
            let cv = closure@.map_values(|s2: String| s2@);
            assert(ord =~= cv);
            assert forall|i: int, j: int| 0 <= i < j < ord.len() implies ord[i] != ord[j] by {
                assert(ord[i] == closure@[i]@);
                assert(ord[j] == closure@[j]@);
            }
            assert(ord.no_duplicates());
            if m.contains_key(game_name@) {
                let i = choose|i: int|
                    0 <= i < closure@.len() && (#[trigger] closure@[i])@ == game_name@;
                assert(ord[i] == game_name@);
                assert(ord.contains(game_name@));
            }
            assert forall|k: int, d: int|
                0 <= k < ord.len() && 0 <= d < m[ord[k]].devices.len() && m.contains_key(
                    #[trigger] m[#[trigger] ord[k]].devices[d],
                ) implies ord.contains(m[ord[k]].devices[d]) by {
                assert(ord[k] == closure@[k]@);
                assert(in_views(closure@, m[closure@[k]@].devices[d]));
                let i = choose|i: int|
                    0 <= i < closure@.len() && (#[trigger] closure@[i])@
                        == m[closure@[k]@].devices[d];
                assert(ord[i] == m[ord[k]].devices[d]);
            }
        }
        failures
    }
}

/// The report rows of a list of names, one per name the catalog holds, in
/// the order given.
pub open spec fn spec_games_rows(
    games: Map<Seq<char>, GameView>,
    names: Seq<Seq<char>>,
    simple: bool,
) -> Seq<RowView>
    decreases names.len(),
{
    if names.len() == 0 {
        Seq::empty()
    } else {
        let rest = spec_games_rows(games, names.drop_last(), simple);
        let n = names.last();
        if games.contains_key(n) {
            rest.push(spec_report(games[n], simple))
        } else {
            rest
        }
    }
}

impl GameDb {
    /// The report rows of the given names, one per name the catalog holds,
    /// in the order given.
    pub fn games(&self, games: &Vec<String>, simple: bool) -> (r: Vec<GameRow<'_>>)
        requires
            self.wf(),
        ensures
            r@.map_values(|row: GameRow| row@) == spec_games_rows(
                self.games@,
                games@.map_values(|n: String| n@),
                simple,
            ),
    {
        let ghost nv = games@.map_values(|n: String| n@);
        let mut out: Vec<GameRow<'_>> = Vec::new();
        let n: usize = games.len();
        let mut i: usize = 0;
        proof {
            assert(out@.map_values(|row: GameRow| row@) =~= spec_games_rows(
                self.games@,
                nv.subrange(0, 0),
                simple,
            ));
        }
        while i < n
            invariant
                0 <= i <= n,
                self.wf(),
                n == games@.len(),
                nv == games@.map_values(|n2: String| n2@),
                out@.map_values(|row: GameRow| row@) == spec_games_rows(
                    self.games@,
                    nv.subrange(0, i as int),
                    simple,
                ),
            decreases n - i,
        {
            proof {
                assert(nv.subrange(0, i + 1).drop_last() =~= nv.subrange(0, i as int));
                assert(nv.subrange(0, i + 1).last() == nv[i as int]);
            }
            match self.games.get(games[i].as_str()) {
                Some(g) => {
                    out.push(g.report(simple));
                },
                None => {},
            }
            proof {
                assert(out@.map_values(|row: GameRow| row@) =~= spec_games_rows(
                    self.games@,
                    nv.subrange(0, i + 1),
                    simple,
                ));
            }
            i = i + 1;
        }
        proof {
            assert(nv.subrange(0, n as int) =~= nv);
        }
        out
    }
}

/// The expected filename for a part: the last manifest entry expecting the
/// part names the target, mirroring how a later entry overrides an earlier
/// one when an index is built over the manifest.
pub open spec fn spec_part_target(manifest: Seq<(Seq<char>, Part)>, part: Part) -> Option<
    Seq<char>,
>
    decreases manifest.len(),
{
    if manifest.len() == 0 {
        None
    } else if manifest.last().1 == part {
        Some(manifest.last().0)
    } else {
        spec_part_target(manifest.drop_last(), part)
    }
}

/// The identified files of a directory, as path and identity pairs.
pub open spec fn ident_entries_view(s: Seq<(String, Result<Part, IoError>)>) -> Seq<
    (Seq<char>, Result<Part, IoError>),
> {
    s.map_values(|e: (String, Result<Part, IoError>)| (e.0@, e.1))
}

/// The moves that bring misfiled files onto their expected names: each
/// identified file whose part the manifest expects moves onto the expected
/// filename under the directory.
pub open spec fn spec_rename_moves(
    manifest: Seq<(Seq<char>, Part)>,
    entries: Seq<(Seq<char>, Result<Part, IoError>)>,
    target_dir: Seq<char>,
) -> Seq<(Seq<char>, Seq<char>)>
    decreases entries.len(),
{
    if entries.len() == 0 {
        Seq::empty()
    } else {
        let rest = spec_rename_moves(manifest, entries.drop_last(), target_dir);
        match entries.last().1 {
            Ok(p) => match spec_part_target(manifest, p) {
                Some(name) => rest.push((entries.last().0, spec_join(target_dir, name))),
                None => rest,
            },
            Err(_) => rest,
        }
    }
}

/// The expected filename for a part, scanning the manifest from the end.
fn find_part_name<'a>(parts: &'a PartsMap, part: &Part) -> (r: Option<&'a String>)
    requires
        parts.wf(),
    ensures
        (match r {
            Some(name) => spec_part_target(parts.pairs(), *part) == Some(name@),
            None => spec_part_target(parts.pairs(), *part) is None,
        }),
{
    let n: usize = parts.len();
    let mut j: usize = n;
    proof {
        assert(parts.pairs().subrange(0, n as int) =~= parts.pairs());
    }
    while j > 0
        invariant
            0 <= j <= n,
            parts.wf(),
            n == parts.pairs().len(),
            spec_part_target(parts.pairs(), *part) == spec_part_target(
                parts.pairs().subrange(0, j as int),
                *part,
            ),
        decreases j,
    {
        proof {
            assert(parts.pairs().subrange(0, j as int).last() == parts.pairs()[j - 1]);
            assert(parts.pairs().subrange(0, j as int).drop_last() =~= parts.pairs().subrange(
                0,
                j - 1,
            ));
        }
        let found = *parts.part_at(j - 1) == *part;
        if found {
            return Some(parts.name_at(j - 1));
        }
        j = j - 1;
    }
    None
}

impl Game {
    /// Plan the renames that bring misfiled files of this entry's directory
    /// onto their expected names: each identified file whose part the
    /// manifest expects moves onto the expected filename under the
    /// directory. The caller performs the moves.
    pub fn rename_plan(&self, target_dir: &str, entries: &Vec<(String, Result<Part, IoError>)>)
        -> (r: Vec<(String, String)>)
        requires
            self.wf(),
        ensures
            r@.map_values(|mv: (String, String)| (mv.0@, mv.1@)) == spec_rename_moves(
                self.parts.pairs(),
                ident_entries_view(entries@),
                target_dir@,
            ),
    {
        let mut out: Vec<(String, String)> = Vec::new();
        let n: usize = entries.len();
        let mut i: usize = 0;
        proof {
            assert(out@.map_values(|mv: (String, String)| (mv.0@, mv.1@)) =~= spec_rename_moves(
                self.parts.pairs(),
                ident_entries_view(entries@).subrange(0, 0),
                target_dir@,
            ));
        }
        while i < n
            invariant
                0 <= i <= n,
                self.wf(),
                n == entries@.len(),
                out@.map_values(|mv: (String, String)| (mv.0@, mv.1@)) == spec_rename_moves(
                    self.parts.pairs(),
                    ident_entries_view(entries@).subrange(0, i as int),
                    target_dir@,
                ),
            decreases n - i,
        {
            proof {
                assert(ident_entries_view(entries@).subrange(0, i + 1).drop_last()
                    =~= ident_entries_view(entries@).subrange(0, i as int));
                assert(ident_entries_view(entries@).subrange(0, i + 1).last()
                    == ident_entries_view(entries@)[i as int]);
            }
            let e = &entries[i];
            match &e.1 {
                Ok(part) => {
                    match find_part_name(&self.parts, part) {
                        Some(name) => {
                            out.push((e.0.clone(), join_path(target_dir, name.as_str())));
                        },
                        None => {},
                    }
                },
                Err(_) => {},
            }
            proof {
                assert(out@.map_values(|mv: (String, String)| (mv.0@, mv.1@))
                    =~= spec_rename_moves(
                    self.parts.pairs(),
                    ident_entries_view(entries@).subrange(0, i + 1),
                    target_dir@,
                ));
            }
            i = i + 1;
        }
        proof {
            assert(ident_entries_view(entries@).subrange(0, n as int) =~= ident_entries_view(
                entries@,
            ));
        }
        out
    }
}

impl GameDb {
    /// The report rows of the catalog, sorted by the chosen column: one per
    /// entry that is not a device, simplified and search-filtered on
    /// request. Rendering is the caller's.
    pub fn list(&self, search: Option<&str>, sort: crate::row::GameColumn, simple: bool) -> (r:
        Vec<GameRow<'_>>)
        requires
            self.wf(),
        ensures
            crate::row::rows_view(r@).to_multiset() == spec_list_rows(
                self.games.pairs(),
                (match search {
                    Some(s) => Some(s@),
                    None => None,
                }),
                simple,
            ).to_multiset(),
            vstd::relations::sorted_by(crate::row::rows_view(r@), crate::row::row_leq(sort)),
    {
        crate::row::sort_rows(self.list_results(search, simple), sort)
    }

    /// The report rows of a set of names, sorted by the chosen column: one
    /// per name the catalog holds under an entry that is not a device,
    /// search-filtered on request. Rendering is the caller's.
    pub fn report(
        &self,
        games: &Vec<String>,
        search: Option<&str>,
        sort: crate::row::GameColumn,
        simple: bool,
    ) -> (r: Vec<GameRow<'_>>)
        requires
            self.wf(),
        ensures
            crate::row::rows_view(r@).to_multiset() == spec_report_rows(
                self.games@,
                games@.map_values(|n: String| n@),
                (match search {
                    Some(s) => Some(s@),
                    None => None,
                }),
                simple,
            ).to_multiset(),
            vstd::relations::sorted_by(crate::row::rows_view(r@), crate::row::row_leq(sort)),
    {
        crate::row::sort_rows(self.report_results(games, search, simple), sort)
    }
}

} // verus!
