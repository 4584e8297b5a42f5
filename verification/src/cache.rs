use vstd::prelude::*;

use crate::failures::{spec_verify, VerifyFailure};
use crate::part::Part;
use crate::IoError;

verus! {

/// A (device, inode) pair naming an underlying file regardless of the path
/// it was reached through.
#[derive(Clone, Copy, Debug, Hash, PartialEq, Eq, Structural)]
pub struct FileId {
    pub dev: u64,
    pub ino: u64,
}

/// The mapping an association list denotes; later entries win.
pub open spec fn entries_map(s: Seq<(FileId, Part)>) -> Map<FileId, Part>
    decreases s.len(),
{
    if s.len() == 0 {
        Map::empty()
    } else {
        entries_map(s.drop_last()).insert(s.last().0, s.last().1)
    }
}

/// No two entries share a key.
pub open spec fn entries_unique(s: Seq<(FileId, Part)>) -> bool {
    forall|i: int, j: int| 0 <= i < j < s.len() ==> s[i].0 != s[j].0
}

proof fn lemma_entries_map_get(s: Seq<(FileId, Part)>, i: int)
    requires
        entries_unique(s),
        0 <= i < s.len(),
    ensures
        entries_map(s).contains_key(s[i].0),
        entries_map(s)[s[i].0] == s[i].1,
    decreases s.len(),
{
    if i == s.len() - 1 {
    } else {
        assert(s.drop_last()[i] == s[i]);
        lemma_entries_map_get(s.drop_last(), i);
    }
}

proof fn lemma_entries_map_absent(s: Seq<(FileId, Part)>, id: FileId)
    requires
        forall|i: int| 0 <= i < s.len() ==> s[i].0 != id,
    ensures
        !entries_map(s).contains_key(id),
    decreases s.len(),
{
    if s.len() > 0 {
        assert(forall|i: int|
            0 <= i < s.drop_last().len() ==> s.drop_last()[i] == s[i]);
        lemma_entries_map_absent(s.drop_last(), id);
    }
}

/// The in-process identity cache: a map from underlying file to identity,
/// so that repeated verification of one file hashes it at most once.
pub struct PartCache {
    entries: Vec<(FileId, Part)>,
}

impl View for PartCache {
    type V = Map<FileId, Part>;

    closed spec fn view(&self) -> Map<FileId, Part> {
        entries_map(self.entries@)
    }
}

impl PartCache {
    /// Each underlying file is remembered at most once.
    pub closed spec fn wf(&self) -> bool {
        entries_unique(self.entries@)
    }

    /// An empty cache.
    pub fn new() -> (r: Self)
        ensures
            r.wf(),
            r@ == Map::<FileId, Part>::empty(),
    {
        PartCache { entries: Vec::new() }
    }

    /// The remembered identity of the file named by `id`, if any.
    pub fn get(&self, id: FileId) -> (r: Option<Part>)
        requires
            self.wf(),
        ensures
            (match r {
                Some(p) => self@.contains_key(id) && self@[id] == p,
                None => !self@.contains_key(id),
            }),
    {
        let n: usize = self.entries.len();
        let mut i: usize = 0;
        while i < n
            invariant
                0 <= i <= n,
                n == self.entries@.len(),
                self.wf(),
                forall|j: int| 0 <= j < i ==> self.entries@[j].0 != id,
            decreases n - i,
        {
            let e = &self.entries[i];
            if e.0 == id {
                proof {
                    lemma_entries_map_get(self.entries@, i as int);
                }
                return Some(e.1);
            }
            i = i + 1;
        }
        proof {
            lemma_entries_map_absent(self.entries@, id);
        }
        None
    }

    /// Remember the identity of a file not yet in the cache.
    pub fn insert(&mut self, id: FileId, part: Part)
        requires
            old(self).wf(),
            !old(self)@.contains_key(id),
        ensures
            final(self).wf(),
            final(self)@ == old(self)@.insert(id, part),
    {
        proof {
            assert forall|i: int| 0 <= i < self.entries@.len() implies self.entries@[i].0 != id by {
                lemma_entries_map_get(self.entries@, i);
            }
        }
        self.entries.push((id, part));
        proof {
            assert(self.entries@.drop_last() =~= old(self).entries@);
        }
    }
}

impl Part {
    /// Verify an on-disk file against this expected identity without any
    /// memoization: the caller's freshly computed identity decides.
    pub fn verify_uncached<P>(&self, actual: Result<Part, IoError>, part_path: P) -> (r: Result<
        (),
        VerifyFailure<P>,
    >)
        ensures
            r == spec_verify(*self, actual, part_path),
    {
        self.verify(actual, part_path)
    }

    /// Verify an on-disk file against this expected identity through the
    /// in-process cache: a remembered identity for the same underlying file
    /// is used as is; otherwise the computed identity decides and, when it
    /// exists, is remembered.
    pub fn verify_cached<P>(
        &self,
        cache: &mut PartCache,
        id: FileId,
        computed: Result<Part, IoError>,
        part_path: P,
    ) -> (r: Result<(), VerifyFailure<P>>)
        requires
            old(cache).wf(),
        ensures
            final(cache).wf(),
            r == spec_verify(*self, cache_effective(old(cache)@, id, computed), part_path),
            final(cache)@ == (if old(cache)@.contains_key(id) {
                old(cache)@
            } else {
                match computed {
                    Ok(a) => old(cache)@.insert(id, a),
                    Err(_) => old(cache)@,
                }
            }),
    {
        match cache.get(id) {
            Some(p) => self.verify(Ok(p), part_path),
            None => {
                let r = self.verify(computed, part_path);
                if let Ok(a) = computed {
                    cache.insert(id, a);
                }
                r
            },
        }
    }
}

/// The identity that cached verification acts on: the remembered one when the
/// underlying file is in the cache, else the freshly computed one.
pub open spec fn cache_effective(
    cache: Map<FileId, Part>,
    id: FileId,
    computed: Result<Part, IoError>,
) -> Result<Part, IoError> {
    if cache.contains_key(id) {
        Ok(cache[id])
    } else {
        computed
    }
}

/// A cache entry is consistent when it remembers exactly what fresh
/// computation returns for the same underlying file.
pub open spec fn cache_consistent(
    cache: Map<FileId, Part>,
    id: FileId,
    computed: Result<Part, IoError>,
) -> bool {
    cache.contains_key(id) ==> computed == Ok::<Part, IoError>(cache[id])
}

/// Cache transparency: whenever the cache is consistent with fresh
/// computation, cached and uncached verification return the same result.
pub proof fn lemma_cache_transparency<P>(
    expected: Part,
    cache: Map<FileId, Part>,
    id: FileId,
    computed: Result<Part, IoError>,
    path: P,
)
    requires
        cache_consistent(cache, id, computed),
    ensures
        spec_verify(expected, cache_effective(cache, id, computed), path) == spec_verify(
            expected,
            computed,
            path,
        ),
{
}

} // verus!
