use vstd::prelude::*;

use crate::failures::{failures_view, FailureView, VerifyFailure};
use crate::part::Part;
use crate::sources::{RomSource, RomSourceView, RomSources};
use crate::IoError;

verus! {

/// How the reconciler found one expected file on disk.
pub enum EntryState {
    /// No file with the expected name exists.
    Absent,
    /// The file exists and already has the expected identity.
    Correct,
    /// The file exists but does not verify; the failure that plain
    /// verification recorded for it.
    Incorrect { failure: VerifyFailure<String> },
}

/// Mathematical value of an entry state.
pub enum EntryStateView {
    Absent,
    Correct,
    Incorrect { failure: FailureView },
}

impl View for EntryState {
    type V = EntryStateView;

    open spec fn view(&self) -> EntryStateView {
        match self {
            EntryState::Absent => EntryStateView::Absent,
            EntryState::Correct => EntryStateView::Correct,
            EntryState::Incorrect { failure } => EntryStateView::Incorrect { failure: failure@ },
        }
    }
}

/// What the reconciler does for one expected file.
pub enum StepDecision {
    /// The file on disk already has the expected identity: leave it alone.
    Keep,
    /// Nothing can repair the file: record this failure.
    Record { failure: VerifyFailure<String> },
    /// Extract the located source onto the target path, deleting the wrong
    /// file first when one is in the way.
    Extract { source: RomSource, remove_first: bool },
}

/// Mathematical value of a reconciler decision.
pub enum StepDecisionView {
    Keep,
    Record { failure: FailureView },
    Extract { source: RomSourceView, remove_first: bool },
}

impl View for StepDecision {
    type V = StepDecisionView;

    open spec fn view(&self) -> StepDecisionView {
        match self {
            StepDecision::Keep => StepDecisionView::Keep,
            StepDecision::Record { failure } => StepDecisionView::Record { failure: failure@ },
            StepDecision::Extract { source, remove_first } => StepDecisionView::Extract {
                source: source@,
                remove_first: *remove_first,
            },
        }
    }
}

/// The reconciler's decision for one expected file: a correct file is kept;
/// a wrong or absent file is repaired from the source index when the index
/// locates the expected part, deleting a wrong file first; with no source,
/// the verification failure stands (a wrong file is never deleted).
pub open spec fn spec_reconcile_decide(
    sources: Map<Part, RomSourceView>,
    part: Part,
    target: Seq<char>,
    state: EntryStateView,
) -> StepDecisionView {
    match state {
        EntryStateView::Correct => StepDecisionView::Keep,
        EntryStateView::Absent => if sources.contains_key(part) {
            StepDecisionView::Extract { source: sources[part], remove_first: false }
        } else {
            StepDecisionView::Record {
                failure: FailureView::Missing { path: target, part },
            }
        },
        EntryStateView::Incorrect { failure } => if sources.contains_key(part) {
            StepDecisionView::Extract { source: sources[part], remove_first: true }
        } else {
            StepDecisionView::Record { failure }
        },
    }
}

/// Decide what to do for one expected file.
pub fn reconcile_decide(
    sources: &RomSources,
    part: &Part,
    target: &String,
    state: EntryState,
) -> (r: StepDecision)
    requires
        sources.wf(),
    ensures
        r@ == spec_reconcile_decide(sources@, *part, target@, state@),
{
    match state {
        EntryState::Correct => StepDecision::Keep,
        EntryState::Absent => {
            match sources.get(part) {
                Some(src) => StepDecision::Extract { source: src.duplicate(), remove_first: false },
                None => StepDecision::Record {
                    failure: VerifyFailure::Missing { path: target.clone(), part: *part },
                },
            }
        },
        EntryState::Incorrect { failure } => {
            match sources.get(part) {
                Some(src) => StepDecision::Extract { source: src.duplicate(), remove_first: true },
                None => StepDecision::Record { failure },
            }
        },
    }
}

/// Reported outcome of one extraction.
#[derive(Clone, Copy, Debug, PartialEq, Eq, Structural)]
pub enum Extracted {
    /// The content was written by a full byte copy.
    Copied,
    /// The target was hardlinked to a plain file source; the flag says
    /// whether that source already carries its identity attribute.
    Linked { has_xattr: bool },
}

/// After a successful extraction, update the source index so that later
/// expected files of the same part can hardlink from the just-written
/// target, and say whether the identity attribute must still be written on
/// the target. A hardlinked target shares the source's attribute; a copied
/// target becomes the part's preferred source once its attribute is set.
pub fn reconcile_update(
    sources: &mut RomSources,
    part: &Part,
    target: &String,
    outcome: Extracted,
) -> (write_xattr: bool)
    requires
        old(sources).wf(),
    ensures
        final(sources).wf(),
        (match outcome {
            Extracted::Copied => final(sources)@ == old(sources)@.insert(
                *part,
                (RomSourceView::File { file: target@, has_xattr: true }),
            ) && write_xattr,
            Extracted::Linked { has_xattr } => final(sources)@ == old(sources)@ && write_xattr
                == !has_xattr,
        }),
{
    match outcome {
        Extracted::Copied => {
            sources.insert(*part, RomSource::File { file: target.clone(), has_xattr: true });
            true
        },
        Extracted::Linked { has_xattr } => !has_xattr,
    }
}

/// One repair action of the cleanup pass.
pub enum CleanupAction {
    /// Rename an extra file onto a missing file's path.
    RenameToMissing { from: String, to: String, part: Part },
    /// Delete a file with the wrong identity, then rename an extra file onto
    /// its path.
    ReplaceBad { from: String, to: String, expected: Part, actual: Part },
    /// Delete an extra file nothing claimed.
    Delete { path: String, part: Part },
}

/// Mathematical value of a cleanup action.
pub enum CleanupActionView {
    RenameToMissing { from: Seq<char>, to: Seq<char>, part: Part },
    ReplaceBad { from: Seq<char>, to: Seq<char>, expected: Part, actual: Part },
    Delete { path: Seq<char>, part: Part },
}

impl View for CleanupAction {
    type V = CleanupActionView;

    open spec fn view(&self) -> CleanupActionView {
        match self {
            CleanupAction::RenameToMissing { from, to, part } => CleanupActionView::RenameToMissing {
                from: from@,
                to: to@,
                part: *part,
            },
            CleanupAction::ReplaceBad { from, to, expected, actual } => CleanupActionView::ReplaceBad {
                from: from@,
                to: to@,
                expected: *expected,
                actual: *actual,
            },
            CleanupAction::Delete { path, part } => CleanupActionView::Delete {
                path: path@,
                part: *part,
            },
        }
    }
}

/// The action views of an action list.
pub open spec fn actions_view(s: Seq<CleanupAction>) -> Seq<CleanupActionView> {
    s.map_values(|a: CleanupAction| a@)
}

/// An extra failure whose identity was computed, so another entry can claim
/// its file.
pub open spec fn is_claimable_extra(f: FailureView) -> bool {
    f matches FailureView::Extra { part: Ok(_), .. }
}

/// The claimable extras of a failure list, as a map from identity to path;
/// on equal identities the later failure wins.
pub open spec fn spec_extras(fs: Seq<FailureView>) -> Map<Part, Seq<char>>
    decreases fs.len(),
{
    if fs.len() == 0 {
        Map::empty()
    } else {
        let rest = spec_extras(fs.drop_last());
        match fs.last() {
            FailureView::Extra { path, part } => match part {
                Ok(p) => rest.insert(p, path),
                Err(_) => rest,
            },
            _ => rest,
        }
    }
}

/// The failures that remain to be matched against the extras, in order.
pub open spec fn spec_to_cleanup(fs: Seq<FailureView>) -> Seq<FailureView>
    decreases fs.len(),
{
    if fs.len() == 0 {
        Seq::empty()
    } else {
        spec_to_cleanup(fs.drop_last()) + (if is_claimable_extra(fs.last()) {
            Seq::empty()
        } else {
            seq![fs.last()]
        })
    }
}

/// The mapping an extras association list denotes; later entries win.
pub open spec fn extras_map_of(s: Seq<(Part, String)>) -> Map<Part, Seq<char>>
    decreases s.len(),
{
    if s.len() == 0 {
        Map::empty()
    } else {
        extras_map_of(s.drop_last()).insert(s.last().0, s.last().1@)
    }
}

pub open spec fn extras_unique(s: Seq<(Part, String)>) -> bool {
    forall|i: int, j: int| 0 <= i < j < s.len() ==> s[i].0 != s[j].0
}

proof fn lemma_extras_map_get(s: Seq<(Part, String)>, i: int)
    requires
        extras_unique(s),
        0 <= i < s.len(),
    ensures
        extras_map_of(s).contains_key(s[i].0),
        extras_map_of(s)[s[i].0] == s[i].1@,
    decreases s.len(),
{
    if i == s.len() - 1 {
    } else {
        assert(s.drop_last()[i] == s[i]);
        lemma_extras_map_get(s.drop_last(), i);
    }
}

proof fn lemma_extras_map_absent(s: Seq<(Part, String)>, part: Part)
    requires
        forall|i: int| 0 <= i < s.len() ==> s[i].0 != part,
    ensures
        !extras_map_of(s).contains_key(part),
    decreases s.len(),
{
    if s.len() > 0 {
        assert(forall|i: int| 0 <= i < s.drop_last().len() ==> s.drop_last()[i] == s[i]);
        lemma_extras_map_absent(s.drop_last(), part);
    }
}

proof fn lemma_extras_map_remove(s: Seq<(Part, String)>, i: int)
    requires
        extras_unique(s),
        0 <= i < s.len(),
    ensures
        extras_unique(s.remove(i)),
        extras_map_of(s.remove(i)) == extras_map_of(s).remove(s[i].0),
    decreases s.len(),
{
    assert(forall|a: int|
        0 <= a < s.remove(i).len() ==> #[trigger] s.remove(i)[a] == (if a < i {
            s[a]
        } else {
            s[a + 1]
        }));
    if i == s.len() - 1 {
        assert(s.remove(i) =~= s.drop_last());
        assert(forall|j: int| 0 <= j < s.drop_last().len() ==> s.drop_last()[j] == s[j]);
        lemma_extras_map_absent(s.drop_last(), s[i].0);
        assert(extras_map_of(s.drop_last()).insert(s.last().0, s.last().1@).remove(s[i].0)
            =~= extras_map_of(s.drop_last()));
    } else {
        let t = s.remove(i);
        assert(t.drop_last() =~= s.drop_last().remove(i));
        assert(t.last() == s.last());
        assert(forall|j: int| 0 <= j < s.drop_last().len() ==> s.drop_last()[j] == s[j]);
        lemma_extras_map_remove(s.drop_last(), i);
        assert(s.last().0 != s[i].0);
        assert(extras_map_of(s.drop_last()).remove(s[i].0).insert(s.last().0, s.last().1@)
            =~= extras_map_of(s.drop_last()).insert(s.last().0, s.last().1@).remove(s[i].0));
    }
}

/// The claimable extras gathered by the cleanup pass, keyed by identity.
struct ExtrasMap {
    entries: Vec<(Part, String)>,
}

impl View for ExtrasMap {
    type V = Map<Part, Seq<char>>;

    closed spec fn view(&self) -> Map<Part, Seq<char>> {
        extras_map_of(self.entries@)
    }
}

impl ExtrasMap {
    spec fn wf(&self) -> bool {
        extras_unique(self.entries@)
    }

    fn new() -> (r: Self)
        ensures
            r.wf(),
            r@ == Map::<Part, Seq<char>>::empty(),
    {
        ExtrasMap { entries: Vec::new() }
    }

    fn insert(&mut self, part: Part, path: String)
        requires
            old(self).wf(),
        ensures
            final(self).wf(),
            final(self)@ == old(self)@.insert(part, path@),
    {
        let n: usize = self.entries.len();
        let mut i: usize = 0;
        while i < n
            invariant
                0 <= i <= n,
                n == self.entries@.len(),
                self.wf(),
                self.entries@ == old(self).entries@,
                forall|j: int| 0 <= j < i ==> self.entries@[j].0 != part,
            decreases n - i,
        {
            if self.entries[i].0 == part {
                let ghost before = self.entries@;
                proof {
                    lemma_extras_map_remove(before, i as int);
                }
                self.entries.remove(i);
                self.entries.push((part, path));
                proof {
                    let rem = before.remove(i as int);
                    assert(self.entries@.drop_last() =~= rem);
                    assert(self.entries@.last() == (part, path));
                    assert forall|j: int| 0 <= j < rem.len() implies rem[j].0 != part by {
                        if j < i {
                            assert(rem[j] == before[j]);
                        } else {
                            assert(rem[j] == before[j + 1]);
                        }
                    }
                    assert forall|a: int, b: int|
                        0 <= a < b < self.entries@.len() implies self.entries@[a].0
                        != self.entries@[b].0 by {
                        assert(self.entries@[a] == rem[a]);
                        if b < self.entries@.len() - 1 {
                            assert(self.entries@[b] == rem[b]);
                        }
                    }
                    lemma_extras_map_absent(rem, part);
                    assert(extras_map_of(self.entries@) == extras_map_of(rem).insert(part, path@));
                    assert(extras_map_of(before).remove(part).insert(part, path@)
                        =~= extras_map_of(before).insert(part, path@));
                }
                return ;
            }
            i = i + 1;
        }
        proof {
            lemma_extras_map_absent(self.entries@, part);
        }
        self.entries.push((part, path));
        proof {
            assert(self.entries@.drop_last() =~= old(self).entries@);
        }
    }

    /// Take the path stored for a part out of the map.
    fn remove(&mut self, part: &Part) -> (r: Option<String>)
        requires
            old(self).wf(),
        ensures
            final(self).wf(),
            (match r {
                Some(path) => old(self)@.contains_key(*part) && old(self)@[*part] == path@
                    && final(self)@ == old(self)@.remove(*part),
                None => !old(self)@.contains_key(*part) && final(self)@ == old(self)@,
            }),
    {
        let n: usize = self.entries.len();
        let mut i: usize = 0;
        while i < n
            invariant
                0 <= i <= n,
                n == self.entries@.len(),
                self.wf(),
                self.entries@ == old(self).entries@,
                forall|j: int| 0 <= j < i ==> self.entries@[j].0 != *part,
            decreases n - i,
        {
            if self.entries[i].0 == *part {
                proof {
                    lemma_extras_map_get(self.entries@, i as int);
                    lemma_extras_map_remove(self.entries@, i as int);
                }
                let e = self.entries.remove(i);
                return Some(e.1);
            }
            i = i + 1;
        }
        proof {
            lemma_extras_map_absent(self.entries@, *part);
        }
        None
    }

    /// The entries left in the map, each part at most once.
    fn into_entries(self) -> (r: Vec<(Part, String)>)
        requires
            self.wf(),
        ensures
            forall|k: int|
                0 <= k < r@.len() ==> self@.contains_key(#[trigger] r@[k].0) && self@[r@[k].0]
                    == r@[k].1@,
            forall|p: Part|
                self@.contains_key(p) ==> exists|k: int| 0 <= k < r@.len() && (#[trigger] r@[k].0)
                    == p,
            forall|k1: int, k2: int| 0 <= k1 < k2 < r@.len() ==> r@[k1].0 != r@[k2].0,
    {
        proof {
            assert forall|k: int|
                0 <= k < self.entries@.len() implies self@.contains_key(
                #[trigger] self.entries@[k].0,
            ) && self@[self.entries@[k].0] == self.entries@[k].1@ by {
                lemma_extras_map_get(self.entries@, k);
            }
            assert forall|p: Part| self@.contains_key(p) implies exists|k: int|
                0 <= k < self.entries@.len() && (#[trigger] self.entries@[k].0) == p by {
                if forall|k: int| 0 <= k < self.entries@.len() ==> (#[trigger] self.entries@[k].0)
                    != p {
                    lemma_extras_map_absent(self.entries@, p);
                }
            }
        }
        self.entries
    }
}

/// Result of the matching pass: the actions to attempt, the failures that
/// stand whatever happens, and the extras no failure claimed.
pub struct MatchResult {
    pub actions: Seq<CleanupActionView>,
    pub kept: Seq<FailureView>,
    pub extras: Map<Part, Seq<char>>,
}

/// Match failures against the claimable extras, front to back: a missing or
/// bad entry whose identity some extra carries claims that extra (each extra
/// at most once) and becomes a rename; everything else is kept as it stands.
pub open spec fn spec_match(extras: Map<Part, Seq<char>>, rest: Seq<FailureView>) -> MatchResult
    decreases rest.len(),
{
    if rest.len() == 0 {
        MatchResult { actions: Seq::empty(), kept: Seq::empty(), extras }
    } else {
        let f = rest.first();
        let step: (Option<CleanupActionView>, Option<FailureView>, Map<Part, Seq<char>>) = match f {
            FailureView::Missing { path, part } => if extras.contains_key(part) {
                (
                    Some(
                        CleanupActionView::RenameToMissing {
                            from: extras[part],
                            to: path,
                            part,
                        },
                    ),
                    None,
                    extras.remove(part),
                )
            } else {
                (None, Some(f), extras)
            },
            FailureView::Bad { path, expected, actual } => if extras.contains_key(expected) {
                (
                    Some(
                        CleanupActionView::ReplaceBad {
                            from: extras[expected],
                            to: path,
                            expected,
                            actual,
                        },
                    ),
                    None,
                    extras.remove(expected),
                )
            } else {
                (None, Some(f), extras)
            },
            _ => (None, Some(f), extras),
        };
        let rec = spec_match(step.2, rest.drop_first());
        MatchResult {
            actions: (match step.0 {
                Some(a) => seq![a],
                None => Seq::empty(),
            }) + rec.actions,
            kept: (match step.1 {
                Some(k) => seq![k],
                None => Seq::empty(),
            }) + rec.kept,
            extras: rec.extras,
        }
    }
}

/// The planned cleanup pass: the actions to attempt in order (matching
/// renames first, then deletions of unclaimed extras), and the failures that
/// stand whatever the actions' outcomes are.
pub struct CleanupPlan {
    pub actions: Vec<CleanupAction>,
    pub kept: Vec<VerifyFailure<String>>,
}

impl VerifyFailure<String> {
    /// A value-equal copy of this failure.
    pub fn duplicate(&self) -> (r: Self)
        ensures
            r@ == self@,
    {
        match self {
            VerifyFailure::Missing { path, part } => VerifyFailure::Missing {
                path: path.clone(),
                part: *part,
            },
            VerifyFailure::Extra { path, part } => VerifyFailure::Extra {
                path: path.clone(),
                part: *part,
            },
            VerifyFailure::Bad { path, expected, actual } => VerifyFailure::Bad {
                path: path.clone(),
                expected: *expected,
                actual: *actual,
            },
            VerifyFailure::Error { path, err } => VerifyFailure::Error {
                path: path.clone(),
                err: *err,
            },
        }
    }
}

/// Plan the cleanup pass over the failures of one reconciliation run: pair
/// missing and bad entries with claimable extras of the same identity into
/// renames, keep what cannot be repaired, and delete the extras nothing
/// claimed.
pub fn cleanup_plan(failures: &Vec<VerifyFailure<String>>) -> (r: CleanupPlan)
    ensures
        ({
            let m = spec_match(
                spec_extras(failures_view(failures@)),
                spec_to_cleanup(failures_view(failures@)),
            );
            let av = actions_view(r.actions@);
            &&& failures_view(r.kept@) == m.kept
            &&& m.actions.len() <= av.len()
            &&& av.subrange(0, m.actions.len() as int) == m.actions
            &&& ({
                let dels = av.subrange(m.actions.len() as int, av.len() as int);
                &&& forall|k: int|
                    0 <= k < dels.len() ==> ((#[trigger] dels[k]) matches CleanupActionView::Delete {
                        path,
                        part,
                    } && m.extras.contains_key(part) && m.extras[part] == path)
                &&& forall|p: Part|
                    m.extras.contains_key(p) ==> dels.contains(
                        (CleanupActionView::Delete { path: m.extras[p], part: p }),
                    )
                &&& forall|k1: int, k2: int| 0 <= k1 < k2 < dels.len() ==> dels[k1] != dels[k2]
            })
        }),
{
    let ghost fv = failures_view(failures@);
    let ghost m = spec_match(spec_extras(fv), spec_to_cleanup(fv));

    // Partition: claimable extras into the map, everything else in order.
    let mut extras = ExtrasMap::new();
    let mut rest: Vec<VerifyFailure<String>> = Vec::new();
    let n: usize = failures.len();
    let mut i: usize = 0;
    proof {
        assert(failures_view(failures@.subrange(0, 0)) =~= Seq::<FailureView>::empty());
    }
    while i < n
        invariant
            0 <= i <= n,
            n == failures@.len(),
            extras.wf(),
            fv == failures_view(failures@),
            extras@ == spec_extras(failures_view(failures@.subrange(0, i as int))),
            failures_view(rest@) == spec_to_cleanup(failures_view(failures@.subrange(0, i as int))),
        decreases n - i,
    {
        let ghost pre = failures_view(failures@.subrange(0, i as int));
        let ghost post = failures_view(failures@.subrange(0, i + 1));
        proof {
            assert(post.drop_last() =~= pre);
            assert(post.last() == failures@[i as int]@);
        }
        let f = &failures[i];
        match f {
            VerifyFailure::Extra { path, part: Ok(p) } => {
                extras.insert(*p, path.clone());
            },
            other => {
                rest.push(other.duplicate());
                proof {
                    assert(failures_view(rest@) =~= spec_to_cleanup(post));
                }
            },
        }
        proof {
            assert(extras@ == spec_extras(post));
            assert(failures_view(rest@) =~= spec_to_cleanup(post));
        }
        i = i + 1;
    }
    proof {
        assert(failures@.subrange(0, n as int) =~= failures@);
    }

    // Match missing and bad entries against the extras, front to back.
    let ghost extras0 = extras@;
    let ghost rseq = failures_view(rest@);
    let mut actions: Vec<CleanupAction> = Vec::new();
    let mut kept: Vec<VerifyFailure<String>> = Vec::new();
    let rn: usize = rest.len();
    let mut j: usize = 0;
    proof {
        assert(rseq.subrange(0, rseq.len() as int) =~= rseq);
        assert(m == spec_match(extras0, rseq));
    }
    while j < rn
        invariant
            0 <= j <= rn,
            rn == rest@.len(),
            rseq == failures_view(rest@),
            extras.wf(),
            m == spec_match(spec_extras(fv), spec_to_cleanup(fv)),
            ({
                let recm = spec_match(extras@, rseq.subrange(j as int, rseq.len() as int));
                &&& m.actions == actions_view(actions@) + recm.actions
                &&& m.kept == failures_view(kept@) + recm.kept
                &&& m.extras == recm.extras
            }),
        decreases rn - j,
    {
        let ghost tail = rseq.subrange(j as int, rseq.len() as int);
        let ghost recm = spec_match(extras@, tail);
        proof {
            assert(tail.len() > 0);
            assert(tail.first() == rseq[j as int]);
            assert(tail.drop_first() =~= rseq.subrange(j + 1, rseq.len() as int));
        }
        let f = &rest[j];
        match f {
            VerifyFailure::Missing { path, part } => {
                match extras.remove(part) {
                    Some(from) => {
                        actions.push(
                            CleanupAction::RenameToMissing {
                                from,
                                to: path.clone(),
                                part: *part,
                            },
                        );
                    },
                    None => {
                        kept.push(f.duplicate());
                    },
                }
            },
            VerifyFailure::Bad { path, expected, actual } => {
                match extras.remove(expected) {
                    Some(from) => {
                        actions.push(
                            CleanupAction::ReplaceBad {
                                from,
                                to: path.clone(),
                                expected: *expected,
                                actual: *actual,
                            },
                        );
                    },
                    None => {
                        kept.push(f.duplicate());
                    },
                }
            },
            other => {
                kept.push(other.duplicate());
            },
        }
        proof {
            let recm2 = spec_match(extras@, rseq.subrange(j + 1, rseq.len() as int));
            assert(recm.actions =~= (recm.actions.subrange(0, recm.actions.len() as int)));
            assert(m.actions =~= actions_view(actions@) + recm2.actions);
            assert(m.kept =~= failures_view(kept@) + recm2.kept);
        }
        j = j + 1;
    }
    proof {
        let recm = spec_match(extras@, rseq.subrange(rn as int, rseq.len() as int));
        assert(rseq.subrange(rn as int, rseq.len() as int) =~= Seq::<FailureView>::empty());
        assert(m.actions =~= actions_view(actions@));
        assert(m.kept =~= failures_view(kept@));
        assert(m.extras == extras@);
    }

    // Delete every extra nothing claimed.
    let ghost len0 = actions@.len();
    let remaining = extras.into_entries();
    let dn: usize = remaining.len();
    let mut k: usize = 0;
    while k < dn
        invariant
            0 <= k <= dn,
            dn == remaining@.len(),
            actions@.len() == len0 + k,
            m == spec_match(spec_extras(fv), spec_to_cleanup(fv)),
            actions_view(actions@).subrange(0, len0 as int) == m.actions,
            len0 == m.actions.len(),
            forall|t: int|
                0 <= t < remaining@.len() ==> m.extras.contains_key(#[trigger] remaining@[t].0)
                    && m.extras[remaining@[t].0] == remaining@[t].1@,
            forall|p: Part|
                m.extras.contains_key(p) ==> exists|t: int|
                    0 <= t < remaining@.len() && (#[trigger] remaining@[t].0) == p,
            forall|t1: int, t2: int|
                0 <= t1 < t2 < remaining@.len() ==> remaining@[t1].0 != remaining@[t2].0,
            forall|t: int|
                0 <= t < k ==> actions_view(actions@)[len0 + t] == (CleanupActionView::Delete {
                    path: remaining@[t].1@,
                    part: remaining@[t].0,
                }),
        decreases dn - k,
    {
        let e = &remaining[k];
        actions.push(CleanupAction::Delete { path: e.1.clone(), part: e.0 });
        proof {
            assert(actions_view(actions@).subrange(0, len0 as int) =~= m.actions);
        }
        k = k + 1;
    }

    proof {
        let av = actions_view(actions@);
        let dels = av.subrange(len0 as int, av.len() as int);
        assert forall|t: int| 0 <= t < dels.len() implies ((#[trigger] dels[t])
            matches CleanupActionView::Delete {
            path,
            part,
        } && m.extras.contains_key(part) && m.extras[part] == path) by {
            assert(dels[t] == av[len0 + t]);
            assert(actions_view(actions@)[len0 + t] == (CleanupActionView::Delete {
                path: remaining@[t].1@,
                part: remaining@[t].0,
            }));
            assert(m.extras.contains_key(remaining@[t].0));
        }
        assert forall|p: Part| m.extras.contains_key(p) implies dels.contains(
            (CleanupActionView::Delete { path: m.extras[p], part: p }),
        ) by {
            let t = choose|t: int| 0 <= t < remaining@.len() && (#[trigger] remaining@[t].0) == p;
            assert(actions_view(actions@)[len0 + t] == (CleanupActionView::Delete {
                path: remaining@[t].1@,
                part: remaining@[t].0,
            }));
            assert(dels[t] == av[len0 + t]);
            assert(dels[t] == (CleanupActionView::Delete { path: m.extras[p], part: p }));
        }
        assert forall|t1: int, t2: int| 0 <= t1 < t2 < dels.len() implies dels[t1] != dels[t2] by {
            assert(actions_view(actions@)[len0 + t1] == (CleanupActionView::Delete {
                path: remaining@[t1].1@,
                part: remaining@[t1].0,
            }));
            assert(actions_view(actions@)[len0 + t2] == (CleanupActionView::Delete {
                path: remaining@[t2].1@,
                part: remaining@[t2].0,
            }));
            assert(dels[t1] == av[len0 + t1]);
            assert(dels[t2] == av[len0 + t2]);
            assert(remaining@[t1].0 != remaining@[t2].0);
        }
    }
    CleanupPlan { actions, kept }
}

/// The failure that stands when a cleanup action does not succeed: a failed
/// rename leaves the original missing or bad failure, a failed deletion
/// leaves the extra.
pub open spec fn spec_action_fallback(a: CleanupActionView) -> FailureView {
    match a {
        CleanupActionView::RenameToMissing { from, to, part } => FailureView::Missing {
            path: to,
            part,
        },
        CleanupActionView::ReplaceBad { from, to, expected, actual } => FailureView::Bad {
            path: to,
            expected,
            actual,
        },
        CleanupActionView::Delete { path, part } => FailureView::Extra {
            path,
            part: Ok(part),
        },
    }
}

/// The fallback failures of the actions that did not succeed, in order.
pub open spec fn spec_failed_fallbacks(
    actions: Seq<CleanupActionView>,
    ok: Seq<bool>,
) -> Seq<FailureView>
    decreases actions.len(),
{
    if actions.len() == 0 {
        Seq::empty()
    } else {
        spec_failed_fallbacks(actions.drop_last(), ok.drop_last()) + (if ok.last() {
            Seq::empty()
        } else {
            seq![spec_action_fallback(actions.last())]
        })
    }
}

/// Combine the failures a cleanup plan kept with a fallback failure for
/// every action that did not succeed.
pub fn cleanup_apply(
    kept: Vec<VerifyFailure<String>>,
    actions: &Vec<CleanupAction>,
    ok: &Vec<bool>,
) -> (r: Vec<VerifyFailure<String>>)
    requires
        ok@.len() == actions@.len(),
    ensures
        failures_view(r@) == failures_view(kept@) + spec_failed_fallbacks(
            actions_view(actions@),
            ok@,
        ),
{
    let mut out = kept;
    let n: usize = actions.len();
    let mut i: usize = 0;
    proof {
        assert(actions_view(actions@).subrange(0, 0) =~= Seq::<CleanupActionView>::empty());
        assert(ok@.subrange(0, 0) =~= Seq::<bool>::empty());
        assert(failures_view(out@) =~= failures_view(kept@) + spec_failed_fallbacks(
            actions_view(actions@).subrange(0, 0),
            ok@.subrange(0, 0),
        ));
    }
    while i < n
        invariant
            0 <= i <= n,
            n == actions@.len(),
            ok@.len() == actions@.len(),
            failures_view(out@) == failures_view(kept@) + spec_failed_fallbacks(
                actions_view(actions@).subrange(0, i as int),
                ok@.subrange(0, i as int),
            ),
        decreases n - i,
    {
        let ghost out0 = out@;
        proof {
            assert(actions_view(actions@).subrange(0, i + 1).drop_last() =~= actions_view(
                actions@,
            ).subrange(0, i as int));
            assert(ok@.subrange(0, i + 1).drop_last() =~= ok@.subrange(0, i as int));
            assert(actions_view(actions@).subrange(0, i + 1).last() == actions@[i as int]@);
            assert(ok@.subrange(0, i + 1).last() == ok@[i as int]);
        }
        if !ok[i] {
            let a = &actions[i];
            let fb = match a {
                CleanupAction::RenameToMissing { from, to, part } => VerifyFailure::Missing {
                    path: to.clone(),
                    part: *part,
                },
                CleanupAction::ReplaceBad { from, to, expected, actual } => VerifyFailure::Bad {
                    path: to.clone(),
                    expected: *expected,
                    actual: *actual,
                },
                CleanupAction::Delete { path, part } => VerifyFailure::Extra {
                    path: path.clone(),
                    part: Ok(*part),
                },
            };
            proof {
                assert(fb@ == spec_action_fallback(actions@[i as int]@));
            }
            out.push(fb);
            proof {
                assert(failures_view(out@) =~= failures_view(out0).push(
                    spec_action_fallback(actions@[i as int]@),
                ));
            }
        }
        proof {
            assert(failures_view(out@) =~= failures_view(kept@) + spec_failed_fallbacks(
                actions_view(actions@).subrange(0, i + 1),
                ok@.subrange(0, i + 1),
            ));
        }
        i = i + 1;
    }
    proof {
        assert(actions_view(actions@).subrange(0, n as int) =~= actions_view(actions@));
        assert(ok@.subrange(0, n as int) =~= ok@);
    }
    out
}

/// Reconciling an already-consistent directory does nothing again: a correct
/// file is always kept, and the cleanup of an empty failure list keeps
/// nothing, plans nothing, and deletes nothing.
pub proof fn lemma_reconcile_idempotent(
    sources: Map<Part, RomSourceView>,
    part: Part,
    target: Seq<char>,
)
    ensures
        spec_reconcile_decide(sources, part, target, EntryStateView::Correct)
            == StepDecisionView::Keep,
        ({
            let m = spec_match(
                spec_extras(Seq::<FailureView>::empty()),
                spec_to_cleanup(Seq::<FailureView>::empty()),
            );
            &&& m.actions == Seq::<CleanupActionView>::empty()
            &&& m.kept == Seq::<FailureView>::empty()
            &&& m.extras == Map::<Part, Seq<char>>::empty()
        }),
        spec_failed_fallbacks(Seq::<CleanupActionView>::empty(), Seq::<bool>::empty()) == Seq::<
            FailureView,
        >::empty(),
{
}

/// Extra/Missing annihilation: when the failures of a run are exactly one
/// missing expectation of part `p` and one claimable extra whose identity is
/// `p`, in either order, the cleanup pass plans exactly the rename of the
/// extra file onto the expected path, keeps no failure, and deletes nothing;
/// with the rename succeeding, no failure remains.
pub proof fn lemma_extra_missing_annihilation(
    missing_path: Seq<char>,
    extra_path: Seq<char>,
    p: Part,
    fs: Seq<FailureView>,
)
    requires
        fs == seq![
            FailureView::Missing { path: missing_path, part: p },
            FailureView::Extra { path: extra_path, part: Ok::<Part, IoError>(p) },
        ] || fs == seq![
            FailureView::Extra { path: extra_path, part: Ok::<Part, IoError>(p) },
            FailureView::Missing { path: missing_path, part: p },
        ],
    ensures
        ({
            let m = spec_match(spec_extras(fs), spec_to_cleanup(fs));
            &&& m.actions == seq![
                CleanupActionView::RenameToMissing {
                    from: extra_path,
                    to: missing_path,
                    part: p,
                },
            ]
            &&& m.kept == Seq::<FailureView>::empty()
            &&& m.extras == Map::<Part, Seq<char>>::empty()
            &&& spec_failed_fallbacks(m.actions, seq![true]) == Seq::<FailureView>::empty()
        }),
{
    let miss = FailureView::Missing { path: missing_path, part: p };
    let ex = FailureView::Extra { path: extra_path, part: Ok::<Part, IoError>(p) };
    let empty_fs = Seq::<FailureView>::empty();
    assert(spec_extras(empty_fs) =~= Map::<Part, Seq<char>>::empty());
    assert(spec_to_cleanup(empty_fs) =~= Seq::<FailureView>::empty());
    if fs == seq![miss, ex] {
        assert(fs.drop_last() =~= seq![miss]);
        assert(seq![miss].drop_last() =~= empty_fs);
        assert(spec_extras(seq![miss]) == spec_extras(empty_fs));
        assert(spec_extras(fs) == spec_extras(seq![miss]).insert(p, extra_path));
        assert(spec_to_cleanup(seq![miss]) =~= seq![miss]);
        assert(spec_to_cleanup(fs) =~= seq![miss]);
    } else {
        assert(fs.drop_last() =~= seq![ex]);
        assert(seq![ex].drop_last() =~= empty_fs);
        assert(spec_extras(seq![ex]) == spec_extras(empty_fs).insert(p, extra_path));
        assert(spec_extras(fs) == spec_extras(seq![ex]));
        assert(spec_extras(fs) =~= Map::<Part, Seq<char>>::empty().insert(p, extra_path));
        assert(spec_to_cleanup(seq![ex]) =~= Seq::<FailureView>::empty());
        assert(spec_to_cleanup(fs) =~= seq![miss]);
    }
    assert(spec_extras(fs) =~= Map::<Part, Seq<char>>::empty().insert(p, extra_path));
    let e0 = spec_extras(fs);
    assert(e0.contains_key(p) && e0[p] == extra_path);
    let rest = spec_to_cleanup(fs);
    assert(rest == seq![miss]);
    assert(rest.first() == miss);
    assert(rest.drop_first() =~= Seq::<FailureView>::empty());
    let m = spec_match(e0, rest);
    assert(spec_match(e0.remove(p), Seq::<FailureView>::empty()).actions == Seq::<
        CleanupActionView,
    >::empty());
    assert(m.actions =~= seq![
        CleanupActionView::RenameToMissing { from: extra_path, to: missing_path, part: p },
    ]);
    assert(m.kept =~= Seq::<FailureView>::empty());
    assert(m.extras =~= Map::<Part, Seq<char>>::empty());
    assert(m.actions.drop_last() =~= Seq::<CleanupActionView>::empty());
    assert(seq![true].drop_last() =~= Seq::<bool>::empty());
    assert(spec_failed_fallbacks(Seq::<CleanupActionView>::empty(), Seq::<bool>::empty())
        == Seq::<FailureView>::empty());
    assert(spec_failed_fallbacks(m.actions, seq![true]) =~= Seq::<FailureView>::empty());
}

/// One map is contained in another.
pub open spec fn submap_of(a: Map<Part, Seq<char>>, b: Map<Part, Seq<char>>) -> bool {
    forall|p: Part| #[trigger] a.contains_key(p) ==> b.contains_key(p) && a[p] == b[p]
}

proof fn lemma_match_extras_submap(extras: Map<Part, Seq<char>>, rest: Seq<FailureView>)
    ensures
        submap_of(spec_match(extras, rest).extras, extras),
    decreases rest.len(),
{
    if rest.len() > 0 {
        let f = rest.first();
        let next: Map<Part, Seq<char>> = match f {
            FailureView::Missing { path, part } => if extras.contains_key(part) {
                extras.remove(part)
            } else {
                extras
            },
            FailureView::Bad { path, expected, actual } => if extras.contains_key(expected) {
                extras.remove(expected)
            } else {
                extras
            },
            _ => extras,
        };
        lemma_match_extras_submap(next, rest.drop_first());
        let rec = spec_match(next, rest.drop_first());
        assert(spec_match(extras, rest).extras == rec.extras);
        assert forall|q: Part| #[trigger] rec.extras.contains_key(q) implies extras.contains_key(q)
            && rec.extras[q] == extras[q] by {
            assert(next.contains_key(q) && rec.extras[q] == next[q]);
        }
    }
}

/// A failure the matching pass keeps, matched against nothing: a bad entry
/// whose expected identity the extras never carried stays in the output.
proof fn lemma_match_keeps_unmatched_bad(
    extras: Map<Part, Seq<char>>,
    rest: Seq<FailureView>,
    i: int,
    bad_path: Seq<char>,
    expected: Part,
    actual: Part,
)
    requires
        0 <= i < rest.len(),
        rest[i] == (FailureView::Bad { path: bad_path, expected, actual }),
        !extras.contains_key(expected),
    ensures
        spec_match(extras, rest).kept.contains(rest[i]),
    decreases rest.len(),
{
    let m = spec_match(extras, rest);
    let f = rest.first();
    if i == 0 {
        assert(m.kept[0] == rest[0]);
    } else {
        let next: Map<Part, Seq<char>> = match f {
            FailureView::Missing { path, part } => if extras.contains_key(part) {
                extras.remove(part)
            } else {
                extras
            },
            FailureView::Bad { path: p2, expected: e2, actual: a2 } => if extras.contains_key(e2) {
                extras.remove(e2)
            } else {
                extras
            },
            _ => extras,
        };
        assert(rest.drop_first()[i - 1] == rest[i]);
        lemma_match_keeps_unmatched_bad(
            next,
            rest.drop_first(),
            i - 1,
            bad_path,
            expected,
            actual,
        );
        let rec = spec_match(next, rest.drop_first());
        let j = choose|j: int| 0 <= j < rec.kept.len() && rec.kept[j] == rest[i];
        assert(m.kept.len() == rec.kept.len() + (m.kept.len() - rec.kept.len()));
        assert(m.kept[m.kept.len() - rec.kept.len() + j] == rest[i]);
    }
}

/// Every action of the matching pass names a failure of its input: a rename
/// onto a missing path comes from a missing entry, a replacement of a bad
/// file from a bad entry whose expected identity the extras carried, and the
/// pass deletes nothing.
proof fn lemma_match_action_sources(extras: Map<Part, Seq<char>>, rest: Seq<FailureView>)
    ensures
        forall|k: int|
            0 <= k < spec_match(extras, rest).actions.len() ==> (match #[trigger] spec_match(
                extras,
                rest,
            ).actions[k] {
                CleanupActionView::RenameToMissing { from, to, part } => exists|j: int|
                    0 <= j < rest.len() && #[trigger] rest[j] == (FailureView::Missing {
                        path: to,
                        part,
                    }),
                CleanupActionView::ReplaceBad { from, to, expected, actual } => (exists|j: int|
                    0 <= j < rest.len() && #[trigger] rest[j] == (FailureView::Bad {
                        path: to,
                        expected,
                        actual,
                    })) && extras.contains_key(expected),
                CleanupActionView::Delete { .. } => false,
            }),
    decreases rest.len(),
{
    let m = spec_match(extras, rest);
    if rest.len() > 0 {
        let f = rest.first();
        let next: Map<Part, Seq<char>> = match f {
            FailureView::Missing { path, part } => if extras.contains_key(part) {
                extras.remove(part)
            } else {
                extras
            },
            FailureView::Bad { path, expected, actual } => if extras.contains_key(expected) {
                extras.remove(expected)
            } else {
                extras
            },
            _ => extras,
        };
        lemma_match_action_sources(next, rest.drop_first());
        let rec = spec_match(next, rest.drop_first());
        let head = m.actions.len() - rec.actions.len();
        assert forall|k: int| 0 <= k < m.actions.len() implies (match #[trigger] m.actions[k] {
            CleanupActionView::RenameToMissing { from, to, part } => exists|j: int|
                0 <= j < rest.len() && #[trigger] rest[j] == (FailureView::Missing {
                    path: to,
                    part,
                }),
            CleanupActionView::ReplaceBad { from, to, expected, actual } => (exists|j: int|
                0 <= j < rest.len() && #[trigger] rest[j] == (FailureView::Bad {
                    path: to,
                    expected,
                    actual,
                })) && extras.contains_key(expected),
            CleanupActionView::Delete { .. } => false,
        }) by {
            if k < head {
                assert(m.actions[k] == m.actions[0]);
                assert(rest[0] == f);
            } else {
                assert(m.actions[k] == rec.actions[k - head]);
                match rec.actions[k - head] {
                    CleanupActionView::RenameToMissing { from, to, part } => {
                        let j = choose|j: int|
                            0 <= j < rest.drop_first().len() && #[trigger] rest.drop_first()[j]
                                == (FailureView::Missing { path: to, part });
                        assert(rest[j + 1] == (FailureView::Missing { path: to, part }));
                    },
                    CleanupActionView::ReplaceBad { from, to, expected, actual } => {
                        let j = choose|j: int|
                            0 <= j < rest.drop_first().len() && #[trigger] rest.drop_first()[j]
                                == (FailureView::Bad { path: to, expected, actual });
                        assert(rest[j + 1] == (FailureView::Bad { path: to, expected, actual }));
                    },
                    CleanupActionView::Delete { .. } => {},
                }
            }
        }
    }
}

/// Every claimable extra the cleanup gathers comes from an extra failure at
/// the same path.
proof fn lemma_spec_extras_values(fs: Seq<FailureView>)
    ensures
        forall|p: Part|
            #[trigger] spec_extras(fs).contains_key(p) ==> exists|j: int|
                0 <= j < fs.len() && #[trigger] fs[j] == (FailureView::Extra {
                    path: spec_extras(fs)[p],
                    part: Ok::<Part, IoError>(p),
                }),
    decreases fs.len(),
{
    if fs.len() > 0 {
        lemma_spec_extras_values(fs.drop_last());
        assert forall|p: Part| #[trigger] spec_extras(fs).contains_key(p) implies exists|j: int|
            0 <= j < fs.len() && #[trigger] fs[j] == (FailureView::Extra {
                path: spec_extras(fs)[p],
                part: Ok::<Part, IoError>(p),
            }) by {
            let last = fs.last();
            if last matches FailureView::Extra { path, part: Ok(q) } && q == p {
                assert(fs[fs.len() - 1] == (FailureView::Extra {
                    path: spec_extras(fs)[p],
                    part: Ok::<Part, IoError>(p),
                }));
            } else {
                assert(spec_extras(fs.drop_last()).contains_key(p));
                assert(spec_extras(fs)[p] == spec_extras(fs.drop_last())[p]);
                let j = choose|j: int|
                    0 <= j < fs.drop_last().len() && #[trigger] fs.drop_last()[j]
                        == (FailureView::Extra {
                        path: spec_extras(fs.drop_last())[p],
                        part: Ok::<Part, IoError>(p),
                    });
                assert(fs[j] == fs.drop_last()[j]);
            }
        }
    }
}

/// Every failure the cleanup still has to match is a failure of its input.
proof fn lemma_to_cleanup_membership(fs: Seq<FailureView>)
    ensures
        forall|x: FailureView| #[trigger] spec_to_cleanup(fs).contains(x) ==> fs.contains(x),
    decreases fs.len(),
{
    if fs.len() > 0 {
        lemma_to_cleanup_membership(fs.drop_last());
        assert forall|x: FailureView| #[trigger] spec_to_cleanup(fs).contains(x) implies fs.contains(
            x,
        ) by {
            let t = spec_to_cleanup(fs);
            let j = choose|j: int| 0 <= j < t.len() && t[j] == x;
            let pre = spec_to_cleanup(fs.drop_last());
            if j < pre.len() {
                assert(pre[j] == x);
                assert(pre.contains(x));
                let j2 = choose|j2: int| 0 <= j2 < fs.drop_last().len() && fs.drop_last()[j2] == x;
                assert(fs[j2] == x);
            } else {
                assert(x == fs.last());
                assert(fs[fs.len() - 1] == x);
            }
        }
    }
}

/// No spurious deletion: a bad entry whose expected identity no claimable
/// extra carries, among failures no other of which names the same path, is
/// kept as a failure, and no planned action replaces or deletes the file at
/// its path.
pub proof fn lemma_no_spurious_deletion(
    fs: Seq<FailureView>,
    i: int,
    bad_path: Seq<char>,
    expected: Part,
    actual: Part,
)
    requires
        0 <= i < fs.len(),
        fs[i] == (FailureView::Bad { path: bad_path, expected, actual }),
        !spec_extras(fs).contains_key(expected),
        forall|j: int|
            0 <= j < fs.len() && j != i ==> ((#[trigger] fs[j]) matches FailureView::Bad {
                path,
                ..
            } ==> path != bad_path),
        forall|j: int|
            0 <= j < fs.len() ==> ((#[trigger] fs[j]) matches FailureView::Extra { path, .. }
                ==> path != bad_path),
    ensures
        ({
            let m = spec_match(spec_extras(fs), spec_to_cleanup(fs));
            &&& m.kept.contains(fs[i])
            &&& forall|k: int|
                0 <= k < m.actions.len() ==> ((#[trigger] m.actions[k]) matches
                    CleanupActionView::ReplaceBad {
                    to,
                    ..
                } ==> to != bad_path)
            &&& forall|k: int|
                0 <= k < m.actions.len() ==> !((#[trigger] m.actions[k]) matches
                    CleanupActionView::Delete { .. })
            &&& forall|p: Part|
                #[trigger] m.extras.contains_key(p) ==> m.extras[p] != bad_path
        }),
{
    let e0 = spec_extras(fs);
    let rest = spec_to_cleanup(fs);
    let m = spec_match(e0, rest);

    // The bad entry survives partitioning and is kept by the matching pass.
    assert(!is_claimable_extra(fs[i]));
    lemma_to_cleanup_contains_index(fs, i);
    let ri = choose|ri: int| 0 <= ri < rest.len() && rest[ri] == fs[i];
    lemma_match_keeps_unmatched_bad(e0, rest, ri, bad_path, expected, actual);

    // No action replaces the file at the bad path.
    lemma_match_action_sources(e0, rest);
    lemma_to_cleanup_membership(fs);
    assert forall|k: int| 0 <= k < m.actions.len() implies ((#[trigger] m.actions[k]) matches
        CleanupActionView::ReplaceBad {
        to,
        ..
    } ==> to != bad_path) by {
        match m.actions[k] {
            CleanupActionView::ReplaceBad { to, expected: e2, actual: a2, .. } => {
                if to == bad_path {
                    let j = choose|j: int|
                        0 <= j < rest.len() && #[trigger] rest[j] == (FailureView::Bad {
                            path: to,
                            expected: e2,
                            actual: a2,
                        });
                    assert(rest.contains(rest[j]));
                    assert(fs.contains(rest[j]));
                    let j2 = choose|j2: int| 0 <= j2 < fs.len() && fs[j2] == rest[j];
                    assert(j2 == i);
                    assert(e2 == expected);
                    assert(e0.contains_key(expected));
                    assert(false);
                }
            },
            _ => {},
        }
    }

    // The pass never plans a deletion among its matching actions.
    assert(forall|k: int|
        0 <= k < m.actions.len() ==> !((#[trigger] m.actions[k]) matches CleanupActionView::Delete {
            ..
        }));

    // The unclaimed extras never live at the bad path.
    lemma_match_extras_submap(e0, rest);
    lemma_spec_extras_values(fs);
    assert forall|p: Part| #[trigger] m.extras.contains_key(p) implies m.extras[p]
        != bad_path by {
        assert(e0.contains_key(p) && m.extras[p] == e0[p]);
        let j = choose|j: int|
            0 <= j < fs.len() && #[trigger] fs[j] == (FailureView::Extra {
                path: e0[p],
                part: Ok::<Part, IoError>(p),
            });
    }
}

/// A failure that is not a claimable extra appears among those the matching
/// pass receives.
proof fn lemma_to_cleanup_contains_index(fs: Seq<FailureView>, i: int)
    requires
        0 <= i < fs.len(),
        !is_claimable_extra(fs[i]),
    ensures
        spec_to_cleanup(fs).contains(fs[i]),
    decreases fs.len(),
{
    if i == fs.len() - 1 {
        let t = spec_to_cleanup(fs);
        assert(t[t.len() - 1] == fs[i]);
    } else {
        lemma_to_cleanup_contains_index(fs.drop_last(), i);
        assert(fs.drop_last()[i] == fs[i]);
        let pre = spec_to_cleanup(fs.drop_last());
        let j = choose|j: int| 0 <= j < pre.len() && pre[j] == fs[i];
        assert(spec_to_cleanup(fs)[j] == fs[i]);
    }
}

} // verus!
