//! Merging the changes of several commits, one resolved change per path.

use vstd::prelude::*;
use crate::change::{FileChange, FileChangeView};
use crate::quantum_state::QuantumCommit;

verus! {

/// How a path that several changes touch is resolved.
#[derive(Debug)]
pub enum ConflictStrategy {
    /// The change that comes last in scan order wins.
    TimeWeighted,
    /// The change that comes first in scan order wins.
    ProbabilityWeighted,
    /// The merge stops and asks for a person.
    ManualReview,
    /// Semantic merge through the named model; without a service wired in, the
    /// payloads are concatenated and the line mappings united.
    AIResolution(String),
}

impl ConflictStrategy {
    /// A copy of this strategy.
    pub fn duplicate(&self) -> (r: ConflictStrategy)
        ensures
            r == *self,
    {
        match self {
            ConflictStrategy::TimeWeighted => ConflictStrategy::TimeWeighted,
            ConflictStrategy::ProbabilityWeighted => ConflictStrategy::ProbabilityWeighted,
            ConflictStrategy::ManualReview => ConflictStrategy::ManualReview,
            ConflictStrategy::AIResolution(m) => ConflictStrategy::AIResolution(m.clone()),
        }
    }
}

/// Why a merge did not produce its changes.
#[derive(Debug)]
pub enum TemporalMergeError {
    /// The path needs a person's decision.
    ManualReviewRequired(String),
    /// Declared for later use; never raised.
    TemporalParadox,
    /// Declared for later use; never raised.
    AIResolutionFailed(String),
}

/// Resolves the changes of a set of commits under per-path strategies.
pub struct TemporalMerger {
    conflict_resolution_strategies: Vec<(String, ConflictStrategy)>,
}

/// The strategy for `path` in an override table: the first entry for it, or
/// `TimeWeighted` where there is none.
pub open spec fn strategy_in(
    table: Seq<(String, ConflictStrategy)>,
    path: Seq<char>,
) -> ConflictStrategy
    decreases table.len(),
{
    if table.len() == 0 {
        ConflictStrategy::TimeWeighted
    } else if table[0].0@ == path {
        table[0].1
    } else {
        strategy_in(table.drop_first(), path)
    }
}

/// All changes of `commits`, commit by commit, each commit's in stored order.
pub open spec fn all_changes(commits: Seq<QuantumCommit>) -> Seq<FileChangeView>
    decreases commits.len(),
{
    if commits.len() == 0 {
        Seq::empty()
    } else {
        all_changes(commits.drop_last()) + commits.last().changes@.map_values(
            |c: FileChange| c@,
        )
    }
}

/// The distinct paths of `cs`, in order of first appearance.
pub open spec fn distinct_paths(cs: Seq<FileChangeView>) -> Seq<Seq<char>>
    decreases cs.len(),
{
    if cs.len() == 0 {
        Seq::empty()
    } else {
        let pre = distinct_paths(cs.drop_last());
        if pre.contains(cs.last().path) {
            pre
        } else {
            pre.push(cs.last().path)
        }
    }
}

/// The changes of `cs` to `path`, in order.
pub open spec fn changes_for(cs: Seq<FileChangeView>, path: Seq<char>) -> Seq<FileChangeView>
    decreases cs.len(),
{
    if cs.len() == 0 {
        Seq::empty()
    } else {
        let pre = changes_for(cs.drop_last(), path);
        if cs.last().path == path {
            pre.push(cs.last())
        } else {
            pre
        }
    }
}

/// The payloads of `cs` one after another.
pub open spec fn concat_deltas(cs: Seq<FileChangeView>) -> Seq<u8>
    decreases cs.len(),
{
    if cs.len() == 0 {
        Seq::empty()
    } else {
        concat_deltas(cs.drop_last()) + cs.last().content_delta
    }
}

/// Lexicographic order on line mappings.
pub open spec fn pair_lt(a: (usize, usize), b: (usize, usize)) -> bool {
    a.0 < b.0 || (a.0 == b.0 && a.1 < b.1)
}

/// `s` is in strictly ascending order, so free of duplicates.
pub open spec fn strictly_sorted(s: Seq<(usize, usize)>) -> bool {
    forall|i: int, j: int| 0 <= i < j < s.len() ==> pair_lt(#[trigger] s[i], #[trigger] s[j])
}

/// A mapping occurs in some change of `cs`.
pub open spec fn in_some_mapping(cs: Seq<FileChangeView>, p: (usize, usize)) -> bool {
    exists|k: int| 0 <= k < cs.len() && (#[trigger] cs[k]).line_mappings.contains(p)
}

/// `r` holds every mapping of `cs` once, in ascending order.
pub open spec fn is_merged_mappings(cs: Seq<FileChangeView>, r: Seq<(usize, usize)>) -> bool {
    &&& strictly_sorted(r)
    &&& forall|p: (usize, usize)| r.contains(p) <==> in_some_mapping(cs, p)
}

/// `r` is the semantic fallback merge of the non-empty `cs`.
pub open spec fn is_semantic_merge(cs: Seq<FileChangeView>, r: FileChangeView) -> bool {
    &&& r.path == cs[0].path
    &&& r.operation == cs[0].operation
    &&& r.content_delta == concat_deltas(cs)
    &&& is_merged_mappings(cs, r.line_mappings)
}

/// `r` is what `strategy` makes of the non-empty `cs`; `ManualReview` makes nothing.
pub open spec fn resolves_to(
    strategy: ConflictStrategy,
    cs: Seq<FileChangeView>,
    r: FileChangeView,
) -> bool {
    match strategy {
        ConflictStrategy::TimeWeighted => r == cs.last(),
        ConflictStrategy::ProbabilityWeighted => r == cs[0],
        ConflictStrategy::ManualReview => false,
        ConflictStrategy::AIResolution(_) => is_semantic_merge(cs, r),
    }
}

pub open spec fn is_manual(s: ConflictStrategy) -> bool {
    s is ManualReview
}


/// The values of a sequence of borrowed changes.
pub open spec fn views(s: Seq<&FileChange>) -> Seq<FileChangeView> {
    s.map_values(|c: &FileChange| c@)
}

pub(crate) proof fn lemma_push_contains<A>(s: Seq<A>, x: A)
    ensures
        forall|q: A| #[trigger] s.push(x).contains(q) <==> (s.contains(q) || q == x),
{
    assert forall|q: A| #[trigger] s.push(x).contains(q) <==> (s.contains(q) || q == x) by {
        if s.push(x).contains(q) {
            let k = choose|k: int| 0 <= k < s.push(x).len() && s.push(x)[k] == q;
            if k < s.len() {
                assert(s[k] == q);
            }
        }
        if s.contains(q) {
            let k = choose|k: int| 0 <= k < s.len() && s[k] == q;
            assert(s.push(x)[k] == q);
        }
        if q == x {
            assert(s.push(x)[s.len() as int] == q);
        }
    }
}

/// Appends `src` to `dst`.
fn append_bytes(dst: &mut Vec<u8>, src: &Vec<u8>)
    ensures
        final(dst)@ == old(dst)@ + src@,
{
    let ghost start = dst@;
    let mut i: usize = 0;
    while i < src.len()
        invariant
            i <= src.len(),
            dst@ == start + src@.take(i as int),
        decreases src.len() - i,
    {
        dst.push(src[i]);
        i = i + 1;
        assert(dst@ =~= start + src@.take(i as int));
    }
    assert(src@.take(i as int) =~= src@);
}

/// Adds `p` to the strictly sorted `r`, unless it is there already.
pub(crate) fn insert_sorted(r: &mut Vec<(usize, usize)>, p: (usize, usize))
    requires
        strictly_sorted(old(r)@),
    ensures
        strictly_sorted(final(r)@),
        forall|q: (usize, usize)| #[trigger] final(r)@.contains(q) <==> (old(r)@.contains(q) || q == p),
{
    let mut i: usize = 0;
    while i < r.len() && (r[i].0 < p.0 || (r[i].0 == p.0 && r[i].1 < p.1))
        invariant
            i <= r.len(),
            r@ == old(r)@,
            forall|j: int| 0 <= j < i ==> pair_lt(#[trigger] r@[j], p),
        decreases r.len() - i,
    {
        i = i + 1;
    }
    if i < r.len() && r[i].0 == p.0 && r[i].1 == p.1 {
        assert(r@[i as int] == p);
        assert(r@.contains(p));
    } else {
        let ghost before = r@;
        r.insert(i, p);
        assert(r@ == before.insert(i as int, p));
        assert forall|a: int, b: int| 0 <= a < b < r@.len() implies pair_lt(#[trigger] r@[a], #[trigger] r@[b]) by {
            if b < i {
            } else if b == i {
            } else if a < i {
                assert(pair_lt(r@[a], p));
                if i < before.len() {
                    assert(pair_lt(p, before[i as int]));
                }
            } else if a == i {
                assert(pair_lt(p, before[i as int]));
                assert(b - 1 == i || pair_lt(before[i as int], before[b - 1]));
            } else {
            }
        }
        assert forall|q: (usize, usize)| #[trigger] r@.contains(q) <==> (before.contains(q) || q == p) by {
            if r@.contains(q) {
                let k = choose|k: int| 0 <= k < r@.len() && r@[k] == q;
                if k < i {
                    assert(before[k] == q);
                } else if k > i {
                    assert(before[k - 1] == q);
                }
            }
            if before.contains(q) {
                let k = choose|k: int| 0 <= k < before.len() && before[k] == q;
                if k < i {
                    assert(r@[k] == q);
                } else {
                    assert(r@[k + 1] == q);
                }
            }
            if q == p {
                assert(r@[i as int] == q);
            }
        }
    }
}

proof fn lemma_strategy_in_update(
    t: Seq<(String, ConflictStrategy)>,
    i: int,
    e: (String, ConflictStrategy),
)
    requires
        0 <= i < t.len(),
        t[i].0@ == e.0@,
        forall|j: int| 0 <= j < i ==> (#[trigger] t[j]).0@ != e.0@,
    ensures
        strategy_in(t.update(i, e), e.0@) == e.1,
        forall|q: Seq<char>| q != e.0@ ==> strategy_in(t.update(i, e), q) == strategy_in(t, q),
    decreases i,
{
    if i > 0 {
        lemma_strategy_in_update(t.drop_first(), i - 1, e);
        assert(t.update(i, e).drop_first() =~= t.drop_first().update(i - 1, e));
        assert forall|q: Seq<char>| q != e.0@ implies strategy_in(t.update(i, e), q) == strategy_in(t, q) by {
            assert(strategy_in(t.drop_first().update(i - 1, e), q) == strategy_in(t.drop_first(), q));
        }
    } else {
        assert(t.update(i, e).drop_first() =~= t.drop_first());
    }
}

proof fn lemma_strategy_in_push(t: Seq<(String, ConflictStrategy)>, e: (String, ConflictStrategy))
    requires
        forall|j: int| 0 <= j < t.len() ==> (#[trigger] t[j]).0@ != e.0@,
    ensures
        strategy_in(t.push(e), e.0@) == e.1,
        forall|q: Seq<char>| q != e.0@ ==> strategy_in(t.push(e), q) == strategy_in(t, q),
    decreases t.len(),
{
    if t.len() > 0 {
        lemma_strategy_in_push(t.drop_first(), e);
        assert(t.push(e).drop_first() =~= t.drop_first().push(e));
        assert forall|q: Seq<char>| q != e.0@ implies strategy_in(t.push(e), q) == strategy_in(t, q) by {
            assert(strategy_in(t.drop_first().push(e), q) == strategy_in(t.drop_first(), q));
        }
    } else {
        assert(t.push(e).drop_first() =~= Seq::<(String, ConflictStrategy)>::empty());
        assert forall|q: Seq<char>| q != e.0@ implies strategy_in(t.push(e), q) == strategy_in(t, q) by {
            assert(strategy_in(t.push(e).drop_first(), q) == ConflictStrategy::TimeWeighted);
        }
    }
}

proof fn lemma_paths_have_changes(cs: Seq<FileChangeView>)
    ensures
        forall|p: Seq<char>| #[trigger] distinct_paths(cs).contains(p) ==> changes_for(cs, p).len() > 0,
        forall|p: Seq<char>, i: int| 0 <= i < changes_for(cs, p).len() ==> (#[trigger] changes_for(cs, p)[i]).path == p,
    decreases cs.len(),
{
    if cs.len() > 0 {
        lemma_paths_have_changes(cs.drop_last());
        lemma_push_contains(distinct_paths(cs.drop_last()), cs.last().path);
        assert forall|p: Seq<char>, i: int| 0 <= i < changes_for(cs, p).len() implies (#[trigger] changes_for(cs, p)[i]).path == p by {
            if i < changes_for(cs.drop_last(), p).len() {
                assert(changes_for(cs, p)[i] == changes_for(cs.drop_last(), p)[i]);
            }
        }
    }
}

/// The distinct paths of the borrowed changes `flat`, in order of first appearance.
fn collect_paths(flat: &Vec<&FileChange>) -> (r: Vec<String>)
    ensures
        r@.map_values(|s: String| s@) == distinct_paths(views(flat@)),
{
    let ghost cs = views(flat@);
    let mut r: Vec<String> = Vec::new();
    let mut k: usize = 0;
    while k < flat.len()
        invariant
            k <= flat.len(),
            cs == views(flat@),
            r@.map_values(|s: String| s@) == distinct_paths(cs.take(k as int)),
        decreases flat.len() - k,
    {
        let path = &flat[k].path;
        let mut found = false;
        let mut j: usize = 0;
        while j < r.len()
            invariant
                j <= r.len(),
                found == exists|t: int| 0 <= t < j && r@[t]@ == path@,
            decreases r.len() - j,
        {
            if r[j] == *path {
                found = true;
            }
            j = j + 1;
        }
        let ghost ps = r@.map_values(|s: String| s@);
        assert(cs.take(k + 1).drop_last() =~= cs.take(k as int));
        assert(cs.take(k + 1).last() == cs[k as int]);
        assert(found == ps.contains(path@)) by {
            if found {
                let t = choose|t: int| 0 <= t < j && r@[t]@ == path@;
                assert(ps[t] == path@);
            }
            if ps.contains(path@) {
                let t = choose|t: int| 0 <= t < ps.len() && ps[t] == path@;
                assert(r@[t]@ == path@);
            }
        }
        if !found {
            r.push(path.clone());
            assert(r@.map_values(|s: String| s@) =~= ps.push(path@));
        }
        k = k + 1;
    }
    assert(cs.take(k as int) =~= cs);
    r
}

/// The borrowed changes of `flat` to `path`, in order.
fn collect_changes_for<'a>(flat: &Vec<&'a FileChange>, path: &String) -> (r: Vec<&'a FileChange>)
    ensures
        views(r@) == changes_for(views(flat@), path@),
{
    let ghost cs = views(flat@);
    let mut r: Vec<&FileChange> = Vec::new();
    let mut k: usize = 0;
    while k < flat.len()
        invariant
            k <= flat.len(),
            cs == views(flat@),
            views(r@) == changes_for(cs.take(k as int), path@),
        decreases flat.len() - k,
    {
        assert(cs.take(k + 1).drop_last() =~= cs.take(k as int));
        assert(cs.take(k + 1).last() == cs[k as int]);
        if flat[k].path == *path {
            r.push(flat[k]);
            assert(views(r@) =~= changes_for(cs.take(k as int), path@).push(cs[k as int]));
        }
        k = k + 1;
    }
    assert(cs.take(k as int) =~= cs);
    r
}

/// Every change of `commits`, commit by commit.
fn collect_changes(commits: &[QuantumCommit]) -> (r: Vec<&FileChange>)
    ensures
        views(r@) == all_changes(commits@),
{
    let mut r: Vec<&FileChange> = Vec::new();
    let mut i: usize = 0;
    while i < commits.len()
        invariant
            i <= commits.len(),
            views(r@) == all_changes(commits@.take(i as int)),
        decreases commits.len() - i,
    {
        let ch = &commits[i].changes;
        let ghost base = views(r@);
        let ghost cv = ch@.map_values(|c: FileChange| c@);
        let mut j: usize = 0;
        while j < ch.len()
            invariant
                j <= ch.len(),
                cv == ch@.map_values(|c: FileChange| c@),
                views(r@) == base + cv.take(j as int),
            decreases ch.len() - j,
        {
            let ghost before = r@;
            r.push(&ch[j]);
            assert(views(r@) =~= views(before).push(cv[j as int]));
            assert(cv.take(j + 1) =~= cv.take(j as int).push(cv[j as int]));
            assert(views(r@) =~= base + cv.take(j + 1));
            j = j + 1;
        }
        assert(commits@.take(i + 1).drop_last() =~= commits@.take(i as int));
        assert(cv.take(j as int) =~= cv);
        i = i + 1;
    }
    assert(commits@.take(i as int) =~= commits@);
    r
}

impl TemporalMerger {
    /// The override table, first entry for a path first.
    pub closed spec fn strategies(&self) -> Seq<(String, ConflictStrategy)> {
        self.conflict_resolution_strategies@
    }

    /// A merger with no overrides: every path is resolved `TimeWeighted`.
    pub fn new() -> (r: TemporalMerger)
        ensures
            r.strategies() == Seq::<(String, ConflictStrategy)>::empty(),
    {
        TemporalMerger { conflict_resolution_strategies: Vec::new() }
    }

    /// The union of the line mappings of `changes`, sorted, each pair once.
    pub fn merge_line_mappings(&self, changes: &Vec<&FileChange>) -> (r: Vec<(usize, usize)>)
        ensures
            is_merged_mappings(views(changes@), r@),
    {
        let ghost cs = views(changes@);
        let mut r: Vec<(usize, usize)> = Vec::new();
        let mut k: usize = 0;
        while k < changes.len()
            invariant
                k <= changes.len(),
                cs == views(changes@),
                strictly_sorted(r@),
                forall|p: (usize, usize)| r@.contains(p) <==> in_some_mapping(cs.take(k as int), p),
            decreases changes.len() - k,
        {
            let m = &changes[k].line_mappings;
            let mut j: usize = 0;
            while j < m.len()
                invariant
                    k < changes.len(),
                    cs.len() == changes.len(),
                    j <= m.len(),
                    m@ == cs[k as int].line_mappings,
                    strictly_sorted(r@),
                    forall|p: (usize, usize)| r@.contains(p) <==> (in_some_mapping(cs.take(k as int), p)
                        || m@.take(j as int).contains(p)),
                decreases m.len() - j,
            {
                let ghost prev = r@;
                insert_sorted(&mut r, m[j]);
                assert(m@.take(j + 1) =~= m@.take(j as int).push(m@[j as int]));
                proof {
                    lemma_push_contains(m@.take(j as int), m@[j as int]);
                }
                j = j + 1;
            }
            assert forall|p: (usize, usize)| in_some_mapping(cs.take(k + 1), p) <==> (in_some_mapping(cs.take(k as int), p)
                || m@.contains(p)) by {
                if in_some_mapping(cs.take(k + 1), p) {
                    let t = choose|t: int| 0 <= t < k + 1 && (#[trigger] cs.take(k + 1)[t]).line_mappings.contains(p);
                    if t < k {
                        assert(cs.take(k as int)[t] == cs.take(k + 1)[t]);
                    }
                }
                if in_some_mapping(cs.take(k as int), p) {
                    let t = choose|t: int| 0 <= t < k && (#[trigger] cs.take(k as int)[t]).line_mappings.contains(p);
                    assert(cs.take(k + 1)[t] == cs.take(k as int)[t]);
                }
                if m@.contains(p) {
                    assert(cs.take(k + 1)[k as int] == cs[k as int]);
                }
            }
            assert(m@.take(j as int) =~= m@);
            k = k + 1;
        }
        assert(cs.take(k as int) =~= cs);
        r
    }

    /// The semantic fallback: the first change's path and operation, every
    /// payload in order, and the merged line mappings.
    pub fn ai_semantic_merge(&self, changes: &Vec<&FileChange>) -> (r: Result<FileChange, TemporalMergeError>)
        requires
            changes@.len() > 0,
        ensures
            r matches Ok(c) && is_semantic_merge(views(changes@), c@),
    {
        let ghost cs = views(changes@);
        let base = changes[0];
        let mut merged_delta: Vec<u8> = Vec::new();
        let mut k: usize = 0;
        while k < changes.len()
            invariant
                k <= changes.len(),
                cs == views(changes@),
                merged_delta@ == concat_deltas(cs.take(k as int)),
            decreases changes.len() - k,
        {
            append_bytes(&mut merged_delta, &changes[k].content_delta);
            assert(cs.take(k + 1).drop_last() =~= cs.take(k as int));
            k = k + 1;
        }
        assert(cs.take(k as int) =~= cs);
        Ok(FileChange {
            path: base.path.clone(),
            operation: base.operation.duplicate(),
            content_delta: merged_delta,
            line_mappings: self.merge_line_mappings(changes),
        })
    }

    /// What `strategy` makes of the changes to one path.
    pub fn resolve_conflict(
        &self,
        changes: &Vec<&FileChange>,
        strategy: &ConflictStrategy,
        target_branch: &str,
    ) -> (r: Result<FileChange, TemporalMergeError>)
        requires
            changes@.len() > 0,
        ensures
            is_manual(*strategy) ==> (r matches Err(TemporalMergeError::ManualReviewRequired(p))
                && p@ == changes@[0].path@),
            !is_manual(*strategy) ==> (r matches Ok(c) && resolves_to(*strategy, views(changes@), c@)),
    {
        match strategy {
            ConflictStrategy::TimeWeighted => {
                let latest = changes[changes.len() - 1];
                Ok(latest.duplicate())
            },
            ConflictStrategy::ProbabilityWeighted => {
                let first = changes[0];
                Ok(first.duplicate())
            },
            ConflictStrategy::ManualReview => {
                Err(TemporalMergeError::ManualReviewRequired(changes[0].path.clone()))
            },
            ConflictStrategy::AIResolution(_model) => self.ai_semantic_merge(changes),
        }
    }

    /// The strategy that applies to `path`.
    pub fn strategy_for(&self, path: &String) -> (r: ConflictStrategy)
        ensures
            r == strategy_in(self.strategies(), path@),
    {
        let t = &self.conflict_resolution_strategies;
        let mut i: usize = 0;
        assert(t@.skip(0) =~= t@);
        while i < t.len()
            invariant
                i <= t.len(),
                t@ == self.conflict_resolution_strategies@,
                strategy_in(t@, path@) == strategy_in(t@.skip(i as int), path@),
            decreases t.len() - i,
        {
            if t[i].0 == *path {
                assert(t@.skip(i as int)[0] == t@[i as int]);
                assert(t@.skip(i as int).len() > 0);
                assert(strategy_in(t@.skip(i as int), path@) == t@[i as int].1);
                assert(self.conflict_resolution_strategies@ == t@);
                assert(self.strategies() == self.conflict_resolution_strategies@);
                let r = t[i].1.duplicate();
                assert(r == t@[i as int].1);
                return r;
            }
            assert(t@.skip(i as int).drop_first() =~= t@.skip(i + 1));
            i = i + 1;
        }
        ConflictStrategy::TimeWeighted
    }

    /// Sets the strategy for `path`; other paths keep theirs.
    pub fn set_strategy(&mut self, path: String, strategy: ConflictStrategy)
        ensures
            strategy_in(final(self).strategies(), path@) == strategy,
            forall|q: Seq<char>| q != path@ ==> strategy_in(final(self).strategies(), q)
                == strategy_in(old(self).strategies(), q),
    {
        let ghost t0 = self.conflict_resolution_strategies@;
        let mut i: usize = 0;
        while i < self.conflict_resolution_strategies.len()
            invariant
                i <= self.conflict_resolution_strategies.len(),
                self.conflict_resolution_strategies@ == t0,
                old(self).conflict_resolution_strategies@ == t0,
                forall|j: int| 0 <= j < i ==> (#[trigger] t0[j]).0@ != path@,
            decreases self.conflict_resolution_strategies.len() - i,
        {
            if self.conflict_resolution_strategies[i].0 == path {
                let ghost e = (path, strategy);
                self.conflict_resolution_strategies.set(i, (path, strategy));
                proof {
                    lemma_strategy_in_update(t0, i as int, e);
                }
                assert(self.conflict_resolution_strategies@ == t0.update(i as int, e));
                assert(self.strategies() == t0.update(i as int, e));
                assert(old(self).strategies() == t0);
                assert forall|q: Seq<char>| q != e.0@ implies strategy_in(self.strategies(), q)
                    == strategy_in(t0, q) by {
                    assert(strategy_in(t0.update(i as int, e), q) == strategy_in(t0, q));
                }
                return;
            }
            i = i + 1;
        }
        let ghost e = (path, strategy);
        self.conflict_resolution_strategies.push((path, strategy));
        proof {
            lemma_strategy_in_push(t0, e);
        }
    }

    /// One resolved change per path that `commits` touch, paths in order of
    /// first appearance; the first path whose strategy is `ManualReview` stops
    /// the merge.
    pub fn merge_temporal_branches(
        &self,
        commits: &[QuantumCommit],
        target_branch: &str,
    ) -> (r: Result<Vec<FileChange>, TemporalMergeError>)
        ensures
            ({
                let ps = distinct_paths(all_changes(commits@));
                match r {
                    Ok(v) => {
                        &&& forall|i: int| 0 <= i < ps.len() ==> !is_manual(
                            #[trigger] strategy_in(self.strategies(), ps[i]),
                        )
                        &&& v@.len() == ps.len()
                        &&& forall|i: int|
                            0 <= i < ps.len() ==> resolves_to(
                                strategy_in(self.strategies(), ps[i]),
                                changes_for(all_changes(commits@), ps[i]),
                                (#[trigger] v@[i])@,
                            )
                    },
                    Err(TemporalMergeError::ManualReviewRequired(p)) => exists|i: int|
                        0 <= i < ps.len() && ps[i] == p@ && is_manual(
                            strategy_in(self.strategies(), ps[i]),
                        ) && forall|j: int| 0 <= j < i ==> !is_manual(
                            #[trigger] strategy_in(self.strategies(), ps[j]),
                        ),
                    Err(_) => false,
                }
            }),
    {
        let flat = collect_changes(commits);
        let ghost cs = views(flat@);
        let paths = collect_paths(&flat);
        let ghost ps = distinct_paths(cs);
        proof {
            lemma_paths_have_changes(cs);
        }
        let mut merged: Vec<FileChange> = Vec::new();
        let mut k: usize = 0;
        while k < paths.len()
            invariant
                k <= paths.len(),
                cs == all_changes(commits@),
                cs == views(flat@),
                ps == distinct_paths(cs),
                forall|p: Seq<char>| #[trigger] ps.contains(p) ==> changes_for(cs, p).len() > 0,
                forall|p: Seq<char>, i: int| 0 <= i < changes_for(cs, p).len() ==> (#[trigger] changes_for(cs, p)[i]).path == p,
                paths@.map_values(|s: String| s@) == ps,
                merged@.len() == k,
                forall|i: int| 0 <= i < k ==> !is_manual(
                    #[trigger] strategy_in(self.strategies(), ps[i]),
                ),
                forall|i: int|
                    0 <= i < k ==> resolves_to(
                        strategy_in(self.strategies(), ps[i]),
                        changes_for(cs, ps[i]),
                        (#[trigger] merged@[i])@,
                    ),
            decreases paths.len() - k,
        {
            assert(ps[k as int] == paths@[k as int]@);
            let group = collect_changes_for(&flat, &paths[k]);
            let strategy = self.strategy_for(&paths[k]);
            assert(ps.contains(ps[k as int]));
            assert(views(group@).len() == group@.len());
            assert(group@.len() > 0);
            assert(views(group@)[0] == group@[0]@);
            let resolved = self.resolve_conflict(&group, &strategy, target_branch);
            match resolved {
                Ok(c) => {
                    let ghost before = merged@;
                    merged.push(c);
                    assert forall|i: int| 0 <= i < k + 1 implies resolves_to(
                        strategy_in(self.strategies(), ps[i]),
                        changes_for(cs, ps[i]),
                        (#[trigger] merged@[i])@,
                    ) by {
                        if i < k {
                            assert(merged@[i] == before[i]);
                        }
                    }
                },
                Err(e) => {
                    return Err(e);
                },
            }
            k = k + 1;
        }
        Ok(merged)
    }
}

} // verus!
