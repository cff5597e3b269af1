//! Commits in superposition, their entanglement graph, and observation.

use vstd::prelude::*;
use vstd::utf8::encode_utf8;
use crate::change::{FileChange, FileChangeView};
use crate::entanglement::{
    EntanglementGraph, graph_add_edge, graph_add_node, graph_edges, graph_new, graph_node_count,
    graph_node_weight, graph_nodes, graph_reachable, reachable,
};
use crate::temporal_merge::{insert_sorted, lemma_push_contains, strictly_sorted, pair_lt};

verus! {

/// Probabilities are integers in parts per million: this value stands for 1.
pub const PROB_SCALE: u64 = 1_000_000;

/// A commit that may stand on several branches at once.
#[derive(Debug)]
pub struct QuantumCommit {
    /// The commit's index in its repository, assigned once.
    pub id: u64,
    /// Digest of the ordered changes.
    pub content_hash: String,
    /// Branch name and its probability in parts per million.
    pub superposition_states: Vec<(String, u64)>,
    /// Commits that this one was linked to when it was created.
    pub entangled_commits: Vec<u64>,
    pub collapsed: bool,
    /// Seconds since the Unix epoch at creation.
    pub timestamp: u64,
    pub changes: Vec<FileChange>,
}

/// Half the width of the band round 1 in which a distribution is accepted.
pub const PROB_TOLERANCE: u64 = 1_000;

/// The SHA3-256 digest of `data` in lowercase hex.
pub uninterp spec fn sha3_256_hex(data: Seq<u8>) -> Seq<char>;

/// Relies on sha3's `Sha3_256` digest and its lowercase hex formatting.
#[verifier::external_body]
fn sha3_hex(data: &Vec<u8>) -> (r: String)
    ensures
        r@ == sha3_256_hex(data@),
{
    format!("{:x}", <sha3::Sha3_256 as sha3::Digest>::digest(data))
}

/// The bytes that a commit's digest covers: each change's path, then its
/// payload, in order.
pub open spec fn hash_input(cs: Seq<FileChangeView>) -> Seq<u8>
    decreases cs.len(),
{
    if cs.len() == 0 {
        Seq::empty()
    } else {
        hash_input(cs.drop_last()) + encode_utf8(cs.last().path) + cs.last().content_delta
    }
}

/// The values of a sequence of changes.
pub open spec fn change_views(s: Seq<FileChange>) -> Seq<FileChangeView> {
    s.map_values(|c: FileChange| c@)
}

/// The digest of an ordered list of changes.
pub open spec fn content_hash_of(cs: Seq<FileChangeView>) -> Seq<char> {
    sha3_256_hex(hash_input(cs))
}

/// The sum of the probabilities of a distribution.
pub open spec fn prob_total(s: Seq<(String, u64)>) -> int
    decreases s.len(),
{
    if s.len() == 0 {
        0
    } else {
        prob_total(s.drop_last()) + s.last().1
    }
}

/// A total within `PROB_TOLERANCE` of `PROB_SCALE`.
pub open spec fn total_acceptable(total: int) -> bool {
    PROB_SCALE - PROB_TOLERANCE <= total <= PROB_SCALE + PROB_TOLERANCE
}

/// Similarity of two sets of line mappings, in parts per million: the size of
/// their intersection over the size of their union, 0 when both are empty.
pub open spec fn line_overlap(a: Seq<(usize, usize)>, b: Seq<(usize, usize)>) -> int {
    let u = a.to_set().union(b.to_set());
    let i = a.to_set().intersect(b.to_set());
    if u.len() == 0 {
        0
    } else {
        (i.len() * PROB_SCALE) / (u.len() as int)
    }
}

/// The line overlaps of `c` with every change of `os` to the same path, summed.
pub open spec fn overlap_with(c: FileChangeView, os: Seq<FileChangeView>) -> int
    decreases os.len(),
{
    if os.len() == 0 {
        0
    } else {
        overlap_with(c, os.drop_last()) + if os.last().path == c.path {
            line_overlap(c.line_mappings, os.last().line_mappings)
        } else {
            0
        }
    }
}

/// The line overlaps of every pair of changes to a shared path, summed.
pub open spec fn overlap_total(cs: Seq<FileChangeView>, os: Seq<FileChangeView>) -> int
    decreases cs.len(),
{
    if cs.len() == 0 {
        0
    } else {
        overlap_total(cs.drop_last(), os) + overlap_with(cs.last(), os)
    }
}

/// The strength of the link between a new commit's changes `cs` and an older
/// commit's changes `os`, in parts per million: the summed overlap over the
/// number of new changes, at most 1.
pub open spec fn entanglement_strength(cs: Seq<FileChangeView>, os: Seq<FileChangeView>) -> int {
    if cs.len() == 0 {
        0
    } else {
        let s = overlap_total(cs, os) / (cs.len() as int);
        if s < PROB_SCALE {
            s
        } else {
            PROB_SCALE as int
        }
    }
}

/// The bytes of `changes` that the digest covers.
fn hash_input_bytes(changes: &Vec<FileChange>) -> (r: Vec<u8>)
    ensures
        r@ == hash_input(change_views(changes@)),
{
    let ghost cs = change_views(changes@);
    let mut r: Vec<u8> = Vec::new();
    let mut k: usize = 0;
    while k < changes.len()
        invariant
            k <= changes.len(),
            cs == change_views(changes@),
            r@ == hash_input(cs.take(k as int)),
        decreases changes.len() - k,
    {
        let ghost start = r@;
        let path = changes[k].path.as_str().as_bytes();
        let mut j: usize = 0;
        while j < path.len()
            invariant
                j <= path@.len(),
                r@ == start + path@.take(j as int),
            decreases path.len() - j,
        {
            r.push(path[j]);
            j = j + 1;
            assert(r@ =~= start + path@.take(j as int));
        }
        assert(path@.take(j as int) =~= path@);
        let delta = &changes[k].content_delta;
        let ghost mid = r@;
        let mut j: usize = 0;
        while j < delta.len()
            invariant
                j <= delta@.len(),
                r@ == mid + delta@.take(j as int),
            decreases delta.len() - j,
        {
            r.push(delta[j]);
            j = j + 1;
            assert(r@ =~= mid + delta@.take(j as int));
        }
        assert(delta@.take(j as int) =~= delta@);
        assert(cs.take(k + 1).drop_last() =~= cs.take(k as int));
        assert(cs.take(k + 1).last() == changes@[k as int]@);
        assert(r@ =~= hash_input(cs.take(k + 1)));
        k = k + 1;
    }
    assert(cs.take(k as int) =~= cs);
    r
}

/// The sum of a distribution's probabilities.
pub fn sum_probabilities(probs: &Vec<(String, u64)>) -> (r: u128)
    ensures
        r == prob_total(probs@),
{
    let mut total: u128 = 0;
    let mut i: usize = 0;
    while i < probs.len()
        invariant
            i <= probs.len(),
            total == prob_total(probs@.take(i as int)),
            total <= i * 0xFFFF_FFFF_FFFF_FFFFu128,
        decreases probs.len() - i,
    {
        assert(probs@.take(i + 1).drop_last() =~= probs@.take(i as int));
        total = total + probs[i].1 as u128;
        i = i + 1;
    }
    assert(probs@.take(i as int) =~= probs@);
    total
}

/// Adds every mapping of `src` to the strictly sorted `dst`.
fn insert_all(dst: &mut Vec<(usize, usize)>, src: &Vec<(usize, usize)>)
    requires
        strictly_sorted(old(dst)@),
    ensures
        strictly_sorted(final(dst)@),
        forall|q: (usize, usize)| #[trigger] final(dst)@.contains(q) <==> (old(dst)@.contains(q) || src@.contains(q)),
{
    let mut j: usize = 0;
    while j < src.len()
        invariant
            j <= src.len(),
            strictly_sorted(dst@),
            forall|q: (usize, usize)| #[trigger] dst@.contains(q) <==> (old(dst)@.contains(q) || src@.take(j as int).contains(q)),
        decreases src.len() - j,
    {
        insert_sorted(dst, src[j]);
        assert(src@.take(j + 1) =~= src@.take(j as int).push(src@[j as int]));
        proof {
            lemma_push_contains(src@.take(j as int), src@[j as int]);
        }
        j = j + 1;
    }
    assert(src@.take(j as int) =~= src@);
}

proof fn lemma_sorted_len(s: Seq<(usize, usize)>)
    requires
        strictly_sorted(s),
    ensures
        s.to_set().len() == s.len(),
{
    assert forall|i: int, j: int| 0 <= i < s.len() && 0 <= j < s.len() && i != j implies s[i] != s[j] by {
        if i < j {
            assert(pair_lt(s[i], s[j]));
        } else {
            assert(pair_lt(s[j], s[i]));
        }
    }
    assert(s.no_duplicates());
    s.unique_seq_to_set();
}

/// Whether `v` holds `p`.
fn has_mapping(v: &Vec<(usize, usize)>, p: (usize, usize)) -> (r: bool)
    ensures
        r == v@.contains(p),
{
    let mut i: usize = 0;
    while i < v.len()
        invariant
            i <= v.len(),
            forall|k: int| 0 <= k < i ==> v@[k] != p,
        decreases v.len() - i,
    {
        if v[i].0 == p.0 && v[i].1 == p.1 {
            assert(v@[i as int] == p);
            return true;
        }
        i = i + 1;
    }
    false
}

/// Similarity of two lists of line mappings; see `line_overlap`.
pub fn calculate_line_overlap(m1: &Vec<(usize, usize)>, m2: &Vec<(usize, usize)>) -> (r: u128)
    ensures
        r == line_overlap(m1@, m2@),
{
    let mut sa: Vec<(usize, usize)> = Vec::new();
    insert_all(&mut sa, m1);
    let mut u: Vec<(usize, usize)> = Vec::new();
    insert_all(&mut u, m1);
    insert_all(&mut u, m2);
    let mut inter: Vec<(usize, usize)> = Vec::new();
    let mut i: usize = 0;
    while i < sa.len()
        invariant
            i <= sa.len(),
            strictly_sorted(inter@),
            forall|q: (usize, usize)| #[trigger] inter@.contains(q) <==> (sa@.take(i as int).contains(q)
                && m2@.contains(q)),
        decreases sa.len() - i,
    {
        let p = sa[i];
        assert(sa@.take(i + 1) =~= sa@.take(i as int).push(p));
        proof {
            lemma_push_contains(sa@.take(i as int), p);
        }
        if has_mapping(m2, p) {
            insert_sorted(&mut inter, p);
        }
        i = i + 1;
    }
    assert(sa@.take(i as int) =~= sa@);
    assert(u@.to_set() =~= m1@.to_set().union(m2@.to_set()));
    assert(inter@.to_set() =~= m1@.to_set().intersect(m2@.to_set()));
    proof {
        lemma_sorted_len(u@);
        lemma_sorted_len(inter@);
    }
    if u.len() == 0 {
        0
    } else {
        (inter.len() as u128 * 1_000_000u128) / (u.len() as u128)
    }
}

proof fn lemma_line_overlap_nonneg(a: Seq<(usize, usize)>, b: Seq<(usize, usize)>)
    ensures
        line_overlap(a, b) >= 0,
{
    let u = a.to_set().union(b.to_set());
    let i = a.to_set().intersect(b.to_set());
    if u.len() != 0 {
        assert((i.len() * PROB_SCALE) >= 0) by (nonlinear_arith);
        assert((i.len() * PROB_SCALE) / (u.len() as int) >= 0) by (nonlinear_arith)
            requires (i.len() * PROB_SCALE) >= 0, u.len() > 0;
    }
}

proof fn lemma_overlap_with_nonneg(c: FileChangeView, os: Seq<FileChangeView>)
    ensures
        overlap_with(c, os) >= 0,
    decreases os.len(),
{
    if os.len() > 0 {
        lemma_overlap_with_nonneg(c, os.drop_last());
        lemma_line_overlap_nonneg(c.line_mappings, os.last().line_mappings);
    }
}

proof fn lemma_capped_quotient(x: int, n: int)
    requires
        x >= 0,
        n > 0,
    ensures
        (if x < n * PROB_SCALE { x } else { n * PROB_SCALE }) / n >= PROB_SCALE <==> x / n >= PROB_SCALE,
        x < n * PROB_SCALE ==> x / n < PROB_SCALE,
        (n * PROB_SCALE) / n == PROB_SCALE,
{
    assert((n * PROB_SCALE) / n == PROB_SCALE) by (nonlinear_arith)
        requires n > 0;
    if x < n * PROB_SCALE {
        assert(x / n < PROB_SCALE) by (nonlinear_arith)
            requires x < n * PROB_SCALE, n > 0, x >= 0;
    } else {
        assert(x / n >= PROB_SCALE) by (nonlinear_arith)
            requires x >= n * PROB_SCALE, n > 0;
    }
}

/// The strength of the link between a new commit's `changes` and an older
/// commit's `other` changes; see `entanglement_strength`.
pub fn calculate_entanglement_strength(changes: &Vec<FileChange>, other: &Vec<FileChange>) -> (r: u64)
    ensures
        r == entanglement_strength(change_views(changes@), change_views(other@)),
        r <= PROB_SCALE,
{
    let ghost cs = change_views(changes@);
    let ghost os = change_views(other@);
    let n = changes.len();
    if n == 0 {
        return 0;
    }
    let cap: u128 = n as u128 * 1_000_000u128;
    let mut acc: u128 = 0;
    let mut k: usize = 0;
    while k < n
        invariant
            n == changes.len(),
            n > 0,
            cap == n * PROB_SCALE,
            k <= n,
            cs == change_views(changes@),
            os == change_views(other@),
            overlap_total(cs.take(k as int), os) >= 0,
            acc == if overlap_total(cs.take(k as int), os) < cap {
                overlap_total(cs.take(k as int), os)
            } else {
                cap as int
            },
        decreases n - k,
    {
        let c = &changes[k];
        let mut j: usize = 0;
        let ghost before = overlap_total(cs.take(k as int), os);
        proof {
            lemma_overlap_with_nonneg(cs[k as int], os);
        }
        while j < other.len()
            invariant
                n == changes.len(),
                cap == n * PROB_SCALE,
                k < n,
                j <= other.len(),
                c@ == cs[k as int],
                cs == change_views(changes@),
                os == change_views(other@),
                before >= 0,
                overlap_with(c@, os.take(j as int)) >= 0,
                acc == if before + overlap_with(c@, os.take(j as int)) < cap {
                    before + overlap_with(c@, os.take(j as int))
                } else {
                    cap as int
                },
            decreases other.len() - j,
        {
            assert(os.take(j + 1).drop_last() =~= os.take(j as int));
            assert(os.take(j + 1).last() == other@[j as int]@);
            if other[j].path == c.path {
                let o = calculate_line_overlap(&c.line_mappings, &other[j].line_mappings);
                proof {
                    lemma_line_overlap_nonneg(c.line_mappings@, other@[j as int].line_mappings@);
                }
                if acc >= cap || o >= cap - acc {
                    acc = cap;
                } else {
                    acc = acc + o;
                }
            }
            j = j + 1;
        }
        assert(os.take(j as int) =~= os);
        assert(cs.take(k + 1).drop_last() =~= cs.take(k as int));
        assert(cs.take(k + 1).last() == cs[k as int]);
        k = k + 1;
    }
    assert(cs.take(k as int) =~= cs);
    proof {
        lemma_capped_quotient(overlap_total(cs, os), n as int);
    }
    let s = acc / (n as u128);
    if s < 1_000_000u128 {
        s as u64
    } else {
        PROB_SCALE
    }
}

/// Why a repository operation failed.
#[derive(Debug)]
pub enum QuantumError {
    /// The probabilities, in parts per million, sum to this total, too far from 1.
    InvalidProbabilityDistribution(u128),
    /// No commit has this id. Never raised: the index lists existing commits only.
    CommitNotFound(u64),
    /// The branch has no head.
    BranchNotFound(String),
    /// Declared for later use; never raised.
    QuantumDecoherence,
}

/// Relies on `fastrand::u64` over `0..bound`: a value in that range, which
/// is not empty.
#[verifier::external_body]
fn draw_below(bound: u64) -> (r: u64)
    requires
        bound > 0,
    ensures
        r < bound,
{
    fastrand::u64(0..bound)
}

/// Relies on `SystemTime::now`: seconds since the Unix epoch, 0 for a clock set
/// before it.
#[verifier::external_body]
fn now_secs() -> (r: u64) {
    match std::time::SystemTime::now().duration_since(std::time::UNIX_EPOCH) {
        Ok(d) => d.as_secs(),
        Err(_) => 0,
    }
}

/// Some change of `cs` and some change of `os` touch the same path.
pub open spec fn shares_path(cs: Seq<FileChangeView>, os: Seq<FileChangeView>) -> bool {
    exists|i: int, j: int| 0 <= i < cs.len() && 0 <= j < os.len() && #[trigger] cs[i].path == #[trigger] os[j].path
}

/// Commit `x` of `commits` is uncollapsed and shares a path with `cs`.
pub open spec fn entangles(commits: Seq<QuantumCommit>, cs: Seq<FileChangeView>, x: int) -> bool {
    &&& 0 <= x < commits.len()
    &&& !commits[x].collapsed
    &&& shares_path(cs, change_views(commits[x].changes@))
}

/// `s` is strictly ascending.
pub open spec fn ascending(s: Seq<u64>) -> bool {
    forall|i: int, j: int| 0 <= i < j < s.len() ==> s[i] < s[j]
}

/// The head that `heads` records for `branch`: its first entry.
pub open spec fn head_of(heads: Seq<(String, u64)>, branch: Seq<char>) -> Option<u64>
    decreases heads.len(),
{
    if heads.len() == 0 {
        None
    } else if heads[0].0@ == branch {
        Some(heads[0].1)
    } else {
        head_of(heads.drop_first(), branch)
    }
}

/// The edges that registering a commit with `cs` as number `n` adds: one to
/// each linked commit, weighted by the strength of the link.
pub open spec fn new_edges(
    commits: Seq<QuantumCommit>,
    cs: Seq<FileChangeView>,
    n: usize,
    linked: Seq<u64>,
) -> Seq<(usize, usize, u64)> {
    linked.map_values(
        |x: u64|
            (
                n,
                x as usize,
                entanglement_strength(cs, change_views(commits[x as int].changes@)) as u64,
            ),
    )
}

/// `new` is `old` with one more commit, registered with changes `cs` and
/// distribution `probs`: its id is its position, its digest covers `cs`, it is
/// uncollapsed, it records every uncollapsed commit sharing a path with it, and
/// the graph gains one edge to each of those, weighted by link strength.
pub open spec fn registered(
    old: QuantumRepository,
    new: QuantumRepository,
    cs: Seq<FileChangeView>,
    probs: Seq<(String, u64)>,
) -> bool {
    let n = old.commits().len();
    let c = new.commits()[n as int];
    &&& new.commits().len() == n + 1
    &&& new.commits().take(n as int) == old.commits()
    &&& c.id == n
    &&& c.content_hash@ == content_hash_of(cs)
    &&& c.superposition_states@ == probs
    &&& !c.collapsed
    &&& change_views(c.changes@) == cs
    &&& ascending(c.entangled_commits@)
    &&& forall|x: u64| #[trigger] c.entangled_commits@.contains(x) <==> entangles(old.commits(), cs, x as int)
    &&& new.heads() == old.heads()
    &&& new.edges() == old.edges() + new_edges(old.commits(), cs, n as usize, c.entangled_commits@)
}

/// The probability that `states` gives `branch`: its first entry.
pub open spec fn prob_of(states: Seq<(String, u64)>, branch: Seq<char>) -> Option<u64>
    decreases states.len(),
{
    if states.len() == 0 {
        None
    } else if states[0].0@ == branch {
        Some(states[0].1)
    } else {
        prob_of(states.drop_first(), branch)
    }
}

/// Commit `i` is uncollapsed, gives `branch` a probability, and its draw falls
/// below that probability.
pub open spec fn wins_at(commits: Seq<QuantumCommit>, branch: Seq<char>, draws: Seq<u64>, i: int) -> bool {
    &&& 0 <= i < commits.len()
    &&& !commits[i].collapsed
    &&& prob_of(commits[i].superposition_states@, branch) is Some
    &&& i < draws.len()
    &&& draws[i] < prob_of(commits[i].superposition_states@, branch).unwrap()
}

/// The ids, ascending, of the commits among the first `n` that collapse.
pub open spec fn winners(commits: Seq<QuantumCommit>, branch: Seq<char>, draws: Seq<u64>, n: int) -> Seq<u64>
    decreases n,
{
    if n <= 0 {
        Seq::empty()
    } else if wins_at(commits, branch, draws, n - 1) {
        winners(commits, branch, draws, n - 1).push((n - 1) as u64)
    } else {
        winners(commits, branch, draws, n - 1)
    }
}

/// How many commits of `ws` reach node `j`.
pub open spec fn reach_count(ws: Seq<u64>, edges: Seq<(usize, usize, u64)>, j: int) -> nat
    decreases ws.len(),
{
    if ws.len() == 0 {
        0
    } else {
        reach_count(ws.drop_last(), edges, j) + if reachable(edges, ws.last() as int, j) {
            1nat
        } else {
            0nat
        }
    }
}

/// A probability after one interference: four fifths of it, rounded down.
pub open spec fn dampen(p: int) -> int {
    (p * 4) / 5
}

/// A probability after `m` interferences.
pub open spec fn dampen_times(p: int, m: nat) -> int
    decreases m,
{
    if m == 0 {
        p
    } else {
        dampen(dampen_times(p, (m - 1) as nat))
    }
}

/// A distribution after `m` interferences: every probability dampened `m` times.
pub open spec fn damped(states: Seq<(String, u64)>, m: nat) -> Seq<(String, u64)> {
    states.map_values(|e: (String, u64)| (e.0, dampen_times(e.1 as int, m) as u64))
}

/// `c` is `o` with its distribution replaced.
pub open spec fn same_but_states(o: QuantumCommit, c: QuantumCommit) -> bool {
    &&& c.id == o.id
    &&& c.content_hash == o.content_hash
    &&& c.entangled_commits == o.entangled_commits
    &&& c.timestamp == o.timestamp
    &&& c.changes == o.changes
}

/// `new` is `old` after observing `branch` with `draws[i]` drawn for commit `i`:
/// each winner collapses onto `branch` alone, and each other uncollapsed commit
/// has every probability dampened once per winner that reaches it in the graph.
pub open spec fn observed(
    old: QuantumRepository,
    new: QuantumRepository,
    branch: Seq<char>,
    draws: Seq<u64>,
) -> bool {
    let n = old.commits().len();
    let ws = winners(old.commits(), branch, draws, n as int);
    &&& new.commits().len() == n
    &&& new.edges() == old.edges()
    &&& forall|i: int|
        0 <= i < n ==> {
            let o = old.commits()[i];
            let c = #[trigger] new.commits()[i];
            &&& same_but_states(o, c)
            &&& if wins_at(old.commits(), branch, draws, i) {
                &&& c.collapsed
                &&& c.superposition_states@.len() == 1
                &&& c.superposition_states@[0].0@ == branch
                &&& c.superposition_states@[0].1 == prob_of(o.superposition_states@, branch).unwrap()
            } else if o.collapsed {
                c == o
            } else {
                &&& !c.collapsed
                &&& c.superposition_states@ == damped(o.superposition_states@, reach_count(ws, old.edges(), i))
            }
        }
    &&& if ws.len() > 0 {
        head_of(new.heads(), branch) == Some(ws.last())
    } else {
        new.heads() == old.heads()
    }
    &&& forall|q: Seq<char>| q != branch ==> head_of(new.heads(), q) == head_of(old.heads(), q)
}

/// Commit `c` has a change to `path`.
pub open spec fn touches(c: QuantumCommit, path: Seq<char>) -> bool {
    exists|k: int| 0 <= k < c.changes@.len() && (#[trigger] c.changes@[k]).path@ == path
}

/// `index` holds one entry per path, and lists under it exactly the commits
/// of `commits` that touch that path.
pub open spec fn index_ok(index: Seq<(String, Vec<u64>)>, commits: Seq<QuantumCommit>) -> bool {
    &&& keys_distinct(index)
    &&& forall|e: int, t: int|
        0 <= e < index.len() && 0 <= t < index[e].1@.len() ==> {
            let x = #[trigger] index[e].1@[t];
            x < commits.len() && touches(commits[x as int], index[e].0@)
        }
    &&& forall|i: int, k: int|
        0 <= i < commits.len() && 0 <= k < commits[i].changes@.len() ==> listed(
            index,
            (#[trigger] commits[i].changes@[k]).path@,
            i as u64,
        )
}

/// Some entry of `index` for `path` lists commit `i`.
pub open spec fn listed(index: Seq<(String, Vec<u64>)>, path: Seq<char>, i: u64) -> bool {
    exists|e: int| 0 <= e < index.len() && (#[trigger] index[e]).0@ == path && index[e].1@.contains(i)
}

/// A repository of commits in superposition.
pub struct QuantumRepository {
    commits: Vec<QuantumCommit>,
    branch_heads: Vec<(String, u64)>,
    entanglement_graph: EntanglementGraph,
    /// Every commit that ever touched a path, under that path; collapsing a
    /// commit does not remove it, so readers skip collapsed commits.
    superposition_index: Vec<(String, Vec<u64>)>,
}

proof fn lemma_ascending_len(s: Seq<u64>, n: int)
    requires
        n >= 0,
        ascending(s),
        forall|t: int| 0 <= t < s.len() ==> s[t] < n,
    ensures
        s.len() <= n,
{
    if s.len() > 0 {
        assert forall|t: int| 0 <= t < s.len() implies s[t] >= t by {
            lemma_ascending_lower(s, t);
        }
        assert(s[s.len() - 1] >= s.len() - 1);
        assert(s[s.len() - 1] < n);
    }
}

proof fn lemma_ascending_lower(s: Seq<u64>, t: int)
    requires
        ascending(s),
        0 <= t < s.len(),
    ensures
        s[t] >= t,
    decreases t,
{
    if t > 0 {
        lemma_ascending_lower(s, t - 1);
    }
}

proof fn lemma_head_of_update(t: Seq<(String, u64)>, i: int, e: (String, u64))
    requires
        0 <= i < t.len(),
        t[i].0@ == e.0@,
        forall|j: int| 0 <= j < i ==> (#[trigger] t[j]).0@ != e.0@,
    ensures
        head_of(t.update(i, e), e.0@) == Some(e.1),
        forall|q: Seq<char>| q != e.0@ ==> head_of(t.update(i, e), q) == head_of(t, q),
    decreases i,
{
    if i > 0 {
        lemma_head_of_update(t.drop_first(), i - 1, e);
        assert(t.update(i, e).drop_first() =~= t.drop_first().update(i - 1, e));
        assert forall|q: Seq<char>| q != e.0@ implies head_of(t.update(i, e), q) == head_of(t, q) by {
            assert(head_of(t.drop_first().update(i - 1, e), q) == head_of(t.drop_first(), q));
        }
    } else {
        assert(t.update(i, e).drop_first() =~= t.drop_first());
    }
}

proof fn lemma_head_of_push(t: Seq<(String, u64)>, e: (String, u64))
    requires
        forall|j: int| 0 <= j < t.len() ==> (#[trigger] t[j]).0@ != e.0@,
    ensures
        head_of(t.push(e), e.0@) == Some(e.1),
        forall|q: Seq<char>| q != e.0@ ==> head_of(t.push(e), q) == head_of(t, q),
    decreases t.len(),
{
    if t.len() > 0 {
        lemma_head_of_push(t.drop_first(), e);
        assert(t.push(e).drop_first() =~= t.drop_first().push(e));
        assert forall|q: Seq<char>| q != e.0@ implies head_of(t.push(e), q) == head_of(t, q) by {
            assert(head_of(t.drop_first().push(e), q) == head_of(t.drop_first(), q));
        }
    } else {
        assert(t.push(e).drop_first() =~= Seq::<(String, u64)>::empty());
        assert forall|q: Seq<char>| q != e.0@ implies head_of(t.push(e), q) == head_of(t, q) by {
            assert(head_of(t.push(e).drop_first(), q) == None::<u64>);
        }
    }
}

/// Records `id` as the head of `branch`; other branches keep theirs.
fn set_head(heads: &mut Vec<(String, u64)>, branch: String, id: u64)
    ensures
        head_of(final(heads)@, branch@) == Some(id),
        forall|q: Seq<char>| q != branch@ ==> head_of(final(heads)@, q) == head_of(old(heads)@, q),
        forall|h: int| 0 <= h < final(heads)@.len() ==> (#[trigger] final(heads)@[h]).1 == id
            || old(heads)@.contains(final(heads)@[h]),
{
    let ghost t0 = heads@;
    let mut i: usize = 0;
    while i < heads.len()
        invariant
            i <= heads.len(),
            heads@ == t0,
            old(heads)@ == t0,
            forall|j: int| 0 <= j < i ==> (#[trigger] t0[j]).0@ != branch@,
        decreases heads.len() - i,
    {
        if heads[i].0 == branch {
            let ghost e = (branch, id);
            heads.set(i, (branch, id));
            proof {
                lemma_head_of_update(t0, i as int, e);
                assert forall|h: int| 0 <= h < heads@.len() implies (#[trigger] heads@[h]).1 == id
                    || t0.contains(heads@[h]) by {
                    if h != i {
                        assert(heads@[h] == t0[h]);
                    }
                }
            }
            return;
        }
        i = i + 1;
    }
    let ghost e = (branch, id);
    heads.push((branch, id));
    proof {
        lemma_head_of_push(t0, e);
        assert forall|h: int| 0 <= h < heads@.len() implies (#[trigger] heads@[h]).1 == id
            || t0.contains(heads@[h]) by {
            if h < t0.len() {
                assert(heads@[h] == t0[h]);
            }
        }
    }
}

/// The probability that `states` gives `branch`.
fn prob_lookup(states: &Vec<(String, u64)>, branch: &String) -> (r: Option<u64>)
    ensures
        r == prob_of(states@, branch@),
{
    let mut i: usize = 0;
    assert(states@.skip(0) =~= states@);
    while i < states.len()
        invariant
            i <= states.len(),
            prob_of(states@, branch@) == prob_of(states@.skip(i as int), branch@),
        decreases states.len() - i,
    {
        if states[i].0 == *branch {
            assert(states@.skip(i as int)[0] == states@[i as int]);
            return Some(states[i].1);
        }
        assert(states@.skip(i as int).drop_first() =~= states@.skip(i + 1));
        i = i + 1;
    }
    None
}

/// Dampens every probability of `states` once.
fn dampen_states(states: &mut Vec<(String, u64)>)
    ensures
        final(states)@ == damped(old(states)@, 1),
{
    let ghost s0 = states@;
    let mut k: usize = 0;
    while k < states.len()
        invariant
            k <= states.len(),
            states@.len() == s0.len(),
            forall|t: int| 0 <= t < k ==> #[trigger] states@[t] == (s0[t].0, dampen(s0[t].1 as int) as u64),
            forall|t: int| k <= t < s0.len() ==> #[trigger] states@[t] == s0[t],
        decreases states.len() - k,
    {
        let p = states[k].1;
        let name = states[k].0.clone();
        let q = ((p as u128 * 4) / 5) as u64;
        states.set(k, (name, q));
        k = k + 1;
    }
    assert forall|t: int| 0 <= t < s0.len() implies #[trigger] damped(s0, 1)[t] == (s0[t].0, dampen(s0[t].1 as int) as u64) by {
        assert(dampen_times(s0[t].1 as int, 1) == dampen(dampen_times(s0[t].1 as int, 0)));
    }
    assert(states@ =~= damped(s0, 1));
}

proof fn lemma_damped_step(s: Seq<(String, u64)>, m: nat)
    requires
        forall|t: int| 0 <= t < s.len() ==> 0 <= #[trigger] dampen_times(s[t].1 as int, m) <= s[t].1,
    ensures
        damped(damped(s, m), 1) == damped(s, m + 1),
{
    assert forall|t: int| 0 <= t < s.len() implies #[trigger] damped(damped(s, m), 1)[t] == damped(s, m + 1)[t] by {
        assert(dampen_times(damped(s, m)[t].1 as int, 1) == dampen(dampen_times(damped(s, m)[t].1 as int, 0)));
    }
    assert(damped(damped(s, m), 1) =~= damped(s, m + 1));
}

proof fn lemma_dampen_times_bounds(p: int, m: nat)
    requires
        p >= 0,
    ensures
        0 <= dampen_times(p, m) <= p,
    decreases m,
{
    if m > 0 {
        lemma_dampen_times_bounds(p, (m - 1) as nat);
        let q = dampen_times(p, (m - 1) as nat);
        assert(0 <= (q * 4) / 5 <= q) by (nonlinear_arith)
            requires q >= 0;
    }
}

proof fn lemma_winners_collapse(commits: Seq<QuantumCommit>, branch: Seq<char>, draws: Seq<u64>, n: int, t: int)
    requires
        0 <= t < winners(commits, branch, draws, n).len(),
        n < 0x1_0000_0000,
    ensures
        wins_at(commits, branch, draws, winners(commits, branch, draws, n)[t] as int),
    decreases n,
{
    if n > 0 {
        if wins_at(commits, branch, draws, n - 1) && t == winners(commits, branch, draws, n - 1).len() {
        } else {
            if wins_at(commits, branch, draws, n - 1) {
                assert(winners(commits, branch, draws, n)[t] == winners(commits, branch, draws, n - 1)[t]);
            }
            lemma_winners_collapse(commits, branch, draws, n - 1, t);
        }
    }
}

proof fn lemma_index_same_changes(
    index: Seq<(String, Vec<u64>)>,
    c1: Seq<QuantumCommit>,
    c2: Seq<QuantumCommit>,
)
    requires
        index_ok(index, c1),
        c1.len() == c2.len(),
        c1.len() < 0xFFFF_FFFF,
        forall|i: int| 0 <= i < c1.len() ==> (#[trigger] c2[i]).changes == c1[i].changes,
    ensures
        index_ok(index, c2),
{
    assert forall|e: int, t: int| 0 <= e < index.len() && 0 <= t < index[e].1@.len() implies {
        let x = #[trigger] index[e].1@[t];
        x < c2.len() && touches(c2[x as int], index[e].0@)
    } by {
        let x = index[e].1@[t];
        assert(c2[x as int].changes == c1[x as int].changes);
        let k = choose|k: int| 0 <= k < c1[x as int].changes@.len() && (#[trigger] c1[x as int].changes@[k]).path@ == index[e].0@;
        assert(c2[x as int].changes@[k] == c1[x as int].changes@[k]);
    }
    assert forall|i: int, k: int| 0 <= i < c2.len() && 0 <= k < c2[i].changes@.len() implies listed(
        index,
        (#[trigger] c2[i].changes@[k]).path@,
        i as u64,
    ) by {
        assert(c2[i].changes == c1[i].changes);
        assert(c2[i].changes@[k] == c1[i].changes@[k]);
    }
}

/// The keys of `index` are distinct.
pub open spec fn keys_distinct(index: Seq<(String, Vec<u64>)>) -> bool {
    forall|e1: int, e2: int|
        0 <= e1 < index.len() && 0 <= e2 < index.len() && e1 != e2 ==> (#[trigger] index[e1]).0@
            != (#[trigger] index[e2]).0@
}

/// Adds `x` to the ascending `r`, unless it is there already.
fn insert_ascending(r: &mut Vec<u64>, x: u64)
    requires
        ascending(old(r)@),
    ensures
        ascending(final(r)@),
        forall|q: u64| #[trigger] final(r)@.contains(q) <==> (old(r)@.contains(q) || q == x),
{
    let mut i: usize = 0;
    while i < r.len() && r[i] < x
        invariant
            i <= r.len(),
            r@ == old(r)@,
            forall|j: int| 0 <= j < i ==> #[trigger] r@[j] < x,
        decreases r.len() - i,
    {
        i = i + 1;
    }
    if i < r.len() && r[i] == x {
        assert(r@[i as int] == x);
        assert(r@.contains(x));
    } else {
        let ghost before = r@;
        r.insert(i, x);
        assert(r@ == before.insert(i as int, x));
        assert forall|a: int, b: int| 0 <= a < b < r@.len() implies #[trigger] r@[a] < #[trigger] r@[b] by {
            if b < i {
            } else if b == i {
            } else if a < i {
                assert(r@[a] < x);
                if i < before.len() {
                    assert(x < before[i as int]);
                }
            } else if a == i {
                assert(x < before[i as int]);
                assert(b - 1 == i || before[i as int] < before[b - 1]);
            } else {
            }
        }
        assert forall|q: u64| #[trigger] r@.contains(q) <==> (before.contains(q) || q == x) by {
            if r@.contains(q) {
                let k = choose|k: int| 0 <= k < r@.len() && r@[k] == q;
                if k < i {
                    assert(before[k] == q);
                } else if k > i {
                    assert(before[k - 1] == q);
                }
            }
            if before.contains(q) {
                let k = choose|k: int| 0 <= k < before.len() && before[k] == q;
                if k < i {
                    assert(r@[k] == q);
                } else {
                    assert(r@[k + 1] == q);
                }
            }
            if q == x {
                assert(r@[i as int] == q);
            }
        }
    }
}

/// Lists commit `id` under `path`.
fn index_insert(index: &mut Vec<(String, Vec<u64>)>, path: &String, id: u64)
    requires
        keys_distinct(old(index)@),
    ensures
        keys_distinct(final(index)@),
        listed(final(index)@, path@, id),
        forall|p: Seq<char>, i: u64| #[trigger] listed(old(index)@, p, i) ==> listed(final(index)@, p, i),
        forall|e: int, t: int|
            0 <= e < final(index)@.len() && 0 <= t < final(index)@[e].1@.len() ==> {
                let x = #[trigger] final(index)@[e].1@[t];
                (final(index)@[e].0@ == path@ && x == id) || listed(old(index)@, final(index)@[e].0@, x)
            },
{
    let ghost t0 = index@;
    let mut i: usize = 0;
    while i < index.len()
        invariant
            i <= index.len(),
            index@ == t0,
            old(index)@ == t0,
            keys_distinct(t0),
            forall|j: int| 0 <= j < i ==> (#[trigger] t0[j]).0@ != path@,
        decreases index.len() - i,
    {
        if index[i].0 == *path {
            let ghost l0 = index@[i as int].1@;
            index[i].1.push(id);
            proof {
                assert(index@[i as int].1@ == l0.push(id));
                assert(index@[i as int].0 == t0[i as int].0);
                assert(forall|e: int| 0 <= e < index@.len() && e != i ==> index@[e] == t0[e]);
                lemma_push_contains(l0, id);
                assert(index@[i as int].1@[l0.len() as int] == id);
                assert forall|p: Seq<char>, x: u64| #[trigger] listed(t0, p, x) implies listed(index@, p, x) by {
                    let e = choose|e: int| 0 <= e < t0.len() && (#[trigger] t0[e]).0@ == p && t0[e].1@.contains(x);
                    assert(index@[e].0@ == p);
                    if e == i {
                        assert(index@[e].1@.contains(x));
                    } else {
                        assert(index@[e] == t0[e]);
                    }
                }
                assert forall|e: int, t: int| 0 <= e < index@.len() && 0 <= t < index@[e].1@.len() implies {
                    let x = #[trigger] index@[e].1@[t];
                    (index@[e].0@ == path@ && x == id) || listed(t0, index@[e].0@, x)
                } by {
                    let x = index@[e].1@[t];
                    if e != i {
                        assert(index@[e] == t0[e]);
                        assert(t0[e].1@[t] == x);
                        assert(t0[e].1@.contains(x));
                    } else if t < l0.len() {
                        assert(l0[t] == x);
                        assert(t0[e].1@.contains(x));
                    }
                }
                assert forall|e1: int, e2: int| 0 <= e1 < index@.len() && 0 <= e2 < index@.len() && e1 != e2 implies (#[trigger] index@[e1]).0@ != (#[trigger] index@[e2]).0@ by {
                    assert(index@[e1].0 == t0[e1].0);
                    assert(index@[e2].0 == t0[e2].0);
                    assert(t0[e1].0@ != t0[e2].0@);
                }
            }
            return;
        }
        i = i + 1;
    }
    let mut ids: Vec<u64> = Vec::new();
    ids.push(id);
    index.push((path.clone(), ids));
    proof {
        let last = t0.len() as int;
        assert(index@[last].1@[0] == id);
        assert forall|p: Seq<char>, x: u64| #[trigger] listed(t0, p, x) implies listed(index@, p, x) by {
            let e = choose|e: int| 0 <= e < t0.len() && (#[trigger] t0[e]).0@ == p && t0[e].1@.contains(x);
            assert(index@[e] == t0[e]);
        }
        assert forall|e: int, t: int| 0 <= e < index@.len() && 0 <= t < index@[e].1@.len() implies {
            let x = #[trigger] index@[e].1@[t];
            (index@[e].0@ == path@ && x == id) || listed(t0, index@[e].0@, x)
        } by {
            if e < last {
                assert(index@[e] == t0[e]);
                assert(t0[e].1@.contains(index@[e].1@[t]));
            }
        }
    }
}

proof fn lemma_listed_touches(index: Seq<(String, Vec<u64>)>, commits: Seq<QuantumCommit>, p: Seq<char>, x: u64)
    requires
        index_ok(index, commits),
        listed(index, p, x),
    ensures
        x < commits.len(),
        touches(commits[x as int], p),
{
    let e = choose|e: int| 0 <= e < index.len() && (#[trigger] index[e]).0@ == p && index[e].1@.contains(x);
    let t = choose|t: int| 0 <= t < index[e].1@.len() && index[e].1@[t] == x;
    assert(index[e].1@[t] < commits.len());
}

impl QuantumRepository {
    /// The commits, by id.
    pub closed spec fn commits(&self) -> Seq<QuantumCommit> {
        self.commits@
    }

    /// Branch names with their head commits; the first entry for a name counts.
    pub closed spec fn heads(&self) -> Seq<(String, u64)> {
        self.branch_heads@
    }

    /// The edges of the entanglement graph, in the order they were added.
    pub closed spec fn edges(&self) -> Seq<(usize, usize, u64)> {
        graph_edges(self.entanglement_graph)
    }

    /// The repository's parts agree: ids are positions, node `i` stands for
    /// commit `i`, edges join existing commits with weights in [0, 1], and
    /// heads name collapsed commits, and the index lists who touched each path.
    pub closed spec fn wf(&self) -> bool {
        let n = self.commits@.len();
        &&& n < 0xFFFF_FFFF
        &&& index_ok(self.superposition_index@, self.commits@)
        &&& forall|i: int| 0 <= i < n ==> (#[trigger] self.commits@[i]).id == i
        &&& graph_nodes(self.entanglement_graph).len() == n
        &&& forall|i: int| 0 <= i < n ==> (#[trigger] graph_nodes(self.entanglement_graph)[i]) == i
        &&& forall|k: int|
            0 <= k < graph_edges(self.entanglement_graph).len() ==> {
                let e = #[trigger] graph_edges(self.entanglement_graph)[k];
                e.0 < n && e.1 < n && e.2 <= PROB_SCALE
            }
        &&& forall|h: int|
            0 <= h < self.branch_heads@.len() ==> {
                let e = #[trigger] self.branch_heads@[h];
                e.1 < n && self.commits@[e.1 as int].collapsed
            }
    }

    /// An empty repository.
    pub fn new() -> (r: QuantumRepository)
        ensures
            r.wf(),
            r.commits() == Seq::<QuantumCommit>::empty(),
            r.heads() == Seq::<(String, u64)>::empty(),
            r.edges() == Seq::<(usize, usize, u64)>::empty(),
    {
        QuantumRepository {
            commits: Vec::new(),
            branch_heads: Vec::new(),
            entanglement_graph: graph_new(),
            superposition_index: Vec::new(),
        }
    }

    /// The number of commits.
    pub fn commit_count(&self) -> (r: usize)
        ensures
            r == self.commits().len(),
    {
        self.commits.len()
    }

    /// The commit with id `id`.
    pub fn commit(&self, id: u64) -> (r: Option<&QuantumCommit>)
        ensures
            id < self.commits().len() ==> r == Some(&self.commits()[id as int]),
            id >= self.commits().len() ==> r is None,
    {
        if id < self.commits.len() as u64 {
            Some(&self.commits[id as usize])
        } else {
            None
        }
    }

    /// The number of edges of the entanglement graph.
    pub fn edge_count(&self) -> (r: usize)
        ensures
            r == self.edges().len(),
    {
        crate::entanglement::graph_edge_count(&self.entanglement_graph)
    }

    /// The head of `branch`, if it has one.
    pub fn branch_head(&self, branch: &str) -> (r: Option<u64>)
        ensures
            r == head_of(self.heads(), branch@),
    {
        let b = branch.to_owned();
        let t = &self.branch_heads;
        let mut i: usize = 0;
        assert(t@.skip(0) =~= t@);
        while i < t.len()
            invariant
                i <= t.len(),
                t@ == self.branch_heads@,
                b@ == branch@,
                head_of(t@, b@) == head_of(t@.skip(i as int), b@),
            decreases t.len() - i,
        {
            if t[i].0 == b {
                assert(t@.skip(i as int)[0] == t@[i as int]);
                return Some(t[i].1);
            }
            assert(t@.skip(i as int).drop_first() =~= t@.skip(i + 1));
            i = i + 1;
        }
        None
    }

    /// The node of the entanglement graph that stands for commit `id`.
    pub fn find_node_by_commit(&self, id: u64) -> (r: Option<usize>)
        requires
            self.wf(),
        ensures
            id < self.commits().len() ==> r == Some(id as usize),
            id >= self.commits().len() ==> r is None,
    {
        let n = graph_node_count(&self.entanglement_graph);
        let mut i: usize = 0;
        while i < n
            invariant
                self.wf(),
                n == self.commits@.len(),
                i <= n,
                i <= id,
            decreases n - i,
        {
            if graph_node_weight(&self.entanglement_graph, i) == id {
                return Some(i);
            }
            i = i + 1;
        }
        None
    }

    /// The digest of `changes`: SHA3-256 over each path and payload in order.
    pub fn calculate_content_hash(&self, changes: &Vec<FileChange>) -> (r: String)
        ensures
            r@ == content_hash_of(change_views(changes@)),
    {
        let bytes = hash_input_bytes(changes);
        sha3_hex(&bytes)
    }

    /// The ids, ascending, of the uncollapsed commits that share a path with
    /// `changes`, found through the superposition index.
    pub fn calculate_entanglements(&self, changes: &Vec<FileChange>) -> (r: Vec<u64>)
        requires
            self.wf(),
        ensures
            ascending(r@),
            forall|x: u64| #[trigger] r@.contains(x) <==> entangles(self.commits(), change_views(changes@), x as int),
    {
        let ghost cs = change_views(changes@);
        let ghost commits = self.commits@;
        let ghost idx = self.superposition_index@;
        let n = self.commits.len();
        let mut r: Vec<u64> = Vec::new();
        let mut a: usize = 0;
        while a < changes.len()
            invariant
                self.wf(),
                n == commits.len(),
                commits == self.commits@,
                idx == self.superposition_index@,
                a <= changes.len(),
                cs == change_views(changes@),
                ascending(r@),
                forall|x: u64| #[trigger] r@.contains(x) <==> (x < n && !commits[x as int].collapsed && exists|a2: int|
                    0 <= a2 < a && touches(commits[x as int], #[trigger] cs[a2].path)),
            decreases changes.len() - a,
        {
            let path = &changes[a].path;
            let ghost before = r@;
            match self.index_lookup(path) {
                Some(e) => {
                    let ids = &self.superposition_index[e].1;
                    let mut t: usize = 0;
                    while t < ids.len()
                        invariant
                            self.wf(),
                            n == commits.len(),
                            commits == self.commits@,
                            idx == self.superposition_index@,
                            e < idx.len(),
                            ids@ == idx[e as int].1@,
                            t <= ids@.len(),
                            ascending(r@),
                            forall|x: u64| #[trigger] r@.contains(x) <==> (before.contains(x) || (ids@.take(t as int).contains(x)
                                && x < n && !commits[x as int].collapsed)),
                        decreases ids.len() - t,
                    {
                        let x = ids[t];
                        assert(x < n) by {
                            assert(idx[e as int].1@[t as int] == x);
                        }
                        assert(ids@.take(t + 1) =~= ids@.take(t as int).push(x));
                        proof {
                            lemma_push_contains(ids@.take(t as int), x);
                        }
                        if !self.commits[x as usize].collapsed {
                            insert_ascending(&mut r, x);
                        }
                        t = t + 1;
                    }
                    assert(ids@.take(t as int) =~= ids@);
                    proof {
                        assert forall|x: u64| x < n && touches(commits[x as int], path@) implies #[trigger] ids@.contains(x) by {
                            let k = choose|k: int| 0 <= k < commits[x as int].changes@.len() && (#[trigger] commits[x as int].changes@[k]).path@ == path@;
                            assert(listed(idx, commits[x as int].changes@[k].path@, x));
                            let e2 = choose|e2: int| 0 <= e2 < idx.len() && (#[trigger] idx[e2]).0@ == path@ && idx[e2].1@.contains(x);
                            assert(keys_distinct(idx));
                            if e2 != e {
                                assert(idx[e2].0@ != idx[e as int].0@);
                            }
                        }
                        assert forall|x: u64| #[trigger] ids@.contains(x) implies x < n && touches(commits[x as int], path@) by {
                            assert(listed(idx, path@, x));
                            lemma_listed_touches(idx, commits, path@, x);
                        }
                    }
                },
                None => {
                    proof {
                        assert forall|x: u64| x < n implies !touches(commits[x as int], path@) by {
                            if touches(commits[x as int], path@) {
                                let k = choose|k: int| 0 <= k < commits[x as int].changes@.len() && (#[trigger] commits[x as int].changes@[k]).path@ == path@;
                                assert(listed(idx, commits[x as int].changes@[k].path@, x));
                            }
                        }
                    }
                },
            }
            proof {
                assert(cs[a as int].path == path@);
                assert forall|x: u64| #[trigger] r@.contains(x) <==> (x < n && !commits[x as int].collapsed && exists|a2: int|
                    0 <= a2 < a + 1 && touches(commits[x as int], #[trigger] cs[a2].path)) by {
                    if x < n && !commits[x as int].collapsed && touches(commits[x as int], cs[a as int].path) {
                        assert(r@.contains(x));
                    }
                }
            }
            a = a + 1;
        }
        proof {
            assert forall|x: u64| #[trigger] r@.contains(x) <==> entangles(self.commits(), cs, x as int) by {
                let ov = change_views(commits[x as int].changes@);
                if x < n {
                    if shares_path(cs, ov) {
                        let (a2, b2) = choose|a2: int, b2: int| 0 <= a2 < cs.len() && 0 <= b2 < ov.len() && #[trigger] cs[a2].path == #[trigger] ov[b2].path;
                        assert(commits[x as int].changes@[b2].path@ == cs[a2].path);
                    }
                    if exists|a2: int| 0 <= a2 < changes.len() && touches(commits[x as int], #[trigger] cs[a2].path) {
                        let a2 = choose|a2: int| 0 <= a2 < changes.len() && touches(commits[x as int], #[trigger] cs[a2].path);
                        let b2 = choose|b2: int| 0 <= b2 < commits[x as int].changes@.len() && (#[trigger] commits[x as int].changes@[b2]).path@ == cs[a2].path;
                        assert(ov[b2].path == cs[a2].path);
                    }
                }
            }
        }
        r
    }

    /// The entry of the superposition index for `path`.
    fn index_lookup(&self, path: &String) -> (r: Option<usize>)
        ensures
            r matches Some(e) ==> e < self.superposition_index@.len() && self.superposition_index@[e as int].0@ == path@,
            r is None ==> forall|e: int| 0 <= e < self.superposition_index@.len() ==> (#[trigger] self.superposition_index@[e]).0@ != path@,
    {
        let mut i: usize = 0;
        while i < self.superposition_index.len()
            invariant
                i <= self.superposition_index@.len(),
                forall|e: int| 0 <= e < i ==> (#[trigger] self.superposition_index@[e]).0@ != path@,
            decreases self.superposition_index.len() - i,
        {
            if self.superposition_index[i].0 == *path {
                return Some(i);
            }
            i = i + 1;
        }
        None
    }

    /// Registers a commit with `changes` in superposition over the branches of
    /// `branch_probabilities`, and links it to every uncollapsed commit that
    /// touches one of its paths. A distribution whose total is more than
    /// `PROB_TOLERANCE` away from `PROB_SCALE` is refused, and nothing changes.
    pub fn commit_superposition(
        &mut self,
        changes: Vec<FileChange>,
        branch_probabilities: Vec<(String, u64)>,
    ) -> (r: Result<u64, QuantumError>)
        requires
            old(self).wf(),
            old(self).commits().len() + 1 < 0xFFFF_FFFF,
            old(self).edges().len() + old(self).commits().len() < 0xFFFF_FFFF,
        ensures
            final(self).wf(),
            !total_acceptable(prob_total(branch_probabilities@)) ==> {
                &&& r matches Err(QuantumError::InvalidProbabilityDistribution(t)) && t == prob_total(
                    branch_probabilities@,
                )
                &&& final(self).commits() == old(self).commits()
                &&& final(self).heads() == old(self).heads()
                &&& final(self).edges() == old(self).edges()
            },
            total_acceptable(prob_total(branch_probabilities@)) ==> {
                &&& r == Ok::<u64, QuantumError>(old(self).commits().len() as u64)
                &&& forall|i: int| 0 <= i < old(self).commits().len() ==> (#[trigger] old(self).commits()[i]).id
                    != old(self).commits().len()
                &&& registered(*old(self), *final(self), change_views(changes@), branch_probabilities@)
            },
    {
        let total = sum_probabilities(&branch_probabilities);
        if total < 999_000u128 || total > 1_001_000u128 {
            return Err(QuantumError::InvalidProbabilityDistribution(total));
        }
        let ghost cs = change_views(changes@);
        let ghost old_commits = self.commits@;
        let ghost old_edges = graph_edges(self.entanglement_graph);
        let ghost old_nodes = graph_nodes(self.entanglement_graph);
        let n = self.commits.len();
        let commit_id = n as u64;
        let content_hash = self.calculate_content_hash(&changes);
        let entangled_commits = self.calculate_entanglements(&changes);
        let timestamp = now_secs();
        let mut links: Vec<(usize, u64)> = Vec::new();
        let mut k: usize = 0;
        while k < entangled_commits.len()
            invariant
                self.wf(),
                self.commits@ == old_commits,
                self.branch_heads@ == old(self).branch_heads@,
                self.superposition_index == old(self).superposition_index,
                old_commits == old(self).commits@,
                old_nodes == graph_nodes(old(self).entanglement_graph),
                old_edges == graph_edges(old(self).entanglement_graph),
                self.entanglement_graph == old(self).entanglement_graph,
                n == old_commits.len(),
                cs == change_views(changes@),
                k <= entangled_commits@.len(),
                links@.len() == k,
                forall|x: u64| #[trigger] entangled_commits@.contains(x) ==> entangles(old_commits, cs, x as int),
                forall|t: int| 0 <= t < k ==> #[trigger] links@[t] == (entangled_commits@[t] as usize,
                    entanglement_strength(cs, change_views(old_commits[entangled_commits@[t] as int].changes@)) as u64),
                forall|t: int| 0 <= t < k ==> (#[trigger] links@[t]).1 <= PROB_SCALE,
            decreases entangled_commits.len() - k,
        {
            let x = entangled_commits[k];
            assert(entangled_commits@.contains(x));
            match self.find_node_by_commit(x) {
                Some(target) => {
                    let strength = calculate_entanglement_strength(&changes, &self.commits[x as usize].changes);
                    links.push((target, strength));
                },
                None => {},
            }
            k = k + 1;
        }
        proof {
            assert forall|t: int| 0 <= t < entangled_commits@.len() implies entangled_commits@[t] < n by {
                assert(entangled_commits@.contains(entangled_commits@[t]));
            }
            lemma_ascending_len(entangled_commits@, n as int);
            assert forall|t: int| 0 <= t < links@.len() implies (#[trigger] links@[t]).0 < n by {
                assert(entangled_commits@.contains(entangled_commits@[t]));
            }
        }
        let node = graph_add_node(&mut self.entanglement_graph, commit_id);
        let mut k: usize = 0;
        while k < links.len()
            invariant
                self.commits@ == old_commits,
                n == old_commits.len(),
                node == n,
                k <= links@.len(),
                self.branch_heads@ == old(self).branch_heads@,
                self.superposition_index == old(self).superposition_index,
                old_commits == old(self).commits@,
                old_nodes == graph_nodes(old(self).entanglement_graph),
                old_edges == graph_edges(old(self).entanglement_graph),
                graph_nodes(self.entanglement_graph) == old_nodes.push(n as u64),
                old_nodes.len() == n,
                graph_edges(self.entanglement_graph).len() == old_edges.len() + k,
                old_edges.len() + n < 0xFFFF_FFFF,
                links@.len() <= n,
                forall|t: int| 0 <= t < links@.len() ==> (#[trigger] links@[t]).0 < n,
                graph_edges(self.entanglement_graph) == old_edges + links@.take(k as int).map_values(
                    |l: (usize, u64)| (n, l.0, l.1),
                ),
            decreases links.len() - k,
        {
            let (target, strength) = links[k];
            graph_add_edge(&mut self.entanglement_graph, node, target, strength);
            assert(links@.take(k + 1).map_values(|l: (usize, u64)| (n, l.0, l.1)) =~= links@.take(
                k as int,
            ).map_values(|l: (usize, u64)| (n, l.0, l.1)).push((n, target, strength)));
            k = k + 1;
        }
        assert(links@.take(k as int) =~= links@);
        assert(links@.map_values(|l: (usize, u64)| (n, l.0, l.1)) =~= new_edges(old_commits, cs, n, entangled_commits@));
        let ghost graph_after = self.entanglement_graph;
        assert(index_ok(self.superposition_index@, old_commits));
        let mut k: usize = 0;
        while k < changes.len()
            invariant
                k <= changes@.len(),
                n == old_commits.len(),
                commit_id == n,
                n < 0xFFFF_FFFF,
                self.commits@ == old_commits,
                self.branch_heads@ == old(self).branch_heads@,
                self.entanglement_graph == graph_after,
                keys_distinct(self.superposition_index@),
                forall|i: int, k2: int|
                    0 <= i < n && 0 <= k2 < old_commits[i].changes@.len() ==> listed(
                        self.superposition_index@,
                        (#[trigger] old_commits[i].changes@[k2]).path@,
                        i as u64,
                    ),
                forall|k2: int| 0 <= k2 < k ==> listed(self.superposition_index@, (#[trigger] changes@[k2]).path@, commit_id),
                forall|e: int, t: int|
                    0 <= e < self.superposition_index@.len() && 0 <= t < self.superposition_index@[e].1@.len() ==> {
                        let x = #[trigger] self.superposition_index@[e].1@[t];
                        let key = self.superposition_index@[e].0@;
                        (x == n && exists|k2: int| 0 <= k2 < changes@.len() && (#[trigger] changes@[k2]).path@ == key)
                            || (x < n && touches(old_commits[x as int], key))
                    },
            decreases changes.len() - k,
        {
            let ghost idx0 = self.superposition_index@;
            index_insert(&mut self.superposition_index, &changes[k].path, commit_id);
            proof {
                let idx1 = self.superposition_index@;
                assert forall|e: int, t: int|
                    0 <= e < idx1.len() && 0 <= t < idx1[e].1@.len() implies {
                        let x = #[trigger] idx1[e].1@[t];
                        let key = idx1[e].0@;
                        (x == n && exists|k2: int| 0 <= k2 < changes@.len() && (#[trigger] changes@[k2]).path@ == key)
                            || (x < n && touches(old_commits[x as int], key))
                    } by {
                    let x = idx1[e].1@[t];
                    let key = idx1[e].0@;
                    if key == changes@[k as int].path@ && x == commit_id {
                        assert(changes@[k as int].path@ == key);
                    } else {
                        assert(listed(idx0, key, x));
                        let e0 = choose|e0: int| 0 <= e0 < idx0.len() && (#[trigger] idx0[e0]).0@ == key && idx0[e0].1@.contains(x);
                        let t0 = choose|t0: int| 0 <= t0 < idx0[e0].1@.len() && idx0[e0].1@[t0] == x;
                        assert(idx0[e0].1@[t0] == x);
                    }
                }
            }
            k = k + 1;
        }
        let quantum_commit = QuantumCommit {
            id: commit_id,
            content_hash,
            superposition_states: branch_probabilities,
            entangled_commits,
            collapsed: false,
            timestamp,
            changes,
        };
        self.commits.push(quantum_commit);
        assert(self.commits@.take(n as int) =~= old_commits);
        assert(index_ok(self.superposition_index@, self.commits@)) by {
            let idx = self.superposition_index@;
            let cs2 = self.commits@;
            assert(cs2[n as int].changes@ == changes@);
            assert forall|e: int, t: int| 0 <= e < idx.len() && 0 <= t < idx[e].1@.len() implies {
                let x = #[trigger] idx[e].1@[t];
                x < cs2.len() && touches(cs2[x as int], idx[e].0@)
            } by {
                let x = idx[e].1@[t];
                let key = idx[e].0@;
                if x == n {
                    let k2 = choose|k2: int| 0 <= k2 < changes@.len() && (#[trigger] changes@[k2]).path@ == key;
                    assert(cs2[x as int].changes@[k2] == changes@[k2]);
                } else {
                    assert(cs2[x as int] == old_commits[x as int]);
                }
            }
            assert forall|i: int, k2: int| 0 <= i < cs2.len() && 0 <= k2 < cs2[i].changes@.len() implies listed(
                idx,
                (#[trigger] cs2[i].changes@[k2]).path@,
                i as u64,
            ) by {
                if i < n {
                    assert(cs2[i] == old_commits[i]);
                } else {
                    assert(cs2[i].changes@[k2] == changes@[k2]);
                }
            }
        }
        assert(forall|i: int| 0 <= i < n ==> self.commits@[i] == old_commits[i]);
        assert forall|kk: int| 0 <= kk < graph_edges(self.entanglement_graph).len() implies {
            let e = #[trigger] graph_edges(self.entanglement_graph)[kk];
            e.0 < n + 1 && e.1 < n + 1 && e.2 <= PROB_SCALE
        } by {
            if kk >= old_edges.len() {
                let t = kk - old_edges.len();
                assert(graph_edges(self.entanglement_graph)[kk] == (n, links@[t].0, links@[t].1));
            }
        }
        assert(self.wf());
        Ok(commit_id)
    }

    /// Observes `branch_name`, with `draws[i]` (in parts per million) drawn for
    /// commit `i`: every uncollapsed commit that gives the branch a probability
    /// above its draw collapses onto that branch, the last of them becomes the
    /// branch's head, and every uncollapsed commit that the graph links to a
    /// collapsing one, at any distance, has its probabilities dampened once per
    /// such commit. Returns the branch's head, or `BranchNotFound` where it has
    /// none; a branch whose candidates all failed their draws keeps the head it
    /// had, if any.
    pub fn observe_branch_with_draws(&mut self, branch_name: &str, draws: &Vec<u64>) -> (r: Result<u64, QuantumError>)
        requires
            old(self).wf(),
        ensures
            final(self).wf(),
            observed(*old(self), *final(self), branch_name@, draws@),
            head_of(final(self).heads(), branch_name@) is Some ==> r == Ok::<u64, QuantumError>(
                head_of(final(self).heads(), branch_name@).unwrap(),
            ),
            head_of(final(self).heads(), branch_name@) is None ==> (r matches Err(
                QuantumError::BranchNotFound(s),
            ) && s@ == branch_name@),
    {
        let b = branch_name.to_owned();
        let ghost old_commits = self.commits@;
        let ghost bv = branch_name@;
        let n = self.commits.len();
        let mut ws: Vec<u64> = Vec::new();
        let mut i: usize = 0;
        while i < n
            invariant
                n == self.commits@.len(),
                n == old_commits.len(),
                b@ == bv,
                i <= n,
                self.entanglement_graph == old(self).entanglement_graph,
                self.branch_heads == old(self).branch_heads,
                self.superposition_index == old(self).superposition_index,
                old_commits == old(self).commits@,
                ws@ == winners(old_commits, bv, draws@, i as int),
                forall|t: int| 0 <= t < ws@.len() ==> ws@[t] < i,
                forall|j: int|
                    0 <= j < n ==> {
                        let o = old_commits[j];
                        let c = #[trigger] self.commits@[j];
                        &&& same_but_states(o, c)
                        &&& if j < i && wins_at(old_commits, bv, draws@, j) {
                            &&& c.collapsed
                            &&& c.superposition_states@.len() == 1
                            &&& c.superposition_states@[0].0@ == bv
                            &&& c.superposition_states@[0].1 == prob_of(o.superposition_states@, bv).unwrap()
                        } else {
                            c == o
                        }
                    },
            decreases n - i,
        {
            if !self.commits[i].collapsed {
                match prob_lookup(&self.commits[i].superposition_states, &b) {
                    Some(p) => {
                        if i < draws.len() && draws[i] < p {
                            let mut single: Vec<(String, u64)> = Vec::new();
                            single.push((b.clone(), p));
                            self.commits[i].superposition_states = single;
                            self.commits[i].collapsed = true;
                            ws.push(i as u64);
                        }
                    },
                    None => {},
                }
            }
            i = i + 1;
        }
        assert(self.wf()) by {
            assert forall|j: int| 0 <= j < n implies (#[trigger] self.commits@[j]).changes == old_commits[j].changes by {
                assert(same_but_states(old_commits[j], self.commits@[j]));
            }
            lemma_index_same_changes(self.superposition_index@, old_commits, self.commits@);
            assert forall|h: int| 0 <= h < self.branch_heads@.len() implies {
                let e = #[trigger] self.branch_heads@[h];
                e.1 < n && self.commits@[e.1 as int].collapsed
            } by {
                let e = self.branch_heads@[h];
                assert(old(self).branch_heads@[h] == e);
                assert(old_commits[e.1 as int].collapsed);
            }
        }
        let ghost mid = self.commits@;
        self.cascade_entanglement_collapse(&ws);
        if ws.len() > 0 {
            let last = ws[ws.len() - 1];
            let ghost heads0 = self.branch_heads@;
            set_head(&mut self.branch_heads, b.clone(), last);
            assert(self.wf()) by {
                assert forall|h: int| 0 <= h < self.branch_heads@.len() implies {
                    let e = #[trigger] self.branch_heads@[h];
                    e.1 < n && self.commits@[e.1 as int].collapsed
                } by {
                    let e = self.branch_heads@[h];
                    if e.1 != last {
                        let t = choose|t: int| 0 <= t < heads0.len() && heads0[t] == e;
                        assert(heads0[t] == e);
                    } else {
                        assert(winners(old_commits, bv, draws@, n as int).contains(last));
                        lemma_winners_collapse(old_commits, bv, draws@, n as int, ws@.len() - 1);
                    }
                }
            }
        }
        match self.branch_head(branch_name) {
            Some(h) => Ok(h),
            None => Err(QuantumError::BranchNotFound(b)),
        }
    }

    /// Observes `branch_name` with one fresh random draw per commit, uniform
    /// over `0..PROB_SCALE`; see `observe_branch_with_draws`.
    pub fn observe_branch(&mut self, branch_name: &str) -> (r: Result<u64, QuantumError>)
        requires
            old(self).wf(),
        ensures
            final(self).wf(),
            exists|d: Seq<u64>|
                d.len() == old(self).commits().len() && (forall|k: int| 0 <= k < d.len() ==> #[trigger] d[k]
                    < PROB_SCALE) && observed(*old(self), *final(self), branch_name@, d),
            head_of(final(self).heads(), branch_name@) is Some ==> r == Ok::<u64, QuantumError>(
                head_of(final(self).heads(), branch_name@).unwrap(),
            ),
            head_of(final(self).heads(), branch_name@) is None ==> (r matches Err(
                QuantumError::BranchNotFound(s),
            ) && s@ == branch_name@),
    {
        let n = self.commits.len();
        let mut draws: Vec<u64> = Vec::new();
        while draws.len() < n
            invariant
                draws@.len() <= n,
                forall|k: int| 0 <= k < draws@.len() ==> #[trigger] draws@[k] < PROB_SCALE,
            decreases n - draws@.len(),
        {
            let d = draw_below(PROB_SCALE);
            draws.push(d);
        }
        self.observe_branch_with_draws(branch_name, &draws)
    }

    /// Interference after collapse: for each commit of `ws`, every uncollapsed
    /// commit that a walk in the graph reaches from it has each of its
    /// probabilities dampened once. Dampening compounds over `ws`.
    fn cascade_entanglement_collapse(&mut self, ws: &Vec<u64>)
        requires
            old(self).wf(),
            forall|t: int| 0 <= t < ws@.len() ==> ws@[t] < old(self).commits().len(),
        ensures
            final(self).wf(),
            final(self).commits().len() == old(self).commits().len(),
            final(self).entanglement_graph == old(self).entanglement_graph,
            final(self).branch_heads == old(self).branch_heads,
            forall|j: int|
                0 <= j < old(self).commits().len() ==> {
                    let o = old(self).commits()[j];
                    let c = #[trigger] final(self).commits()[j];
                    &&& same_but_states(o, c)
                    &&& c.collapsed == o.collapsed
                    &&& o.collapsed ==> c == o
                    &&& !o.collapsed ==> c.superposition_states@ == damped(
                        o.superposition_states@,
                        reach_count(ws@, old(self).edges(), j),
                    )
                },
    {
        let ghost mid = self.commits@;
        let n = self.commits.len();
        let ghost edges = graph_edges(self.entanglement_graph);
        let mut a: usize = 0;
        while a < ws.len()
            invariant
                self.wf(),
                n == self.commits@.len(),
                mid.len() == n,
                a <= ws@.len(),
                self.entanglement_graph == old(self).entanglement_graph,
                self.branch_heads == old(self).branch_heads,
                edges == graph_edges(self.entanglement_graph),
                forall|t: int| 0 <= t < ws@.len() ==> ws@[t] < n,
                forall|j: int|
                    0 <= j < n ==> {
                        let o = mid[j];
                        let c = #[trigger] self.commits@[j];
                        &&& same_but_states(o, c)
                        &&& c.collapsed == o.collapsed
                        &&& o.collapsed ==> c == o
                        &&& !o.collapsed ==> c.superposition_states@ == damped(
                            o.superposition_states@,
                            reach_count(ws@.take(a as int), edges, j),
                        )
                    },
            decreases ws.len() - a,
        {
            let w = ws[a];
            let start = match self.find_node_by_commit(w) {
                Some(node) => node,
                None => w as usize,
            };
            let reach = graph_reachable(&self.entanglement_graph, start);
            let mut k: usize = 0;
            while k < reach.len()
                invariant
                    self.wf(),
                    n == self.commits@.len(),
                    mid.len() == n,
                    a < ws@.len(),
                    w == ws@[a as int],
                    k <= reach@.len(),
                    reach@.no_duplicates(),
                    forall|x: usize| #[trigger] reach@.contains(x) <==> (x < n && reachable(edges, w as int, x as int)),
                    self.entanglement_graph == old(self).entanglement_graph,
                    self.branch_heads == old(self).branch_heads,
                    edges == graph_edges(self.entanglement_graph),
                    forall|j: int|
                        0 <= j < n ==> {
                            let o = mid[j];
                            let c = #[trigger] self.commits@[j];
                            &&& same_but_states(o, c)
                            &&& c.collapsed == o.collapsed
                            &&& o.collapsed ==> c == o
                            &&& !o.collapsed ==> c.superposition_states@ == damped(
                                o.superposition_states@,
                                reach_count(ws@.take(a as int), edges, j) + if reach@.take(k as int).contains(j as usize) {
                                    1nat
                                } else {
                                    0nat
                                },
                            )
                        },
                decreases reach.len() - k,
            {
                let node = reach[k];
                assert(reach@.contains(node));
                let id = graph_node_weight(&self.entanglement_graph, node);
                let ghost before = self.commits@;
                if !self.commits[id as usize].collapsed {
                    dampen_states(&mut self.commits[id as usize].superposition_states);
                }
                proof {
                    assert(reach@.take(k + 1) =~= reach@.take(k as int).push(node));
                    lemma_push_contains(reach@.take(k as int), node);
                    assert forall|j: int| 0 <= j < n implies {
                        let o = mid[j];
                        let c = #[trigger] self.commits@[j];
                        &&& same_but_states(o, c)
                        &&& c.collapsed == o.collapsed
                        &&& o.collapsed ==> c == o
                        &&& !o.collapsed ==> c.superposition_states@ == damped(
                            o.superposition_states@,
                            reach_count(ws@.take(a as int), edges, j) + if reach@.take(k + 1).contains(j as usize) {
                                1nat
                            } else {
                                0nat
                            },
                        )
                    } by {
                        if j == node && !mid[j].collapsed {
                            assert(!reach@.take(k as int).contains(node)) by {
                                if reach@.take(k as int).contains(node) {
                                    let t = choose|t: int| 0 <= t < k && reach@.take(k as int)[t] == node;
                                    assert(reach@[t] == reach@[k as int]);
                                }
                            }
                            let m = reach_count(ws@.take(a as int), edges, j);
                            let s0 = mid[j].superposition_states@;
                            assert forall|t: int| 0 <= t < s0.len() implies 0 <= #[trigger] dampen_times(s0[t].1 as int, m) <= s0[t].1 by {
                                lemma_dampen_times_bounds(s0[t].1 as int, m);
                            }
                            lemma_damped_step(s0, m);
                        } else {
                            assert(self.commits@[j] == before[j]);
                        }
                    }
                }
                k = k + 1;
            }
            proof {
                assert(reach@.take(k as int) =~= reach@);
                assert(ws@.take(a + 1).drop_last() =~= ws@.take(a as int));
                assert(ws@.take(a + 1).last() == w);
                assert forall|j: int| 0 <= j < n implies #[trigger] reach_count(ws@.take(a + 1), edges, j)
                    == reach_count(ws@.take(a as int), edges, j) + if reach@.contains(j as usize) { 1nat } else { 0nat } by {
                    if reach@.contains(j as usize) {
                    }
                }
            }
            a = a + 1;
        }
        assert(ws@.take(a as int) =~= ws@);
    }
}

/// Registering the same changes twice gives the same digest, whatever the
/// distributions.
pub proof fn law_hash_is_pure(
    old1: QuantumRepository,
    new1: QuantumRepository,
    old2: QuantumRepository,
    new2: QuantumRepository,
    cs: Seq<FileChangeView>,
    probs1: Seq<(String, u64)>,
    probs2: Seq<(String, u64)>,
)
    requires
        registered(old1, new1, cs, probs1),
        registered(old2, new2, cs, probs2),
    ensures
        new1.commits()[old1.commits().len() as int].content_hash@ == new2.commits()[old2.commits().len() as int].content_hash@,
{
}

/// A commit registered with a change to a path that an uncollapsed commit also
/// touches is linked to it by an edge whose strength lies in [0, 1].
pub proof fn law_shared_path_entangles(
    old: QuantumRepository,
    new: QuantumRepository,
    cs: Seq<FileChangeView>,
    probs: Seq<(String, u64)>,
    x: u64,
    a: int,
    b: int,
)
    requires
        old.wf(),
        registered(old, new, cs, probs),
        x < old.commits().len(),
        !old.commits()[x as int].collapsed,
        0 <= a < cs.len(),
        0 <= b < old.commits()[x as int].changes@.len(),
        cs[a].path == old.commits()[x as int].changes@[b]@.path,
    ensures
        new.commits()[old.commits().len() as int].entangled_commits@.contains(x),
        exists|k: int|
            old.edges().len() <= k < new.edges().len() && #[trigger] new.edges()[k] == (
                old.commits().len() as usize,
                x as usize,
                entanglement_strength(cs, change_views(old.commits()[x as int].changes@)) as u64,
            ),
        0 <= entanglement_strength(cs, change_views(old.commits()[x as int].changes@)) <= PROB_SCALE,
{
    let os = change_views(old.commits()[x as int].changes@);
    assert(cs[a].path == os[b].path);
    assert(shares_path(cs, os));
    let c = new.commits()[old.commits().len() as int];
    assert(c.entangled_commits@.contains(x));
    let t = choose|t: int| 0 <= t < c.entangled_commits@.len() && c.entangled_commits@[t] == x;
    let n = old.commits().len() as usize;
    assert(new.edges()[old.edges().len() + t] == new_edges(old.commits(), cs, n, c.entangled_commits@)[t]);
    lemma_strength_bounds(cs, os);
}

/// A commit registered with paths that no uncollapsed commit touches adds no
/// edge to the graph.
pub proof fn law_disjoint_paths_no_edges(
    old: QuantumRepository,
    new: QuantumRepository,
    cs: Seq<FileChangeView>,
    probs: Seq<(String, u64)>,
)
    requires
        registered(old, new, cs, probs),
        forall|x: int| 0 <= x < old.commits().len() && !(#[trigger] old.commits()[x]).collapsed ==> !shares_path(
            cs,
            change_views(old.commits()[x].changes@),
        ),
    ensures
        new.edges() == old.edges(),
        new.commits()[old.commits().len() as int].entangled_commits@.len() == 0,
{
    let c = new.commits()[old.commits().len() as int];
    if c.entangled_commits@.len() > 0 {
        assert(c.entangled_commits@.contains(c.entangled_commits@[0]));
    }
    assert(new_edges(old.commits(), cs, old.commits().len() as usize, c.entangled_commits@) =~= Seq::<(usize, usize, u64)>::empty());
    assert(new.edges() =~= old.edges());
}

/// An uncollapsed commit that exactly one collapsing commit reaches keeps its
/// branches, each probability multiplied by four fifths (rounded down).
pub proof fn law_single_source_dampening(
    old: QuantumRepository,
    new: QuantumRepository,
    branch: Seq<char>,
    draws: Seq<u64>,
    j: int,
)
    requires
        observed(old, new, branch, draws),
        0 <= j < old.commits().len(),
        !old.commits()[j].collapsed,
        !wins_at(old.commits(), branch, draws, j),
        reach_count(winners(old.commits(), branch, draws, old.commits().len() as int), old.edges(), j) == 1,
    ensures
        new.commits()[j].superposition_states@.len() == old.commits()[j].superposition_states@.len(),
        forall|k: int| 0 <= k < old.commits()[j].superposition_states@.len() ==> {
            let e = #[trigger] new.commits()[j].superposition_states@[k];
            let o = old.commits()[j].superposition_states@[k];
            e.0 == o.0 && e.1 == (o.1 * 4) / 5
        },
{
    let s = old.commits()[j].superposition_states@;
    assert(new.commits()[j].superposition_states@ == damped(s, 1));
    assert forall|k: int| 0 <= k < s.len() implies {
        let e = #[trigger] new.commits()[j].superposition_states@[k];
        e.0 == s[k].0 && e.1 == (s[k].1 * 4) / 5
    } by {
        assert(dampen_times(s[k].1 as int, 1) == dampen(dampen_times(s[k].1 as int, 0)));
    }
}

proof fn lemma_strength_bounds(cs: Seq<FileChangeView>, os: Seq<FileChangeView>)
    ensures
        0 <= entanglement_strength(cs, os) <= PROB_SCALE,
    decreases cs.len(),
{
    if cs.len() > 0 {
        lemma_overlap_total_nonneg(cs, os);
        let t = overlap_total(cs, os);
        let n = cs.len() as int;
        assert(t / n >= 0) by (nonlinear_arith)
            requires t >= 0, n > 0;
    }
}

proof fn lemma_overlap_total_nonneg(cs: Seq<FileChangeView>, os: Seq<FileChangeView>)
    ensures
        overlap_total(cs, os) >= 0,
    decreases cs.len(),
{
    if cs.len() > 0 {
        lemma_overlap_total_nonneg(cs.drop_last(), os);
        lemma_overlap_with_nonneg(cs.last(), os);
    }
}

} // verus!
