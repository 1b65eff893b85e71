//! The dispatcher: turns registered systems, their capability declarations
//! and explicit ordering edges into a stage plan, once, and replays that plan
//! on every dispatch.
//!
//! The plan is a sequence of stages; a stage is a set of systems that may run
//! concurrently because no two of them have conflicting declarations. A system
//! stands in a strictly later stage than each of its explicit predecessors.

use vstd::prelude::*;

use core::marker::PhantomData;

use crate::access::AccessSet;
use crate::res::{ResourceId, Resources};
use crate::system::{RunningTime, System};

verus! {

/// Why no dispatcher could be built.
#[derive(Debug)]
pub enum BuildError {
    /// Two systems were registered under this name.
    DuplicateName(String),
    /// An ordering edge names this system, which was never registered.
    UnknownDependency(String),
    /// The explicit ordering edges run in a circle.
    CycleDetected,
}

/// `names[i]` and `names[j]` spell the same name only when `i == j`.
pub open spec fn names_unique(names: Seq<String>) -> bool {
    forall|i: int, j: int|
        0 <= i < j < names.len() ==> (#[trigger] names[i])@ != (#[trigger] names[j])@
}

/// Some registered system bears this name.
pub open spec fn name_resolves(names: Seq<String>, name: Seq<char>) -> bool {
    exists|j: int| 0 <= j < names.len() && (#[trigger] names[j])@ == name
}

/// Every declared predecessor name belongs to some registered system.
pub open spec fn deps_resolve(names: Seq<String>, dep_names: Seq<Vec<String>>) -> bool {
    forall|i: int, k: int|
        0 <= i < dep_names.len() && 0 <= k < dep_names[i]@.len() ==> name_resolves(
            names,
            (#[trigger] dep_names[i]@[k])@,
        )
}

/// System `i` declares the system named `names[j]` as an explicit predecessor.
pub open spec fn has_edge(names: Seq<String>, dep_names: Seq<Vec<String>>, i: int, j: int) -> bool {
    exists|k: int| 0 <= k < dep_names[i]@.len() && (#[trigger] dep_names[i]@[k])@ == names[j]@
}

/// `rank` witnesses that the edges run downhill: every predecessor ranks
/// strictly below its successor.
pub open spec fn rank_respects(
    names: Seq<String>,
    dep_names: Seq<Vec<String>>,
    rank: Map<int, int>,
) -> bool {
    forall|i: int, j: int|
        0 <= i < names.len() && 0 <= j < names.len() && #[trigger] has_edge(names, dep_names, i, j)
            ==> rank[j] < rank[i]
}

/// The explicit ordering edges admit a ranking, that is, they form no cycle.
pub open spec fn acyclic(names: Seq<String>, dep_names: Seq<Vec<String>>) -> bool {
    exists|rank: Map<int, int>| rank_respects(names, dep_names, rank)
}

/// As `rank_respects`, over already-resolved predecessor indices.
pub open spec fn idx_rank_ok(deps: Seq<Vec<usize>>, rank: Map<int, int>) -> bool {
    forall|i: int, k: int|
        0 <= i < deps.len() && 0 <= k < deps[i]@.len() ==> rank[(#[trigger] deps[i]@[k]) as int]
            < rank[i]
}

/// As `acyclic`, over already-resolved predecessor indices.
pub open spec fn idx_acyclic(deps: Seq<Vec<usize>>) -> bool {
    exists|rank: Map<int, int>| idx_rank_ok(deps, rank)
}

/// `deps` resolves `dep_names` entry by entry against `names`.
pub open spec fn deps_faithful(
    names: Seq<String>,
    dep_names: Seq<Vec<String>>,
    deps: Seq<Vec<usize>>,
) -> bool {
    &&& deps.len() == dep_names.len()
    &&& forall|i: int| 0 <= i < deps.len() ==> (#[trigger] deps[i]@).len() == dep_names[i]@.len()
    &&& forall|i: int, k: int|
        0 <= i < deps.len() && 0 <= k < deps[i]@.len() ==> (#[trigger] deps[i]@[k]) < names.len()
            && names[deps[i]@[k] as int]@ == dep_names[i]@[k]@
}

/// The plan and its bookkeeping are consistent: every system stands in
/// exactly one stage, stages hold no conflicting pair, and every resolved
/// predecessor stands in a strictly earlier stage.
pub open spec fn plan_wf(
    n: int,
    accesses: Seq<AccessSet>,
    deps: Seq<Vec<usize>>,
    stages: Seq<Vec<usize>>,
    stage_of: Seq<usize>,
) -> bool {
    &&& stage_of.len() == n
    &&& forall|s: int, k: int|
        0 <= s < stages.len() && 0 <= k < stages[s]@.len() ==> (#[trigger] stages[s]@[k]) < n
    &&& forall|s: int| 0 <= s < stages.len() ==> (#[trigger] stages[s]@).len() >= 1
    &&& forall|i: int| 0 <= i < n ==> (#[trigger] stage_of[i]) < stages.len()
    &&& forall|i: int|
        0 <= i < n ==> (#[trigger] stages[stage_of[i] as int]@).contains(i as usize)
    &&& forall|s: int, k: int|
        0 <= s < stages.len() && 0 <= k < stages[s]@.len() ==> stage_of[(
        #[trigger] stages[s]@[k]) as int] == s
    &&& forall|s: int, k1: int, k2: int|
        0 <= s < stages.len() && 0 <= k1 < stages[s]@.len() && 0 <= k2 < stages[s]@.len() && (
        #[trigger] stages[s]@[k1]) == (#[trigger] stages[s]@[k2]) ==> k1 == k2
    &&& forall|s: int, k1: int, k2: int|
        0 <= s < stages.len() && 0 <= k1 < stages[s]@.len() && 0 <= k2 < stages[s]@.len() && k1 != k2
            ==> !accesses[(#[trigger] stages[s]@[k1]) as int].conflicts_spec(
            &accesses[(#[trigger] stages[s]@[k2]) as int],
        )
    &&& forall|i: int, k: int|
        0 <= i < n && 0 <= k < deps[i]@.len() ==> (#[trigger] deps[i]@[k]) < n && stage_of[deps[i]@[k]
            as int] < stage_of[i]
}

/// How many entries are still `false`.
spec fn num_false(s: Seq<bool>) -> int
    decreases s.len(),
{
    if s.len() == 0 {
        0
    } else {
        num_false(s.drop_last()) + if s.last() {
            0int
        } else {
            1int
        }
    }
}

proof fn lemma_num_false_none(s: Seq<bool>)
    requires
        forall|i: int| 0 <= i < s.len() ==> !(#[trigger] s[i]),
    ensures
        num_false(s) == s.len(),
    decreases s.len(),
{
    if s.len() > 0 {
        lemma_num_false_none(s.drop_last());
    }
}

proof fn lemma_num_false_update(s: Seq<bool>, i: int)
    requires
        0 <= i < s.len(),
        !s[i],
    ensures
        num_false(s.update(i, true)) == num_false(s) - 1,
    decreases s.len(),
{
    let t = s.update(i, true);
    if i == s.len() - 1 {
        assert(t.drop_last() =~= s.drop_last());
    } else {
        assert(t.drop_last() =~= s.drop_last().update(i, true));
        lemma_num_false_update(s.drop_last(), i);
    }
}

proof fn lemma_num_false_zero(s: Seq<bool>)
    requires
        num_false(s) == 0,
    ensures
        forall|i: int| 0 <= i < s.len() ==> #[trigger] s[i],
    decreases s.len(),
{
    if s.len() > 0 {
        lemma_num_false_bounds(s.drop_last());
        lemma_num_false_zero(s.drop_last());
        assert forall|i: int| 0 <= i < s.len() implies #[trigger] s[i] by {
            if i < s.len() - 1 {
                assert(s.drop_last()[i]);
            }
        }
    }
}

proof fn lemma_num_false_pos(s: Seq<bool>)
    requires
        num_false(s) > 0,
    ensures
        exists|i: int| 0 <= i < s.len() && !(#[trigger] s[i]),
    decreases s.len(),
{
    if s.len() > 0 {
        if !s.last() {
            assert(!s[s.len() - 1]);
        } else {
            lemma_num_false_pos(s.drop_last());
            let i = choose|i: int| 0 <= i < s.drop_last().len() && !(#[trigger] s.drop_last()[i]);
            assert(!s[i]);
        }
    }
}

proof fn lemma_num_false_bounds(s: Seq<bool>)
    ensures
        0 <= num_false(s) <= s.len(),
    decreases s.len(),
{
    if s.len() > 0 {
        lemma_num_false_bounds(s.drop_last());
    }
}

/// Among the unplaced indices below `bound` there is one of minimal rank.
proof fn lemma_min_unplaced(placed: Seq<bool>, rank: Map<int, int>, bound: int)
    requires
        0 < bound <= placed.len(),
        exists|i: int| 0 <= i < bound && !(#[trigger] placed[i]),
    ensures
        exists|i: int|
            0 <= i < bound && !(#[trigger] placed[i]) && forall|j: int|
                0 <= j < bound && !(#[trigger] placed[j]) ==> rank[i] <= rank[j],
    decreases bound,
{
    let last = bound - 1;
    if exists|i: int| 0 <= i < bound - 1 && !(#[trigger] placed[i]) {
        lemma_min_unplaced(placed, rank, bound - 1);
        let m = choose|i: int|
            0 <= i < bound - 1 && !(#[trigger] placed[i]) && forall|j: int|
                0 <= j < bound - 1 && !(#[trigger] placed[j]) ==> rank[i] <= rank[j];
        if !placed[last] && rank[last] < rank[m] {
            assert(0 <= last < bound && !placed[last] && forall|j: int|
                0 <= j < bound && !(#[trigger] placed[j]) ==> rank[last] <= rank[j]);
        } else {
            assert(0 <= m < bound && !placed[m] && forall|j: int|
                0 <= j < bound && !(#[trigger] placed[j]) ==> rank[m] <= rank[j]);
        }
    } else {
        assert(!placed[last]);
        assert(0 <= last < bound && !placed[last] && forall|j: int|
            0 <= j < bound && !(#[trigger] placed[j]) ==> rank[last] <= rank[j]);
    }
}

/// When every unplaced system waits on an unplaced predecessor, the resolved
/// edges admit no ranking: they run in a circle.
proof fn lemma_stuck_not_acyclic(deps: Seq<Vec<usize>>, placed: Seq<bool>)
    requires
        placed.len() == deps.len(),
        forall|i: int, k: int|
            0 <= i < deps.len() && 0 <= k < deps[i]@.len() ==> (#[trigger] deps[i]@[k])
                < placed.len(),
        exists|i: int| 0 <= i < placed.len() && !(#[trigger] placed[i]),
        forall|i: int|
            0 <= i < placed.len() && !(#[trigger] placed[i]) ==> exists|k: int|
                0 <= k < deps[i]@.len() && !placed[(#[trigger] deps[i]@[k]) as int],
    ensures
        !idx_acyclic(deps),
{
    if idx_acyclic(deps) {
        let rank = choose|rank: Map<int, int>| idx_rank_ok(deps, rank);
        lemma_min_unplaced(placed, rank, placed.len() as int);
        let i = choose|i: int|
            0 <= i < placed.len() as int && !(#[trigger] placed[i]) && forall|j: int|
                0 <= j < placed.len() as int && !(#[trigger] placed[j]) ==> rank[i] <= rank[j];
        let k = choose|k: int|
            0 <= k < deps[i]@.len() && !placed[(#[trigger] deps[i]@[k]) as int];
        let d = deps[i]@[k] as int;
        assert(rank[d] < rank[i]);
        assert(rank[i] <= rank[d]);
        assert(false);
    }
}

/// With unique names, the resolved edges and the named edges admit the same
/// rankings.
proof fn lemma_acyclic_bridge(
    names: Seq<String>,
    dep_names: Seq<Vec<String>>,
    deps: Seq<Vec<usize>>,
)
    requires
        names_unique(names),
        names.len() == dep_names.len(),
        deps_faithful(names, dep_names, deps),
    ensures
        idx_acyclic(deps) <==> acyclic(names, dep_names),
{
    if idx_acyclic(deps) {
        let rank = choose|rank: Map<int, int>| idx_rank_ok(deps, rank);
        assert forall|i: int, j: int|
            0 <= i < names.len() && 0 <= j < names.len() && #[trigger] has_edge(
                names,
                dep_names,
                i,
                j,
            ) implies rank[j] < rank[i] by {
            let k = choose|k: int|
                0 <= k < dep_names[i]@.len() && (#[trigger] dep_names[i]@[k])@ == names[j]@;
            let d = deps[i]@[k] as int;
            assert(names[d]@ == names[j]@);
            if d != j {
                if d < j {
                    assert(names[d]@ != names[j]@);
                } else {
                    assert(names[j]@ != names[d]@);
                }
            }
            assert(rank[deps[i]@[k] as int] < rank[i]);
        }
        assert(rank_respects(names, dep_names, rank));
    }
    if acyclic(names, dep_names) {
        let rank = choose|rank: Map<int, int>| rank_respects(names, dep_names, rank);
        assert forall|i: int, k: int|
            0 <= i < deps.len() && 0 <= k < deps[i]@.len() implies rank[(#[trigger] deps[i]@[k])
            as int] < rank[i] by {
            let j = deps[i]@[k] as int;
            assert(dep_names[i]@[k]@ == names[j]@);
            assert(has_edge(names, dep_names, i, j));
        }
        assert(idx_rank_ok(deps, rank));
    }
}

/// Some name occurs twice, or none does.
fn find_duplicate(names: &Vec<String>) -> (r: Option<String>)
    ensures
        match r {
            Some(nm) => exists|i: int, j: int|
                0 <= i < j < names@.len() && (#[trigger] names@[i])@ == (#[trigger] names@[j])@
                    && names@[j]@ == nm@,
            None => names_unique(names@),
        },
{
    let n = names.len();
    let mut j: usize = 1;
    while j < n
        invariant
            n == names@.len(),
            1 <= j,
            forall|a: int, b: int| 0 <= a < b < j ==> (#[trigger] names@[a])@ != (#[trigger] names@[b])@,
        decreases n - j,
    {
        let mut i: usize = 0;
        while i < j
            invariant
                j < n == names@.len(),
                i <= j,
                forall|a: int| 0 <= a < i ==> (#[trigger] names@[a])@ != names@[j as int]@,
            decreases j - i,
        {
            if names[i] == names[j] {
                let nm = names[j].clone();
                return Some(nm);
            }
            i = i + 1;
        }
        j = j + 1;
    }
    None
}

/// The index of the system named `target`, when one is registered.
fn find_name(names: &Vec<String>, target: &String) -> (r: Option<usize>)
    ensures
        match r {
            Some(j) => j < names@.len() && names@[j as int]@ == target@,
            None => !name_resolves(names@, target@),
        },
{
    let mut j: usize = 0;
    while j < names.len()
        invariant
            j <= names@.len(),
            forall|a: int| 0 <= a < j ==> (#[trigger] names@[a])@ != target@,
        decreases names@.len() - j,
    {
        if names[j] == *target {
            return Some(j);
        }
        j = j + 1;
    }
    None
}

/// Resolves every predecessor name to the index of the system bearing it.
fn resolve_deps(names: &Vec<String>, dep_names: &Vec<Vec<String>>) -> (r: Result<
    Vec<Vec<usize>>,
    String,
>)
    requires
        names@.len() == dep_names@.len(),
    ensures
        match r {
            Ok(deps) => deps_faithful(names@, dep_names@, deps@),
            Err(nm) => !name_resolves(names@, nm@) && exists|i: int, k: int|
                0 <= i < dep_names@.len() && 0 <= k < (#[trigger] dep_names@[i])@.len() && (
                #[trigger] dep_names@[i]@[k])@ == nm@,
        },
{
    let n = dep_names.len();
    let mut deps: Vec<Vec<usize>> = Vec::new();
    let mut i: usize = 0;
    while i < n
        invariant
            n == dep_names@.len() == names@.len(),
            i == deps@.len() <= n,
            forall|a: int| 0 <= a < i ==> (#[trigger] deps@[a])@.len() == dep_names@[a]@.len(),
            forall|a: int, k: int|
                0 <= a < i && 0 <= k < deps@[a]@.len() ==> (#[trigger] deps@[a]@[k]) < names@.len()
                    && names@[deps@[a]@[k] as int]@ == dep_names@[a]@[k]@,
        decreases n - i,
    {
        let row = &dep_names[i];
        let mut out: Vec<usize> = Vec::new();
        let mut k: usize = 0;
        while k < row.len()
            invariant
                row == &dep_names@[i as int],
                i < n == dep_names@.len() == names@.len(),
                k == out@.len() <= row@.len(),
                forall|b: int|
                    0 <= b < k ==> (#[trigger] out@[b]) < names@.len() && names@[out@[b] as int]@
                        == row@[b]@,
            decreases row@.len() - k,
        {
            match find_name(names, &row[k]) {
                Some(j) => {
                    out.push(j);
                },
                None => {
                    let nm = row[k].clone();
                    return Err(nm);
                },
            }
            k = k + 1;
        }
        deps.push(out);
        i = i + 1;
    }
    Ok(deps)
}

/// Whether some member of `stage` conflicts with system `i`.
fn stage_conflicts(stage: &Vec<usize>, accesses: &Vec<AccessSet>, i: usize) -> (r: bool)
    requires
        forall|k: int| 0 <= k < stage@.len() ==> (#[trigger] stage@[k]) < accesses@.len(),
        i < accesses@.len(),
    ensures
        r == exists|k: int|
            0 <= k < stage@.len() && (#[trigger] accesses@[stage@[k] as int]).conflicts_spec(
                &accesses@[i as int],
            ),
{
    let mut k: usize = 0;
    while k < stage.len()
        invariant
            forall|a: int| 0 <= a < stage@.len() ==> (#[trigger] stage@[a]) < accesses@.len(),
            i < accesses@.len(),
            k <= stage@.len(),
            forall|a: int|
                0 <= a < k ==> !(#[trigger] accesses@[stage@[a] as int]).conflicts_spec(
                    &accesses@[i as int],
                ),
        decreases stage@.len() - k,
    {
        if accesses[stage[k]].conflicts_with(&accesses[i]) {
            return true;
        }
        k = k + 1;
    }
    false
}

/// The earliest stage at or after `base` that holds no conflict with system
/// `i`, or the stage count when every such stage conflicts.
fn find_stage(stages: &Vec<Vec<usize>>, accesses: &Vec<AccessSet>, i: usize, base: usize) -> (s:
    usize)
    requires
        forall|a: int, k: int|
            0 <= a < stages@.len() && 0 <= k < stages@[a]@.len() ==> (#[trigger] stages@[a]@[k])
                < accesses@.len(),
        i < accesses@.len(),
        base <= stages@.len(),
    ensures
        base <= s <= stages@.len(),
        s < stages@.len() ==> forall|k: int|
            0 <= k < stages@[s as int]@.len() ==> !(#[trigger] accesses@[stages@[s as int]@[k] as int]).conflicts_spec(
                &accesses@[i as int],
            ),
{
    let mut s = base;
    while s < stages.len()
        invariant
            forall|a: int, k: int|
                0 <= a < stages@.len() && 0 <= k < stages@[a]@.len() ==> (#[trigger] stages@[a]@[k])
                    < accesses@.len(),
            i < accesses@.len(),
            base <= s <= stages@.len(),
        decreases stages@.len() - s,
    {
        if !stage_conflicts(&stages[s], accesses, i) {
            return s;
        }
        s = s + 1;
    }
    s
}

/// Whether every predecessor of one system is placed; when so, the earliest
/// stage index strictly after all their stages.
fn deps_ready(
    deps_i: &Vec<usize>,
    placed: &Vec<bool>,
    stage_of: &Vec<usize>,
    stage_count: usize,
) -> (r: Option<usize>)
    requires
        forall|k: int| 0 <= k < deps_i@.len() ==> (#[trigger] deps_i@[k]) < placed@.len(),
        placed@.len() == stage_of@.len(),
        forall|a: int|
            0 <= a < placed@.len() && placed@[a] ==> (#[trigger] stage_of@[a]) < stage_count,
    ensures
        match r {
            Some(base) => {
                &&& base <= stage_count
                &&& forall|k: int| 0 <= k < deps_i@.len() ==> placed@[(#[trigger] deps_i@[k]) as int]
                &&& forall|k: int|
                    0 <= k < deps_i@.len() ==> (stage_of@[(#[trigger] deps_i@[k]) as int] as int)
                        < base
            },
            None => exists|k: int|
                0 <= k < deps_i@.len() && !placed@[(#[trigger] deps_i@[k]) as int],
        },
{
    let mut base: usize = 0;
    let mut k: usize = 0;
    while k < deps_i.len()
        invariant
            forall|a: int| 0 <= a < deps_i@.len() ==> (#[trigger] deps_i@[a]) < placed@.len(),
            placed@.len() == stage_of@.len(),
            forall|a: int|
                0 <= a < placed@.len() && placed@[a] ==> (#[trigger] stage_of@[a]) < stage_count,
            k <= deps_i@.len(),
            base <= stage_count,
            forall|a: int| 0 <= a < k ==> placed@[(#[trigger] deps_i@[a]) as int],
            forall|a: int|
                0 <= a < k ==> (stage_of@[(#[trigger] deps_i@[a]) as int] as int) < base,
        decreases deps_i@.len() - k,
    {
        let d = deps_i[k];
        if !placed[d] {
            return None;
        }
        let sd = stage_of[d];
        if sd >= base {
            base = sd + 1;
        }
        k = k + 1;
    }
    Some(base)
}

/// What holds of a partially built plan: every placed system stands in
/// exactly one stage, stages hold only placed systems and no conflicting
/// pair, and a placed system's placed predecessors stand strictly earlier.
spec fn place_inv(
    n: int,
    accesses: Seq<AccessSet>,
    deps: Seq<Vec<usize>>,
    placed: Seq<bool>,
    stages: Seq<Vec<usize>>,
    stage_of: Seq<usize>,
) -> bool {
    &&& placed.len() == n
    &&& stage_of.len() == n
    &&& forall|s: int, k: int|
        0 <= s < stages.len() && 0 <= k < stages[s]@.len() ==> (#[trigger] stages[s]@[k]) < n
            && placed[stages[s]@[k] as int]
    &&& forall|s: int| 0 <= s < stages.len() ==> (#[trigger] stages[s]@).len() >= 1
    &&& forall|i: int| 0 <= i < n && placed[i] ==> (#[trigger] stage_of[i]) < stages.len()
    &&& forall|i: int|
        0 <= i < n && placed[i] ==> (#[trigger] stages[stage_of[i] as int]@).contains(i as usize)
    &&& forall|s: int, k: int|
        0 <= s < stages.len() && 0 <= k < stages[s]@.len() ==> stage_of[(#[trigger] stages[s]@[k])
            as int] == s
    &&& forall|s: int, k1: int, k2: int|
        0 <= s < stages.len() && 0 <= k1 < stages[s]@.len() && 0 <= k2 < stages[s]@.len() && (
        #[trigger] stages[s]@[k1]) == (#[trigger] stages[s]@[k2]) ==> k1 == k2
    &&& forall|s: int, k1: int, k2: int|
        0 <= s < stages.len() && 0 <= k1 < stages[s]@.len() && 0 <= k2 < stages[s]@.len() && k1 != k2
            ==> !accesses[(#[trigger] stages[s]@[k1]) as int].conflicts_spec(
            &accesses[(#[trigger] stages[s]@[k2]) as int],
        )
    &&& forall|i: int, k: int|
        0 <= i < n && placed[i] && 0 <= k < deps[i]@.len() ==> placed[(#[trigger] deps[i]@[k]) as int]
            && stage_of[deps[i]@[k] as int] < stage_of[i]
}


/// Places system `i`, whose predecessors are all placed in stages before
/// `base`, into the earliest stage at or after `base` that holds no conflict
/// with it, opening a new stage when every existing one conflicts.
#[verifier::rlimit(80)]
fn place_one(
    accesses: &Vec<AccessSet>,
    deps: &Vec<Vec<usize>>,
    stages: &mut Vec<Vec<usize>>,
    stage_of: &mut Vec<usize>,
    placed: &mut Vec<bool>,
    i: usize,
    base: usize,
)
    requires
        deps@.len() == accesses@.len(),
        forall|a: int, k: int|
            0 <= a < deps@.len() && 0 <= k < deps@[a]@.len() ==> (#[trigger] deps@[a]@[k])
                < accesses@.len(),
        place_inv(
            accesses@.len() as int,
            accesses@,
            deps@,
            old(placed)@,
            old(stages)@,
            old(stage_of)@,
        ),
        i < accesses@.len(),
        !old(placed)@[i as int],
        forall|k: int|
            0 <= k < deps@[i as int]@.len() ==> old(placed)@[(#[trigger] deps@[i as int]@[k]) as int],
        forall|k: int|
            0 <= k < deps@[i as int]@.len() ==> (old(stage_of)@[(#[trigger] deps@[i as int]@[k]) as int]
                as int) < base,
        base <= old(stages)@.len(),
    ensures
        place_inv(
            accesses@.len() as int,
            accesses@,
            deps@,
            final(placed)@,
            final(stages)@,
            final(stage_of)@,
        ),
        final(placed)@ == old(placed)@.update(i as int, true),
{
    let ghost n = accesses@.len() as int;
    let ghost old_stages = stages@;
    let s = find_stage(&stages, accesses, i, base);
    if s == stages.len() {
        let mut ns: Vec<usize> = Vec::new();
        ns.push(i);
        stages.push(ns);
    } else {
        let stage_ref = &mut stages[s];
        stage_ref.push(i);
    }
    stage_of[i] = s;
    placed[i] = true;
    proof {
        broadcast use vstd::seq_lib::group_seq_properties;

        let gi = i as int;
        let acc = accesses@;
        let dv = deps@;
        let sv = stages@;
        // the fresh system stood in no stage before
        assert forall|s2: int, k: int|
            0 <= s2 < old_stages.len() && 0 <= k < old_stages[s2]@.len() implies (
        #[trigger] old_stages[s2]@[k]) != i as usize by {
            assert(old(placed)@[old_stages[s2]@[k] as int]);
        }
        if (s as int) == old_stages.len() {
            assert(sv[s as int]@ =~= seq![i as usize]);
        } else {
            assert(sv[s as int]@ =~= old_stages[s as int]@.push(i as usize));
        }
        assert forall|s2: int, k1: int, k2: int|
            0 <= s2 < sv.len() && 0 <= k1 < sv[s2]@.len() && 0 <= k2 < sv[s2]@.len() && k1 != k2 implies !acc[(
        #[trigger] sv[s2]@[k1]) as int].conflicts_spec(&acc[(#[trigger] sv[s2]@[k2]) as int]) by {
            if s2 == s as int {
                let sgrew: bool = (s as int) < old_stages.len();
                if k2 == sv[s2]@.len() - 1 && k1 < k2 && sgrew {
                    crate::access::lemma_conflict_symmetric(&acc[sv[s2]@[k1] as int], &acc[gi]);
                }
                if k1 == sv[s2]@.len() - 1 && k2 < k1 && sgrew {
                    crate::access::lemma_conflict_symmetric(&acc[sv[s2]@[k2] as int], &acc[gi]);
                }
            }
        }
        assert(place_inv(n, acc, dv, placed@, sv, stage_of@));
    }
}

/// One pass over the systems in registration order: places every system
/// whose predecessors are all placed, and says how many it placed.
fn place_pass(
    accesses: &Vec<AccessSet>,
    deps: &Vec<Vec<usize>>,
    stages: &mut Vec<Vec<usize>>,
    stage_of: &mut Vec<usize>,
    placed: &mut Vec<bool>,
) -> (num_placed: usize)
    requires
        deps@.len() == accesses@.len(),
        forall|a: int, k: int|
            0 <= a < deps@.len() && 0 <= k < deps@[a]@.len() ==> (#[trigger] deps@[a]@[k])
                < accesses@.len(),
        place_inv(
            accesses@.len() as int,
            accesses@,
            deps@,
            old(placed)@,
            old(stages)@,
            old(stage_of)@,
        ),
    ensures
        place_inv(
            accesses@.len() as int,
            accesses@,
            deps@,
            final(placed)@,
            final(stages)@,
            final(stage_of)@,
        ),
        final(placed)@.len() == old(placed)@.len(),
        num_false(final(placed)@) == num_false(old(placed)@) - num_placed,
        num_placed == 0 ==> final(placed)@ == old(placed)@ && forall|a: int|
            0 <= a < final(placed)@.len() && !(#[trigger] final(placed)@[a]) ==> exists|k: int|
                0 <= k < deps@[a]@.len() && !final(placed)@[(#[trigger] deps@[a]@[k]) as int],
{
    let ghost start_placed = placed@;
    let n = accesses.len();
    let mut num_placed: usize = 0;
    let mut i: usize = 0;
    while i < n
        invariant
            n == accesses@.len() == deps@.len(),
            forall|a: int, k: int|
                0 <= a < deps@.len() && 0 <= k < deps@[a]@.len() ==> (#[trigger] deps@[a]@[k]) < n,
            place_inv(
                n as int,
                accesses@,
                deps@,
                placed@,
                stages@,
                stage_of@,
            ),
            i <= n,
            placed@.len() == start_placed.len(),
            num_placed <= i,
            num_false(placed@) == num_false(start_placed) - num_placed,
            num_placed == 0 ==> placed@ == start_placed,
            num_placed == 0 ==> forall|a: int|
                0 <= a < i && !(#[trigger] placed@[a]) ==> exists|k: int|
                    0 <= k < deps@[a]@.len() && !placed@[(#[trigger] deps@[a]@[k]) as int],
        decreases n - i,
    {
        if !placed[i] {
            match deps_ready(&deps[i], &placed, &stage_of, stages.len()) {
                Some(base) => {
                    let ghost pre_placed = placed@;
                    place_one(accesses, deps, stages, stage_of, placed, i, base);
                    proof {
                        lemma_num_false_update(pre_placed, i as int);
                    }
                    num_placed = num_placed + 1;
                },
                None => {},
            }
        }
        i = i + 1;
    }
    num_placed
}

/// Assigns every system to a stage: in passes over registration order, places
/// each system whose predecessors are all placed into the earliest stage
/// strictly after them in which it conflicts with nothing; reports a cycle
/// when a pass can place nothing.
fn place_nodes(accesses: &Vec<AccessSet>, deps: &Vec<Vec<usize>>) -> (r: Option<
    (Vec<Vec<usize>>, Vec<usize>),
>)
    requires
        deps@.len() == accesses@.len(),
        forall|i: int, k: int|
            0 <= i < deps@.len() && 0 <= k < deps@[i]@.len() ==> (#[trigger] deps@[i]@[k])
                < accesses@.len(),
    ensures
        match r {
            Some(plan) => plan_wf(
                accesses@.len() as int,
                accesses@,
                deps@,
                plan.0@,
                plan.1@,
            ),
            None => !idx_acyclic(deps@),
        },
{
    let n = accesses.len();
    let mut placed: Vec<bool> = vec![false; n];
    let mut stage_of: Vec<usize> = vec![0; n];
    let mut stages: Vec<Vec<usize>> = Vec::new();
    let mut remaining: usize = n;
    proof {
        lemma_num_false_none(placed@);
    }
    while remaining > 0
        invariant
            n == accesses@.len() == deps@.len(),
            forall|i: int, k: int|
                0 <= i < deps@.len() && 0 <= k < deps@[i]@.len() ==> (#[trigger] deps@[i]@[k]) < n,
            placed@.len() == n,
            remaining == num_false(placed@),
            place_inv(
                n as int,
                accesses@,
                deps@,
                placed@,
                stages@,
                stage_of@,
            ),
        decreases remaining,
    {
        let num_placed = place_pass(accesses, deps, &mut stages, &mut stage_of, &mut placed);
        if num_placed == 0 {
            proof {
                lemma_num_false_pos(placed@);
                lemma_stuck_not_acyclic(deps@, placed@);
            }
            return None;
        }
        proof {
            lemma_num_false_bounds(placed@);
        }
        remaining = remaining - num_placed;
    }
    proof {
        lemma_num_false_zero(placed@);
        assert(plan_wf(
            accesses@.len() as int,
            accesses@,
            deps@,
            stages@,
            stage_of@,
        ));
    }
    Some((stages, stage_of))
}


/// `accesses[i]` states exactly the declared capability of `systems[i]`.
pub open spec fn access_match<V, S: System<V>>(accesses: Seq<AccessSet>, systems: Seq<S>) -> bool {
    &&& accesses.len() == systems.len()
    &&& forall|i: int|
        0 <= i < systems.len() ==> (#[trigger] accesses[i]).read_set() == systems[i].reads_spec()
            && accesses[i].write_set() == systems[i].writes_spec() && accesses[i].dynamic
            == systems[i].dynamic_spec()
}

/// The systems' states and the store after running `order`, one system at a
/// time, each on the store the previous one left.
pub open spec fn run_list<V, S: System<V>>(
    systems: Seq<S>,
    order: Seq<usize>,
    m: Map<ResourceId, V>,
) -> (Seq<S>, Map<ResourceId, V>)
    decreases order.len(),
{
    if order.len() == 0 {
        (systems, m)
    } else {
        let r = run_list(systems, order.drop_last(), m);
        let i = order.last() as int;
        (r.0.update(i, r.0[i].step(r.1)), r.0[i].effect(r.1))
    }
}

/// The store after every system's `setup`, in registration order.
pub open spec fn setup_fold<V, S: System<V>>(systems: Seq<S>, m: Map<ResourceId, V>) -> Map<
    ResourceId,
    V,
>
    decreases systems.len(),
{
    if systems.len() == 0 {
        m
    } else {
        systems.last().setup_effect(setup_fold(systems.drop_last(), m))
    }
}

/// The plan read as one sequence: the stages in order, each stage's systems in
/// registration order.
pub open spec fn flat_schedule(stages: Seq<Vec<usize>>) -> Seq<usize>
    decreases stages.len(),
{
    if stages.len() == 0 {
        Seq::empty()
    } else {
        flat_schedule(stages.drop_last()) + stages.last()@
    }
}

/// The part of the plan before stage `s`, plus the first `k` systems of stage
/// `s`.
spec fn plan_prefix(stages: Seq<Vec<usize>>, s: int, k: int) -> Seq<usize> {
    flat_schedule(stages.subrange(0, s)) + if s < stages.len() {
        stages[s]@.subrange(0, k)
    } else {
        Seq::empty()
    }
}

/// Running a schedule neither loses systems nor changes what they declare.
proof fn lemma_run_list_access<V, S: System<V>>(
    systems: Seq<S>,
    accesses: Seq<AccessSet>,
    order: Seq<usize>,
    m: Map<ResourceId, V>,
)
    requires
        forall|k: int| 0 <= k < order.len() ==> ((#[trigger] order[k]) as int) < systems.len(),
        access_match(accesses, systems),
    ensures
        run_list(systems, order, m).0.len() == systems.len(),
        access_match(accesses, run_list(systems, order, m).0),
    decreases order.len(),
{
    if order.len() > 0 {
        assert forall|k: int|
            0 <= k < order.drop_last().len() implies ((#[trigger] order.drop_last()[k]) as int)
            < systems.len() by {
            assert(order.drop_last()[k] == order[k]);
        }
        lemma_run_list_access(systems, accesses, order.drop_last(), m);
        let r = run_list(systems, order.drop_last(), m);
        let i = order.last() as int;
        r.0[i].step_access(r.1);
    }
}

/// Registers systems by name, with explicit "runs after" edges, and builds
/// the dispatcher.
pub struct DispatcherBuilder<V, S> {
    systems: Vec<S>,
    names: Vec<String>,
    accesses: Vec<AccessSet>,
    times: Vec<RunningTime>,
    dep_names: Vec<Vec<String>>,
    marker: PhantomData<V>,
}

impl<V, S: System<V>> DispatcherBuilder<V, S> {
    /// The registered systems, in registration order.
    pub closed spec fn spec_systems(&self) -> Seq<S> {
        self.systems@
    }

    /// The registered names, in registration order.
    pub closed spec fn spec_names(&self) -> Seq<String> {
        self.names@
    }

    /// The capability declarations captured at registration.
    pub closed spec fn spec_accesses(&self) -> Seq<AccessSet> {
        self.accesses@
    }

    /// The explicit predecessor names, per system.
    pub closed spec fn spec_dep_names(&self) -> Seq<Vec<String>> {
        self.dep_names@
    }

    /// One entry of each list per system, and each captured declaration states
    /// its system's declared sets.
    pub closed spec fn wf(&self) -> bool {
        &&& self.names@.len() == self.systems@.len()
        &&& self.accesses@.len() == self.systems@.len()
        &&& self.times@.len() == self.systems@.len()
        &&& self.dep_names@.len() == self.systems@.len()
        &&& access_match(self.accesses@, self.systems@)
    }

    /// A builder with no systems.
    pub fn new() -> (r: DispatcherBuilder<V, S>)
        ensures
            r.wf(),
            r.spec_systems().len() == 0,
            r.spec_names().len() == 0,
    {
        DispatcherBuilder {
            systems: Vec::new(),
            names: Vec::new(),
            accesses: Vec::new(),
            times: Vec::new(),
            dep_names: Vec::new(),
            marker: PhantomData,
        }
    }

    /// Registers `system` under `name`, to run after every system named in
    /// `deps`. The names in `deps` may be registered before or after this
    /// call; `build` resolves them.
    pub fn with(self, system: S, name: &str, deps: &[&str]) -> (r: DispatcherBuilder<V, S>)
        requires
            self.wf(),
        ensures
            r.wf(),
            r.spec_systems() == self.spec_systems().push(system),
            r.spec_names().len() == self.spec_names().len() + 1,
            r.spec_names().drop_last() == self.spec_names(),
            r.spec_names().last()@ == name@,
            r.spec_dep_names().len() == self.spec_dep_names().len() + 1,
            r.spec_dep_names().drop_last() == self.spec_dep_names(),
            r.spec_dep_names().last()@.len() == deps@.len(),
            forall|k: int|
                0 <= k < deps@.len() ==> (#[trigger] r.spec_dep_names().last()@[k])@ == deps@[k]@,
            r.spec_accesses().drop_last() == self.spec_accesses(),
    {
        let mut me = self;
        let a = system.access();
        let t = system.running_time();
        me.accesses.push(a);
        me.times.push(t);
        me.systems.push(system);
        me.names.push(name.to_owned());
        let mut ds: Vec<String> = Vec::new();
        let mut k: usize = 0;
        while k < deps.len()
            invariant
                k == ds@.len() <= deps@.len(),
                forall|b: int| 0 <= b < k ==> (#[trigger] ds@[b])@ == deps@[b]@,
            decreases deps@.len() - k,
        {
            ds.push(deps[k].to_owned());
            k = k + 1;
        }
        me.dep_names.push(ds);
        proof {
            assert(me.systems@.drop_last() =~= self.systems@);
            assert(me.names@.drop_last() =~= self.names@);
            assert(me.accesses@.drop_last() =~= self.accesses@);
            assert(me.dep_names@.drop_last() =~= self.dep_names@);
        }
        me
    }

    /// Computes the stage plan. Succeeds exactly when the names are unique,
    /// every edge names a registered system, and the edges form no cycle; the
    /// dispatcher then satisfies `wf`: conflict-free stages that respect every
    /// explicit edge.
    #[verifier::rlimit(100)]
    #[verifier::spinoff_prover]
    pub fn build(self) -> (r: Result<Dispatcher<V, S>, BuildError>)
        requires
            self.wf(),
        ensures
            r matches Ok(d) ==> {
                &&& names_unique(self.spec_names())
                &&& deps_resolve(self.spec_names(), self.spec_dep_names())
                &&& acyclic(self.spec_names(), self.spec_dep_names())
                &&& d.wf()
                &&& d.spec_systems() == self.spec_systems()
                &&& d.spec_names() == self.spec_names()
                &&& d.spec_accesses() == self.spec_accesses()
                &&& forall|i: int, j: int|
                    0 <= i < self.spec_names().len() && 0 <= j < self.spec_names().len()
                        && #[trigger] has_edge(self.spec_names(), self.spec_dep_names(), i, j)
                        ==> (d.spec_stage_of()[j] as int) < (d.spec_stage_of()[i] as int)
            },
            r matches Err(BuildError::DuplicateName(nm)) ==> !names_unique(self.spec_names())
                && exists|i: int, j: int|
                0 <= i < j < self.spec_names().len() && (#[trigger] self.spec_names()[i])@ == (
                #[trigger] self.spec_names()[j])@ && self.spec_names()[j]@ == nm@,
            r matches Err(BuildError::UnknownDependency(nm)) ==> names_unique(self.spec_names())
                && !name_resolves(self.spec_names(), nm@) && !deps_resolve(
                self.spec_names(),
                self.spec_dep_names(),
            ),
            r matches Err(BuildError::CycleDetected) ==> names_unique(self.spec_names())
                && deps_resolve(self.spec_names(), self.spec_dep_names()) && !acyclic(
                self.spec_names(),
                self.spec_dep_names(),
            ),
    {
        match find_duplicate(&self.names) {
            Some(nm) => {
                proof {
                    let (i, j) = choose|i: int, j: int|
                        0 <= i < j < self.names@.len() && (#[trigger] self.names@[i])@ == (
                        #[trigger] self.names@[j])@ && self.names@[j]@ == nm@;
                    assert(!names_unique(self.names@));
                    assert(exists|i: int, j: int|
                        0 <= i < j < self.names@.len() && (#[trigger] self.names@[i])@ == (
                        #[trigger] self.names@[j])@ && self.names@[j]@ == nm@);
                }
                return Err(BuildError::DuplicateName(nm));
            },
            None => {},
        }
        let deps = match resolve_deps(&self.names, &self.dep_names) {
            Ok(deps) => deps,
            Err(nm) => {
                proof {
                    let i = choose|i: int, k: int|
                        0 <= i < self.dep_names@.len() && 0 <= k < (#[trigger] self.dep_names@[i])@.len()
                            && (#[trigger] self.dep_names@[i]@[k])@ == nm@;
                }
                return Err(BuildError::UnknownDependency(nm));
            },
        };
        proof {
            assert(deps_resolve(self.spec_names(), self.spec_dep_names())) by {
                assert forall|i: int, k: int|
                    0 <= i < self.dep_names@.len() && 0 <= k < self.dep_names@[i]@.len() implies name_resolves(
                    self.names@,
                    (#[trigger] self.dep_names@[i]@[k])@,
                ) by {
                    assert(self.names@[deps@[i]@[k] as int]@ == self.dep_names@[i]@[k]@);
                }
            }
        }
        match place_nodes(&self.accesses, &deps) {
            Some(plan) => {
                let (stages, stage_of) = plan;
                proof {
                    lemma_acyclic_bridge(self.names@, self.dep_names@, deps@);
                    let rank = Map::<int, int>::new(
                        |i: int| true,
                        |i: int|
                            if 0 <= i < stage_of@.len() {
                                stage_of@[i] as int
                            } else {
                                0
                            },
                    );
                    assert(idx_rank_ok(deps@, rank));
                    assert(idx_acyclic(deps@));
                }
                let d = Dispatcher {
                    systems: self.systems,
                    names: self.names,
                    accesses: self.accesses,
                    times: self.times,
                    deps,
                    stages,
                    stage_of,
                    marker: PhantomData,
                };
                proof {
                    assert forall|i: int, j: int|
                        0 <= i < d.names@.len() && 0 <= j < d.names@.len() && #[trigger] has_edge(
                            d.names@,
                            self.spec_dep_names(),
                            i,
                            j,
                        ) implies (d.stage_of@[j] as int) < (d.stage_of@[i] as int) by {
                        let k = choose|k: int|
                            0 <= k < self.dep_names@[i]@.len() && (#[trigger] self.dep_names@[i]@[k])@
                                == d.names@[j]@;
                        let jj = d.deps@[i]@[k] as int;
                        assert(d.names@[jj]@ == d.names@[j]@);
                        if jj != j {
                            if jj < j {
                                assert(d.names@[jj]@ != d.names@[j]@);
                            } else {
                                assert(d.names@[j]@ != d.names@[jj]@);
                            }
                        }
                        assert((d.stage_of@[deps@[i]@[k] as int] as int) < (d.stage_of@[i] as int));
                    }
                }
                Ok(d)
            },
            None => {
                proof {
                    lemma_acyclic_bridge(self.names@, self.dep_names@, deps@);
                }
                Err(BuildError::CycleDetected)
            },
        }
    }
}

/// Replays a fixed stage plan over a store: each dispatch materializes every
/// system's declared borrows against the current store, stage by stage.
pub struct Dispatcher<V, S> {
    systems: Vec<S>,
    names: Vec<String>,
    accesses: Vec<AccessSet>,
    times: Vec<RunningTime>,
    deps: Vec<Vec<usize>>,
    stages: Vec<Vec<usize>>,
    stage_of: Vec<usize>,
    marker: PhantomData<V>,
}

impl<V, S: System<V>> Dispatcher<V, S> {
    /// The systems, in registration order, in their current states.
    pub closed spec fn spec_systems(&self) -> Seq<S> {
        self.systems@
    }

    /// The registered names.
    pub closed spec fn spec_names(&self) -> Seq<String> {
        self.names@
    }

    /// The capability declarations captured at registration.
    pub closed spec fn spec_accesses(&self) -> Seq<AccessSet> {
        self.accesses@
    }

    /// The resolved predecessor indices, per system.
    pub closed spec fn spec_deps(&self) -> Seq<Vec<usize>> {
        self.deps@
    }

    /// The plan: stages of system indices.
    pub closed spec fn spec_stages(&self) -> Seq<Vec<usize>> {
        self.stages@
    }

    /// Which stage each system stands in.
    pub closed spec fn spec_stage_of(&self) -> Seq<usize> {
        self.stage_of@
    }

    /// The plan is consistent, conflict-free within stages, respects every
    /// resolved edge, and the captured declarations state the systems' sets.
    pub closed spec fn wf(&self) -> bool {
        &&& self.names@.len() == self.systems@.len()
        &&& self.times@.len() == self.systems@.len()
        &&& self.deps@.len() == self.systems@.len()
        &&& plan_wf(
            self.systems@.len() as int,
            self.accesses@,
            self.deps@,
            self.stages@,
            self.stage_of@,
        )
        &&& access_match(self.accesses@, self.systems@)
    }

    /// How many systems are registered.
    pub fn num_systems(&self) -> (r: usize)
        ensures
            r == self.spec_systems().len(),
    {
        self.systems.len()
    }

    /// How many stages the plan holds.
    pub fn num_stages(&self) -> (r: usize)
        ensures
            r == self.spec_stages().len(),
    {
        self.stages.len()
    }

    /// The stage in which system `i` (by registration order) stands.
    pub fn stage_of_system(&self, i: usize) -> (r: usize)
        requires
            self.wf(),
            i < self.spec_systems().len(),
        ensures
            r == self.spec_stage_of()[i as int],
            (r as int) < self.spec_stages().len(),
    {
        self.stage_of[i]
    }

    /// How many systems share stage `s`.
    pub fn stage_len(&self, s: usize) -> (r: usize)
        requires
            s < self.spec_stages().len(),
        ensures
            r == self.spec_stages()[s as int]@.len(),
    {
        self.stages[s].len()
    }

    /// Runs every system's `setup` once, in registration order; to be called
    /// once, before the first dispatch.
    pub fn setup(&self, res: &mut Resources<V>)
        requires
            old(res).wf(),
        ensures
            final(res).wf(),
            final(res)@ == setup_fold(self.spec_systems(), old(res)@),
    {
        let ghost orig_m = res@;
        let n = self.systems.len();
        let mut i: usize = 0;
        while i < n
            invariant
                n == self.systems@.len(),
                i <= n,
                res.wf(),
                res@ == setup_fold(self.systems@.subrange(0, i as int), orig_m),
            decreases n - i,
        {
            let sys = &self.systems[i];
            sys.setup(res);
            i = i + 1;
            proof {
                assert(self.systems@.subrange(0, i as int).drop_last() =~= self.systems@.subrange(
                    0,
                    i - 1,
                ));
            }
        }
        proof {
            assert(self.systems@.subrange(0, n as int) =~= self.systems@);
        }
    }

    /// Runs the whole plan against `res`, stage by stage in plan order and in
    /// registration order within a stage.
    fn run_plan(&mut self, res: &mut Resources<V>)
        requires
            old(self).wf(),
            old(res).wf(),
        ensures
            final(self).wf(),
            final(res).wf(),
            final(self).spec_systems() == run_list(
                old(self).spec_systems(),
                flat_schedule(old(self).spec_stages()),
                old(res)@,
            ).0,
            final(res)@ == run_list(
                old(self).spec_systems(),
                flat_schedule(old(self).spec_stages()),
                old(res)@,
            ).1,
            final(self).spec_names() == old(self).spec_names(),
            final(self).spec_accesses() == old(self).spec_accesses(),
            final(self).spec_deps() == old(self).spec_deps(),
            final(self).spec_stages() == old(self).spec_stages(),
            final(self).spec_stage_of() == old(self).spec_stage_of(),
    {
        let ghost orig_systems = self.systems@;
        let ghost orig_m = res@;
        let ghost stv = self.stages@;
        let ghost n = self.systems@.len() as int;
        let mut s: usize = 0;
        while s < self.stages.len()
            invariant
                old(self).wf(),
                stv == self.stages@,
                n == orig_systems.len(),
                self.names@ == old(self).names@,
                self.accesses@ == old(self).accesses@,
                self.times@ == old(self).times@,
                self.deps@ == old(self).deps@,
                self.stage_of@ == old(self).stage_of@,
                orig_systems == old(self).systems@,
                plan_wf(n, self.accesses@, self.deps@, stv, self.stage_of@),
                s <= stv.len(),
                res.wf(),
                self.systems@ == run_list(orig_systems, plan_prefix(stv, s as int, 0), orig_m).0,
                res@ == run_list(orig_systems, plan_prefix(stv, s as int, 0), orig_m).1,
                self.systems@.len() == n,
            decreases stv.len() - s,
        {
            let stage_size = self.stages[s].len();
            let mut k: usize = 0;
            while k < stage_size
                invariant
                    old(self).wf(),
                    stv == self.stages@,
                    n == orig_systems.len(),
                    self.names@ == old(self).names@,
                    self.accesses@ == old(self).accesses@,
                    self.times@ == old(self).times@,
                    self.deps@ == old(self).deps@,
                    self.stage_of@ == old(self).stage_of@,
                    orig_systems == old(self).systems@,
                    plan_wf(n, self.accesses@, self.deps@, stv, self.stage_of@),
                    s < stv.len(),
                    stage_size == stv[s as int]@.len(),
                    k <= stage_size,
                    res.wf(),
                    self.systems@ == run_list(
                        orig_systems,
                        plan_prefix(stv, s as int, k as int),
                        orig_m,
                    ).0,
                    res@ == run_list(orig_systems, plan_prefix(stv, s as int, k as int), orig_m).1,
                    self.systems@.len() == n,
                decreases stage_size - k,
            {
                let idx = self.stages[s][k];
                proof {
                    assert(stv[s as int]@[k as int] < n);
                }
                let ghost pre = run_list(orig_systems, plan_prefix(stv, s as int, k as int), orig_m);
                let sys = &mut self.systems[idx];
                sys.run(res);
                k = k + 1;
                proof {
                    let p_old = plan_prefix(stv, s as int, k - 1);
                    let p_new = plan_prefix(stv, s as int, k as int);
                    assert(stv[s as int]@.subrange(0, k as int) =~= stv[s as int]@.subrange(
                        0,
                        k - 1,
                    ).push(idx));
                    assert(p_new =~= p_old.push(idx));
                    assert(p_new.drop_last() =~= p_old);
                    assert(run_list(orig_systems, p_new, orig_m).0 =~= pre.0.update(
                        idx as int,
                        pre.0[idx as int].step(pre.1),
                    ));
                }
            }
            s = s + 1;
            proof {
                let p_done = plan_prefix(stv, s - 1, stv[s - 1]@.len() as int);
                let p_next = plan_prefix(stv, s as int, 0);
                assert(stv.subrange(0, s as int).drop_last() =~= stv.subrange(0, s - 1));
                assert(stv[s - 1]@.subrange(0, stv[s - 1]@.len() as int) =~= stv[s - 1]@);
                assert(flat_schedule(stv.subrange(0, s as int)) =~= flat_schedule(
                    stv.subrange(0, s - 1),
                ) + stv[s - 1]@);
                if (s as int) < stv.len() {
                    assert(stv[s as int]@.subrange(0, 0) =~= Seq::<usize>::empty());
                }
                assert(p_next =~= p_done);
            }
        }
        proof {
            assert(stv.subrange(0, stv.len() as int) =~= stv);
            assert(plan_prefix(stv, stv.len() as int, 0) =~= flat_schedule(stv));
            lemma_flat_schedule_bounds(stv, n);
            lemma_run_list_access_glue(orig_systems, self.accesses@, flat_schedule(stv), orig_m, n);
        }
    }

    /// Runs the plan once: every stage in order, honoring the stage barrier.
    /// Submitting one stage's systems to a fork-join worker pool must leave
    /// the same final store, because no two of them conflict
    /// (`lemma_stage_commutes`); on the calling thread the plan runs in
    /// registration order within each stage.
    pub fn dispatch(&mut self, res: &mut Resources<V>)
        requires
            old(self).wf(),
            old(res).wf(),
        ensures
            final(self).wf(),
            final(res).wf(),
            final(self).spec_systems() == run_list(
                old(self).spec_systems(),
                flat_schedule(old(self).spec_stages()),
                old(res)@,
            ).0,
            final(res)@ == run_list(
                old(self).spec_systems(),
                flat_schedule(old(self).spec_stages()),
                old(res)@,
            ).1,
            final(self).spec_names() == old(self).spec_names(),
            final(self).spec_accesses() == old(self).spec_accesses(),
            final(self).spec_deps() == old(self).spec_deps(),
            final(self).spec_stages() == old(self).spec_stages(),
            final(self).spec_stage_of() == old(self).spec_stage_of(),
    {
        self.run_plan(res)
    }

    /// Runs the plan once on the calling thread, with no concurrency at all:
    /// stage by stage, registration order within a stage. From equal
    /// dispatcher and store states, `dispatch` and `dispatch_seq` leave
    /// identical final resource values (`lemma_dispatch_modes_agree`).
    pub fn dispatch_seq(&mut self, res: &mut Resources<V>)
        requires
            old(self).wf(),
            old(res).wf(),
        ensures
            final(self).wf(),
            final(res).wf(),
            final(self).spec_systems() == run_list(
                old(self).spec_systems(),
                flat_schedule(old(self).spec_stages()),
                old(res)@,
            ).0,
            final(res)@ == run_list(
                old(self).spec_systems(),
                flat_schedule(old(self).spec_stages()),
                old(res)@,
            ).1,
            final(self).spec_names() == old(self).spec_names(),
            final(self).spec_accesses() == old(self).spec_accesses(),
            final(self).spec_deps() == old(self).spec_deps(),
            final(self).spec_stages() == old(self).spec_stages(),
            final(self).spec_stage_of() == old(self).spec_stage_of(),
    {
        self.run_plan(res)
    }
}

/// Every index of a flattened plan stays below the system count.
proof fn lemma_flat_schedule_bounds(stages: Seq<Vec<usize>>, n: int)
    requires
        forall|s: int, k: int|
            0 <= s < stages.len() && 0 <= k < stages[s]@.len() ==> ((#[trigger] stages[s]@[k])
                as int) < n,
    ensures
        forall|k: int|
            0 <= k < flat_schedule(stages).len() ==> ((#[trigger] flat_schedule(stages)[k]) as int)
                < n,
    decreases stages.len(),
{
    if stages.len() > 0 {
        assert forall|s: int, k: int|
            0 <= s < stages.drop_last().len() && 0 <= k < stages.drop_last()[s]@.len() implies ((
        #[trigger] stages.drop_last()[s]@[k]) as int) < n by {
            assert(stages.drop_last()[s] == stages[s]);
        }
        lemma_flat_schedule_bounds(stages.drop_last(), n);
        assert forall|k: int|
            0 <= k < flat_schedule(stages).len() implies ((#[trigger] flat_schedule(stages)[k])
            as int) < n by {
            let pre = flat_schedule(stages.drop_last());
            if k < pre.len() {
                assert(flat_schedule(stages)[k] == pre[k]);
            } else {
                assert(flat_schedule(stages)[k] == stages.last()@[k - pre.len()]);
                assert(stages[stages.len() - 1]@[k - pre.len()] < n);
            }
        }
    }
}

/// The schedule stays within bounds, so running it preserves the access
/// bookkeeping.
proof fn lemma_run_list_access_glue<V, S: System<V>>(
    systems: Seq<S>,
    accesses: Seq<AccessSet>,
    order: Seq<usize>,
    m: Map<ResourceId, V>,
    n: int,
)
    requires
        n == systems.len(),
        forall|k: int| 0 <= k < order.len() ==> ((#[trigger] order[k]) as int) < n,
        access_match(accesses, systems),
    ensures
        run_list(systems, order, m).0.len() == systems.len(),
        access_match(accesses, run_list(systems, order, m).0),
{
    lemma_run_list_access(systems, accesses, order, m);
}

/// Dynamic-accessor systems always occupy a stage alone: a dynamic
/// declaration conflicts with every other, so nothing shares its stage.
pub proof fn lemma_dynamic_alone<V, S: System<V>>(d: &Dispatcher<V, S>, i: usize)
    requires
        d.wf(),
        (i as int) < d.spec_systems().len(),
        d.spec_accesses()[i as int].dynamic,
    ensures
        d.spec_stages()[d.spec_stage_of()[i as int] as int]@.len() == 1,
{
    let stages = d.spec_stages();
    let s = d.spec_stage_of()[i as int] as int;
    assert(stages[s]@.contains(i));
    let k = choose|k: int| 0 <= k < stages[s]@.len() && stages[s]@[k] == i;
    if stages[s]@.len() > 1 {
        let k2: int = if k == 0 {
            1
        } else {
            0
        };
        assert(!d.spec_accesses()[(stages[s]@[k]) as int].conflicts_spec(
            &d.spec_accesses()[(stages[s]@[k2]) as int],
        ));
        assert(d.spec_accesses()[(stages[s]@[k]) as int] == d.spec_accesses()[i as int]);
        assert(d.spec_accesses()[i as int].conflicts_spec(
            &d.spec_accesses()[(stages[s]@[k2]) as int],
        ));
        assert(false);
    }
}

/// `dispatch` and `dispatch_seq` drive the systems through the same schedule:
/// both ensure the outcome `run_list(systems, flat_schedule(stages), store)`,
/// so on equal dispatcher-plus-store states the two leave identical final
/// resource values and system states.
pub proof fn lemma_dispatch_modes_agree<V, S: System<V>>(
    d1: &Dispatcher<V, S>,
    d2: &Dispatcher<V, S>,
    m1: Map<ResourceId, V>,
    m2: Map<ResourceId, V>,
)
    requires
        d1.spec_systems() == d2.spec_systems(),
        d1.spec_stages() == d2.spec_stages(),
        m1 == m2,
    ensures
        run_list(d1.spec_systems(), flat_schedule(d1.spec_stages()), m1) == run_list(
            d2.spec_systems(),
            flat_schedule(d2.spec_stages()),
            m2,
        ),
{
}

/// Two systems sharing a stage commute on the store: their declarations do
/// not conflict, so the store after both is the same in either completion
/// order. This is what makes submitting a stage to a worker pool sound.
pub proof fn lemma_stage_commutes<V, S: System<V>>(
    d: &Dispatcher<V, S>,
    s: int,
    k1: int,
    k2: int,
    m: Map<ResourceId, V>,
)
    requires
        d.wf(),
        0 <= s < d.spec_stages().len(),
        0 <= k1 < d.spec_stages()[s]@.len(),
        0 <= k2 < d.spec_stages()[s]@.len(),
        k1 != k2,
    ensures
        ({
            let a = d.spec_systems()[d.spec_stages()[s]@[k1] as int];
            let b = d.spec_systems()[d.spec_stages()[s]@[k2] as int];
            a.effect(b.effect(m)) == b.effect(a.effect(m))
        }),
{
    let ia = d.spec_stages()[s]@[k1] as int;
    let ib = d.spec_stages()[s]@[k2] as int;
    let a = d.spec_systems()[ia];
    let b = d.spec_systems()[ib];
    let aa = d.spec_accesses()[ia];
    let ab = d.spec_accesses()[ib];
    assert(!aa.conflicts_spec(&ab));
    assert(a.writes_spec().disjoint(b.writes_spec())) by {
        assert forall|x: ResourceId| a.writes_spec().contains(x) implies !(#[trigger] b.writes_spec().contains(x)) by {
            if b.writes_spec().contains(x) {
                assert(aa.writes@.contains(x) && ab.writes@.contains(x));
                assert(crate::access::ids_intersect(aa.writes@, ab.writes@));
            }
        }
    }
    assert(a.writes_spec().disjoint(b.reads_spec())) by {
        assert forall|x: ResourceId| a.writes_spec().contains(x) implies !(#[trigger] b.reads_spec().contains(x)) by {
            if b.reads_spec().contains(x) {
                assert(aa.writes@.contains(x) && ab.reads@.contains(x));
                assert(crate::access::ids_intersect(aa.writes@, ab.reads@));
            }
        }
    }
    assert(a.reads_spec().disjoint(b.writes_spec())) by {
        assert forall|x: ResourceId| a.reads_spec().contains(x) implies !(#[trigger] b.writes_spec().contains(x)) by {
            if b.writes_spec().contains(x) {
                assert(aa.reads@.contains(x) && ab.writes@.contains(x));
                assert(crate::access::ids_intersect(aa.reads@, ab.writes@));
            }
        }
    }
    crate::system::lemma_disjoint_systems_commute(&a, &b, m);
}

} // verus!
