//! The graph that tells how each power the server needs is obtained from the
//! powers the client sends, with one multiplication per power.

use std::collections::HashMap;
use vstd::prelude::*;

verus! {

/// A power with the two powers whose product it is. Powers that the client
/// sends have depth 0 and no factors (`s1 == s2 == 0`).
#[derive(Clone, Copy, Debug, PartialEq, Eq, Structural)]
pub struct Node {
    pub target: usize,
    pub depth: usize,
    pub s1: usize,
    pub s2: usize,
}

/// A combination of parameters that the protocol cannot run with.
#[derive(Clone, Copy, Debug, PartialEq, Eq, Structural)]
pub enum ConfigError {
    /// The sizes do not fit together: the slots of a ciphertext do not divide
    /// into values, a chunk does not fit the plaintext modulus, or the
    /// degrees and powers of the evaluation contradict one another.
    InvalidParameters,
    /// Some target power is neither a source power nor the sum of two powers
    /// obtained before it.
    UnreachablePower,
}

/// The node of a source power.
pub open spec fn source_node(p: usize) -> Node {
    Node { target: p, depth: 0, s1: 0, s2: 0 }
}

/// The graph that holds the first `n` source powers.
pub open spec fn with_sources(sources: Seq<usize>, n: int) -> Map<usize, Node>
    decreases n,
{
    if n <= 0 {
        Map::empty()
    } else {
        with_sources(sources, n - 1).insert(sources[n - 1], source_node(sources[n - 1]))
    }
}

/// `target` can be had as the product of the powers `s1` and `target - s1`
/// that `dag` holds.
pub open spec fn is_candidate(dag: Map<usize, Node>, target: usize, s1: usize) -> bool {
    1 <= s1 < target && dag.contains_key(s1) && dag.contains_key((target - s1) as usize)
}

/// The depth of `target` as the product of `s1` and `target - s1`.
pub open spec fn split_depth(dag: Map<usize, Node>, target: usize, s1: usize) -> int {
    let d1: int = dag[s1].depth as int;
    let d2: int = dag[(target - s1) as usize].depth as int;
    if d1 >= d2 {
        d1 + 1
    } else {
        d2 + 1
    }
}

/// Splitting `target` at `a` is better than at `b`: of smaller depth, or of
/// the same depth with the smaller first factor.
pub open spec fn better_split(dag: Map<usize, Node>, target: usize, a: usize, b: usize) -> bool {
    split_depth(dag, target, a) < split_depth(dag, target, b) || (split_depth(dag, target, a)
        == split_depth(dag, target, b) && a < b)
}

/// The best first factor for `target` among the first `n` of `targets`, if
/// any of them is a candidate.
pub open spec fn best_split(dag: Map<usize, Node>, targets: Seq<usize>, target: usize, n: int)
    -> Option<usize>
    decreases n,
{
    if n <= 0 {
        None
    } else {
        let prev = best_split(dag, targets, target, n - 1);
        let s1 = targets[n - 1];
        if is_candidate(dag, target, s1) && (prev is None || better_split(
            dag,
            target,
            s1,
            prev->Some_0,
        )) {
            Some(s1)
        } else {
            prev
        }
    }
}

/// The node of `target` split at `s1`.
pub open spec fn split_node(dag: Map<usize, Node>, target: usize, s1: usize) -> Node {
    Node {
        target,
        depth: split_depth(dag, target, s1) as usize,
        s1,
        s2: (target - s1) as usize,
    }
}

/// The graph after the source powers and the first `n` target powers; `None`
/// if one of these targets could not be had from what came before it.
pub open spec fn with_targets(sources: Seq<usize>, targets: Seq<usize>, n: int) -> Option<
    Map<usize, Node>,
>
    decreases n,
{
    if n <= 0 {
        Some(with_sources(sources, sources.len() as int))
    } else {
        match with_targets(sources, targets, n - 1) {
            None => None,
            Some(dag) => {
                let t = targets[n - 1];
                if dag.contains_key(t) {
                    Some(dag)
                } else {
                    match best_split(dag, targets, t, targets.len() as int) {
                        None => None,
                        Some(s1) => Some(dag.insert(t, split_node(dag, t, s1))),
                    }
                }
            },
        }
    }
}

/// The power `s` is a source power or one of the first `i` target powers.
pub open spec fn available(sources: Seq<usize>, targets: Seq<usize>, i: int, s: usize) -> bool {
    sources.contains(s) || exists|j: int| 0 <= j < i && #[trigger] targets[j] == s
}

/// Every one of the first `n` target powers is in the graph, as a source
/// power or as the product of two powers that are available before it.
pub open spec fn dag_ordered(
    dag: Map<usize, Node>,
    sources: Seq<usize>,
    targets: Seq<usize>,
    n: int,
) -> bool {
    forall|i: int|
        0 <= i < n ==> {
            let p = #[trigger] targets[i];
            &&& dag.contains_key(p)
            &&& (sources.contains(p) || {
                &&& dag[p].target == p
                &&& 1 <= dag[p].s1
                &&& 1 <= dag[p].s2
                &&& dag[p].s1 + dag[p].s2 == p
                &&& available(sources, targets, i, dag[p].s1)
                &&& available(sources, targets, i, dag[p].s2)
            })
        }
}

/// The keys of the graph are the source powers and the first `n` targets.
pub open spec fn dag_keys(
    dag: Map<usize, Node>,
    sources: Seq<usize>,
    targets: Seq<usize>,
    n: int,
) -> bool {
    forall|p: usize| #[trigger] dag.contains_key(p) <==> available(sources, targets, n, p)
}

pub proof fn lemma_with_sources_keys(sources: Seq<usize>, n: int)
    requires
        0 <= n <= sources.len(),
    ensures
        forall|p: usize| #[trigger]
            with_sources(sources, n).contains_key(p) <==> exists|j: int|
                0 <= j < n && #[trigger] sources[j] == p,
        forall|p: usize| #[trigger]
            with_sources(sources, n).contains_key(p) ==> with_sources(sources, n)[p]
                == source_node(p),
    decreases n,
{
    if n > 0 {
        lemma_with_sources_keys(sources, n - 1);
        let prev = with_sources(sources, n - 1);
        assert forall|p: usize| #[trigger]
            with_sources(sources, n).contains_key(p) <==> exists|j: int|
                0 <= j < n && #[trigger] sources[j] == p by {
            if with_sources(sources, n).contains_key(p) {
                if p == sources[n - 1] {
                } else {
                    assert(prev.contains_key(p));
                    let j = choose|j: int| 0 <= j < n - 1 && #[trigger] sources[j] == p;
                    assert(0 <= j < n && sources[j] == p);
                }
            }
            if exists|j: int| 0 <= j < n && #[trigger] sources[j] == p {
                let j = choose|j: int| 0 <= j < n && #[trigger] sources[j] == p;
                if j < n - 1 {
                    assert(prev.contains_key(p));
                }
            }
        }
    }
}

/// What `best_split` returns is a candidate out of `targets`, and no
/// candidate out of `targets` is better.
pub proof fn lemma_best_split(dag: Map<usize, Node>, targets: Seq<usize>, target: usize, n: int)
    requires
        0 <= n <= targets.len(),
    ensures
        match best_split(dag, targets, target, n) {
            None => forall|j: int| 0 <= j < n ==> !is_candidate(dag, target, #[trigger] targets[j]),
            Some(s1) => {
                &&& is_candidate(dag, target, s1)
                &&& exists|j: int| 0 <= j < n && #[trigger] targets[j] == s1
                &&& forall|j: int|
                    0 <= j < n && is_candidate(dag, target, #[trigger] targets[j])
                        ==> !better_split(dag, target, targets[j], s1)
            },
        },
    decreases n,
{
    if n > 0 {
        lemma_best_split(dag, targets, target, n - 1);
        let prev = best_split(dag, targets, target, n - 1);
        let s1 = targets[n - 1];
        match best_split(dag, targets, target, n) {
            None => {},
            Some(b) => {
                if is_candidate(dag, target, s1) && (prev is None || better_split(
                    dag,
                    target,
                    s1,
                    prev->Some_0,
                )) {
                    assert(targets[n - 1] == b);
                } else {
                    let j = choose|j: int| 0 <= j < n - 1 && #[trigger] targets[j] == b;
                    assert(0 <= j < n && targets[j] == b);
                }
            },
        }
    }
}

/// Where the construction succeeds, the graph holds exactly the source and
/// target powers, and every target power is a source power or the product of
/// two powers that are available before it: all targets can be reached from
/// the sources, in the order of `targets`, with one multiplication each.
pub proof fn lemma_dag_ordered(sources: Seq<usize>, targets: Seq<usize>, n: int)
    requires
        0 <= n <= targets.len(),
        with_targets(sources, targets, n) is Some,
    ensures
        dag_keys(with_targets(sources, targets, n)->Some_0, sources, targets, n),
        dag_ordered(with_targets(sources, targets, n)->Some_0, sources, targets, n),
        forall|p: usize|
            sources.contains(p) ==> #[trigger] with_targets(sources, targets, n)->Some_0[p]
                == source_node(p),
    decreases n,
{
    let dag = with_targets(sources, targets, n)->Some_0;
    if n == 0 {
        lemma_with_sources_keys(sources, sources.len() as int);
        assert forall|p: usize| #[trigger] dag.contains_key(p) <==> available(
            sources,
            targets,
            0,
            p,
        ) by {
            if dag.contains_key(p) {
                let j = choose|j: int| 0 <= j < sources.len() && #[trigger] sources[j] == p;
                assert(sources.contains(p));
            }
            if sources.contains(p) {
                let j = choose|j: int| 0 <= j < sources.len() && sources[j] == p;
                assert(sources[j] == p);
            }
        }
        assert forall|p: usize| sources.contains(p) implies #[trigger] dag[p] == source_node(
            p,
        ) by {
            assert(dag.contains_key(p));
        }
    } else {
        lemma_dag_ordered(sources, targets, n - 1);
        let prev = with_targets(sources, targets, n - 1)->Some_0;
        let t = targets[n - 1];
        if prev.contains_key(t) {
            assert(dag == prev);
            assert forall|p: usize| #[trigger] dag.contains_key(p) <==> available(
                sources,
                targets,
                n,
                p,
            ) by {
                if available(sources, targets, n, p) && !available(sources, targets, n - 1, p) {
                    let j = choose|j: int| 0 <= j < n && #[trigger] targets[j] == p;
                    assert(j == n - 1);
                }
                if available(sources, targets, n - 1, p) && !sources.contains(p) {
                    let j = choose|j: int| 0 <= j < n - 1 && #[trigger] targets[j] == p;
                    assert(0 <= j < n && targets[j] == p);
                }
            }
            assert forall|i: int| 0 <= i < n implies {
                let p = #[trigger] targets[i];
                &&& dag.contains_key(p)
                &&& (sources.contains(p) || {
                    &&& dag[p].target == p
                    &&& 1 <= dag[p].s1
                    &&& 1 <= dag[p].s2
                    &&& dag[p].s1 + dag[p].s2 == p
                    &&& available(sources, targets, i, dag[p].s1)
                    &&& available(sources, targets, i, dag[p].s2)
                })
            } by {
                if i == n - 1 && !sources.contains(t) {
                    // t occurred among the earlier targets
                    let j = choose|j: int| 0 <= j < n - 1 && #[trigger] targets[j] == t;
                    lemma_available_grows(sources, targets, j, n - 1, prev[t].s1);
                    lemma_available_grows(sources, targets, j, n - 1, prev[t].s2);
                }
            }
        } else {
            lemma_best_split(prev, targets, t, targets.len() as int);
            let s1 = best_split(prev, targets, t, targets.len() as int)->Some_0;
            let s2 = (t - s1) as usize;
            assert(dag == prev.insert(t, split_node(prev, t, s1)));
            assert(!sources.contains(t));
            assert forall|p: usize| #[trigger] dag.contains_key(p) <==> available(
                sources,
                targets,
                n,
                p,
            ) by {
                if available(sources, targets, n, p) && !available(sources, targets, n - 1, p) {
                    let j = choose|j: int| 0 <= j < n && #[trigger] targets[j] == p;
                    assert(j == n - 1);
                }
                if available(sources, targets, n - 1, p) && !sources.contains(p) {
                    let j = choose|j: int| 0 <= j < n - 1 && #[trigger] targets[j] == p;
                    assert(0 <= j < n && targets[j] == p);
                }
                if p == t {
                    assert(targets[n - 1] == p);
                }
            }
            assert forall|i: int| 0 <= i < n implies {
                let p = #[trigger] targets[i];
                &&& dag.contains_key(p)
                &&& (sources.contains(p) || {
                    &&& dag[p].target == p
                    &&& 1 <= dag[p].s1
                    &&& 1 <= dag[p].s2
                    &&& dag[p].s1 + dag[p].s2 == p
                    &&& available(sources, targets, i, dag[p].s1)
                    &&& available(sources, targets, i, dag[p].s2)
                })
            } by {
                if i == n - 1 {
                    assert(prev.contains_key(s1) && prev.contains_key(s2));
                } else {
                    assert(targets[i] != t);
                }
            }
        }
    }
}

/// What is available before target `i` is available before any later target.
pub proof fn lemma_available_grows(
    sources: Seq<usize>,
    targets: Seq<usize>,
    i: int,
    k: int,
    s: usize,
)
    requires
        i <= k,
        available(sources, targets, i, s),
    ensures
        available(sources, targets, k, s),
{
    if !sources.contains(s) {
        let j = choose|j: int| 0 <= j < i && #[trigger] targets[j] == s;
        assert(0 <= j < k && targets[j] == s);
    }
}

/// Whether `x` occurs in `v`.
pub fn contains_power(v: &[usize], x: usize) -> (b: bool)
    ensures
        b == v@.contains(x),
{
    let mut i: usize = 0;
    while i < v.len()
        invariant
            i <= v@.len(),
            forall|j: int| 0 <= j < i ==> v@[j] != x,
        decreases v@.len() - i,
    {
        if v[i] == x {
            return true;
        }
        i = i + 1;
    }
    false
}

/// Builds the graph of powers. The source powers enter at depth 0. Each
/// target power that the graph does not hold yet enters, in the order of
/// `target_powers`, as the product of a power `s1` out of `target_powers` and
/// the power `target - s1`, both held already, such that the depth is the
/// smallest possible and, among those, `s1` is the smallest.
///
/// Fails when a target power cannot be had in this way.
pub fn construct_dag(source_powers: &[usize], target_powers: &[usize]) -> (res: Result<
    HashMap<usize, Node>,
    ConfigError,
>)
    ensures
        match with_targets(source_powers@, target_powers@, target_powers@.len() as int) {
            Some(dag) => res is Ok && res->Ok_0@ == dag,
            None => res == Err::<HashMap<usize, Node>, ConfigError>(ConfigError::UnreachablePower),
        },
        res is Ok ==> dag_keys(
            res->Ok_0@,
            source_powers@,
            target_powers@,
            target_powers@.len() as int,
        ) && dag_ordered(res->Ok_0@, source_powers@, target_powers@, target_powers@.len() as int),
{
    broadcast use vstd::std_specs::hash::group_hash_axioms;

    let mut dag: HashMap<usize, Node> = HashMap::new();
    let mut i: usize = 0;
    while i < source_powers.len()
        invariant
            i <= source_powers@.len(),
            dag@ == with_sources(source_powers@, i as int),
            forall|p: usize| #[trigger] dag@.contains_key(p) ==> dag@[p].depth == 0,
        decreases source_powers@.len() - i,
    {
        let source: usize = source_powers[i];
        dag.insert(source, Node { target: source, depth: 0, s1: 0, s2: 0 });
        i = i + 1;
    }
    let n: usize = target_powers.len();
    let mut t: usize = 0;
    while t < n
        invariant
            n == target_powers@.len(),
            t <= n,
            with_targets(source_powers@, target_powers@, t as int) == Some(dag@),
            forall|p: usize| #[trigger] dag@.contains_key(p) ==> dag@[p].depth <= t,
        decreases n - t,
    {
        let target: usize = target_powers[t];
        if !dag.contains_key(&target) {
            let mut best: Option<usize> = None;
            let mut best_depth: usize = 0;
            let mut j: usize = 0;
            while j < n
                invariant
                    n == target_powers@.len(),
                    t < n,
                    j <= n,
                    target == target_powers@[t as int],
                    forall|p: usize| #[trigger] dag@.contains_key(p) ==> dag@[p].depth <= t,
                    best == best_split(dag@, target_powers@, target, j as int),
                    best is Some ==> is_candidate(dag@, target, best->Some_0) && best_depth
                        == split_depth(dag@, target, best->Some_0),
                decreases n - j,
            {
                let s1: usize = target_powers[j];
                if 1 <= s1 && s1 < target {
                    let s2: usize = target - s1;
                    let node1: Option<&Node> = dag.get(&s1);
                    let node2: Option<&Node> = dag.get(&s2);
                    match (node1, node2) {
                        (Some(n1), Some(n2)) => {
                            let depth: usize = if n1.depth >= n2.depth {
                                n1.depth + 1
                            } else {
                                n2.depth + 1
                            };
                            let take: bool = match best {
                                None => true,
                                Some(b) => depth < best_depth || (depth == best_depth && s1 < b),
                            };
                            if take {
                                best = Some(s1);
                                best_depth = depth;
                            }
                        },
                        _ => {},
                    }
                }
                j = j + 1;
            }
            match best {
                None => {
                    proof {
                        lemma_with_targets_none(source_powers@, target_powers@, t + 1, n as int);
                    }
                    return Err(ConfigError::UnreachablePower);
                },
                Some(s1) => {
                    dag.insert(target, Node { target, depth: best_depth, s1, s2: target - s1 });
                },
            }
        }
        t = t + 1;
    }
    proof {
        lemma_dag_ordered(source_powers@, target_powers@, n as int);
    }
    Ok(dag)
}

/// Once a target has failed, the construction has failed.
pub proof fn lemma_with_targets_none(sources: Seq<usize>, targets: Seq<usize>, k: int, n: int)
    requires
        0 <= k <= n,
        with_targets(sources, targets, k) is None,
    ensures
        with_targets(sources, targets, n) is None,
    decreases n - k,
{
    if k < n {
        lemma_with_targets_none(sources, targets, k, n - 1);
    }
}

} // verus!
