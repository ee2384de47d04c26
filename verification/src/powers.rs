//! The powers of the query that the server derives from the powers the
//! client sends: the steps that the graph of powers prescribes, and what they
//! compute on the plaintext slots.

use crate::dag::{available, dag_ordered, Node};
use crate::field::{
    congruent, lemma_congruent_mod, lemma_congruent_mul, lemma_congruent_trans, mul_mod,
};
use crate::paterson_stockmeyer::PSParams;
use crate::utils::rows2;
use std::collections::{HashMap, HashSet};
use vstd::arithmetic::power::{lemma_pow_adds, pow};
use vstd::prelude::*;

verus! {

/// One step on the way from the ciphertexts of a query to the ciphertexts of
/// all the powers that the evaluation consumes.
#[derive(Clone, Copy, Debug, PartialEq, Eq, Structural)]
pub enum PowerStep {
    /// The ciphertext `index` of the query, in coefficient representation,
    /// is the power `power`.
    Source { power: usize, index: usize },
    /// The power `power` is the product of the powers `s1` and `s2`,
    /// relinearized.
    Product { power: usize, s1: usize, s2: usize },
    /// The power `power` changes to evaluation representation.
    ToEvaluation { power: usize },
}

/// The steps that take in the first `n` source powers.
pub open spec fn plan_sources(sources: Seq<usize>, n: int) -> Seq<PowerStep>
    decreases n,
{
    if n <= 0 {
        Seq::empty()
    } else {
        plan_sources(sources, n - 1).push(
            PowerStep::Source { power: sources[n - 1], index: (n - 1) as usize },
        )
    }
}

/// The steps that take in the source powers and multiply for each of the
/// first `n` target powers that is not there before its turn.
pub open spec fn plan_products(
    sources: Seq<usize>,
    targets: Seq<usize>,
    dag: Map<usize, Node>,
    n: int,
) -> Seq<PowerStep>
    decreases n,
{
    if n <= 0 {
        plan_sources(sources, sources.len() as int)
    } else {
        let prev = plan_products(sources, targets, dag, n - 1);
        let p = targets[n - 1];
        if available(sources, targets, n - 1, p) {
            prev
        } else {
            prev.push(PowerStep::Product { power: p, s1: dag[p].s1, s2: dag[p].s2 })
        }
    }
}

/// The steps for all source and target powers, and then the change of
/// representation for each of the powers `1 ..= k` that is among them.
pub open spec fn power_plan(
    sources: Seq<usize>,
    targets: Seq<usize>,
    dag: Map<usize, Node>,
    k: int,
) -> Seq<PowerStep>
    decreases k,
{
    if k <= 0 {
        plan_products(sources, targets, dag, targets.len() as int)
    } else {
        let prev = power_plan(sources, targets, dag, k - 1);
        if available(sources, targets, targets.len() as int, k as usize) {
            prev.push(PowerStep::ToEvaluation { power: k as usize })
        } else {
            prev
        }
    }
}

/// The graph has a node for every target power that is not there before its
/// turn.
pub open spec fn dag_covers(dag: Map<usize, Node>, sources: Seq<usize>, targets: Seq<usize>) -> bool {
    forall|i: int|
        0 <= i < targets.len() ==> available(sources, targets, i, #[trigger] targets[i])
            || dag.contains_key(targets[i])
}

/// The steps from the ciphertexts of a query to the powers that the
/// evaluation consumes: each source power is the ciphertext at its place in
/// the query; each target power that is not there yet is the product that
/// the graph gives for it; at the end every power up to the low degree
/// changes to evaluation representation, for the multiplications by
/// plaintexts.
pub fn materialize_plan(
    source_powers: &[usize],
    target_powers: &[usize],
    dag: &HashMap<usize, Node>,
    ps_params: &PSParams,
) -> (plan: Vec<PowerStep>)
    requires
        dag_covers(dag@, source_powers@, target_powers@),
    ensures
        plan@ == power_plan(
            source_powers@,
            target_powers@,
            dag@,
            ps_params.low_degree as int,
        ),
{
    broadcast use vstd::std_specs::hash::group_hash_axioms;

    let mut plan: Vec<PowerStep> = Vec::new();
    let mut present: HashSet<usize> = HashSet::new();
    let mut i: usize = 0;
    while i < source_powers.len()
        invariant
            i <= source_powers@.len(),
            plan@ == plan_sources(source_powers@, i as int),
            forall|p: usize|
                present@.contains(p) <==> exists|j: int|
                    0 <= j < i && #[trigger] source_powers@[j] == p,
        decreases source_powers@.len() - i,
    {
        let power: usize = source_powers[i];
        plan.push(PowerStep::Source { power, index: i });
        present.insert(power);
        proof {
            assert forall|p: usize|
                present@.contains(p) <==> exists|j: int|
                    0 <= j < i + 1 && #[trigger] source_powers@[j] == p by {
                if present@.contains(p) && p != power {
                    let j = choose|j: int| 0 <= j < i && #[trigger] source_powers@[j] == p;
                    assert(0 <= j < i + 1 && source_powers@[j] == p);
                }
                if exists|j: int| 0 <= j < i + 1 && #[trigger] source_powers@[j] == p {
                    let j = choose|j: int| 0 <= j < i + 1 && #[trigger] source_powers@[j] == p;
                    if j < i {
                        assert(present@.contains(p));
                    }
                }
                if p == power {
                    assert(source_powers@[i as int] == p);
                }
            }
        }
        i = i + 1;
    }
    proof {
        assert forall|p: usize| present@.contains(p) <==> available(
            source_powers@,
            target_powers@,
            0,
            p,
        ) by {
            if present@.contains(p) {
                let j = choose|j: int|
                    0 <= j < source_powers@.len() && #[trigger] source_powers@[j] == p;
                assert(source_powers@.contains(p));
            }
            if source_powers@.contains(p) {
                let j = choose|j: int| 0 <= j < source_powers@.len() && source_powers@[j] == p;
                assert(source_powers@[j] == p);
            }
        }
    }
    let mut t: usize = 0;
    while t < target_powers.len()
        invariant
            t <= target_powers@.len(),
            dag_covers(dag@, source_powers@, target_powers@),
            plan@ == plan_products(source_powers@, target_powers@, dag@, t as int),
            forall|p: usize|
                present@.contains(p) <==> available(source_powers@, target_powers@, t as int, p),
        decreases target_powers@.len() - t,
    {
        let power: usize = target_powers[t];
        if !present.contains(&power) {
            assert(target_powers@[t as int] == power);
            match dag.get(&power) {
                Some(node) => {
                    plan.push(PowerStep::Product { power, s1: node.s1, s2: node.s2 });
                },
                None => {
                    assert(false);
                },
            }
            present.insert(power);
        }
        proof {
            assert forall|p: usize|
                present@.contains(p) <==> available(
                    source_powers@,
                    target_powers@,
                    t + 1,
                    p,
                ) by {
                if available(source_powers@, target_powers@, t + 1, p) && !available(
                    source_powers@,
                    target_powers@,
                    t as int,
                    p,
                ) {
                    let j = choose|j: int| 0 <= j < t + 1 && #[trigger] target_powers@[j] == p;
                    assert(j == t);
                }
                if available(source_powers@, target_powers@, t as int, p)
                    && !source_powers@.contains(p) {
                    let j = choose|j: int| 0 <= j < t && #[trigger] target_powers@[j] == p;
                    assert(0 <= j < t + 1 && target_powers@[j] == p);
                }
                if p == power {
                    assert(target_powers@[t as int] == p);
                }
            }
        }
        t = t + 1;
    }
    let low: usize = ps_params.low_degree();
    let mut k: usize = 0;
    while k < low
        invariant
            k <= low,
            low == ps_params.low_degree,
            plan@ == power_plan(source_powers@, target_powers@, dag@, k as int),
            forall|p: usize|
                present@.contains(p) <==> available(
                    source_powers@,
                    target_powers@,
                    target_powers@.len() as int,
                    p,
                ),
        decreases low - k,
    {
        let power: usize = k + 1;
        if present.contains(&power) {
            plan.push(PowerStep::ToEvaluation { power });
        }
        k = k + 1;
    }
    plan
}

/// The slots of the powers, as sequences.
pub open spec fn state_view(m: Map<usize, Vec<u32>>) -> Map<usize, Seq<u32>> {
    Map::new(|p: usize| m.contains_key(p), |p: usize| m[p]@)
}

/// The products of the slots of `a` and `b`, slot by slot, modulo `q`.
pub open spec fn slot_products(a: Seq<u32>, b: Seq<u32>, q: int) -> Seq<u32> {
    Seq::new(a.len(), |j: int| ((a[j] as int * b[j] as int) % q) as u32)
}

/// The slots of the powers after one more step.
pub open spec fn apply_step(
    state: Map<usize, Seq<u32>>,
    step: PowerStep,
    cts: Seq<Seq<u32>>,
    q: int,
) -> Map<usize, Seq<u32>> {
    match step {
        PowerStep::Source { power, index } => state.insert(power, cts[index as int]),
        PowerStep::Product { power, s1, s2 } => state.insert(
            power,
            slot_products(state[s1], state[s2], q),
        ),
        PowerStep::ToEvaluation { power } => state,
    }
}

/// The slots of the powers after the steps, for a query whose ciphertexts
/// hold the slots `cts`.
pub open spec fn run_steps(steps: Seq<PowerStep>, cts: Seq<Seq<u32>>, q: int) -> Map<
    usize,
    Seq<u32>,
>
    decreases steps.len(),
{
    if steps.len() == 0 {
        Map::empty()
    } else {
        apply_step(run_steps(steps.drop_last(), cts, q), steps.last(), cts, q)
    }
}

/// The step finds what it works on: its ciphertext of `slots` slots in the
/// query, or its powers among those obtained so far.
pub open spec fn step_ready(
    state: Map<usize, Seq<u32>>,
    step: PowerStep,
    cts: Seq<Seq<u32>>,
    slots: int,
) -> bool {
    match step {
        PowerStep::Source { power, index } => index < cts.len() && cts[index as int].len()
            == slots,
        PowerStep::Product { power, s1, s2 } => state.contains_key(s1) && state.contains_key(s2),
        PowerStep::ToEvaluation { power } => state.contains_key(power),
    }
}

/// Every step finds what it works on.
pub open spec fn steps_ready(steps: Seq<PowerStep>, cts: Seq<Seq<u32>>, q: int, slots: int) -> bool
    decreases steps.len(),
{
    steps.len() == 0 || (steps_ready(steps.drop_last(), cts, q, slots) && step_ready(
        run_steps(steps.drop_last(), cts, q),
        steps.last(),
        cts,
        slots,
    ))
}

/// Every power has `slots` slots.
pub open spec fn state_shaped(state: Map<usize, Seq<u32>>, slots: int) -> bool {
    forall|p: usize| #[trigger] state.contains_key(p) ==> state[p].len() == slots
}

/// There is a ciphertext of `slots` slots for each source power.
pub open spec fn sources_shaped(cts: Seq<Seq<u32>>, sources: Seq<usize>, slots: int) -> bool {
    cts.len() == sources.len() && sources.len() <= usize::MAX && forall|i: int|
        0 <= i < cts.len() ==> (#[trigger] cts[i]).len() == slots
}

/// The ciphertext of each source power holds, in slot `j`, that power of
/// `xs[j]` modulo `q`.
pub open spec fn sources_are_powers(
    cts: Seq<Seq<u32>>,
    sources: Seq<usize>,
    xs: Seq<int>,
    q: int,
) -> bool {
    forall|i: int, j: int|
        0 <= i < cts.len() && 0 <= j < cts[i].len() ==> congruent(
            (#[trigger] cts[i][j]) as int,
            pow(xs[j], sources[i] as nat),
            q,
        )
}

/// Every power `p` holds, in slot `j`, the power `p` of `xs[j]` modulo `q`.
pub open spec fn state_holds_powers(state: Map<usize, Seq<u32>>, xs: Seq<int>, q: int) -> bool {
    forall|p: usize, j: int|
        state.contains_key(p) && 0 <= j < state[p].len() ==> congruent(
            (#[trigger] state[p][j]) as int,
            pow(xs[j], p as nat),
            q,
        )
}

/// The first steps of steps that are ready are ready.
pub proof fn lemma_steps_ready_prefix(
    steps: Seq<PowerStep>,
    cts: Seq<Seq<u32>>,
    q: int,
    slots: int,
    n: int,
)
    requires
        steps_ready(steps, cts, q, slots),
        0 <= n <= steps.len(),
    ensures
        steps_ready(steps.take(n), cts, q, slots),
    decreases steps.len(),
{
    if n == steps.len() {
        assert(steps.take(n) =~= steps);
    } else {
        lemma_steps_ready_prefix(steps.drop_last(), cts, q, slots, n);
        assert(steps.drop_last().take(n) =~= steps.take(n));
    }
}

/// Steps that are ready give every power as many slots as the query has.
pub proof fn lemma_steps_shaped(steps: Seq<PowerStep>, cts: Seq<Seq<u32>>, q: int, slots: int)
    requires
        steps_ready(steps, cts, q, slots),
    ensures
        state_shaped(run_steps(steps, cts, q), slots),
    decreases steps.len(),
{
    if steps.len() > 0 {
        lemma_steps_shaped(steps.drop_last(), cts, q, slots);
        let prev = run_steps(steps.drop_last(), cts, q);
        let next = run_steps(steps, cts, q);
        assert forall|p: usize| #[trigger] next.contains_key(p) implies next[p].len() == slots by {
            if prev.contains_key(p) {
                assert(prev[p].len() == slots);
            }
            match steps.last() {
                PowerStep::Source { power, index } => {},
                PowerStep::Product { power, s1, s2 } => {
                    assert(prev.contains_key(s1));
                    assert(prev[s1].len() == slots);
                },
                PowerStep::ToEvaluation { power } => {},
            }
        }
    }
}

/// The products of two vectors of slots.
fn slot_mul(a: &Vec<u32>, b: &Vec<u32>, modq: u32) -> (out: Vec<u32>)
    requires
        a@.len() == b@.len(),
        modq > 0,
    ensures
        out@ == slot_products(a@, b@, modq as int),
{
    let n: usize = a.len();
    let mut out: Vec<u32> = Vec::with_capacity(n);
    let mut j: usize = 0;
    while j < n
        invariant
            n == a@.len(),
            n == b@.len(),
            modq > 0,
            j <= n,
            out@.len() == j,
            forall|i: int| 0 <= i < j ==> #[trigger] out@[i] == slot_products(a@, b@, modq as int)[i],
        decreases n - j,
    {
        out.push(mul_mod(a[j], b[j], modq));
        j = j + 1;
    }
    assert(out@ =~= slot_products(a@, b@, modq as int));
    out
}

/// Takes the steps on the slots of the query.
fn run_plan(plan: &Vec<PowerStep>, source_cts: &Vec<Vec<u32>>, modq: u32, Ghost(slots): Ghost<int>) -> (powers:
    HashMap<usize, Vec<u32>>)
    requires
        modq > 0,
        steps_ready(plan@, rows2(source_cts@), modq as int, slots),
    ensures
        state_view(powers@) == run_steps(plan@, rows2(source_cts@), modq as int),
{
    broadcast use vstd::std_specs::hash::group_hash_axioms;

    let ghost cts = rows2(source_cts@);
    let ghost q = modq as int;
    let mut powers: HashMap<usize, Vec<u32>> = HashMap::new();
    let mut i: usize = 0;
    assert(plan@.take(0) =~= Seq::<PowerStep>::empty());
    assert(state_view(powers@) =~= Map::<usize, Seq<u32>>::empty());
    while i < plan.len()
        invariant
            modq > 0,
            q == modq as int,
            cts == rows2(source_cts@),
            steps_ready(plan@, cts, q, slots),
            i <= plan@.len(),
            state_view(powers@) == run_steps(plan@.take(i as int), cts, q),
        decreases plan@.len() - i,
    {
        let ghost before = state_view(powers@);
        proof {
            lemma_steps_ready_prefix(plan@, cts, q, slots, i + 1);
            lemma_steps_ready_prefix(plan@, cts, q, slots, i as int);
            lemma_steps_shaped(plan@.take(i as int), cts, q, slots);
            assert(plan@.take(i + 1).drop_last() =~= plan@.take(i as int));
            assert(plan@.take(i + 1).last() == plan@[i as int]);
        }
        match plan[i] {
            PowerStep::Source { power, index } => {
                assert(cts[index as int] == source_cts@[index as int]@);
                let ct: Vec<u32> = vstd::slice::slice_to_vec(source_cts[index].as_slice());
                powers.insert(power, ct);
                assert(state_view(powers@) =~= before.insert(power, cts[index as int]));
            },
            PowerStep::Product { power, s1, s2 } => {
                assert(before.contains_key(s1) && before.contains_key(s2));
                assert(before[s1].len() == slots && before[s2].len() == slots);
                let product: Vec<u32> = match (powers.get(&s1), powers.get(&s2)) {
                    (Some(a), Some(b)) => slot_mul(a, b, modq),
                    _ => {
                        assert(false);
                        Vec::new()
                    },
                };
                powers.insert(power, product);
                assert(state_view(powers@) =~= before.insert(
                    power,
                    slot_products(before[s1], before[s2], q),
                ));
            },
            PowerStep::ToEvaluation { power } => {},
        }
        i = i + 1;
    }
    assert(plan@.take(plan@.len() as int) =~= plan@);
    powers
}

/// The number of slots of the first ciphertext; zero where there is none.
pub open spec fn slots_of(cts: Seq<Seq<u32>>) -> int {
    if cts.len() == 0 {
        0
    } else {
        cts[0].len() as int
    }
}

/// What the steps for the first `n` source powers give: these powers, each
/// with the slots of its ciphertext.
pub proof fn lemma_plan_sources(
    sources: Seq<usize>,
    cts: Seq<Seq<u32>>,
    q: int,
    slots: int,
    xs: Seq<int>,
    n: int,
)
    requires
        0 < q,
        sources_shaped(cts, sources, slots),
        0 <= n <= sources.len(),
    ensures
        steps_ready(plan_sources(sources, n), cts, q, slots),
        forall|p: usize| #[trigger]
            run_steps(plan_sources(sources, n), cts, q).contains_key(p) <==> exists|i: int|
                0 <= i < n && #[trigger] sources[i] == p,
        sources_are_powers(cts, sources, xs, q) ==> state_holds_powers(
            run_steps(plan_sources(sources, n), cts, q),
            xs,
            q,
        ),
    decreases n,
{
    if n > 0 {
        lemma_plan_sources(sources, cts, q, slots, xs, n - 1);
        let before = plan_sources(sources, n - 1);
        let prev = run_steps(before, cts, q);
        let steps = plan_sources(sources, n);
        let next = run_steps(steps, cts, q);
        assert(steps.drop_last() =~= before);
        assert(next == prev.insert(sources[n - 1], cts[n - 1]));
        assert(cts[n - 1].len() == slots);
        assert forall|p: usize| #[trigger]
            next.contains_key(p) <==> exists|i: int| 0 <= i < n && #[trigger] sources[i] == p by {
            if next.contains_key(p) {
                if p == sources[n - 1] {
                } else {
                    assert(prev.contains_key(p));
                    let i = choose|i: int| 0 <= i < n - 1 && #[trigger] sources[i] == p;
                    assert(0 <= i < n && sources[i] == p);
                }
            }
            if exists|i: int| 0 <= i < n && #[trigger] sources[i] == p {
                let i = choose|i: int| 0 <= i < n && #[trigger] sources[i] == p;
                if i < n - 1 {
                    assert(prev.contains_key(p));
                }
            }
        }
        if sources_are_powers(cts, sources, xs, q) {
            assert forall|p: usize, j: int|
                next.contains_key(p) && 0 <= j < next[p].len() implies congruent(
                (#[trigger] next[p][j]) as int,
                pow(xs[j], p as nat),
                q,
            ) by {
                if p == sources[n - 1] {
                    assert(congruent(cts[n - 1][j] as int, pow(xs[j], sources[n - 1] as nat), q));
                } else {
                    assert(prev.contains_key(p));
                    assert(congruent(prev[p][j] as int, pow(xs[j], p as nat), q));
                }
            }
        }
    }
}

/// What the steps for the source powers and the first `n` target powers
/// give: these powers.
pub proof fn lemma_plan_products(
    sources: Seq<usize>,
    targets: Seq<usize>,
    dag: Map<usize, Node>,
    cts: Seq<Seq<u32>>,
    q: int,
    slots: int,
    xs: Seq<int>,
    n: int,
)
    requires
        0 < q <= u32::MAX,
        sources_shaped(cts, sources, slots),
        0 <= n <= targets.len(),
        dag_ordered(dag, sources, targets, n),
    ensures
        steps_ready(plan_products(sources, targets, dag, n), cts, q, slots),
        forall|p: usize| #[trigger]
            run_steps(plan_products(sources, targets, dag, n), cts, q).contains_key(p)
                <==> available(sources, targets, n, p),
        sources_are_powers(cts, sources, xs, q) ==> state_holds_powers(
            run_steps(plan_products(sources, targets, dag, n), cts, q),
            xs,
            q,
        ),
    decreases n,
{
    let steps = plan_products(sources, targets, dag, n);
    let next = run_steps(steps, cts, q);
    if n == 0 {
        lemma_plan_sources(sources, cts, q, slots, xs, sources.len() as int);
        assert forall|p: usize| #[trigger]
            next.contains_key(p) <==> available(sources, targets, 0, p) by {
            if next.contains_key(p) {
                let i = choose|i: int| 0 <= i < sources.len() && #[trigger] sources[i] == p;
                assert(sources.contains(p));
            }
            if sources.contains(p) {
                let i = choose|i: int| 0 <= i < sources.len() && sources[i] == p;
                assert(sources[i] == p);
            }
        }
    } else {
        lemma_plan_products(sources, targets, dag, cts, q, slots, xs, n - 1);
        let before = plan_products(sources, targets, dag, n - 1);
        let prev = run_steps(before, cts, q);
        let t = targets[n - 1];
        assert forall|p: usize|
            available(sources, targets, n, p) <==> (p == t || available(
                sources,
                targets,
                n - 1,
                p,
            )) by {
            if available(sources, targets, n, p) && !sources.contains(p) {
                let j = choose|j: int| 0 <= j < n && #[trigger] targets[j] == p;
                if j < n - 1 {
                    assert(available(sources, targets, n - 1, p));
                }
            }
            if available(sources, targets, n - 1, p) && !sources.contains(p) {
                let j = choose|j: int| 0 <= j < n - 1 && #[trigger] targets[j] == p;
                assert(0 <= j < n && targets[j] == p);
            }
            if p == t {
                assert(targets[n - 1] == p);
            }
        }
        if available(sources, targets, n - 1, t) {
            assert(steps == before);
        } else {
            let s1 = dag[t].s1;
            let s2 = dag[t].s2;
            assert(steps.drop_last() =~= before);
            assert(steps.last() == PowerStep::Product { power: t, s1, s2 });
            assert(!sources.contains(t));
            assert(available(sources, targets, n - 1, s1));
            assert(available(sources, targets, n - 1, s2));
            assert(prev.contains_key(s1) && prev.contains_key(s2));
            let product = slot_products(prev[s1], prev[s2], q);
            assert(next == prev.insert(t, product));
            if sources_are_powers(cts, sources, xs, q) {
                lemma_steps_shaped(before, cts, q, slots);
                assert(prev[s1].len() == slots && prev[s2].len() == slots);
                assert forall|p: usize, j: int|
                    next.contains_key(p) && 0 <= j < next[p].len() implies congruent(
                    (#[trigger] next[p][j]) as int,
                    pow(xs[j], p as nat),
                    q,
                ) by {
                    if p == t {
                        let a = prev[s1][j] as int;
                        let b = prev[s2][j] as int;
                        assert(congruent(a, pow(xs[j], s1 as nat), q));
                        assert(congruent(b, pow(xs[j], s2 as nat), q));
                        lemma_congruent_mul(a, pow(xs[j], s1 as nat), b, pow(xs[j], s2 as nat), q);
                        lemma_pow_adds(xs[j], s1 as nat, s2 as nat);
                        lemma_congruent_mod(a * b, q);
                        lemma_congruent_trans(
                            (a * b) % q,
                            a * b,
                            pow(xs[j], s1 as nat) * pow(xs[j], s2 as nat),
                            q,
                        );
                        vstd::arithmetic::div_mod::lemma_mod_bound(a * b, q);
                        assert(product[j] == ((a * b) % q) as u32);
                    } else {
                        assert(prev.contains_key(p));
                        assert(congruent(prev[p][j] as int, pow(xs[j], p as nat), q));
                    }
                }
            }
        }
    }
}

/// Along the graph of powers every target power is reached. Where the
/// graph holds every target power as a source power or as the product of two
/// powers that come before it, the steps of the plan find what they work on,
/// and they give exactly the source and the target powers. Where the
/// ciphertexts of the query hold the source powers of `xs`, slot by slot,
/// each power `p` obtained holds the powers `p` of `xs`.
pub proof fn lemma_power_plan(
    sources: Seq<usize>,
    targets: Seq<usize>,
    dag: Map<usize, Node>,
    low: int,
    cts: Seq<Seq<u32>>,
    q: int,
    slots: int,
    xs: Seq<int>,
)
    requires
        0 < q <= u32::MAX,
        sources_shaped(cts, sources, slots),
        dag_ordered(dag, sources, targets, targets.len() as int),
    ensures
        steps_ready(power_plan(sources, targets, dag, low), cts, q, slots),
        run_steps(power_plan(sources, targets, dag, low), cts, q) == run_steps(
            plan_products(sources, targets, dag, targets.len() as int),
            cts,
            q,
        ),
        forall|p: usize| #[trigger]
            run_steps(power_plan(sources, targets, dag, low), cts, q).contains_key(p)
                <==> available(sources, targets, targets.len() as int, p),
        state_shaped(run_steps(power_plan(sources, targets, dag, low), cts, q), slots),
        sources_are_powers(cts, sources, xs, q) ==> state_holds_powers(
            run_steps(power_plan(sources, targets, dag, low), cts, q),
            xs,
            q,
        ),
    decreases low,
{
    let steps = power_plan(sources, targets, dag, low);
    if low <= 0 {
        lemma_plan_products(sources, targets, dag, cts, q, slots, xs, targets.len() as int);
        lemma_steps_shaped(steps, cts, q, slots);
    } else {
        lemma_power_plan(sources, targets, dag, low - 1, cts, q, slots, xs);
        let before = power_plan(sources, targets, dag, low - 1);
        if available(sources, targets, targets.len() as int, low as usize) {
            assert(steps.drop_last() =~= before);
            assert(steps.last() == PowerStep::ToEvaluation { power: low as usize });
            assert(run_steps(before, cts, q).contains_key(low as usize));
        }
    }
}

/// The powers that the evaluation consumes, on the plaintext slots: the
/// steps of `materialize_plan`, taken on the slots that the ciphertexts of
/// the query hold. A product of two powers is the product of their slots
/// modulo `modq`.
pub fn calculate_ps_powers_with_dag(
    source_cts: &Vec<Vec<u32>>,
    source_powers: &[usize],
    target_powers: &[usize],
    dag: &HashMap<usize, Node>,
    ps_params: &PSParams,
    modq: u32,
) -> (powers: HashMap<usize, Vec<u32>>)
    requires
        modq > 0,
        sources_shaped(rows2(source_cts@), source_powers@, slots_of(rows2(source_cts@))),
        dag_ordered(dag@, source_powers@, target_powers@, target_powers@.len() as int),
    ensures
        state_view(powers@) == run_steps(
            power_plan(source_powers@, target_powers@, dag@, ps_params.low_degree as int),
            rows2(source_cts@),
            modq as int,
        ),
{
    let ghost cts = rows2(source_cts@);
    let ghost slots = slots_of(cts);
    proof {
        lemma_power_plan(
            source_powers@,
            target_powers@,
            dag@,
            ps_params.low_degree as int,
            cts,
            modq as int,
            slots,
            Seq::empty(),
        );
    }
    let plan: Vec<PowerStep> = materialize_plan(source_powers, target_powers, dag, ps_params);
    run_plan(&plan, source_cts, modq, Ghost(slots))
}

} // verus!
