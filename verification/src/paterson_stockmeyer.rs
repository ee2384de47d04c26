//! The Paterson-Stockmeyer split of a polynomial of degree `D` into blocks of
//! `L + 1` coefficients, and the powers of the query that its evaluation
//! consumes.

use crate::field::{
    add_mod, congruent, lemma_congruent_add, lemma_congruent_iff, lemma_congruent_mul,
    lemma_congruent_refl, mul_mod,
};
use crate::poly_interpolate::{poly_eval, poly_eval_int};
use crate::utils::ints_of;
use crate::matrix::{has_shape, Matrix};
use crate::powers::state_view;
use crate::server::EvalPolyDegree;
use std::collections::HashMap;
use vstd::arithmetic::div_mod::{
    lemma_add_mod_noop, lemma_add_mod_noop_right, lemma_fundamental_div_mod, lemma_mod_bound,
    lemma_mul_mod_noop_left,
};
use vstd::arithmetic::power::{lemma_pow0, lemma_pow1, lemma_pow_adds, pow};
use vstd::prelude::*;

verus! {

/// The low degree `L` and the total degree `D` of the evaluation, with the
/// powers that it consumes: `1 ..= L` and the multiples of `L + 1` up to `D`.
#[derive(Debug)]
pub struct PSParams {
    pub low_degree: usize,
    pub total_degree: usize,
    pub powers: Vec<usize>,
}

/// The powers `1, ..., L, (L + 1), 2 (L + 1), ..., (D / (L + 1)) (L + 1)`.
pub open spec fn target_powers(low_degree: int, total_degree: int) -> Seq<usize> {
    Seq::new(
        (low_degree + total_degree / (low_degree + 1)) as nat,
        |i: int|
            if i < low_degree {
                (i + 1) as usize
            } else {
                ((i - low_degree + 1) * (low_degree + 1)) as usize
            },
    )
}

impl PSParams {
    /// The powers are those that the two degrees determine.
    pub open spec fn wf(&self) -> bool {
        &&& self.total_degree + self.low_degree + 1 <= usize::MAX
        &&& self.powers@ == target_powers(self.low_degree as int, self.total_degree as int)
    }

    pub fn new(low_degree: usize, total_degree: usize) -> (ps: PSParams)
        requires
            total_degree + low_degree + 1 <= usize::MAX,
        ensures
            ps.wf(),
            ps.low_degree == low_degree,
            ps.total_degree == total_degree,
    {
        let step: usize = low_degree + 1;
        let blocks: usize = total_degree / step;
        let mut powers: Vec<usize> = Vec::new();
        let mut p: usize = 1;
        while p <= low_degree
            invariant
                1 <= p <= low_degree + 1,
                low_degree < usize::MAX,
                powers@.len() == p - 1,
                forall|i: int| 0 <= i < p - 1 ==> #[trigger] powers@[i] == i + 1,
            decreases low_degree + 1 - p,
        {
            powers.push(p);
            p = p + 1;
        }
        let mut m: usize = 1;
        proof {
            vstd::arithmetic::div_mod::lemma_fundamental_div_mod(total_degree as int, step as int);
            vstd::arithmetic::div_mod::lemma_mod_bound(total_degree as int, step as int);
            assert(blocks * step <= total_degree) by (nonlinear_arith)
                requires
                    total_degree == step * blocks + total_degree % step,
                    total_degree % step >= 0,
            ;
        }
        while m <= blocks
            invariant
                step == low_degree + 1,
                blocks == total_degree / step,
                blocks * step <= total_degree,
                total_degree + low_degree + 1 <= usize::MAX,
                1 <= m <= blocks + 1,
                powers@.len() == low_degree + m - 1,
                forall|i: int| 0 <= i < low_degree ==> #[trigger] powers@[i] == i + 1,
                forall|i: int|
                    low_degree <= i < low_degree + m - 1 ==> #[trigger] powers@[i] == (i
                        - low_degree + 1) * step,
            decreases blocks + 1 - m,
        {
            assert(m * step <= blocks * step) by (nonlinear_arith)
                requires
                    m <= blocks,
                    step >= 0,
            ;
            powers.push(m * step);
            m = m + 1;
        }
        assert(powers@ =~= target_powers(low_degree as int, total_degree as int)) by {
            assert forall|i: int| low_degree <= i < powers@.len() implies powers@[i] == ((i
                - low_degree + 1) * (low_degree + 1)) as usize by {
                assert((i - low_degree + 1) * step <= blocks * step) by (nonlinear_arith)
                    requires
                        i - low_degree + 1 <= blocks,
                        step >= 0,
                ;
            }
        }
        PSParams { low_degree, total_degree, powers }
    }

    pub fn low_degree(&self) -> (l: usize)
        ensures
            l == self.low_degree,
    {
        self.low_degree
    }

    pub fn total_degree(&self) -> (d: usize)
        ensures
            d == self.total_degree,
    {
        self.total_degree
    }

    pub fn powers(&self) -> (powers: &[usize])
        ensures
            powers@ == self.powers@,
    {
        self.powers.as_slice()
    }

    pub fn eval_degree(&self) -> (degree: EvalPolyDegree)
        requires
            self.total_degree <= u32::MAX,
        ensures
            degree.0 == self.total_degree,
    {
        EvalPolyDegree(self.total_degree as u32)
    }
}

/// One term of an inner sum: the power of the query by which the column of
/// the coefficients is multiplied.
#[derive(Clone, Copy, Debug, PartialEq, Eq, Structural)]
pub struct PsTerm {
    pub power: usize,
    pub column: usize,
}

/// One block of the evaluation: the inner sum of the terms and of the column
/// `constant`, which is multiplied by the power `outer_power` of the query
/// (the first block, with `outer_power == 0`, is not multiplied).
#[derive(Debug)]
pub struct PsBlock {
    pub terms: Vec<PsTerm>,
    pub constant: usize,
    pub outer_power: usize,
}

/// Number of blocks: the blocks `0 ..= D / (L + 1)`.
pub open spec fn block_count(low: int, total: int) -> int {
    total / (low + 1) + 1
}

/// Number of terms of block `m`: `L`, or as many as the degree `D` leaves.
pub open spec fn block_terms(low: int, total: int, m: int) -> int {
    let rest = total - m * (low + 1);
    if rest < low {
        rest
    } else {
        low
    }
}

/// The block is block `m` of the evaluation: its terms are the powers
/// `1 ..= block_terms` with the columns that follow column `m (L + 1)`.
pub open spec fn block_matches(block: PsBlock, low: int, total: int, m: int) -> bool {
    &&& block.constant == m * (low + 1)
    &&& block.outer_power == m * (low + 1)
    &&& block.terms@.len() == block_terms(low, total, m)
    &&& forall|i: int|
        0 <= i < block.terms@.len() ==> (#[trigger] block.terms@[i]).power == i + 1
            && block.terms@[i].column == m * (low + 1) + i + 1
}

/// The blocks are those of the evaluation of a polynomial of degree `total`
/// with low degree `low`.
pub open spec fn schedule_matches(blocks: Seq<PsBlock>, low: int, total: int) -> bool {
    &&& blocks.len() == block_count(low, total)
    &&& forall|m: int| 0 <= m < blocks.len() ==> block_matches(#[trigger] blocks[m], low, total, m)
}

/// The blocks reach all columns up to `total` and none beyond.
pub proof fn lemma_blocks_in_range(low: int, total: int, m: int)
    requires
        0 <= low,
        0 <= total,
        0 <= m < block_count(low, total),
    ensures
        0 <= m * (low + 1) <= total,
        0 <= block_terms(low, total, m) <= low,
        m * (low + 1) + block_terms(low, total, m) <= total,
        m + 1 < block_count(low, total) ==> block_terms(low, total, m) == low,
        m + 1 == block_count(low, total) ==> m * (low + 1) + block_terms(low, total, m) == total,
{
    let h = low + 1;
    let blocks = total / h;
    lemma_fundamental_div_mod(total, h);
    lemma_mod_bound(total, h);
    assert(0 <= m * h <= blocks * h && (m < blocks ==> m * h + h <= blocks * h))
        by (nonlinear_arith)
        requires
            0 <= m <= blocks,
            h > 0,
    ;
    assert(h * blocks == blocks * h) by (nonlinear_arith);
}

/// The blocks of the evaluation, in their order. The terms of a block stop
/// at the degree of the polynomial.
pub fn ps_schedule(ps_params: &PSParams) -> (blocks: Vec<PsBlock>)
    requires
        ps_params.total_degree + ps_params.low_degree + 1 <= usize::MAX,
    ensures
        schedule_matches(blocks@, ps_params.low_degree as int, ps_params.total_degree as int),
{
    let low: usize = ps_params.low_degree;
    let total: usize = ps_params.total_degree;
    let high: usize = low + 1;
    let outer: usize = total / high;
    let mut blocks: Vec<PsBlock> = Vec::new();
    let mut m: usize = 0;
    while m <= outer
        invariant
            low == ps_params.low_degree,
            total == ps_params.total_degree,
            total + low + 1 <= usize::MAX,
            high == low + 1,
            outer == total / high,
            m <= outer + 1,
            blocks@.len() == m,
            forall|i: int|
                0 <= i < m ==> block_matches(#[trigger] blocks@[i], low as int, total as int, i),
        decreases outer + 1 - m,
    {
        proof {
            lemma_blocks_in_range(low as int, total as int, m as int);
        }
        let base: usize = m * high;
        let mut terms: Vec<PsTerm> = Vec::new();
        let mut k: usize = 1;
        while k < high && base + k <= total
            invariant
                total + low + 1 <= usize::MAX,
                high == low + 1,
                base <= total,
                1 <= k <= high,
                base + k - 1 <= total,
                terms@.len() == k - 1,
                forall|i: int|
                    0 <= i < k - 1 ==> (#[trigger] terms@[i]).power == i + 1 && terms@[i].column
                        == base + i + 1,
            decreases high - k,
        {
            terms.push(PsTerm { power: k, column: base + k });
            k = k + 1;
        }
        let ghost old_blocks = blocks@;
        blocks.push(PsBlock { terms, constant: base, outer_power: base });
        proof {
            assert forall|i: int| 0 <= i < m + 1 implies block_matches(
                #[trigger] blocks@[i],
                low as int,
                total as int,
                i,
            ) by {
                if i < m {
                    assert(blocks@[i] == old_blocks[i]);
                }
            }
        }
        m = m + 1;
    }
    blocks
}

/// Slot `j` of the power `p` of the query.
pub open spec fn slot(powers: Map<usize, Seq<u32>>, p: int, j: int) -> int {
    powers[p as usize][j] as int
}

/// The sum of the first `k` terms of the block that starts at column `base`,
/// in slot `j`: the powers `1 ..= k` of the query, each by its coefficient.
pub open spec fn inner_value(powers: Map<usize, Seq<u32>>, c: Seq<u32>, j: int, base: int, k: int) -> int
    decreases k,
{
    if k <= 0 {
        0
    } else {
        inner_value(powers, c, j, base, k - 1) + slot(powers, k, j) * c[base + k]
    }
}

/// The inner sum of block `m` in slot `j`.
pub open spec fn block_value(
    powers: Map<usize, Seq<u32>>,
    c: Seq<u32>,
    j: int,
    low: int,
    total: int,
    m: int,
) -> int {
    inner_value(powers, c, j, m * (low + 1), block_terms(low, total, m)) + c[m * (low + 1)]
}

/// The sum of the blocks `1 .. n` in slot `j`, each multiplied by its power
/// of the query.
pub open spec fn outer_value(
    powers: Map<usize, Seq<u32>>,
    c: Seq<u32>,
    j: int,
    low: int,
    total: int,
    n: int,
) -> int
    decreases n,
{
    if n <= 1 {
        0
    } else {
        outer_value(powers, c, j, low, total, n - 1) + block_value(
            powers,
            c,
            j,
            low,
            total,
            n - 1,
        ) * slot(powers, (n - 1) * (low + 1), j)
    }
}

/// What the evaluation computes in slot `j` from the powers of the query
/// and the coefficients `c`, before reduction.
pub open spec fn ps_value(powers: Map<usize, Seq<u32>>, c: Seq<u32>, j: int, low: int, total: int) -> int {
    outer_value(powers, c, j, low, total, block_count(low, total)) + block_value(
        powers,
        c,
        j,
        low,
        total,
        0,
    )
}

/// What the evaluation gives in every slot: in slot `j` the value that the
/// blocks sum up to for row `j` of the coefficients, reduced modulo `q`.
pub open spec fn ps_values(
    coefficients: Seq<Seq<u32>>,
    powers: Map<usize, Seq<u32>>,
    low: int,
    total: int,
    q: int,
) -> Seq<u32> {
    Seq::new(
        coefficients.len(),
        |j: int| (ps_value(powers, coefficients[j], j, low, total) % q) as u32,
    )
}

/// The query holds every power of `targets`, with `rows` slots.
pub open spec fn powers_present(powers: Map<usize, Vec<u32>>, targets: Seq<usize>, rows: int) -> bool {
    forall|i: int|
        0 <= i < targets.len() ==> powers.contains_key(#[trigger] targets[i])
            && powers[targets[i]]@.len() == rows
}

/// `acc[j]` becomes `(acc[j] + a[j] * b[j]) mod q` in every slot.
fn slot_mul_add(acc: &mut Vec<u32>, a: &Vec<u32>, b: &Vec<u32>, modq: u32)
    requires
        modq > 0,
        old(acc)@.len() == a@.len(),
        old(acc)@.len() == b@.len(),
    ensures
        final(acc)@.len() == old(acc)@.len(),
        forall|j: int|
            0 <= j < old(acc)@.len() ==> (#[trigger] final(acc)@[j]) as int == (old(acc)@[j]
                + a@[j] * b@[j]) % (modq as int),
{
    let n: usize = acc.len();
    let ghost before = acc@;
    let mut j: usize = 0;
    while j < n
        invariant
            modq > 0,
            n == before.len(),
            n == a@.len(),
            n == b@.len(),
            acc@.len() == n,
            j <= n,
            forall|i: int|
                0 <= i < j ==> (#[trigger] acc@[i]) as int == (before[i] + a@[i] * b@[i]) % (
                modq as int),
            forall|i: int| j <= i < n ==> #[trigger] acc@[i] == before[i],
        decreases n - j,
    {
        let product: u32 = mul_mod(a[j], b[j], modq);
        let sum: u32 = add_mod(acc[j], product, modq);
        proof {
            lemma_add_mod_noop_right(before[j as int] as int, a@[j as int] * b@[j as int], modq as int);
        }
        acc.set(j, sum);
        j = j + 1;
    }
}

/// `acc[j]` becomes `(acc[j] + a[j]) mod q` in every slot.
fn slot_add(acc: &mut Vec<u32>, a: &Vec<u32>, modq: u32)
    requires
        modq > 0,
        old(acc)@.len() == a@.len(),
    ensures
        final(acc)@.len() == old(acc)@.len(),
        forall|j: int|
            0 <= j < old(acc)@.len() ==> (#[trigger] final(acc)@[j]) as int == (old(acc)@[j]
                + a@[j]) % (modq as int),
{
    let n: usize = acc.len();
    let ghost before = acc@;
    let mut j: usize = 0;
    while j < n
        invariant
            modq > 0,
            n == before.len(),
            n == a@.len(),
            acc@.len() == n,
            j <= n,
            forall|i: int|
                0 <= i < j ==> (#[trigger] acc@[i]) as int == (before[i] + a@[i]) % (modq as int),
            forall|i: int| j <= i < n ==> #[trigger] acc@[i] == before[i],
        decreases n - j,
    {
        let sum: u32 = add_mod(acc[j], a[j], modq);
        acc.set(j, sum);
        j = j + 1;
    }
}

/// `n` slots that hold zero.
fn zero_slots(n: usize) -> (out: Vec<u32>)
    ensures
        out@.len() == n,
        forall|j: int| 0 <= j < n ==> #[trigger] out@[j] == 0,
{
    let mut out: Vec<u32> = Vec::with_capacity(n);
    let mut j: usize = 0;
    while j < n
        invariant
            j <= n,
            out@.len() == j,
            forall|i: int| 0 <= i < j ==> #[trigger] out@[i] == 0,
        decreases n - j,
    {
        out.push(0);
        j = j + 1;
    }
    out
}

proof fn lemma_mod_add_step(v: int, t: int, q: int)
    requires
        q > 0,
    ensures
        ((v % q) + t) % q == (v + t) % q,
{
    lemma_add_mod_noop(v, t, q);
    lemma_add_mod_noop_right(v % q, t, q);
}

proof fn lemma_mod_mul_add_step(o: int, b: int, x: int, q: int)
    requires
        q > 0,
    ensures
        ((o % q) + (b % q) * x) % q == (o + b * x) % q,
{
    lemma_mod_add_step(o, (b % q) * x, q);
    lemma_mul_mod_noop_left(b, x, q);
    lemma_add_mod_noop_right(o, (b % q) * x, q);
    lemma_add_mod_noop_right(o, b * x, q);
}

/// Where the powers of the evaluation stand among the target powers.
pub proof fn lemma_target_powers(low: int, total: int)
    requires
        0 <= low,
        0 <= total,
        total + low + 1 <= usize::MAX,
    ensures
        target_powers(low, total).len() == low + block_count(low, total) - 1,
        forall|k: int| 1 <= k <= low ==> #[trigger] target_powers(low, total)[k - 1] == k,
        forall|m: int|
            1 <= m < block_count(low, total) ==> #[trigger] target_powers(low, total)[low + m - 1]
                == m * (low + 1),
{
    let h = low + 1;
    lemma_fundamental_div_mod(total, h);
    lemma_mod_bound(total, h);
    assert(total / h >= 0) by (nonlinear_arith)
        requires
            total == h * (total / h) + total % h,
            0 <= total % h < h,
            total >= 0,
            h > 0,
    ;
    assert forall|m: int| 1 <= m < block_count(low, total) implies #[trigger] target_powers(
        low,
        total,
    )[low + m - 1] == m * (low + 1) by {
        lemma_blocks_in_range(low, total, m);
    }
}

/// The values of the polynomials in the slots of the query: for each row of
/// `coefficients`, the polynomial whose coefficients the row holds, lowest
/// degree first, at the value whose powers `x_powers` holds in the slot of
/// that row. The blocks of `ps_schedule` are summed up modulo `modq`: the
/// inner sum of each block, then the blocks by their powers.
pub fn ps_evaluate_poly(
    x_powers: &HashMap<usize, Vec<u32>>,
    ps_params: &PSParams,
    coefficients: &Matrix,
    modq: u32,
) -> (out: Vec<u32>)
    requires
        modq > 0,
        ps_params.wf(),
        coefficients@.len() > 0,
        has_shape(coefficients@, coefficients@.len() as int, ps_params.total_degree + 1),
        powers_present(x_powers@, ps_params.powers@, coefficients@.len() as int),
    ensures
        out@ == ps_values(
            coefficients@,
            state_view(x_powers@),
            ps_params.low_degree as int,
            ps_params.total_degree as int,
            modq as int,
        ),
{
    broadcast use vstd::std_specs::hash::group_hash_axioms;

    let ghost xs = state_view(x_powers@);
    let ghost low = ps_params.low_degree as int;
    let ghost total = ps_params.total_degree as int;
    let ghost q = modq as int;
    let ghost c = coefficients@;
    proof {
        lemma_target_powers(low, total);
    }
    let schedule: Vec<PsBlock> = ps_schedule(ps_params);
    let rows: usize = coefficients.column(0).len();
    let mut first: Vec<u32> = zero_slots(rows);
    let mut outer: Vec<u32> = zero_slots(rows);
    let mut m: usize = 0;
    proof {
        vstd::arithmetic::div_mod::lemma_small_mod(0, q as nat);
    }
    while m < schedule.len()
        invariant
            modq > 0,
            q == modq as int,
            low == ps_params.low_degree as int,
            total == ps_params.total_degree as int,
            ps_params.wf(),
            xs == state_view(x_powers@),
            c == coefficients@,
            rows == c.len(),
            rows > 0,
            has_shape(c, rows as int, total + 1),
            powers_present(x_powers@, ps_params.powers@, rows as int),
            schedule_matches(schedule@, low, total),
            target_powers(low, total).len() == low + block_count(low, total) - 1,
            forall|k: int| 1 <= k <= low ==> #[trigger] target_powers(low, total)[k - 1] == k,
            forall|b: int|
                1 <= b < block_count(low, total) ==> #[trigger] target_powers(low, total)[low + b
                    - 1] == b * (low + 1),
            m <= schedule@.len(),
            outer@.len() == rows,
            first@.len() == rows,
            forall|j: int|
                0 <= j < rows ==> (#[trigger] outer@[j]) as int == outer_value(
                    xs,
                    c[j],
                    j,
                    low,
                    total,
                    m as int,
                ) % q,
            m >= 1 ==> forall|j: int|
                0 <= j < rows ==> (#[trigger] first@[j]) as int == block_value(
                    xs,
                    c[j],
                    j,
                    low,
                    total,
                    0,
                ) % q,
        decreases schedule@.len() - m,
    {
        let block: &PsBlock = &schedule[m];
        let ghost base: int = m * (low + 1);
        proof {
            lemma_blocks_in_range(low, total, m as int);
            assert(block_matches(schedule@[m as int], low, total, m as int));
            vstd::arithmetic::div_mod::lemma_small_mod(0, q as nat);
        }
        let mut inner: Vec<u32> = zero_slots(rows);
        let mut i: usize = 0;
        while i < block.terms.len()
            invariant
                modq > 0,
                q == modq as int,
                ps_params.wf(),
                low == ps_params.low_degree as int,
                total == ps_params.total_degree as int,
                xs == state_view(x_powers@),
                c == coefficients@,
                rows == c.len(),
                rows > 0,
                has_shape(c, rows as int, total + 1),
                powers_present(x_powers@, ps_params.powers@, rows as int),
                block_matches(*block, low, total, m as int),
                base == m * (low + 1),
                0 <= base,
                base + block_terms(low, total, m as int) <= total,
                block_terms(low, total, m as int) <= low,
                target_powers(low, total).len() == low + block_count(low, total) - 1,
                forall|k: int| 1 <= k <= low ==> #[trigger] target_powers(low, total)[k - 1] == k,
                i <= block.terms@.len(),
                inner@.len() == rows,
                forall|j: int|
                    0 <= j < rows ==> (#[trigger] inner@[j]) as int == inner_value(
                        xs,
                        c[j],
                        j,
                        base,
                        i as int,
                    ) % q,
            decreases block.terms@.len() - i,
        {
            let term: PsTerm = block.terms[i];
            assert(term.power == i + 1 && term.column == base + i + 1);
            assert(ps_params.powers@[i as int] == i + 1) by {
                assert(target_powers(low, total)[(i + 1) - 1] == i + 1);
            }
            assert(x_powers@.contains_key(ps_params.powers@[i as int]));
            let column: Vec<u32> = coefficients.column(term.column);
            let ghost before = inner@;
            match x_powers.get(&term.power) {
                Some(power) => {
                    slot_mul_add(&mut inner, power, &column, modq);
                },
                None => {
                    assert(false);
                },
            }
            proof {
                assert forall|j: int| 0 <= j < rows implies (#[trigger] inner@[j]) as int
                    == inner_value(xs, c[j], j, base, i + 1) % q by {
                    let v = inner_value(xs, c[j], j, base, i as int);
                    let t = slot(xs, i + 1, j) * c[j][base + i + 1];
                    assert(before[j] as int == v % q);
                    assert(column@[j] == c[j][base + i + 1]);
                    assert(xs[term.power] == x_powers@[term.power]@);
                    lemma_mod_add_step(v, t, q);
                }
            }
            i = i + 1;
        }
        let constant: Vec<u32> = coefficients.column(block.constant);
        let ghost terms_sum = inner@;
        slot_add(&mut inner, &constant, modq);
        proof {
            assert forall|j: int| 0 <= j < rows implies (#[trigger] inner@[j]) as int
                == block_value(xs, c[j], j, low, total, m as int) % q by {
                let v = inner_value(xs, c[j], j, base, block_terms(low, total, m as int));
                assert(terms_sum[j] as int == v % q);
                assert(constant@[j] == c[j][base]);
                lemma_mod_add_step(v, c[j][base] as int, q);
            }
        }
        if m == 0 {
            first = inner;
        } else {
            assert(ps_params.powers@[low + m - 1] == m * (low + 1)) by {
                assert(target_powers(low, total)[low + m - 1] == m * (low + 1));
            }
            assert(x_powers@.contains_key(ps_params.powers@[low + m - 1]));
            let ghost before = outer@;
            match x_powers.get(&block.outer_power) {
                Some(power) => {
                    slot_mul_add(&mut outer, &inner, power, modq);
                },
                None => {
                    assert(false);
                },
            }
            proof {
                assert forall|j: int| 0 <= j < rows implies (#[trigger] outer@[j]) as int
                    == outer_value(xs, c[j], j, low, total, m + 1) % q by {
                    let o = outer_value(xs, c[j], j, low, total, m as int);
                    let b = block_value(xs, c[j], j, low, total, m as int);
                    let x = slot(xs, m * (low + 1), j);
                    assert(before[j] as int == o % q);
                    assert(inner@[j] as int == b % q);
                    assert(xs[block.outer_power] == x_powers@[block.outer_power]@);
                    lemma_mod_mul_add_step(o, b, x, q);
                }
            }
        }
        m = m + 1;
    }
    let ghost blocks_sum = outer@;
    slot_add(&mut outer, &first, modq);
    proof {
        lemma_blocks_in_range(low, total, 0);
        assert forall|j: int| 0 <= j < outer@.len() implies (#[trigger] outer@[j]) as int
            == ps_value(xs, c[j], j, low, total) % q by {
            let o = outer_value(xs, c[j], j, low, total, block_count(low, total));
            let b = block_value(xs, c[j], j, low, total, 0);
            assert(blocks_sum[j] as int == o % q);
            assert(first@[j] as int == b % q);
            lemma_add_mod_noop(o, b, q);
        }
        assert(outer@ =~= ps_values(c, xs, low, total, q));
    }
    outer
}

/// The sum of the monomials of degree below `n` of the polynomial with
/// coefficients `c`, at `x`.
pub open spec fn mono_sum(c: Seq<int>, x: int, n: int) -> int
    decreases n,
{
    if n <= 0 {
        0
    } else {
        mono_sum(c, x, n - 1) + c[n - 1] * pow(x, (n - 1) as nat)
    }
}

/// One more coefficient adds one monomial to the value of a polynomial.
pub proof fn lemma_eval_push(c: Seq<int>, a: int, x: int)
    ensures
        poly_eval_int(c.push(a), x) == poly_eval_int(c, x) + a * pow(x, c.len()),
    decreases c.len(),
{
    let longer = c.push(a);
    if c.len() == 0 {
        lemma_pow0(x);
        assert(longer.drop_first() =~= Seq::<int>::empty());
        assert(poly_eval_int(longer.drop_first(), x) == 0);
        assert(poly_eval_int(longer, x) == longer[0] + x * poly_eval_int(longer.drop_first(), x));
        assert(a * 1 == a);
    } else {
        let rest = c.drop_first();
        lemma_eval_push(rest, a, x);
        assert(longer.drop_first() =~= rest.push(a));
        lemma_pow_adds(x, 1, rest.len());
        lemma_pow1(x);
        let w = pow(x, rest.len());
        let value = poly_eval_int(rest, x);
        assert(pow(x, c.len()) == x * w);
        assert(x * (value + a * w) == x * value + a * (x * w)) by (nonlinear_arith);
        assert(poly_eval_int(longer, x) == longer[0] + x * poly_eval_int(longer.drop_first(), x));
        assert(poly_eval_int(c, x) == c[0] + x * value);
    }
}

/// The value of a polynomial is the sum of its monomials.
pub proof fn lemma_eval_mono_sum(c: Seq<int>, x: int, n: int)
    requires
        0 <= n <= c.len(),
    ensures
        poly_eval_int(c.take(n), x) == mono_sum(c, x, n),
    decreases n,
{
    if n > 0 {
        lemma_eval_mono_sum(c, x, n - 1);
        lemma_eval_push(c.take(n - 1), c[n - 1], x);
        assert(c.take(n - 1).push(c[n - 1]) =~= c.take(n));
    }
}

/// Slot `j` of each target power holds that power of `x` modulo `q`.
pub open spec fn slot_holds_powers(
    powers: Map<usize, Seq<u32>>,
    targets: Seq<usize>,
    j: int,
    x: int,
    q: int,
) -> bool {
    forall|i: int|
        0 <= i < targets.len() ==> congruent(
            slot(powers, (#[trigger] targets[i]) as int, j),
            pow(x, targets[i] as nat),
            q,
        )
}

/// The inner sum of a block, by the power of the block, is a run of
/// monomials of the polynomial.
proof fn lemma_inner_value(
    powers: Map<usize, Seq<u32>>,
    c: Seq<u32>,
    j: int,
    low: int,
    total: int,
    x: int,
    q: int,
    base: int,
    k: int,
)
    requires
        q > 0,
        0 <= k <= low,
        0 <= total,
        total + low + 1 <= usize::MAX,
        0 <= base,
        base + k < c.len(),
        slot_holds_powers(powers, target_powers(low, total), j, x, q),
    ensures
        congruent(
            inner_value(powers, c, j, base, k) * pow(x, base as nat),
            mono_sum(ints_of(c), x, base + k + 1) - mono_sum(ints_of(c), x, base + 1),
            q,
        ),
    decreases k,
{
    let w = pow(x, base as nat);
    if k == 0 {
        assert(inner_value(powers, c, j, base, 0) * w == 0) by (nonlinear_arith)
            requires
                inner_value(powers, c, j, base, 0) == 0,
        ;
        lemma_congruent_refl(0, q);
    } else {
        lemma_inner_value(powers, c, j, low, total, x, q, base, k - 1);
        lemma_target_powers(low, total);
        let before = inner_value(powers, c, j, base, k - 1);
        let xk = slot(powers, k, j);
        let coefficient = c[base + k] as int;
        assert(target_powers(low, total)[k - 1] == k);
        assert(congruent(xk, pow(x, k as nat), q));
        lemma_pow_adds(x, k as nat, base as nat);
        // the new term
        lemma_congruent_refl(coefficient * w, q);
        lemma_congruent_mul(xk, pow(x, k as nat), coefficient * w, coefficient * w, q);
        assert(pow(x, k as nat) * (coefficient * w) == coefficient * pow(x, (base + k) as nat))
            by (nonlinear_arith)
            requires
                pow(x, (k + base) as nat) == pow(x, k as nat) * w,
                (k + base) as nat == (base + k) as nat,
        ;
        assert(ints_of(c)[base + k] == coefficient);
        lemma_congruent_add(
            before * w,
            mono_sum(ints_of(c), x, base + k) - mono_sum(ints_of(c), x, base + 1),
            xk * (coefficient * w),
            coefficient * pow(x, (base + k) as nat),
            q,
        );
        assert((before + xk * coefficient) * w == before * w + xk * (coefficient * w))
            by (nonlinear_arith);
        assert(mono_sum(ints_of(c), x, base + k + 1) == mono_sum(ints_of(c), x, base + k) + ints_of(
            c,
        )[base + k] * pow(x, (base + k) as nat));
        assert(inner_value(powers, c, j, base, k) == before + xk * coefficient);
    }
}

/// The column up to which the blocks `0 .. n` reach.
pub open spec fn blocks_end(low: int, total: int, n: int) -> int {
    if n < block_count(low, total) {
        n * (low + 1)
    } else {
        total + 1
    }
}

/// Block `m`, by its power, is the run of monomials of its columns.
proof fn lemma_block_value(
    powers: Map<usize, Seq<u32>>,
    c: Seq<u32>,
    j: int,
    low: int,
    total: int,
    x: int,
    q: int,
    m: int,
)
    requires
        q > 0,
        0 <= low,
        0 <= total,
        total + low + 1 <= usize::MAX,
        c.len() == total + 1,
        0 <= m < block_count(low, total),
        slot_holds_powers(powers, target_powers(low, total), j, x, q),
    ensures
        congruent(
            block_value(powers, c, j, low, total, m) * pow(x, (m * (low + 1)) as nat),
            mono_sum(ints_of(c), x, blocks_end(low, total, m + 1)) - mono_sum(
                ints_of(c),
                x,
                m * (low + 1),
            ),
            q,
        ),
{
    let base = m * (low + 1);
    let count = block_terms(low, total, m);
    let w = pow(x, base as nat);
    lemma_blocks_in_range(low, total, m);
    lemma_inner_value(powers, c, j, low, total, x, q, base, count);
    let inner = inner_value(powers, c, j, base, count);
    let constant = c[base] as int;
    assert(ints_of(c)[base] == constant);
    assert(mono_sum(ints_of(c), x, base + 1) == mono_sum(ints_of(c), x, base) + constant * w);
    lemma_congruent_refl(constant * w, q);
    lemma_congruent_add(
        inner * w,
        mono_sum(ints_of(c), x, base + count + 1) - mono_sum(ints_of(c), x, base + 1),
        constant * w,
        constant * w,
        q,
    );
    assert((inner + constant) * w == inner * w + constant * w) by (nonlinear_arith);
    assert(blocks_end(low, total, m + 1) == base + count + 1) by {
        if m + 1 < block_count(low, total) {
            assert((m + 1) * (low + 1) == m * (low + 1) + low + 1) by (nonlinear_arith);
        }
    }
}

/// The blocks `0 .. n`, each by its power, are the monomials of the columns
/// that they reach.
proof fn lemma_outer_value(
    powers: Map<usize, Seq<u32>>,
    c: Seq<u32>,
    j: int,
    low: int,
    total: int,
    x: int,
    q: int,
    n: int,
)
    requires
        q > 0,
        0 <= low,
        0 <= total,
        total + low + 1 <= usize::MAX,
        c.len() == total + 1,
        1 <= n <= block_count(low, total),
        slot_holds_powers(powers, target_powers(low, total), j, x, q),
    ensures
        congruent(
            outer_value(powers, c, j, low, total, n) + block_value(powers, c, j, low, total, 0),
            mono_sum(ints_of(c), x, blocks_end(low, total, n)),
            q,
        ),
    decreases n,
{
    let first = block_value(powers, c, j, low, total, 0);
    if n == 1 {
        lemma_block_value(powers, c, j, low, total, x, q, 0);
        lemma_pow0(x);
        assert(0 * (low + 1) == 0);
        assert(first * 1 == first) by (nonlinear_arith);
        assert(mono_sum(ints_of(c), x, 0) == 0);
    } else {
        let m = n - 1;
        let base = m * (low + 1);
        lemma_outer_value(powers, c, j, low, total, x, q, n - 1);
        lemma_block_value(powers, c, j, low, total, x, q, m);
        lemma_target_powers(low, total);
        let block = block_value(powers, c, j, low, total, m);
        let xm = slot(powers, base, j);
        assert(target_powers(low, total)[low + m - 1] == base);
        assert(congruent(xm, pow(x, base as nat), q));
        lemma_congruent_refl(block, q);
        lemma_congruent_mul(block, block, xm, pow(x, base as nat), q);
        crate::field::lemma_congruent_trans(
            block * xm,
            block * pow(x, base as nat),
            mono_sum(ints_of(c), x, blocks_end(low, total, n)) - mono_sum(ints_of(c), x, base),
            q,
        );
        assert(blocks_end(low, total, n - 1) == base);
        lemma_congruent_add(
            outer_value(powers, c, j, low, total, n - 1) + first,
            mono_sum(ints_of(c), x, base),
            block * xm,
            mono_sum(ints_of(c), x, blocks_end(low, total, n)) - mono_sum(ints_of(c), x, base),
            q,
        );
    }
}

/// The evaluation in blocks gives the value of the polynomial. Where slot
/// `j` of every target power holds that power of `x` modulo `q`, and `c`
/// holds the `total + 1` coefficients of a polynomial, the blocks sum up to
/// the value of the polynomial at `x`, modulo `q`: whatever the low degree,
/// and whether or not it divides the polynomial into blocks of one size.
pub proof fn lemma_ps_value(
    powers: Map<usize, Seq<u32>>,
    c: Seq<u32>,
    j: int,
    low: int,
    total: int,
    x: int,
    q: int,
)
    requires
        q > 0,
        0 <= low,
        0 <= total,
        total + low + 1 <= usize::MAX,
        c.len() == total + 1,
        slot_holds_powers(powers, target_powers(low, total), j, x, q),
    ensures
        ps_value(powers, c, j, low, total) % q == poly_eval(ints_of(c), x, q),
{
    lemma_target_powers(low, total);
    let n = block_count(low, total);
    lemma_outer_value(powers, c, j, low, total, x, q, n);
    lemma_eval_mono_sum(ints_of(c), x, total + 1);
    assert(ints_of(c).take(total + 1) =~= ints_of(c));
    lemma_congruent_iff(ps_value(powers, c, j, low, total), poly_eval_int(ints_of(c), x), q);
}

impl PSParams {
    /// Decides `wf`.
    pub fn is_valid(&self) -> (b: bool)
        ensures
            b == self.wf(),
    {
        let fits: bool = match self.total_degree.checked_add(self.low_degree) {
            Some(sum) => sum < usize::MAX,
            None => false,
        };
        if !fits {
            return false;
        }
        let expected: PSParams = PSParams::new(self.low_degree, self.total_degree);
        if self.powers.len() != expected.powers.len() {
            return false;
        }
        let n: usize = self.powers.len();
        let mut i: usize = 0;
        while i < n
            invariant
                n == self.powers@.len(),
                n == expected.powers@.len(),
                expected.powers@ == target_powers(
                    self.low_degree as int,
                    self.total_degree as int,
                ),
                self.total_degree + self.low_degree + 1 <= usize::MAX,
                i <= n,
                forall|k: int| 0 <= k < i ==> self.powers@[k] == expected.powers@[k],
            decreases n - i,
        {
            if self.powers[i] != expected.powers[i] {
                assert(self.powers@[i as int] != expected.powers@[i as int]);
                return false;
            }
            i = i + 1;
        }
        assert(self.powers@ =~= expected.powers@);
        true
    }
}

} // verus!
