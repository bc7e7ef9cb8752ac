//! Filling a time budget with blocks of two fixed lengths.
//!
//! A [`BurgerProblem`] has two block lengths `m` and `n` and a budget `t`.
//! Solving it finds the largest budget `t' <= t` that some number of blocks
//! fills exactly, and the most blocks that fill `t'`. A block of length zero
//! takes no time and is never scheduled.
use vstd::prelude::*;
use std::collections::HashMap;
use vstd::arithmetic::div_mod::{
    lemma_div_is_ordered, lemma_div_multiples_vanish, lemma_fundamental_div_mod,
    lemma_mod_multiples_basic,
};

verus! {

broadcast use vstd::std_specs::hash::group_hash_axioms;

/// Whether `k` blocks, some of length `pa` and the rest of length `pb`, add
/// up to exactly `r`. A block of length zero is never scheduled.
pub open spec fn fills(pa: nat, pb: nat, r: nat, k: nat) -> bool {
    exists|a: nat, b: nat|
        #![trigger a * pa, b * pb]
        a + b == k && a * pa + b * pb == r && (pa == 0 ==> a == 0) && (pb == 0 ==> b == 0)
}

/// Whether some number of blocks fills `r` exactly.
pub open spec fn feasible(pa: nat, pb: nat, r: nat) -> bool {
    exists|k: nat| fills(pa, pb, r, k)
}

/// Whether `k` blocks fill `r` exactly and no larger number of blocks does.
pub open spec fn max_fill(pa: nat, pb: nat, r: nat, k: nat) -> bool {
    fills(pa, pb, r, k) && forall|j: nat| fills(pa, pb, r, j) ==> j <= k
}

/// Whether `res` is the best exact filling of `r`: the most blocks when `r`
/// can be filled, and `None` when it cannot.
pub open spec fn best_fill(pa: nat, pb: nat, r: nat, res: Option<nat>) -> bool {
    match res {
        Some(k) => max_fill(pa, pb, r, k),
        None => !feasible(pa, pb, r),
    }
}

/// Whether `units` blocks with `deficit` time left over answer the problem
/// with lengths `pa`, `pb` and budget `t`: `t - deficit` is the largest
/// budget up to `t` that blocks fill exactly, and `units` is the most blocks
/// that fill it.
pub open spec fn solution_of(pa: nat, pb: nat, t: nat, units: nat, deficit: nat) -> bool {
    &&& deficit <= t
    &&& max_fill(pa, pb, (t - deficit) as nat, units)
    &&& forall|r: nat| (t - deficit) < r <= t ==> !#[trigger] feasible(pa, pb, r)
}

/// An optional count as a mathematical value.
pub open spec fn count_of(res: Option<u32>) -> Option<nat> {
    match res {
        Some(k) => Some(k as nat),
        None => None,
    }
}

/// Every entry of a memo table holds the best exact filling of its key.
pub open spec fn cache_ok(pa: nat, pb: nat, cache: Map<u32, Option<u32>>) -> bool {
    forall|r: u32| #[trigger] cache.contains_key(r) ==> best_fill(pa, pb, r as nat, count_of(cache[r]))
}

/// Adding one to a factor adds the other factor once.
proof fn lemma_mul_succ(a: nat, p: nat)
    ensures
        (a + 1) * p == a * p + p,
        a > 0 ==> a * p >= p,
{
    assert((a + 1) * p == a * p + p) by (nonlinear_arith);
    assert(a > 0 ==> a * p >= p) by (nonlinear_arith);
}

/// A budget of zero is filled by no blocks, and only by none.
proof fn lemma_fill_zero(pa: nat, pb: nat)
    ensures
        max_fill(pa, pb, 0, 0),
{
    assert(0 * pa == 0 && 0 * pb == 0) by (nonlinear_arith);
    assert(fills(pa, pb, 0, 0));
    assert forall|j: nat| fills(pa, pb, 0, j) implies j <= 0 by {
        let (a, b) = choose|a: nat, b: nat|
            #![trigger a * pa, b * pb]
            a + b == j && a * pa + b * pb == 0 && (pa == 0 ==> a == 0) && (pb == 0 ==> b == 0);
        lemma_mul_succ((a - 1) as nat, pa);
        lemma_mul_succ((b - 1) as nat, pb);
    }
}

/// No filling uses more blocks than there are time units.
proof fn lemma_fill_count_le(pa: nat, pb: nat, r: nat, k: nat)
    requires
        fills(pa, pb, r, k),
    ensures
        k <= r,
{
    let (a, b) = choose|a: nat, b: nat|
        #![trigger a * pa, b * pb]
        a + b == k && a * pa + b * pb == r && (pa == 0 ==> a == 0) && (pb == 0 ==> b == 0);
    assert(pa > 0 ==> a * pa >= a) by (nonlinear_arith);
    assert(pb > 0 ==> b * pb >= b) by (nonlinear_arith);
}

/// One more block of length `p` on top of a filling of `r` fills `r + p`.
proof fn lemma_fill_extend(pa: nat, pb: nat, r: nat, k: nat, first: bool)
    requires
        fills(pa, pb, r, k),
        first ==> pa > 0,
        !first ==> pb > 0,
    ensures
        fills(pa, pb, r + (if first { pa } else { pb }), k + 1),
{
    let (a, b) = choose|a: nat, b: nat|
        #![trigger a * pa, b * pb]
        a + b == k && a * pa + b * pb == r && (pa == 0 ==> a == 0) && (pb == 0 ==> b == 0);
    lemma_mul_succ(a, pa);
    lemma_mul_succ(b, pb);
    if first {
        assert((a + 1) * pa + b * pb == r + pa);
    } else {
        assert(a * pa + (b + 1) * pb == r + pb);
    }
}

/// A filling of `r > 0` ends with a block of one of the two lengths, and
/// what comes before that block fills the rest.
proof fn lemma_fill_split(pa: nat, pb: nat, r: nat, j: nat)
    requires
        r > 0,
        fills(pa, pb, r, j),
    ensures
        j > 0,
        (0 < pa <= r && fills(pa, pb, (r - pa) as nat, (j - 1) as nat)) || (0 < pb <= r && fills(
            pa,
            pb,
            (r - pb) as nat,
            (j - 1) as nat,
        )),
{
    let (a, b) = choose|a: nat, b: nat|
        #![trigger a * pa, b * pb]
        a + b == j && a * pa + b * pb == r && (pa == 0 ==> a == 0) && (pb == 0 ==> b == 0);
    if a > 0 {
        lemma_mul_succ((a - 1) as nat, pa);
        assert(((a - 1) as nat) * pa + b * pb == r - pa);
        assert(fills(pa, pb, (r - pa) as nat, (j - 1) as nat));
    } else if b > 0 {
        lemma_mul_succ((b - 1) as nat, pb);
        assert(a * pa + ((b - 1) as nat) * pb == r - pb);
        assert(fills(pa, pb, (r - pb) as nat, (j - 1) as nat));
    } else {
        assert(0 * pa == 0 && 0 * pb == 0) by (nonlinear_arith);
    }
}

/// The best filling of `r` after a last block of either length, given the
/// best fillings of what is left before each.
pub open spec fn after_last_block(first: Option<nat>, second: Option<nat>) -> Option<nat> {
    match (first, second) {
        (None, None) => None,
        (Some(x), None) => Some(x + 1),
        (None, Some(y)) => Some(y + 1),
        (Some(x), Some(y)) => Some(if x >= y { x + 1 } else { y + 1 }),
    }
}

/// The best filling of `r > 0` follows from the best fillings of `r - pa`
/// and `r - pb`, where a length that is zero or exceeds `r` contributes none.
proof fn lemma_fill_step(pa: nat, pb: nat, r: nat, first: Option<nat>, second: Option<nat>)
    requires
        r > 0,
        0 < pa <= r ==> best_fill(pa, pb, (r - pa) as nat, first),
        !(0 < pa <= r) ==> first is None,
        0 < pb <= r ==> best_fill(pa, pb, (r - pb) as nat, second),
        !(0 < pb <= r) ==> second is None,
    ensures
        best_fill(pa, pb, r, after_last_block(first, second)),
{
    if let Some(x) = first {
        lemma_fill_extend(pa, pb, (r - pa) as nat, x, true);
    }
    if let Some(y) = second {
        lemma_fill_extend(pa, pb, (r - pb) as nat, y, false);
    }
    assert forall|j: nat| fills(pa, pb, r, j) implies after_last_block(first, second) is Some
        && j <= after_last_block(first, second)->Some_0 by {
        lemma_fill_split(pa, pb, r, j);
    }
}

/// When `pb` divides `pa`, only multiples of `pb` can be filled, and never
/// with more than `r / pb` blocks.
proof fn lemma_divisible_fills(pa: nat, pb: nat, r: nat, k: nat)
    requires
        pb > 0,
        pa % pb == 0,
        fills(pa, pb, r, k),
    ensures
        r % pb == 0,
        k <= r / pb,
{
    let (a, b) = choose|a: nat, b: nat|
        #![trigger a * pa, b * pb]
        a + b == k && a * pa + b * pb == r && (pa == 0 ==> a == 0) && (pb == 0 ==> b == 0);
    let c: int = pa as int / pb as int;
    lemma_fundamental_div_mod(pa as int, pb as int);
    assert(pa == pb * c);
    let x: int = a * c + b;
    assert(r == x * pb && r == pb * x) by (nonlinear_arith)
        requires
            pa == pb * c,
            r == a * pa + b * pb,
            x == a * c + b,
    ;
    lemma_div_multiples_vanish(x, pb as int);
    lemma_mod_multiples_basic(x, pb as int);
    assert(pa > 0 ==> c >= 1) by (nonlinear_arith)
        requires
            pa == pb * c,
            pb > 0,
    ;
    assert(c >= 1 ==> a * c >= a) by (nonlinear_arith);
    assert(c >= 0) by (nonlinear_arith)
        requires
            pa == pb * c,
            pb > 0,
    ;
    assert(a * c >= 0) by (nonlinear_arith)
        requires
            c >= 0,
    ;
}

/// When `pb > 0` divides `pa`, a budget `t` is answered with `t / pb` blocks.
proof fn lemma_divisible_units(pa: nat, pb: nat, t: nat, units: nat, deficit: nat)
    requires
        pb > 0,
        pa % pb == 0,
        solution_of(pa, pb, t, units, deficit),
    ensures
        units == t / pb,
{
    let q: int = t as int / pb as int;
    let filled: nat = (t - deficit) as nat;
    lemma_fundamental_div_mod(t as int, pb as int);
    assert(q >= 0);
    let qn = q as nat;
    assert(0 * pa == 0 && qn * pb == pb * q) by (nonlinear_arith)
        requires
            qn == q,
    ;
    assert(fills(pa, pb, (qn * pb) as nat, qn));
    assert(qn * pb <= t);
    if filled < qn * pb {
        assert(feasible(pa, pb, (qn * pb) as nat));
    }
    lemma_divisible_fills(pa, pb, filled, units);
    let f: int = filled as int / pb as int;
    lemma_fundamental_div_mod(filled as int, pb as int);
    assert(f >= 0);
    let fnat = f as nat;
    assert(fnat * pb == pb * f) by (nonlinear_arith)
        requires
            fnat == f,
    ;
    assert(fills(pa, pb, filled, fnat));
    lemma_div_is_ordered(filled as int, t as int, pb as int);
    lemma_div_is_ordered(q * pb, filled as int, pb as int);
    lemma_div_multiples_vanish(q, pb as int);
    assert(q * pb == pb * q) by (nonlinear_arith);
}

/// With two lengths of zero no budget above zero can be filled.
proof fn lemma_zero_lengths_units(t: nat, units: nat, deficit: nat)
    requires
        solution_of(0, 0, t, units, deficit),
    ensures
        units == 0,
{
    let (a, b) = choose|a: nat, b: nat|
        #![trigger a * 0nat, b * 0nat]
        a + b == units && a * 0 + b * 0 == (t - deficit) && (0nat == 0 ==> a == 0) && (0nat == 0
            ==> b == 0);
}

/// Swapping the two lengths changes no answer.
proof fn lemma_solution_swap(pa: nat, pb: nat, t: nat, units: nat, deficit: nat)
    requires
        solution_of(pa, pb, t, units, deficit),
    ensures
        solution_of(pb, pa, t, units, deficit),
{
    assert forall|r: nat, k: nat| fills(pa, pb, r, k) <==> fills(pb, pa, r, k) by {
        if fills(pa, pb, r, k) {
            let (a, b) = choose|a: nat, b: nat|
                #![trigger a * pa, b * pb]
                a + b == k && a * pa + b * pb == r && (pa == 0 ==> a == 0) && (pb == 0 ==> b == 0);
            assert(b * pb + a * pa == r);
        }
        if fills(pb, pa, r, k) {
            let (a, b) = choose|a: nat, b: nat|
                #![trigger a * pb, b * pa]
                a + b == k && a * pb + b * pa == r && (pb == 0 ==> a == 0) && (pa == 0 ==> b == 0);
            assert(b * pa + a * pb == r);
        }
    }
    assert forall|r: nat| feasible(pa, pb, r) <==> feasible(pb, pa, r) by {
        if feasible(pa, pb, r) {
            let k = choose|k: nat| fills(pa, pb, r, k);
            assert(fills(pb, pa, r, k));
        }
        if feasible(pb, pa, r) {
            let k = choose|k: nat| fills(pb, pa, r, k);
            assert(fills(pa, pb, r, k));
        }
    }
}

/// More time never yields fewer blocks, when one length divides the other
/// or both are zero: the answer for a budget `t` is then `t` divided by the
/// shorter nonzero length. (For other lengths this fails: with lengths 5
/// and 3 a budget of 9 takes three blocks and a budget of 10 only two.)
pub proof fn lemma_units_monotone_divisible(
    pa: nat,
    pb: nat,
    t1: nat,
    units1: nat,
    deficit1: nat,
    t2: nat,
    units2: nat,
    deficit2: nat,
)
    requires
        (pb > 0 && pa % pb == 0) || (pa > 0 && pb % pa == 0) || (pa == 0 && pb == 0),
        t1 <= t2,
        solution_of(pa, pb, t1, units1, deficit1),
        solution_of(pa, pb, t2, units2, deficit2),
    ensures
        units1 <= units2,
{
    if pb > 0 && pa % pb == 0 {
        lemma_divisible_units(pa, pb, t1, units1, deficit1);
        lemma_divisible_units(pa, pb, t2, units2, deficit2);
        lemma_div_is_ordered(t1 as int, t2 as int, pb as int);
    } else if pa > 0 && pb % pa == 0 {
        lemma_solution_swap(pa, pb, t1, units1, deficit1);
        lemma_solution_swap(pa, pb, t2, units2, deficit2);
        lemma_divisible_units(pb, pa, t1, units1, deficit1);
        lemma_divisible_units(pb, pa, t2, units2, deficit2);
        lemma_div_is_ordered(t1 as int, t2 as int, pa as int);
    } else {
        lemma_zero_lengths_units(t1, units1, deficit1);
    }
}

/// With two positive lengths, `k` blocks fill `r` exactly when `r` is
/// `a * pa + b * pb` for some non-negative `a` and `b` with `a + b == k`: the
/// answer of [`BurgerProblem::solve`] for a budget that can be filled is the
/// largest such `a + b`.
pub proof fn lemma_fills_positive(pa: nat, pb: nat, r: nat, k: nat)
    requires
        pa > 0,
        pb > 0,
    ensures
        fills(pa, pb, r, k) <==> exists|a: nat, b: nat|
            #![trigger a * pa, b * pb]
            a + b == k && a * pa + b * pb == r,
{
}

/// A scheduling problem: blocks of length `m` or `n` in a budget of `t`.
#[derive(Debug, Clone, Copy, PartialEq, Eq)]
pub struct BurgerProblem {
    /// The length of the first kind of block.
    pub m: u32,
    /// The length of the second kind of block.
    pub n: u32,
    /// The time budget.
    pub t: u32,
}

/// The answer to a [`BurgerProblem`].
#[derive(Debug, Clone, Copy, PartialEq, Eq)]
pub struct BurgerSolution {
    /// How many blocks are scheduled.
    pub completed_units: u32,
    /// The time of the budget that is left unused.
    pub deficit: u32,
}

impl BurgerProblem {
    /// The most blocks that fill the budget `t` exactly, or `None` when no
    /// combination of blocks does. Every result computed on the way is kept
    /// in `cache`, keyed by the budget it is for, and reused when found there.
    pub fn solve_exactly_with_cache(&self, cache: &mut HashMap<u32, Option<u32>>) -> (res: Option<
        u32,
    >)
        requires
            cache_ok(self.m as nat, self.n as nat, old(cache)@),
        ensures
            cache_ok(self.m as nat, self.n as nat, final(cache)@),
            best_fill(self.m as nat, self.n as nat, self.t as nat, count_of(res)),
        decreases self.t,
    {
        if self.t == 0 {
            proof {
                lemma_fill_zero(self.m as nat, self.n as nat);
            }
            return Some(0);
        }
        match cache.get(&self.t) {
            Some(cached) => {
                return *cached;
            },
            None => {},
        }
        // A block of length zero would leave the budget as it is: skip it.
        let mut first: Option<u32> = None;
        let mut second: Option<u32> = None;
        if self.m > 0 && self.t >= self.m {
            first = BurgerProblem { m: self.m, n: self.n, t: self.t - self.m }.solve_exactly_with_cache(
                cache,
            );
        }
        if self.n > 0 && self.t >= self.n {
            second = BurgerProblem { m: self.m, n: self.n, t: self.t - self.n }.solve_exactly_with_cache(
                cache,
            );
        }
        proof {
            lemma_fill_step(self.m as nat, self.n as nat, self.t as nat, count_of(first), count_of(second));
            if let Some(x) = first {
                lemma_fill_count_le(self.m as nat, self.n as nat, (self.t - self.m) as nat, x as nat);
            }
            if let Some(y) = second {
                lemma_fill_count_le(self.m as nat, self.n as nat, (self.t - self.n) as nat, y as nat);
            }
        }
        // A branch that fills nothing takes no part in the maximum.
        let result: Option<u32> = match (first, second) {
            (None, None) => None,
            (Some(x), None) => Some(x + 1),
            (None, Some(y)) => Some(y + 1),
            (Some(x), Some(y)) => Some(
                if x >= y {
                    x + 1
                } else {
                    y + 1
                },
            ),
        };
        assert(count_of(result) == after_last_block(count_of(first), count_of(second)));
        cache.insert(self.t, result);
        result
    }

    /// Solves the problem: the largest budget up to `t` that blocks fill
    /// exactly, given by how far it falls short of `t`, and the most blocks
    /// that fill it. When `t` itself can be filled nothing is left over.
    pub fn solve(&self) -> (sol: BurgerSolution)
        ensures
            solution_of(
                self.m as nat,
                self.n as nat,
                self.t as nat,
                sol.completed_units as nat,
                sol.deficit as nat,
            ),
            feasible(self.m as nat, self.n as nat, self.t as nat) <==> sol.deficit == 0,
            self.t == 0 ==> sol.completed_units == 0 && sol.deficit == 0,
    {
        let ghost pa = self.m as nat;
        let ghost pb = self.n as nat;
        let mut cache: HashMap<u32, Option<u32>> = HashMap::new();
        match self.solve_exactly_with_cache(&mut cache) {
            Some(units) => {
                proof {
                    if self.t == 0 {
                        lemma_fill_zero(pa, pb);
                    }
                }
                BurgerSolution { completed_units: units, deficit: 0 }
            },
            None => {
                proof {
                    lemma_fill_zero(pa, pb);
                }
                let mut t: u32 = self.t - 1;
                let mut result = BurgerProblem { m: self.m, n: self.n, t }.solve_exactly_with_cache(
                    &mut cache,
                );
                while result.is_none()
                    invariant
                        pa == self.m as nat,
                        pb == self.n as nat,
                        t < self.t,
                        cache_ok(pa, pb, cache@),
                        best_fill(pa, pb, t as nat, count_of(result)),
                        max_fill(pa, pb, 0, 0),
                        forall|r: nat| t < r <= self.t ==> !#[trigger] feasible(pa, pb, r),
                    decreases t,
                {
                    t -= 1;
                    result = BurgerProblem { m: self.m, n: self.n, t }.solve_exactly_with_cache(
                        &mut cache,
                    );
                }
                let units = result.unwrap();
                BurgerSolution { completed_units: units, deficit: self.t - t }
            },
        }
    }
}

} // verus!
