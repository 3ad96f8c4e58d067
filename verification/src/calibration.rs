//! Calibration equations: a target value and a list of numbers.
//!
//! An equation holds if some left-to-right evaluation of the numbers, with
//! an addition or a multiplication between each pair, meets the target.
//! The solver builds every combination of operators, checks each, and sums
//! the targets of the equations that some combination satisfies.

use vstd::prelude::*;

verus! {

/// The two operators a calibration equation may use.
#[derive(Copy, Clone, Debug, PartialEq, Eq)]
pub enum Operators {
    Addition,
    Multiplication,
}

/// Whether an equation has been checked yet, and how it came out.
#[derive(Debug, Clone, PartialEq, Eq)]
pub enum Validity {
    True,
    False,
    Unchecked,
}

/// One candidate equation: the target value, the numbers, and one operator
/// sequence to try between them.
#[derive(Debug, Clone, PartialEq, Eq)]
pub struct Equation {
    pub value: u64,
    pub numbers: Vec<u64>,
    pub operators: Vec<Operators>,
    pub valid: Validity,
}

impl Operators {
    /// The operator's written form.
    pub fn to_char(self) -> (c: char)
        ensures
            c == match self {
                Operators::Addition => '+',
                Operators::Multiplication => '*',
            },
    {
        match self {
            Operators::Addition => '+',
            Operators::Multiplication => '*',
        }
    }
}

/// The value of the first number combined with the next `k` numbers under
/// the first `k` operators, evaluated left to right.
pub open spec fn eval_upto(nums: Seq<u64>, ops: Seq<Operators>, k: int) -> int
    decreases k,
{
    if k <= 0 {
        nums[0] as int
    } else {
        match ops[k - 1] {
            Operators::Addition => eval_upto(nums, ops, k - 1) + nums[k],
            Operators::Multiplication => eval_upto(nums, ops, k - 1) * nums[k],
        }
    }
}

/// How many combination steps an equation takes: every number after the
/// first, as far as the operators reach.
pub open spec fn eq_steps(e: Equation) -> int {
    if e.numbers@.len() - 1 <= e.operators@.len() {
        e.numbers@.len() - 1
    } else {
        e.operators@.len() as int
    }
}

/// The value the equation's numbers evaluate to under its operators.
pub open spec fn eq_result(e: Equation) -> int {
    eval_upto(e.numbers@, e.operators@, eq_steps(e))
}

/// The equation holds: its numbers evaluate to its target.
pub open spec fn eq_valid(e: Equation) -> bool {
    eq_result(e) == e.value
}

/// Every intermediate value of the evaluation fits in a machine word.
pub open spec fn evals_fit(nums: Seq<u64>, ops: Seq<Operators>, s: int) -> bool {
    forall|k: int| 0 <= k <= s ==> #[trigger] eval_upto(nums, ops, k) <= u64::MAX
}

/// The whole equation evaluates within machine words.
pub open spec fn eq_fits(e: Equation) -> bool {
    &&& 0 < e.numbers@.len()
    &&& evals_fit(e.numbers@, e.operators@, eq_steps(e))
}

proof fn lemma_eval_nonneg(nums: Seq<u64>, ops: Seq<Operators>, k: int)
    ensures
        0 <= eval_upto(nums, ops, k),
    decreases k,
{
    if k > 0 {
        lemma_eval_nonneg(nums, ops, k - 1);
        if ops[k - 1] == Operators::Multiplication {
            assert(0 <= eval_upto(nums, ops, k - 1) * nums[k]) by (nonlinear_arith)
                requires
                    0 <= eval_upto(nums, ops, k - 1),
                    0 <= nums[k],
            ;
        }
    }
}

impl Equation {
    /// A fresh, unchecked equation.
    pub fn new(value: u64, numbers: Vec<u64>, operators: Vec<Operators>) -> (e: Equation)
        ensures
            e.value == value,
            e.numbers@ == numbers@,
            e.operators@ == operators@,
            e.valid == Validity::Unchecked,
    {
        Equation { value, numbers, operators, valid: Validity::Unchecked }
    }

    /// Evaluate the equation left to right and compare against the target.
    pub fn check_valid(&self) -> (r: bool)
        requires
            eq_fits(*self),
        ensures
            r == eq_valid(*self),
    {
        let n = self.numbers.len();
        let m = self.operators.len();
        let steps = if n - 1 <= m {
            n - 1
        } else {
            m
        };
        let mut result: u64 = self.numbers[0];
        let mut k: usize = 0;
        while k < steps
            invariant
                eq_fits(*self),
                n == self.numbers@.len(),
                m == self.operators@.len(),
                steps == eq_steps(*self),
                k <= steps,
                result as int == eval_upto(self.numbers@, self.operators@, k as int),
            decreases steps - k,
        {
            proof {
                lemma_eval_nonneg(self.numbers@, self.operators@, k as int + 1);
                assert(eval_upto(self.numbers@, self.operators@, k as int + 1) <= u64::MAX);
            }
            match self.operators[k] {
                Operators::Addition => {
                    result = result + self.numbers[k + 1];
                },
                Operators::Multiplication => {
                    result = result * self.numbers[k + 1];
                },
            }
            k = k + 1;
        }
        result == self.value
    }
}

/// The views of the operator combinations.
pub open spec fn combo_views(cs: Seq<Vec<Operators>>) -> Seq<Seq<Operators>> {
    cs.map_values(|c: Vec<Operators>| c@)
}

/// One single-operator combination for each of the first `t` operators.
pub open spec fn singletons(ops: Seq<Operators>, t: int) -> Seq<Seq<Operators>>
    decreases t,
{
    if t <= 0 {
        Seq::empty()
    } else {
        singletons(ops, t - 1).push(seq![ops[t - 1]])
    }
}

/// The combination `c` extended by each of the first `t` operators in turn.
pub open spec fn append_each(c: Seq<Operators>, ops: Seq<Operators>, t: int) -> Seq<
    Seq<Operators>,
>
    decreases t,
{
    if t <= 0 {
        Seq::empty()
    } else {
        append_each(c, ops, t - 1).push(c.push(ops[t - 1]))
    }
}

/// Every one of the first `k` combinations extended by every operator.
pub open spec fn cross_upto(cs: Seq<Seq<Operators>>, ops: Seq<Operators>, k: int) -> Seq<
    Seq<Operators>,
>
    decreases k,
{
    if k <= 0 {
        Seq::empty()
    } else {
        cross_upto(cs, ops, k - 1) + append_each(cs[k - 1], ops, ops.len() as int)
    }
}

/// One growth step of the combination list: from nothing, one combination
/// per operator; otherwise every combination extended by every operator.
pub open spec fn step_combos(cs: Seq<Seq<Operators>>, ops: Seq<Operators>) -> Seq<
    Seq<Operators>,
> {
    if cs.len() == 0 {
        singletons(ops, ops.len() as int)
    } else {
        cross_upto(cs, ops, cs.len() as int)
    }
}

/// The operator combinations after `n` growth steps: all length-`n`
/// sequences over the operators, ordered combination-first.
pub open spec fn gen_combos(ops: Seq<Operators>, n: nat) -> Seq<Seq<Operators>>
    decreases n,
{
    if n == 0 {
        Seq::empty()
    } else {
        step_combos(gen_combos(ops, (n - 1) as nat), ops)
    }
}

/// Copy a vector of operators.
fn copy_ops(c: &Vec<Operators>) -> (r: Vec<Operators>)
    ensures
        r@ == c@,
{
    let mut r: Vec<Operators> = Vec::new();
    let mut q: usize = 0;
    while q < c.len()
        invariant
            q <= c@.len(),
            r@ == c@.subrange(0, q as int),
        decreases c@.len() - q,
    {
        r.push(c[q]);
        proof {
            assert(r@ =~= c@.subrange(0, q as int + 1));
        }
        q = q + 1;
    }
    proof {
        assert(r@ =~= c@);
    }
    r
}

/// Copy a vector of numbers.
fn copy_nums(c: &Vec<u64>) -> (r: Vec<u64>)
    ensures
        r@ == c@,
{
    let mut r: Vec<u64> = Vec::new();
    let mut q: usize = 0;
    while q < c.len()
        invariant
            q <= c@.len(),
            r@ == c@.subrange(0, q as int),
        decreases c@.len() - q,
    {
        r.push(c[q]);
        proof {
            assert(r@ =~= c@.subrange(0, q as int + 1));
        }
        q = q + 1;
    }
    proof {
        assert(r@ =~= c@);
    }
    r
}

/// Pushing one combination pushes its view.
proof fn lemma_views_push(v1: Seq<Vec<Operators>>, v2: Seq<Vec<Operators>>, cv: Seq<Operators>)
    requires
        v2.len() == v1.len() + 1,
        forall|i: int| 0 <= i < v1.len() ==> v2[i] == v1[i],
        v2[v1.len() as int]@ == cv,
    ensures
        combo_views(v2) == combo_views(v1).push(cv),
{
    assert(combo_views(v2) =~= combo_views(v1).push(cv));
}

/// Pushing onto a concatenation pushes onto its second half.
proof fn lemma_concat_push(a: Seq<Seq<Operators>>, b: Seq<Seq<Operators>>, x: Seq<Operators>)
    ensures
        (a + b).push(x) == a + b.push(x),
{
    assert((a + b).push(x) =~= a + b.push(x));
}

/// Grow the combination list one step: from nothing, one combination per
/// operator; otherwise each combination extended by each operator, keeping
/// combination order.
pub fn get_operator_combos(combo_of_operators: Vec<Vec<Operators>>, operators: &[Operators]) -> (r:
    Vec<Vec<Operators>>)
    ensures
        combo_views(r@) == step_combos(combo_views(combo_of_operators@), operators@),
{
    if combo_of_operators.len() == 0 {
        let mut result: Vec<Vec<Operators>> = Vec::new();
        let mut q: usize = 0;
        while q < operators.len()
            invariant
                q <= operators@.len(),
                combo_views(result@) == singletons(operators@, q as int),
            decreases operators@.len() - q,
        {
            let single = vec![operators[q]];
            proof {
                assert(single@ =~= seq![operators@[q as int]]);
            }
            result.push(single);
            proof {
                assert(combo_views(result@) =~~= singletons(operators@, q as int + 1));
            }
            q = q + 1;
        }
        return result;
    }
    let mut result: Vec<Vec<Operators>> = Vec::new();
    let mut k: usize = 0;
    while k < combo_of_operators.len()
        invariant
            k <= combo_of_operators@.len(),
            combo_views(result@) == cross_upto(
                combo_views(combo_of_operators@),
                operators@,
                k as int,
            ),
        decreases combo_of_operators@.len() - k,
    {
        let combo = &combo_of_operators[k];
        let mut q: usize = 0;
        while q < operators.len()
            invariant
                k < combo_of_operators@.len(),
                combo == &combo_of_operators@[k as int],
                q <= operators@.len(),
                combo_views(result@) == cross_upto(
                    combo_views(combo_of_operators@),
                    operators@,
                    k as int,
                ) + append_each(combo@, operators@, q as int),
            decreases operators@.len() - q,
        {
            let ghost cbv = combo@;
            let ghost t1 = cross_upto(combo_views(combo_of_operators@), operators@, k as int);
            let mut c = copy_ops(combo);
            c.push(operators[q]);
            let ghost cv = c@;
            let ghost pre = result@;
            result.push(c);
            proof {
                assert(cv == cbv.push(operators@[q as int]));
                lemma_views_push(pre, result@, cv);
                assert(combo_views(pre) == t1 + append_each(cbv, operators@, q as int));
                lemma_concat_push(t1, append_each(cbv, operators@, q as int), cv);
                assert(append_each(cbv, operators@, q as int + 1) == append_each(
                    cbv,
                    operators@,
                    q as int,
                ).push(cbv.push(operators@[q as int])));
                assert(combo_views(result@) == t1 + append_each(cbv, operators@, q as int + 1));
            }
            q = q + 1;
        }
        proof {
            assert(combo@ == combo_views(combo_of_operators@)[k as int]);
            assert(combo_views(result@) =~~= cross_upto(
                combo_views(combo_of_operators@),
                operators@,
                k as int + 1,
            ));
        }
        k = k + 1;
    }
    result
}

/// Build one candidate equation for every combination of operators over the
/// numbers: as many operators per combination as there are gaps between
/// numbers.
pub fn get_all_equations(value: u64, numbers: Vec<u64>, all_operators: &[Operators]) -> (r: Vec<
    Equation,
>)
    requires
        0 < numbers@.len(),
    ensures
        r@.len() == gen_combos(all_operators@, (numbers@.len() - 1) as nat).len(),
        forall|k: int|
            0 <= k < r@.len() ==> {
                &&& (#[trigger] r@[k]).value == value
                &&& r@[k].numbers@ == numbers@
                &&& r@[k].operators@ == gen_combos(
                    all_operators@,
                    (numbers@.len() - 1) as nat,
                )[k]
                &&& r@[k].valid == Validity::Unchecked
            },
{
    let l = numbers.len();
    let mut operator_combos: Vec<Vec<Operators>> = Vec::new();
    let mut it: usize = 0;
    proof {
        assert(combo_views(operator_combos@) =~= gen_combos(all_operators@, 0));
    }
    while it < l - 1
        invariant
            0 < l == numbers@.len(),
            it <= l - 1,
            combo_views(operator_combos@) == gen_combos(all_operators@, it as nat),
        decreases l - 1 - it,
    {
        operator_combos = get_operator_combos(operator_combos, all_operators);
        it = it + 1;
    }
    let mut equations: Vec<Equation> = Vec::new();
    let mut k: usize = 0;
    while k < operator_combos.len()
        invariant
            0 < numbers@.len(),
            combo_views(operator_combos@) == gen_combos(
                all_operators@,
                (numbers@.len() - 1) as nat,
            ),
            k <= operator_combos@.len(),
            equations@.len() == k,
            forall|q: int|
                0 <= q < k ==> {
                    &&& (#[trigger] equations@[q]).value == value
                    &&& equations@[q].numbers@ == numbers@
                    &&& equations@[q].operators@ == gen_combos(
                        all_operators@,
                        (numbers@.len() - 1) as nat,
                    )[q]
                    &&& equations@[q].valid == Validity::Unchecked
                },
        decreases operator_combos@.len() - k,
    {
        let nums = copy_nums(&numbers);
        let ops = copy_ops(&operator_combos[k]);
        proof {
            assert(operator_combos@[k as int]@ == combo_views(operator_combos@)[k as int]);
        }
        equations.push(Equation::new(value, nums, ops));
        k = k + 1;
    }
    equations
}

/// Whether some equation of the set holds.
fn set_has_valid(equation_set: &Vec<Equation>) -> (r: bool)
    requires
        forall|k: int| 0 <= k < equation_set@.len() ==> eq_fits(#[trigger] equation_set@[k]),
    ensures
        r == exists|k: int| 0 <= k < equation_set@.len() && eq_valid(#[trigger] equation_set@[k]),
{
    let mut k: usize = 0;
    while k < equation_set.len()
        invariant
            forall|q: int| 0 <= q < equation_set@.len() ==> eq_fits(#[trigger] equation_set@[q]),
            k <= equation_set@.len(),
            forall|q: int| 0 <= q < k ==> !eq_valid(#[trigger] equation_set@[q]),
        decreases equation_set@.len() - k,
    {
        if equation_set[k].check_valid() {
            return true;
        }
        k = k + 1;
    }
    false
}

/// Whether some combination of operators makes the equation set's numbers
/// meet the target: the set holds one equation per combination.
pub fn check_equation_set(equation_set: Vec<Equation>) -> (r: bool)
    requires
        forall|k: int| 0 <= k < equation_set@.len() ==> eq_fits(#[trigger] equation_set@[k]),
    ensures
        r == exists|k: int| 0 <= k < equation_set@.len() && eq_valid(#[trigger] equation_set@[k]),
{
    set_has_valid(&equation_set)
}

/// The score of one equation set: the shared target if some equation of the
/// set holds, zero otherwise.
pub open spec fn set_score(s: Seq<Equation>) -> int {
    if exists|k: int| 0 <= k < s.len() && eq_valid(#[trigger] s[k]) {
        s[0].value as int
    } else {
        0
    }
}

/// The scores of the first `k` equation sets, summed.
pub open spec fn total_valid_upto(sets: Seq<Vec<Equation>>, k: int) -> int
    decreases k,
{
    if k <= 0 {
        0
    } else {
        total_valid_upto(sets, k - 1) + set_score(sets[k - 1]@)
    }
}

proof fn lemma_total_valid_mono(sets: Seq<Vec<Equation>>, k1: int, k2: int)
    requires
        0 <= k1 <= k2,
        forall|k: int|
            0 <= k < sets.len() ==> 0 <= #[trigger] set_score(sets[k]@),
    ensures
        total_valid_upto(sets, k1) <= total_valid_upto(sets, k2),
    decreases k2 - k1,
{
    if k1 < k2 {
        lemma_total_valid_mono(sets, k1, k2 - 1);
    }
}

/// Sum, over the equation sets, the target of each set that some operator
/// combination satisfies.
pub fn get_total_sum_of_valid_equations(equation_sets: Vec<Vec<Equation>>) -> (total: u64)
    requires
        forall|s: int, k: int|
            0 <= s < equation_sets@.len() && 0 <= k < equation_sets@[s]@.len() ==> eq_fits(
                #[trigger] equation_sets@[s]@[k],
            ),
        total_valid_upto(equation_sets@, equation_sets@.len() as int) <= u64::MAX,
    ensures
        total as int == total_valid_upto(equation_sets@, equation_sets@.len() as int),
{
    let mut total: u64 = 0;
    let mut s: usize = 0;
    while s < equation_sets.len()
        invariant
            forall|q: int, k: int|
                0 <= q < equation_sets@.len() && 0 <= k < equation_sets@[q]@.len() ==> eq_fits(
                    #[trigger] equation_sets@[q]@[k],
                ),
            total_valid_upto(equation_sets@, equation_sets@.len() as int) <= u64::MAX,
            s <= equation_sets@.len(),
            total as int == total_valid_upto(equation_sets@, s as int),
        decreases equation_sets@.len() - s,
    {
        proof {
            assert forall|k: int|
                0 <= k < equation_sets@.len() implies 0 <= #[trigger] set_score(
                equation_sets@[k]@,
            ) by {}
            lemma_total_valid_mono(equation_sets@, s as int + 1, equation_sets@.len() as int);
            lemma_total_valid_mono(equation_sets@, 0, s as int);
        }
        let set = &equation_sets[s];
        if set_has_valid(set) {
            let val = set[0].value;
            total = total + val;
        }
        s = s + 1;
    }
    total
}

} // verus!
