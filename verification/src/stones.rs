//! Stone blinking: a line of engraved stones evolves step by step.
//!
//! On each blink a stone with value zero becomes a one; a stone with an
//! even number of decimal digits splits into its upper and lower halves;
//! any other stone has its value multiplied by 2024.  The interesting
//! quantity is how many stones a stone becomes after a number of blinks,
//! which a memo table keyed by value and blink count makes cheap.

use vstd::prelude::*;

verus! {

/// A stone with an integer carved on it.
#[derive(Debug, Eq, Hash, PartialEq, Clone)]
pub struct Stone(pub u64);

/// How many decimal digits a value has (one digit for zero).
pub open spec fn digit_count(v: nat) -> nat
    decreases v,
{
    if v < 10 {
        1
    } else {
        1 + digit_count(v / 10)
    }
}

/// Ten to the power `e`.
pub open spec fn pow10(e: nat) -> nat
    decreases e,
{
    if e == 0 {
        1
    } else {
        10 * pow10((e - 1) as nat)
    }
}

/// The stone's value has an even number of digits (zero does not count).
pub open spec fn spec_even_digits(v: nat) -> bool {
    v >= 1 && digit_count(v) % 2 == 0
}

/// The divisor that splits a value into its digit halves.
pub open spec fn split_denom(v: nat) -> nat {
    pow10(digit_count(v) / 2)
}

/// The two digit halves of a value, upper half first.
pub open spec fn spec_halves(v: nat) -> Seq<nat> {
    seq![v / split_denom(v), v % split_denom(v)]
}

/// The values a stone becomes on one blink: a one for a zero, the two digit
/// halves (upper half first) for an even digit count, 2024 times the value
/// otherwise.
pub open spec fn spec_blink(v: nat) -> Seq<nat> {
    if v == 0 {
        seq![1nat]
    } else if spec_even_digits(v) {
        spec_halves(v)
    } else {
        seq![v * 2024]
    }
}

/// How many stones a single stone becomes after `n` blinks.
pub open spec fn count_stones(v: nat, n: nat) -> nat
    decreases n,
{
    if n == 0 {
        1
    } else if v == 0 {
        count_stones(1, (n - 1) as nat)
    } else if spec_even_digits(v) {
        count_stones(v / split_denom(v), (n - 1) as nat) + count_stones(
            v % split_denom(v),
            (n - 1) as nat,
        )
    } else {
        count_stones(v * 2024, (n - 1) as nat)
    }
}

/// Every stone value that appears within `n` blinks of `v` fits in a
/// machine word.
pub open spec fn blinkable(v: nat, n: nat) -> bool
    decreases n,
{
    n == 0 || {
        if v == 0 {
            blinkable(1, (n - 1) as nat)
        } else if spec_even_digits(v) {
            blinkable(v / split_denom(v), (n - 1) as nat) && blinkable(
                v % split_denom(v),
                (n - 1) as nat,
            )
        } else {
            v * 2024 <= u64::MAX && blinkable(v * 2024, (n - 1) as nat)
        }
    }
}

/// How many stones the first `k` stones of a line become after `n` blinks.
pub open spec fn count_line(s: Seq<Stone>, n: nat, k: int) -> nat
    decreases k,
{
    if k <= 0 {
        0
    } else {
        count_line(s, n, k - 1) + count_stones(s[k - 1].0 as nat, n)
    }
}

/// A memo of already-computed stone counts: each entry records a value, a
/// blink count, and how many stones that value becomes after that many
/// blinks.
#[derive(Debug, PartialEq)]
pub struct StoneMemo {
    pub entries: Vec<(u64, usize, u64)>,
}

impl StoneMemo {
    /// Every entry of the memo is a true stone count.
    pub open spec fn wf(self) -> bool {
        forall|k: int|
            0 <= k < self.entries@.len() ==> (#[trigger] self.entries@[k]).2 as nat
                == count_stones(self.entries@[k].0 as nat, self.entries@[k].1 as nat)
    }

    /// An empty memo.
    pub fn new() -> (m: StoneMemo)
        ensures
            m.wf(),
            m.entries@.len() == 0,
    {
        StoneMemo { entries: Vec::new() }
    }

    /// Look the pair up.
    fn lookup(&self, v: u64, n: usize) -> (r: Option<u64>)
        requires
            self.wf(),
        ensures
            r is Some ==> r->Some_0 as nat == count_stones(v as nat, n as nat),
    {
        let mut k: usize = 0;
        while k < self.entries.len()
            invariant
                self.wf(),
                k <= self.entries@.len(),
            decreases self.entries@.len() - k,
        {
            let e = self.entries[k];
            if e.0 == v && e.1 == n {
                return Some(e.2);
            }
            k = k + 1;
        }
        None
    }
}

/// A line of stones, which evolves on each blink, and the memo the counting
/// builds up.
#[derive(Debug, PartialEq)]
pub struct Line {
    pub line: Vec<Stone>,
    pub memo: StoneMemo,
}

impl Line {
    /// A fresh line of stones with the given values and an empty memo.
    pub fn new(stones: Vec<u64>) -> (l: Line)
        ensures
            l.line@.len() == stones@.len(),
            forall|k: int| 0 <= k < stones@.len() ==> (#[trigger] l.line@[k]).0 == stones@[k],
            l.memo.wf(),
            l.memo.entries@.len() == 0,
    {
        let mut line: Vec<Stone> = Vec::new();
        let mut k: usize = 0;
        while k < stones.len()
            invariant
                k <= stones@.len(),
                line@.len() == k,
                forall|q: int| 0 <= q < k ==> (#[trigger] line@[q]).0 == stones@[q],
            decreases stones@.len() - k,
        {
            line.push(Stone(stones[k]));
            k = k + 1;
        }
        Line { line, memo: StoneMemo::new() }
    }
}

impl Stone {
    /// How many decimal digits the value has; the value must be positive.
    fn count_digits(v: u64) -> (d: u64)
        requires
            1 <= v,
        ensures
            d as nat == digit_count(v as nat),
            d <= 20,
    {
        proof {
            lemma_digit_count_le_20(v as nat);
        }
        let mut d: u64 = 0;
        let mut x: u64 = v;
        while x > 0
            invariant
                d as nat + (if x >= 1 {
                    digit_count(x as nat)
                } else {
                    0
                }) == digit_count(v as nat),
                digit_count(v as nat) <= 20,
            decreases x,
        {
            x = x / 10;
            d = d + 1;
        }
        d
    }

    /// Raise ten to the power `e`; the result must fit in a machine word.
    fn pow10_exec(e: u64) -> (r: u64)
        requires
            pow10(e as nat) <= u64::MAX,
        ensures
            r as nat == pow10(e as nat),
            1 <= r,
    {
        let mut r: u64 = 1;
        let mut k: u64 = 0;
        proof {
            lemma_pow10_mono(0, e as nat);
        }
        while k < e
            invariant
                k <= e,
                r as nat == pow10(k as nat),
                pow10(e as nat) <= u64::MAX,
            decreases e - k,
        {
            proof {
                lemma_pow10_mono((k + 1) as nat, e as nat);
            }
            r = r * 10;
            k = k + 1;
        }
        r
    }

    /// The value has an even number of digits; a zero does not.
    pub fn is_even_digits(&self) -> (r: bool)
        ensures
            r == spec_even_digits(self.0 as nat),
    {
        if self.0 < 1 {
            return false;
        }
        let digits = Self::count_digits(self.0);
        digits % 2 == 0
    }

    /// Split the value into its upper and lower digit halves, upper first.
    pub fn split(&self) -> (r: Vec<Stone>)
        requires
            1 <= self.0,
        ensures
            r@.len() == 2,
            r@[0].0 as nat == self.0 as nat / split_denom(self.0 as nat),
            r@[1].0 as nat == self.0 as nat % split_denom(self.0 as nat),
    {
        let digits = Self::count_digits(self.0);
        proof {
            lemma_split_denom_pos(self.0 as nat);
            lemma_pow10_mono((digits / 2) as nat, 10);
            lemma_pow10_ten();
        }
        let denom = Self::pow10_exec(digits / 2);
        let first_set = self.0 % denom;
        let second_set = self.0 / denom;
        proof {
            assert(self.0 as nat / denom as nat == self.0 as int / denom as int);
            assert(self.0 as nat % denom as nat == self.0 as int % denom as int);
        }
        vec![Stone(second_set), Stone(first_set)]
    }

    /// One blink of the stone: the values it becomes, in order.
    pub fn blink(&self) -> (r: Vec<Stone>)
        requires
            spec_blink(self.0 as nat).len() == 1 ==> spec_blink(self.0 as nat)[0] <= u64::MAX,
        ensures
            r@.len() == spec_blink(self.0 as nat).len(),
            forall|k: int|
                0 <= k < r@.len() ==> (#[trigger] r@[k]).0 as nat == spec_blink(self.0 as nat)[k],
    {
        if self.0 == 0 {
            vec![Stone(1)]
        } else if self.is_even_digits() {
            self.split()
        } else {
            vec![Stone(self.0 * 2024)]
        }
    }
}

/// The splitting divisor is a positive power of ten.
proof fn lemma_split_denom_pos(v: nat)
    ensures
        1 <= split_denom(v),
{
    lemma_pow10_mono(0, digit_count(v) / 2);
}

proof fn lemma_pow10_mono(a: nat, b: nat)
    requires
        a <= b,
    ensures
        pow10(a) <= pow10(b),
    decreases b,
{
    if a < b {
        lemma_pow10_mono(a, (b - 1) as nat);
    }
}

proof fn lemma_pow10_ten()
    ensures
        pow10(10) == 10000000000,
        pow10(20) > u64::MAX,
{
    assert(pow10(0) == 1);
    assert(pow10(1) == 10);
    assert(pow10(2) == 100);
    assert(pow10(3) == 1000);
    assert(pow10(4) == 10000);
    assert(pow10(5) == 100000);
    assert(pow10(6) == 1000000);
    assert(pow10(7) == 10000000);
    assert(pow10(8) == 100000000);
    assert(pow10(9) == 1000000000);
    assert(pow10(10) == 10000000000);
    assert(pow10(11) == 100000000000);
    assert(pow10(12) == 1000000000000);
    assert(pow10(13) == 10000000000000);
    assert(pow10(14) == 100000000000000);
    assert(pow10(15) == 1000000000000000);
    assert(pow10(16) == 10000000000000000);
    assert(pow10(17) == 100000000000000000);
    assert(pow10(18) == 1000000000000000000);
    assert(pow10(19) == 10000000000000000000);
    assert(pow10(20) == 100000000000000000000);
}

/// A value below ten to the `k` has at most `k` digits.
proof fn lemma_digit_count_below(v: nat, k: nat)
    requires
        1 <= k,
        v < pow10(k),
    ensures
        digit_count(v) <= k,
    decreases k,
{
    if v >= 10 {
        assert(v / 10 < pow10((k - 1) as nat)) by (nonlinear_arith)
            requires
                v < pow10(k),
                pow10(k) == 10 * pow10((k - 1) as nat),
                10 <= v,
        ;
        lemma_digit_count_below(v / 10, (k - 1) as nat);
    }
}

/// A machine word has at most twenty digits.
proof fn lemma_digit_count_le_20(v: nat)
    requires
        v <= u64::MAX,
    ensures
        digit_count(v) <= 20,
{
    lemma_pow10_ten();
    lemma_digit_count_below(v, 20);
}

/// How many stones a stone becomes after `n` blinks, looked up in the memo
/// or computed recursively and recorded.
pub fn blink_n(stone: Stone, n: usize, memo: &mut StoneMemo) -> (count: u64)
    requires
        old(memo).wf(),
        blinkable(stone.0 as nat, n as nat),
        count_stones(stone.0 as nat, n as nat) <= u64::MAX,
    ensures
        final(memo).wf(),
        count as nat == count_stones(stone.0 as nat, n as nat),
    decreases n,
{
    if n == 0 {
        return 1;
    }
    if let Some(cached) = memo.lookup(stone.0, n) {
        return cached;
    }
    proof {
        let v = stone.0 as nat;
        let m = (n - 1) as nat;
        if v == 0 {
            assert(spec_blink(v) =~= seq![1nat]);
            assert(blinkable(1, m));
            assert(count_stones(v, n as nat) == count_stones(1, m));
        } else if spec_even_digits(v) {
            lemma_split_denom_pos(v);
            assert(spec_blink(v) =~= seq![v / split_denom(v), v % split_denom(v)]);
            assert(blinkable(v / split_denom(v), m));
            assert(blinkable(v % split_denom(v), m));
            assert(count_stones(v, n as nat) == count_stones(v / split_denom(v), m)
                + count_stones(v % split_denom(v), m));
        } else {
            assert(spec_blink(v) =~= seq![v * 2024]);
            assert(v * 2024 <= u64::MAX);
            assert(blinkable(v * 2024, m));
            assert(count_stones(v, n as nat) == count_stones(v * 2024, m));
        }
    }
    let stones = stone.blink();
    let result: u64 = if stones.len() == 1 {
        blink_n(Stone(stones[0].0), n - 1, memo)
    } else {
        let a = blink_n(Stone(stones[0].0), n - 1, memo);
        let b = blink_n(Stone(stones[1].0), n - 1, memo);
        a + b
    };
    memo.entries.push((stone.0, n, result));
    result
}

/// How many stones a whole line becomes after `n` blinks: the counts of its
/// stones, summed.
pub fn blink_stones_n(stones: Vec<Stone>, n: usize, memo: &mut StoneMemo) -> (total: u64)
    requires
        old(memo).wf(),
        forall|k: int|
            0 <= k < stones@.len() ==> blinkable((#[trigger] stones@[k]).0 as nat, n as nat),
        count_line(stones@, n as nat, stones@.len() as int) <= u64::MAX,
    ensures
        final(memo).wf(),
        total as nat == count_line(stones@, n as nat, stones@.len() as int),
{
    let mut total: u64 = 0;
    let mut k: usize = 0;
    while k < stones.len()
        invariant
            memo.wf(),
            forall|q: int|
                0 <= q < stones@.len() ==> blinkable((#[trigger] stones@[q]).0 as nat, n as nat),
            count_line(stones@, n as nat, stones@.len() as int) <= u64::MAX,
            k <= stones@.len(),
            total as nat == count_line(stones@, n as nat, k as int),
        decreases stones@.len() - k,
    {
        proof {
            lemma_count_line_mono(stones@, n as nat, k + 1, stones@.len() as int);
        }
        let c = blink_n(Stone(stones[k].0), n, memo);
        total = total + c;
        k = k + 1;
    }
    total
}

proof fn lemma_count_line_mono(s: Seq<Stone>, n: nat, k1: int, k2: int)
    requires
        0 <= k1 <= k2,
    ensures
        count_line(s, n, k1) <= count_line(s, n, k2),
    decreases k2 - k1,
{
    if k1 < k2 {
        lemma_count_line_mono(s, n, k1, k2 - 1);
    }
}

} // verus!

