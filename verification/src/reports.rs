//! Report safety: a report is a line of levels, safe when the levels are
//! strictly monotone with steps of one to three.
//!
//! The damped check tolerates one bad level: it retries with the first
//! offending position removed, and, when the offense sits near the start,
//! with each earlier position removed as well.

use vstd::prelude::*;

verus! {

/// The step from level `i - 1` to level `i`.
pub open spec fn level_delta(s: Seq<u8>, i: int) -> int {
    s[i] - s[i - 1]
}

/// The step into position `i` breaks the rules: its size is outside one to
/// three, or it reverses the direction of the step before it.
pub open spec fn bad_at(s: Seq<u8>, i: int) -> bool {
    ||| level_delta(s, i) < -3
    ||| level_delta(s, i) > 3
    ||| level_delta(s, i) == 0
    ||| (i > 1 && level_delta(s, i) * level_delta(s, i - 1) < 0)
}

/// A report is safe when no step breaks the rules.
pub open spec fn is_safe(s: Seq<u8>) -> bool {
    forall|i: int| 1 <= i < s.len() ==> !bad_at(s, i)
}

/// The first position whose step breaks the rules, or minus one.
pub open spec fn first_bad_from(s: Seq<u8>, i: int) -> int
    decreases s.len() - i,
{
    if i < 1 || i >= s.len() {
        -1
    } else if bad_at(s, i) {
        i
    } else {
        first_bad_from(s, i + 1)
    }
}

/// The report with the level at position `k` removed.
pub open spec fn remove_level(s: Seq<u8>, k: int) -> Seq<u8> {
    s.subrange(0, k) + s.subrange(k + 1, s.len() as int)
}

/// The damped check passes: the report is safe as it stands, or becomes
/// safe when the first offending position is removed, or — when the offense
/// sits within the first three positions — when some earlier position is
/// removed instead.
pub open spec fn damp_ok(s: Seq<u8>) -> bool {
    let fb = first_bad_from(s, 1);
    ||| fb == -1
    ||| first_bad_from(remove_level(s, fb), 1) == -1
    ||| (fb < 3 && exists|k: int|
        0 <= k < fb && first_bad_from(remove_level(s, k), 1) == -1)
}

/// The first bad position comes after a clean prefix.
proof fn lemma_first_bad_spec(s: Seq<u8>, i: int, r: int)
    requires
        1 <= i,
        r == first_bad_from(s, i),
    ensures
        r == -1 ==> forall|q: int| i <= q < s.len() ==> !bad_at(s, q),
        r != -1 ==> i <= r < s.len() && bad_at(s, r) && forall|q: int|
            i <= q < r ==> !bad_at(s, q),
    decreases s.len() - i,
{
    if 1 <= i && i < s.len() && !bad_at(s, i) {
        lemma_first_bad_spec(s, i + 1, first_bad_from(s, i + 1));
    }
}

/// Walk the report and return the first position whose step breaks the
/// rules, or minus one for a safe report.
pub fn check_safety_with_pos(input: &[u8]) -> (r: i8)
    requires
        input@.len() <= 127,
        forall|k: int| 0 <= k < input@.len() ==> (#[trigger] input@[k]) <= 127,
    ensures
        r as int == first_bad_from(input@, 1),
        (r == -1) == is_safe(input@),
{
    let l = input.len();
    let mut prev_delta: i8 = 0;
    let mut i: usize = 1;
    proof {
        lemma_first_bad_spec(input@, 1, first_bad_from(input@, 1));
    }
    while i < l
        invariant
            l == input@.len(),
            l <= 127,
            forall|k: int| 0 <= k < input@.len() ==> (#[trigger] input@[k]) <= 127,
            1 <= i,
            i <= l || (l <= 1 && i == 1),
            forall|q: int| 1 <= q < i ==> !bad_at(input@, q),
            i > 1 ==> prev_delta as int == level_delta(input@, i - 1),
            first_bad_from(input@, 1) == first_bad_from(input@, i as int),
        decreases l - i,
    {
        let delta: i8 = (input[i] as i8) - (input[i - 1] as i8);
        proof {
            assert(delta as int == level_delta(input@, i as int));
        }
        if delta > 3 || delta < -3 || delta == 0 {
            return i as i8;
        }
        if i > 1 && ((delta < 0) != (prev_delta < 0)) {
            proof {
                assert(!bad_at(input@, i as int - 1));
                assert(level_delta(input@, i as int) * level_delta(input@, i as int - 1) < 0)
                    by (nonlinear_arith)
                    requires
                        level_delta(input@, i as int) == delta as int,
                        level_delta(input@, i as int - 1) == prev_delta as int,
                        ((delta as int) < 0) != ((prev_delta as int) < 0),
                        (delta as int) != 0,
                        (prev_delta as int) != 0,
                ;
            }
            return i as i8;
        }
        proof {
            if i > 1 {
                assert(!bad_at(input@, i as int - 1));
                assert(!(level_delta(input@, i as int) * level_delta(input@, i as int - 1) < 0))
                    by (nonlinear_arith)
                    requires
                        level_delta(input@, i as int) == delta as int,
                        level_delta(input@, i as int - 1) == prev_delta as int,
                        ((delta as int) < 0) == ((prev_delta as int) < 0),
                        (delta as int) != 0,
                        (prev_delta as int) != 0,
                ;
            }
            assert(!bad_at(input@, i as int));
        }
        prev_delta = delta;
        i = i + 1;
    }
    -1
}

/// Whether the report is safe: strictly monotone with steps of one to
/// three.
pub fn check_safety(input: Vec<u8>) -> (r: bool)
    requires
        input@.len() <= 127,
        forall|k: int| 0 <= k < input@.len() ==> (#[trigger] input@[k]) <= 127,
    ensures
        r == is_safe(input@),
{
    check_safety_with_pos(input.as_slice()) == -1
}

/// The report with the level at position `k` left out.
fn remove_level_exec(input: &[u8], k: usize) -> (r: Vec<u8>)
    requires
        k < input@.len(),
    ensures
        r@ == remove_level(input@, k as int),
{
    let mut r: Vec<u8> = Vec::new();
    let mut q: usize = 0;
    while q < input.len()
        invariant
            k < input@.len(),
            q <= input@.len(),
            r@ == if q <= k {
                input@.subrange(0, q as int)
            } else {
                remove_level(input@, k as int).subrange(0, q as int - 1)
            },
        decreases input@.len() - q,
    {
        if q != k {
            r.push(input[q]);
        }
        proof {
            if q + 1 <= k {
                assert(r@ =~= input@.subrange(0, q as int + 1));
            } else {
                assert(r@ =~= remove_level(input@, k as int).subrange(0, q as int));
            }
        }
        q = q + 1;
    }
    proof {
        assert(r@ =~= remove_level(input@, k as int));
    }
    r
}

/// Whether the report passes with at most one level forgiven: retry with
/// the first offending position removed, and, when the offense sits within
/// the first three positions, with each earlier position removed in turn.
pub fn check_safety_dampner(input: &[u8]) -> (r: bool)
    requires
        input@.len() <= 127,
        forall|k: int| 0 <= k < input@.len() ==> (#[trigger] input@[k]) <= 127,
    ensures
        r == damp_ok(input@),
{
    let first_try = check_safety_with_pos(input);
    if first_try == -1 {
        return true;
    }
    let fb = first_try as usize;
    proof {
        lemma_first_bad_spec(input@, 1, first_try as int);
        lemma_remove_keeps_bounds(input@, fb as int);
    }
    let second_input = remove_level_exec(input, fb);
    let second_try = check_safety_with_pos(second_input.as_slice());
    if second_try == -1 {
        return true;
    }
    let mut k: usize = fb;
    while k > 0
        invariant
            input@.len() <= 127,
            forall|q: int| 0 <= q < input@.len() ==> (#[trigger] input@[q]) <= 127,
            fb == first_bad_from(input@, 1),
            1 <= fb < input@.len(),
            k <= fb,
            first_bad_from(remove_level(input@, fb as int), 1) != -1,
            forall|q: int|
                k <= q < fb ==> first_bad_from(remove_level(input@, q), 1) != -1,
            fb < 3 || k == fb,
        decreases k,
    {
        if fb >= 3 {
            proof {
                assert(!damp_ok(input@));
            }
            return false;
        }
        let last_try = k - 1;
        proof {
            lemma_remove_keeps_bounds(input@, last_try as int);
        }
        let last_input = remove_level_exec(input, last_try);
        let t = check_safety_with_pos(last_input.as_slice());
        if t == -1 {
            return true;
        }
        k = k - 1;
    }
    false
}

/// The numeric value of a decimal digit character.
pub open spec fn digit_val(c: char) -> int {
    c as int - 48
}

/// The character is a decimal digit.
pub open spec fn is_digit_ch(c: char) -> bool {
    48 <= c as int <= 57
}

/// Greedy parse of a space-separated line of decimal numbers, from position
/// `i` with the digits seen so far worth `acc`: every space ends a number.
pub open spec fn parse_vals(s: Seq<char>, i: int, acc: int) -> Seq<int>
    decreases s.len() - i,
{
    if i < 0 || i >= s.len() {
        seq![acc]
    } else if s[i] == ' ' {
        seq![acc] + parse_vals(s, i + 1, 0)
    } else {
        parse_vals(s, i + 1, acc * 10 + digit_val(s[i]))
    }
}

/// The levels the line holds, as level values.
pub open spec fn parsed_levels(s: Seq<char>) -> Seq<u8> {
    parse_vals(s, 0, 0).map_values(|v: int| v as u8)
}

/// The line is a well-formed report: non-empty runs of digits between
/// single spaces, every level within the checker's range, and not too many
/// levels.
pub open spec fn report_wf(s: Seq<char>) -> bool {
    &&& 0 < s.len()
    &&& forall|k: int| 0 <= k < s.len() ==> is_digit_ch(#[trigger] s[k]) || s[k] == ' '
    &&& s[0] != ' '
    &&& s[s.len() - 1] != ' '
    &&& forall|k: int| 0 < k < s.len() && #[trigger] s[k] == ' ' ==> s[k - 1] != ' '
    &&& forall|v: int| parse_vals(s, 0, 0).contains(v) ==> 0 <= v <= 127
    &&& parse_vals(s, 0, 0).len() <= 127
}

/// Within one number, the running value never grows past the number.
proof fn lemma_parse_acc_bound(s: Seq<char>, i: int, acc: int)
    requires
        0 <= i <= s.len(),
        0 <= acc,
        forall|k: int| 0 <= k < s.len() ==> is_digit_ch(#[trigger] s[k]) || s[k] == ' ',
    ensures
        acc <= parse_vals(s, i, acc)[0],
        1 <= parse_vals(s, i, acc).len(),
    decreases s.len() - i,
{
    if 0 <= i && i < s.len() && s[i] != ' ' {
        lemma_parse_acc_bound(s, i + 1, acc * 10 + digit_val(s[i]));
        assert(acc <= acc * 10 + digit_val(s[i])) by (nonlinear_arith)
            requires
                0 <= acc,
                0 <= digit_val(s[i]),
        ;
    }
}

/// Read the levels off a report line.
fn parse_levels(s: &str) -> (r: Vec<u8>)
    requires
        vstd::string::is_ascii(s),
        report_wf(s@),
    ensures
        r@ == parsed_levels(s@),
{
    broadcast use vstd::string::is_ascii_spec_bytes;

    let bytes = s.as_bytes();
    let ghost cs = s@;
    let n = bytes.len();
    let mut out: Vec<u8> = Vec::new();
    let mut acc: u8 = 0;
    let mut i: usize = 0;
    proof {
        assert(bytes@ =~= Seq::new(cs.len(), |q: int| cs[q] as u8));
        lemma_parse_acc_bound(cs, 0, 0);
        assert(parse_vals(cs, 0, 0)[0] <= 127) by {
            assert(parse_vals(cs, 0, 0).contains(parse_vals(cs, 0, 0)[0]));
        }
    }
    while i < n
        invariant
            vstd::string::is_ascii(s),
            cs == s@,
            report_wf(cs),
            bytes@ == Seq::new(cs.len(), |q: int| cs[q] as u8),
            n == cs.len(),
            i <= n,
            out@.map_values(|v: u8| v as int) + parse_vals(cs, i as int, acc as int) =~= parse_vals(
                cs,
                0,
                0,
            ),
            parse_vals(cs, i as int, acc as int)[0] <= 127,
        decreases n - i,
    {
        let b = bytes[i];
        proof {
            assert(b == cs[i as int] as u8);
            assert(cs[i as int] <= '\u{7f}') by {
                assert(vstd::utf8::is_ascii_chars(cs));
            }
            assert(is_digit_ch(cs[i as int]) || cs[i as int] == ' ');
        }
        if b == 32 {
            proof {
                assert(cs[i as int] == ' ');
            }
            out.push(acc);
            proof {
                assert(out@.map_values(|v: u8| v as int) + parse_vals(cs, i as int + 1, 0)
                    =~= parse_vals(cs, 0, 0));
                lemma_parse_acc_bound(cs, i as int + 1, 0);
                let full = parse_vals(cs, 0, 0);
                let done = out@.map_values(|v: u8| v as int);
                assert(parse_vals(cs, i as int + 1, 0)[0] == full[done.len() - 1 + 1]);
                assert(full.contains(full[done.len() - 1 + 1]));
            }
            acc = 0;
        } else {
            proof {
                assert(cs[i as int] != ' ');
                assert(is_digit_ch(cs[i as int]));
                let accq = acc as int * 10 + digit_val(cs[i as int]);
                lemma_parse_acc_bound(cs, i as int + 1, accq);
                assert(accq <= parse_vals(cs, i as int + 1, accq)[0]);
                assert(parse_vals(cs, i as int, acc as int) == parse_vals(cs, i as int + 1, accq));
            }
            let d = b - 48;
            acc = acc * 10 + d;
        }
        i = i + 1;
    }
    out.push(acc);
    proof {
        assert(out@.map_values(|v: u8| v as int) =~= parse_vals(cs, 0, 0));
        assert forall|k: int| 0 <= k < out@.len() implies #[trigger] out@[k] == parsed_levels(
            cs,
        )[k] by {
            assert(out@[k] as int == parse_vals(cs, 0, 0)[k]);
        }
        assert(out@ =~= parsed_levels(cs));
    }
    out
}

/// Parse a report line and check its safety.
pub fn parse_to_check_safety(input: &str) -> (r: bool)
    requires
        vstd::string::is_ascii(input),
        report_wf(input@),
    ensures
        r == is_safe(parsed_levels(input@)),
{
    let v = parse_levels(input);
    proof {
        lemma_levels_bounded(input@, v@);
    }
    check_safety(v)
}

/// Parse a report line and check its safety with one level forgiven.
pub fn parse_to_check_safety_with_dampner(input: &str) -> (r: bool)
    requires
        vstd::string::is_ascii(input),
        report_wf(input@),
    ensures
        r == damp_ok(parsed_levels(input@)),
{
    let v = parse_levels(input);
    proof {
        lemma_levels_bounded(input@, v@);
    }
    check_safety_dampner(v.as_slice())
}

/// Parsed levels inherit the report's bounds.
proof fn lemma_levels_bounded(s: Seq<char>, v: Seq<u8>)
    requires
        report_wf(s),
        v == parsed_levels(s),
    ensures
        v.len() <= 127,
        forall|k: int| 0 <= k < v.len() ==> (#[trigger] v[k]) <= 127,
{
    assert forall|k: int| 0 <= k < v.len() implies (#[trigger] v[k]) <= 127 by {
        assert(parse_vals(s, 0, 0).contains(parse_vals(s, 0, 0)[k]));
        assert(v[k] == parse_vals(s, 0, 0)[k] as u8);
    }
}

/// Removing a level keeps the length and level bounds.
proof fn lemma_remove_keeps_bounds(s: Seq<u8>, k: int)
    requires
        0 <= k < s.len(),
        s.len() <= 127,
        forall|q: int| 0 <= q < s.len() ==> (#[trigger] s[q]) <= 127,
    ensures
        remove_level(s, k).len() == s.len() - 1,
        forall|q: int|
            0 <= q < remove_level(s, k).len() ==> (#[trigger] remove_level(s, k)[q]) <= 127,
{
    assert forall|q: int|
        0 <= q < remove_level(s, k).len() implies (#[trigger] remove_level(s, k)[q])
        <= 127 by {
        if q < k {
            assert(remove_level(s, k)[q] == s[q]);
        } else {
            assert(remove_level(s, k)[q] == s[q + 1]);
        }
    }
}

} // verus!
