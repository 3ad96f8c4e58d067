//! The claw-machine game: two buttons move the claw by fixed integer
//! vectors, and a prize sits at a target vector.
//!
//! Pressing button A costs three tokens, button B one token.  A game is
//! winnable exactly when the linear system has a nonnegative integer
//! solution; the cost of that solution is what the solver reports, and
//! zero stands for an unwinnable game.

use vstd::prelude::*;

verus! {

/// A two-dimensional integer vector.
#[derive(Debug, PartialEq, Clone, Copy)]
pub struct Vector {
    pub x: i64,
    pub y: i64,
}

impl Vector {
    pub fn new(x: i64, y: i64) -> (v: Vector)
        ensures
            v == (Vector { x, y }),
    {
        Vector { x, y }
    }
}

/// The absolute value of an integer.
pub open spec fn abs_i(x: int) -> int {
    if x < 0 {
        -x
    } else {
        x
    }
}

/// One claw game: the two button vectors, the target, and the determinant
/// of the button matrix.
#[derive(Debug, PartialEq)]
pub struct Game {
    pub a: Vector,
    pub b: Vector,
    pub t: Vector,
    pub det: i64,
}

impl Game {
    /// The determinant of the button matrix.
    pub open spec fn spec_det(a: Vector, b: Vector) -> int {
        a.x * b.y - b.x * a.y
    }

    /// Button coordinates are small and target coordinates moderate, so
    /// that every product in the solver fits a machine word, and the stored
    /// determinant is the matrix determinant.
    pub open spec fn wf(self) -> bool {
        &&& abs_i(self.a.x as int) <= 0x20000
        &&& abs_i(self.a.y as int) <= 0x20000
        &&& abs_i(self.b.x as int) <= 0x20000
        &&& abs_i(self.b.y as int) <= 0x20000
        &&& abs_i(self.t.x as int) <= 0x100000000000
        &&& abs_i(self.t.y as int) <= 0x100000000000
        &&& self.det as int == Self::spec_det(self.a, self.b)
    }

    /// Numerator of the button-B press count (before dividing by the
    /// determinant).
    pub open spec fn beta_num(self) -> int {
        self.a.x * self.t.y - self.a.y * self.t.x
    }

    /// Numerator of the button-A press count.
    pub open spec fn alpha_num(self) -> int {
        self.b.y * self.t.x - self.b.x * self.t.y
    }

    /// The game has a unique nonnegative integer solution: the determinant
    /// is nonzero, it divides both numerators, and both quotients come out
    /// nonnegative.
    pub open spec fn spec_invertible(self) -> bool {
        &&& self.det != 0
        &&& self.beta_num() % abs_i(self.det as int) == 0
        &&& self.alpha_num() % abs_i(self.det as int) == 0
        &&& self.beta_num() * self.det >= 0
        &&& self.alpha_num() * self.det >= 0
    }

    /// The two button vectors point along the same line (up to sign).
    pub open spec fn spec_colinear(self) -> bool {
        abs_i(self.a.x * self.b.y) == abs_i(self.a.y * self.b.x)
    }

    /// Integer division truncating toward zero, as the machine divides.
    pub open spec fn tdiv(a: int, b: int) -> int {
        if (a < 0) != (b < 0) {
            -(abs_i(a) / abs_i(b))
        } else {
            abs_i(a) / abs_i(b)
        }
    }

    /// The token cost of the game: three per A press plus one per B press
    /// for a winnable game, zero for an unwinnable one.  A winnable game
    /// with colinear buttons is paid along whichever single button is
    /// cheaper.
    pub open spec fn spec_opt_cost(self) -> int {
        if !self.spec_invertible() {
            0
        } else if self.spec_colinear() {
            let ratio_b_x = Self::tdiv(self.t.x as int, self.b.x as int);
            let ratio_a_x = Self::tdiv(self.t.x as int, self.a.x as int);
            if 3 * ratio_a_x < ratio_b_x {
                3 * ratio_a_x
            } else {
                ratio_b_x
            }
        } else {
            3 * (abs_i(self.alpha_num()) / abs_i(self.det as int)) + abs_i(self.beta_num())
                / abs_i(self.det as int)
        }
    }

    /// The cost computation stays within a machine word: the single-button
    /// ratios of a winnable colinear game are nonnegative, and the cost
    /// itself fits.
    pub open spec fn cost_fits(self) -> bool {
        self.spec_invertible() ==> {
            &&& (self.spec_colinear() ==> Self::tdiv(self.t.x as int, self.b.x as int) >= 0
                && Self::tdiv(self.t.x as int, self.a.x as int) >= 0)
            &&& self.spec_opt_cost() <= u64::MAX
        }
    }

    pub fn new(a: Vector, b: Vector, t: Vector) -> (g: Game)
        requires
            abs_i(a.x as int) <= 0x20000,
            abs_i(a.y as int) <= 0x20000,
            abs_i(b.x as int) <= 0x20000,
            abs_i(b.y as int) <= 0x20000,
            abs_i(t.x as int) <= 0x100000000000,
            abs_i(t.y as int) <= 0x100000000000,
        ensures
            g.a == a && g.b == b && g.t == t,
            g.wf(),
    {
        proof {
            lemma_small_products(a.x as int, b.y as int, b.x as int, a.y as int);
        }
        let det = (a.x * b.y) - (b.x * a.y);
        Game { a, b, t, det }
    }

    /// Whether the game has a unique nonnegative integer solution.
    pub fn is_invertible(&self) -> (r: bool)
        requires
            self.wf(),
        ensures
            r == self.spec_invertible(),
    {
        if self.det == 0 {
            return false;
        }
        proof {
            lemma_small_products(self.a.x as int, self.t.y as int, self.a.y as int, self.t.x as int);
            lemma_small_products(self.b.y as int, self.t.x as int, self.b.x as int, self.t.y as int);
            lemma_small_products(self.a.x as int, self.b.y as int, self.b.x as int, self.a.y as int);
        }
        let alpha = self.a.x * self.t.y - self.a.y * self.t.x;
        let beta = self.b.y * self.t.x - self.b.x * self.t.y;
        let adet = if self.det < 0 {
            -self.det
        } else {
            self.det
        };
        let aalpha = if alpha < 0 {
            -alpha
        } else {
            alpha
        };
        let abeta = if beta < 0 {
            -beta
        } else {
            beta
        };
        proof {
            lemma_abs_mod(alpha as int, adet as int);
            lemma_abs_mod(beta as int, adet as int);
        }
        if aalpha % adet != 0 {
            return false;
        }
        if abeta % adet != 0 {
            return false;
        }
        // the quotient is negative exactly when the signs differ
        let alpha_neg = alpha != 0 && ((alpha < 0) != (self.det < 0));
        let beta_neg = beta != 0 && ((beta < 0) != (self.det < 0));
        proof {
            lemma_sign_product(alpha as int, self.det as int);
            lemma_sign_product(beta as int, self.det as int);
        }
        !alpha_neg && !beta_neg
    }

    /// Whether the two buttons point along the same line (up to sign).
    pub fn is_colinear(&self) -> (r: bool)
        requires
            self.wf(),
        ensures
            r == self.spec_colinear(),
    {
        proof {
            lemma_small_products(self.a.x as int, self.b.y as int, self.a.y as int, self.b.x as int);
        }
        let lhs = self.a.x * self.b.y;
        let rhs = self.a.y * self.b.x;
        let al = if lhs < 0 {
            -lhs
        } else {
            lhs
        };
        let ar = if rhs < 0 {
            -rhs
        } else {
            rhs
        };
        al == ar
    }

    /// The token cost of winning the game, or zero when it cannot be won.
    pub fn get_opt_cost(&self) -> (cost: u64)
        requires
            self.wf(),
            self.cost_fits(),
        ensures
            cost as int == self.spec_opt_cost(),
    {
        if !self.is_invertible() {
            return 0;
        }
        if self.is_colinear() {
            proof {
                lemma_colinear_invertible_axes(*self);
            }
            let ratio_b_x = Self::tdiv_exec(self.t.x, self.b.x);
            let ratio_a_x = Self::tdiv_exec(self.t.x, self.a.x);
            if 3 * ratio_a_x < ratio_b_x {
                return (3 * ratio_a_x) as u64;
            }
            return ratio_b_x as u64;
        }
        proof {
            lemma_small_products(self.a.x as int, self.t.y as int, self.a.y as int, self.t.x as int);
            lemma_small_products(self.b.y as int, self.t.x as int, self.b.x as int, self.t.y as int);
        }
        proof {
            lemma_small_products(self.a.x as int, self.b.y as int, self.b.x as int, self.a.y as int);
        }
        let beta_num = self.a.x * self.t.y - self.a.y * self.t.x;
        let alpha_num = self.b.y * self.t.x - self.b.x * self.t.y;
        let abeta = if beta_num < 0 {
            -beta_num
        } else {
            beta_num
        };
        let aalpha = if alpha_num < 0 {
            -alpha_num
        } else {
            alpha_num
        };
        let adet = if self.det < 0 {
            -self.det
        } else {
            self.det
        };
        let beta = abeta / adet;
        let alpha = aalpha / adet;
        proof {
            vstd::arithmetic::div_mod::lemma_div_pos_is_pos(abeta as int, adet as int);
            vstd::arithmetic::div_mod::lemma_div_pos_is_pos(aalpha as int, adet as int);
            vstd::arithmetic::div_mod::lemma_div_nonincreasing(abeta as int, adet as int);
            vstd::arithmetic::div_mod::lemma_div_nonincreasing(aalpha as int, adet as int);
        }
        3 * (alpha as u64) + (beta as u64)
    }

    /// Divide, truncating toward zero.
    fn tdiv_exec(a: i64, b: i64) -> (r: i64)
        requires
            b != 0,
            abs_i(a as int) <= 0x4000_0000_0000_0000,
            abs_i(b as int) <= 0x4000_0000_0000_0000,
        ensures
            r as int == Self::tdiv(a as int, b as int),
    {
        let aa = if a < 0 {
            -a
        } else {
            a
        };
        let ab = if b < 0 {
            -b
        } else {
            b
        };
        let q = aa / ab;
        proof {
            vstd::arithmetic::div_mod::lemma_div_nonincreasing(aa as int, ab as int);
            vstd::arithmetic::div_mod::lemma_div_pos_is_pos(aa as int, ab as int);
        }
        if (a < 0) != (b < 0) {
            -q
        } else {
            q
        }
    }
}

/// Products of a pair of factors, one small and one moderate, fit
/// comfortably in a machine word.
proof fn lemma_small_products(p: int, q: int, r: int, s: int)
    requires
        abs_i(p) <= 0x100000000000,
        abs_i(q) <= 0x100000000000,
        abs_i(r) <= 0x100000000000,
        abs_i(s) <= 0x100000000000,
        abs_i(p) <= 0x20000 || abs_i(q) <= 0x20000,
        abs_i(r) <= 0x20000 || abs_i(s) <= 0x20000,
    ensures
        abs_i(p * q) <= 0x2000000000000000,
        abs_i(r * s) <= 0x2000000000000000,
{
    assert(-0x2000000000000000 <= p * q <= 0x2000000000000000) by (nonlinear_arith)
        requires
            -0x100000000000 <= p <= 0x100000000000,
            -0x100000000000 <= q <= 0x100000000000,
            (-0x20000 <= p <= 0x20000) || (-0x20000 <= q <= 0x20000),
    ;
    assert(-0x2000000000000000 <= r * s <= 0x2000000000000000) by (nonlinear_arith)
        requires
            -0x100000000000 <= r <= 0x100000000000,
            -0x100000000000 <= s <= 0x100000000000,
            (-0x20000 <= r <= 0x20000) || (-0x20000 <= s <= 0x20000),
    ;
}

/// Remainders by the absolute divisor vanish together: the absolute value
/// of a number is divisible exactly when the number is.
proof fn lemma_abs_mod(a: int, d: int)
    requires
        0 < d,
    ensures
        (abs_i(a) % d == 0) == (a % d == 0),
{
    if a < 0 {
        vstd::arithmetic::div_mod::lemma_fundamental_div_mod(a, d);
        vstd::arithmetic::div_mod::lemma_mod_bound(a, d);
        let q = a / d;
        let r = a % d;
        if r == 0 {
            assert(-a == (-q) * d + 0) by (nonlinear_arith)
                requires
                    a == d * q + r,
                    r == 0,
            ;
            vstd::arithmetic::div_mod::lemma_fundamental_div_mod_converse_mod(-a, d, -q, 0);
        } else {
            assert(-a == (-q - 1) * d + (d - r)) by (nonlinear_arith)
                requires
                    a == d * q + r,
            ;
            vstd::arithmetic::div_mod::lemma_fundamental_div_mod_converse_mod(
                -a,
                d,
                -q - 1,
                d - r,
            );
        }
    }
}

/// The product of two numbers is nonnegative exactly when neither is
/// negative or both are.
proof fn lemma_sign_product(a: int, d: int)
    requires
        d != 0,
    ensures
        (a * d >= 0) == (a == 0 || ((a < 0) == (d < 0))),
{
    assert((a * d >= 0) == (a == 0 || ((a < 0) == (d < 0)))) by (nonlinear_arith)
        requires
            d != 0,
    ;
}


/// In a winnable colinear game, neither button is vertical: a zero x
/// component on either button would force the determinant to vanish.
proof fn lemma_colinear_invertible_axes(g: Game)
    requires
        g.wf(),
        g.spec_invertible(),
        g.spec_colinear(),
    ensures
        g.a.x != 0,
        g.b.x != 0,
{
    if g.a.x == 0 {
        assert(g.a.x * g.b.y == 0) by (nonlinear_arith)
            requires
                g.a.x == 0,
        ;
        assert(g.a.y * g.b.x == 0);
        assert(g.b.x * g.a.y == 0) by (nonlinear_arith)
            requires
                g.a.y * g.b.x == 0,
        ;
        assert(false);
    }
    if g.b.x == 0 {
        assert(g.a.y * g.b.x == 0) by (nonlinear_arith)
            requires
                g.b.x == 0,
        ;
        assert(g.a.x * g.b.y == 0);
        assert(g.b.x * g.a.y == 0) by (nonlinear_arith)
            requires
                g.b.x == 0,
        ;
        assert(false);
    }
}

} // verus!
