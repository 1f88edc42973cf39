use vstd::prelude::*;

use rand::Rng;

verus! {

pub type Integer = i64;

/// One node of a parsed dice expression. Self-referential operands are
/// indices into the owning equation's `leaves`; the well-formedness
/// condition keeps them strictly below the node's own position, so
/// evaluation always terminates.
#[derive(Clone, Debug)]
pub enum Expression {
    Integer(Integer),
    Variable(usize, usize),
    // Self-referential
    Add(usize, usize),
    Sub(usize, usize),
    Mul(usize, usize),
    Div(usize, usize),
    // Constant operations
    AddC(usize, Integer),
    SubC(usize, Integer),
    MulC(usize, Integer),
    DivC(usize, Integer),
    Roll(Integer, Integer),
}

/// Why an expression failed to evaluate.
#[derive(Debug)]
pub enum Error<'expression> {
    NoVariables(&'expression str),
    MissingVariable(&'expression str),
    DividedByZero,
}

/// The variables an expression may refer to; the game implements this for
/// its stat sheets. `()` defines none at all.
pub trait Variables {
    fn get<'expression>(&self, s: &'expression str) -> Result<Integer, Error<'expression>>;
}

impl Variables for () {
    fn get<'expression>(&self, s: &'expression str) -> Result<Integer, Error<'expression>> {
        Err(Error::NoVariables(s))
    }
}

/// A bound on one expression node standing at position `bound` of an
/// equation: its operand indices point strictly backwards, and a dice roll
/// is well formed (at least a one-sided die, a non-negative count, and a
/// maximum total that fits the machine).
pub open spec fn expr_wf(e: Expression, bound: int) -> bool {
    match e {
        Expression::Integer(_) => true,
        Expression::Variable(from, to) => from <= to,
        Expression::Add(a, b) => a < bound && b < bound,
        Expression::Sub(a, b) => a < bound && b < bound,
        Expression::Mul(a, b) => a < bound && b < bound,
        Expression::Div(a, b) => a < bound && b < bound,
        Expression::AddC(a, _) => a < bound,
        Expression::SubC(a, _) => a < bound,
        Expression::MulC(a, _) => a < bound,
        Expression::DivC(a, _) => a < bound,
        Expression::Roll(amount, die) => 0 <= amount && 1 <= die && amount * die <= i64::MAX,
    }
}

/// A parsed dice expression: the source text it came from, a root node, and
/// the operand nodes the root refers to.
#[derive(Clone, Debug)]
pub struct Equation {
    pub source: String,
    pub root: Expression,
    pub leaves: Vec<Expression>,
}

impl Equation {
    /// Every node's operands point strictly backwards.
    pub open spec fn wf(&self) -> bool {
        &&& forall|i: int| 0 <= i < self.leaves@.len() ==> expr_wf(#[trigger] self.leaves@[i], i)
        &&& expr_wf(self.root, self.leaves@.len() as int)
    }
}

/// Rust's truncating division: the quotient of the magnitudes, with the
/// sign of the exact quotient.
pub open spec fn div_toward_zero(x: int, y: int) -> int {
    let ax = if x < 0 {
        -x
    } else {
        x
    };
    let ay = if y < 0 {
        -y
    } else {
        y
    };
    let m = ax / ay;
    if (x < 0) != (y < 0) {
        -m
    } else {
        m
    }
}

fn div_i64(x: i64, y: i64) -> (q: i64)
    requires
        y != 0,
        !(x == i64::MIN && y == -1),
    ensures
        q == div_toward_zero(x as int, y as int),
{
    let big_x = x as i128;
    let big_y = y as i128;
    let ax: i128 = if big_x < 0 {
        -big_x
    } else {
        big_x
    };
    let ay: i128 = if big_y < 0 {
        -big_y
    } else {
        big_y
    };
    let m = ax / ay;
    proof {
        assert(m <= ax) by (nonlinear_arith)
            requires
                ax >= 0,
                ay >= 1,
                m == ax / ay,
        ;
        assert(m >= 0) by (nonlinear_arith)
            requires
                ax >= 0,
                ay >= 1,
                m == ax / ay,
        ;
        if !((x < 0) != (y < 0)) && x == i64::MIN {
            assert(y < 0 && y != -1);
            assert(ay >= 2);
            assert(m < ax) by (nonlinear_arith)
                requires
                    ax >= 1,
                    ay >= 2,
                    m == ax / ay,
            ;
        }
    }
    if (x < 0) != (y < 0) {
        (-m) as i64
    } else {
        m as i64
    }
}

/// The value of a dice-free, variable-free (sub)tree: `Some` exactly when
/// no dice roll or variable is reached, with wrapping sums, differences and
/// products and guarded truncating division, exactly as evaluation computes
/// them.
pub open spec fn eval_pure(leaves: Seq<Expression>, e: Expression, bound: int) -> Option<Integer>
    decreases bound,
{
    match e {
        Expression::Integer(i) => Some(i),
        Expression::Variable(_, _) => None,
        Expression::Roll(_, _) => None,
        Expression::Add(a, b) => if a < bound && b < bound {
            match (
                eval_pure(leaves, leaves[a as int], a as int),
                eval_pure(leaves, leaves[b as int], b as int),
            ) {
                (Some(xv), Some(yv)) => Some(vstd::wrapping::i64_specs::wrapping_add(xv, yv)),
                _ => None,
            }
        } else {
            None
        },
        Expression::Sub(a, b) => if a < bound && b < bound {
            match (
                eval_pure(leaves, leaves[a as int], a as int),
                eval_pure(leaves, leaves[b as int], b as int),
            ) {
                (Some(xv), Some(yv)) => Some(vstd::wrapping::i64_specs::wrapping_sub(xv, yv)),
                _ => None,
            }
        } else {
            None
        },
        Expression::Mul(a, b) => if a < bound && b < bound {
            match (
                eval_pure(leaves, leaves[a as int], a as int),
                eval_pure(leaves, leaves[b as int], b as int),
            ) {
                (Some(xv), Some(yv)) => Some(vstd::wrapping::i64_specs::wrapping_mul(xv, yv)),
                _ => None,
            }
        } else {
            None
        },
        Expression::Div(a, b) => if a < bound && b < bound {
            match (
                eval_pure(leaves, leaves[a as int], a as int),
                eval_pure(leaves, leaves[b as int], b as int),
            ) {
                (Some(xv), Some(yv)) => if yv == 0 || (xv == i64::MIN && yv == -1) {
                    None
                } else {
                    Some(div_toward_zero(xv as int, yv as int) as i64)
                },
                _ => None,
            }
        } else {
            None
        },
        Expression::AddC(a, c) => if a < bound {
            match eval_pure(leaves, leaves[a as int], a as int) {
                Some(xv) => Some(vstd::wrapping::i64_specs::wrapping_add(xv, c)),
                None => None,
            }
        } else {
            None
        },
        Expression::SubC(a, c) => if a < bound {
            match eval_pure(leaves, leaves[a as int], a as int) {
                Some(xv) => Some(vstd::wrapping::i64_specs::wrapping_sub(xv, c)),
                None => None,
            }
        } else {
            None
        },
        Expression::MulC(a, c) => if a < bound {
            match eval_pure(leaves, leaves[a as int], a as int) {
                Some(xv) => Some(vstd::wrapping::i64_specs::wrapping_mul(xv, c)),
                None => None,
            }
        } else {
            None
        },
        Expression::DivC(a, c) => if a < bound {
            match eval_pure(leaves, leaves[a as int], a as int) {
                Some(xv) => if c == 0 || (xv == i64::MIN && c == -1) {
                    None
                } else {
                    Some(div_toward_zero(xv as int, c as int) as i64)
                },
                None => None,
            }
        } else {
            None
        },
    }
}

/// Relies on rand's `gen_range` over the inclusive range `1..=die`: it
/// panics only on an empty range, which `die >= 1` rules out, and returns a
/// value within the range.
#[verifier::external_body]
fn roll_die(die: i64) -> (r: i64)
    requires
        die >= 1,
    ensures
        1 <= r <= die,
{
    rand::thread_rng().gen_range(1..=die)
}

/// Evaluate one node. Sums, differences and products wrap around the
/// machine's integer range; division by zero (and the one overflowing
/// division) is reported rather than attempted. A roll of `n` dice with `m`
/// sides lands in `[n, n * m]` (and `0` for no dice at all).
fn eval_expr<'expression, V: Variables>(
    equation: &'expression Equation,
    e: &Expression,
    variables: &V,
    Ghost(bound): Ghost<int>,
) -> (r: Result<Integer, Error<'expression>>)
    requires
        equation.wf(),
        expr_wf(*e, bound),
        0 <= bound <= equation.leaves@.len(),
    ensures
        (*e) matches Expression::Integer(i) ==> r == Result::<Integer, Error>::Ok(i),
        (*e) matches Expression::Roll(amount, die) ==> (r matches Ok(total) && (amount == 0
            ==> total == 0) && amount <= total <= amount * die),
        eval_pure(equation.leaves@, *e, bound) matches Some(v) ==> r == Result::<
            Integer,
            Error,
        >::Ok(v),
    decreases bound, 0int,
{
    match e {
        Expression::Integer(i) => Ok(*i),
        Expression::Variable(from, to) => {
            let src = equation.source.as_str();
            let n = src.unicode_len();
            if *from <= *to && *to <= n && src.is_ascii() {
                variables.get(src.substring_char(*from, *to))
            } else {
                variables.get(src)
            }
        },
        Expression::Roll(amount, die) => {
            let mut total: i64 = 0;
            let mut k: i64 = 0;
            while k < *amount
                invariant
                    0 <= k <= *amount,
                    1 <= *die,
                    *amount * *die <= i64::MAX,
                    k <= total <= k * *die,
                decreases *amount - k,
            {
                proof {
                    assert((k + 1) * *die <= *amount * *die) by (nonlinear_arith)
                        requires
                            k + 1 <= *amount,
                            1 <= *die,
                    ;
                    assert(k * *die + *die == (k + 1) * *die) by (nonlinear_arith);
                }
                let d = roll_die(*die);
                total = total + d;
                k = k + 1;
            }
            Ok(total)
        },
        Expression::Add(a, b) => {
            let x = eval_leaf(equation, *a, variables)?;
            let y = eval_leaf(equation, *b, variables)?;
            Ok(x.wrapping_add(y))
        },
        Expression::Sub(a, b) => {
            let x = eval_leaf(equation, *a, variables)?;
            let y = eval_leaf(equation, *b, variables)?;
            Ok(x.wrapping_sub(y))
        },
        Expression::Mul(a, b) => {
            let x = eval_leaf(equation, *a, variables)?;
            let y = eval_leaf(equation, *b, variables)?;
            Ok(x.wrapping_mul(y))
        },
        Expression::Div(a, b) => {
            let x = eval_leaf(equation, *a, variables)?;
            let y = eval_leaf(equation, *b, variables)?;
            if y == 0 || (x == i64::MIN && y == -1) {
                Err(Error::DividedByZero)
            } else {
                Ok(div_i64(x, y))
            }
        },
        Expression::AddC(a, c) => {
            let x = eval_leaf(equation, *a, variables)?;
            Ok(x.wrapping_add(*c))
        },
        Expression::SubC(a, c) => {
            let x = eval_leaf(equation, *a, variables)?;
            Ok(x.wrapping_sub(*c))
        },
        Expression::MulC(a, c) => {
            let x = eval_leaf(equation, *a, variables)?;
            Ok(x.wrapping_mul(*c))
        },
        Expression::DivC(a, c) => {
            let x = eval_leaf(equation, *a, variables)?;
            if *c == 0 || (x == i64::MIN && *c == -1) {
                Err(Error::DividedByZero)
            } else {
                Ok(div_i64(x, *c))
            }
        },
    }
}

/// Evaluate the node at `leaves[i]`.
fn eval_leaf<'expression, V: Variables>(
    equation: &'expression Equation,
    i: usize,
    variables: &V,
) -> (r: Result<Integer, Error<'expression>>)
    requires
        equation.wf(),
        i < equation.leaves@.len(),
    ensures
        eval_pure(equation.leaves@, equation.leaves@[i as int], i as int) matches Some(v) ==> r
            == Result::<Integer, Error>::Ok(v),
    decreases i, 1int,
{
    let e = &equation.leaves[i];
    eval_expr(equation, e, variables, Ghost(i as int))
}

impl Equation {
    /// Evaluate the whole equation against the given variables.
    pub fn eval<'expression, V: Variables>(
        &'expression self,
        variables: &'expression V,
    ) -> (r: Result<Integer, Error<'expression>>)
        requires
            self.wf(),
        ensures
            self.root matches Expression::Integer(i) ==> r == Result::<Integer, Error>::Ok(i),
            self.root matches Expression::Roll(amount, die) ==> (r matches Ok(total) && (amount
                == 0 ==> total == 0) && amount <= total <= amount * die),
            eval_pure(self.leaves@, self.root, self.leaves@.len() as int) matches Some(v) ==> r
                == Result::<Integer, Error>::Ok(v),
    {
        eval_expr(self, &self.root, variables, Ghost(self.leaves@.len() as int))
    }
}

} // verus!
