//! Constraint expressions over circuit columns, evaluated row by row on the host.
use vstd::prelude::*;
use crate::field::Scalar;
use crate::field::fadd;
use crate::field::fmul;
use crate::field::fneg;
use crate::field::fr_add;
use crate::field::fr_mul;
use crate::field::fr_neg;
use crate::field::modulus;
use vstd::arithmetic::div_mod::lemma_mod_bound;
use vstd::arithmetic::div_mod::lemma_small_mod;

verus! {

/// A polynomial constraint expression over the columns of a circuit.
pub enum Expression {
    Constant(Scalar),
    Selector(usize),
    Fixed { column_index: usize, rotation: i32 },
    Advice { column_index: usize, rotation: i32 },
    Instance { column_index: usize, rotation: i32 },
    Negated(Box<Expression>),
    Sum(Box<Expression>, Box<Expression>),
    Product(Box<Expression>, Box<Expression>),
    Scaled(Box<Expression>, Scalar),
}

/// The row that a query at `rotation` reads from row `idx` of a domain of `size` rows.
pub open spec fn rotated_row(idx: int, rotation: int, rot_scale: int, size: int) -> int {
    (idx + rotation * rot_scale) % size
}

/// The columns of a circuit, by kind.
pub open spec fn column_at(cols: Seq<Vec<Scalar>>, index: usize, row: int) -> Scalar {
    cols[index as int]@[row]
}

/// `e` can be evaluated at row `idx`: every column query it reaches names a
/// column with at least `size` rows, and no selector is reached. The right
/// factor of a product is not reached where the left factor is zero.
pub open spec fn evaluable(
    e: Expression,
    fixed: Seq<Vec<Scalar>>,
    advice: Seq<Vec<Scalar>>,
    instance: Seq<Vec<Scalar>>,
    size: int,
    rot_scale: int,
    idx: int,
) -> bool
    decreases e,
{
    match e {
        Expression::Constant(_) => true,
        Expression::Selector(_) => false,
        Expression::Fixed { column_index, .. } => column_index < fixed.len()
            && fixed[column_index as int]@.len() >= size,
        Expression::Advice { column_index, .. } => column_index < advice.len()
            && advice[column_index as int]@.len() >= size,
        Expression::Instance { column_index, .. } => column_index < instance.len()
            && instance[column_index as int]@.len() >= size,
        Expression::Negated(a) => evaluable(*a, fixed, advice, instance, size, rot_scale, idx),
        Expression::Sum(a, b) => evaluable(*a, fixed, advice, instance, size, rot_scale, idx)
            && evaluable(*b, fixed, advice, instance, size, rot_scale, idx),
        Expression::Product(a, b) => evaluable(*a, fixed, advice, instance, size, rot_scale, idx)
            && (expr_value(*a, fixed, advice, instance, size, rot_scale, idx) == 0 || evaluable(
            *b,
            fixed,
            advice,
            instance,
            size,
            rot_scale,
            idx,
        )),
        Expression::Scaled(a, _) => evaluable(*a, fixed, advice, instance, size, rot_scale, idx),
    }
}

/// The value of `e` at row `idx`.
pub open spec fn expr_value(
    e: Expression,
    fixed: Seq<Vec<Scalar>>,
    advice: Seq<Vec<Scalar>>,
    instance: Seq<Vec<Scalar>>,
    size: int,
    rot_scale: int,
    idx: int,
) -> int
    decreases e,
{
    match e {
        Expression::Constant(c) => c.val(),
        Expression::Selector(_) => 0,
        Expression::Fixed { column_index, rotation } => column_at(
            fixed,
            column_index,
            rotated_row(idx, rotation as int, rot_scale, size),
        ).val(),
        Expression::Advice { column_index, rotation } => column_at(
            advice,
            column_index,
            rotated_row(idx, rotation as int, rot_scale, size),
        ).val(),
        Expression::Instance { column_index, rotation } => column_at(
            instance,
            column_index,
            rotated_row(idx, rotation as int, rot_scale, size),
        ).val(),
        Expression::Negated(a) => fneg(
            expr_value(*a, fixed, advice, instance, size, rot_scale, idx),
        ),
        Expression::Sum(a, b) => fadd(
            expr_value(*a, fixed, advice, instance, size, rot_scale, idx),
            expr_value(*b, fixed, advice, instance, size, rot_scale, idx),
        ),
        Expression::Product(a, b) => fmul(
            expr_value(*a, fixed, advice, instance, size, rot_scale, idx),
            expr_value(*b, fixed, advice, instance, size, rot_scale, idx),
        ),
        Expression::Scaled(a, s) => fmul(
            expr_value(*a, fixed, advice, instance, size, rot_scale, idx),
            s.val(),
        ),
    }
}

impl Expression {
    /// The constant, if the expression is one.
    pub fn is_constant(&self) -> (r: Option<Scalar>)
        ensures
            r == match *self {
                Expression::Constant(c) => Some(c),
                _ => None,
            },
    {
        match self {
            Expression::Constant(c) => Some(*c),
            _ => None,
        }
    }

    /// The index of the fixed column, if the expression reads one at the current row.
    pub fn is_pure_fixed(&self) -> (r: Option<usize>)
        ensures
            r == match *self {
                Expression::Fixed { column_index, rotation } => if rotation == 0 {
                    Some(column_index)
                } else {
                    None
                },
                _ => None,
            },
    {
        match self {
            Expression::Fixed { column_index, rotation } => if *rotation == 0 {
                Some(*column_index)
            } else {
                None
            },
            _ => None,
        }
    }

    /// The index of the advice column, if the expression reads one at the current row.
    pub fn is_pure_advice(&self) -> (r: Option<usize>)
        ensures
            r == match *self {
                Expression::Advice { column_index, rotation } => if rotation == 0 {
                    Some(column_index)
                } else {
                    None
                },
                _ => None,
            },
    {
        match self {
            Expression::Advice { column_index, rotation } => if *rotation == 0 {
                Some(*column_index)
            } else {
                None
            },
            _ => None,
        }
    }

    /// The index of the instance column, if the expression reads one at the current row.
    pub fn is_pure_instance(&self) -> (r: Option<usize>)
        ensures
            r == match *self {
                Expression::Instance { column_index, rotation } => if rotation == 0 {
                    Some(column_index)
                } else {
                    None
                },
                _ => None,
            },
    {
        match self {
            Expression::Instance { column_index, rotation } => if *rotation == 0 {
                Some(*column_index)
            } else {
                None
            },
            _ => None,
        }
    }
}

/// A constant, or one column read at the current row.
pub open spec fn is_pure_unit(e: Expression) -> bool {
    match e {
        Expression::Constant(_) => true,
        Expression::Fixed { rotation, .. } => rotation == 0,
        Expression::Advice { rotation, .. } => rotation == 0,
        Expression::Instance { rotation, .. } => rotation == 0,
        _ => false,
    }
}

pub fn is_expression_pure_unit(x: &Expression) -> (r: bool)
    ensures
        r == is_pure_unit(*x),
{
    x.is_constant().is_some() || x.is_pure_fixed().is_some() || x.is_pure_advice().is_some()
        || x.is_pure_instance().is_some()
}

/// The row that a query at `rotation` reads from row `idx`.
fn rotation_idx(idx: usize, rot: i32, rot_scale: i32, size: usize) -> (r: usize)
    requires
        0 < size <= i32::MAX,
        idx <= i32::MAX,
    ensures
        r == rotated_row(idx as int, rot as int, rot_scale as int, size as int),
        r < size,
{
    proof {
        assert(-0x4000_0000_0000_0000 <= rot as int * rot_scale as int <= 0x4000_0000_0000_0000)
            by (nonlinear_arith)
            requires
                i32::MIN <= rot <= i32::MAX,
                i32::MIN <= rot_scale <= i32::MAX,
        ;
    }
    let shift = (rot as i64) * (rot_scale as i64);
    let v = (idx as i64) + shift;
    let s = size as u64;
    let ghost vi = v as int;
    if v >= 0 {
        let r = (v as u64) % s;
        r as usize
    } else {
        let w = (0 - v) as u64;
        let a = w % s;
        let q = w / s;
        proof {
            vstd::arithmetic::div_mod::lemma_fundamental_div_mod(w as int, s as int);
            assert(q as int * s as int == s as int * q as int) by (nonlinear_arith);
            assert(w as int == q as int * s as int + a as int);
            assert(-(q as int) * s as int == -(q as int * s as int)) by (nonlinear_arith);
            assert((-(q as int) - 1) * s as int == -(q as int * s as int) - s as int)
                by (nonlinear_arith);
        }
        if a == 0 {
            proof {
                vstd::arithmetic::div_mod::lemma_fundamental_div_mod_converse(
                    vi,
                    s as int,
                    -(q as int),
                    0,
                );
            }
            0
        } else {
            proof {
                vstd::arithmetic::div_mod::lemma_fundamental_div_mod_converse(
                    vi,
                    s as int,
                    -(q as int) - 1,
                    s as int - a as int,
                );
            }
            (s - a) as usize
        }
    }
}

/// The value of `expression` at row `idx`.
fn evaluate_at(
    expression: &Expression,
    idx: usize,
    size: usize,
    rot_scale: i32,
    fixed: &Vec<Vec<Scalar>>,
    advice: &Vec<Vec<Scalar>>,
    instance: &Vec<Vec<Scalar>>,
) -> (r: Scalar)
    requires
        0 < size <= i32::MAX,
        idx <= i32::MAX,
        evaluable(*expression, fixed@, advice@, instance@, size as int, rot_scale as int, idx as int),
    ensures
        r.val() == expr_value(
            *expression,
            fixed@,
            advice@,
            instance@,
            size as int,
            rot_scale as int,
            idx as int,
        ),
    decreases expression,
{
    match expression {
        Expression::Constant(c) => *c,
        Expression::Selector(_) => {
            proof {
                assert(false);
            }
            Scalar::zero()
        },
        Expression::Fixed { column_index, rotation } => {
            fixed[*column_index][rotation_idx(idx, *rotation, rot_scale, size)]
        },
        Expression::Advice { column_index, rotation } => {
            advice[*column_index][rotation_idx(idx, *rotation, rot_scale, size)]
        },
        Expression::Instance { column_index, rotation } => {
            instance[*column_index][rotation_idx(idx, *rotation, rot_scale, size)]
        },
        Expression::Negated(a) => fr_neg(
            evaluate_at(a, idx, size, rot_scale, fixed, advice, instance),
        ),
        Expression::Sum(a, b) => {
            let x = evaluate_at(a, idx, size, rot_scale, fixed, advice, instance);
            let y = evaluate_at(b, idx, size, rot_scale, fixed, advice, instance);
            fr_add(x, y)
        },
        Expression::Product(a, b) => {
            let x = evaluate_at(a, idx, size, rot_scale, fixed, advice, instance);
            if x.is_zero() {
                // zero times anything: the right operand is not needed
                let y = Ghost(
                    expr_value(
                        **b,
                        fixed@,
                        advice@,
                        instance@,
                        size as int,
                        rot_scale as int,
                        idx as int,
                    ),
                );
                proof {
                    assert(0 * y@ == 0);
                    vstd::arithmetic::div_mod::lemma_small_mod(0, crate::field::modulus() as nat);
                }
                x
            } else {
                let y = evaluate_at(b, idx, size, rot_scale, fixed, advice, instance);
                fr_mul(x, y)
            }
        },
        Expression::Scaled(a, s) => fr_mul(
            evaluate_at(a, idx, size, rot_scale, fixed, advice, instance),
            *s,
        ),
    }
}

/// Evaluates `expression` at every row of `res`, reading a query at rotation
/// `rot` from row `idx + rot * rot_scale`, wrapped around `size` rows.
pub fn evaluate_expr(
    expression: &Expression,
    size: usize,
    rot_scale: i32,
    fixed: &Vec<Vec<Scalar>>,
    advice: &Vec<Vec<Scalar>>,
    instance: &Vec<Vec<Scalar>>,
    res: &mut Vec<Scalar>,
)
    requires
        0 < size <= i32::MAX,
        old(res)@.len() <= i32::MAX,
        forall|idx: int|
            0 <= idx < old(res)@.len() ==> evaluable(
                *expression,
                fixed@,
                advice@,
                instance@,
                size as int,
                rot_scale as int,
                idx,
            ),
    ensures
        final(res)@.len() == old(res)@.len(),
        forall|idx: int|
            0 <= idx < final(res)@.len() ==> #[trigger] final(res)@[idx].val() == expr_value(
                *expression,
                fixed@,
                advice@,
                instance@,
                size as int,
                rot_scale as int,
                idx,
            ),
{
    let mut idx: usize = 0;
    while idx < res.len()
        invariant
            0 < size <= i32::MAX,
            res@.len() == old(res)@.len() <= i32::MAX,
            forall|idx: int|
                0 <= idx < old(res)@.len() ==> evaluable(
                    *expression,
                    fixed@,
                    advice@,
                    instance@,
                    size as int,
                    rot_scale as int,
                    idx,
                ),
            forall|j: int|
                0 <= j < idx ==> #[trigger] res@[j].val() == expr_value(
                    *expression,
                    fixed@,
                    advice@,
                    instance@,
                    size as int,
                    rot_scale as int,
                    j,
                ),
        decreases res@.len() - idx,
    {
        let v = evaluate_at(expression, idx, size, rot_scale, fixed, advice, instance);
        res.set(idx, v);
        idx += 1;
    }
}

/// `start` folded with `acc * theta + value` over the first `i` expressions at row `idx`.
pub open spec fn exprs_value(
    es: Seq<Expression>,
    fixed: Seq<Vec<Scalar>>,
    advice: Seq<Vec<Scalar>>,
    instance: Seq<Vec<Scalar>>,
    size: int,
    rot_scale: int,
    theta: int,
    start: int,
    idx: int,
    i: int,
) -> int
    decreases i,
{
    if i <= 0 {
        start
    } else {
        fadd(
            fmul(
                exprs_value(es, fixed, advice, instance, size, rot_scale, theta, start, idx, i - 1),
                theta,
            ),
            expr_value(es[i - 1], fixed, advice, instance, size, rot_scale, idx),
        )
    }
}

/// Combines several expressions with powers of `theta`: every row of `res`
/// becomes `((res * theta + e_0) * theta + e_1) ...`, over the expressions in order.
pub fn evaluate_exprs(
    expressions: &Vec<Expression>,
    size: usize,
    rot_scale: i32,
    fixed: &Vec<Vec<Scalar>>,
    advice: &Vec<Vec<Scalar>>,
    instance: &Vec<Vec<Scalar>>,
    theta: Scalar,
    res: &mut Vec<Scalar>,
)
    requires
        0 < size <= i32::MAX,
        old(res)@.len() <= i32::MAX,
        forall|i: int, row: int|
            0 <= i < expressions@.len() && 0 <= row < old(res)@.len() ==> evaluable(
                expressions@[i],
                fixed@,
                advice@,
                instance@,
                size as int,
                rot_scale as int,
                row,
            ),
    ensures
        final(res)@.len() == old(res)@.len(),
        forall|idx: int|
            0 <= idx < final(res)@.len() ==> #[trigger] final(res)@[idx].val() == exprs_value(
                expressions@,
                fixed@,
                advice@,
                instance@,
                size as int,
                rot_scale as int,
                theta.val(),
                old(res)@[idx].val(),
                idx,
                expressions@.len() as int,
            ),
{
    let mut idx: usize = 0;
    while idx < res.len()
        invariant
            0 < size <= i32::MAX,
            res@.len() == old(res)@.len() <= i32::MAX,
            forall|i: int, row: int|
                0 <= i < expressions@.len() && 0 <= row < old(res)@.len() ==> evaluable(
                    expressions@[i],
                    fixed@,
                    advice@,
                    instance@,
                    size as int,
                    rot_scale as int,
                    row,
                ),
            forall|j: int| idx <= j < res@.len() ==> #[trigger] res@[j] == old(res)@[j],
            forall|j: int|
                0 <= j < idx ==> #[trigger] res@[j].val() == exprs_value(
                    expressions@,
                    fixed@,
                    advice@,
                    instance@,
                    size as int,
                    rot_scale as int,
                    theta.val(),
                    old(res)@[j].val(),
                    j,
                    expressions@.len() as int,
                ),
        decreases res@.len() - idx,
    {
        let ghost start = res@[idx as int].val();
        let mut value = res[idx];
        let mut i: usize = 0;
        while i < expressions.len()
            invariant
                0 < size <= i32::MAX,
                idx < res@.len() <= i32::MAX,
                res@.len() == old(res)@.len(),
                i <= expressions@.len(),
                forall|k: int, row: int|
                    0 <= k < expressions@.len() && 0 <= row < old(res)@.len() ==> evaluable(
                        expressions@[k],
                        fixed@,
                        advice@,
                        instance@,
                        size as int,
                        rot_scale as int,
                        row,
                    ),
                value.val() == exprs_value(
                    expressions@,
                    fixed@,
                    advice@,
                    instance@,
                    size as int,
                    rot_scale as int,
                    theta.val(),
                    start,
                    idx as int,
                    i as int,
                ),
            decreases expressions@.len() - i,
        {
            proof {
                assert(evaluable(
                    expressions@[i as int],
                    fixed@,
                    advice@,
                    instance@,
                    size as int,
                    rot_scale as int,
                    idx as int,
                ));
            }
            let e = evaluate_at(&expressions[i], idx, size, rot_scale, fixed, advice, instance);
            value = fr_add(fr_mul(value, theta), e);
            i += 1;
        }
        res.set(idx, value);
        idx += 1;
    }
}

} // verus!

verus! {

/// Whether `e` can be evaluated at row `idx`.
pub fn is_evaluable(
    e: &Expression,
    idx: usize,
    size: usize,
    rot_scale: i32,
    fixed: &Vec<Vec<Scalar>>,
    advice: &Vec<Vec<Scalar>>,
    instance: &Vec<Vec<Scalar>>,
) -> (r: bool)
    requires
        0 < size <= i32::MAX,
        idx <= i32::MAX,
    ensures
        r == evaluable(*e, fixed@, advice@, instance@, size as int, rot_scale as int, idx as int),
    decreases e,
{
    match e {
        Expression::Constant(_) => true,
        Expression::Selector(_) => false,
        Expression::Fixed { column_index, .. } => *column_index < fixed.len()
            && fixed[*column_index].len() >= size,
        Expression::Advice { column_index, .. } => *column_index < advice.len()
            && advice[*column_index].len() >= size,
        Expression::Instance { column_index, .. } => *column_index < instance.len()
            && instance[*column_index].len() >= size,
        Expression::Negated(a) => is_evaluable(a, idx, size, rot_scale, fixed, advice, instance),
        Expression::Sum(a, b) => is_evaluable(a, idx, size, rot_scale, fixed, advice, instance)
            && is_evaluable(b, idx, size, rot_scale, fixed, advice, instance),
        Expression::Product(a, b) => {
            if !is_evaluable(a, idx, size, rot_scale, fixed, advice, instance) {
                false
            } else {
                let x = evaluate_at(a, idx, size, rot_scale, fixed, advice, instance);
                x.is_zero() || is_evaluable(b, idx, size, rot_scale, fixed, advice, instance)
            }
        },
        Expression::Scaled(a, _) => is_evaluable(a, idx, size, rot_scale, fixed, advice, instance),
    }
}

/// Whether `e` can be evaluated at each of the first `n` rows.
pub fn rows_evaluable(
    e: &Expression,
    n: usize,
    size: usize,
    rot_scale: i32,
    fixed: &Vec<Vec<Scalar>>,
    advice: &Vec<Vec<Scalar>>,
    instance: &Vec<Vec<Scalar>>,
) -> (r: bool)
    requires
        0 < size <= i32::MAX,
        n <= i32::MAX,
    ensures
        r == forall|idx: int|
            0 <= idx < n ==> evaluable(
                *e,
                fixed@,
                advice@,
                instance@,
                size as int,
                rot_scale as int,
                idx,
            ),
{
    let mut idx: usize = 0;
    while idx < n
        invariant
            idx <= n <= i32::MAX,
            0 < size <= i32::MAX,
            forall|j: int|
                0 <= j < idx ==> evaluable(
                    *e,
                    fixed@,
                    advice@,
                    instance@,
                    size as int,
                    rot_scale as int,
                    j,
                ),
        decreases n - idx,
    {
        if !is_evaluable(e, idx, size, rot_scale, fixed, advice, instance) {
            return false;
        }
        idx += 1;
    }
    true
}

} // verus!

verus! {

/// Every value of an expression lies in `[0, modulus())`.
pub proof fn lemma_expr_value_bound(
    e: Expression,
    fixed: Seq<Vec<Scalar>>,
    advice: Seq<Vec<Scalar>>,
    instance: Seq<Vec<Scalar>>,
    size: int,
    rot_scale: int,
    idx: int,
)
    ensures
        0 <= expr_value(e, fixed, advice, instance, size, rot_scale, idx) < modulus(),
    decreases e,
{
    let m = modulus();
    match e {
        Expression::Constant(c) => c.lemma_val_bound(),
        Expression::Selector(_) => {},
        Expression::Fixed { column_index, rotation } => column_at(
            fixed,
            column_index,
            rotated_row(idx, rotation as int, rot_scale, size),
        ).lemma_val_bound(),
        Expression::Advice { column_index, rotation } => column_at(
            advice,
            column_index,
            rotated_row(idx, rotation as int, rot_scale, size),
        ).lemma_val_bound(),
        Expression::Instance { column_index, rotation } => column_at(
            instance,
            column_index,
            rotated_row(idx, rotation as int, rot_scale, size),
        ).lemma_val_bound(),
        Expression::Negated(a) => {
            lemma_mod_bound(-expr_value(*a, fixed, advice, instance, size, rot_scale, idx), m);
        },
        Expression::Sum(a, b) => {
            lemma_mod_bound(
                expr_value(*a, fixed, advice, instance, size, rot_scale, idx) + expr_value(
                    *b,
                    fixed,
                    advice,
                    instance,
                    size,
                    rot_scale,
                    idx,
                ),
                m,
            );
        },
        Expression::Product(a, b) => {
            lemma_mod_bound(
                expr_value(*a, fixed, advice, instance, size, rot_scale, idx) * expr_value(
                    *b,
                    fixed,
                    advice,
                    instance,
                    size,
                    rot_scale,
                    idx,
                ),
                m,
            );
        },
        Expression::Scaled(a, s) => {
            lemma_mod_bound(expr_value(*a, fixed, advice, instance, size, rot_scale, idx) * s.val(), m);
        },
    }
}

/// Combining one expression from a zero start gives its value: `theta` has
/// no effect.
pub proof fn lemma_single_expression(
    e: Expression,
    fixed: Seq<Vec<Scalar>>,
    advice: Seq<Vec<Scalar>>,
    instance: Seq<Vec<Scalar>>,
    size: int,
    rot_scale: int,
    theta: int,
    idx: int,
)
    ensures
        exprs_value(seq![e], fixed, advice, instance, size, rot_scale, theta, 0, idx, 1)
            == expr_value(e, fixed, advice, instance, size, rot_scale, idx),
{
    let m = modulus();
    let v = expr_value(e, fixed, advice, instance, size, rot_scale, idx);
    lemma_expr_value_bound(e, fixed, advice, instance, size, rot_scale, idx);
    assert(exprs_value(seq![e], fixed, advice, instance, size, rot_scale, theta, 0, idx, 0) == 0);
    assert(0 * theta == 0);
    lemma_small_mod(0, m as nat);
    lemma_small_mod(v as nat, m as nat);
    assert(seq![e][0] == e);
}

} // verus!
