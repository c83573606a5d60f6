use halo2curves::bn256::Fr;
use halo2curves::ff::Field;
use halo2curves::ff::PrimeField;
use zkprover_gpu::column::Column;
use zkprover_gpu::column::ColumnKind;
use zkprover_gpu::column::ColumnValues;
use zkprover_gpu::eval::analysis;
use zkprover_gpu::eval::eval_ys;
use zkprover_gpu::eval::evaluate_prove_expr;
use zkprover_gpu::eval::has_weights;
use zkprover_gpu::eval::Bop;
use zkprover_gpu::eval::DeviceOp;
use zkprover_gpu::eval::EvalHContext;
use zkprover_gpu::eval::EvalResult;
use zkprover_gpu::eval::ProveExpression;
use zkprover_gpu::eval::ProveExpressionUnit;
use zkprover_gpu::expr::evaluate_expr;
use zkprover_gpu::expr::evaluate_exprs;
use zkprover_gpu::expr::is_expression_pure_unit;
use zkprover_gpu::expr::Expression;
use zkprover_gpu::field::Scalar;
use zkprover_gpu::permutation::permutation_products;
use zkprover_gpu::permutation::PermutationSetup;

fn sc(x: Fr) -> Scalar {
    Scalar::from_bytes(x.to_bytes()).unwrap()
}

fn s(v: u64) -> Scalar {
    Scalar::from_u64(v)
}

fn column(values: &[u64]) -> Vec<Scalar> {
    values.iter().map(|v| s(*v)).collect()
}

fn omega8() -> Fr {
    Fr::ROOT_OF_UNITY.pow_vartime([1u64 << (Fr::S - 3)])
}

#[test]
fn permutation_product_single_column_of_eight() {
    let values = [5u64, 9, 2, 7, 7, 1, 8, 3];
    let sigma = [2u64, 4, 6, 8, 10, 12, 14, 16];
    let beta = Fr::from(13u64);
    let gamma = Fr::from(29u64);
    let omega = omega8();
    let cv = ColumnValues { fixed: vec![], advice: vec![column(&values)], instance: vec![] };
    let setup = PermutationSetup {
        columns: vec![Column { kind: ColumnKind::Advice, index: 0 }],
        permutations: vec![column(&sigma)],
        chunk_len: 1,
        size: 8,
        unusable_rows_start: 5,
        beta: sc(beta),
        gamma: sc(gamma),
        omega: sc(omega),
        delta: sc(Fr::DELTA),
    };
    let z = permutation_products(&cv, &setup);
    assert_eq!(z.len(), 1);
    let mut acc = Fr::ONE;
    let mut w = Fr::ONE;
    for i in 0..=5 {
        assert_eq!(z[0][i], sc(acc));
        let v = Fr::from(values[i]);
        let num = w * beta + gamma + v;
        let den = beta * Fr::from(sigma[i]) + gamma + v;
        acc = acc * num * den.invert().unwrap();
        w = w * omega;
    }
    assert_eq!(z[0][6], z[0][5]);
    assert_eq!(z[0][7], z[0][5]);
}

#[test]
fn permutation_products_carry_between_chunks() {
    let a = [1u64, 2, 3, 4];
    let b = [5u64, 6, 7, 8];
    let c = [9u64, 10, 11, 12];
    let sa = [2u64, 1, 4, 3];
    let sb = [6u64, 5, 8, 7];
    let sc_ = [10u64, 9, 12, 11];
    let beta = Fr::from(3u64);
    let gamma = Fr::from(5u64);
    let omega = Fr::ROOT_OF_UNITY.pow_vartime([1u64 << (Fr::S - 2)]);
    let delta = Fr::DELTA;
    let cv = ColumnValues {
        fixed: vec![column(&c)],
        advice: vec![column(&a), column(&b)],
        instance: vec![],
    };
    let setup = PermutationSetup {
        columns: vec![
            Column { kind: ColumnKind::Advice, index: 0 },
            Column { kind: ColumnKind::Advice, index: 1 },
            Column { kind: ColumnKind::Fixed, index: 0 },
        ],
        permutations: vec![column(&sa), column(&sb), column(&sc_)],
        chunk_len: 2,
        size: 4,
        unusable_rows_start: 2,
        beta: sc(beta),
        gamma: sc(gamma),
        omega: sc(omega),
        delta: sc(delta),
    };
    let z = permutation_products(&cv, &setup);
    assert_eq!(z.len(), 2);
    let chunks: [&[([u64; 4], [u64; 4])]; 2] = [&[(a, sa), (b, sb)], &[(c, sc_)]];
    let mut carry = Fr::ONE;
    for (k, chunk) in chunks.iter().enumerate() {
        let mut ratio = [Fr::ONE; 4];
        for r in 0..4 {
            let mut num = Fr::ONE;
            let mut den = Fr::ONE;
            for (ci, (vals, sig)) in chunk.iter().enumerate() {
                let col = (k * 2 + ci) as u64;
                let dw = delta.pow_vartime([col]) * omega.pow_vartime([r as u64]);
                num *= dw * beta + gamma + Fr::from(vals[r]);
                den *= beta * Fr::from(sig[r]) + gamma + Fr::from(vals[r]);
            }
            ratio[r] = num * den.invert().unwrap();
        }
        let mut acc = carry;
        for r in 0..=2 {
            assert_eq!(z[k][r], sc(acc));
            acc *= ratio[r];
        }
        assert_eq!(z[k][3], z[k][2]);
        carry = Fr::from_bytes(&z[k][2].to_bytes()).unwrap();
    }
}

#[test]
fn evaluate_expr_wraps_rotations() {
    let fixed = vec![column(&[1, 2, 3, 4])];
    let advice = vec![column(&[10, 20, 30, 40])];
    let instance = vec![column(&[7, 7, 7, 7])];
    // advice[next] * fixed[prev] - instance
    let e = Expression::Sum(
        Box::new(Expression::Product(
            Box::new(Expression::Advice { column_index: 0, rotation: 1 }),
            Box::new(Expression::Fixed { column_index: 0, rotation: -1 }),
        )),
        Box::new(Expression::Negated(Box::new(Expression::Instance {
            column_index: 0,
            rotation: 0,
        }))),
    );
    let mut res = column(&[0, 0, 0, 0]);
    evaluate_expr(&e, 4, 1, &fixed, &advice, &instance, &mut res);
    let expect = |a: u64, f: u64| sc(Fr::from(a) * Fr::from(f) - Fr::from(7u64));
    assert_eq!(res, vec![expect(20, 4), expect(30, 1), expect(40, 2), expect(10, 3)]);
    // a rotation scale of two reads two rows away
    let mut res2 = column(&[0, 0]);
    let g = Expression::Scaled(Box::new(Expression::Advice { column_index: 0, rotation: 1 }), s(3));
    evaluate_expr(&g, 4, 2, &fixed, &advice, &instance, &mut res2);
    assert_eq!(res2, column(&[90, 120]));
}

#[test]
fn evaluate_exprs_combines_with_theta() {
    let fixed = vec![column(&[1, 2])];
    let advice = vec![column(&[5, 6])];
    let instance: Vec<Vec<Scalar>> = vec![];
    let es = vec![
        Expression::Fixed { column_index: 0, rotation: 0 },
        Expression::Advice { column_index: 0, rotation: 0 },
        Expression::Constant(s(4)),
    ];
    let theta = Fr::from(10u64);
    let mut res = column(&[0, 0]);
    evaluate_exprs(&es, 2, 1, &fixed, &advice, &instance, sc(theta), &mut res);
    assert_eq!(res, column(&[154, 264]));
    assert!(is_expression_pure_unit(&es[0]));
    assert!(!is_expression_pure_unit(&Expression::Negated(Box::new(Expression::Constant(s(1))))));
}

fn unit(kind: ColumnKind, index: usize, rotation: i32) -> ProveExpression {
    ProveExpression::Unit(ProveExpressionUnit { column: Column { kind, index }, rotation })
}

#[test]
fn sum_of_units_stays_lazy() {
    let mut ctx = EvalHContext::new(s(3), 5, 8, 32);
    let e = ProveExpression::Op(
        Box::new(unit(ColumnKind::Advice, 0, 0)),
        Box::new(unit(ColumnKind::Fixed, 1, -1)),
        Bop::Sum,
    );
    let r = evaluate_prove_expr(&e, &mut ctx);
    assert!(ctx.ops.is_empty());
    assert_eq!(ctx.n_buffers, 0);
    match r {
        EvalResult::SumBorrow(deg, terms, c) => {
            assert_eq!(deg, 1);
            assert_eq!(terms.len(), 2);
            assert_eq!(terms[1].rotation, -1);
            assert!(c.is_none());
        }
        EvalResult::Single(_, _) => panic!("a sum of columns needs no buffer"),
    }
}

#[test]
fn product_of_units_is_extended_first() {
    let mut ctx = EvalHContext::new(s(3), 5, 8, 32);
    let e = ProveExpression::Op(
        Box::new(unit(ColumnKind::Advice, 0, 0)),
        Box::new(unit(ColumnKind::Advice, 1, 0)),
        Bop::Product,
    );
    let r = evaluate_prove_expr(&e, &mut ctx);
    let kinds: Vec<&str> = ctx
        .ops
        .iter()
        .map(|o| match o {
            DeviceOp::MulSumVec { .. } => "mulsum",
            DeviceOp::AddConstant { .. } => "const",
            DeviceOp::ExtendedFft { .. } => "fft",
            DeviceOp::Sum { .. } => "sum",
            DeviceOp::Mul { .. } => "mul",
            DeviceOp::Scale { .. } => "scale",
        })
        .collect();
    assert_eq!(kinds, vec!["mulsum", "fft", "mulsum", "fft", "mul"]);
    match (&ctx.ops[4], r) {
        (DeviceOp::Mul { dst, src, len }, EvalResult::Single(deg, b)) => {
            assert_eq!(deg, 4);
            assert_eq!(*dst, b);
            assert_ne!(*dst, *src);
            assert_eq!(*len, 32);
            // the right operand's buffer is free again, last in the list
            assert_eq!(ctx.extended_allocator.last(), Some(src));
            assert!(!ctx.extended_allocator.contains(dst));
        }
        _ => panic!("a product is materialized"),
    }
}

#[test]
fn constants_and_scaling_of_lazy_sums() {
    let y = Fr::from(5u64);
    let mut ctx = EvalHContext::new(sc(y), 5, 8, 32);
    // (A + 2 y^3) * 7 y^2 stays lazy
    let e = ProveExpression::Scale(
        Box::new(ProveExpression::Op(
            Box::new(unit(ColumnKind::Advice, 0, 0)),
            Box::new(ProveExpression::Y(vec![(3, s(2))])),
            Bop::Sum,
        )),
        vec![(2, s(7))],
    );
    let r = evaluate_prove_expr(&e, &mut ctx);
    assert!(ctx.ops.is_empty());
    let v = Fr::from(7u64) * y.square();
    match r {
        EvalResult::SumBorrow(_, terms, c) => {
            assert_eq!(terms[0].coeff, Some(sc(v)));
            assert_eq!(c, Some(sc(v * Fr::from(2u64) * y.pow_vartime([3u64]))));
        }
        EvalResult::Single(_, _) => panic!("scaling a lazy sum needs no buffer"),
    }
    assert!(ctx.y.len() >= 4);
    assert_eq!(ctx.y[3], sc(y.pow_vartime([3u64])));
}

#[test]
fn eval_ys_weights_powers() {
    let y = Fr::from(9u64);
    let mut ctx = EvalHContext::new(sc(y), 5, 8, 32);
    let c = eval_ys(&vec![(0, s(4)), (2, s(3)), (5, s(1))], &mut ctx);
    assert_eq!(c, sc(Fr::from(4u64) + Fr::from(3u64) * y.square() + y.pow_vartime([5u64])));
    assert_eq!(ctx.y.len(), 6);
    // a smaller exponent leaves the table as long as it was
    let d = eval_ys(&vec![(1, s(2))], &mut ctx);
    assert_eq!(d, sc(Fr::from(2u64) * y));
    assert_eq!(ctx.y.len(), 6);
}

#[test]
fn materialized_sum_adds_constant_and_reuses_buffers() {
    let mut ctx = EvalHContext::new(s(2), 5, 8, 32);
    let prod = ProveExpression::Op(
        Box::new(unit(ColumnKind::Advice, 0, 0)),
        Box::new(unit(ColumnKind::Advice, 1, 0)),
        Bop::Product,
    );
    let e = ProveExpression::Scale(
        Box::new(ProveExpression::Op(
            Box::new(prod),
            Box::new(ProveExpression::Y(vec![(1, s(1))])),
            Bop::Sum,
        )),
        vec![(0, s(3))],
    );
    let r = evaluate_prove_expr(&e, &mut ctx);
    let n = ctx.ops.len();
    assert!(matches!(ctx.ops[n - 1], DeviceOp::Scale { len: 32, .. }));
    assert!(matches!(ctx.ops[n - 2], DeviceOp::Sum { .. }));
    assert!(matches!(ctx.ops[n - 4], DeviceOp::AddConstant { .. }));
    assert!(matches!(r, EvalResult::Single(4, _)));
    // scratch and freed buffers are reused: four names serve nine operations
    assert!(ctx.n_buffers <= 4);
}

#[test]
fn analysis_reports_degree_bounds() {
    let a = || unit(ColumnKind::Advice, 0, 0);
    let p = ProveExpression::Op(Box::new(a()), Box::new(a()), Bop::Product);
    assert_eq!(analysis(&p), 2);
    let pp = ProveExpression::Op(Box::new(p), Box::new(a()), Bop::Product);
    assert_eq!(analysis(&pp), 4);
    let s_ = ProveExpression::Op(Box::new(a()), Box::new(ProveExpression::Y(vec![])), Bop::Sum);
    assert_eq!(analysis(&s_), 1);
}

#[test]
fn empty_weights_are_refused() {
    let a = unit(ColumnKind::Advice, 0, 0);
    assert!(has_weights(&a));
    assert!(!has_weights(&ProveExpression::Y(vec![])));
    let scaled = ProveExpression::Scale(Box::new(a), vec![]);
    assert!(!has_weights(&scaled));
}

#[test]
fn lazy_results_keep_the_free_list() {
    let mut ctx = EvalHContext::new(s(3), 5, 8, 32);
    let prod = ProveExpression::Op(
        Box::new(unit(ColumnKind::Advice, 0, 0)),
        Box::new(unit(ColumnKind::Advice, 1, 0)),
        Bop::Product,
    );
    let _ = evaluate_prove_expr(&prod, &mut ctx);
    let free = ctx.extended_allocator.clone();
    let n = ctx.n_buffers;
    let ops = ctx.ops.len();
    let lazy = ProveExpression::Op(
        Box::new(unit(ColumnKind::Fixed, 0, 1)),
        Box::new(ProveExpression::Y(vec![(4, s(1))])),
        Bop::Sum,
    );
    let r = evaluate_prove_expr(&lazy, &mut ctx);
    assert!(matches!(r, EvalResult::SumBorrow(1, _, Some(_))));
    assert_eq!(ctx.extended_allocator, free);
    assert_eq!(ctx.n_buffers, n);
    assert_eq!(ctx.ops.len(), ops);
    assert_eq!(ctx.y.len(), 5);
}

#[test]
fn degree_one_buffer_is_lifted_in_place() {
    let mut ctx = EvalHContext::new(s(3), 5, 8, 32);
    let prod = ProveExpression::Op(
        Box::new(unit(ColumnKind::Advice, 0, 0)),
        Box::new(unit(ColumnKind::Advice, 1, 0)),
        Bop::Product,
    );
    let b = match evaluate_prove_expr(&prod, &mut ctx) {
        EvalResult::Single(_, b) => b,
        EvalResult::SumBorrow(..) => panic!("a product is materialized"),
    };
    let free = ctx.extended_allocator.clone();
    let n = ctx.ops.len();
    let out = EvalResult::Single(1, b).eval(4, &mut ctx);
    assert_eq!(out, b);
    assert_eq!(ctx.ops.len(), n + 1);
    match ctx.ops[n] {
        DeviceOp::ExtendedFft { buf, tmp } => {
            assert_eq!(buf, b);
            assert_eq!(Some(&tmp), free.last());
        }
        _ => panic!("a degree-one buffer is extended"),
    }
    assert_eq!(ctx.extended_allocator, free);
    // a degree-four buffer needs nothing
    assert_eq!(EvalResult::Single(4, b).eval(4, &mut ctx), b);
    assert_eq!(ctx.ops.len(), n + 1);
}

#[test]
fn repeated_or_unordered_exponents_are_refused() {
    assert!(has_weights(&ProveExpression::Y(vec![(0, s(1)), (2, s(3))])));
    assert!(!has_weights(&ProveExpression::Y(vec![(2, s(1)), (2, s(3))])));
    assert!(!has_weights(&ProveExpression::Y(vec![(3, s(1)), (1, s(3))])));
}

#[test]
fn degree_one_target_is_not_lifted() {
    let mut ctx = EvalHContext::new(s(3), 5, 8, 32);
    let lazy = match evaluate_prove_expr(&unit(ColumnKind::Advice, 0, 0), &mut ctx) {
        r @ EvalResult::SumBorrow(..) => r,
        EvalResult::Single(..) => panic!("a column stays lazy"),
    };
    let b = lazy.eval(1, &mut ctx);
    assert_eq!(ctx.ops.len(), 1);
    assert!(matches!(ctx.ops[0], DeviceOp::MulSumVec { size: 8, .. }));
    // a degree-1 buffer asked for at degree 1 comes back as it is
    assert_eq!(EvalResult::Single(1, b).eval(1, &mut ctx), b);
    assert_eq!(ctx.ops.len(), 1);
}

#[test]
fn column_sums_leave_the_power_table() {
    let mut ctx = EvalHContext::new(s(3), 5, 8, 32);
    let e = ProveExpression::Op(
        Box::new(unit(ColumnKind::Advice, 0, 0)),
        Box::new(unit(ColumnKind::Advice, 1, 0)),
        Bop::Sum,
    );
    let _ = evaluate_prove_expr(&e, &mut ctx);
    assert_eq!(ctx.y.len(), 2);
}
