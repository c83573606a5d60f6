use halo2curves::bn256::Fr;
use halo2curves::ff::Field;
use std::cmp::Ordering;
use zkprover_gpu::expr::Expression;
use zkprover_gpu::field::Scalar;
use zkprover_gpu::lookup::fill_unit_column;
use zkprover_gpu::lookup::handle_lookup_pair;
use zkprover_gpu::lookup::lookup_column;
use zkprover_gpu::lookup::lookup_classify;
use zkprover_gpu::lookup::lookup_product;
use zkprover_gpu::lookup::LookupArgument;

fn sc(x: Fr) -> Scalar {
    Scalar::from_bytes(x.to_bytes()).unwrap()
}

fn s(v: u64) -> Scalar {
    Scalar::from_u64(v)
}

fn column(values: &[u64]) -> Vec<Scalar> {
    values.iter().map(|v| s(*v)).collect()
}

#[test]
fn scalar_bytes_round_trip() {
    let x = Fr::from(123456789u64) * Fr::from(987654321u64);
    let a = sc(x);
    assert_eq!(a.to_bytes(), x.to_bytes());
    assert_eq!(Scalar::from_u64(7).to_bytes(), Fr::from(7u64).to_bytes());
    assert_eq!(Scalar::zero(), s(0));
    assert_eq!(Scalar::one(), s(1));
}

#[test]
fn scalar_from_bytes_rejects_non_canonical() {
    // the field order itself, little-endian
    let mut p = [0u8; 32];
    let hex = "30644e72e131a029b85045b68181585d2833e84879b9709143e1f593f0000001";
    for i in 0..32 {
        p[31 - i] = u8::from_str_radix(&hex[2 * i..2 * i + 2], 16).unwrap();
    }
    assert!(Scalar::from_bytes(p).is_none());
    p[0] -= 1;
    assert!(Scalar::from_bytes(p).is_some());
    assert_eq!(sc(-Fr::ONE).to_bytes(), p);
}

#[test]
fn scalar_orders_by_value() {
    assert_eq!(s(3).cmp_value(&s(5)), Ordering::Less);
    assert_eq!(s(5).cmp_value(&s(3)), Ordering::Greater);
    assert_eq!(s(4).cmp_value(&s(4)), Ordering::Equal);
    // 2^64 is above every single-limb value
    let big = sc(Fr::from(u64::MAX) + Fr::ONE);
    assert_eq!(s(u64::MAX).cmp_value(&big), Ordering::Less);
    assert!(s(0).is_zero());
    assert!(!s(1).is_zero());
}

#[test]
fn lookup_pair_permutes_and_matches_runs() {
    let input = column(&[3, 1, 3, 2, 9, 9]);
    let table = column(&[4, 2, 3, 1, 9, 9]);
    let (pi, pt) = handle_lookup_pair(&input, &table, 4);
    assert_eq!(pi, column(&[1, 2, 3, 3, 0, 0]));
    assert_eq!(pt, column(&[1, 2, 3, 4, 0, 0]));
}

#[test]
fn lookup_pair_continuity_with_repeats() {
    let input = column(&[5, 5, 5, 7, 7, 1, 1, 0]);
    let table = column(&[1, 2, 3, 4, 5, 6, 7, 8]);
    let u = 7;
    let (pi, pt) = handle_lookup_pair(&input, &table, u);
    assert_eq!(pi[..u].to_vec(), column(&[1, 1, 5, 5, 5, 7, 7]));
    for r in 0..u {
        if pi[r] != pt[r] {
            assert!(r > 0 && pi[r] == pi[r - 1]);
        }
    }
    // every table value is used once
    let mut used: Vec<u64> = Vec::new();
    for v in &pt[..u] {
        for x in 1..=8u64 {
            if *v == s(x) {
                used.push(x);
            }
        }
    }
    used.sort();
    assert_eq!(used, vec![1, 2, 3, 4, 5, 6, 7]);
    assert_eq!(pi[u], s(0));
    assert_eq!(pt[u], s(0));
}

#[test]
fn lookup_pair_empty_prefix() {
    let input = column(&[4, 2]);
    let table = column(&[4, 2]);
    let (pi, pt) = handle_lookup_pair(&input, &table, 0);
    assert_eq!(pi, column(&[0, 0]));
    assert_eq!(pt, column(&[0, 0]));
}

#[test]
fn lookup_product_matches_direct_computation() {
    let input = [3u64, 1, 3, 2, 0, 0];
    let table = [4u64, 2, 3, 1, 0, 0];
    let u = 4;
    let (pi, pt) = handle_lookup_pair(&column(&input), &column(&table), u);
    let beta = Fr::from(11u64);
    let gamma = Fr::from(17u64);
    let z = lookup_product(&pi, &pt, &column(&input), &column(&table), sc(beta), sc(gamma), u);
    let pi_f = [1u64, 2, 3, 3, 0, 0];
    let pt_f = [1u64, 2, 3, 4, 0, 0];
    let mut acc = Fr::ONE;
    for j in 0..=u {
        assert_eq!(z[j], sc(acc));
        let num = (beta + Fr::from(input[j])) * (gamma + Fr::from(table[j]));
        let den = (beta + Fr::from(pi_f[j])) * (gamma + Fr::from(pt_f[j]));
        acc = acc * num * den.invert().unwrap();
    }
    assert_eq!(z[u + 1], s(0));
    // the input is a permutation of the permuted input, so the full product is one
    assert_eq!(z[u], s(1));
}

#[test]
fn lookup_classify_sorts_by_shape() {
    let unit = || Expression::Advice { column_index: 0, rotation: 0 };
    let rotated = || Expression::Advice { column_index: 0, rotation: 1 };
    let lookups = vec![
        LookupArgument { input_expressions: vec![unit()], table_expressions: vec![unit()] },
        LookupArgument {
            input_expressions: vec![unit(), unit()],
            table_expressions: vec![unit(), unit()],
        },
        LookupArgument { input_expressions: vec![rotated()], table_expressions: vec![unit()] },
        LookupArgument {
            input_expressions: vec![Expression::Constant(s(2))],
            table_expressions: vec![Expression::Fixed { column_index: 1, rotation: 0 }],
        },
    ];
    let (units, comps, tuples) = lookup_classify(&lookups);
    assert_eq!(units, vec![0, 3]);
    assert_eq!(comps, vec![2]);
    assert_eq!(tuples, vec![1]);
}

#[test]
fn fill_unit_column_copies_prefix() {
    let fixed = vec![column(&[10, 11, 12, 13])];
    let advice = vec![column(&[20, 21, 22, 23])];
    let instance = vec![column(&[30, 31, 32, 33])];
    let mut target = column(&[0, 0, 0, 0]);
    let e = Expression::Instance { column_index: 0, rotation: 0 };
    fill_unit_column(&e, 4, &fixed, &advice, &instance, &mut target, 3);
    assert_eq!(target, column(&[30, 31, 32, 0]));
    let c = Expression::Constant(s(9));
    fill_unit_column(&c, 4, &fixed, &advice, &instance, &mut target, 2);
    assert_eq!(target, column(&[9, 9, 32, 0]));
}

#[test]
fn lookup_column_fills_prefix() {
    let fixed = vec![column(&[1, 2, 3, 4])];
    let advice = vec![column(&[5, 6, 7, 8])];
    let instance: Vec<Vec<Scalar>> = vec![];
    let single = vec![Expression::Advice { column_index: 0, rotation: 1 }];
    assert_eq!(
        lookup_column(&single, 4, 3, &fixed, &advice, &instance, None),
        column(&[6, 7, 8, 0])
    );
    let pair = vec![
        Expression::Fixed { column_index: 0, rotation: 0 },
        Expression::Advice { column_index: 0, rotation: 0 },
    ];
    assert_eq!(
        lookup_column(&pair, 4, 2, &fixed, &advice, &instance, Some(s(10))),
        column(&[15, 26, 0, 0])
    );
}
