//! The lookup argument: permuted input and table columns and their grand product.
use vstd::prelude::*;
use vstd::multiset::Multiset;
use crate::field::Scalar;
use crate::expr::Expression;
use crate::expr::expr_value;
use crate::expr::is_expression_pure_unit;
use crate::expr::is_pure_unit;
use crate::expr::evaluable;
use crate::expr::evaluate_expr;
use crate::expr::evaluate_exprs;
use crate::expr::exprs_value;
use crate::field::fadd;
use crate::field::fmul;
use crate::field::finv;
use crate::field::prefix_product;
use crate::field::fr_add;
use crate::field::fr_mul;
use crate::field::fr_batch_invert;
use crate::field::lemma_batch_inverted;

verus! {

/// Rows `j` of `s` where a new run of equal values begins.
pub open spec fn run_start(s: Seq<Scalar>, j: int) -> bool {
    j == 0 || s[j].val() != s[j - 1].val()
}

/// The first `n` entries of `s` are in nondecreasing order of value.
pub open spec fn sorted_prefix(s: Seq<Scalar>, n: int) -> bool {
    forall|i: int, j: int| 0 <= i <= j < n ==> #[trigger] s[i].val() <= #[trigger] s[j].val()
}

/// The number of `true` entries among the first `n` of `s`.
pub open spec fn count_true(s: Seq<bool>, n: int) -> int
    decreases n,
{
    if n <= 0 {
        0
    } else {
        count_true(s, n - 1) + if s[n - 1] {
            1int
        } else {
            0int
        }
    }
}

proof fn lemma_count_true_bounds(s: Seq<bool>, a: int, b: int)
    requires
        0 <= a <= b,
    ensures
        count_true(s, a) <= count_true(s, b),
        count_true(s, b) - count_true(s, a) <= b - a,
    decreases b - a,
{
    if a < b {
        lemma_count_true_bounds(s, a, b - 1);
    }
}

/// A `true` at `j` below `b` is counted in the first `b` but not the first `j`.
proof fn lemma_count_true_strict(s: Seq<bool>, j: int, b: int)
    requires
        0 <= j < b,
        s[j],
    ensures
        count_true(s, j) + 1 <= count_true(s, b),
{
    lemma_count_true_bounds(s, j + 1, b);
}

/// A `false` at `j` below `b` is counted among the non-`true` entries.
proof fn lemma_count_false_strict(s: Seq<bool>, j: int, b: int)
    requires
        0 <= j < b,
        !s[j],
    ensures
        (j - count_true(s, j)) + 1 <= b - count_true(s, b),
{
    lemma_count_true_bounds(s, j + 1, b);
}

/// Relies on `slice::sort_unstable_by` with the value order of `Scalar`: the
/// same elements, in nondecreasing order of value.
#[verifier::external_body]
fn sort_by_value(v: &mut Vec<Scalar>)
    ensures
        final(v)@.to_multiset() == old(v)@.to_multiset(),
        final(v)@.len() == old(v)@.len(),
        sorted_prefix(final(v)@, final(v)@.len() as int),
{
    v.sort_unstable_by(|a, b| a.cmp_value(b));
}

/// A copy of the first `n` entries of `v`.
fn prefix_of(v: &Vec<Scalar>, n: usize) -> (r: Vec<Scalar>)
    requires
        n <= v.len(),
    ensures
        r@ == v@.subrange(0, n as int),
{
    let mut r: Vec<Scalar> = Vec::new();
    let mut i: usize = 0;
    while i < n
        invariant
            i <= n <= v.len(),
            r@ == v@.subrange(0, i as int),
        decreases n - i,
    {
        r.push(v[i]);
        i += 1;
        proof {
            assert(r@ =~= v@.subrange(0, i as int));
        }
    }
    r
}

/// Extends `v` with zeros up to length `n`.
fn pad_with_zero(v: &mut Vec<Scalar>, n: usize)
    requires
        old(v)@.len() <= n,
    ensures
        final(v)@.len() == n,
        final(v)@.subrange(0, old(v)@.len() as int) == old(v)@,
        forall|j: int| old(v)@.len() <= j < n ==> #[trigger] final(v)@[j].val() == 0,
{
    let ghost start = v@;
    let zero = Scalar::zero();
    while v.len() < n
        invariant
            start.len() <= v@.len() <= n,
            zero.val() == 0,
            v@.subrange(0, start.len() as int) == start,
            forall|j: int| start.len() <= j < v@.len() ==> #[trigger] v@[j].val() == 0,
        decreases n - v.len(),
    {
        v.push(zero);
        proof {
            assert(v@.subrange(0, start.len() as int) =~= start);
        }
    }
}

/// Permutes the first `unusable_rows_start` rows of a lookup's input and table
/// columns so that every row of the permuted input either equals the permuted
/// table in that row or repeats the permuted input of the row above.
///
/// The permuted input is the input prefix sorted by value. Where a run of
/// equal values begins, the permuted table holds that value; the other rows
/// take table entries in nondecreasing order. When every input value occurs in
/// the table, the permuted table is a permutation of the table's prefix. Rows
/// from `unusable_rows_start` on are zero in both results.
pub fn handle_lookup_pair(input: &Vec<Scalar>, table: &Vec<Scalar>, unusable_rows_start: usize) -> (r:
    (Vec<Scalar>, Vec<Scalar>))
    requires
        unusable_rows_start <= input.len(),
        unusable_rows_start <= table.len(),
    ensures
        r.0@.len() == input.len(),
        r.1@.len() == input.len(),
        r.0@.subrange(0, unusable_rows_start as int).to_multiset() == input@.subrange(
            0,
            unusable_rows_start as int,
        ).to_multiset(),
        sorted_prefix(r.0@, unusable_rows_start as int),
        forall|j: int|
            0 <= j < unusable_rows_start ==> (run_start(r.0@, j) ==> #[trigger] r.1@[j]
                == r.0@[j]),
        forall|j: int|
            0 <= j < unusable_rows_start ==> (!run_start(r.0@, j) ==> table@.subrange(
                0,
                unusable_rows_start as int,
            ).to_multiset().contains(#[trigger] r.1@[j])),
        forall|j: int|
            0 <= j < unusable_rows_start ==> (#[trigger] r.0@[j].val() != r.1@[j].val() ==> j > 0
                && r.0@[j].val() == r.0@[j - 1].val()),
        forall|j: int|
            unusable_rows_start <= j < input.len() ==> #[trigger] r.0@[j].val() == 0
                && r.1@[j].val() == 0,
        (forall|j: int|
            0 <= j < unusable_rows_start ==> table@.subrange(0, unusable_rows_start as int).contains(
                #[trigger] input@[j],
            )) ==> r.1@.subrange(0, unusable_rows_start as int).to_multiset() == table@.subrange(
            0,
            unusable_rows_start as int,
        ).to_multiset(),
        sorted_prefix(
            fillers_seq(r.0@, r.1@, unusable_rows_start as int),
            fillers_seq(r.0@, r.1@, unusable_rows_start as int).len() as int,
        ),
{
    let n = unusable_rows_start;
    let mut permuted_input = prefix_of(input, n);
    sort_by_value(&mut permuted_input);
    let mut sorted_table = prefix_of(table, n);
    sort_by_value(&mut sorted_table);
    let ghost table_prefix = table@.subrange(0, n as int);

    // Mark where each run of equal input values begins; the table takes the
    // input value there.
    let zero = Scalar::zero();
    let mut state: Vec<bool> = Vec::new();
    let mut permuted_table: Vec<Scalar> = Vec::new();
    let mut row: usize = 0;
    while row < n
        invariant
            row <= n,
            permuted_input@.len() == n,
            state@.len() == row,
            permuted_table@.len() == row,
            forall|j: int| 0 <= j < row ==> #[trigger] state@[j] == run_start(permuted_input@, j),
            forall|j: int| 0 <= j < row ==> state@[j] ==> #[trigger] permuted_table@[j] == permuted_input@[j],
        decreases n - row,
    {
        let start = row == 0 || !permuted_input[row].eq_value(&permuted_input[row - 1]);
        state.push(start);
        if start {
            permuted_table.push(permuted_input[row]);
        } else {
            permuted_table.push(zero);
        }
        row += 1;
    }

    // Walk the sorted table: an entry equal to the next run's value is that
    // run's own; every other entry fills the next row that begins no run.
    let mut uq: usize = 0;
    let mut st: usize = 0;
    let mut i: usize = 0;
    let ghost pi = permuted_input@;
    let ghost input_prefix = input@.subrange(0, n as int);
    let ghost covered = forall|j: int| 0 <= j < n ==> table_prefix.contains(#[trigger] input@[j]);
    proof {
        assert(sorted_table@.subrange(0, 0) =~= Seq::<Scalar>::empty());
        assert(starts_seq(pi, 0, 0) =~= Seq::<Scalar>::empty());
        assert(fillers_seq(pi, permuted_table@, 0) =~= Seq::<Scalar>::empty());
        assert(sorted_table@.subrange(0, 0).to_multiset() =~= starts_seq(pi, 0, 0).to_multiset().add(
            fillers_seq(pi, permuted_table@, 0).to_multiset(),
        )) by {
            sorted_table@.subrange(0, 0).to_multiset_ensures();
            starts_seq(pi, 0, 0).to_multiset_ensures();
            fillers_seq(pi, permuted_table@, 0).to_multiset_ensures();
        }
    }
    while i < n
        invariant
            i <= n,
            uq <= n,
            permuted_input@ == pi,
            pi.len() == n,
            sorted_table@.len() == n,
            state@.len() == n,
            permuted_table@.len() == n,
            sorted_prefix(pi, n as int),
            sorted_prefix(sorted_table@, n as int),
            pi.to_multiset() == input_prefix.to_multiset(),
            n <= input@.len(),
            input_prefix == input@.subrange(0, n as int),
            sorted_table@.to_multiset() == table_prefix.to_multiset(),
            covered == forall|j: int| 0 <= j < n ==> table_prefix.contains(#[trigger] input@[j]),
            forall|j: int| 0 <= j < n ==> #[trigger] state@[j] == run_start(pi, j),
            forall|j: int| 0 <= j < n ==> state@[j] ==> #[trigger] permuted_table@[j] == pi[j],
            forall|j: int|
                0 <= j < i ==> !state@[j] ==> table_prefix.to_multiset().contains(
                    #[trigger] permuted_table@[j],
                ),
            st == count_true(state@, uq as int) + (i - count_true(state@, i as int)),
            st <= n,
            uq < n ==> state@[uq as int],
            sorted_table@.subrange(0, st as int).to_multiset() == starts_seq(
                pi,
                0,
                uq as int,
            ).to_multiset().add(fillers_seq(pi, permuted_table@, i as int).to_multiset()),
            covered && uq < n ==> forall|t: int|
                0 <= t < st ==> #[trigger] sorted_table@[t].val() < pi[uq as int].val(),
            sorted_prefix(
                fillers_seq(pi, permuted_table@, i as int),
                fillers_seq(pi, permuted_table@, i as int).len() as int,
            ),
            forall|k: int, t: int|
                0 <= k < fillers_seq(pi, permuted_table@, i as int).len() && st <= t < n
                    ==> #[trigger] fillers_seq(pi, permuted_table@, i as int)[k].val()
                    <= #[trigger] sorted_table@[t].val(),
        decreases n - i,
    {
        let ghost st_head = st;
        loop
            invariant
                i < n,
                uq <= n,
                permuted_input@ == pi,
                pi.len() == n,
                sorted_table@.len() == n,
                state@.len() == n,
                permuted_table@.len() == n,
                sorted_prefix(pi, n as int),
                forall|j: int| 0 <= j < n ==> #[trigger] state@[j] == run_start(pi, j),
                forall|j: int| 0 <= j < n ==> state@[j] ==> #[trigger] permuted_table@[j] == pi[j],
                uq < n ==> state@[uq as int],
                st == count_true(state@, uq as int) + (i - count_true(state@, i as int)),
                st <= n,
                sorted_table@.subrange(0, st as int).to_multiset() == starts_seq(
                    pi,
                    0,
                    uq as int,
                ).to_multiset().add(fillers_seq(pi, permuted_table@, i as int).to_multiset()),
                covered && uq < n ==> forall|t: int|
                    0 <= t < st ==> #[trigger] sorted_table@[t].val() < pi[uq as int].val(),
                st_head <= st,
                sorted_prefix(sorted_table@, n as int),
            ensures
                uq < n ==> st < n && permuted_table@[uq as int].val()
                    != sorted_table@[st as int].val(),
            decreases n - uq,
        {
            if uq >= n {
                break;
            }
            proof {
                lemma_count_true_strict(state@, uq as int, n as int);
                lemma_count_true_bounds(state@, i as int, n as int);
            }
            if !permuted_table[uq].eq_value(&sorted_table[st]) {
                break;
            }
            let ghost old_uq = uq;
            let ghost old_st = st;
            proof {
                assert(sorted_table@.subrange(0, st + 1) =~= sorted_table@.subrange(0, st as int).push(
                    sorted_table@[st as int],
                ));
                sorted_table@.subrange(0, st as int).to_multiset_ensures();
                starts_seq(pi, 0, uq as int).to_multiset_ensures();
                assert(starts_seq(pi, 0, uq + 1) == starts_seq(pi, 0, uq as int).push(pi[uq as int]));
                assert(sorted_table@.subrange(0, st + 1).to_multiset() =~= starts_seq(
                    pi,
                    0,
                    uq + 1,
                ).to_multiset().add(fillers_seq(pi, permuted_table@, i as int).to_multiset()));
            }
            uq += 1;
            st += 1;
            while uq < n && !state[uq]
                invariant
                    old_uq < uq <= n,
                    st == old_st + 1,
                    st <= n,
                    st_head <= st,
                    pi.len() == n,
                    state@.len() == n,
                    sorted_prefix(pi, n as int),
                    forall|j: int| 0 <= j < n ==> #[trigger] state@[j] == run_start(pi, j),
                    st == count_true(state@, uq as int) + (i - count_true(state@, i as int)),
                    pi[uq - 1].val() >= pi[old_uq as int].val(),
                    sorted_table@.subrange(0, st as int).to_multiset() == starts_seq(
                        pi,
                        0,
                        uq as int,
                    ).to_multiset().add(fillers_seq(pi, permuted_table@, i as int).to_multiset()),
                decreases n - uq,
            {
                proof {
                    assert(pi[uq as int].val() >= pi[uq - 1].val());
                }
                uq += 1;
            }
            proof {
                if covered && uq < n {
                    assert(pi[uq as int].val() > pi[uq - 1].val()) by {
                        assert(pi[uq - 1].val() <= pi[uq as int].val());
                    }
                    assert forall|t: int| 0 <= t < st implies #[trigger] sorted_table@[t].val()
                        < pi[uq as int].val() by {
                        if t < old_st {
                            assert(sorted_table@[t].val() < pi[old_uq as int].val());
                        }
                    }
                }
            }
        }
        if !state[i] {
            proof {
                lemma_count_false_strict(state@, i as int, n as int);
                lemma_count_true_bounds(state@, uq as int, n as int);
                sorted_table@.to_multiset_ensures();
                assert(sorted_table@.contains(sorted_table@[st as int]));
                if covered && uq < n {
                    // the pending run's value lies at or after `st` in the sorted table
                    let v = pi[uq as int];
                    pi.to_multiset_ensures();
                    input_prefix.to_multiset_ensures();
                    assert(pi.contains(v));
                    assert(pi.to_multiset().count(v) > 0);
                    assert(input_prefix.to_multiset().count(v) > 0);
                    assert(input_prefix.contains(v));
                    let q = choose|q: int| 0 <= q < input_prefix.len() && input_prefix[q] == v;
                    assert(input@[q] == v);
                    assert(table_prefix.contains(v));
                    table_prefix.to_multiset_ensures();
                    assert(table_prefix.to_multiset().count(v) > 0);
                    assert(sorted_table@.to_multiset().count(v) > 0);
                    assert(sorted_table@.contains(v));
                    let p = choose|p: int| 0 <= p < n && sorted_table@[p] == v;
                    if p < st {
                        assert(sorted_table@[p].val() < v.val());
                    }
                    assert(sorted_table@[st as int].val() <= sorted_table@[p].val());
                    assert(sorted_table@[st as int].val() != v.val());
                }
            }
            let ghost before = permuted_table@;
            permuted_table.set(i, sorted_table[st]);
            proof {
                lemma_fillers_frame(pi, before, permuted_table@, i as int);
                assert(sorted_table@.subrange(0, st + 1) =~= sorted_table@.subrange(0, st as int).push(
                    sorted_table@[st as int],
                ));
                sorted_table@.subrange(0, st as int).to_multiset_ensures();
                fillers_seq(pi, permuted_table@, i as int).to_multiset_ensures();
                assert(sorted_table@.subrange(0, st + 1).to_multiset() =~= starts_seq(
                    pi,
                    0,
                    uq as int,
                ).to_multiset().add(fillers_seq(pi, permuted_table@, i + 1).to_multiset()));
                let f0 = fillers_seq(pi, before, i as int);
                let f1 = fillers_seq(pi, permuted_table@, i + 1);
                assert(f1 == f0.push(sorted_table@[st as int]));
                assert forall|k: int| 0 <= k < f0.len() implies #[trigger] f0[k].val()
                    <= sorted_table@[st as int].val() by {
                    assert(f0[k].val() <= sorted_table@[st as int].val());
                }
                assert(sorted_prefix(f1, f1.len() as int)) by {
                    assert forall|a: int, b: int| 0 <= a <= b < f1.len() implies #[trigger] f1[a].val()
                        <= #[trigger] f1[b].val() by {
                        if b < f0.len() {
                            assert(f1[a] == f0[a] && f1[b] == f0[b]);
                        } else if a < f0.len() {
                            assert(f1[a] == f0[a]);
                        }
                    }
                }
                assert forall|k: int, t: int| 0 <= k < f1.len() && st + 1 <= t < n implies #[trigger] f1[k].val()
                    <= #[trigger] sorted_table@[t].val() by {
                    assert(sorted_table@[st as int].val() <= sorted_table@[t].val());
                    if k < f0.len() {
                        assert(f1[k] == f0[k]);
                    }
                }
            }
            st += 1;
        }
        proof {
            lemma_count_true_bounds(state@, i as int, i as int + 1);
            let f = fillers_seq(pi, permuted_table@, i + 1);
            assert forall|k: int, t: int| 0 <= k < f.len() && st <= t < n implies #[trigger] f[k].val()
                <= #[trigger] sorted_table@[t].val() by {
                if state@[i as int] {
                    assert(f == fillers_seq(pi, permuted_table@, i as int));
                }
            }
        }
        i += 1;
    }
    proof {
        if covered {
            assert forall|x: Scalar| pi.contains(x) implies sorted_table@.contains(x) by {
                pi.to_multiset_ensures();
                input_prefix.to_multiset_ensures();
                assert(pi.to_multiset().count(x) > 0);
                assert(input_prefix.to_multiset().count(x) > 0);
                assert(input_prefix.contains(x));
                let q = choose|q: int| 0 <= q < input_prefix.len() && input_prefix[q] == x;
                assert(input@[q] == x);
                assert(table_prefix.contains(x));
                table_prefix.to_multiset_ensures();
                sorted_table@.to_multiset_ensures();
                assert(table_prefix.to_multiset().count(x) > 0);
                assert(sorted_table@.to_multiset().count(x) > 0);
            }
            lemma_table_permuted(pi, sorted_table@, permuted_table@, state@, uq as int, st as int);
        }
    }

    let ghost sorted_input = permuted_input@;
    let ghost filled_table = permuted_table@;
    pad_with_zero(&mut permuted_input, input.len());
    pad_with_zero(&mut permuted_table, input.len());
    proof {
        assert(permuted_table@.subrange(0, n as int) == filled_table);
        assert forall|j: int| 0 <= j < n implies permuted_input@[j] == sorted_input[j]
            && permuted_table@[j] == filled_table[j] by {
            assert(permuted_input@.subrange(0, n as int)[j] == permuted_input@[j]);
            assert(permuted_table@.subrange(0, n as int)[j] == permuted_table@[j]);
        }
        lemma_fillers_frame2(permuted_input@, sorted_input, permuted_table@, filled_table, n as int);
        assert(permuted_input@.subrange(0, n as int) == sorted_input);
        assert forall|j: int| 0 <= j < n implies #[trigger] permuted_input@[j] == sorted_input[j]
            && permuted_table@[j] == filled_table[j] by {
            assert(permuted_input@.subrange(0, n as int)[j] == permuted_input@[j]);
            assert(permuted_table@.subrange(0, n as int)[j] == permuted_table@[j]);
        }
    }
    (permuted_input, permuted_table)
}

} // verus!

verus! {

/// The denominator of the lookup grand product's factor of row `j`.
pub open spec fn lookup_den(
    permuted_input: Seq<Scalar>,
    permuted_table: Seq<Scalar>,
    beta: int,
    gamma: int,
    j: int,
) -> int {
    fmul(fadd(beta, permuted_input[j].val()), fadd(gamma, permuted_table[j].val()))
}

/// The lookup grand product's factor of row `j`: numerator over denominator.
pub open spec fn lookup_ratio(
    permuted_input: Seq<Scalar>,
    permuted_table: Seq<Scalar>,
    input: Seq<Scalar>,
    table: Seq<Scalar>,
    beta: int,
    gamma: int,
    j: int,
) -> int {
    let den = lookup_den(permuted_input, permuted_table, beta, gamma, j);
    let num = fmul(fadd(beta, input[j].val()), fadd(gamma, table[j].val()));
    fmul(finv(den), num)
}

pub open spec fn lookup_ratios(
    permuted_input: Seq<Scalar>,
    permuted_table: Seq<Scalar>,
    input: Seq<Scalar>,
    table: Seq<Scalar>,
    beta: int,
    gamma: int,
) -> Seq<int> {
    Seq::new(
        input.len(),
        |j: int| lookup_ratio(permuted_input, permuted_table, input, table, beta, gamma, j),
    )
}

/// The lookup grand product column `z`.
///
/// Row `j` up to `unusable_rows_start` holds the product, over the rows before
/// `j`, of `(beta + input) * (gamma + table)` divided by
/// `(beta + permuted_input) * (gamma + permuted_table)`; so row 0 holds one.
/// The rows after `unusable_rows_start` are zero.
pub fn lookup_product(
    permuted_input: &Vec<Scalar>,
    permuted_table: &Vec<Scalar>,
    input: &Vec<Scalar>,
    table: &Vec<Scalar>,
    beta: Scalar,
    gamma: Scalar,
    unusable_rows_start: usize,
) -> (z: Vec<Scalar>)
    requires
        unusable_rows_start < input.len(),
        permuted_input.len() == input.len(),
        permuted_table.len() == input.len(),
        table.len() == input.len(),
    ensures
        z@.len() == input.len(),
        forall|j: int|
            0 <= j <= unusable_rows_start ==> #[trigger] z@[j].val() == prefix_product(
                lookup_ratios(
                    permuted_input@,
                    permuted_table@,
                    input@,
                    table@,
                    beta.val(),
                    gamma.val(),
                ),
                j,
            ),
        forall|j: int| unusable_rows_start < j < input.len() ==> #[trigger] z@[j].val() == 0,
{
    let n = input.len();
    let ghost ratios = lookup_ratios(
        permuted_input@,
        permuted_table@,
        input@,
        table@,
        beta.val(),
        gamma.val(),
    );
    let mut z: Vec<Scalar> = Vec::new();
    let mut i: usize = 0;
    while i < n
        invariant
            i <= n == input.len() == permuted_input.len() == permuted_table.len(),
            z@.len() == i,
            forall|j: int|
                0 <= j < i ==> #[trigger] z@[j].val() == lookup_den(
                    permuted_input@,
                    permuted_table@,
                    beta.val(),
                    gamma.val(),
                    j,
                ),
        decreases n - i,
    {
        let d = fr_mul(fr_add(beta, permuted_input[i]), fr_add(gamma, permuted_table[i]));
        z.push(d);
        i += 1;
    }
    let ghost before = z@;
    fr_batch_invert(&mut z);
    proof {
        lemma_batch_inverted(before, z@);
    }
    let mut i: usize = 0;
    while i < n
        invariant
            i <= n == input.len() == table.len() == permuted_input.len() == permuted_table.len(),
            z@.len() == n,
            ratios == lookup_ratios(
                permuted_input@,
                permuted_table@,
                input@,
                table@,
                beta.val(),
                gamma.val(),
            ),
            forall|j: int| 0 <= j < i ==> #[trigger] z@[j].val() == ratios[j],
            forall|j: int|
                i <= j < n ==> #[trigger] z@[j].val() == finv(
                    lookup_den(permuted_input@, permuted_table@, beta.val(), gamma.val(), j),
                ),
        decreases n - i,
    {
        let num = fr_mul(fr_add(beta, input[i]), fr_add(gamma, table[i]));
        let v = fr_mul(z[i], num);
        z.set(i, v);
        i += 1;
    }
    // Shift-then-multiply: each row takes the product of the rows before it.
    let mut tmp = Scalar::one();
    let mut i: usize = 0;
    while i <= unusable_rows_start
        invariant
            i <= unusable_rows_start + 1,
            unusable_rows_start < n,
            z@.len() == n,
            ratios.len() == n,
            tmp.val() == prefix_product(ratios, i as int),
            forall|j: int| 0 <= j < i ==> #[trigger] z@[j].val() == prefix_product(ratios, j),
            forall|j: int| i <= j < n ==> #[trigger] z@[j].val() == ratios[j],
        decreases unusable_rows_start + 1 - i,
    {
        let cur = z[i];
        z.set(i, tmp);
        tmp = fr_mul(tmp, cur);
        i += 1;
    }
    let zero = Scalar::zero();
    let mut i: usize = unusable_rows_start + 1;
    while i < n
        invariant
            unusable_rows_start < i <= n,
            z@.len() == n,
            zero.val() == 0,
            forall|j: int|
                0 <= j <= unusable_rows_start ==> #[trigger] z@[j].val() == prefix_product(
                    ratios,
                    j,
                ),
            forall|j: int| unusable_rows_start < j < i ==> #[trigger] z@[j].val() == 0,
        decreases n - i,
    {
        z.set(i, zero);
        i += 1;
    }
    z
}

} // verus!

verus! {

/// A lookup argument: its input expressions must take values among its table's.
pub struct LookupArgument {
    pub input_expressions: Vec<Expression>,
    pub table_expressions: Vec<Expression>,
}

/// The three shapes of lookup, handled by three paths.
#[derive(Clone, Copy, Debug, PartialEq, Eq, Structural)]
pub enum LookupClass {
    /// One input and one table expression, each a constant or a column.
    SingleUnit,
    /// One input and one table expression, not both constants or columns.
    SingleComposite,
    /// Several input or table expressions, combined with powers of `theta`.
    Tuple,
}

pub open spec fn lookup_class(l: LookupArgument) -> LookupClass {
    if l.input_expressions@.len() == 1 && l.table_expressions@.len() == 1 {
        if is_pure_unit(l.input_expressions@[0]) && is_pure_unit(l.table_expressions@[0]) {
            LookupClass::SingleUnit
        } else {
            LookupClass::SingleComposite
        }
    } else {
        LookupClass::Tuple
    }
}

/// The indices, in increasing order, of the first `n` lookups that are of class `c`.
pub open spec fn class_indices(ls: Seq<LookupArgument>, c: LookupClass, n: int) -> Seq<usize>
    decreases n,
{
    if n <= 0 {
        seq![]
    } else if lookup_class(ls[n - 1]) == c {
        class_indices(ls, c, n - 1).push((n - 1) as usize)
    } else {
        class_indices(ls, c, n - 1)
    }
}

/// Sorts the lookups by shape: the indices of single unit lookups, of single
/// composite lookups and of tuple lookups, each in increasing order.
pub fn lookup_classify(lookups: &Vec<LookupArgument>) -> (r: (Vec<usize>, Vec<usize>, Vec<usize>))
    ensures
        r.0@ == class_indices(lookups@, LookupClass::SingleUnit, lookups@.len() as int),
        r.1@ == class_indices(lookups@, LookupClass::SingleComposite, lookups@.len() as int),
        r.2@ == class_indices(lookups@, LookupClass::Tuple, lookups@.len() as int),
{
    let mut single_unit_lookups: Vec<usize> = Vec::new();
    let mut single_comp_lookups: Vec<usize> = Vec::new();
    let mut tuple_lookups: Vec<usize> = Vec::new();
    let mut i: usize = 0;
    while i < lookups.len()
        invariant
            i <= lookups@.len(),
            single_unit_lookups@ == class_indices(lookups@, LookupClass::SingleUnit, i as int),
            single_comp_lookups@ == class_indices(
                lookups@,
                LookupClass::SingleComposite,
                i as int,
            ),
            tuple_lookups@ == class_indices(lookups@, LookupClass::Tuple, i as int),
        decreases lookups@.len() - i,
    {
        let lookup = &lookups[i];
        let is_single = lookup.input_expressions.len() == 1 && lookup.table_expressions.len() == 1;
        if is_single {
            let is_unit = is_expression_pure_unit(&lookup.input_expressions[0])
                && is_expression_pure_unit(&lookup.table_expressions[0]);
            if is_unit {
                single_unit_lookups.push(i);
            } else {
                single_comp_lookups.push(i);
            }
        } else {
            tuple_lookups.push(i);
        }
        i += 1;
    }
    (single_unit_lookups, single_comp_lookups, tuple_lookups)
}

/// Fills the first `n` rows of `target` with the values of a constant or of a
/// column read at the current row.
pub fn fill_unit_column(
    expr: &Expression,
    size: usize,
    fixed: &Vec<Vec<Scalar>>,
    advice: &Vec<Vec<Scalar>>,
    instance: &Vec<Vec<Scalar>>,
    target: &mut Vec<Scalar>,
    n: usize,
)
    requires
        is_pure_unit(*expr),
        forall|j: int|
            0 <= j < n ==> evaluable(*expr, fixed@, advice@, instance@, size as int, 1, j),
        n <= size,
        n <= old(target)@.len(),
    ensures
        final(target)@.len() == old(target)@.len(),
        forall|j: int|
            0 <= j < n ==> #[trigger] final(target)@[j].val() == expr_value(
                *expr,
                fixed@,
                advice@,
                instance@,
                size as int,
                1,
                j,
            ),
        forall|j: int| n <= j < old(target)@.len() ==> #[trigger] final(target)@[j] == old(target)@[j],
{
    let mut j: usize = 0;
    while j < n
        invariant
            is_pure_unit(*expr),
            forall|k: int|
                0 <= k < n ==> evaluable(*expr, fixed@, advice@, instance@, size as int, 1, k),
            n <= size,
            j <= n <= target@.len(),
            target@.len() == old(target)@.len(),
            forall|k: int|
                0 <= k < j ==> #[trigger] target@[k].val() == expr_value(
                    *expr,
                    fixed@,
                    advice@,
                    instance@,
                    size as int,
                    1,
                    k,
                ),
            forall|k: int| n <= k < target@.len() ==> #[trigger] target@[k] == old(target)@[k],
        decreases n - j,
    {
        proof {
            vstd::arithmetic::div_mod::lemma_small_mod(j as nat, size as nat);
            assert(evaluable(*expr, fixed@, advice@, instance@, size as int, 1, j as int));
        }
        let v = match expr {
            Expression::Constant(c) => *c,
            Expression::Fixed { column_index, .. } => fixed[*column_index][j],
            Expression::Advice { column_index, .. } => advice[*column_index][j],
            Expression::Instance { column_index, .. } => instance[*column_index][j],
            _ => {
                proof {
                    assert(false);
                }
                Scalar::zero()
            },
        };
        target.set(j, v);
        j += 1;
    }
}

} // verus!

verus! {

/// The values of the rows of `pi` in `[a, b)` where runs begin, in order.
pub open spec fn starts_seq(pi: Seq<Scalar>, a: int, b: int) -> Seq<Scalar>
    decreases b - a,
{
    if b <= a {
        seq![]
    } else if run_start(pi, b - 1) {
        starts_seq(pi, a, b - 1).push(pi[b - 1])
    } else {
        starts_seq(pi, a, b - 1)
    }
}

/// The values of `pt` in the rows below `b` where no run of `pi` begins, in order.
pub open spec fn fillers_seq(pi: Seq<Scalar>, pt: Seq<Scalar>, b: int) -> Seq<Scalar>
    decreases b,
{
    if b <= 0 {
        seq![]
    } else if !run_start(pi, b - 1) {
        fillers_seq(pi, pt, b - 1).push(pt[b - 1])
    } else {
        fillers_seq(pi, pt, b - 1)
    }
}

/// Strictly increasing by value.
pub open spec fn increasing(s: Seq<Scalar>) -> bool {
    forall|i: int, j: int| 0 <= i < j < s.len() ==> #[trigger] s[i].val() < #[trigger] s[j].val()
}

proof fn lemma_starts_split(pi: Seq<Scalar>, a: int, b: int, c: int)
    requires
        a <= b <= c,
    ensures
        starts_seq(pi, a, c) == starts_seq(pi, a, b) + starts_seq(pi, b, c),
    decreases c - b,
{
    if c > b {
        lemma_starts_split(pi, a, b, c - 1);
    } else {
        assert(starts_seq(pi, a, b) + starts_seq(pi, b, c) =~= starts_seq(pi, a, b));
    }
    if c > b {
        if run_start(pi, c - 1) {
            assert(starts_seq(pi, a, c) =~= starts_seq(pi, a, b) + starts_seq(pi, b, c));
        }
    }
}

proof fn lemma_starts_len(pi: Seq<Scalar>, state: Seq<bool>, a: int, b: int)
    requires
        0 <= a <= b <= pi.len(),
        state.len() == pi.len(),
        forall|j: int| 0 <= j < pi.len() ==> #[trigger] state[j] == run_start(pi, j),
    ensures
        starts_seq(pi, a, b).len() == count_true(state, b) - count_true(state, a),
    decreases b - a,
{
    if b > a {
        lemma_starts_len(pi, state, a, b - 1);
    }
}

/// The run starts of a sorted column increase, are values of the column,
/// and lie between its values at the ends of the range.
proof fn lemma_starts_shape(pi: Seq<Scalar>, a: int, b: int)
    requires
        0 <= a <= b <= pi.len(),
        sorted_prefix(pi, pi.len() as int),
    ensures
        increasing(starts_seq(pi, a, b)),
        forall|k: int|
            0 <= k < starts_seq(pi, a, b).len() ==> pi.contains(#[trigger] starts_seq(pi, a, b)[k])
                && starts_seq(pi, a, b)[k].val() >= pi[a].val() && starts_seq(pi, a, b)[k].val()
                <= pi[b - 1].val(),
    decreases b - a,
{
    if b > a {
        lemma_starts_shape(pi, a, b - 1);
        let prev = starts_seq(pi, a, b - 1);
        let cur = starts_seq(pi, a, b);
        assert forall|k: int| 0 <= k < prev.len() implies #[trigger] prev[k].val() <= pi[b - 1].val() by {
            assert(pi[b - 2].val() <= pi[b - 1].val());
        }
        if run_start(pi, b - 1) {
            assert forall|k: int| 0 <= k < prev.len() implies #[trigger] prev[k].val() < pi[b - 1].val() by {
                assert(pi[b - 2].val() <= pi[b - 1].val());
            }
            assert(pi.contains(pi[b - 1]));
            assert(pi[a].val() <= pi[b - 1].val());
            assert forall|i: int, j: int| 0 <= i < j < cur.len() implies #[trigger] cur[i].val()
                < #[trigger] cur[j].val() by {
                if j == cur.len() - 1 {
                    assert(cur[i] == prev[i]);
                } else {
                    assert(cur[i] == prev[i] && cur[j] == prev[j]);
                }
            }
            assert forall|k: int| 0 <= k < cur.len() implies pi.contains(#[trigger] cur[k])
                && cur[k].val() >= pi[a].val() && cur[k].val() <= pi[b - 1].val() by {
                if k < prev.len() {
                    assert(cur[k] == prev[k]);
                }
            }
        }
    }
}

proof fn lemma_fillers_frame(pi: Seq<Scalar>, pt1: Seq<Scalar>, pt2: Seq<Scalar>, b: int)
    requires
        0 <= b <= pt1.len(),
        b <= pt2.len(),
        b <= pi.len(),
        forall|j: int| 0 <= j < b ==> pt1[j] == pt2[j],
    ensures
        fillers_seq(pi, pt1, b) == fillers_seq(pi, pt2, b),
    decreases b,
{
    lemma_fillers_frame2(pi, pi, pt1, pt2, b);
}

proof fn lemma_fillers_frame2(
    pi1: Seq<Scalar>,
    pi2: Seq<Scalar>,
    pt1: Seq<Scalar>,
    pt2: Seq<Scalar>,
    b: int,
)
    requires
        0 <= b <= pt1.len(),
        b <= pt2.len(),
        b <= pi1.len(),
        b <= pi2.len(),
        forall|j: int| 0 <= j < b ==> pt1[j] == pt2[j] && pi1[j] == pi2[j],
    ensures
        fillers_seq(pi1, pt1, b) == fillers_seq(pi2, pt2, b),
    decreases b,
{
    if b > 0 {
        lemma_fillers_frame2(pi1, pi2, pt1, pt2, b - 1);
        assert(run_start(pi1, b - 1) == run_start(pi2, b - 1));
    }
}

/// A column that holds the run's value where each run begins holds, as a
/// multiset, those run values and its other rows.
proof fn lemma_split_multiset(pi: Seq<Scalar>, pt: Seq<Scalar>, b: int)
    requires
        0 <= b <= pt.len(),
        b <= pi.len(),
        forall|j: int| 0 <= j < b ==> run_start(pi, j) ==> #[trigger] pt[j] == pi[j],
    ensures
        pt.subrange(0, b).to_multiset() == starts_seq(pi, 0, b).to_multiset().add(
            fillers_seq(pi, pt, b).to_multiset(),
        ),
    decreases b,
{
    if b == 0 {
        assert(pt.subrange(0, 0) =~= Seq::<Scalar>::empty());
        assert(starts_seq(pi, 0, 0) =~= Seq::<Scalar>::empty());
        starts_seq(pi, 0, 0).to_multiset_ensures();
        assert(starts_seq(pi, 0, 0).to_multiset().len() == 0);
        assert(starts_seq(pi, 0, 0).to_multiset() =~= Multiset::empty());
        assert(fillers_seq(pi, pt, 0).to_multiset() =~= Multiset::empty());
        assert(pt.subrange(0, 0).to_multiset() =~= Multiset::empty());
    } else {
        lemma_split_multiset(pi, pt, b - 1);
        assert(pt.subrange(0, b) =~= pt.subrange(0, b - 1).push(pt[b - 1]));
        pt.subrange(0, b - 1).to_multiset_ensures();
        starts_seq(pi, 0, b - 1).to_multiset_ensures();
        fillers_seq(pi, pt, b - 1).to_multiset_ensures();
        assert(pt.subrange(0, b).to_multiset() =~= starts_seq(pi, 0, b).to_multiset().add(
            fillers_seq(pi, pt, b).to_multiset(),
        ));
    }
}

/// An increasing sequence whose values all occur in a sorted one is no
/// longer, and when as long, it is the sorted one.
proof fn lemma_increasing_within_sorted(u: Seq<Scalar>, s: Seq<Scalar>)
    requires
        increasing(u),
        sorted_prefix(s, s.len() as int),
        forall|k: int| 0 <= k < u.len() ==> s.contains(#[trigger] u[k]),
    ensures
        u.len() <= s.len(),
        u.len() == s.len() ==> u == s,
    decreases u.len(),
{
    if u.len() == 0 {
        if s.len() == 0 {
            assert(u =~= s);
        }
    } else {
        let m = u.len() - 1;
        assert(s.contains(u[m]));
        let p = choose|p: int| 0 <= p < s.len() && s[p] == u[m];
        let s1 = s.subrange(0, p);
        let u1 = u.drop_last();
        assert forall|k: int| 0 <= k < u1.len() implies s1.contains(#[trigger] u1[k]) by {
            assert(u1[k] == u[k]);
            assert(s.contains(u[k]));
            let q = choose|q: int| 0 <= q < s.len() && s[q] == u[k];
            assert(u[k].val() < u[m].val());
            if q >= p {
                assert(s[p].val() <= s[q].val());
            }
            assert(s1[q] == s[q]);
        }
        lemma_increasing_within_sorted(u1, s1);
        if u.len() == s.len() {
            assert(p == m);
            assert(u1 == s1);
            assert forall|k: int| 0 <= k < u.len() implies u[k] == s[k] by {
                if k < m {
                    assert(u1[k] == u[k]);
                    assert(s1[k] == s[k]);
                }
            }
            assert(u =~= s);
        }
    }
}

} // verus!

verus! {

/// When every value of the permuted input occurs in the sorted table, the
/// rows that the walk over the sorted table leaves unconsumed are exactly the
/// values of the runs it did not reach, so the permuted table holds the
/// sorted table's values.
proof fn lemma_table_permuted(
    pi: Seq<Scalar>,
    sorted: Seq<Scalar>,
    pt: Seq<Scalar>,
    state: Seq<bool>,
    uq: int,
    st: int,
)
    requires
        pi.len() == sorted.len(),
        pt.len() == pi.len(),
        state.len() == pi.len(),
        0 <= uq <= pi.len(),
        sorted_prefix(pi, pi.len() as int),
        sorted_prefix(sorted, sorted.len() as int),
        forall|j: int| 0 <= j < pi.len() ==> #[trigger] state[j] == run_start(pi, j),
        forall|j: int| 0 <= j < pi.len() ==> state[j] ==> #[trigger] pt[j] == pi[j],
        st == count_true(state, uq) + (pi.len() - count_true(state, pi.len() as int)),
        sorted.subrange(0, st).to_multiset() == starts_seq(pi, 0, uq).to_multiset().add(
            fillers_seq(pi, pt, pi.len() as int).to_multiset(),
        ),
        uq < pi.len() ==> forall|t: int| 0 <= t < st ==> #[trigger] sorted[t].val() < pi[uq].val(),
        forall|x: Scalar| pi.contains(x) ==> sorted.contains(x),
    ensures
        pt.to_multiset() == sorted.to_multiset(),
{
    let n = pi.len() as int;
    lemma_count_true_bounds(state, uq, n);
    lemma_starts_shape(pi, uq, n);
    lemma_starts_len(pi, state, uq, n);
    let u = starts_seq(pi, uq, n);
    let s = sorted.subrange(st, n);
    assert forall|k: int| 0 <= k < u.len() implies s.contains(#[trigger] u[k]) by {
        assert(pi.contains(u[k]));
        assert(sorted.contains(u[k]));
        let p = choose|p: int| 0 <= p < n && sorted[p] == u[k];
        if p < st {
            assert(sorted[p].val() < pi[uq].val());
        }
        assert(s[p - st] == u[k]);
    }
    assert(sorted_prefix(s, s.len() as int)) by {
        assert forall|a: int, b: int| 0 <= a <= b < s.len() implies #[trigger] s[a].val()
            <= #[trigger] s[b].val() by {
            assert(s[a] == sorted[a + st]);
            assert(s[b] == sorted[b + st]);
        }
    }
    lemma_increasing_within_sorted(u, s);
    assert(u == s);
    assert(sorted =~= sorted.subrange(0, st) + s);
    vstd::seq_lib::lemma_multiset_commutative(sorted.subrange(0, st), s);
    lemma_starts_split(pi, 0, uq, n);
    vstd::seq_lib::lemma_multiset_commutative(starts_seq(pi, 0, uq), u);
    lemma_split_multiset(pi, pt, n);
    assert(pt.subrange(0, n) =~= pt);
    assert(pt.to_multiset() =~= sorted.to_multiset());
}

} // verus!

verus! {

/// A lookup's input or table column over `size` rows: the first
/// `unusable_rows_start` rows hold the value of its one expression, or, with
/// `theta`, its expressions combined with powers of `theta`; the other rows
/// are zero.
pub fn lookup_column(
    exprs: &Vec<Expression>,
    size: usize,
    unusable_rows_start: usize,
    fixed: &Vec<Vec<Scalar>>,
    advice: &Vec<Vec<Scalar>>,
    instance: &Vec<Vec<Scalar>>,
    theta: Option<Scalar>,
) -> (r: Vec<Scalar>)
    requires
        0 < size <= i32::MAX,
        unusable_rows_start <= size,
        theta is None ==> exprs@.len() == 1,
        forall|i: int, j: int|
            0 <= i < exprs@.len() && 0 <= j < unusable_rows_start ==> evaluable(
                exprs@[i],
                fixed@,
                advice@,
                instance@,
                size as int,
                1,
                j,
            ),
    ensures
        r@.len() == size,
        forall|j: int|
            0 <= j < unusable_rows_start ==> #[trigger] r@[j].val() == match theta {
                None => expr_value(exprs@[0], fixed@, advice@, instance@, size as int, 1, j),
                Some(t) => exprs_value(
                    exprs@,
                    fixed@,
                    advice@,
                    instance@,
                    size as int,
                    1,
                    t.val(),
                    0,
                    j,
                    exprs@.len() as int,
                ),
            },
        forall|j: int| unusable_rows_start <= j < size ==> #[trigger] r@[j].val() == 0,
{
    let mut prefix: Vec<Scalar> = Vec::new();
    pad_with_zero(&mut prefix, unusable_rows_start);
    let ghost zeros = prefix@;
    assert(forall|j: int| 0 <= j < unusable_rows_start ==> #[trigger] zeros[j].val() == 0);
    match theta {
        None => {
            if is_expression_pure_unit(&exprs[0]) {
                fill_unit_column(
                    &exprs[0],
                    size,
                    fixed,
                    advice,
                    instance,
                    &mut prefix,
                    unusable_rows_start,
                );
            } else {
                evaluate_expr(&exprs[0], size, 1, fixed, advice, instance, &mut prefix);
            }
        },
        Some(t) => {
            evaluate_exprs(exprs, size, 1, fixed, advice, instance, t, &mut prefix);
            assert(forall|j: int|
                0 <= j < unusable_rows_start ==> #[trigger] prefix@[j].val() == exprs_value(
                    exprs@,
                    fixed@,
                    advice@,
                    instance@,
                    size as int,
                    1,
                    t.val(),
                    zeros[j].val(),
                    j,
                    exprs@.len() as int,
                ));
        },
    }
    let ghost filled = prefix@;
    assert(forall|j: int|
        0 <= j < unusable_rows_start ==> #[trigger] filled[j].val() == match theta {
            None => expr_value(exprs@[0], fixed@, advice@, instance@, size as int, 1, j),
            Some(t) => exprs_value(
                exprs@,
                fixed@,
                advice@,
                instance@,
                size as int,
                1,
                t.val(),
                0,
                j,
                exprs@.len() as int,
            ),
        });
    pad_with_zero(&mut prefix, size);
    proof {
        assert forall|j: int| 0 <= j < unusable_rows_start implies #[trigger] prefix@[j].val()
            == match theta {
            None => expr_value(exprs@[0], fixed@, advice@, instance@, size as int, 1, j),
            Some(t) => exprs_value(
                exprs@,
                fixed@,
                advice@,
                instance@,
                size as int,
                1,
                t.val(),
                0,
                j,
                exprs@.len() as int,
            ),
        } by {
            assert(prefix@.subrange(0, unusable_rows_start as int)[j] == prefix@[j]);
            assert(prefix@[j] == filled[j]);
        }
    }
    prefix
}

} // verus!
