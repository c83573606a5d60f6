//! The copy-permutation argument: one grand product column per chunk of
//! permuted columns.
use vstd::prelude::*;
use crate::column::Column;
use crate::column::ColumnKind;
use crate::column::ColumnValues;
use crate::field::Scalar;
use crate::field::fadd;
use crate::field::fmul;
use crate::field::finv;
use crate::field::fpow;
use crate::field::modulus;
use vstd::arithmetic::power::pow;
use vstd::arithmetic::div_mod::lemma_mul_mod_noop_left;
use vstd::arithmetic::div_mod::lemma_small_mod;
use crate::field::fr_add;
use crate::field::fr_mul;
use crate::field::fr_pow;
use crate::field::fr_batch_invert;
use crate::field::lemma_batch_inverted;

verus! {

/// The running product that starts at `start` and multiplies in the first `i`
/// entries of `s`.
pub open spec fn scan_product(start: int, s: Seq<int>, i: int) -> int
    decreases i,
{
    if i <= 0 {
        start
    } else {
        fmul(scan_product(start, s, i - 1), s[i - 1])
    }
}

/// The factor `delta^c * omega^r` of row `r` of the `c`-th column of a chunk,
/// as the walk over `n` rows per column accumulates it from `start`.
pub open spec fn delta_omega(start: int, omega: int, delta: int, n: nat, c: nat, r: nat) -> int
    decreases c, r,
{
    if r > 0 {
        fmul(delta_omega(start, omega, delta, n, c, (r - 1) as nat), omega)
    } else if c > 0 {
        fmul(delta_omega(start, omega, delta, n, (c - 1) as nat, n), delta)
    } else {
        start
    }
}

/// The product over the first `c` columns of `beta * permuted + gamma + value` in row `r`.
pub open spec fn perm_den(
    vals: Seq<Seq<Scalar>>,
    perms: Seq<Seq<Scalar>>,
    beta: int,
    gamma: int,
    r: int,
    c: int,
) -> int
    decreases c,
{
    if c <= 0 {
        1
    } else {
        fmul(
            perm_den(vals, perms, beta, gamma, r, c - 1),
            fadd(fadd(fmul(beta, perms[c - 1][r].val()), gamma), vals[c - 1][r].val()),
        )
    }
}

/// Row `r` of a chunk's factor column after the numerators of the first `c`
/// columns are multiplied into the inverted denominator.
pub open spec fn perm_ratio(
    vals: Seq<Seq<Scalar>>,
    perms: Seq<Seq<Scalar>>,
    beta: int,
    gamma: int,
    start: int,
    omega: int,
    delta: int,
    n: nat,
    r: int,
    c: int,
) -> int
    decreases c,
{
    if c <= 0 {
        finv(perm_den(vals, perms, beta, gamma, r, vals.len() as int))
    } else {
        fmul(
            perm_ratio(vals, perms, beta, gamma, start, omega, delta, n, r, c - 1),
            fadd(
                fadd(
                    fmul(delta_omega(start, omega, delta, n, (c - 1) as nat, r as nat), beta),
                    gamma,
                ),
                vals[c - 1][r].val(),
            ),
        )
    }
}

/// The number of columns in chunk `k`.
pub open spec fn chunk_size(n_columns: int, chunk_len: int, k: int) -> int {
    if n_columns - k * chunk_len < chunk_len {
        n_columns - k * chunk_len
    } else {
        chunk_len
    }
}

/// The setting of a copy-permutation grand product.
pub struct PermutationSetup {
    /// The permuted columns, in order.
    pub columns: Vec<Column>,
    /// For each permuted column, its permutation's values (`sigma`).
    pub permutations: Vec<Vec<Scalar>>,
    /// The number of columns in one chunk.
    pub chunk_len: usize,
    /// The number of rows.
    pub size: usize,
    /// The first row that holds blinding values.
    pub unusable_rows_start: usize,
    pub beta: Scalar,
    pub gamma: Scalar,
    /// The generator of the domain of `size` rows.
    pub omega: Scalar,
    /// The coset generator that separates one column's domain from the next.
    pub delta: Scalar,
}

impl PermutationSetup {
    pub open spec fn wf(&self, cv: &ColumnValues) -> bool {
        &&& self.chunk_len >= 1
        &&& self.unusable_rows_start < self.size
        &&& self.permutations@.len() == self.columns@.len()
        &&& forall|c: int|
            0 <= c < self.columns@.len() ==> cv.has(#[trigger] self.columns@[c])
                && cv.values(self.columns@[c]).len() >= self.size
        &&& forall|c: int|
            0 <= c < self.permutations@.len() ==> #[trigger] self.permutations@[c]@.len()
                >= self.size
    }

    /// Whether the setting is well formed for the columns `cv`.
    pub fn is_wf(&self, cv: &ColumnValues) -> (r: bool)
        ensures
            r == self.wf(cv),
    {
        if self.chunk_len < 1 || self.unusable_rows_start >= self.size
            || self.permutations.len() != self.columns.len() {
            return false;
        }
        let mut c: usize = 0;
        while c < self.columns.len()
            invariant
                c <= self.columns@.len() == self.permutations@.len(),
                forall|j: int|
                    0 <= j < c ==> cv.has(#[trigger] self.columns@[j]) && cv.values(
                        self.columns@[j],
                    ).len() >= self.size,
                forall|j: int| 0 <= j < c ==> #[trigger] self.permutations@[j]@.len() >= self.size,
            decreases self.columns@.len() - c,
        {
            let col = self.columns[c];
            let n = match col.kind {
                ColumnKind::Fixed => cv.fixed.len(),
                ColumnKind::Advice => cv.advice.len(),
                ColumnKind::Instance => cv.instance.len(),
            };
            if col.index >= n {
                return false;
            }
            if cv.column(col).len() < self.size || self.permutations[c].len() < self.size {
                return false;
            }
            c += 1;
        }
        true
    }

    pub open spec fn chunk_vals(&self, cv: &ColumnValues, k: int) -> Seq<Seq<Scalar>> {
        Seq::new(
            chunk_size(self.columns@.len() as int, self.chunk_len as int, k) as nat,
            |c: int| cv.values(self.columns@[k * self.chunk_len + c]),
        )
    }

    pub open spec fn chunk_perms(&self, k: int) -> Seq<Seq<Scalar>> {
        Seq::new(
            chunk_size(self.columns@.len() as int, self.chunk_len as int, k) as nat,
            |c: int| self.permutations@[k * self.chunk_len + c]@,
        )
    }

    /// The factors of chunk `k`, one per row.
    pub open spec fn chunk_ratios(&self, cv: &ColumnValues, k: int) -> Seq<int> {
        Seq::new(
            self.size as nat,
            |r: int|
                perm_ratio(
                    self.chunk_vals(cv, k),
                    self.chunk_perms(k),
                    self.beta.val(),
                    self.gamma.val(),
                    fpow(self.delta.val(), (k * self.chunk_len) as nat),
                    self.omega.val(),
                    self.delta.val(),
                    self.size as nat,
                    r,
                    chunk_size(self.columns@.len() as int, self.chunk_len as int, k),
                ),
        )
    }

    /// The value that chunk `k`'s running product starts from: one for the
    /// first chunk, then the last usable row of the chunk before.
    pub open spec fn chunk_carry(&self, cv: &ColumnValues, k: int) -> int
        decreases k,
    {
        if k <= 0 {
            1
        } else {
            scan_product(
                self.chunk_carry(cv, k - 1),
                self.chunk_ratios(cv, k - 1),
                self.unusable_rows_start as int,
            )
        }
    }
}

/// The factor column of the chunk of `count` columns from `first`.
fn chunk_ratio_column(
    cv: &ColumnValues,
    setup: &PermutationSetup,
    k: usize,
    first: usize,
    count: usize,
) -> (m: Vec<Scalar>)
    requires
        setup.wf(cv),
        first == k * setup.chunk_len,
        count == chunk_size(setup.columns@.len() as int, setup.chunk_len as int, k as int),
        first + count <= setup.columns@.len(),
        count >= 1,
    ensures
        m@.len() == setup.size,
        forall|r: int|
            0 <= r < setup.size ==> #[trigger] m@[r].val() == setup.chunk_ratios(cv, k as int)[r],
{
    let n = setup.size;
    let n_columns = setup.columns.len();
    let ghost vals = setup.chunk_vals(cv, k as int);
    let ghost perms = setup.chunk_perms(k as int);
    let beta = setup.beta;
    let gamma = setup.gamma;
    let omega = setup.omega;
    let delta = setup.delta;
    let mut m: Vec<Scalar> = Vec::new();
    let one = Scalar::one();
    while m.len() < n
        invariant
            m@.len() <= n,
            one.val() == 1,
            forall|r: int| 0 <= r < m@.len() ==> #[trigger] m@[r].val() == 1,
        decreases n - m.len(),
    {
        m.push(one);
    }
    // Denominators: the product over the chunk's columns of beta * sigma + gamma + value.
    let mut c: usize = 0;
    while c < count
        invariant
            setup.wf(cv),
            first == k * setup.chunk_len,
            count == vals.len() == perms.len(),
            first + count <= n_columns == setup.columns@.len(),
            vals == setup.chunk_vals(cv, k as int),
            perms == setup.chunk_perms(k as int),
            n == setup.size,
            beta == setup.beta,
            gamma == setup.gamma,
            c <= count,
            m@.len() == n,
            forall|r: int|
                0 <= r < n ==> #[trigger] m@[r].val() == perm_den(
                    vals,
                    perms,
                    beta.val(),
                    gamma.val(),
                    r,
                    c as int,
                ),
        decreases count - c,
    {
        let col = setup.columns[first + c];
        let values = cv.column(col);
        let perm = &setup.permutations[first + c];
        assert(values@ == vals[c as int]);
        assert(perm@ == perms[c as int]);
        let mut r: usize = 0;
        while r < n
            invariant
                c < count == vals.len() == perms.len(),
                n == setup.size,
                values@ == vals[c as int],
                perm@ == perms[c as int],
                values@.len() >= n,
                perm@.len() >= n,
                r <= n,
                m@.len() == n,
                forall|j: int|
                    0 <= j < r ==> #[trigger] m@[j].val() == perm_den(
                        vals,
                        perms,
                        beta.val(),
                        gamma.val(),
                        j,
                        c + 1,
                    ),
                forall|j: int|
                    r <= j < n ==> #[trigger] m@[j].val() == perm_den(
                        vals,
                        perms,
                        beta.val(),
                        gamma.val(),
                        j,
                        c as int,
                    ),
            decreases n - r,
        {
            let f = fr_add(fr_add(fr_mul(beta, perm[r]), gamma), values[r]);
            let v = fr_mul(m[r], f);
            m.set(r, v);
            r += 1;
        }
        c += 1;
    }
    let ghost before = m@;
    fr_batch_invert(&mut m);
    proof {
        lemma_batch_inverted(before, m@);
    }
    // Numerators: delta^c * omega^r * beta + gamma + value, column by column.
    let start = fr_pow(delta, first as u64);
    let ghost s = start.val();
    let mut dw = start;
    let mut c: usize = 0;
    while c < count
        invariant
            setup.wf(cv),
            first == k * setup.chunk_len,
            count == vals.len() == perms.len(),
            first + count <= n_columns == setup.columns@.len(),
            vals == setup.chunk_vals(cv, k as int),
            perms == setup.chunk_perms(k as int),
            n == setup.size,
            beta == setup.beta,
            gamma == setup.gamma,
            omega == setup.omega,
            delta == setup.delta,
            s == fpow(delta.val(), (k * setup.chunk_len) as nat),
            c <= count,
            m@.len() == n,
            dw.val() == delta_omega(s, omega.val(), delta.val(), n as nat, c as nat, 0),
            forall|r: int|
                0 <= r < n ==> #[trigger] m@[r].val() == perm_ratio(
                    vals,
                    perms,
                    beta.val(),
                    gamma.val(),
                    s,
                    omega.val(),
                    delta.val(),
                    n as nat,
                    r,
                    c as int,
                ),
        decreases count - c,
    {
        let col = setup.columns[first + c];
        let values = cv.column(col);
        assert(values@ == vals[c as int]);
        let mut r: usize = 0;
        while r < n
            invariant
                c < count == vals.len(),
                n == setup.size,
                values@ == vals[c as int],
                values@.len() >= n,
                r <= n,
                m@.len() == n,
                dw.val() == delta_omega(s, omega.val(), delta.val(), n as nat, c as nat, r as nat),
                forall|j: int|
                    0 <= j < r ==> #[trigger] m@[j].val() == perm_ratio(
                        vals,
                        perms,
                        beta.val(),
                        gamma.val(),
                        s,
                        omega.val(),
                        delta.val(),
                        n as nat,
                        j,
                        c + 1,
                    ),
                forall|j: int|
                    r <= j < n ==> #[trigger] m@[j].val() == perm_ratio(
                        vals,
                        perms,
                        beta.val(),
                        gamma.val(),
                        s,
                        omega.val(),
                        delta.val(),
                        n as nat,
                        j,
                        c as int,
                    ),
            decreases n - r,
        {
            let f = fr_add(fr_add(fr_mul(dw, beta), gamma), values[r]);
            let v = fr_mul(m[r], f);
            m.set(r, v);
            dw = fr_mul(dw, omega);
            r += 1;
        }
        dw = fr_mul(dw, delta);
        c += 1;
    }
    proof {
        assert forall|r: int| 0 <= r < setup.size implies #[trigger] m@[r].val()
            == setup.chunk_ratios(cv, k as int)[r] by {}
    }
    m
}

/// The copy-permutation grand products, one column per chunk of
/// `chunk_len` permuted columns.
///
/// Row `r` of a chunk's factor column is the product over the chunk's columns
/// of `delta^c * omega^r * beta + gamma + value` divided by the product of
/// `beta * sigma + gamma + value`, where `c` counts columns from the first
/// column of all chunks. Each chunk's column then holds, in rows up to
/// `unusable_rows_start`, the running product of the factors of the rows
/// before, started from the last usable row of the chunk before (from one for
/// the first chunk); the rows after it repeat the last usable row.
pub fn permutation_products(cv: &ColumnValues, setup: &PermutationSetup) -> (z: Vec<Vec<Scalar>>)
    requires
        setup.wf(cv),
    ensures
        z@.len() * setup.chunk_len >= setup.columns@.len(),
        z@.len() > 0 ==> (z@.len() - 1) * setup.chunk_len < setup.columns@.len(),
        forall|k: int| 0 <= k < z@.len() ==> (#[trigger] z@[k])@.len() == setup.size,
        forall|k: int, r: int|
            0 <= k < z@.len() && 0 <= r <= setup.unusable_rows_start ==> #[trigger] z@[k]@[r].val()
                == scan_product(setup.chunk_carry(cv, k), setup.chunk_ratios(cv, k), r),
        forall|k: int, r: int|
            0 <= k < z@.len() && setup.unusable_rows_start < r < setup.size ==> #[trigger] z@[k]@[r]
                == z@[k]@[setup.unusable_rows_start as int],
{
    let n_columns = setup.columns.len();
    let l = setup.chunk_len;
    let u = setup.unusable_rows_start;
    let n = setup.size;
    let mut z: Vec<Vec<Scalar>> = Vec::new();
    let mut carry = Scalar::one();
    let mut k: usize = 0;
    let mut first: usize = 0;
    while first < n_columns
        invariant
            setup.wf(cv),
            n_columns == setup.columns@.len(),
            l == setup.chunk_len,
            u == setup.unusable_rows_start,
            n == setup.size,
            first <= n_columns,
            first < n_columns ==> first == k * l,
            first <= k * l,
            k <= first,
            k > 0 ==> (k - 1) * l < n_columns,
            z@.len() == k,
            carry.val() == setup.chunk_carry(cv, k as int),
            forall|kk: int| 0 <= kk < z@.len() ==> (#[trigger] z@[kk])@.len() == setup.size,
            forall|kk: int, r: int|
                0 <= kk < z@.len() && 0 <= r <= setup.unusable_rows_start
                    ==> #[trigger] z@[kk]@[r].val() == scan_product(
                    setup.chunk_carry(cv, kk),
                    setup.chunk_ratios(cv, kk),
                    r,
                ),
            forall|kk: int, r: int|
                0 <= kk < z@.len() && setup.unusable_rows_start < r < setup.size
                    ==> #[trigger] z@[kk]@[r] == z@[kk]@[setup.unusable_rows_start as int],
        decreases n_columns - first,
    {
        let count = if n_columns - first < l {
            n_columns - first
        } else {
            l
        };
        let mut m = chunk_ratio_column(cv, setup, k, first, count);
        let ghost ratios = setup.chunk_ratios(cv, k as int);
        let ghost c0 = carry.val();
        // Shift-then-multiply: each row takes the product of the rows before it.
        let mut tmp = carry;
        let mut r: usize = 0;
        while r <= u
            invariant
                u < n,
                r <= u + 1,
                m@.len() == n,
                ratios.len() == n,
                tmp.val() == scan_product(c0, ratios, r as int),
                forall|j: int| 0 <= j < r ==> #[trigger] m@[j].val() == scan_product(c0, ratios, j),
                forall|j: int| r <= j < n ==> #[trigger] m@[j].val() == ratios[j],
            decreases u + 1 - r,
        {
            let cur = m[r];
            m.set(r, tmp);
            tmp = fr_mul(tmp, cur);
            r += 1;
        }
        let last = m[u];
        let mut r: usize = u + 1;
        while r < n
            invariant
                u < r <= n,
                m@.len() == n,
                last == m@[u as int],
                forall|j: int| 0 <= j <= u ==> #[trigger] m@[j].val() == scan_product(c0, ratios, j),
                forall|j: int| u < j < r ==> #[trigger] m@[j] == last,
            decreases n - r,
        {
            m.set(r, last);
            r += 1;
        }
        carry = last;
        z.push(m);
        proof {
            assert(carry.val() == setup.chunk_carry(cv, k + 1));
            assert forall|kk: int, j: int|
                0 <= kk < z@.len() && 0 <= j <= setup.unusable_rows_start implies #[trigger] z@[kk]@[j].val()
                    == scan_product(setup.chunk_carry(cv, kk), setup.chunk_ratios(cv, kk), j) by {
                if kk == k {
                    assert(z@[kk] == m);
                }
            }
        }
        proof {
            assert((k + 1) * l == k * l + l) by (nonlinear_arith);
        }
        k += 1;
        first += count;
    }
    z
}

} // verus!

verus! {

/// The walk's factor is `start * delta^c * omega^(n*c + r)`, reduced.
pub proof fn lemma_delta_omega_closed_form(
    start: int,
    omega: int,
    delta: int,
    n: nat,
    c: nat,
    r: nat,
)
    requires
        0 <= start < modulus(),
    ensures
        delta_omega(start, omega, delta, n, c, r) == (start * (pow(delta, c) * pow(
            omega,
            n * c + r,
        ))) % modulus(),
    decreases c, r,
{
    reveal(pow);
    let m = modulus();
    if r > 0 {
        lemma_delta_omega_closed_form(start, omega, delta, n, c, (r - 1) as nat);
        let pd = pow(delta, c);
        let pw = pow(omega, (n * c + r - 1) as nat);
        assert(pow(omega, n * c + r) == omega * pw) by {
            assert((n * c + r) as nat == ((n * c + r - 1) as nat + 1) as nat);
        }
        assert(delta_omega(start, omega, delta, n, c, (r - 1) as nat) == (start * (pd * pw)) % m);
        lemma_mul_mod_noop_left(start * (pd * pw), omega, m);
        assert((start * (pd * pw)) * omega == start * (pd * (omega * pw))) by (nonlinear_arith);
        assert(delta_omega(start, omega, delta, n, c, r) == fmul(
            delta_omega(start, omega, delta, n, c, (r - 1) as nat),
            omega,
        ));
        assert(start * (pow(delta, c) * pow(omega, n * c + r)) == start * (pd * (omega * pw)));
    } else if c > 0 {
        lemma_delta_omega_closed_form(start, omega, delta, n, (c - 1) as nat, n);
        let pd = pow(delta, (c - 1) as nat);
        let pw = pow(omega, (n * (c - 1) + n) as nat);
        assert(n * (c - 1) + n == n * c) by (nonlinear_arith)
            requires
                c > 0,
        ;
        assert(pow(delta, c) == delta * pd);
        assert(delta_omega(start, omega, delta, n, (c - 1) as nat, n) == (start * (pd * pw)) % m);
        lemma_mul_mod_noop_left(start * (pd * pw), delta, m);
        assert((start * (pd * pw)) * delta == start * ((delta * pd) * pw)) by (nonlinear_arith);
        assert(pw == pow(omega, n * c + r));
        assert(delta_omega(start, omega, delta, n, c, r) == fmul(
            delta_omega(start, omega, delta, n, (c - 1) as nat, n),
            delta,
        ));
        assert(start * (pow(delta, c) * pow(omega, n * c + r)) == start * ((delta * pd) * pw));
    } else {
        assert(pow(delta, 0) == 1 && pow(omega, 0) == 1);
        assert(n * c + r == 0) by (nonlinear_arith)
            requires
                c == 0,
                r == 0,
        ;
        assert(pow(delta, c) == 1);
        assert(pow(omega, n * c + r) == 1);
        assert(start * (1int * 1int) == start);
        lemma_small_mod(start as nat, m as nat);
    }
}

} // verus!

verus! {

/// For a chunk of one column, the factor of row `r` is
/// `(delta^(k*chunk_len) * omega^r * beta + gamma + v_r) / (beta * sigma_r + gamma + v_r)`,
/// with `v` the column's values and `sigma` its permutation's.
pub proof fn lemma_single_column_ratio(setup: &PermutationSetup, cv: &ColumnValues, k: int, r: int)
    requires
        setup.wf(cv),
        0 <= k,
        k * setup.chunk_len < setup.columns@.len(),
        chunk_size(setup.columns@.len() as int, setup.chunk_len as int, k) == 1,
        0 <= r < setup.size,
    ensures
        ({
            let first = k * setup.chunk_len;
            let v = cv.values(setup.columns@[first])[r].val();
            let sigma = setup.permutations@[first]@[r].val();
            let (beta, gamma) = (setup.beta.val(), setup.gamma.val());
            let w = (fpow(setup.delta.val(), first as nat) * pow(setup.omega.val(), r as nat))
                % modulus();
            setup.chunk_ratios(cv, k)[r] == fmul(
                finv(fadd(fadd(fmul(beta, sigma), gamma), v)),
                fadd(fadd(fmul(w, beta), gamma), v),
            )
        }),
{
    reveal(pow);
    let m = modulus();
    let first = k * setup.chunk_len;
    let vals = setup.chunk_vals(cv, k);
    let perms = setup.chunk_perms(k);
    let (beta, gamma) = (setup.beta.val(), setup.gamma.val());
    let s = fpow(setup.delta.val(), first as nat);
    vstd::arithmetic::div_mod::lemma_mod_bound(pow(setup.delta.val(), first as nat), m);
    lemma_delta_omega_closed_form(
        s,
        setup.omega.val(),
        setup.delta.val(),
        setup.size as nat,
        0,
        r as nat,
    );
    let pw = pow(setup.omega.val(), r as nat);
    assert(setup.size * 0 + r == r);
    assert(pow(setup.delta.val(), 0) == 1);
    assert(s * (1int * pw) == s * pw);
    assert(vals[0] == cv.values(setup.columns@[first]));
    assert(perms[0] == setup.permutations@[first]@);
    let f = fadd(fadd(fmul(beta, perms[0][r].val()), gamma), vals[0][r].val());
    assert(perm_den(vals, perms, beta, gamma, r, 1) == f) by {
        assert(perm_den(vals, perms, beta, gamma, r, 0) == 1);
        assert(1 * (fadd(fmul(beta, perms[0][r].val()), gamma) + vals[0][r].val()) == fadd(
            fmul(beta, perms[0][r].val()),
            gamma,
        ) + vals[0][r].val());
        vstd::arithmetic::div_mod::lemma_mod_twice(
            fadd(fmul(beta, perms[0][r].val()), gamma) + vals[0][r].val(),
            m,
        );
    }
    assert(vals.len() == 1);
    let (omega, delta, n) = (setup.omega.val(), setup.delta.val(), setup.size as nat);
    let dw = delta_omega(s, omega, delta, n, 0, r as nat);
    assert(dw == (s * pw) % m);
    assert(perm_ratio(vals, perms, beta, gamma, s, omega, delta, n, r, 0) == finv(f));
    assert(perm_ratio(vals, perms, beta, gamma, s, omega, delta, n, r, 1) == fmul(
        finv(f),
        fadd(fadd(fmul(dw, beta), gamma), vals[0][r].val()),
    ));
    assert(setup.chunk_ratios(cv, k)[r] == perm_ratio(
        vals,
        perms,
        beta,
        gamma,
        s,
        omega,
        delta,
        n,
        r,
        1,
    ));
}

} // verus!
