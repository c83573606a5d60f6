//! The expression evaluation engine: lowers a gate expression into the
//! sequence of device operations that computes it in the extended domain.
//!
//! Linear combinations of columns stay lazy (a list of borrowed column terms
//! and a constant) until a product, or a sum with an already materialized
//! operand, needs them as a buffer; then one fused kernel call builds the
//! buffer and a coset-extended transform lifts it to degree 4. Buffers are
//! named by number and recycled through the context's free list.
//!
//! Each device operation has a symbolic meaning (`step`): evaluating an
//! expression leaves `denote(e)` in its result buffer, and no buffer held by
//! anybody else is written or freed.
use vstd::prelude::*;
use crate::column::Column;
use crate::field::Scalar;
use crate::field::fadd;
use crate::field::fmul;
use crate::field::fr_add;
use crate::field::fr_mul;

verus! {

#[derive(Clone, Copy, Debug, PartialEq, Eq, Structural)]
pub enum Bop {
    Sum,
    Product,
}

/// A column read at a rotation.
#[derive(Clone, Copy, Debug)]
pub struct ProveExpressionUnit {
    pub column: Column,
    pub rotation: i32,
}

/// A gate expression, built outside this crate.
///
/// `Y` and `Scale` carry linear combinations of powers of the challenge `y`:
/// pairs of an exponent and its coefficient.
pub enum ProveExpression {
    Unit(ProveExpressionUnit),
    Op(Box<ProveExpression>, Box<ProveExpression>, Bop),
    Y(Vec<(u32, Scalar)>),
    Scale(Box<ProveExpression>, Vec<(u32, Scalar)>),
}

/// One borrowed column of a lazy sum, with its rotation and optional coefficient.
#[derive(Clone, Copy, Debug)]
pub struct Term {
    pub column: Column,
    pub rotation: isize,
    pub coeff: Option<Scalar>,
}

pub open spec fn coeff_view(c: Option<Scalar>) -> Option<int> {
    match c {
        Some(s) => Some(s.val()),
        None => None,
    }
}

impl Term {
    pub open spec fn view(self) -> (Column, int, Option<int>) {
        (self.column, self.rotation as int, coeff_view(self.coeff))
    }
}

pub open spec fn terms_view(ts: Seq<Term>) -> Seq<(Column, int, Option<int>)> {
    ts.map_values(|t: Term| t.view())
}

/// The kinds of device operation that evaluation issues.
#[derive(Clone, Copy, Debug, PartialEq, Eq, Structural)]
pub enum OpKind {
    MulSumVec,
    AddConstant,
    ExtendedFft,
    Sum,
    Mul,
    Scale,
}

/// A device operation over numbered buffers of extended size.
#[derive(Debug)]
pub enum DeviceOp {
    /// `dst` takes the weighted sum of the rotated columns over `size` elements.
    MulSumVec { dst: usize, terms: Vec<Term>, size: usize },
    /// `c` is added to the constant coefficient held in `dst`.
    AddConstant { dst: usize, c: Scalar },
    /// `buf` is coset-shifted and transformed to the extended domain, with
    /// `tmp` as scratch space.
    ExtendedFft { buf: usize, tmp: usize },
    /// `dst` takes `dst + src` elementwise over `len` elements.
    Sum { dst: usize, src: usize, len: usize },
    /// `dst` takes `dst * src` elementwise over `len` elements.
    Mul { dst: usize, src: usize, len: usize },
    /// `buf` is multiplied by `c` over `len` elements.
    Scale { buf: usize, c: Scalar, len: usize },
}

impl DeviceOp {
    pub open spec fn kind(self) -> OpKind {
        match self {
            DeviceOp::MulSumVec { .. } => OpKind::MulSumVec,
            DeviceOp::AddConstant { .. } => OpKind::AddConstant,
            DeviceOp::ExtendedFft { .. } => OpKind::ExtendedFft,
            DeviceOp::Sum { .. } => OpKind::Sum,
            DeviceOp::Mul { .. } => OpKind::Mul,
            DeviceOp::Scale { .. } => OpKind::Scale,
        }
    }
}

pub open spec fn op_kinds_of(ops: Seq<DeviceOp>) -> Seq<OpKind> {
    ops.map_values(|o: DeviceOp| o.kind())
}

/// The result of evaluating a subexpression.
pub enum EvalResult {
    /// A lazy sum of borrowed columns plus an optional constant, at degree 1.
    SumBorrow(usize, Vec<Term>, Option<Scalar>),
    /// A materialized buffer at the given degree.
    Single(usize, usize),
}

impl EvalResult {
    /// Lazy sums are at degree 1, buffers at degree 1 or 4.
    pub open spec fn wf(&self) -> bool {
        match self {
            EvalResult::SumBorrow(deg, _, _) => *deg == 1,
            EvalResult::Single(deg, _) => *deg == 1 || *deg == 4,
        }
    }
}

/// The weight `y^i` that the power table of `y` holds at `i`.
pub open spec fn ypow(y: int, i: nat) -> int
    decreases i,
{
    if i == 0 {
        1
    } else if i == 1 {
        y
    } else {
        fmul(y, ypow(y, (i - 1) as nat))
    }
}

/// The largest exponent among the first `i` pairs of `ys` (zero for none).
pub open spec fn max_order(ys: Seq<(u32, Scalar)>, i: int) -> int
    decreases i,
{
    if i <= 0 {
        0
    } else if ys[i - 1].0 as int > max_order(ys, i - 1) {
        ys[i - 1].0 as int
    } else {
        max_order(ys, i - 1)
    }
}

/// The larger of `a` and `b`.
pub open spec fn max_int(a: int, b: int) -> int {
    if a >= b {
        a
    } else {
        b
    }
}

/// Whether `e` holds a constant or a scaling, the nodes that read powers of `y`.
pub open spec fn uses_y(e: ProveExpression) -> bool
    decreases e,
{
    match e {
        ProveExpression::Unit(_) => false,
        ProveExpression::Y(_) => true,
        ProveExpression::Scale(_, _) => true,
        ProveExpression::Op(l, r, _) => uses_y(*l) || uses_y(*r),
    }
}

/// The length of the table of powers of `y` that the nodes of `e` need:
/// one more than the largest exponent they weigh, zero for none.
pub open spec fn y_extent(e: ProveExpression) -> int
    decreases e,
{
    match e {
        ProveExpression::Unit(_) => 0,
        ProveExpression::Y(ys) => max_order(ys@, ys@.len() as int) + 1,
        ProveExpression::Scale(s, ys) => max_int(y_extent(*s), max_order(ys@, ys@.len() as int) + 1),
        ProveExpression::Op(l, r, _) => max_int(y_extent(*l), y_extent(*r)),
    }
}

/// A weighting of powers of `y`: at least one pair, exponents strictly
/// increasing, so each exponent appears once.
pub open spec fn valid_weights(ys: Seq<(u32, Scalar)>) -> bool {
    &&& ys.len() > 0
    &&& forall|i: int, j: int| 0 <= i < j < ys.len() ==> #[trigger] ys[i].0 < #[trigger] ys[j].0
}

/// Every constant and every scaling of `e` has a valid weighting.
pub open spec fn weights_valid(e: ProveExpression) -> bool
    decreases e,
{
    match e {
        ProveExpression::Unit(_) => true,
        ProveExpression::Y(ys) => valid_weights(ys@),
        ProveExpression::Scale(s, ys) => valid_weights(ys@) && weights_valid(*s),
        ProveExpression::Op(l, r, _) => weights_valid(*l) && weights_valid(*r),
    }
}

/// The weighted sum of powers of `y` that the first `i` pairs of `ys` give.
pub open spec fn ys_value(ys: Seq<(u32, Scalar)>, y: int, i: int) -> int
    decreases i,
{
    if i <= 0 {
        0
    } else {
        fadd(ys_value(ys, y, i - 1), fmul(ypow(y, ys[i - 1].0 as nat), ys[i - 1].1.val()))
    }
}

pub open spec fn ys_view(ys: Vec<(u32, Scalar)>, y: int) -> int {
    ys_value(ys@, y, ys@.len() as int)
}

/// Whether the expression evaluates to a lazy sum, with no device work.
pub open spec fn is_lazy(e: ProveExpression) -> bool
    decreases e,
{
    match e {
        ProveExpression::Unit(_) => true,
        ProveExpression::Y(_) => true,
        ProveExpression::Scale(s, _) => is_lazy(*s),
        ProveExpression::Op(l, r, op) => op == Bop::Sum && is_lazy(*l) && is_lazy(*r),
    }
}

pub open spec fn scale_coeff(c: Option<int>, v: int) -> Option<int> {
    match c {
        Some(x) => Some(fmul(x, v)),
        None => Some(v),
    }
}

/// The columns of a lazy expression, with rotations and coefficients.
pub open spec fn lazy_terms(e: ProveExpression, y: int) -> Seq<(Column, int, Option<int>)>
    decreases e,
{
    match e {
        ProveExpression::Unit(u) => seq![(u.column, u.rotation as int, None)],
        ProveExpression::Y(_) => seq![],
        ProveExpression::Scale(s, ys) => lazy_terms(*s, y).map_values(
            |t: (Column, int, Option<int>)| (t.0, t.1, scale_coeff(t.2, ys_view(ys, y))),
        ),
        ProveExpression::Op(l, r, _) => lazy_terms(*l, y) + lazy_terms(*r, y),
    }
}

/// The constant of a lazy expression, if it has one.
pub open spec fn lazy_const(e: ProveExpression, y: int) -> Option<int>
    decreases e,
{
    match e {
        ProveExpression::Unit(_) => None,
        ProveExpression::Y(ys) => Some(ys_view(ys, y)),
        ProveExpression::Scale(s, ys) => match lazy_const(*s, y) {
            Some(c) => Some(fmul(ys_view(ys, y), c)),
            None => None,
        },
        ProveExpression::Op(l, r, _) => match (lazy_const(*l, y), lazy_const(*r, y)) {
            (Some(a), Some(b)) => Some(fadd(a, b)),
            (Some(a), None) => Some(a),
            (None, b) => b,
        },
    }
}

/// The operations that bring an operand to a degree 4 buffer.
pub open spec fn force_kinds(e: ProveExpression, y: int) -> Seq<OpKind> {
    if is_lazy(e) {
        if lazy_const(e, y) is Some {
            seq![OpKind::MulSumVec, OpKind::AddConstant, OpKind::ExtendedFft]
        } else {
            seq![OpKind::MulSumVec, OpKind::ExtendedFft]
        }
    } else {
        seq![]
    }
}

/// The kinds of the device operations that evaluating `e` issues, in order.
pub open spec fn op_kinds(e: ProveExpression, y: int) -> Seq<OpKind>
    decreases e,
{
    if is_lazy(e) {
        seq![]
    } else {
        match e {
            ProveExpression::Op(l, r, op) => op_kinds(*l, y) + op_kinds(*r, y) + force_kinds(*l, y)
                + force_kinds(*r, y) + seq![
                if op == Bop::Sum {
                    OpKind::Sum
                } else {
                    OpKind::Mul
                },
            ],
            ProveExpression::Scale(s, _) => op_kinds(*s, y) + seq![OpKind::Scale],
            _ => seq![],
        }
    }
}

/// The degree bound that `analysis` reports.
pub open spec fn analysis_degree(e: ProveExpression) -> nat
    decreases e,
{
    match e {
        ProveExpression::Unit(_) => 1,
        ProveExpression::Y(_) => 1,
        ProveExpression::Scale(s, _) => analysis_degree(*s),
        ProveExpression::Op(l, r, op) => {
            let a = analysis_degree(*l);
            let b = analysis_degree(*r);
            if op == Bop::Sum {
                if a >= b {
                    a
                } else {
                    b
                }
            } else if a == 1 && b == 1 {
                2
            } else {
                4
            }
        },
    }
}

/// The buffer that taking from the free list `free` hands out: its last
/// entry, or the next new number `n` when it is empty.
pub open spec fn taken(free: Seq<usize>, n: usize) -> usize {
    if free.len() > 0 {
        free.last()
    } else {
        n
    }
}

/// The free list after a take.
pub open spec fn free_after_take(free: Seq<usize>) -> Seq<usize> {
    if free.len() > 0 {
        free.drop_last()
    } else {
        free
    }
}

/// The number of named buffers after a take.
pub open spec fn count_after_take(free: Seq<usize>, n: usize) -> int {
    if free.len() > 0 {
        n as int
    } else {
        n + 1
    }
}

/// The free list after an extended transform borrowed its scratch buffer
/// and gave it back: unchanged, or holding the one new buffer.
pub open spec fn free_after_fft(free: Seq<usize>, n: usize) -> Seq<usize> {
    if free.len() > 0 {
        free
    } else {
        seq![n]
    }
}

/// The operations that materialize a lazy sum into buffer `b`, lifted to
/// the extended domain with scratch buffer `tmp` when `lift` holds.
pub open spec fn materialize_ops(
    terms: Vec<Term>,
    c: Option<Scalar>,
    b: usize,
    tmp: usize,
    size: usize,
    lift: bool,
) -> Seq<DeviceOp> {
    let ms = DeviceOp::MulSumVec { dst: b, terms, size };
    let base = match c {
        Some(k) => seq![ms, DeviceOp::AddConstant { dst: b, c: k }],
        None => seq![ms],
    };
    if lift {
        base.push(DeviceOp::ExtendedFft { buf: b, tmp })
    } else {
        base
    }
}

/// The degree of a result.
pub open spec fn result_deg(r: EvalResult) -> usize {
    match r {
        EvalResult::SumBorrow(d, _, _) => d,
        EvalResult::Single(d, _) => d,
    }
}

/// Whether materializing `r` at degree `target` lifts it to the extended domain.
pub open spec fn eval_lifts(r: EvalResult, target: usize) -> bool {
    result_deg(r) != target
}

/// The kinds of the operations that `EvalResult::eval` issues for `r` at `target`.
pub open spec fn eval_kinds(r: EvalResult, target: usize) -> Seq<OpKind> {
    let fft = if eval_lifts(r, target) {
        seq![OpKind::ExtendedFft]
    } else {
        seq![]
    };
    match r {
        EvalResult::SumBorrow(_, _, c) => if c is Some {
            seq![OpKind::MulSumVec, OpKind::AddConstant] + fft
        } else {
            seq![OpKind::MulSumVec] + fft
        },
        EvalResult::Single(_, _) => fft,
    }
}

/// The state of one evaluation pass.
pub struct EvalHContext {
    /// Powers of the challenge `y`, from `y^0`.
    pub y: Vec<Scalar>,
    /// Extended-size buffers that are free for reuse.
    pub extended_allocator: Vec<usize>,
    /// The number of buffers named so far; a new buffer takes the next number.
    pub n_buffers: usize,
    pub extended_k: usize,
    pub size: usize,
    pub extended_size: usize,
    /// The device operations issued so far.
    pub ops: Vec<DeviceOp>,
}

impl EvalHContext {
    /// The challenge `y`.
    pub open spec fn y_value(&self) -> int {
        self.y@[1].val()
    }

    pub open spec fn wf(&self) -> bool {
        &&& self.y@.len() >= 2
        &&& self.y@[0].val() == 1
        &&& forall|i: int| 0 <= i < self.y@.len() ==> #[trigger] self.y@[i].val() == ypow(self.y_value(), i as nat)
        &&& forall|i: int|
            0 <= i < self.extended_allocator@.len() ==> #[trigger] self.extended_allocator@[i]
                < self.n_buffers
        &&& self.extended_allocator@.no_duplicates()
        &&& self.size * 4 <= usize::MAX
    }

    /// Buffer `b` is held by nobody: it is free here, or not yet named.
    pub open spec fn unowned(&self, b: usize) -> bool {
        b >= self.n_buffers || self.extended_allocator@.contains(b)
    }

    /// Going from `self` to `next`, no buffer held by somebody became free,
    /// and the challenge and sizes stayed.
    pub open spec fn keeps_owned(&self, next: &EvalHContext) -> bool {
        &&& self.n_buffers <= next.n_buffers
        &&& forall|b: usize| !self.unowned(b) ==> !#[trigger] next.unowned(b)
        &&& next.y_value() == self.y_value()
        &&& next.y@.len() >= self.y@.len()
        &&& next.size == self.size
        &&& next.extended_size == self.extended_size
        &&& next.extended_k == self.extended_k
    }

    /// A context for `y`, with no buffers yet.
    pub fn new(y: Scalar, extended_k: usize, size: usize, extended_size: usize) -> (r: EvalHContext)
        requires
            size * 4 <= usize::MAX,
        ensures
            r.wf(),
            r.y_value() == y.val(),
            r.extended_allocator@.len() == 0,
            r.n_buffers == 0,
            r.ops@.len() == 0,
            r.extended_k == extended_k,
            r.size == size,
            r.extended_size == extended_size,
    {
        let mut ys: Vec<Scalar> = Vec::new();
        ys.push(Scalar::one());
        ys.push(y);
        EvalHContext {
            y: ys,
            extended_allocator: Vec::new(),
            n_buffers: 0,
            extended_k,
            size,
            extended_size,
            ops: Vec::new(),
        }
    }

    /// A free extended-size buffer: a recycled one, else a new number.
    fn take_extended(&mut self) -> (b: usize)
        requires
            old(self).wf(),
            old(self).n_buffers < usize::MAX,
        ensures
            final(self).wf(),
            b < final(self).n_buffers,
            old(self).unowned(b),
            !final(self).unowned(b),
            old(self).keeps_owned(&*final(self)),
            forall|x: usize| x != b ==> (old(self).unowned(x) == #[trigger] final(self).unowned(x)),
            final(self).n_buffers <= old(self).n_buffers + 1,
            final(self).y == old(self).y,
            final(self).ops == old(self).ops,
            b == taken(old(self).extended_allocator@, old(self).n_buffers),
            final(self).extended_allocator@ == free_after_take(old(self).extended_allocator@),
            final(self).n_buffers == count_after_take(
                old(self).extended_allocator@,
                old(self).n_buffers,
            ),
    {
        proof {
            self.extended_allocator@.unique_seq_to_set();
        }
        let ghost free = self.extended_allocator@;
        match self.extended_allocator.pop() {
            Some(b) => {
                proof {
                    assert(free =~= self.extended_allocator@.push(b));
                    assert forall|x: usize| x != b implies (free.contains(x)
                        == #[trigger] self.extended_allocator@.contains(x)) by {
                        if free.contains(x) {
                            let j = choose|j: int| 0 <= j < free.len() && free[j] == x;
                            assert(self.extended_allocator@[j] == x);
                        }
                    }
                    assert(!self.extended_allocator@.contains(b)) by {
                        if self.extended_allocator@.contains(b) {
                            let j = choose|j: int|
                                0 <= j < self.extended_allocator@.len()
                                    && self.extended_allocator@[j] == b;
                            assert(free[j] == free[free.len() - 1]);
                        }
                    }
                    assert(free[free.len() - 1] == b);
                    assert(self.extended_allocator@ =~= free.drop_last());
                }
                b
            },
            None => {
                let b = self.n_buffers;
                self.n_buffers = self.n_buffers + 1;
                b
            },
        }
    }
}

/// The weighted sum of powers of `y` that `ys` names, extending the context's
/// table of powers as far as the largest exponent needs.
pub fn eval_ys(ys: &Vec<(u32, Scalar)>, ctx: &mut EvalHContext) -> (r: Scalar)
    requires
        old(ctx).wf(),
        valid_weights(ys@),
    ensures
        final(ctx).wf(),
        final(ctx).y@.len() == if old(ctx).y@.len() > max_order(ys@, ys@.len() as int) + 1 {
            old(ctx).y@.len() as int
        } else {
            max_order(ys@, ys@.len() as int) + 1
        },
        final(ctx).y@.subrange(0, old(ctx).y@.len() as int) == old(ctx).y@,
        r.val() == ys_view(*ys, old(ctx).y_value()),
        final(ctx).y_value() == old(ctx).y_value(),
        final(ctx).y@.len() >= old(ctx).y@.len(),
        final(ctx).extended_allocator == old(ctx).extended_allocator,
        final(ctx).n_buffers == old(ctx).n_buffers,
        final(ctx).ops == old(ctx).ops,
        final(ctx).size == old(ctx).size,
        final(ctx).extended_size == old(ctx).extended_size,
        final(ctx).extended_k == old(ctx).extended_k,
{
    let ghost y = ctx.y_value();
    let mut max_exp: u32 = 0;
    let mut i: usize = 0;
    while i < ys.len()
        invariant
            i <= ys@.len(),
            max_exp == max_order(ys@, i as int),
            forall|j: int| 0 <= j < i ==> #[trigger] ys@[j].0 <= max_exp,
        decreases ys@.len() - i,
    {
        if ys[i].0 > max_exp {
            max_exp = ys[i].0;
        }
        i += 1;
    }
    let ghost y0 = ctx.y@;
    while ctx.y.len() <= max_exp as usize
        invariant
            ctx.wf(),
            ctx.y_value() == y,
            ctx.extended_allocator == old(ctx).extended_allocator,
            ctx.n_buffers == old(ctx).n_buffers,
            ctx.ops == old(ctx).ops,
            ctx.size == old(ctx).size,
            ctx.extended_size == old(ctx).extended_size,
            ctx.extended_k == old(ctx).extended_k,
            ctx.y@.len() >= old(ctx).y@.len(),
            y0 == old(ctx).y@,
            ctx.y@.subrange(0, y0.len() as int) == y0,
            ctx.y@.len() == y0.len() || ctx.y@.len() <= max_exp as int + 1,
        decreases max_exp as int + 1 - ctx.y@.len(),
    {
        let last = ctx.y[ctx.y.len() - 1];
        let next = fr_mul(ctx.y[1], last);
        ctx.y.push(next);
        proof {
            assert(ctx.y@.subrange(0, y0.len() as int) =~= y0);
        }
    }
    let mut acc = Scalar::zero();
    let mut i: usize = 0;
    while i < ys.len()
        invariant
            ctx.wf(),
            ctx.y_value() == y,
            i <= ys@.len(),
            forall|j: int| 0 <= j < ys@.len() ==> #[trigger] ys@[j].0 <= max_exp,
            max_exp < ctx.y@.len(),
            acc.val() == ys_value(ys@, y, i as int),
        decreases ys@.len() - i,
    {
        let (order, f) = ys[i];
        let w = fr_mul(ctx.y[order as usize], f);
        acc = fr_add(acc, w);
        i += 1;
    }
    acc
}

impl EvalResult {
    pub fn deg(&self) -> (r: usize)
        ensures
            r == match self {
                EvalResult::SumBorrow(d, _, _) => *d,
                EvalResult::Single(d, _) => *d,
            },
    {
        match self {
            EvalResult::SumBorrow(deg, _, _) => *deg,
            EvalResult::Single(deg, _) => *deg,
        }
    }

    pub fn is_borrow(&self) -> (r: bool)
        ensures
            r == (self is SumBorrow),
    {
        match self {
            EvalResult::SumBorrow(_, _, _) => true,
            EvalResult::Single(_, _) => false,
        }
    }

    /// The constant of a lazy sum that has no column terms.
    pub fn is_const(&self) -> (r: Option<Scalar>)
        ensures
            r == match self {
                EvalResult::SumBorrow(_, arr, c) => if arr@.len() == 0 {
                    *c
                } else {
                    None
                },
                EvalResult::Single(_, _) => None,
            },
    {
        match self {
            EvalResult::SumBorrow(_, arr, c) => {
                if arr.len() == 0 {
                    *c
                } else {
                    None
                }
            },
            EvalResult::Single(_, _) => None,
        }
    }

    /// Adds two lazy sums: their terms in order, and their constants.
    pub fn merge(self, other: EvalResult) -> (r: EvalResult)
        requires
            self is SumBorrow,
            other is SumBorrow,
            self.wf(),
            other.wf(),
        ensures
            r.wf(),
            match (self, other, r) {
                (
                    EvalResult::SumBorrow(_, l, lc),
                    EvalResult::SumBorrow(_, rt, rc),
                    EvalResult::SumBorrow(_, t, c),
                ) => terms_view(t@) == terms_view(l@) + terms_view(rt@) && coeff_view(c) == match (
                    coeff_view(lc),
                    coeff_view(rc),
                ) {
                    (Some(a), Some(b)) => Some(fadd(a, b)),
                    (Some(a), None) => Some(a),
                    (None, b) => b,
                },
                _ => false,
            },
    {
        match (self, other) {
            (EvalResult::SumBorrow(deg, mut l, l_c), EvalResult::SumBorrow(_, mut r, r_c)) => {
                let ghost lv = l@;
                let ghost rv = r@;
                l.append(&mut r);
                proof {
                    assert(terms_view(l@) =~= terms_view(lv) + terms_view(rv));
                }
                let c = match (l_c, r_c) {
                    (Some(a), Some(b)) => Some(fr_add(a, b)),
                    (Some(a), None) => Some(a),
                    (None, b) => b,
                };
                EvalResult::SumBorrow(deg, l, c)
            },
            (_, _) => {
                proof {
                    assert(false);
                }
                EvalResult::Single(4, 0)
            },
        }
    }

    /// Multiplies the result by `v`: a lazy sum symbolically, a buffer by a
    /// device scaling over `size * deg` elements.
    pub fn scale(&mut self, v: Scalar, ctx: &mut EvalHContext)
        requires
            old(self).wf(),
            old(ctx).wf(),
        ensures
            final(self).wf(),
            final(ctx).wf(),
            final(ctx).y == old(ctx).y,
            final(ctx).extended_allocator == old(ctx).extended_allocator,
            final(ctx).n_buffers == old(ctx).n_buffers,
            final(ctx).size == old(ctx).size,
            final(ctx).extended_size == old(ctx).extended_size,
            final(ctx).extended_k == old(ctx).extended_k,
            final(ctx).ops@ == old(ctx).ops@ + new_ops(&*old(ctx), &*final(ctx)),
            ops_sized(new_ops(&*old(ctx), &*final(ctx)), old(ctx).size, old(ctx).extended_size),
            match *old(self) {
                EvalResult::Single(_, b0) => {
                    &&& preserves_owned(new_ops(&*old(ctx), &*final(ctx)), &*old(ctx), Some(b0))
                    &&& forall|s: Map<usize, Sym>|
                        #[trigger] get(run(s, new_ops(&*old(ctx), &*final(ctx))), b0)
                            == Sym::Scaled(Box::new(get(s, b0)), v.val())
                },
                EvalResult::SumBorrow(..) => new_ops(&*old(ctx), &*final(ctx)) == Seq::<
                    DeviceOp,
                >::empty(),
            },
            match (*old(self), *final(self)) {
                (EvalResult::SumBorrow(_, t0, c0), EvalResult::SumBorrow(_, t1, c1)) => {
                    &&& final(ctx).ops == old(ctx).ops
                    &&& terms_view(t1@) == terms_view(t0@).map_values(
                        |t: (Column, int, Option<int>)| (t.0, t.1, scale_coeff(t.2, v.val())),
                    )
                    &&& coeff_view(c1) == match coeff_view(c0) {
                        Some(c) => Some(fmul(v.val(), c)),
                        None => None,
                    }
                },
                (EvalResult::Single(d, b0), EvalResult::Single(d1, b1)) => {
                    &&& b1 == b0
                    &&& d1 == d
                    &&& final(ctx).ops@ == old(ctx).ops@.push(
                        DeviceOp::Scale { buf: b0, c: v, len: (old(ctx).size * d) as usize },
                    )
                },
                _ => false,
            },
    {
        match self {
            EvalResult::SumBorrow(_, arr, c) => {
                *c = match *c {
                    Some(x) => Some(fr_mul(v, x)),
                    None => None,
                };
                let ghost t0 = arr@;
                let mut i: usize = 0;
                while i < arr.len()
                    invariant
                        i <= arr@.len() == t0.len(),
                        forall|j: int|
                            0 <= j < i ==> #[trigger] arr@[j].view() == (
                                t0[j].column,
                                t0[j].rotation as int,
                                scale_coeff(coeff_view(t0[j].coeff), v.val()),
                            ),
                        forall|j: int| i <= j < arr@.len() ==> #[trigger] arr@[j] == t0[j],
                    decreases arr@.len() - i,
                {
                    let t = arr[i];
                    let coeff = match t.coeff {
                        Some(x) => Some(fr_mul(x, v)),
                        None => Some(v),
                    };
                    arr.set(i, Term { column: t.column, rotation: t.rotation, coeff });
                    i += 1;
                }
                proof {
                    assert(terms_view(arr@) =~= terms_view(t0).map_values(
                        |t: (Column, int, Option<int>)| (t.0, t.1, scale_coeff(t.2, v.val())),
                    ));
                    assert(new_ops(&*old(ctx), &*ctx) =~= Seq::<DeviceOp>::empty());
                    assert(ctx.ops@ =~= old(ctx).ops@ + new_ops(&*old(ctx), &*ctx));
                    assert(ops_sized(new_ops(&*old(ctx), &*ctx), ctx.size, ctx.extended_size));
                }
            },
            EvalResult::Single(deg, buf) => {
                proof {
                    assert(ctx.size * *deg <= ctx.size * 4) by (nonlinear_arith)
                        requires
                            *deg <= 4,
                    ;
                    assert(ctx.size * *deg == ctx.size || ctx.size * *deg == 4 * ctx.size)
                        by (nonlinear_arith)
                        requires
                            *deg == 1 || *deg == 4,
                    ;
                }
                let len = ctx.size * *deg;
                ctx.ops.push(DeviceOp::Scale { buf: *buf, c: v, len });
                proof {
                    let ops = new_ops(&*old(ctx), &*ctx);
                    let op = DeviceOp::Scale { buf: *buf, c: v, len };
                    assert(ops =~= seq![op]);
                    assert(ops[0] == op);
                    assert(ops.drop_last() =~= Seq::<DeviceOp>::empty());
                    assert(ctx.ops@ =~= old(ctx).ops@ + ops);
                    assert forall|s: Map<usize, Sym>| #[trigger] run(s, ops) == step(s, op) by {
                        assert(run(s, ops.drop_last()) == s);
                    }
                }
            },
        }
    }
}

} // verus!

verus! {

/// The number of nodes of `e`.
pub open spec fn node_count(e: ProveExpression) -> nat
    decreases e,
{
    match e {
        ProveExpression::Unit(_) => 1,
        ProveExpression::Y(_) => 1,
        ProveExpression::Scale(s, _) => 1 + node_count(*s),
        ProveExpression::Op(l, r, _) => 1 + node_count(*l) + node_count(*r),
    }
}

/// Lifts buffer `buf` to the extended domain in place, with a scratch buffer
/// borrowed from the free list and given back.
pub fn do_extended_fft(ctx: &mut EvalHContext, buf: usize)
    requires
        old(ctx).wf(),
        old(ctx).n_buffers < usize::MAX,
        !old(ctx).unowned(buf),
    ensures
        final(ctx).wf(),
        old(ctx).keeps_owned(&*final(ctx)),
        forall|x: usize| old(ctx).unowned(x) ==> #[trigger] final(ctx).unowned(x),
        final(ctx).n_buffers <= old(ctx).n_buffers + 1,
        final(ctx).ops@ == old(ctx).ops@.push(final(ctx).ops@.last()),
        match final(ctx).ops@.last() {
            DeviceOp::ExtendedFft { buf: b, .. } => b == buf,
            _ => false,
        },
        forall|s: Map<usize, Sym>|
            #[trigger] get(run(s, new_ops(&*old(ctx), &*final(ctx))), buf) == Sym::Ext(
                Box::new(get(s, buf)),
            ),
        preserves_owned(new_ops(&*old(ctx), &*final(ctx)), &*old(ctx), Some(buf)),
        final(ctx).ops@ == old(ctx).ops@.push(
            DeviceOp::ExtendedFft {
                buf,
                tmp: taken(old(ctx).extended_allocator@, old(ctx).n_buffers),
            },
        ),
        final(ctx).extended_allocator@ == free_after_fft(
            old(ctx).extended_allocator@,
            old(ctx).n_buffers,
        ),
        final(ctx).n_buffers == count_after_take(old(ctx).extended_allocator@, old(ctx).n_buffers),
        final(ctx).y == old(ctx).y,
{
    let ghost c0 = *ctx;
    let tmp = ctx.take_extended();
    let ghost c1 = *ctx;
    ctx.ops.push(DeviceOp::ExtendedFft { buf, tmp });
    proof {
        let ops = new_ops(&c0, &*ctx);
        assert(ops =~= seq![DeviceOp::ExtendedFft { buf, tmp }]);
        assert(ops.drop_last() =~= Seq::<DeviceOp>::empty());
        assert(tmp != buf);
        assert forall|s: Map<usize, Sym>| #[trigger] get(run(s, ops), buf) == Sym::Ext(
            Box::new(get(s, buf)),
        ) by {
            assert(run(s, ops.drop_last()) == s);
            assert(run(s, ops) == step(s, DeviceOp::ExtendedFft { buf, tmp }));
        }
        assert forall|s: Map<usize, Sym>, x: usize|
            !c0.unowned(x) && Some(buf) != Some(x) implies #[trigger] get(run(s, ops), x) == get(
            s,
            x,
        ) by {
            assert(run(s, ops.drop_last()) == s);
            assert(run(s, ops) == step(s, DeviceOp::ExtendedFft { buf, tmp }));
            assert(x != tmp);
        }
    }
    let ghost mid = ctx.extended_allocator@;
    ctx.extended_allocator.push(tmp);
    proof {
        if c0.extended_allocator@.len() > 0 {
            assert(ctx.extended_allocator@ =~= c0.extended_allocator@);
        } else {
            assert(ctx.extended_allocator@ =~= seq![c0.n_buffers]);
        }
        assert forall|x: usize| !c0.unowned(x) implies !#[trigger] ctx.unowned(x) by {
            assert(!c1.unowned(x));
            assert(x != tmp);
            if ctx.extended_allocator@.contains(x) {
                let j = choose|j: int|
                    0 <= j < ctx.extended_allocator@.len() && ctx.extended_allocator@[j] == x;
                if j < mid.len() {
                    assert(mid[j] == x);
                }
            }
        }
        assert forall|x: usize| c0.unowned(x) implies #[trigger] ctx.unowned(x) by {
            if x != tmp {
                assert(c1.unowned(x));
                if x < c1.n_buffers {
                    assert(mid.contains(x));
                    let j = choose|j: int| 0 <= j < mid.len() && mid[j] == x;
                    assert(ctx.extended_allocator@[j] == x);
                }
            } else {
                assert(ctx.extended_allocator@[mid.len() as int] == tmp);
            }
        }
        assert(ctx.extended_allocator@.contains(tmp)) by {
            assert(ctx.extended_allocator@[mid.len() as int] == tmp);
        }
        assert forall|x: usize| mid.contains(x) implies #[trigger] ctx.extended_allocator@.contains(
            x,
        ) by {
            let j = choose|j: int| 0 <= j < mid.len() && mid[j] == x;
            assert(ctx.extended_allocator@[j] == x);
        }
        assert forall|x: usize| ctx.extended_allocator@.contains(x) implies x == tmp
            || #[trigger] mid.contains(x) by {
            let j = choose|j: int|
                0 <= j < ctx.extended_allocator@.len() && ctx.extended_allocator@[j] == x;
            if j < mid.len() {
                assert(mid[j] == x);
            }
        }
        assert(ctx.extended_allocator@.no_duplicates()) by {
            assert forall|i: int, j: int|
                0 <= i < ctx.extended_allocator@.len() && 0 <= j < ctx.extended_allocator@.len()
                    && i != j implies ctx.extended_allocator@[i] != ctx.extended_allocator@[j] by {
                if i < mid.len() && j < mid.len() {
                    assert(mid[i] == ctx.extended_allocator@[i]);
                    assert(mid[j] == ctx.extended_allocator@[j]);
                } else if i < mid.len() {
                    assert(mid[i] == ctx.extended_allocator@[i]);
                } else if j < mid.len() {
                    assert(mid[j] == ctx.extended_allocator@[j]);
                }
            }
        }
    }
}

proof fn lemma_keeps_owned_trans(a: &EvalHContext, b: &EvalHContext, c: &EvalHContext)
    requires
        a.keeps_owned(b),
        b.keeps_owned(c),
    ensures
        a.keeps_owned(c),
{
    assert forall|x: usize| !a.unowned(x) implies !#[trigger] c.unowned(x) by {
        assert(!b.unowned(x));
    }
}

proof fn lemma_no_new_ops(before: &EvalHContext, after: &EvalHContext)
    requires
        after.ops == before.ops,
    ensures
        after.ops@ == before.ops@ + new_ops(before, after),
        preserves_owned(new_ops(before, after), before, None),
        ops_sized(new_ops(before, after), before.size, before.extended_size),
{
    assert(new_ops(before, after) =~= Seq::<DeviceOp>::empty());
    assert(after.ops@ =~= before.ops@ + new_ops(before, after));
    assert forall|s: Map<usize, Sym>, x: usize|
        !before.unowned(x) && None::<usize> != Some(x) implies #[trigger] get(
        run(s, new_ops(before, after)),
        x,
    ) == get(s, x) by {
        assert(run(s, new_ops(before, after)) == s);
    }
}

/// What `evaluate_prove_expr` and `EvalResult::eval` promise of the context.
pub open spec fn eval_step(before: &EvalHContext, after: &EvalHContext, budget: nat) -> bool {
    &&& after.wf()
    &&& before.keeps_owned(after)
    &&& after.n_buffers <= before.n_buffers + budget
}

/// The buffer a result holds, if any, is owned by it.
pub open spec fn owns(ctx: &EvalHContext, r: &EvalResult) -> bool {
    match r {
        EvalResult::Single(_, b) => !ctx.unowned(*b),
        EvalResult::SumBorrow(_, _, _) => true,
    }
}

/// The lazy sum that a lazy result stands for.
pub open spec fn result_sym(r: EvalResult) -> Sym {
    match r {
        EvalResult::SumBorrow(_, t, c) => match coeff_view(c) {
            Some(k) => Sym::WithConst(Box::new(Sym::Lin(terms_view(t@))), k),
            None => Sym::Lin(terms_view(t@)),
        },
        EvalResult::Single(_, _) => Sym::Unknown,
    }
}

impl EvalResult {
    /// Materializes the result as a buffer of degree `target_deg`: a lazy sum
    /// through one fused weighted-sum kernel call (plus its constant), a
    /// buffer as it is; either is lifted by a coset-extended transform when
    /// its degree is not `target_deg`.
    pub fn eval(self, target_deg: usize, ctx: &mut EvalHContext) -> (b: usize)
        requires
            self.wf(),
            target_deg == 4 || target_deg == result_deg(self),
            old(ctx).wf(),
            old(ctx).n_buffers + 2 <= usize::MAX,
            owns(&*old(ctx), &self),
        ensures
            eval_step(&*old(ctx), &*final(ctx), 2),
            final(ctx).y == old(ctx).y,
            !final(ctx).unowned(b),
            ops_sized(new_ops(&*old(ctx), &*final(ctx)), old(ctx).size, old(ctx).extended_size),
            final(ctx).ops@ == old(ctx).ops@ + new_ops(&*old(ctx), &*final(ctx)),
            preserves_owned(new_ops(&*old(ctx), &*final(ctx)), &*old(ctx), result_buffer(self)),
            op_kinds_of(final(ctx).ops@) == op_kinds_of(old(ctx).ops@) + eval_kinds(
                self,
                target_deg,
            ),
            self is SumBorrow ==> computes(
                new_ops(&*old(ctx), &*final(ctx)),
                b,
                if eval_lifts(self, target_deg) {
                    Sym::Ext(Box::new(result_sym(self)))
                } else {
                    result_sym(self)
                },
            ),
            match self {
                EvalResult::Single(d, b0) => {
                    let free0 = old(ctx).extended_allocator@;
                    let n0 = old(ctx).n_buffers;
                    &&& b == b0
                    &&& d == target_deg ==> final(ctx).extended_allocator == old(
                        ctx,
                    ).extended_allocator && final(ctx).n_buffers == old(ctx).n_buffers
                        && final(ctx).ops == old(ctx).ops
                    &&& d != target_deg ==> final(ctx).ops@ == old(ctx).ops@.push(
                        DeviceOp::ExtendedFft { buf: b0, tmp: taken(free0, n0) },
                    ) && final(ctx).extended_allocator@ == free_after_fft(free0, n0)
                        && final(ctx).n_buffers == count_after_take(free0, n0) && forall|
                        s: Map<usize, Sym>,
                    | #[trigger] get(run(s, new_ops(&*old(ctx), &*final(ctx))), b0) == Sym::Ext(
                        Box::new(get(s, b0)),
                    )
                },
                EvalResult::SumBorrow(_, arr, c) => {
                    let free0 = old(ctx).extended_allocator@;
                    let n0 = old(ctx).n_buffers;
                    let free1 = free_after_take(free0);
                    let n1 = count_after_take(free0, n0) as usize;
                    let lift = eval_lifts(self, target_deg);
                    &&& b == taken(free0, n0)
                    &&& final(ctx).ops@ == old(ctx).ops@ + materialize_ops(
                        arr,
                        c,
                        b,
                        taken(free1, n1),
                        old(ctx).size,
                        lift,
                    )
                    &&& lift ==> final(ctx).extended_allocator@ == free_after_fft(free1, n1)
                        && final(ctx).n_buffers == count_after_take(free1, n1)
                    &&& !lift ==> final(ctx).extended_allocator@ == free1 && final(ctx).n_buffers
                        == n1
                },
            },
            self is SumBorrow ==> old(ctx).unowned(b),
    {
        match self {
            EvalResult::SumBorrow(_, arr, c) => {
                let ghost ops0 = ctx.ops@;
                let ghost c0 = *ctx;
                let b = ctx.take_extended();
                let ghost c1 = *ctx;
                let size = ctx.size;
                ctx.ops.push(DeviceOp::MulSumVec { dst: b, terms: arr, size });
                match c {
                    Some(c) => {
                        ctx.ops.push(DeviceOp::AddConstant { dst: b, c });
                    },
                    None => {},
                }
                let ghost ops1 = ctx.ops@;
                let ghost c2 = *ctx;
                if target_deg != 1 {
                    do_extended_fft(ctx, b);
                }
                proof {
                    let mid = new_ops(&c0, &c2);
                    let last = new_ops(&c2, &*ctx);
                    assert(new_ops(&c0, &*ctx) =~= mid + last);
                    let ms = DeviceOp::MulSumVec { dst: b, terms: arr, size };
                    let base = match c {
                        Some(k) => seq![ms, DeviceOp::AddConstant { dst: b, c: k }],
                        None => seq![ms],
                    };
                    assert(mid =~= base);
                    assert forall|s: Map<usize, Sym>, x: usize| !c0.unowned(x) implies #[trigger] get(
                        run(s, mid),
                        x,
                    ) == get(s, x) by {
                        assert(x != b);
                        match c {
                            Some(k) => {
                                assert(mid.drop_last() =~= seq![ms]);
                                assert(mid.drop_last().drop_last() =~= Seq::<DeviceOp>::empty());
                                assert(run(s, mid.drop_last().drop_last()) == s);
                                assert(run(s, mid.drop_last()) == step(s, ms));
                            },
                            None => {
                                assert(mid.drop_last() =~= Seq::<DeviceOp>::empty());
                                assert(run(s, mid.drop_last()) == s);
                            },
                        }
                    }
                    assert forall|s: Map<usize, Sym>| #[trigger] get(run(s, mid), b) == result_sym(
                        self,
                    ) by {
                        match c {
                            Some(k) => {
                                assert(mid.drop_last() =~= seq![ms]);
                                assert(mid.drop_last().drop_last() =~= Seq::<DeviceOp>::empty());
                                assert(run(s, mid.drop_last().drop_last()) == s);
                                assert(run(s, mid.drop_last()) == step(s, ms));
                                assert(run(s, mid) == step(
                                    step(s, ms),
                                    DeviceOp::AddConstant { dst: b, c: k },
                                ));
                            },
                            None => {
                                assert(mid.drop_last() =~= Seq::<DeviceOp>::empty());
                                assert(run(s, mid.drop_last()) == s);
                                assert(run(s, mid) == step(s, ms));
                            },
                        }
                    }
                    assert(c1.keeps_owned(&c2));
                    lemma_keeps_owned_trans(&c0, &c1, &c2);
                    if target_deg != 1 {
                        assert forall|s: Map<usize, Sym>| #[trigger] get(
                            run(s, new_ops(&c0, &*ctx)),
                            b,
                        ) == Sym::Ext(Box::new(result_sym(self))) by {
                            lemma_run_concat(s, mid, last);
                            assert(get(run(run(s, mid), last), b) == Sym::Ext(
                                Box::new(get(run(s, mid), b)),
                            ));
                        }
                        assert forall|s: Map<usize, Sym>, x: usize|
                            !c0.unowned(x) && result_buffer(self) != Some(x) implies #[trigger] get(
                            run(s, new_ops(&c0, &*ctx)),
                            x,
                        ) == get(s, x) by {
                            lemma_run_concat(s, mid, last);
                            assert(!c1.unowned(x));
                            assert(!c2.unowned(x));
                            assert(x != b);
                            assert(get(run(run(s, mid), last), x) == get(run(s, mid), x));
                            assert(get(run(s, mid), x) == get(s, x));
                        }
                        lemma_keeps_owned_trans(&c0, &c2, &*ctx);
                        assert(last =~= seq![DeviceOp::ExtendedFft {
                            buf: b,
                            tmp: taken(c2.extended_allocator@, c2.n_buffers),
                        }]);
                        assert(new_ops(&c0, &*ctx) =~= base.push(DeviceOp::ExtendedFft {
                            buf: b,
                            tmp: taken(c2.extended_allocator@, c2.n_buffers),
                        }));
                    } else {
                        assert(last =~= Seq::<DeviceOp>::empty());
                        assert(new_ops(&c0, &*ctx) =~= mid);
                        assert forall|s: Map<usize, Sym>| #[trigger] get(
                            run(s, new_ops(&c0, &*ctx)),
                            b,
                        ) == result_sym(self) by {}
                        assert forall|s: Map<usize, Sym>, x: usize|
                            !c0.unowned(x) && result_buffer(self) != Some(x) implies #[trigger] get(
                            run(s, new_ops(&c0, &*ctx)),
                            x,
                        ) == get(s, x) by {
                            assert(get(run(s, mid), x) == get(s, x));
                        }
                    }
                    assert(ctx.ops@ =~= c0.ops@ + new_ops(&c0, &*ctx));
                    assert(op_kinds_of(ctx.ops@) =~= op_kinds_of(ops0) + eval_kinds(self, target_deg));
                }
                b
            },
            EvalResult::Single(deg, buf) => {
                if deg != target_deg {
                    // a degree-1 buffer is lifted to the extended domain in place
                    do_extended_fft(ctx, buf);
                    proof {
                        let ops = new_ops(&*old(ctx), &*ctx);
                        assert(ops =~= seq![ctx.ops@.last()]);
                        assert(ops[0] == ctx.ops@.last());
                        assert(ctx.ops@ =~= old(ctx).ops@ + ops);
                        assert(op_kinds_of(ctx.ops@) =~= op_kinds_of(old(ctx).ops@) + eval_kinds(
                            self,
                            target_deg,
                        ));
                    }
                } else {
                    proof {
                        assert(new_ops(&*old(ctx), &*ctx) =~= Seq::<DeviceOp>::empty());
                        assert(ctx.ops@ =~= old(ctx).ops@ + new_ops(&*old(ctx), &*ctx));
                        assert(op_kinds_of(ctx.ops@) =~= op_kinds_of(old(ctx).ops@) + eval_kinds(
                            self,
                            target_deg,
                        ));
                        assert forall|s: Map<usize, Sym>, x: usize|
                            !old(ctx).unowned(x) && result_buffer(self) != Some(x) implies #[trigger] get(
                            run(s, new_ops(&*old(ctx), &*ctx)),
                            x,
                        ) == get(s, x) by {
                            assert(run(s, new_ops(&*old(ctx), &*ctx)) == s);
                        }
                    }
                }
                buf
            },
        }
    }
}

/// The buffer that a result holds, if any.
pub open spec fn result_buffer(r: EvalResult) -> Option<usize> {
    match r {
        EvalResult::Single(_, b) => Some(b),
        EvalResult::SumBorrow(_, _, _) => None,
    }
}

/// The operations that `EvalResult::eval` issues for a result.
pub open spec fn result_force_kinds(r: EvalResult) -> Seq<OpKind> {
    match r {
        EvalResult::SumBorrow(_, _, c) => if c is Some {
            seq![OpKind::MulSumVec, OpKind::AddConstant, OpKind::ExtendedFft]
        } else {
            seq![OpKind::MulSumVec, OpKind::ExtendedFft]
        },
        EvalResult::Single(d, _) => if d == 4 {
            seq![]
        } else {
            seq![OpKind::ExtendedFft]
        },
    }
}

/// What an operand's buffer holds once materialized, from the state `s`
/// before materialization.
pub open spec fn operand_value(r: EvalResult, s: Map<usize, Sym>) -> Sym {
    match r {
        EvalResult::SumBorrow(..) => Sym::Ext(Box::new(result_sym(r))),
        EvalResult::Single(d, b) => if d == 4 {
            get(s, b)
        } else {
            Sym::Ext(Box::new(get(s, b)))
        },
    }
}

/// Combines the results of two operands: two lazy sums add lazily; otherwise
/// both are materialized at degree 4, combined into the left buffer, and the
/// right buffer is freed.
#[verifier::rlimit(100)]
#[verifier::spinoff_prover]
fn combine(lr: EvalResult, rr: EvalResult, op: Bop, ctx: &mut EvalHContext) -> (res: EvalResult)
    requires
        lr.wf(),
        rr.wf(),
        old(ctx).wf(),
        old(ctx).n_buffers + 4 <= usize::MAX,
        owns(&*old(ctx), &lr),
        owns(&*old(ctx), &rr),
        match (lr, rr) {
            (EvalResult::Single(_, a), EvalResult::Single(_, b)) => a != b,
            _ => true,
        },
    ensures
        final(ctx).wf(),
        old(ctx).n_buffers <= final(ctx).n_buffers <= old(ctx).n_buffers + 4,
        forall|x: usize|
            !old(ctx).unowned(x) && result_buffer(rr) != Some(x) ==> !#[trigger] final(ctx).unowned(
                x,
            ),
        final(ctx).y_value() == old(ctx).y_value(),
        final(ctx).y@.len() >= old(ctx).y@.len(),
        final(ctx).size == old(ctx).size,
        final(ctx).extended_size == old(ctx).extended_size,
        final(ctx).extended_k == old(ctx).extended_k,
        res.wf(),
        owns(&*final(ctx), &res),
        final(ctx).y == old(ctx).y,
        final(ctx).ops@ == old(ctx).ops@ + new_ops(&*old(ctx), &*final(ctx)),
        forall|s: Map<usize, Sym>, x: usize|
            !old(ctx).unowned(x) && result_buffer(lr) != Some(x) && result_buffer(rr) != Some(x)
                ==> #[trigger] get(run(s, new_ops(&*old(ctx), &*final(ctx))), x) == get(s, x),
        ops_sized(new_ops(&*old(ctx), &*final(ctx)), old(ctx).size, old(ctx).extended_size),
        match res {
            EvalResult::Single(d, b) => d == 4 && closes(&*final(ctx), op, b),
            EvalResult::SumBorrow(..) => final(ctx).extended_allocator == old(
                ctx,
            ).extended_allocator && final(ctx).n_buffers == old(ctx).n_buffers,
        },
        match res {
            EvalResult::Single(_, b) => forall|s: Map<usize, Sym>|
                #[trigger] get(run(s, new_ops(&*old(ctx), &*final(ctx))), b) == if op == Bop::Sum {
                    Sym::Add(Box::new(operand_value(lr, s)), Box::new(operand_value(rr, s)))
                } else {
                    Sym::Mul(Box::new(operand_value(lr, s)), Box::new(operand_value(rr, s)))
                },
            EvalResult::SumBorrow(..) => new_ops(&*old(ctx), &*final(ctx)) == Seq::<
                DeviceOp,
            >::empty(),
        },
        (op == Bop::Sum && lr is SumBorrow && rr is SumBorrow) == (res is SumBorrow),
        match (lr, rr, res) {
            (
                EvalResult::SumBorrow(_, l, lc),
                EvalResult::SumBorrow(_, rt, rc),
                EvalResult::SumBorrow(_, t, c),
            ) => final(ctx).ops == old(ctx).ops && terms_view(t@) == terms_view(l@) + terms_view(
                rt@,
            ) && coeff_view(c) == match (coeff_view(lc), coeff_view(rc)) {
                (Some(a), Some(b)) => Some(fadd(a, b)),
                (Some(a), None) => Some(a),
                (None, b) => b,
            },
            (_, _, EvalResult::Single(_, b)) => {
                &&& op_kinds_of(final(ctx).ops@) == op_kinds_of(old(ctx).ops@) + result_force_kinds(lr)
                    + result_force_kinds(rr) + seq![
                    if op == Bop::Sum {
                        OpKind::Sum
                    } else {
                        OpKind::Mul
                    },
                ]
                &&& (old(ctx).unowned(b) || result_buffer(lr) == Some(b))
            },
            _ => false,
        },
{
    let both_lazy = lr.deg() == rr.deg() && lr.is_borrow() && rr.is_borrow();
    if both_lazy && op == Bop::Sum {
        proof {
            assert(new_ops(&*old(ctx), &*ctx) =~= Seq::<DeviceOp>::empty());
            assert(ops_sized(new_ops(&*old(ctx), &*ctx), ctx.size, ctx.extended_size));
            assert(ctx.ops@ =~= old(ctx).ops@ + new_ops(&*old(ctx), &*ctx));
            assert forall|s: Map<usize, Sym>, x: usize|
                !old(ctx).unowned(x) && result_buffer(lr) != Some(x) && result_buffer(rr) != Some(x)
                implies #[trigger] get(run(s, new_ops(&*old(ctx), &*ctx)), x) == get(s, x) by {
                assert(run(s, new_ops(&*old(ctx), &*ctx)) == s);
            }
        }
        return lr.merge(rr);
    }
    let ghost c0 = *ctx;
    let ghost ops2 = ctx.ops@;
    let lb = lr.eval(4, ctx);
    let ghost c3 = *ctx;
    let ghost ops3 = ctx.ops@;
    let rb = rr.eval(4, ctx);
    let ghost c4 = *ctx;
    let ghost ops4 = ctx.ops@;
    proof {
        assert(eval_kinds(lr, 4) =~= result_force_kinds(lr));
        assert(eval_kinds(rr, 4) =~= result_force_kinds(rr));
        assert(op_kinds_of(ops3) =~= op_kinds_of(ops2) + result_force_kinds(lr));
        assert(op_kinds_of(ops4) =~= op_kinds_of(ops3) + result_force_kinds(rr));
        lemma_keeps_owned_trans(&c0, &c3, &c4);
    }
    let len = ctx.extended_size;
    match op {
        Bop::Sum => {
            ctx.ops.push(DeviceOp::Sum { dst: lb, src: rb, len });
        },
        Bop::Product => {
            ctx.ops.push(DeviceOp::Mul { dst: lb, src: rb, len });
        },
    }
    let ghost ops5 = ctx.ops@;
    proof {
        assert(op_kinds_of(ops5) =~= op_kinds_of(ops4).push(
            if op == Bop::Sum {
                OpKind::Sum
            } else {
                OpKind::Mul
            },
        ));
    }
    let ghost c5 = *ctx;
    let ghost free = ctx.extended_allocator@;
    ctx.extended_allocator.push(rb);
    proof {
        assert(lb != rb);
        assert forall|x: usize| ctx.extended_allocator@.contains(x) implies x == rb
            || #[trigger] free.contains(x) by {
            let j = choose|j: int|
                0 <= j < ctx.extended_allocator@.len() && ctx.extended_allocator@[j] == x;
            if j < free.len() {
                assert(free[j] == x);
            }
        }
        assert(ctx.extended_allocator@.no_duplicates()) by {
            assert forall|i: int, j: int|
                0 <= i < ctx.extended_allocator@.len() && 0 <= j < ctx.extended_allocator@.len()
                    && i != j implies ctx.extended_allocator@[i] != ctx.extended_allocator@[j] by {
                if i < free.len() {
                    assert(free[i] == ctx.extended_allocator@[i]);
                }
                if j < free.len() {
                    assert(free[j] == ctx.extended_allocator@[j]);
                }
            }
        }
        assert forall|x: usize| !c0.unowned(x) && result_buffer(rr) != Some(x) implies !#[trigger] ctx.unowned(x) by {
            assert(!c4.unowned(x));
            assert(!c5.unowned(x));
            if x == rb {
                assert(c3.unowned(rb));
            }
        }
        assert(op_kinds_of(ctx.ops@) == op_kinds_of(ops5));
        assert(!c4.unowned(lb));
        assert(!c5.unowned(lb));
        // what the buffers hold
        let a = new_ops(&c0, &c3);
        let b = new_ops(&c3, &c4);
        let last = new_ops(&c4, &*ctx);
        let cop = ctx.ops@.last();
        assert(last =~= seq![cop]);
        assert(last.drop_last() =~= Seq::<DeviceOp>::empty());
        assert(new_ops(&c0, &*ctx) =~= a + b + last);
        assert(ctx.ops@ =~= c0.ops@ + new_ops(&c0, &*ctx));
        assert(ops_sized(last, c0.size, c0.extended_size)) by {
            assert(last[0] == cop);
        }
        lemma_ops_sized_concat(a, b, c0.size, c0.extended_size);
        lemma_ops_sized_concat(a + b, last, c0.size, c0.extended_size);
        assert(ctx.extended_allocator@.last() == rb);
        assert forall|s: Map<usize, Sym>| #[trigger] run(s, last) == step(s, cop) by {
            assert(run(s, last.drop_last()) == s);
        }
        assert forall|s: Map<usize, Sym>|
            run(s, new_ops(&c0, &*ctx)) == step(run(run(s, a), b), cop) by {
            lemma_run_concat(s, a + b, last);
            lemma_run_concat(s, a, b);
        }
        assert forall|s: Map<usize, Sym>|
            get(run(s, a), lb) == operand_value(lr, s) && get(run(run(s, a), b), lb) == get(
                run(s, a),
                lb,
            ) && get(run(run(s, a), b), rb) == operand_value(rr, s) by {
            assert(!c3.unowned(lb));
            if let EvalResult::Single(_, b2) = rr {
                assert(!c0.unowned(b2));
                assert(get(run(s, a), b2) == get(s, b2));
            }
        }
        assert forall|s: Map<usize, Sym>| #[trigger] get(run(s, new_ops(&c0, &*ctx)), lb) == if op
            == Bop::Sum {
            Sym::Add(Box::new(operand_value(lr, s)), Box::new(operand_value(rr, s)))
        } else {
            Sym::Mul(Box::new(operand_value(lr, s)), Box::new(operand_value(rr, s)))
        } by {
            assert(run(s, new_ops(&c0, &*ctx)) == step(run(run(s, a), b), cop));
        }
        assert forall|s: Map<usize, Sym>, x: usize|
            !c0.unowned(x) && result_buffer(lr) != Some(x) && result_buffer(rr) != Some(x) implies #[trigger] get(
            run(s, new_ops(&c0, &*ctx)),
            x,
        ) == get(s, x) by {
            assert(run(s, new_ops(&c0, &*ctx)) == step(run(run(s, a), b), cop));
            assert(x != lb);
            assert(!c3.unowned(x));
            assert(get(run(run(s, a), b), x) == get(run(s, a), x));
            assert(get(run(s, a), x) == get(s, x));
        }
    }
    EvalResult::Single(4, lb)
}

/// Evaluates a gate expression, issuing into `ctx.ops` the device operations
/// it needs.
///
/// A column reference, a constant of powers of `y`, their scalings and their
/// sums stay a lazy sum of borrowed columns, with no device work. A product,
/// or a sum with a materialized operand, materializes both operands at degree
/// 4 and combines them elementwise into the left operand's buffer; the right
/// operand's buffer goes back to the free list.
#[verifier::rlimit(100)]
pub fn evaluate_prove_expr(expr: &ProveExpression, ctx: &mut EvalHContext) -> (r: EvalResult)
    requires
        old(ctx).wf(),
        weights_valid(*expr),
        old(ctx).n_buffers + 4 * node_count(*expr) <= usize::MAX,
    ensures
        eval_step(&*old(ctx), &*final(ctx), 4 * node_count(*expr)),
        r.wf(),
        owns(&*final(ctx), &r),
        op_kinds_of(final(ctx).ops@) == op_kinds_of(old(ctx).ops@) + op_kinds(
            *expr,
            old(ctx).y_value(),
        ),
        is_lazy(*expr) == (r is SumBorrow),
        final(ctx).ops@ == old(ctx).ops@ + new_ops(&*old(ctx), &*final(ctx)),
        preserves_owned(new_ops(&*old(ctx), &*final(ctx)), &*old(ctx), None),
        ops_sized(new_ops(&*old(ctx), &*final(ctx)), old(ctx).size, old(ctx).extended_size),
        match r {
            EvalResult::Single(d, _) => d == 4,
            _ => true,
        },
        final(ctx).y@.len() == max_int(old(ctx).y@.len() as int, y_extent(*expr)),
        !uses_y(*expr) ==> final(ctx).y == old(ctx).y,
        r is SumBorrow ==> final(ctx).extended_allocator == old(ctx).extended_allocator
            && final(ctx).n_buffers == old(ctx).n_buffers && final(ctx).ops == old(ctx).ops,
        match (*expr, r) {
            (ProveExpression::Op(_, _, op), EvalResult::Single(_, b)) => closes(&*final(ctx), op, b),
            _ => true,
        },
        match r {
            EvalResult::SumBorrow(_, t, c) => terms_view(t@) == lazy_terms(
                *expr,
                old(ctx).y_value(),
            ) && coeff_view(c) == lazy_const(*expr, old(ctx).y_value()),
            EvalResult::Single(_, b) => old(ctx).unowned(b) && computes(
                new_ops(&*old(ctx), &*final(ctx)),
                b,
                denote(*expr, old(ctx).y_value()),
            ),
        },
    decreases expr,
{
    let ghost y = ctx.y_value();
    let ghost ops0 = ctx.ops@;
    match expr {
        ProveExpression::Unit(u) => {
            let mut terms: Vec<Term> = Vec::new();
            terms.push(Term { column: u.column, rotation: u.rotation as isize, coeff: None });
            proof {
                assert(terms_view(terms@) =~= lazy_terms(*expr, y));
                assert(op_kinds_of(ctx.ops@) =~= op_kinds_of(ops0) + op_kinds(*expr, y));
                assert(eval_step(&*old(ctx), &*ctx, 4 * node_count(*expr)));
                lemma_no_new_ops(&*old(ctx), &*ctx);
            }
            EvalResult::SumBorrow(1, terms, None)
        },
        ProveExpression::Op(l, r, op) => {
            let lr = evaluate_prove_expr(l, ctx);
            let ghost c1 = *ctx;
            let rr = evaluate_prove_expr(r, ctx);
            let ghost c2 = *ctx;
            let res = combine(lr, rr, *op, ctx);
            proof {
                lemma_keeps_owned_trans(&*old(ctx), &c1, &c2);
                assert forall|x: usize| !old(ctx).unowned(x) implies !#[trigger] ctx.unowned(x) by {
                    assert(!c1.unowned(x));
                    assert(!c2.unowned(x));
                }
                assert(result_force_kinds(lr) == force_kinds(**l, y));
                assert(result_force_kinds(rr) == force_kinds(**r, y));
                assert(op_kinds_of(ctx.ops@) =~= op_kinds_of(ops0) + op_kinds(*expr, y));
                if let EvalResult::SumBorrow(_, ref t, c) = res {
                    assert(terms_view(t@) =~= lazy_terms(*expr, y));
                }
                assert(eval_step(&*old(ctx), &*ctx, 4 * node_count(*expr)));
                let ol = new_ops(&*old(ctx), &c1);
                let or = new_ops(&c1, &c2);
                let oc = new_ops(&c2, &*ctx);
                assert(new_ops(&*old(ctx), &*ctx) =~= ol + or + oc);
                assert(ctx.ops@ =~= old(ctx).ops@ + new_ops(&*old(ctx), &*ctx));
                lemma_ops_sized_concat(ol, or, old(ctx).size, old(ctx).extended_size);
                lemma_ops_sized_concat(ol + or, oc, old(ctx).size, old(ctx).extended_size);
                if res is SumBorrow {
                    assert(ol =~= Seq::<DeviceOp>::empty());
                    assert(or =~= Seq::<DeviceOp>::empty());
                    assert(ctx.ops@ =~= old(ctx).ops@);
                }
                assert forall|s: Map<usize, Sym>, x: usize|
                    !old(ctx).unowned(x) && None::<usize> != Some(x) implies #[trigger] get(
                    run(s, new_ops(&*old(ctx), &*ctx)),
                    x,
                ) == get(s, x) by {
                    lemma_run_concat(s, ol + or, oc);
                    lemma_run_concat(s, ol, or);
                    assert(!c1.unowned(x));
                    assert(!c2.unowned(x));
                    assert(result_buffer(lr) != Some(x));
                    assert(get(run(run(run(s, ol), or), oc), x) == get(run(run(s, ol), or), x));
                    assert(get(run(run(s, ol), or), x) == get(run(s, ol), x));
                }
                if let EvalResult::Single(_, b) = res {
                    assert forall|s: Map<usize, Sym>| #[trigger] get(
                        run(s, new_ops(&*old(ctx), &*ctx)),
                        b,
                    ) == denote(*expr, y) by {
                        lemma_run_concat(s, ol + or, oc);
                        lemma_run_concat(s, ol, or);
                        let s2 = run(run(s, ol), or);
                        assert(operand_value(lr, s2) == if is_lazy(**l) {
                            Sym::Ext(Box::new(lazy_sym(**l, y)))
                        } else {
                            denote(**l, y)
                        }) by {
                            if let EvalResult::Single(_, b1) = lr {
                                assert(!c1.unowned(b1));
                                assert(get(s2, b1) == get(run(s, ol), b1));
                            }
                        }
                        assert(operand_value(rr, s2) == if is_lazy(**r) {
                            Sym::Ext(Box::new(lazy_sym(**r, y)))
                        } else {
                            denote(**r, y)
                        });
                    }
                }
            }
            res
        },
        ProveExpression::Y(ys) => {
            let c = eval_ys(ys, ctx);
            let terms: Vec<Term> = Vec::new();
            proof {
                assert(terms_view(terms@) =~= lazy_terms(*expr, y));
                assert(op_kinds_of(ctx.ops@) =~= op_kinds_of(ops0) + op_kinds(*expr, y));
                assert(eval_step(&*old(ctx), &*ctx, 4 * node_count(*expr)));
                lemma_no_new_ops(&*old(ctx), &*ctx);
            }
            EvalResult::SumBorrow(1, terms, Some(c))
        },
        ProveExpression::Scale(s, ys) => {
            let mut res = evaluate_prove_expr(s, ctx);
            let ghost ops1 = ctx.ops@;
            let ghost c1 = *ctx;
            let c = eval_ys(ys, ctx);
            let ghost c2 = *ctx;
            res.scale(c, ctx);
            proof {
                assert(c1.keeps_owned(&c2)) by {
                    assert forall|x: usize| !c1.unowned(x) implies !#[trigger] c2.unowned(x) by {}
                }
                assert(c2.keeps_owned(&*ctx)) by {
                    assert forall|x: usize| !c2.unowned(x) implies !#[trigger] ctx.unowned(x) by {}
                }
                lemma_keeps_owned_trans(&*old(ctx), &c1, &c2);
                lemma_keeps_owned_trans(&*old(ctx), &c2, &*ctx);
                if !is_lazy(*expr) {
                    assert(op_kinds_of(ctx.ops@) =~= op_kinds_of(ops1).push(OpKind::Scale));
                }
                assert(eval_step(&*old(ctx), &*ctx, 4 * node_count(*expr)));
                assert(op_kinds_of(ctx.ops@) =~= op_kinds_of(ops0) + op_kinds(*expr, y));
                let os = new_ops(&*old(ctx), &c1);
                let oy = new_ops(&c1, &c2);
                let oc = new_ops(&c2, &*ctx);
                assert(oy =~= Seq::<DeviceOp>::empty());
                assert(new_ops(&*old(ctx), &*ctx) =~= os + oc);
                assert(ctx.ops@ =~= old(ctx).ops@ + new_ops(&*old(ctx), &*ctx));
                lemma_ops_sized_concat(os, oc, old(ctx).size, old(ctx).extended_size);
                if res is SumBorrow {
                    assert(ctx.ops@ =~= old(ctx).ops@);
                }
                assert forall|s: Map<usize, Sym>, x: usize|
                    !old(ctx).unowned(x) && None::<usize> != Some(x) implies #[trigger] get(
                    run(s, new_ops(&*old(ctx), &*ctx)),
                    x,
                ) == get(s, x) by {
                    lemma_run_concat(s, os, oc);
                    assert(!c1.unowned(x));
                    assert(!c2.unowned(x));
                    if let EvalResult::Single(_, b) = res {
                        assert(x != b);
                    } else {
                        assert(run(run(s, os), oc) == run(s, os));
                    }
                }
                if let EvalResult::Single(_, b) = res {
                    assert forall|s: Map<usize, Sym>| #[trigger] get(
                        run(s, new_ops(&*old(ctx), &*ctx)),
                        b,
                    ) == denote(*expr, y) by {
                        lemma_run_concat(s, os, oc);
                    }
                }
                if is_lazy(*expr) {
                    assert(lazy_terms(*expr, y) =~= lazy_terms(**s, y).map_values(
                        |t: (Column, int, Option<int>)| (t.0, t.1, scale_coeff(t.2, c.val())),
                    ));
                }
            }
            res
        },
    }
}

/// Whether `ys` is a valid weighting: non-empty, exponents strictly increasing.
pub fn is_valid_weighting(ys: &Vec<(u32, Scalar)>) -> (r: bool)
    ensures
        r == valid_weights(ys@),
{
    if ys.len() == 0 {
        return false;
    }
    let mut i: usize = 1;
    while i < ys.len()
        invariant
            1 <= i <= ys@.len(),
            forall|a: int, b: int| 0 <= a < b < i ==> #[trigger] ys@[a].0 < #[trigger] ys@[b].0,
        decreases ys@.len() - i,
    {
        if ys[i - 1].0 >= ys[i].0 {
            return false;
        }
        proof {
            assert forall|a: int, b: int| 0 <= a < b < i + 1 implies #[trigger] ys@[a].0
                < #[trigger] ys@[b].0 by {
                if b == i as int && a < i - 1 {
                    assert(ys@[a].0 < ys@[i - 1].0);
                }
            }
        }
        i += 1;
    }
    true
}

/// Whether every constant and every scaling of `expr` has a valid weighting.
pub fn has_weights(expr: &ProveExpression) -> (r: bool)
    ensures
        r == weights_valid(*expr),
    decreases expr,
{
    match expr {
        ProveExpression::Unit(_) => true,
        ProveExpression::Y(ys) => is_valid_weighting(ys),
        ProveExpression::Scale(s, ys) => is_valid_weighting(ys) && has_weights(s),
        ProveExpression::Op(l, r, _) => has_weights(l) && has_weights(r),
    }
}

/// The degree bound of an expression's result: one for columns and constants,
/// the larger operand's for a sum, two for a product of two degree-one
/// operands and four for any other product.
pub fn analysis(expr: &ProveExpression) -> (r: usize)
    ensures
        r == analysis_degree(*expr),
    decreases expr,
{
    match expr {
        ProveExpression::Unit(_) => 1,
        ProveExpression::Op(l, r, op) => {
            let l_dep = analysis(l);
            let r_dep = analysis(r);
            match op {
                Bop::Sum => if l_dep >= r_dep {
                    l_dep
                } else {
                    r_dep
                },
                Bop::Product => if l_dep == 1 && r_dep == 1 {
                    2
                } else {
                    4
                },
            }
        },
        ProveExpression::Y(_) => 1,
        ProveExpression::Scale(l, _) => analysis(l),
    }
}

} // verus!

verus! {

/// The sum of two lazy operands stays lazy and issues no device work; their
/// product materializes each operand (one weighted-sum call, its constant if
/// any, and a coset-extended transform) before one elementwise product.
/// For two column references: `[MulSumVec, ExtendedFft, MulSumVec, ExtendedFft, Mul]`.
pub proof fn lemma_degree_promotion(l: ProveExpression, r: ProveExpression, y: int)
    requires
        is_lazy(l),
        is_lazy(r),
    ensures
        is_lazy(ProveExpression::Op(Box::new(l), Box::new(r), Bop::Sum)),
        op_kinds(ProveExpression::Op(Box::new(l), Box::new(r), Bop::Sum), y) == Seq::<
            OpKind,
        >::empty(),
        !is_lazy(ProveExpression::Op(Box::new(l), Box::new(r), Bop::Product)),
        op_kinds(ProveExpression::Op(Box::new(l), Box::new(r), Bop::Product), y) == force_kinds(l, y)
            + force_kinds(r, y) + seq![OpKind::Mul],
        force_kinds(l, y).last() == OpKind::ExtendedFft,
        force_kinds(r, y).last() == OpKind::ExtendedFft,
        (l is Unit && r is Unit) ==> op_kinds(
            ProveExpression::Op(Box::new(l), Box::new(r), Bop::Product),
            y,
        ) == seq![
            OpKind::MulSumVec,
            OpKind::ExtendedFft,
            OpKind::MulSumVec,
            OpKind::ExtendedFft,
            OpKind::Mul,
        ],
{
    let p = ProveExpression::Op(Box::new(l), Box::new(r), Bop::Product);
    assert(op_kinds(l, y) =~= seq![]);
    assert(op_kinds(r, y) =~= seq![]);
    assert(op_kinds(p, y) =~= force_kinds(l, y) + force_kinds(r, y) + seq![OpKind::Mul]);
    if l is Unit && r is Unit {
        assert(op_kinds(p, y) =~= seq![
            OpKind::MulSumVec,
            OpKind::ExtendedFft,
            OpKind::MulSumVec,
            OpKind::ExtendedFft,
            OpKind::Mul,
        ]);
    }
}

} // verus!

verus! {

/// What a buffer holds, symbolically, after a sequence of device operations.
pub enum Sym {
    /// Nothing known: never written, or used as scratch space.
    Unknown,
    /// The weighted sum of the rotated columns.
    Lin(Seq<(Column, int, Option<int>)>),
    /// A value plus a constant.
    WithConst(Box<Sym>, int),
    /// A value lifted to the extended domain.
    Ext(Box<Sym>),
    Add(Box<Sym>, Box<Sym>),
    Mul(Box<Sym>, Box<Sym>),
    Scaled(Box<Sym>, int),
}

pub open spec fn get(store: Map<usize, Sym>, b: usize) -> Sym {
    if store.dom().contains(b) {
        store[b]
    } else {
        Sym::Unknown
    }
}

/// The effect of one device operation on what the buffers hold.
pub open spec fn step(store: Map<usize, Sym>, op: DeviceOp) -> Map<usize, Sym> {
    match op {
        DeviceOp::MulSumVec { dst, terms, .. } => store.insert(dst, Sym::Lin(terms_view(terms@))),
        DeviceOp::AddConstant { dst, c } => store.insert(
            dst,
            Sym::WithConst(Box::new(get(store, dst)), c.val()),
        ),
        DeviceOp::ExtendedFft { buf, tmp } => store.insert(tmp, Sym::Unknown).insert(
            buf,
            Sym::Ext(Box::new(get(store, buf))),
        ),
        DeviceOp::Sum { dst, src, .. } => store.insert(
            dst,
            Sym::Add(Box::new(get(store, dst)), Box::new(get(store, src))),
        ),
        DeviceOp::Mul { dst, src, .. } => store.insert(
            dst,
            Sym::Mul(Box::new(get(store, dst)), Box::new(get(store, src))),
        ),
        DeviceOp::Scale { buf, c, .. } => store.insert(
            buf,
            Sym::Scaled(Box::new(get(store, buf)), c.val()),
        ),
    }
}

/// What the buffers hold after running `ops` from `store`.
pub open spec fn run(store: Map<usize, Sym>, ops: Seq<DeviceOp>) -> Map<usize, Sym>
    decreases ops.len(),
{
    if ops.len() == 0 {
        store
    } else {
        step(run(store, ops.drop_last()), ops.last())
    }
}

pub proof fn lemma_run_concat(store: Map<usize, Sym>, a: Seq<DeviceOp>, b: Seq<DeviceOp>)
    ensures
        run(store, a + b) == run(run(store, a), b),
    decreases b.len(),
{
    if b.len() == 0 {
        assert(a + b =~= a);
    } else {
        lemma_run_concat(store, a, b.drop_last());
        assert((a + b).drop_last() =~= a + b.drop_last());
        assert((a + b).last() == b.last());
    }
}

/// The lazy sum that a lazy expression stands for.
pub open spec fn lazy_sym(e: ProveExpression, y: int) -> Sym {
    match lazy_const(e, y) {
        Some(c) => Sym::WithConst(Box::new(Sym::Lin(lazy_terms(e, y))), c),
        None => Sym::Lin(lazy_terms(e, y)),
    }
}

/// The operation is issued over the lengths of the context: weighted sums
/// over the base size, elementwise sums and products over the extended size,
/// scalings over the size of the buffer's degree.
pub open spec fn op_sized(op: DeviceOp, size: usize, extended_size: usize) -> bool {
    match op {
        DeviceOp::MulSumVec { size: s, .. } => s == size,
        DeviceOp::Sum { len, .. } => len == extended_size,
        DeviceOp::Mul { len, .. } => len == extended_size,
        DeviceOp::Scale { len, .. } => len == size || len == 4 * size,
        _ => true,
    }
}

pub open spec fn ops_sized(ops: Seq<DeviceOp>, size: usize, extended_size: usize) -> bool {
    forall|i: int| 0 <= i < ops.len() ==> op_sized(#[trigger] ops[i], size, extended_size)
}

proof fn lemma_ops_sized_concat(a: Seq<DeviceOp>, b: Seq<DeviceOp>, size: usize, ext: usize)
    requires
        ops_sized(a, size, ext),
        ops_sized(b, size, ext),
    ensures
        ops_sized(a + b, size, ext),
{
    assert forall|i: int| 0 <= i < (a + b).len() implies op_sized(#[trigger] (a + b)[i], size, ext) by {
        if i < a.len() {
            assert((a + b)[i] == a[i]);
        } else {
            assert((a + b)[i] == b[i - a.len()]);
        }
    }
}

/// The last operation combined buffer `b` with another one, over the
/// extended size, by the binary operation `op`; the other buffer is back at
/// the end of the free list.
pub open spec fn closes(ctx: &EvalHContext, op: Bop, b: usize) -> bool {
    &&& ctx.ops@.len() > 0
    &&& ctx.extended_allocator@.len() > 0
    &&& match ctx.ops@.last() {
        DeviceOp::Sum { dst, src, len } => op == Bop::Sum && dst == b && src != b && len
            == ctx.extended_size && ctx.extended_allocator@.last() == src,
        DeviceOp::Mul { dst, src, len } => op == Bop::Product && dst == b && src != b && len
            == ctx.extended_size && ctx.extended_allocator@.last() == src,
        _ => false,
    }
}

/// What the buffer of a materialized expression holds.
pub open spec fn denote(e: ProveExpression, y: int) -> Sym
    decreases e,
{
    match e {
        ProveExpression::Op(l, r, op) => {
            let a = if is_lazy(*l) {
                Sym::Ext(Box::new(lazy_sym(*l, y)))
            } else {
                denote(*l, y)
            };
            let b = if is_lazy(*r) {
                Sym::Ext(Box::new(lazy_sym(*r, y)))
            } else {
                denote(*r, y)
            };
            if op == Bop::Sum {
                Sym::Add(Box::new(a), Box::new(b))
            } else {
                Sym::Mul(Box::new(a), Box::new(b))
            }
        },
        ProveExpression::Scale(s, ys) => Sym::Scaled(Box::new(denote(*s, y)), ys_view(ys, y)),
        _ => Sym::Unknown,
    }
}

/// The operations appended to `ctx.ops` between `before` and `after`.
pub open spec fn new_ops(before: &EvalHContext, after: &EvalHContext) -> Seq<DeviceOp> {
    after.ops@.subrange(before.ops@.len() as int, after.ops@.len() as int)
}

/// Running `ops` leaves every buffer owned in `ctx`, other than `except`, as it was.
pub open spec fn preserves_owned(ops: Seq<DeviceOp>, ctx: &EvalHContext, except: Option<usize>) -> bool {
    forall|s: Map<usize, Sym>, x: usize|
        !ctx.unowned(x) && except != Some(x) ==> #[trigger] get(run(s, ops), x) == get(s, x)
}

/// Running `ops` from any state leaves `v` in buffer `b`.
pub open spec fn computes(ops: Seq<DeviceOp>, b: usize, v: Sym) -> bool {
    forall|s: Map<usize, Sym>| #[trigger] get(run(s, ops), b) == v
}

} // verus!
