//! Columns of a circuit and the host-side values they hold.
use vstd::prelude::*;
use crate::field::Scalar;

verus! {

#[derive(Clone, Copy, Debug, PartialEq, Eq, Structural)]
pub enum ColumnKind {
    Fixed,
    Advice,
    Instance,
}

/// A column of a circuit: its kind and its index among the columns of that kind.
#[derive(Clone, Copy, Debug, PartialEq, Eq, Structural)]
pub struct Column {
    pub kind: ColumnKind,
    pub index: usize,
}

/// The values of every column of a circuit, one vector per column.
pub struct ColumnValues {
    pub fixed: Vec<Vec<Scalar>>,
    pub advice: Vec<Vec<Scalar>>,
    pub instance: Vec<Vec<Scalar>>,
}

impl ColumnValues {
    /// The columns of the given kind.
    pub open spec fn of_kind(&self, kind: ColumnKind) -> Seq<Vec<Scalar>> {
        match kind {
            ColumnKind::Fixed => self.fixed@,
            ColumnKind::Advice => self.advice@,
            ColumnKind::Instance => self.instance@,
        }
    }

    /// `col` names one of the columns held here.
    pub open spec fn has(&self, col: Column) -> bool {
        col.index < self.of_kind(col.kind).len()
    }

    /// The values of `col`.
    pub open spec fn values(&self, col: Column) -> Seq<Scalar> {
        self.of_kind(col.kind)[col.index as int]@
    }

    /// Every column held here has at least `n` rows.
    pub open spec fn all_rows(&self, n: int) -> bool {
        &&& forall|i: int| 0 <= i < self.fixed@.len() ==> #[trigger] self.fixed@[i]@.len() >= n
        &&& forall|i: int| 0 <= i < self.advice@.len() ==> #[trigger] self.advice@[i]@.len() >= n
        &&& forall|i: int|
            0 <= i < self.instance@.len() ==> #[trigger] self.instance@[i]@.len() >= n
    }

    pub fn column(&self, col: Column) -> (r: &Vec<Scalar>)
        requires
            self.has(col),
        ensures
            r@ == self.values(col),
    {
        match col.kind {
            ColumnKind::Fixed => &self.fixed[col.index],
            ColumnKind::Advice => &self.advice[col.index],
            ColumnKind::Instance => &self.instance[col.index],
        }
    }

    pub proof fn lemma_rows(&self, col: Column, n: int)
        requires
            self.has(col),
            self.all_rows(n),
        ensures
            self.values(col).len() >= n,
    {
        match col.kind {
            ColumnKind::Fixed => assert(self.fixed@[col.index as int]@.len() >= n),
            ColumnKind::Advice => assert(self.advice@[col.index as int]@.len() >= n),
            ColumnKind::Instance => assert(self.instance@[col.index as int]@.len() >= n),
        }
    }
}

} // verus!
