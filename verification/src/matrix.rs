//! The elimination engine: an augmented matrix of exact rationals, its elementary row
//! operations, and the Gauss-Jordan reduction composed of them.

use vstd::prelude::*;
use crate::rational::{Rational, lemma_value_representable};
use crate::elimination::{
    SolveError,
    is_system,
    row_fits,
    scaled_row,
    multiple_row,
    combined_row,
    combine,
    normalize,
    clear_below,
    forward,
    clear_above,
    backward,
    gauss_jordan,
    is_reduced,
    solves,
    last_column,
    lemma_clear_below_len,
    lemma_solution_recovered,
};

verus! {

/// The real numbers that a row of rationals stands for.
pub open spec fn row_view(row: Seq<Rational>) -> Seq<real> {
    Seq::new(row.len(), |c: int| row[c]@)
}

/// The grid of real numbers that a grid of rationals stands for.
pub open spec fn grid_view(rows: Seq<Seq<Rational>>) -> Seq<Seq<real>> {
    Seq::new(rows.len(), |i: int| row_view(rows[i]))
}

/// Every rational of the row is well formed.
pub open spec fn row_wf(row: Seq<Rational>) -> bool {
    forall|c: int| 0 <= c < row.len() ==> (#[trigger] row[c]).wf()
}

/// The rows of a vector of vectors.
pub open spec fn rows_of(values: Seq<Vec<Rational>>) -> Seq<Seq<Rational>> {
    Seq::new(values.len(), |i: int| values[i]@)
}

/// One elementary row transformation.
#[derive(Clone, Copy, Debug, PartialEq, Eq)]
pub enum RowOperation {
    /// Multiply every entry of `row` by `factor`.
    Scale { row: u8, factor: Rational },
    /// Replace every entry of row `alter` by itself minus `scale` times the entry of
    /// row `with` in the same column.
    Add { alter: u8, with: u8, scale: Rational },
}

impl RowOperation {
    /// The number that the operation carries is well formed.
    pub open spec fn wf(self) -> bool {
        match self {
            RowOperation::Scale { row, factor } => factor.wf(),
            RowOperation::Add { alter, with, scale } => scale.wf(),
        }
    }

    /// The rows that the operation names exist in a grid of `rows` rows.
    pub open spec fn within(self, rows: int) -> bool {
        match self {
            RowOperation::Scale { row, factor } => row < rows,
            RowOperation::Add { alter, with, scale } => alter < rows && with < rows,
        }
    }

    /// The grid that the operation makes of `m`, or the overflow that stops it.
    pub open spec fn applied(self, m: Seq<Seq<real>>) -> Result<Seq<Seq<real>>, SolveError> {
        match self {
            RowOperation::Scale { row, factor } => crate::elimination::scale(
                m,
                row as int,
                factor@,
            ),
            RowOperation::Add { alter, with, scale } => combine(
                m,
                alter as int,
                with as int,
                scale@,
            ),
        }
    }
}

/// A rectangular grid of rationals with its order, rows first.
pub struct Matrix {
    values: Vec<Vec<Rational>>,
    order: [u8; 2],
}

impl View for Matrix {
    type V = Seq<Seq<real>>;

    open spec fn view(&self) -> Seq<Seq<real>> {
        grid_view(self.entries())
    }
}

impl Matrix {
    /// The rationals of the grid, row by row.
    pub closed spec fn entries(self) -> Seq<Seq<Rational>> {
        rows_of(self.values@)
    }

    /// The number of rows.
    pub closed spec fn height(self) -> int {
        self.order[0] as int
    }

    /// The number of columns.
    pub closed spec fn width(self) -> int {
        self.order[1] as int
    }

    /// Every row has `width` well-formed entries, and there are `height` rows.
    pub open spec fn wf(self) -> bool {
        &&& self.entries().len() == self.height()
        &&& forall|i: int|
            0 <= i < self.entries().len() ==> (#[trigger] self.entries()[i]).len() == self.width()
                && row_wf(self.entries()[i])
    }

    /// The grid has at least one row and one column more than it has rows.
    pub open spec fn is_augmented(self) -> bool {
        self.height() >= 1 && self.width() == self.height() + 1
    }

    /// A well-formed augmented matrix stands for a system.
    pub proof fn lemma_is_system(self)
        requires
            self.wf(),
            self.is_augmented(),
        ensures
            is_system(self@),
    {
        let m = self@;
        assert forall|i: int| 0 <= i < m.len() implies (#[trigger] m[i]).len() == m.len() + 1
            && row_fits(m[i]) by {
            assert(self.entries()[i].len() == self.width());
            assert forall|c: int| 0 <= c < m[i].len() implies crate::rational::representable(
                #[trigger] m[i][c],
            ) by {
                lemma_value_representable(self.entries()[i][c]);
            }
        }
    }

    /// The zero matrix of a system in `vars` unknowns.
    pub fn new(vars: u8) -> (m: Matrix)
        requires
            vars < 255,
        ensures
            m.wf(),
            m.height() == vars,
            m.width() == vars + 1,
            m@ == Seq::new(vars as nat, |i: int| Seq::new((vars + 1) as nat, |c: int| 0real)),
    {
        let zero: Rational = Rational::from_int(0);
        let mut values: Vec<Vec<Rational>> = Vec::new();
        let mut i: u8 = 0;
        while i < vars
            invariant
                i <= vars < 255,
                zero.wf(),
                zero@ == 0real,
                values.len() == i,
                forall|k: int|
                    0 <= k < i ==> (#[trigger] values[k]).len() == vars + 1 && row_wf(values[k]@)
                        && row_view(values[k]@) == Seq::new(
                        (vars + 1) as nat,
                        |c: int| 0real,
                    ),
            decreases vars - i,
        {
            let mut row: Vec<Rational> = Vec::new();
            let mut c: u8 = 0;
            while c < vars + 1
                invariant
                    c <= vars + 1,
                    vars < 255,
                    zero.wf(),
                    zero@ == 0real,
                    row.len() == c,
                    forall|k: int| 0 <= k < c ==> #[trigger] row[k] == zero,
                decreases vars + 1 - c,
            {
                row.push(zero);
                c = c + 1;
            }
            assert(row_view(row@) =~= Seq::new((vars + 1) as nat, |c: int| 0real));
            values.push(row);
            i = i + 1;
        }
        let m = Matrix { values, order: [vars, vars + 1] };
        assert(m@ =~= Seq::new(vars as nat, |i: int| Seq::new((vars + 1) as nat, |c: int| 0real)));
        m
    }

    /// The matrix of the given rows; its order is their shape.
    pub fn with_values(values: Vec<Vec<Rational>>) -> (m: Matrix)
        requires
            1 <= values.len() <= 255,
            values[0].len() <= 255,
            forall|i: int|
                0 <= i < values.len() ==> (#[trigger] values[i]).len() == values[0].len()
                    && row_wf(values[i]@),
        ensures
            m.wf(),
            m.entries() == rows_of(values@),
            m.height() == values.len(),
            m.width() == values[0].len(),
    {
        let rows: u8 = values.len() as u8;
        let columns: u8 = values[0].len() as u8;
        let m = Matrix { values, order: [rows, columns] };
        assert forall|i: int| 0 <= i < m.entries().len() implies (#[trigger] m.entries()[i]).len()
            == m.width() && row_wf(m.entries()[i]) by {
            assert(m.entries()[i] == m.values[i]@);
        }
        m
    }

    /// The order of the matrix: rows, then columns.
    pub fn order(&self) -> (o: [u8; 2])
        ensures
            o[0] == self.height(),
            o[1] == self.width(),
    {
        self.order
    }

    /// The entry in the given row and column.
    pub fn get(&self, row: u8, column: u8) -> (r: Rational)
        requires
            self.wf(),
            row < self.height(),
            column < self.width(),
        ensures
            r == self.entries()[row as int][column as int],
            r.wf(),
            r@ == self@[row as int][column as int],
    {
        assert(self.entries()[row as int] == self.values[row as int]@);
        self.values[row as usize][column as usize]
    }

    /// The last column, top to bottom: the solution once the matrix is reduced.
    pub fn solution(&self) -> (v: Vec<Rational>)
        requires
            self.wf(),
            self.is_augmented(),
        ensures
            v.len() == self.height(),
            row_wf(v@),
            row_view(v@) == last_column(self@),
    {
        let n: u8 = self.order[0];
        let mut v: Vec<Rational> = Vec::new();
        let mut i: u8 = 0;
        while i < n
            invariant
                self.wf(),
                self.is_augmented(),
                n == self.height(),
                i <= n,
                v.len() == i,
                row_wf(v@),
                forall|k: int| 0 <= k < i ==> (#[trigger] v[k])@ == self@[k][n as int],
            decreases n - i,
        {
            let x: Rational = self.get(i, n);
            v.push(x);
            i = i + 1;
        }
        assert(row_view(v@) =~= last_column(self@));
        v
    }

    /// Applies one row operation. On overflow the matrix is left as it was.
    pub fn row_operation(&mut self, op: RowOperation) -> (res: Result<(), SolveError>)
        requires
            old(self).wf(),
            op.wf(),
            op.within(old(self).height()),
        ensures
            final(self).wf(),
            final(self).height() == old(self).height(),
            final(self).width() == old(self).width(),
            match res {
                Ok(()) => op.applied(old(self)@) == Ok::<Seq<Seq<real>>, SolveError>(final(self)@),
                Err(e) => e == SolveError::Overflow && op.applied(old(self)@) == Err::<
                    Seq<Seq<real>>,
                    SolveError,
                >(e) && final(self).entries() == old(self).entries(),
            },
    {
        match op {
            RowOperation::Scale { row, factor } => self.scale_row(row, factor),
            RowOperation::Add { alter, with, scale } => self.add_rows(alter, with, scale),
        }
    }

    fn scale_row(&mut self, row: u8, factor: Rational) -> (res: Result<(), SolveError>)
        requires
            old(self).wf(),
            factor.wf(),
            row < old(self).height(),
        ensures
            final(self).wf(),
            final(self).height() == old(self).height(),
            final(self).width() == old(self).width(),
            match res {
                Ok(()) => crate::elimination::scale(old(self)@, row as int, factor@) == Ok::<
                    Seq<Seq<real>>,
                    SolveError,
                >(final(self)@),
                Err(e) => e == SolveError::Overflow && crate::elimination::scale(
                    old(self)@,
                    row as int,
                    factor@,
                ) == Err::<Seq<Seq<real>>, SolveError>(e) && final(self).entries() == old(
                    self,
                ).entries(),
            },
    {
        let ghost before = *self;
        let ghost source: Seq<Rational> = self.entries()[row as int];
        let ghost target: Seq<real> = scaled_row(self@[row as int], factor@);
        assert(source == self.values[row as int]@);
        let width: usize = self.values[row as usize].len();
        let mut fresh: Vec<Rational> = Vec::new();
        let mut c: usize = 0;
        while c < width
            invariant
                *self == before,
                before.wf(),
                factor.wf(),
                row < before.height(),
                source == before.entries()[row as int],
                source == self.values[row as int]@,
                target == scaled_row(before@[row as int], factor@),
                width == source.len(),
                c <= width,
                fresh.len() == c,
                row_wf(fresh@),
                forall|k: int| 0 <= k < c ==> (#[trigger] fresh[k])@ == target[k],
            decreases width - c,
        {
            let entry: Rational = self.values[row as usize][c];
            assert(entry == source[c as int]);
            match entry.checked_mul(&factor) {
                Some(product) => {
                    fresh.push(product);
                },
                None => {
                    assert(!crate::rational::representable(target[c as int]));
                    return Err(SolveError::Overflow);
                },
            }
            c = c + 1;
        }
        proof {
            assert forall|k: int| 0 <= k < target.len() implies crate::rational::representable(
                #[trigger] target[k],
            ) by {
                lemma_value_representable(fresh[k]);
            }
            assert(row_view(fresh@) =~= target);
        }
        self.values.set(row as usize, fresh);
        proof {
            assert(self.entries() =~= before.entries().update(row as int, fresh@));
            assert(self@ =~= before@.update(row as int, target));
        }
        Ok(())
    }

    fn add_rows(&mut self, initial: u8, with: u8, scale: Rational) -> (res: Result<
        (),
        SolveError,
    >)
        requires
            old(self).wf(),
            scale.wf(),
            initial < old(self).height(),
            with < old(self).height(),
        ensures
            final(self).wf(),
            final(self).height() == old(self).height(),
            final(self).width() == old(self).width(),
            match res {
                Ok(()) => combine(old(self)@, initial as int, with as int, scale@) == Ok::<
                    Seq<Seq<real>>,
                    SolveError,
                >(final(self)@),
                Err(e) => e == SolveError::Overflow && combine(
                    old(self)@,
                    initial as int,
                    with as int,
                    scale@,
                ) == Err::<Seq<Seq<real>>, SolveError>(e) && final(self).entries() == old(
                    self,
                ).entries(),
            },
    {
        let ghost before = *self;
        let ghost minuend: Seq<Rational> = self.entries()[initial as int];
        let ghost source: Seq<Rational> = self.entries()[with as int];
        let ghost products: Seq<real> = multiple_row(self@[with as int], scale@);
        let ghost target: Seq<real> = combined_row(
            self@[initial as int],
            self@[with as int],
            scale@,
        );
        assert(minuend == self.values[initial as int]@);
        assert(source == self.values[with as int]@);
        let width: usize = self.values[initial as usize].len();
        let mut fresh: Vec<Rational> = Vec::new();
        let mut c: usize = 0;
        while c < width
            invariant
                *self == before,
                before.wf(),
                scale.wf(),
                initial < before.height(),
                with < before.height(),
                minuend == self.values[initial as int]@,
                source == self.values[with as int]@,
                minuend == before.entries()[initial as int],
                source == before.entries()[with as int],
                products == multiple_row(before@[with as int], scale@),
                target == combined_row(before@[initial as int], before@[with as int], scale@),
                width == minuend.len(),
                width == source.len(),
                c <= width,
                fresh.len() == c,
                row_wf(fresh@),
                forall|k: int| 0 <= k < c ==> (#[trigger] fresh[k])@ == target[k],
                forall|k: int|
                    0 <= k < c ==> crate::rational::representable(#[trigger] products[k]),
            decreases width - c,
        {
            let a: Rational = self.values[initial as usize][c];
            let b: Rational = self.values[with as usize][c];
            assert(a == minuend[c as int]);
            assert(b == source[c as int]);
            match scale.checked_mul(&b) {
                Some(product) => {
                    proof {
                        lemma_value_representable(product);
                    }
                    match a.checked_sub(&product) {
                        Some(difference) => {
                            fresh.push(difference);
                        },
                        None => {
                            assert(!crate::rational::representable(target[c as int]));
                            return Err(SolveError::Overflow);
                        },
                    }
                },
                None => {
                    assert(!crate::rational::representable(products[c as int]));
                    return Err(SolveError::Overflow);
                },
            }
            c = c + 1;
        }
        proof {
            assert forall|k: int| 0 <= k < target.len() implies crate::rational::representable(
                #[trigger] target[k],
            ) by {
                lemma_value_representable(fresh[k]);
            }
            assert(row_view(fresh@) =~= target);
        }
        self.values.set(initial as usize, fresh);
        proof {
            assert(self.entries() =~= before.entries().update(initial as int, fresh@));
            assert(self@ =~= before@.update(initial as int, target));
        }
        Ok(())
    }

    /// Divides row `row` by its diagonal entry.
    fn normalize_row(&mut self, row: u8) -> (res: Result<(), SolveError>)
        requires
            old(self).wf(),
            row < old(self).height(),
            row < old(self).width(),
        ensures
            final(self).wf(),
            final(self).height() == old(self).height(),
            final(self).width() == old(self).width(),
            match res {
                Ok(()) => normalize(old(self)@, row as int) == Ok::<Seq<Seq<real>>, SolveError>(
                    final(self)@,
                ),
                Err(e) => normalize(old(self)@, row as int) == Err::<Seq<Seq<real>>, SolveError>(e)
                    && final(self).entries() == old(self).entries(),
            },
    {
        let pivot: Rational = self.get(row, row);
        match pivot.checked_recip() {
            Some(factor) => self.scale_row(row, factor),
            None => Err(SolveError::Singular),
        }
    }

    /// A copy of the matrix.
    fn duplicate(&self) -> (m: Matrix)
        requires
            self.wf(),
        ensures
            m.wf(),
            m.entries() == self.entries(),
            m.height() == self.height(),
            m.width() == self.width(),
    {
        let mut values: Vec<Vec<Rational>> = Vec::new();
        let mut i: usize = 0;
        while i < self.values.len()
            invariant
                self.wf(),
                i <= self.values.len(),
                values.len() == i,
                forall|k: int| 0 <= k < i ==> (#[trigger] values[k])@ == self.values[k]@,
            decreases self.values.len() - i,
        {
            let mut row: Vec<Rational> = Vec::new();
            let mut c: usize = 0;
            while c < self.values[i].len()
                invariant
                    i < self.values.len(),
                    c <= self.values[i as int].len(),
                    row.len() == c,
                    forall|k: int| 0 <= k < c ==> #[trigger] row[k] == self.values[i as int][k],
                decreases self.values[i as int].len() - c,
            {
                row.push(self.values[i][c]);
                c = c + 1;
            }
            assert(row@ =~= self.values[i as int]@);
            values.push(row);
            i = i + 1;
        }
        let m = Matrix { values, order: self.order };
        assert(m.entries() =~= self.entries());
        m
    }

    /// Reduces the augmented matrix to reduced row-echelon form without exchanging rows.
    ///
    /// On success the coefficient block is the identity and the last column is the one
    /// solution of the system. A zero pivot is reported as [`SolveError::Singular`]; an
    /// entry out of range as [`SolveError::Overflow`]. On failure the matrix is left as
    /// it was.
    pub fn solve_equation(&mut self) -> (res: Result<(), SolveError>)
        requires
            old(self).wf(),
            old(self).is_augmented(),
        ensures
            final(self).wf(),
            final(self).height() == old(self).height(),
            final(self).width() == old(self).width(),
            match res {
                Ok(()) => {
                    &&& gauss_jordan(old(self)@) == Ok::<Seq<Seq<real>>, SolveError>(final(self)@)
                    &&& is_reduced(final(self)@)
                    &&& forall|v: Seq<real>|
                        solves(old(self)@, v) <==> v == last_column(final(self)@)
                },
                Err(e) => gauss_jordan(old(self)@) == Err::<Seq<Seq<real>>, SolveError>(e)
                    && final(self).entries() == old(self).entries(),
            },
    {
        let ghost start: Seq<Seq<real>> = self@;
        let n: u8 = self.order[0];
        let mut work: Matrix = self.duplicate();
        let mut i: u8 = 0;
        while i < n - 1
            invariant
                n >= 1,
                i <= n - 1,
                work.wf(),
                work.height() == n,
                work.width() == n + 1,
                forward(work@, i as int) == forward(start, 0),
                start.len() == n,
                *self == *old(self),
                old(self).wf(),
                start == old(self)@,
            decreases n - i,
        {
            let ghost entered: Seq<Seq<real>> = work@;
            match work.normalize_row(i) {
                Ok(()) => {},
                Err(e) => {
                    return Err(e);
                },
            }
            let ghost scaled: Seq<Seq<real>> = work@;
            let mut j: u8 = i + 1;
            while j < n
                invariant
                    i < n - 1,
                    i < j <= n,
                    work.wf(),
                    work.height() == n,
                    work.width() == n + 1,
                    entered.len() == n,
                    start.len() == n,
                    forward(entered, i as int) == forward(start, 0),
                    normalize(entered, i as int) == Ok::<Seq<Seq<real>>, SolveError>(scaled),
                    clear_below(work@, i as int, j as int) == clear_below(
                        scaled,
                        i as int,
                        i + 1,
                    ),
                    *self == *old(self),
                    old(self).wf(),
                    start == old(self)@,
                old(self).wf(),
                start == old(self)@,
                decreases n - j,
            {
                let factor: Rational = work.get(j, i);
                match work.add_rows(j, i, factor) {
                    Ok(()) => {},
                    Err(e) => {
                        return Err(e);
                    },
                }
                j = j + 1;
            }
            proof {
                lemma_clear_below_len(scaled, i as int, i + 1);
            }
            i = i + 1;
        }
        let ghost swept: Seq<Seq<real>> = work@;
        match work.normalize_row(n - 1) {
            Ok(()) => {},
            Err(e) => {
                return Err(e);
            },
        }
        let mut i: u8 = n - 1;
        while i >= 1
            invariant
                i <= n - 1,
                work.wf(),
                work.height() == n,
                work.width() == n + 1,
                start.len() == n,
                backward(work@, i as int) == gauss_jordan(start),
                *self == *old(self),
                old(self).wf(),
                start == old(self)@,
            decreases i,
        {
            let ghost entered: Seq<Seq<real>> = work@;
            match work.normalize_row(i) {
                Ok(()) => {},
                Err(e) => {
                    return Err(e);
                },
            }
            let ghost scaled: Seq<Seq<real>> = work@;
            let mut j: u8 = i;
            while j > 0
                invariant
                    1 <= i <= n - 1,
                    j <= i,
                    work.wf(),
                    work.height() == n,
                    work.width() == n + 1,
                    start.len() == n,
                    backward(entered, i as int) == gauss_jordan(start),
                    normalize(entered, i as int) == Ok::<Seq<Seq<real>>, SolveError>(scaled),
                    clear_above(work@, i as int, j - 1) == clear_above(scaled, i as int, i - 1),
                    *self == *old(self),
                    old(self).wf(),
                    start == old(self)@,
                old(self).wf(),
                start == old(self)@,
                decreases j,
            {
                j = j - 1;
                let factor: Rational = work.get(j, i);
                match work.add_rows(j, i, factor) {
                    Ok(()) => {},
                    Err(e) => {
                        return Err(e);
                    },
                }
            }
            i = i - 1;
        }
        proof {
            old(self).lemma_is_system();
            lemma_solution_recovered(start);
        }
        *self = work;
        Ok(())
    }
}

} // verus!
