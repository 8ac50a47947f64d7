//! The editing state machine of the grid: the size buffer, the cell store, the cursor,
//! and the commands that move the cursor, edit text and hand the system to the solver.

use vstd::prelude::*;
use vstd::arithmetic::div_mod::{
    lemma_fundamental_div_mod,
    lemma_div_multiples_vanish,
    lemma_mod_multiples_basic,
    lemma_small_mod,
    lemma_mod_self_0,
    lemma_div_pos_is_pos,
    lemma_mod_bound,
};
use crate::decimal::{
    DecimalError,
    is_digit,
    all_digits,
    order_of,
    decimal_of,
    parse_order,
    parse_decimal,
};
use crate::rational::Rational;
use crate::matrix::{Matrix, row_view, row_wf};
use crate::elimination::{SolveError, gauss_jordan, last_column};

verus! {

/// `String::push` appends the character to the end of the string.
pub assume_specification[ String::push ](s: &mut String, ch: char)
    ensures
        final(s)@ == old(s)@.push(ch),
;

/// `String::pop` removes the last character and returns it, or returns `None` and
/// leaves the string as it is when it is empty.
pub assume_specification[ String::pop ](s: &mut String) -> (r: Option<char>)
    ensures
        old(s)@.len() == 0 ==> r is None && final(s)@ == old(s)@,
        old(s)@.len() > 0 ==> r == Some(old(s)@.last()) && final(s)@ == old(s)@.drop_last(),
;

/// What the cursor is on.
#[derive(Clone, Copy, Debug, PartialEq, Eq)]
pub enum CurrentlyEditing {
    /// The buffer that holds the order of the system.
    EquationSize,
    /// The cell in column `x` of row `y`.
    Equation { x: i8, y: i8 },
}

/// A command of the user.
#[derive(Clone, Copy, Debug, PartialEq, Eq)]
pub enum Key {
    Tab,
    BackTab,
    Backspace,
    Left,
    Right,
    Up,
    Down,
    Esc,
    Enter,
    Char(char),
    Other,
}

/// What the caller is to do after a command.
#[derive(Clone, Copy, Debug, PartialEq, Eq)]
pub enum Outcome {
    /// Go on editing.
    Continue,
    /// Leave without solving.
    Quit,
    /// The system is complete: solve it.
    Submit,
}

/// The size buffer declares no order: it is not a bare integer from 1 to 127.
#[derive(Clone, Copy, Debug, PartialEq, Eq)]
pub struct InvalidSize;

/// The number of cells of a system of order `n`.
pub open spec fn cell_count(n: int) -> int {
    n * (n + 1)
}

/// The place in the cell store of the cell in column `x` of row `y`.
pub open spec fn flat_index(n: int, x: int, y: int) -> int {
    y * (n + 1) + x
}

/// The column and row of the cell at `index`; the index one past the last cell is
/// the first cell again.
pub open spec fn cell_at(n: int, index: int) -> (int, int) {
    (index % (n + 1), (index / (n + 1)) % n)
}

/// Whether the character may be typed into the buffer that the cursor is on.
pub open spec fn accepts(editing: CurrentlyEditing, c: char) -> bool {
    is_digit(c) || (editing is Equation && (c == '.' || c == '-'))
}

/// Whether every character of the text is one that a cell accepts.
pub open spec fn is_cell_text(s: Seq<char>) -> bool {
    forall|i: int| 0 <= i < s.len() ==> is_digit(#[trigger] s[i]) || s[i] == '.' || s[i] == '-'
}

/// The number a cell stands for when the system is solved: a text that is no decimal
/// literal counts as 1.
pub open spec fn cell_number(s: Seq<char>) -> Result<real, SolveError> {
    match decimal_of(s) {
        Ok(v) => Ok(v),
        Err(DecimalError::Malformed) => Ok(1real),
        Err(DecimalError::OutOfRange) => Err(SolveError::Overflow),
    }
}

/// The letter of the unknown in column `row`: `x`, `y`, `z`, then backward through the
/// character set from `w`, as far as that goes.
pub open spec fn variable_letter(row: int) -> Option<char> {
    if 0 <= row < 3 {
        Some((120 + row) as char)
    } else if 3 <= row <= 120 {
        Some((122 - row) as char)
    } else {
        None
    }
}

/// The state of the editor as plain values.
pub struct AppView {
    pub size: Seq<char>,
    pub cells: Seq<Seq<char>>,
    pub editing: CurrentlyEditing,
}

impl AppView {
    /// The order that the size buffer declares; 0 where it declares none.
    pub open spec fn order(self) -> int {
        match order_of(self.size) {
            Some(n) => n,
            None => 0,
        }
    }

    /// No buffer holds a character that it does not accept. While a cell is edited,
    /// the size buffer declares an order, the cell store has the cells of that order,
    /// and the cursor is on one of them.
    pub open spec fn wf(self) -> bool {
        &&& all_digits(self.size)
        &&& forall|i: int| 0 <= i < self.cells.len() ==> is_cell_text(#[trigger] self.cells[i])
        &&& match self.editing {
            CurrentlyEditing::EquationSize => true,
            CurrentlyEditing::Equation { x, y } => {
                &&& order_of(self.size) is Some
                &&& self.cells.len() == cell_count(self.order())
                &&& 0 <= x <= self.order()
                &&& 0 <= y < self.order()
            },
        }
    }

    /// The place in the cell store of the cell under the cursor.
    pub open spec fn cursor(self) -> int {
        match self.editing {
            CurrentlyEditing::EquationSize => 0,
            CurrentlyEditing::Equation { x, y } => flat_index(self.order(), x as int, y as int),
        }
    }

    /// The state with the cursor on the cell at `index`.
    pub open spec fn at(self, index: int) -> AppView {
        let (x, y) = cell_at(self.order(), index);
        AppView { editing: CurrentlyEditing::Equation { x: x as i8, y: y as i8 }, ..self }
    }

    /// The state with the cursor in column `x` of row `y`.
    pub open spec fn on(self, x: int, y: int) -> AppView {
        AppView { editing: CurrentlyEditing::Equation { x: x as i8, y: y as i8 }, ..self }
    }

    /// The order in the size buffer committed: the cell store is kept where it has the
    /// right length and replaced by empty cells where it has not. A buffer that declares
    /// no order leaves the state as it is.
    pub open spec fn committed(self) -> AppView {
        match order_of(self.size) {
            Some(n) => AppView {
                size: self.size,
                cells: if self.cells.len() == cell_count(n) {
                    self.cells
                } else {
                    Seq::new(cell_count(n) as nat, |i: int| Seq::<char>::empty())
                },
                editing: CurrentlyEditing::Equation { x: 0, y: 0 },
            },
            None => self,
        }
    }

    /// The state after the command that goes to the next field, or to the one before.
    pub open spec fn toggled(self, forwards: bool) -> AppView {
        match self.editing {
            CurrentlyEditing::EquationSize => if forwards {
                self.committed()
            } else {
                self
            },
            CurrentlyEditing::Equation { x, y } => if forwards {
                self.at(self.cursor() + 1)
            } else if self.cursor() == 0 {
                AppView { editing: CurrentlyEditing::EquationSize, ..self }
            } else {
                self.at(self.cursor() - 1)
            },
        }
    }

    /// The state after `steps` commands that go to the next field.
    pub open spec fn advanced(self, steps: nat) -> AppView
        decreases steps,
    {
        if steps == 0 {
            self
        } else {
            self.advanced((steps - 1) as nat).toggled(true)
        }
    }

    /// One cell to the left, into the row above from the first column; the first cell
    /// stays.
    pub open spec fn left(self) -> AppView {
        if self.editing is Equation && self.cursor() > 0 {
            self.at(self.cursor() - 1)
        } else {
            self
        }
    }

    /// One cell to the right, into the row below from the last column; the last cell
    /// stays.
    pub open spec fn right(self) -> AppView {
        if self.editing is Equation && self.cursor() + 1 < cell_count(self.order()) {
            self.at(self.cursor() + 1)
        } else {
            self
        }
    }

    /// One row up; the first row stays.
    pub open spec fn up(self) -> AppView {
        match self.editing {
            CurrentlyEditing::Equation { x, y } if y > 0 => self.on(x as int, y - 1),
            _ => self,
        }
    }

    /// One row down; the last row stays.
    pub open spec fn down(self) -> AppView {
        match self.editing {
            CurrentlyEditing::Equation { x, y } if y + 1 < self.order() => self.on(
                x as int,
                y + 1,
            ),
            _ => self,
        }
    }

    /// The state after `c` is typed: appended to the buffer under the cursor where that
    /// buffer accepts it.
    pub open spec fn pushed(self, c: char) -> AppView {
        if !accepts(self.editing, c) {
            self
        } else {
            match self.editing {
                CurrentlyEditing::EquationSize => AppView { size: self.size.push(c), ..self },
                CurrentlyEditing::Equation { x, y } => AppView {
                    cells: self.cells.update(self.cursor(), self.cells[self.cursor()].push(c)),
                    ..self
                },
            }
        }
    }

    /// The state after the last character of the buffer under the cursor is deleted.
    pub open spec fn popped(self) -> AppView {
        match self.editing {
            CurrentlyEditing::EquationSize => if self.size.len() > 0 {
                AppView { size: self.size.drop_last(), ..self }
            } else {
                self
            },
            CurrentlyEditing::Equation { x, y } => if self.cells[self.cursor()].len() > 0 {
                AppView {
                    cells: self.cells.update(
                        self.cursor(),
                        self.cells[self.cursor()].drop_last(),
                    ),
                    ..self
                }
            } else {
                self
            },
        }
    }

    /// The state after a command, and what the caller is to do next.
    pub open spec fn handled(self, key: Key) -> (AppView, Outcome) {
        match key {
            Key::Tab => (self.toggled(true), Outcome::Continue),
            Key::BackTab => (self.toggled(false), Outcome::Continue),
            Key::Backspace => (self.popped(), Outcome::Continue),
            Key::Left => (self.left(), Outcome::Continue),
            Key::Right => (self.right(), Outcome::Continue),
            Key::Up => (self.up(), Outcome::Continue),
            Key::Down => (self.down(), Outcome::Continue),
            Key::Esc => (self, Outcome::Quit),
            Key::Enter => if self.editing is EquationSize {
                (self.toggled(true), Outcome::Continue)
            } else {
                (self, Outcome::Submit)
            },
            Key::Char(c) => if c == 'h' {
                (self.left(), Outcome::Continue)
            } else if c == 'l' {
                (self.right(), Outcome::Continue)
            } else if c == 'k' {
                (self.up(), Outcome::Continue)
            } else if c == 'j' {
                (self.down(), Outcome::Continue)
            } else if c == 'q' {
                (self, Outcome::Quit)
            } else {
                (self.pushed(c), Outcome::Continue)
            },
            Key::Other => (self, Outcome::Continue),
        }
    }

    /// The augmented matrix that the cells stand for, row by row.
    pub open spec fn system(self) -> Result<Seq<Seq<real>>, SolveError> {
        if exists|i: int| 0 <= i < self.cells.len() && cell_number(#[trigger] self.cells[i]) is Err {
            Err(SolveError::Overflow)
        } else {
            Ok(
                Seq::new(
                    self.order() as nat,
                    |r: int|
                        Seq::new(
                            (self.order() + 1) as nat,
                            |c: int| cell_number(self.cells[flat_index(self.order(), c, r)])->Ok_0,
                        ),
                ),
            )
        }
    }

    /// The solution of the system that the cells stand for.
    pub open spec fn solved(self) -> Result<Seq<real>, SolveError> {
        match self.system() {
            Err(e) => Err(e),
            Ok(m) => match gauss_jordan(m) {
                Err(e) => Err(e),
                Ok(r) => Ok(last_column(r)),
            },
        }
    }
}

/// The editor: the size buffer, the cell store and the cursor.
pub struct App {
    mat_size: String,
    matrix: Vec<String>,
    currently_editing: CurrentlyEditing,
}

impl View for App {
    type V = AppView;

    closed spec fn view(&self) -> AppView {
        AppView {
            size: self.mat_size@,
            cells: Seq::new(self.matrix.len() as nat, |i: int| self.matrix[i]@),
            editing: self.currently_editing,
        }
    }
}

/// Index arithmetic of a grid of order `n`: every index below the cell count is the
/// place of exactly one cell, and the cell count itself leads back to the first cell.
pub proof fn lemma_cell_at(n: int, index: int)
    requires
        1 <= n,
        0 <= index <= cell_count(n),
    ensures
        0 <= cell_at(n, index).0 <= n,
        0 <= cell_at(n, index).1 < n,
        index < cell_count(n) ==> flat_index(n, cell_at(n, index).0, cell_at(n, index).1)
            == index,
        index == cell_count(n) ==> cell_at(n, index) == (0int, 0int),
{
    let w: int = n + 1;
    let q: int = index / w;
    let r: int = index % w;
    lemma_fundamental_div_mod(index, w);
    lemma_mod_bound(index, w);
    lemma_div_pos_is_pos(index, w);
    if index < cell_count(n) {
        assert(q < n) by (nonlinear_arith)
            requires
                index == w * q + r,
                0 <= r,
                index < n * w,
                w > 0,
        ;
        lemma_small_mod(q as nat, n as nat);
        assert(q * w + r == index) by (nonlinear_arith)
            requires
                index == w * q + r,
        ;
    } else {
        assert(index == n * w && index == w * n) by (nonlinear_arith)
            requires
                index == n * (n + 1),
                w == n + 1,
        ;
        lemma_mod_multiples_basic(n, w);
        lemma_div_multiples_vanish(n, w);
        lemma_mod_self_0(n);
    }
}

/// The place of a cell of the grid is below the cell count.
pub proof fn lemma_flat_index(n: int, x: int, y: int)
    requires
        0 <= x <= n,
        0 <= y < n,
    ensures
        0 <= flat_index(n, x, y) < cell_count(n),
        flat_index(n, x, y) == 0 <==> x == 0 && y == 0,
        cell_at(n, flat_index(n, x, y)) == (x, y),
{
    let w: int = n + 1;
    let f: int = flat_index(n, x, y);
    assert(0 <= y * w <= (n - 1) * w && (n - 1) * w + n < n * w && (y > 0 ==> y * w > 0))
        by (nonlinear_arith)
        requires
            0 <= y < n,
            w == n + 1,
    ;
    vstd::arithmetic::div_mod::lemma_fundamental_div_mod_converse(f, w, y, x);
    lemma_small_mod(y as nat, n as nat);
}

/// Going to the next field as often as there are cells leads from the first cell back
/// to the first cell.
pub proof fn lemma_forward_cycle(v: AppView)
    requires
        v.wf(),
        v.editing == (CurrentlyEditing::Equation { x: 0, y: 0 }),
    ensures
        v.advanced(cell_count(v.order()) as nat) == v,
{
    let n: int = v.order();
    let total: int = cell_count(n);
    assert(total >= 1) by (nonlinear_arith)
        requires
            total == n * (n + 1),
            n >= 1,
    ;
    lemma_advanced(v, (total - 1) as nat);
    let last = v.advanced((total - 1) as nat);
    assert(last.cursor() == total - 1);
    lemma_cell_at(n, total);
    assert(last.toggled(true) == v);
}

/// After `steps` commands that go to the next field, with fewer steps than cells, the
/// cursor that started on the first cell is on the cell at `steps`.
pub proof fn lemma_advanced(v: AppView, steps: nat)
    requires
        v.wf(),
        v.editing == (CurrentlyEditing::Equation { x: 0, y: 0 }),
        steps < cell_count(v.order()),
    ensures
        v.advanced(steps).wf(),
        v.advanced(steps).size == v.size,
        v.advanced(steps).cells == v.cells,
        v.advanced(steps).editing is Equation,
        v.advanced(steps).cursor() == steps,
    decreases steps,
{
    let n: int = v.order();
    if steps == 0 {
    } else {
        lemma_advanced(v, (steps - 1) as nat);
        let before = v.advanced((steps - 1) as nat);
        lemma_cell_at(n, steps as int);
        assert(before.toggled(true) == before.at(steps as int));
    }
}

/// Going back from the first cell leaves the grid for the size buffer.
pub proof fn lemma_backward_from_first(v: AppView)
    requires
        v.wf(),
        v.editing == (CurrentlyEditing::Equation { x: 0, y: 0 }),
    ensures
        v.toggled(false).editing == CurrentlyEditing::EquationSize,
        v.toggled(false).size == v.size,
        v.toggled(false).cells == v.cells,
{
}

/// Committing an order other than the one the cell store was made for leaves every
/// cell empty.
pub proof fn lemma_resize_clears(v: AppView, before: int, after: int)
    requires
        v.editing == CurrentlyEditing::EquationSize,
        before >= 1,
        v.cells.len() == cell_count(before),
        order_of(v.size) == Some(after),
        before != after,
    ensures
        v.toggled(true).cells.len() == cell_count(after),
        forall|i: int|
            0 <= i < cell_count(after) ==> (#[trigger] v.toggled(true).cells[i]).len() == 0,
{
    assert(cell_count(before) != cell_count(after)) by (nonlinear_arith)
        requires
            before >= 1,
            after >= 1,
            before != after,
    ;
}

/// A digit is accepted wherever the cursor is; `-` and `.` are turned away from the
/// size buffer and leave it as it is.
pub proof fn lemma_character_policy(v: AppView, c: char)
    ensures
        is_digit(c) ==> accepts(v.editing, c),
        (c == '-' || c == '.') && v.editing is EquationSize ==> !accepts(v.editing, c) && v.pushed(
            c,
        ) == v,
        (c == '-' || c == '.') && v.editing is Equation ==> accepts(v.editing, c),
{
}

/// Every command leaves a well-formed state well formed: a cell is only ever edited
/// under a committed order, in a cell store of that order.
pub proof fn lemma_commands_preserve_wf(v: AppView, key: Key)
    requires
        v.wf(),
    ensures
        v.handled(key).0.wf(),
{
    if let CurrentlyEditing::Equation { x, y } = v.editing {
        let n: int = v.order();
        lemma_flat_index(n, x as int, y as int);
        lemma_cell_at(n, v.cursor() + 1);
        if v.cursor() > 0 {
            lemma_cell_at(n, v.cursor() - 1);
        }
    }
}

fn empty_cells(count: usize) -> (cells: Vec<String>)
    ensures
        cells.len() == count,
        forall|i: int| 0 <= i < count ==> (#[trigger] cells[i])@ == Seq::<char>::empty(),
{
    let mut cells: Vec<String> = Vec::new();
    let mut i: usize = 0;
    while i < count
        invariant
            i <= count,
            cells.len() == i,
            forall|k: int| 0 <= k < i ==> (#[trigger] cells[k])@ == Seq::<char>::empty(),
        decreases count - i,
    {
        cells.push(String::new());
        i = i + 1;
    }
    cells
}

/// The place in the cell store of the cell in column `x` of row `y`.
fn place_of(order: i8, x: i8, y: i8) -> (i: usize)
    requires
        0 <= x <= order,
        0 <= y < order,
    ensures
        i == flat_index(order as int, x as int, y as int),
        i < cell_count(order as int),
{
    proof {
        lemma_flat_index(order as int, x as int, y as int);
        assert(0 <= y * (order + 1) <= 127 * 128) by (nonlinear_arith)
            requires
                0 <= y < order <= 127,
        ;
    }
    y as usize * (order as usize + 1) + x as usize
}

/// The number a cell stands for when the system is solved.
pub fn cell_value(text: &str) -> (r: Result<Rational, SolveError>)
    ensures
        match r {
            Ok(q) => q.wf() && cell_number(text@) == Ok::<real, SolveError>(q@),
            Err(e) => cell_number(text@) == Err::<real, SolveError>(e),
        },
{
    match parse_decimal(text) {
        Ok(q) => Ok(q),
        Err(DecimalError::Malformed) => Ok(Rational::from_int(1)),
        Err(DecimalError::OutOfRange) => Err(SolveError::Overflow),
    }
}

/// The letter of the unknown in the given row, where the scheme has one.
pub fn variable_name(row: u8) -> (c: Option<char>)
    ensures
        c == variable_letter(row as int),
{
    if row < 3 {
        Some((120 + row) as char)
    } else if row <= 120 {
        Some((122 - row) as char)
    } else {
        None
    }
}

impl App {
    /// The state is well formed. [`App::new`] makes such a state and every command
    /// keeps it, so every editor that this module hands out is well formed.
    pub open spec fn wf(self) -> bool {
        self@.wf()
    }

    /// An editor with the cursor on an empty size buffer.
    pub fn new() -> (app: App)
        ensures
            app.wf(),
            app@.size == Seq::<char>::empty(),
            app@.cells == seq![Seq::<char>::empty()],
            app@.editing == CurrentlyEditing::EquationSize,
    {
        let mut matrix: Vec<String> = Vec::new();
        matrix.push(String::new());
        let app = App {
            mat_size: String::new(),
            matrix,
            currently_editing: CurrentlyEditing::EquationSize,
        };
        assert(app@.cells =~= seq![Seq::<char>::empty()]);
        app
    }

    /// The text of the size buffer.
    pub fn mat_size(&self) -> (s: &str)
        ensures
            s@ == self@.size,
    {
        self.mat_size.as_str()
    }

    /// The number of cells in the cell store.
    pub fn cell_total(&self) -> (n: usize)
        ensures
            n == self@.cells.len(),
    {
        self.matrix.len()
    }

    /// The text of the cell at `index`.
    pub fn cell(&self, index: usize) -> (s: &str)
        requires
            index < self@.cells.len(),
        ensures
            s@ == self@.cells[index as int],
    {
        self.matrix[index].as_str()
    }

    /// What the cursor is on.
    pub fn currently_editing(&self) -> (e: CurrentlyEditing)
        ensures
            e == self@.editing,
    {
        self.currently_editing
    }

    /// The order that the size buffer declares.
    pub fn order(&self) -> (n: Option<i8>)
        ensures
            match n {
                Some(n) => order_of(self@.size) == Some(n as int),
                None => order_of(self@.size) is None,
            },
    {
        parse_order(self.mat_size.as_str())
    }

    /// The order under which the cells are edited.
    fn committed_order(&self) -> (n: i8)
        requires
            self.wf(),
            self@.editing is Equation,
        ensures
            n == self@.order(),
            1 <= n <= 127,
    {
        match parse_order(self.mat_size.as_str()) {
            Some(n) => n,
            None => 1,
        }
    }

    /// The place in the cell store of the cell under the cursor.
    pub fn cursor_index(&self) -> (i: Option<usize>)
        requires
            self.wf(),
        ensures
            match i {
                Some(i) => self@.editing is Equation && i == self@.cursor() && i
                    < self@.cells.len(),
                None => self@.editing is EquationSize,
            },
    {
        match self.currently_editing {
            CurrentlyEditing::EquationSize => None,
            CurrentlyEditing::Equation { x, y } => {
                let n: i8 = self.committed_order();
                Some(place_of(n, x, y))
            },
        }
    }

    /// Puts the cursor on the cell at `index`.
    fn place(&mut self, order: i8, index: usize)
        requires
            old(self).wf(),
            old(self)@.editing is Equation,
            order == old(self)@.order(),
            index <= cell_count(order as int),
        ensures
            final(self).wf(),
            final(self)@ == old(self)@.at(index as int),
    {
        let width: usize = order as usize + 1;
        let x: usize = index % width;
        let y: usize = (index / width) % (order as usize);
        proof {
            lemma_cell_at(order as int, index as int);
        }
        self.currently_editing = CurrentlyEditing::Equation { x: x as i8, y: y as i8 };
        assert(self@.cells =~= old(self)@.cells);
    }

    /// Goes to the next field, or to the one before.
    ///
    /// From the size buffer, going on commits the order and puts the cursor on the
    /// first cell; a buffer that declares no order is reported and keeps the cursor
    /// where it is. From a cell, the cursor goes to the next cell, row by row, and from
    /// the last cell to the first; going back from the first cell returns to the size
    /// buffer.
    pub fn toggle_editing(&mut self, forwards: bool) -> (res: Result<(), InvalidSize>)
        requires
            old(self).wf(),
        ensures
            final(self).wf(),
            final(self)@ == old(self)@.toggled(forwards),
            res is Err <==> forwards && old(self)@.editing is EquationSize && order_of(
                old(self)@.size,
            ) is None,
            res is Err ==> final(self)@ == old(self)@,
    {
        match self.currently_editing {
            CurrentlyEditing::EquationSize => {
                if forwards {
                    match parse_order(self.mat_size.as_str()) {
                        Some(n) => {
                            assert(cell_count(n as int) <= 127 * 128) by (nonlinear_arith)
                                requires
                                    1 <= n <= 127,
                            ;
                            let count: usize = n as usize * (n as usize + 1);
                            if self.matrix.len() != count {
                                self.matrix = empty_cells(count);
                            }
                            self.currently_editing = CurrentlyEditing::Equation { x: 0, y: 0 };
                            assert(self@.cells =~= old(self)@.committed().cells);
                        },
                        None => {
                            assert(self@.cells =~= old(self)@.cells);
                            return Err(InvalidSize);
                        },
                    }
                }
            },
            CurrentlyEditing::Equation { x, y } => {
                let n: i8 = self.committed_order();
                let index: usize = place_of(n, x, y);
                if forwards {
                    self.place(n, index + 1);
                } else if index == 0 {
                    self.currently_editing = CurrentlyEditing::EquationSize;
                    assert(self@.cells =~= old(self)@.cells);
                } else {
                    self.place(n, index - 1);
                }
            },
        }
        Ok(())
    }

    /// Moves the cursor one cell to the left; from the first column it goes to the end
    /// of the row above. On the first cell it stays.
    pub fn move_left(&mut self)
        requires
            old(self).wf(),
        ensures
            final(self).wf(),
            final(self)@ == old(self)@.left(),
    {
        match self.currently_editing {
            CurrentlyEditing::Equation { x, y } => {
                let n: i8 = self.committed_order();
                let index: usize = place_of(n, x, y);
                if index > 0 {
                    self.place(n, index - 1);
                }
            },
            CurrentlyEditing::EquationSize => {},
        }
    }

    /// Moves the cursor one cell to the right; from the last column it goes to the
    /// start of the row below. On the last cell it stays.
    pub fn move_right(&mut self)
        requires
            old(self).wf(),
        ensures
            final(self).wf(),
            final(self)@ == old(self)@.right(),
    {
        match self.currently_editing {
            CurrentlyEditing::Equation { x, y } => {
                let n: i8 = self.committed_order();
                let index: usize = place_of(n, x, y);
                if index + 1 < self.matrix.len() {
                    self.place(n, index + 1);
                }
            },
            CurrentlyEditing::EquationSize => {},
        }
    }

    /// Moves the cursor one row up. In the first row it stays.
    pub fn move_up(&mut self)
        requires
            old(self).wf(),
        ensures
            final(self).wf(),
            final(self)@ == old(self)@.up(),
    {
        match self.currently_editing {
            CurrentlyEditing::Equation { x, y } => {
                if y > 0 {
                    self.currently_editing = CurrentlyEditing::Equation { x, y: y - 1 };
                    assert(self@.cells =~= old(self)@.cells);
                }
            },
            CurrentlyEditing::EquationSize => {},
        }
    }

    /// Moves the cursor one row down. In the last row it stays.
    pub fn move_down(&mut self)
        requires
            old(self).wf(),
        ensures
            final(self).wf(),
            final(self)@ == old(self)@.down(),
    {
        match self.currently_editing {
            CurrentlyEditing::Equation { x, y } => {
                let n: i8 = self.committed_order();
                if y < n - 1 {
                    self.currently_editing = CurrentlyEditing::Equation { x, y: y + 1 };
                    assert(self@.cells =~= old(self)@.cells);
                }
            },
            CurrentlyEditing::EquationSize => {},
        }
    }

    /// Types a character into the buffer under the cursor. Returns whether the buffer
    /// took it: the size buffer takes digits, a cell takes digits, `.` and `-`.
    pub fn push_char(&mut self, c: char) -> (accepted: bool)
        requires
            old(self).wf(),
        ensures
            final(self).wf(),
            accepted == accepts(old(self)@.editing, c),
            final(self)@ == old(self)@.pushed(c),
    {
        let digit: bool = c >= '0' && c <= '9';
        match self.currently_editing {
            CurrentlyEditing::EquationSize => {
                if digit {
                    self.mat_size.push(c);
                    assert(self@.cells =~= old(self)@.cells);
                }
                digit
            },
            CurrentlyEditing::Equation { x, y } => {
                let accepted: bool = digit || c == '.' || c == '-';
                if accepted {
                    let n: i8 = self.committed_order();
                    let index: usize = place_of(n, x, y);
                    self.matrix[index].push(c);
                    assert(self@.cells =~= old(self)@.pushed(c).cells);
                }
                accepted
            },
        }
    }

    /// Deletes the last character of the buffer under the cursor, if it has one.
    pub fn pop_char(&mut self)
        requires
            old(self).wf(),
        ensures
            final(self).wf(),
            final(self)@ == old(self)@.popped(),
    {
        match self.currently_editing {
            CurrentlyEditing::EquationSize => {
                self.mat_size.pop();
                assert(self@.cells =~= old(self)@.cells);
            },
            CurrentlyEditing::Equation { x, y } => {
                let n: i8 = self.committed_order();
                let index: usize = place_of(n, x, y);
                self.matrix[index].pop();
                assert(self@.cells =~= old(self)@.popped().cells);
            },
        }
    }

    /// Carries out one command and says what the caller is to do next. A commit of a
    /// size buffer that declares no order changes nothing.
    pub fn handle_key(&mut self, key: Key) -> (outcome: Outcome)
        requires
            old(self).wf(),
        ensures
            final(self).wf(),
            (final(self)@, outcome) == old(self)@.handled(key),
            outcome == Outcome::Submit ==> final(self)@.editing is Equation,
    {
        match key {
            Key::Tab => {
                let _ = self.toggle_editing(true);
                Outcome::Continue
            },
            Key::BackTab => {
                let _ = self.toggle_editing(false);
                Outcome::Continue
            },
            Key::Backspace => {
                self.pop_char();
                Outcome::Continue
            },
            Key::Left => {
                self.move_left();
                Outcome::Continue
            },
            Key::Right => {
                self.move_right();
                Outcome::Continue
            },
            Key::Up => {
                self.move_up();
                Outcome::Continue
            },
            Key::Down => {
                self.move_down();
                Outcome::Continue
            },
            Key::Esc => Outcome::Quit,
            Key::Enter => {
                match self.currently_editing {
                    CurrentlyEditing::EquationSize => {
                        let _ = self.toggle_editing(true);
                        Outcome::Continue
                    },
                    CurrentlyEditing::Equation { x, y } => Outcome::Submit,
                }
            },
            Key::Char(c) => {
                if c == 'h' {
                    self.move_left();
                    Outcome::Continue
                } else if c == 'l' {
                    self.move_right();
                    Outcome::Continue
                } else if c == 'k' {
                    self.move_up();
                    Outcome::Continue
                } else if c == 'j' {
                    self.move_down();
                    Outcome::Continue
                } else if c == 'q' {
                    Outcome::Quit
                } else {
                    self.push_char(c);
                    Outcome::Continue
                }
            },
            Key::Other => Outcome::Continue,
        }
    }

    /// The augmented matrix that the cells stand for.
    pub fn system(&self) -> (r: Result<Matrix, SolveError>)
        requires
            self.wf(),
            self@.editing is Equation,
        ensures
            match r {
                Ok(m) => m.wf() && m.is_augmented() && m.height() == self@.order()
                    && self@.system() == Ok::<Seq<Seq<real>>, SolveError>(m@),
                Err(e) => self@.system() == Err::<Seq<Seq<real>>, SolveError>(e),
            },
    {
        let n: usize = self.committed_order() as usize;
        let ghost order: int = self@.order();
        let ghost cells: Seq<Seq<char>> = self@.cells;
        let mut values: Vec<Vec<Rational>> = Vec::new();
        let mut index: usize = 0;
        let mut r: usize = 0;
        while r < n
            invariant
                self.wf(),
                self@.editing is Equation,
                n == order,
                order == self@.order(),
                cells == self@.cells,
                1 <= n <= 127,
                r <= n,
                index == r * (n + 1),
                values.len() == r,
                forall|i: int| 0 <= i < index ==> cell_number(#[trigger] cells[i]) is Ok,
                forall|k: int|
                    0 <= k < r ==> (#[trigger] values[k]).len() == n + 1 && row_wf(values[k]@),
                forall|k: int, c: int|
                    0 <= k < r && 0 <= c <= n ==> (#[trigger] values[k][c])@ == cell_number(
                        cells[flat_index(order, c, k)],
                    )->Ok_0,
            decreases n - r,
        {
            let mut row: Vec<Rational> = Vec::new();
            let mut c: usize = 0;
            assert((r + 1) * (n + 1) == r * (n + 1) + n + 1 && (r + 1) * (n + 1) <= n * (n + 1)
                && n * (n + 1) <= 127 * 128) by (nonlinear_arith)
                requires
                    r < n <= 127,
            ;
            while c < n + 1
                invariant
                    self.wf(),
                    self@.editing is Equation,
                    n == order,
                    order == self@.order(),
                    cells == self@.cells,
                    1 <= n <= 127,
                    r < n,
                    c <= n + 1,
                    index == r * (n + 1) + c,
                    (r + 1) * (n + 1) == r * (n + 1) + n + 1,
                    (r + 1) * (n + 1) <= n * (n + 1),
                    n * (n + 1) <= 127 * 128,
                    row.len() == c,
                    row_wf(row@),
                    forall|i: int| 0 <= i < index ==> cell_number(#[trigger] cells[i]) is Ok,
                    forall|k: int|
                        0 <= k < c ==> (#[trigger] row[k])@ == cell_number(
                            cells[flat_index(order, k, r as int)],
                        )->Ok_0,
                decreases n + 1 - c,
            {
                assert(index == flat_index(order, c as int, r as int));
                match cell_value(self.matrix[index].as_str()) {
                    Ok(q) => {
                        row.push(q);
                    },
                    Err(e) => {
                        assert(cell_number(cells[index as int]) is Err);
                        return Err(e);
                    },
                }
                c = c + 1;
                index = index + 1;
            }
            values.push(row);
            r = r + 1;
        }
        let m: Matrix = Matrix::with_values(values);
        proof {
            let grid = self@.system()->Ok_0;
            assert(m@ =~= grid) by {
                assert forall|k: int| 0 <= k < n implies #[trigger] m@[k] =~= grid[k] by {
                    assert(m.entries()[k] == values[k]@);
                    assert forall|c: int| 0 <= c <= n implies m@[k][c] == grid[k][c] by {
                        assert(m@[k][c] == values[k][c]@);
                    }
                }
            }
        }
        Ok(m)
    }

    /// Solves the system that the cells stand for and returns the value of each
    /// unknown, first row first.
    pub fn solve(&self) -> (r: Result<Vec<Rational>, SolveError>)
        requires
            self.wf(),
            self@.editing is Equation,
        ensures
            match r {
                Ok(v) => row_wf(v@) && v.len() == self@.order() && self@.solved() == Ok::<
                    Seq<real>,
                    SolveError,
                >(row_view(v@)),
                Err(e) => self@.solved() == Err::<Seq<real>, SolveError>(e),
            },
    {
        match self.system() {
            Err(e) => Err(e),
            Ok(m) => {
                let mut m: Matrix = m;
                match m.solve_equation() {
                    Err(e) => Err(e),
                    Ok(()) => Ok(m.solution()),
                }
            },
        }
    }
}

} // verus!
