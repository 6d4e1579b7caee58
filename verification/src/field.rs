//! A fixed-size grid of cells, with a default filling that tells the cells
//! on the border from those inside.

use vstd::prelude::*;

verus! {

/// Number of rows of a field.
pub const FIELD_ROW_SIZE: usize = 41;

/// Number of columns of a field.
pub const FIELD_COLUMN_SIZE: usize = 63;

/// Number of cells of a field.
pub const FIELD_CHIPS: usize = FIELD_ROW_SIZE * FIELD_COLUMN_SIZE;

/// A cell type names two default values: one for the cells on the outer ring
/// of a field, one for the cells inside it.
pub trait FieldPointDefault: Sized {
    /// The value that a cell on the outer ring starts with.
    spec fn edge() -> Self;

    /// The value that a cell inside the outer ring starts with.
    spec fn inter() -> Self;

    /// Returns `edge()`.
    fn default_edge() -> (r: Self)
        ensures
            r == Self::edge(),
    ;

    /// Returns `inter()`.
    fn default_inter() -> (r: Self)
        ensures
            r == Self::inter(),
    ;
}

/// A byte cell starts as `0` everywhere: nothing on the cell.
impl FieldPointDefault for u8 {
    open spec fn edge() -> u8 {
        0
    }

    open spec fn inter() -> u8 {
        0
    }

    fn default_edge() -> (r: u8)
        ensures
            r == 0,
    {
        0
    }

    fn default_inter() -> (r: u8)
        ensures
            r == 0,
    {
        0
    }
}

/// A counter cell starts as `0` everywhere.
impl FieldPointDefault for usize {
    open spec fn edge() -> usize {
        0
    }

    open spec fn inter() -> usize {
        0
    }

    fn default_edge() -> (r: usize)
        ensures
            r == 0,
    {
        0
    }

    fn default_inter() -> (r: usize)
        ensures
            r == 0,
    {
        0
    }
}

/// Whether `(row, column)` names a cell of a field.
pub open spec fn in_field(row: int, column: int) -> bool {
    0 <= row < FIELD_ROW_SIZE && 0 <= column < FIELD_COLUMN_SIZE
}

/// Whether `(row, column)` lies on the outer ring: the first or last row, or
/// the first or last column.
pub open spec fn is_edge(row: int, column: int) -> bool {
    row == 0 || row == FIELD_ROW_SIZE - 1 || column == 0 || column == FIELD_COLUMN_SIZE - 1
}

/// The value that the cell at `(row, column)` has in a default field.
pub open spec fn default_cell<T: FieldPointDefault>(row: int, column: int) -> T {
    if is_edge(row, column) {
        T::edge()
    } else {
        T::inter()
    }
}

/// The row of the cell that stands at `index` in row-major order.
pub open spec fn row_of(index: int) -> int {
    index / (FIELD_COLUMN_SIZE as int)
}

/// The column of the cell that stands at `index` in row-major order.
pub open spec fn column_of(index: int) -> int {
    index % (FIELD_COLUMN_SIZE as int)
}

/// A grid of `FIELD_ROW_SIZE` rows by `FIELD_COLUMN_SIZE` columns, each cell
/// holding one value of type `T`.
#[derive(Copy, Clone, Eq, PartialEq, Debug)]
pub struct Field<T>([[T; FIELD_COLUMN_SIZE]; FIELD_ROW_SIZE]);

impl<T> Field<T> {
    /// The value of the cell at `(row, column)`.
    pub closed spec fn cell(&self, row: int, column: int) -> T {
        self.0[row][column]
    }

    /// The cells in row-major order: the canonical order of a field.
    pub open spec fn flat(&self) -> Seq<T> {
        Seq::new(FIELD_CHIPS as nat, |i: int| self.cell(row_of(i), column_of(i)))
    }

    /// Two fields that agree on every cell are the same field.
    pub proof fn lemma_ext_equal(a: Field<T>, b: Field<T>)
        requires
            forall|row: int, column: int|
                in_field(row, column) ==> #[trigger] a.cell(row, column) == b.cell(row, column),
        ensures
            a == b,
    {
        assert forall|row: int| 0 <= row < FIELD_ROW_SIZE implies a.0[row] == b.0[row] by {
            assert forall|column: int| 0 <= column < FIELD_COLUMN_SIZE implies a.0[row][column]
                == b.0[row][column] by {
                assert(a.cell(row, column) == b.cell(row, column));
            }
            assert(a.0[row] =~= b.0[row]);
        }
        assert(a.0 =~= b.0);
    }

    /// Puts `entity` into the cell at row `x`, column `y`, and leaves every
    /// other cell as it was.
    pub fn set(&mut self, x: usize, y: usize, entity: T)
        requires
            x < FIELD_ROW_SIZE,
            y < FIELD_COLUMN_SIZE,
        ensures
            final(self).cell(x as int, y as int) == entity,
            forall|row: int, column: int|
                in_field(row, column) && !(row == x && column == y) ==> final(self).cell(
                    row,
                    column,
                ) == old(self).cell(row, column),
    {
        self.0[x][y] = entity;
    }

    /// The cell at row `x`, column `y`.
    pub fn get(&self, x: usize, y: usize) -> (r: &T)
        requires
            x < FIELD_ROW_SIZE,
            y < FIELD_COLUMN_SIZE,
        ensures
            *r == self.cell(x as int, y as int),
    {
        &self.0[x][y]
    }

    /// A cursor that reads the cells in row-major order, starting at the first.
    pub fn iter(&self) -> (it: FieldIter<'_, T>)
        ensures
            it.i == 0,
            *it.field == *self,
    {
        FieldIter { i: 0, field: self }
    }

    /// A cursor that hands out the cells for writing in row-major order,
    /// starting at the first. What is written through it is written to this
    /// field.
    pub fn iter_mut(&mut self) -> (it: FieldIterMut<'_, T>)
        ensures
            it.i == 0,
            *it.field == *old(self),
            *final(it.field) == *final(self),
    {
        FieldIterMut { i: 0, field: self }
    }
}

impl<T: Copy> Field<T> {
    /// The field whose every cell holds `value`.
    pub fn filled(value: T) -> (f: Field<T>)
        ensures
            forall|row: int, column: int| in_field(row, column) ==> f.cell(row, column) == value,
    {
        Field([[value; FIELD_COLUMN_SIZE]; FIELD_ROW_SIZE])
    }
}

impl<T: FieldPointDefault> Field<T> {
    /// Whether every cell holds the default value of its place: the edge
    /// default on the outer ring, the interior default elsewhere.
    pub open spec fn is_default(&self) -> bool {
        forall|row: int, column: int|
            in_field(row, column) ==> self.cell(row, column) == default_cell::<T>(row, column)
    }

    /// Puts every cell back to the default value of its place.
    pub fn init(&mut self)
        ensures
            final(self).is_default(),
    {
        let ghost end = *final(self);
        let mut it = self.iter_mut();
        loop
            invariant
                it.i <= FIELD_CHIPS,
                *final(it.field) == end,
                forall|row: int, column: int|
                    in_field(row, column) && row * FIELD_COLUMN_SIZE + column < it.i
                        ==> #[trigger] it.field.cell(row, column) == default_cell::<T>(
                        row,
                        column,
                    ),
            ensures
                it.i >= FIELD_CHIPS,
            decreases FIELD_CHIPS - it.i,
        {
            let i = it.i;
            match it.next() {
                Some(x) => {
                    let row = i / FIELD_COLUMN_SIZE;
                    let column = i % FIELD_COLUMN_SIZE;
                    if row == 0 || row == FIELD_ROW_SIZE - 1 || column == 0 || column
                        == FIELD_COLUMN_SIZE - 1 {
                        *x = T::default_edge();
                    } else {
                        *x = T::default_inter();
                    }
                },
                None => {
                    break ;
                },
            }
        }
        assert(has_resolved(it.field));
    }
}

impl<T: FieldPointDefault + Copy> Default for Field<T> {
    /// The field in which every cell on the outer ring holds the edge default
    /// of `T` and every other cell its interior default.
    fn default() -> (f: Field<T>)
        ensures
            f.is_default(),
    {
        let mut points = [[T::default_inter(); FIELD_COLUMN_SIZE]; FIELD_ROW_SIZE];
        for i in 0..FIELD_COLUMN_SIZE
            invariant
                forall|row: int, column: int|
                    in_field(row, column) ==> #[trigger] points[row][column] == (if (row == 0 || row
                        == FIELD_ROW_SIZE - 1) && column < i {
                        T::edge()
                    } else {
                        T::inter()
                    }),
        {
            points[0][i] = T::default_edge();
            points[FIELD_ROW_SIZE - 1][i] = T::default_edge();
        }
        for i in 0..FIELD_ROW_SIZE
            invariant
                forall|row: int, column: int|
                    in_field(row, column) ==> #[trigger] points[row][column] == (if row == 0 || row
                        == FIELD_ROW_SIZE - 1 || ((column == 0 || column == FIELD_COLUMN_SIZE - 1)
                        && row < i) {
                        T::edge()
                    } else {
                        T::inter()
                    }),
        {
            points[i][0] = T::default_edge();
            points[i][FIELD_COLUMN_SIZE - 1] = T::default_edge();
        }
        Field(points)
    }
}

/// A cursor over the cells of a field, in row-major order. `i` is the number
/// of cells read so far.
pub struct FieldIter<'a, T> {
    pub i: usize,
    pub field: &'a Field<T>,
}

impl<'a, T> FieldIter<'a, T> {
    /// The next cell in row-major order, or `None` once all cells were read.
    pub fn next(&mut self) -> (r: Option<&'a T>)
        ensures
            final(self).field == old(self).field,
            old(self).i < FIELD_CHIPS ==> r == Some(&old(self).field.flat()[old(self).i as int])
                && final(self).i == old(self).i + 1,
            old(self).i >= FIELD_CHIPS ==> r.is_none() && final(self).i == old(self).i,
    {
        let i = self.i;
        if i >= FIELD_CHIPS {
            None
        } else {
            let next = &self.field.0[i / FIELD_COLUMN_SIZE][i % FIELD_COLUMN_SIZE];
            self.i += 1;
            Some(next)
        }
    }
}

/// A cursor that hands out the cells of a field for writing, in row-major
/// order. `i` is the number of cells handed out so far.
pub struct FieldIterMut<'a, T> {
    pub i: usize,
    pub field: &'a mut Field<T>,
}

impl<'a, T> FieldIterMut<'a, T> {
    /// The next cell in row-major order, for writing, or `None` once all
    /// cells were handed out. What is written to the cell is written to the
    /// field; no other cell changes.
    pub fn next(&mut self) -> (r: Option<&mut T>)
        ensures
            *final(final(self).field) == *final(old(self).field),
            old(self).i >= FIELD_CHIPS ==> r.is_none() && final(self).i == old(self).i
                && *final(self).field == *old(self).field,
            old(self).i < FIELD_CHIPS ==> r.is_some() && final(self).i == old(self).i + 1
                && *r.unwrap() == old(self).field.flat()[old(self).i as int]
                && final(self).field.cell(row_of(old(self).i as int), column_of(old(self).i as int))
                == *final(r.unwrap()) && (forall|row: int, column: int|
                in_field(row, column) && !(row == row_of(old(self).i as int) && column == column_of(
                    old(self).i as int,
                )) ==> final(self).field.cell(row, column) == old(self).field.cell(row, column)),
    {
        let i = self.i;
        if i >= FIELD_CHIPS {
            None
        } else {
            self.i += 1;
            Some(&mut self.field.0[i / FIELD_COLUMN_SIZE][i % FIELD_COLUMN_SIZE])
        }
    }
}

} // verus!
