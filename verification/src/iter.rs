//! Read-only cursors for traversing a field: a single row, a single column,
//! all rows, or all columns. Each cursor is a thin bounds-checked view; it can
//! be stepped with `next`, restarted by creating it again, and indexed at any
//! position regardless of the cursor state.

use vstd::prelude::*;

use crate::field::Field;
use crate::tile::Tile;

verus! {

/// A cursor over a single row of a field, stepping column by column.
pub struct RowIter<'f, Ct, Cf> {
    /// The field being read.
    pub field: &'f Field<Ct, Cf>,
    /// The fixed row.
    pub row: usize,
    /// The next column `next` will yield.
    pub cursor: usize,
}

impl<'f, Ct, Cf> RowIter<'f, Ct, Cf> {
    /// The cursor's validity: the row exists and the cursor never runs past
    /// the row's end.
    pub open spec fn wf(&self) -> bool {
        &&& self.field.wf()
        &&& self.row < self.field.dimensions.1
        &&& self.cursor <= self.field.dimensions.0
    }

    /// Creates a cursor over the given row, starting at the first column; the
    /// row must exist.
    pub fn new(field: &'f Field<Ct, Cf>, row: usize) -> (r: Self)
        requires
            field.wf(),
            row < field.dimensions.1,
        ensures
            r.wf(),
            r.field == field,
            r.row == row,
            r.cursor == 0,
    {
        RowIter { field, row, cursor: 0 }
    }

    /// Returns the tile at the given column of this cursor's row, or `None` if
    /// no such column exists; the cursor state plays no part.
    pub fn get(&self, column: usize) -> (r: Option<&Tile<Ct, Cf>>)
        requires
            self.wf(),
        ensures
            match r {
                Some(t) => self.field.spec_in_range((column, self.row)) && *t
                    == self.field.storage@[self.field.spec_index_of((column, self.row))],
                None => !self.field.spec_in_range((column, self.row)),
            },
    {
        self.field.get((column, self.row))
    }

    /// Returns the tile at the given column, which must exist; the convenience
    /// form of `get` for chained lookups.
    pub fn column(&self, column: usize) -> (r: &Tile<Ct, Cf>)
        requires
            self.wf(),
            column < self.field.dimensions.0,
        ensures
            *r == self.field.storage@[self.field.spec_index_of((column, self.row))],
    {
        match self.get(column) {
            Some(t) => t,
            None => vstd::pervasive::unreached(),
        }
    }

    /// Returns the field which the cursor reads.
    pub fn field(&self) -> (r: &'f Field<Ct, Cf>)
        ensures
            r == self.field,
    {
        self.field
    }

    /// The number of tiles the cursor has not yielded yet.
    pub fn len(&self) -> (r: usize)
        requires
            self.wf(),
        ensures
            r == self.field.dimensions.0 - self.cursor,
    {
        self.field.dimensions.0 - self.cursor
    }

    /// Yields the tile under the cursor and advances, or returns `None` once
    /// the row is exhausted.
    pub fn next(&mut self) -> (r: Option<&'f Tile<Ct, Cf>>)
        requires
            old(self).wf(),
        ensures
            final(self).wf(),
            final(self).field == old(self).field,
            final(self).row == old(self).row,
            match r {
                Some(t) => old(self).cursor < old(self).field.dimensions.0 && final(self).cursor
                    == old(self).cursor + 1 && *t == old(self).field.storage@[old(
                    self,
                ).field.spec_index_of((old(self).cursor, old(self).row))],
                None => old(self).cursor == old(self).field.dimensions.0 && final(self).cursor
                    == old(self).cursor,
            },
    {
        if self.cursor < self.field.dimensions.0 {
            let el = self.field.get((self.cursor, self.row));
            self.cursor += 1;
            el
        } else {
            None
        }
    }
}

/// A cursor over a single column of a field, stepping row by row.
pub struct ColumnIter<'f, Ct, Cf> {
    /// The field being read.
    pub field: &'f Field<Ct, Cf>,
    /// The fixed column.
    pub column: usize,
    /// The next row `next` will yield.
    pub cursor: usize,
}

impl<'f, Ct, Cf> ColumnIter<'f, Ct, Cf> {
    /// The cursor's validity: the column exists and the cursor never runs past
    /// the column's end.
    pub open spec fn wf(&self) -> bool {
        &&& self.field.wf()
        &&& self.column < self.field.dimensions.0
        &&& self.cursor <= self.field.dimensions.1
    }

    /// Creates a cursor over the given column, starting at the first row; the
    /// column must exist.
    pub fn new(field: &'f Field<Ct, Cf>, column: usize) -> (r: Self)
        requires
            field.wf(),
            column < field.dimensions.0,
        ensures
            r.wf(),
            r.field == field,
            r.column == column,
            r.cursor == 0,
    {
        ColumnIter { field, column, cursor: 0 }
    }

    /// Returns the tile at the given row of this cursor's column, or `None` if
    /// no such row exists; the cursor state plays no part.
    pub fn get(&self, row: usize) -> (r: Option<&Tile<Ct, Cf>>)
        requires
            self.wf(),
        ensures
            match r {
                Some(t) => self.field.spec_in_range((self.column, row)) && *t
                    == self.field.storage@[self.field.spec_index_of((self.column, row))],
                None => !self.field.spec_in_range((self.column, row)),
            },
    {
        self.field.get((self.column, row))
    }

    /// Returns the tile at the given row, which must exist; the convenience
    /// form of `get` for chained lookups.
    pub fn row(&self, row: usize) -> (r: &Tile<Ct, Cf>)
        requires
            self.wf(),
            row < self.field.dimensions.1,
        ensures
            *r == self.field.storage@[self.field.spec_index_of((self.column, row))],
    {
        match self.get(row) {
            Some(t) => t,
            None => vstd::pervasive::unreached(),
        }
    }

    /// Returns the field which the cursor reads.
    pub fn field(&self) -> (r: &'f Field<Ct, Cf>)
        ensures
            r == self.field,
    {
        self.field
    }

    /// The number of tiles the cursor has not yielded yet.
    pub fn len(&self) -> (r: usize)
        requires
            self.wf(),
        ensures
            r == self.field.dimensions.1 - self.cursor,
    {
        self.field.dimensions.1 - self.cursor
    }

    /// Yields the tile under the cursor and advances, or returns `None` once
    /// the column is exhausted.
    pub fn next(&mut self) -> (r: Option<&'f Tile<Ct, Cf>>)
        requires
            old(self).wf(),
        ensures
            final(self).wf(),
            final(self).field == old(self).field,
            final(self).column == old(self).column,
            match r {
                Some(t) => old(self).cursor < old(self).field.dimensions.1 && final(self).cursor
                    == old(self).cursor + 1 && *t == old(self).field.storage@[old(
                    self,
                ).field.spec_index_of((old(self).column, old(self).cursor))],
                None => old(self).cursor == old(self).field.dimensions.1 && final(self).cursor
                    == old(self).cursor,
            },
    {
        if self.cursor < self.field.dimensions.1 {
            let el = self.field.get((self.column, self.cursor));
            self.cursor += 1;
            el
        } else {
            None
        }
    }
}

/// A cursor over the rows of a field, yielding a `RowIter` per row.
pub struct FieldRowsIter<'f, Ct, Cf> {
    /// The field being read.
    pub field: &'f Field<Ct, Cf>,
    /// The next row `next` will yield.
    pub cursor: usize,
}

impl<'f, Ct, Cf> FieldRowsIter<'f, Ct, Cf> {
    /// The cursor's validity: it never runs past the last row.
    pub open spec fn wf(&self) -> bool {
        self.field.wf() && self.cursor <= self.field.dimensions.1
    }

    /// Returns a cursor over the field's rows, starting at the first.
    pub fn new(field: &'f Field<Ct, Cf>) -> (r: Self)
        requires
            field.wf(),
        ensures
            r.wf(),
            r.field == field,
            r.cursor == 0,
    {
        FieldRowsIter { field, cursor: 0 }
    }

    /// Yields a cursor over the next row, or `None` once every row was
    /// yielded.
    pub fn next(&mut self) -> (r: Option<RowIter<'f, Ct, Cf>>)
        requires
            old(self).wf(),
        ensures
            final(self).wf(),
            final(self).field == old(self).field,
            match r {
                Some(it) => old(self).cursor < old(self).field.dimensions.1 && final(self).cursor
                    == old(self).cursor + 1 && it.wf() && it.field == old(self).field && it.row
                    == old(self).cursor && it.cursor == 0,
                None => old(self).cursor == old(self).field.dimensions.1 && final(self).cursor
                    == old(self).cursor,
            },
    {
        if self.cursor < self.field.dimensions.1 {
            let it = RowIter::new(self.field, self.cursor);
            self.cursor += 1;
            Some(it)
        } else {
            None
        }
    }
}

/// A cursor over the columns of a field, yielding a `ColumnIter` per column.
pub struct FieldColumnsIter<'f, Ct, Cf> {
    /// The field being read.
    pub field: &'f Field<Ct, Cf>,
    /// The next column `next` will yield.
    pub cursor: usize,
}

impl<'f, Ct, Cf> FieldColumnsIter<'f, Ct, Cf> {
    /// The cursor's validity: it never runs past the last column.
    pub open spec fn wf(&self) -> bool {
        self.field.wf() && self.cursor <= self.field.dimensions.0
    }

    /// Returns a cursor over the field's columns, starting at the first.
    pub fn new(field: &'f Field<Ct, Cf>) -> (r: Self)
        requires
            field.wf(),
        ensures
            r.wf(),
            r.field == field,
            r.cursor == 0,
    {
        FieldColumnsIter { field, cursor: 0 }
    }

    /// Yields a cursor over the next column, or `None` once every column was
    /// yielded.
    pub fn next(&mut self) -> (r: Option<ColumnIter<'f, Ct, Cf>>)
        requires
            old(self).wf(),
        ensures
            final(self).wf(),
            final(self).field == old(self).field,
            match r {
                Some(it) => old(self).cursor < old(self).field.dimensions.0 && final(self).cursor
                    == old(self).cursor + 1 && it.wf() && it.field == old(self).field && it.column
                    == old(self).cursor && it.cursor == 0,
                None => old(self).cursor == old(self).field.dimensions.0 && final(self).cursor
                    == old(self).cursor,
            },
    {
        if self.cursor < self.field.dimensions.0 {
            let it = ColumnIter::new(self.field, self.cursor);
            self.cursor += 1;
            Some(it)
        } else {
            None
        }
    }
}

impl<Ct, Cf> Field<Ct, Cf> {
    /// Returns a cursor over a single row, which can also be indexed, serving
    /// as a versatile reference to that row; the row must exist.
    pub fn row(&self, row: usize) -> (r: RowIter<'_, Ct, Cf>)
        requires
            self.wf(),
            row < self.dimensions.1,
        ensures
            r.wf(),
            r.field == self,
            r.row == row,
            r.cursor == 0,
    {
        RowIter::new(self, row)
    }

    /// Returns a cursor over a single column, which can also be indexed,
    /// serving as a versatile reference to that column; the column must exist.
    pub fn column(&self, column: usize) -> (r: ColumnIter<'_, Ct, Cf>)
        requires
            self.wf(),
            column < self.dimensions.0,
        ensures
            r.wf(),
            r.field == self,
            r.column == column,
            r.cursor == 0,
    {
        ColumnIter::new(self, column)
    }

    /// Returns a cursor over the field's rows.
    pub fn rows(&self) -> (r: FieldRowsIter<'_, Ct, Cf>)
        requires
            self.wf(),
        ensures
            r.wf(),
            r.field == self,
            r.cursor == 0,
    {
        FieldRowsIter::new(self)
    }

    /// Returns a cursor over the field's columns.
    pub fn columns(&self) -> (r: FieldColumnsIter<'_, Ct, Cf>)
        requires
            self.wf(),
        ensures
            r.wf(),
            r.field == self,
            r.cursor == 0,
    {
        FieldColumnsIter::new(self)
    }
}

} // verus!
