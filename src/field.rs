//! Field views: one term's component data for the current table batch.
use vstd::prelude::*;

verus! {

/// Position in the backing column of the element that row `row` reads: the shared element for
/// every row of a shared field, the row's own element otherwise.
pub open spec fn element_index(offset: nat, is_shared: bool, row: nat) -> nat {
    if is_shared {
        offset
    } else {
        offset + row
    }
}

/// A view of one field for the current batch: an owned field holds one element per row, a
/// shared field one element that every row reads.
pub struct Field<'a, V> {
    column: &'a Vec<V>,
    offset: usize,
    count: usize,
    is_shared: bool,
}

impl<'a, V> Field<'a, V> {
    /// The column the view reads from.
    pub closed spec fn column_spec(&self) -> Seq<V> {
        self.column@
    }

    /// Where the view starts in its column.
    pub closed spec fn offset_spec(&self) -> nat {
        self.offset as nat
    }

    /// Number of rows the view presents.
    pub closed spec fn count_spec(&self) -> nat {
        self.count as nat
    }

    /// Whether one element is broadcast to every row.
    pub closed spec fn is_shared_spec(&self) -> bool {
        self.is_shared
    }

    /// The elements the view covers lie inside the column.
    pub open spec fn wf(&self) -> bool {
        if self.is_shared_spec() {
            self.offset_spec() < self.column_spec().len()
        } else {
            self.offset_spec() + self.count_spec() <= self.column_spec().len()
        }
    }

    /// Whether `row` may be read.
    pub open spec fn row_ok(&self, row: nat) -> bool {
        self.is_shared_spec() || row < self.count_spec()
    }

    /// The element that row `row` reads.
    pub open spec fn at(&self, row: nat) -> V {
        self.column_spec()[element_index(self.offset_spec(), self.is_shared_spec(), row) as int]
    }

    /// A view over `column` starting at `offset`: `count` rows, or one shared element.
    pub fn new(column: &'a Vec<V>, offset: usize, count: usize, is_shared: bool) -> (r: Field<'a, V>)
        requires
            is_shared ==> offset < column@.len(),
            !is_shared ==> offset + count <= column@.len(),
        ensures
            r.wf(),
            r.column_spec() == column@,
            r.offset_spec() == offset,
            r.count_spec() == count,
            r.is_shared_spec() == is_shared,
    {
        Field { column, offset, count, is_shared }
    }

    /// Number of rows of the batch (for a shared field too).
    pub fn len(&self) -> (r: usize)
        ensures
            r == self.count_spec(),
    {
        self.count
    }

    /// Whether the view presents no row.
    pub fn is_empty(&self) -> (r: bool)
        ensures
            r == (self.count_spec() == 0),
    {
        self.count == 0
    }

    /// Whether one element is broadcast to every row.
    pub fn is_shared(&self) -> (r: bool)
        ensures
            r == self.is_shared_spec(),
    {
        self.is_shared
    }

    /// The element of row `row`; a shared field ignores `row` and returns its one element.
    pub fn get(&self, row: usize) -> (r: &'a V)
        requires
            self.wf(),
            self.row_ok(row as nat),
        ensures
            *r == self.at(row as nat),
    {
        if self.is_shared {
            &self.column[self.offset]
        } else {
            let n = self.column.len();
            assert(self.offset + row < n);
            &self.column[self.offset + row]
        }
    }
}

} // verus!
