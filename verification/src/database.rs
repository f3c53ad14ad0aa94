//! The row store: rows, tables and the database that the engine reads.

use crate::grammar::Scalar;
use crate::parser::Const;
use crate::text_map::TextMap;
use vstd::prelude::*;

verus! {

/// What a column of a stored row holds: a scalar, or a value that is
/// none. A table that holds such a value can be stored, but no query can
/// read it.
#[derive(Debug)]
pub enum Cell {
    Scalar(Const),
    Other,
}

/// What a cell holds.
pub enum CellModel {
    Scalar(Scalar),
    Other,
}

impl View for Cell {
    type V = CellModel;

    open spec fn view(&self) -> CellModel {
        match self {
            Cell::Scalar(c) => CellModel::Scalar(c@),
            Cell::Other => CellModel::Other,
        }
    }
}

/// What a row holds: its id and what each of its columns holds.
pub struct RowModel {
    pub id: u128,
    pub columns: Map<Seq<char>, CellModel>,
}

/// Represents a row in a database table.
#[derive(Debug)]
pub struct Row {
    pub id: u128,
    pub columns: TextMap<Cell>,
}

impl View for Row {
    type V = RowModel;

    open spec fn view(&self) -> RowModel {
        RowModel { id: self.id, columns: self.columns@ }
    }
}

/// The ids of the rows rise strictly: a table holds one row for an id,
/// and is walked in the order of the ids.
pub open spec fn ordered_by_id(rows: Seq<RowModel>) -> bool {
    forall|i: int, j: int| 0 <= i < j < rows.len() ==> (#[trigger] rows[i]).id < (#[trigger] rows[j]).id
}

/// The rows of a table after `row` was added: it stands among them by its
/// id; where the table has a row of that id, the table stays as it is.
pub open spec fn with_row(rows: Seq<RowModel>, row: RowModel) -> Seq<RowModel>
    decreases rows.len(),
{
    if rows.len() == 0 {
        seq![row]
    } else if rows.last().id < row.id {
        rows.push(row)
    } else if rows.last().id == row.id {
        rows
    } else {
        with_row(rows.drop_last(), row).push(rows.last())
    }
}

/// A row whose id falls between the rows before `k` and those from `k` on
/// is added at `k`.
pub proof fn lemma_with_row_absent(rows: Seq<RowModel>, row: RowModel, k: int)
    requires
        0 <= k <= rows.len(),
        forall|i: int| 0 <= i < k ==> (#[trigger] rows[i]).id < row.id,
        forall|i: int| k <= i < rows.len() ==> (#[trigger] rows[i]).id > row.id,
    ensures
        with_row(rows, row) == rows.insert(k, row),
    decreases rows.len(),
{
    if rows.len() == 0 {
        assert(seq![row] =~= rows.insert(k, row));
    } else if k == rows.len() {
        assert(rows[rows.len() - 1].id < row.id);
        assert(rows.push(row) =~= rows.insert(k, row));
    } else {
        assert(rows[rows.len() - 1].id > row.id);
        lemma_with_row_absent(rows.drop_last(), row, k);
        assert(rows.drop_last().insert(k, row).push(rows.last()) =~= rows.insert(k, row));
    }
}

/// A row whose id the table holds leaves the table as it is.
pub proof fn lemma_with_row_present(rows: Seq<RowModel>, row: RowModel, k: int)
    requires
        0 <= k < rows.len(),
        rows[k].id == row.id,
        forall|i: int| k < i < rows.len() ==> (#[trigger] rows[i]).id > row.id,
    ensures
        with_row(rows, row) == rows,
    decreases rows.len(),
{
    if k < rows.len() - 1 {
        assert(rows[rows.len() - 1].id > row.id);
        lemma_with_row_present(rows.drop_last(), row, k);
        assert(rows.drop_last().push(rows.last()) =~= rows);
    }
}

/// Adding a row keeps the ids rising.
pub proof fn lemma_with_row_ordered(rows: Seq<RowModel>, row: RowModel)
    requires
        ordered_by_id(rows),
    ensures
        ordered_by_id(with_row(rows, row)),
        forall|i: int|
            0 <= i < with_row(rows, row).len() ==> (#[trigger] with_row(rows, row)[i]).id == row.id
                || exists|j: int| 0 <= j < rows.len() && rows[j] == with_row(rows, row)[i],
    decreases rows.len(),
{
    let after = with_row(rows, row);
    if rows.len() == 0 {
    } else if rows.last().id < row.id {
        assert forall|i: int, j: int| 0 <= i < j < after.len() implies after[i].id
            < after[j].id by {
            if j == rows.len() {
                if i < rows.len() - 1 {
                    assert(rows[i].id < rows[rows.len() - 1].id);
                }
            } else {
                assert(rows[i].id < rows[j].id);
            }
        }
        assert forall|i: int| 0 <= i < after.len() implies (#[trigger] after[i]).id == row.id
            || exists|j: int| 0 <= j < rows.len() && rows[j] == after[i] by {
            if i < rows.len() {
                assert(rows[i] == after[i]);
            }
        }
    } else if rows.last().id == row.id {
        assert forall|i: int| 0 <= i < after.len() implies (#[trigger] after[i]).id == row.id
            || exists|j: int| 0 <= j < rows.len() && rows[j] == after[i] by {
            assert(rows[i] == after[i]);
        }
    } else {
        let front = rows.drop_last();
        let inner = with_row(front, row);
        assert(ordered_by_id(front)) by {
            assert forall|i: int, j: int| 0 <= i < j < front.len() implies front[i].id
                < front[j].id by {
                assert(rows[i].id < rows[j].id);
            }
        }
        lemma_with_row_ordered(front, row);
        assert forall|i: int| 0 <= i < after.len() implies (#[trigger] after[i]).id == row.id
            || exists|j: int| 0 <= j < rows.len() && rows[j] == after[i] by {
            if i < inner.len() {
                assert(after[i] == inner[i]);
                if inner[i].id != row.id {
                    let j = choose|j: int| 0 <= j < front.len() && front[j] == inner[i];
                    assert(rows[j] == after[i]);
                }
            } else {
                assert(rows[rows.len() - 1] == after[i]);
            }
        }
        assert forall|i: int, j: int| 0 <= i < j < after.len() implies after[i].id
            < after[j].id by {
            if j < inner.len() {
                assert(inner[i].id < inner[j].id);
            } else {
                assert(after[i] == inner[i]);
                if inner[i].id != row.id {
                    let m = choose|m: int| 0 <= m < front.len() && front[m] == inner[i];
                    assert(rows[m].id < rows[rows.len() - 1].id);
                }
            }
        }
    }
}

/// Represents a database table, which contains a set of rows in the
/// order of their ids.
#[derive(Debug)]
pub struct Table {
    rows: Vec<Row>,
}

impl View for Table {
    type V = Seq<RowModel>;

    closed spec fn view(&self) -> Seq<RowModel> {
        self.rows@.map_values(|r: Row| r@)
    }
}

impl Table {
    #[verifier::type_invariant]
    spec fn ids_rise(self) -> bool {
        forall|i: int, j: int|
            0 <= i < j < self.rows.len() ==> (#[trigger] self.rows[i]).id < (
            #[trigger] self.rows[j]).id
    }

    /// Creates a new, empty table.
    pub fn new() -> (table: Self)
        ensures
            table@ == Seq::<RowModel>::empty(),
    {
        let table = Table { rows: Vec::new() };
        assert(table@ =~= Seq::<RowModel>::empty());
        table
    }

    /// Adds a row to the table. A table that has a row of this id stays
    /// as it is.
    pub fn add_row(&mut self, id: u128, columns: TextMap<Cell>)
        ensures
            final(self)@ == with_row(old(self)@, RowModel { id, columns: columns@ }),
    {
        proof {
            use_type_invariant(&*self);
        }
        let ghost before = self@;
        let ghost model = RowModel { id, columns: columns@ };
        let mut rows: Vec<Row> = Vec::new();
        std::mem::swap(&mut self.rows, &mut rows);
        let ghost old_rows = rows@;
        let mut k: usize = 0;
        while k < rows.len() && rows[k].id < id
            invariant
                k <= rows.len(),
                forall|i: int| 0 <= i < k ==> (#[trigger] rows[i]).id < id,
            decreases rows.len() - k,
        {
            k += 1;
        }
        if k < rows.len() && rows[k].id == id {
            proof {
                assert forall|i: int| k < i < before.len() implies (#[trigger] before[i]).id
                    > id by {
                    assert(old_rows[k as int].id < old_rows[i].id);
                }
                lemma_with_row_present(before, model, k as int);
            }
            self.rows = rows;
        } else {
            proof {
                assert forall|i: int| k <= i < before.len() implies (#[trigger] before[i]).id
                    > id by {
                    if i > k {
                        assert(old_rows[k as int].id < old_rows[i].id);
                    }
                }
                assert forall|i: int| 0 <= i < k implies (#[trigger] before[i]).id < id by {
                    assert(old_rows[i].id < id);
                }
                lemma_with_row_absent(before, model, k as int);
            }
            rows.insert(k, Row { id, columns });
            proof {
                assert forall|i: int, j: int| 0 <= i < j < rows.len() implies (
                #[trigger] rows[i]).id < (#[trigger] rows[j]).id by {
                    if j < k {
                        assert(old_rows[i].id < old_rows[j].id);
                    } else if j == k {
                        assert(old_rows[i].id < id);
                    } else if i < k {
                        assert(old_rows[i].id < old_rows[j - 1].id);
                    } else if i == k {
                        if j - 1 > k {
                            assert(old_rows[k as int].id < old_rows[j - 1].id);
                        }
                    } else {
                        assert(old_rows[i - 1].id < old_rows[j - 1].id);
                    }
                }
            }
            self.rows = rows;
            proof {
                assert(self@ =~= before.insert(k as int, model));
            }
        }
    }

    /// The number of rows. Their ids rise strictly.
    pub fn len(&self) -> (n: usize)
        ensures
            n == self@.len(),
            ordered_by_id(self@),
    {
        proof {
            use_type_invariant(self);
        }
        self.rows.len()
    }

    /// The row at `i`, counted in the order of the ids.
    pub fn row(&self, i: usize) -> (r: &Row)
        requires
            i < self@.len(),
        ensures
            r@ == self@[i as int],
    {
        &self.rows[i]
    }
}

/// Represents a database, which contains multiple tables.
#[derive(Debug)]
pub struct Database {
    pub tables: TextMap<Table>,
}

impl View for Database {
    type V = Map<Seq<char>, Seq<RowModel>>;

    open spec fn view(&self) -> Map<Seq<char>, Seq<RowModel>> {
        self.tables@
    }
}

impl Database {
    /// Creates a new, empty database.
    pub fn new() -> (db: Self)
        ensures
            db@ == Map::<Seq<char>, Seq<RowModel>>::empty(),
    {
        Database { tables: TextMap::new() }
    }

    /// Creates a new, empty table. The database stays as it is.
    pub fn create_table(&mut self) -> (table: Table)
        ensures
            table@ == Seq::<RowModel>::empty(),
            final(self)@ == old(self)@,
    {
        Table::new()
    }

    /// Inserts a table into the database. A table that had this name is
    /// replaced.
    pub fn insert_table(&mut self, table_name: String, table: Table)
        ensures
            final(self)@ == old(self)@.insert(table_name@, table@),
    {
        self.tables.insert(table_name, table);
    }

    /// The table of that name, if the database holds one.
    pub fn table(&self, table_name: &str) -> (r: Option<&Table>)
        ensures
            match r {
                Some(t) => self@.contains_key(table_name@) && t@ == self@[table_name@],
                None => !self@.contains_key(table_name@),
            },
    {
        self.tables.get(table_name)
    }
}

} // verus!
