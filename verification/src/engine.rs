//! The execution engine: a parsed query run over a database in four
//! stages, each of which takes the working relation of the stage before it
//! and gives a new one: the source table, the joins, the filter, the
//! projection.

use crate::database::{Cell, CellModel, Database, Row, RowModel};
use crate::grammar::{
    ColumnModel, Comparison, JoinModel, QueryModel, Scalar, ValueModel, ValueTestModel,
};
use crate::parser::{columns_model, Column, Const, Query, Value, ValueTest};
use crate::text::{
    compare_text, qualified, qualified_name, same_text, text_order, TextOrder,
};
use crate::text_map::TextMap;
use vstd::prelude::*;
use vstd::view::View as _;

verus! {

/// Why a query cannot be run over a database.
#[derive(Debug, Clone, Copy, PartialEq, Eq, Structural)]
pub enum ResolutionError {
    /// The query names a table that the database does not hold.
    UnknownTable,
    /// A predicate names a column that a row it is tested on does not hold.
    UnresolvedColumn,
    /// A table that the query reads holds, in a column of a row, a value
    /// that is no scalar.
    UnsupportedValue,
}

/// A row of a working relation: a scalar for each qualified key.
pub type Record = Map<Seq<char>, Scalar>;

/// What a list of rows denotes: the working relation.
pub open spec fn relation(rows: Seq<TextMap<Const>>) -> Seq<Record> {
    rows.map_values(|r: TextMap<Const>| r@)
}

/// `key` is qualified by `table`: it starts with the table's name and a dot.
pub open spec fn qualified_by(table: Seq<char>, key: Seq<char>) -> bool {
    key == qualified(table, column_of(table, key))
}

/// What follows the table's name and the dot in a qualified key.
pub open spec fn column_of(table: Seq<char>, key: Seq<char>) -> Seq<char> {
    key.skip(table.len() as int + 1)
}

/// The integer that stands for a row's id: its low 64 bits, signed.
pub open spec fn id_integer(id: u128) -> i64 {
    id as i64
}

/// Every column of the row holds a scalar.
pub open spec fn is_scalar_row(row: RowModel) -> bool {
    forall|c: Seq<char>| row.columns.contains_key(c) ==> (#[trigger] row.columns[c]) is Scalar
}

/// Every column of every row holds a scalar.
pub open spec fn are_scalar_rows(rows: Seq<RowModel>) -> bool {
    forall|i: int| 0 <= i < rows.len() ==> is_scalar_row(#[trigger] rows[i])
}

/// A stored row as a row of the working relation: each column under its
/// qualified key, and the row's id under the key `table.id`.
pub open spec fn qualified_row(table: Seq<char>, row: RowModel) -> Record {
    Map::new(
        |key: Seq<char>|
            qualified_by(table, key) && (column_of(table, key) == "id"@
                || row.columns.contains_key(column_of(table, key))),
        |key: Seq<char>|
            if column_of(table, key) == "id"@ {
                Scalar::Integer(id_integer(row.id))
            } else {
                row.columns[column_of(table, key)]->Scalar_0
            },
    )
}

/// The rows of a table as a working relation, in the table's order.
pub open spec fn scan(table: Seq<char>, rows: Seq<RowModel>) -> Seq<Record> {
    rows.map_values(|r: RowModel| qualified_row(table, r))
}

/// The first stage: the working relation of the table `name`. There is
/// none where the database has no such table, nor where a column of one of
/// its rows holds no scalar.
pub open spec fn source_of(db: Map<Seq<char>, Seq<RowModel>>, name: Seq<char>) -> Result<
    Seq<Record>,
    ResolutionError,
> {
    if !db.contains_key(name) {
        Err(ResolutionError::UnknownTable)
    } else if !are_scalar_rows(db[name]) {
        Err(ResolutionError::UnsupportedValue)
    } else {
        Ok(scan(name, db[name]))
    }
}

/// What an operand is in a row: a constant is itself, a column is what
/// the row holds under its qualified key, if it holds that key.
pub open spec fn lookup(row: Record, operand: ValueModel) -> Option<Scalar> {
    match operand {
        ValueModel::Const(c) => Some(c),
        ValueModel::Column(c) => if row.contains_key(qualified(c.table_name, c.column_name)) {
            Some(row[qualified(c.table_name, c.column_name)])
        } else {
            None
        },
    }
}

/// What an operand is in a pair of rows: what it is in the left row or,
/// failing that, in the right one.
pub open spec fn lookup_pair(left: Record, right: Record, operand: ValueModel) -> Option<Scalar> {
    match lookup(left, operand) {
        Some(v) => Some(v),
        None => lookup(right, operand),
    }
}

/// Whether a comparison holds of two scalars. Integers are compared as
/// signed numbers, texts in the lexicographic order. Of an integer and a
/// text no comparison holds.
pub open spec fn compare(left: Scalar, comparison: Comparison, right: Scalar) -> bool {
    match (left, right) {
        (Scalar::Integer(a), Scalar::Integer(b)) => match comparison {
            Comparison::Eq => a == b,
            Comparison::Gt => a > b,
            Comparison::Lt => a < b,
            Comparison::Le => a <= b,
            Comparison::Ge => a >= b,
            Comparison::Ne => a != b,
        },
        (Scalar::Text(a), Scalar::Text(b)) => match comparison {
            Comparison::Eq => text_order(a, b) == TextOrder::Equal,
            Comparison::Gt => text_order(a, b) == TextOrder::Greater,
            Comparison::Lt => text_order(a, b) == TextOrder::Less,
            Comparison::Le => text_order(a, b) != TextOrder::Greater,
            Comparison::Ge => text_order(a, b) != TextOrder::Less,
            Comparison::Ne => text_order(a, b) != TextOrder::Equal,
        },
        _ => false,
    }
}

/// Both operands of the predicate are something in the pair of rows.
pub open spec fn pair_resolves(left: Record, right: Record, on: ValueTestModel) -> bool {
    lookup_pair(left, right, on.left) is Some && lookup_pair(left, right, on.right) is Some
}

/// The predicate holds of the pair of rows.
pub open spec fn pair_matches(left: Record, right: Record, on: ValueTestModel) -> bool {
    &&& pair_resolves(left, right, on)
    &&& compare(
        lookup_pair(left, right, on.left)->0,
        on.comparison,
        lookup_pair(left, right, on.right)->0,
    )
}

/// What a left row gives in a join: itself merged with each right row
/// that it matches, in the order of the right rows. Where both rows hold a
/// key, the right row's scalar stands.
pub open spec fn matches_of(left: Record, rights: Seq<Record>, on: ValueTestModel) -> Seq<Record>
    decreases rights.len(),
{
    if rights.len() == 0 {
        Seq::empty()
    } else {
        let before = matches_of(left, rights.drop_last(), on);
        if pair_matches(left, rights.last(), on) {
            before.push(left.union_prefer_right(rights.last()))
        } else {
            before
        }
    }
}

/// The join of two relations: what the first left row gives, then what
/// the second gives, and so on.
pub open spec fn join_rows(lefts: Seq<Record>, rights: Seq<Record>, on: ValueTestModel) -> Seq<
    Record,
>
    decreases lefts.len(),
{
    if lefts.len() == 0 {
        Seq::empty()
    } else {
        join_rows(lefts.drop_last(), rights, on) + matches_of(lefts.last(), rights, on)
    }
}

/// The predicate's operands are something in the pair of `left` and each
/// right row.
pub open spec fn row_resolves(left: Record, rights: Seq<Record>, on: ValueTestModel) -> bool {
    forall|j: int| 0 <= j < rights.len() ==> pair_resolves(left, #[trigger] rights[j], on)
}

/// The predicate's operands are something in every pair of a left and a
/// right row.
pub open spec fn join_resolves(lefts: Seq<Record>, rights: Seq<Record>, on: ValueTestModel) -> bool {
    forall|i: int| 0 <= i < lefts.len() ==> row_resolves(#[trigger] lefts[i], rights, on)
}

/// One join applied to a working relation.
pub open spec fn join_stage(
    db: Map<Seq<char>, Seq<RowModel>>,
    lefts: Seq<Record>,
    join: JoinModel,
) -> Result<Seq<Record>, ResolutionError> {
    match source_of(db, join.table_name) {
        Err(e) => Err(e),
        Ok(rights) => if join_resolves(lefts, rights, join.on) {
            Ok(join_rows(lefts, rights, join.on))
        } else {
            Err(ResolutionError::UnresolvedColumn)
        },
    }
}

/// The second stage: the joins applied one after the other.
pub open spec fn joins_stage(
    db: Map<Seq<char>, Seq<RowModel>>,
    rows: Seq<Record>,
    joins: Seq<JoinModel>,
) -> Result<Seq<Record>, ResolutionError>
    decreases joins.len(),
{
    if joins.len() == 0 {
        Ok(rows)
    } else {
        match join_stage(db, rows, joins[0]) {
            Err(e) => Err(e),
            Ok(joined) => joins_stage(db, joined, joins.drop_first()),
        }
    }
}

/// Both operands of the predicate are something in the row.
pub open spec fn test_resolves(row: Record, test: ValueTestModel) -> bool {
    lookup(row, test.left) is Some && lookup(row, test.right) is Some
}

/// The predicate holds of the row.
pub open spec fn test_holds(row: Record, test: ValueTestModel) -> bool {
    &&& test_resolves(row, test)
    &&& compare(lookup(row, test.left)->0, test.comparison, lookup(row, test.right)->0)
}

/// The rows of which the predicate holds, in their order.
pub open spec fn kept(rows: Seq<Record>, test: ValueTestModel) -> Seq<Record>
    decreases rows.len(),
{
    if rows.len() == 0 {
        Seq::empty()
    } else if test_holds(rows.last(), test) {
        kept(rows.drop_last(), test).push(rows.last())
    } else {
        kept(rows.drop_last(), test)
    }
}

/// The predicate's operands are something in every row.
pub open spec fn filter_resolves(rows: Seq<Record>, test: ValueTestModel) -> bool {
    forall|i: int| 0 <= i < rows.len() ==> test_resolves(#[trigger] rows[i], test)
}

/// The third stage: the filter, where the query has one.
pub open spec fn filter_stage(rows: Seq<Record>, filter: Option<ValueTestModel>) -> Result<
    Seq<Record>,
    ResolutionError,
> {
    match filter {
        None => Ok(rows),
        Some(test) => if filter_resolves(rows, test) {
            Ok(kept(rows, test))
        } else {
            Err(ResolutionError::UnresolvedColumn)
        },
    }
}

/// The qualified keys of the selected columns.
pub open spec fn selected_keys(select: Seq<ColumnModel>) -> Set<Seq<char>> {
    Set::new(
        |key: Seq<char>|
            exists|i: int|
                0 <= i < select.len() && key == qualified(
                    (#[trigger] select[i]).table_name,
                    select[i].column_name,
                ),
    )
}

/// The fourth stage: each row with the selected keys only.
pub open spec fn project(rows: Seq<Record>, keys: Set<Seq<char>>) -> Seq<Record> {
    rows.map_values(|r: Record| r.restrict(keys))
}

/// What a query gives over a database: the four stages in their order.
pub open spec fn run(db: Map<Seq<char>, Seq<RowModel>>, query: QueryModel) -> Result<
    Seq<Record>,
    ResolutionError,
> {
    match source_of(db, query.from) {
        Err(e) => Err(e),
        Ok(rows) => match joins_stage(db, rows, query.joins) {
            Err(e) => Err(e),
            Ok(joined) => match filter_stage(joined, query.where_clause) {
                Err(e) => Err(e),
                Ok(filtered) => Ok(project(filtered, selected_keys(query.select))),
            },
        },
    }
}

/// A copy of a row.
pub fn copy_row(row: &TextMap<Const>) -> (r: TextMap<Const>)
    ensures
        r@ == row@,
{
    let mut r: TextMap<Const> = TextMap::new();
    let n = row.len();
    let mut i: usize = 0;
    while i < n
        invariant
            i <= n,
            n == row.keys().len(),
            forall|k: Seq<char>|
                #![trigger r@.contains_key(k)]
                r@.contains_key(k) <==> row.keys().take(i as int).contains(k),
            forall|k: Seq<char>| #[trigger] r@.contains_key(k) ==> r@[k] == row@[k],
        decreases n - i,
    {
        let ghost before = r@;
        let key = row.key(i).clone();
        let value = row.value(i).clone();
        r.insert(key, value);
        proof {
            let done = row.keys().take(i as int);
            let next = row.keys().take(i + 1);
            assert(next =~= done.push(row.keys()[i as int]));
            assert forall|k: Seq<char>| r@.contains_key(k) <==> next.contains(k) by {
                if done.contains(k) {
                    let j = choose|j: int| 0 <= j < done.len() && done[j] == k;
                    assert(next[j] == k);
                }
                if k == row.keys()[i as int] {
                    assert(next[i as int] == k);
                }
                if next.contains(k) {
                    let j = choose|j: int| 0 <= j < next.len() && next[j] == k;
                    if j < i {
                        assert(done[j] == k);
                    }
                }
            }
        }
        i += 1;
    }
    proof {
        assert(row.keys().take(n as int) =~= row.keys());
        row.lemma_keys_domain();
        assert(r@ =~= row@);
    }
    r
}

/// Two rows merged: the keys of both; where both hold a key, the scalar
/// of `right`.
pub fn merge_rows(left: &TextMap<Const>, right: &TextMap<Const>) -> (r: TextMap<Const>)
    ensures
        r@ == left@.union_prefer_right(right@),
{
    let mut r = copy_row(left);
    let n = right.len();
    let mut i: usize = 0;
    while i < n
        invariant
            i <= n,
            n == right.keys().len(),
            forall|k: Seq<char>|
                #![trigger r@.contains_key(k)]
                r@.contains_key(k) <==> left@.contains_key(k) || right.keys().take(
                    i as int,
                ).contains(k),
            forall|k: Seq<char>|
                #[trigger] r@.contains_key(k) ==> r@[k] == if right.keys().take(i as int).contains(
                    k,
                ) {
                    right@[k]
                } else {
                    left@[k]
                },
        decreases n - i,
    {
        let key = right.key(i).clone();
        let value = right.value(i).clone();
        r.insert(key, value);
        proof {
            let done = right.keys().take(i as int);
            let next = right.keys().take(i + 1);
            assert(next =~= done.push(right.keys()[i as int]));
            assert forall|k: Seq<char>| next.contains(k) <==> done.contains(k) || k
                == right.keys()[i as int] by {
                if done.contains(k) {
                    let j = choose|j: int| 0 <= j < done.len() && done[j] == k;
                    assert(next[j] == k);
                }
                if k == right.keys()[i as int] {
                    assert(next[i as int] == k);
                }
                if next.contains(k) {
                    let j = choose|j: int| 0 <= j < next.len() && next[j] == k;
                    if j < i {
                        assert(done[j] == k);
                    }
                }
            }
        }
        i += 1;
    }
    proof {
        assert(right.keys().take(n as int) =~= right.keys());
        right.lemma_keys_domain();
        assert(r@ =~= left@.union_prefer_right(right@));
    }
    r
}

/// Whether one of the selected columns has the qualified key `key`.
fn is_selected(select: &Vec<Column>, key: &str) -> (r: bool)
    ensures
        r == selected_keys(columns_model(select@)).contains(key@),
{
    let ghost model = columns_model(select@);
    let mut i: usize = 0;
    while i < select.len()
        invariant
            i <= select.len(),
            model == columns_model(select@),
            forall|j: int|
                0 <= j < i ==> key@ != qualified(
                    (#[trigger] model[j]).table_name,
                    model[j].column_name,
                ),
        decreases select.len() - i,
    {
        let name = qualified_name(select[i].table_name.as_str(), select[i].column_name.as_str());
        if same_text(name.as_str(), key) {
            assert(key@ == qualified(model[i as int].table_name, model[i as int].column_name));
            return true;
        }
        i += 1;
    }
    false
}

/// A row with the selected keys only.
pub fn project_row(row: &TextMap<Const>, select: &Vec<Column>) -> (r: TextMap<Const>)
    ensures
        r@ == row@.restrict(selected_keys(columns_model(select@))),
{
    let ghost keys = selected_keys(columns_model(select@));
    let mut r: TextMap<Const> = TextMap::new();
    let n = row.len();
    let mut i: usize = 0;
    while i < n
        invariant
            i <= n,
            n == row.keys().len(),
            keys == selected_keys(columns_model(select@)),
            forall|k: Seq<char>|
                #![trigger r@.contains_key(k)]
                r@.contains_key(k) <==> keys.contains(k) && row.keys().take(i as int).contains(k),
            forall|k: Seq<char>| #[trigger] r@.contains_key(k) ==> r@[k] == row@[k],
        decreases n - i,
    {
        let ghost before = r@;
        let ghost column = row.keys()[i as int];
        let chosen = is_selected(select, row.key(i).as_str());
        if chosen {
            let key = row.key(i).clone();
            let value = row.value(i).clone();
            r.insert(key, value);
        }
        proof {
            let done = row.keys().take(i as int);
            let next = row.keys().take(i + 1);
            assert(next =~= done.push(column));
            assert forall|k: Seq<char>| r@.contains_key(k) <==> keys.contains(k) && next.contains(
                k,
            ) by {
                if done.contains(k) {
                    let j = choose|j: int| 0 <= j < done.len() && done[j] == k;
                    assert(next[j] == k);
                }
                if k == column {
                    assert(next[i as int] == k);
                }
                if next.contains(k) {
                    let j = choose|j: int| 0 <= j < next.len() && next[j] == k;
                    if j < i {
                        assert(done[j] == k);
                    }
                }
                assert(before.contains_key(k) <==> keys.contains(k) && done.contains(k));
            }
        }
        i += 1;
    }
    proof {
        assert(row.keys().take(n as int) =~= row.keys());
        row.lemma_keys_domain();
        assert(r@ =~= row@.restrict(keys));
    }
    r
}

/// Represents a view of the database that comes from executing a
/// parsed SQL query: the working relation, and the query and the database
/// that it is made from.
#[derive(Debug)]
pub struct View<'a> {
    /// The rows of the working relation, each a map from qualified keys
    /// to values.
    pub rows: Vec<TextMap<Const>>,
    /// The parsed SQL query.
    pub parsed_query: &'a Query,
    /// The database on which the query is executed.
    pub database: &'a Database,
}

impl<'a> View<'a> {
    /// The working relation.
    pub open spec fn relation(&self) -> Seq<Record> {
        relation(self.rows@)
    }

    /// The view is made from the query and the database of `other`.
    pub open spec fn same_context(&self, other: &View<'a>) -> bool {
        self.parsed_query == other.parsed_query && self.database == other.database
    }

    /// Executes a parsed SQL query on a database and returns a `View`
    /// object: the projected rows, or why the query cannot be run.
    pub fn execute(parsed_query: &'a Query, database: &'a Database) -> (r: Result<
        View<'a>,
        ResolutionError,
    >)
        ensures
            match run(database@, parsed_query@) {
                Ok(rows) => r matches Ok(v) && v.relation() == rows && v.parsed_query
                    == parsed_query && v.database == database,
                Err(e) => r matches Err(x) && x == e,
            },
    {
        let view = View { rows: Vec::new(), parsed_query, database };
        let view = view.from()?;
        let view = view.joins()?;
        let view = view.apply_where()?;
        Ok(view.select())
    }

    /// Populates the view with rows from the table of the `FROM` clause.
    pub fn from(self) -> (r: Result<View<'a>, ResolutionError>)
        ensures
            match source_of(self.database@, self.parsed_query@.from) {
                Ok(rows) => r matches Ok(v) && v.relation() == rows && v.same_context(&self),
                Err(e) => r matches Err(x) && x == e,
            },
    {
        let rows = self.table_to_vec(self.parsed_query.from.as_str())?;
        Ok(View { rows, parsed_query: self.parsed_query, database: self.database })
    }

    /// Processes the `JOIN` clauses and merges rows from the joined tables.
    pub fn joins(self) -> (r: Result<View<'a>, ResolutionError>)
        ensures
            match joins_stage(self.database@, self.relation(), self.parsed_query@.joins) {
                Ok(rows) => r matches Ok(v) && v.relation() == rows && v.same_context(&self),
                Err(e) => r matches Err(x) && x == e,
            },
    {
        let ghost db = self.database@;
        let ghost joins = self.parsed_query@.joins;
        let ghost start = self.relation();
        let mut view = self;
        let query = view.parsed_query;
        let n = query.joins.len();
        let mut i: usize = 0;
        proof {
            assert(joins.skip(0) =~= joins);
        }
        while i < n
            invariant
                i <= n,
                n == query.joins.len(),
                joins == query@.joins,
                db == view.database@,
                view.parsed_query == query,
                view.same_context(&self),
                start == self.relation(),
                joins == self.parsed_query@.joins,
                joins_stage(db, start, joins) == joins_stage(db, view.relation(), joins.skip(i as int)),
            decreases n - i,
        {
            let join = &query.joins[i];
            proof {
                assert(joins.skip(i as int)[0] == join@);
                assert(joins.skip(i as int).drop_first() =~= joins.skip(i + 1));
            }
            let rights = view.table_to_vec(join.table_name.as_str())?;
            let joined = view.join_relation(&view.rows, &rights, &join.on)?;
            view.rows = joined;
            i += 1;
        }
        Ok(view)
    }

    /// The join of two relations on a predicate.
    fn join_relation(
        &self,
        lefts: &Vec<TextMap<Const>>,
        rights: &Vec<TextMap<Const>>,
        on: &ValueTest,
    ) -> (r: Result<Vec<TextMap<Const>>, ResolutionError>)
        ensures
            if join_resolves(relation(lefts@), relation(rights@), on@) {
                r matches Ok(v) && relation(v@) == join_rows(relation(lefts@), relation(rights@), on@)
            } else {
                r matches Err(e) && e == ResolutionError::UnresolvedColumn
            },
    {
        let ghost ls = relation(lefts@);
        let ghost rs = relation(rights@);
        let mut out: Vec<TextMap<Const>> = Vec::new();
        let mut i: usize = 0;
        while i < lefts.len()
            invariant
                i <= lefts.len(),
                ls == relation(lefts@),
                rs == relation(rights@),
                join_resolves(ls.take(i as int), rs, on@),
                relation(out@) == join_rows(ls.take(i as int), rs, on@),
            decreases lefts.len() - i,
        {
            let ghost before = relation(out@);
            let left = &lefts[i];
            let mut j: usize = 0;
            while j < rights.len()
                invariant
                    j <= rights.len(),
                    i < lefts.len(),
                    ls == relation(lefts@),
                    rs == relation(rights@),
                    left@ == ls[i as int],
                    row_resolves(left@, rs.take(j as int), on@),
                    relation(out@) == before + matches_of(left@, rs.take(j as int), on@),
                decreases rights.len() - j,
            {
                let right = &rights[j];
                let ghost so_far = relation(out@);
                proof {
                    assert(rs.take(j + 1).drop_last() =~= rs.take(j as int));
                    assert(rs.take(j + 1).last() == right@);
                }
                let left_value = match self.get_column_value(left, &on.left) {
                    Some(v) => Some(v),
                    None => self.get_column_value(right, &on.left),
                };
                let right_value = match self.get_column_value(left, &on.right) {
                    Some(v) => Some(v),
                    None => self.get_column_value(right, &on.right),
                };
                match (left_value, right_value) {
                    (Some(a), Some(b)) => {
                        if self.compare_values(&a, &on.comparison, &b) {
                            out.push(merge_rows(left, right));
                            proof {
                                assert(relation(out@) =~= so_far.push(
                                    left@.union_prefer_right(right@),
                                ));
                                assert(relation(out@) =~= before + matches_of(
                                    left@,
                                    rs.take(j + 1),
                                    on@,
                                ));
                            }
                        }
                    },
                    _ => {
                        proof {
                            assert(!pair_resolves(ls[i as int], rs[j as int], on@));
                            assert(!row_resolves(ls[i as int], rs, on@));
                        }
                        return Err(ResolutionError::UnresolvedColumn);
                    },
                }
                proof {
                    assert forall|k: int| 0 <= k < j + 1 implies pair_resolves(
                        left@,
                        #[trigger] rs.take(j + 1)[k],
                        on@,
                    ) by {
                        if k < j {
                            assert(rs.take(j as int)[k] == rs.take(j + 1)[k]);
                        }
                    }
                }
                j += 1;
            }
            proof {
                assert(rs.take(rights.len() as int) =~= rs);
                assert(ls.take(i + 1).drop_last() =~= ls.take(i as int));
                assert(ls.take(i + 1).last() == left@);
                assert forall|k: int| 0 <= k < i + 1 implies row_resolves(
                    #[trigger] ls.take(i + 1)[k],
                    rs,
                    on@,
                ) by {
                    if k < i {
                        assert(ls.take(i as int)[k] == ls.take(i + 1)[k]);
                    }
                }
            }
            i += 1;
        }
        proof {
            assert(ls.take(lefts.len() as int) =~= ls);
        }
        Ok(out)
    }

    /// Filters rows based on the `WHERE` clause.
    pub fn apply_where(self) -> (r: Result<View<'a>, ResolutionError>)
        ensures
            match filter_stage(self.relation(), self.parsed_query@.where_clause) {
                Ok(rows) => r matches Ok(v) && v.relation() == rows && v.same_context(&self),
                Err(e) => r matches Err(x) && x == e,
            },
    {
        let query = self.parsed_query;
        match &query.where_clause {
            None => Ok(self),
            Some(test) => {
                let ghost rs = self.relation();
                let mut out: Vec<TextMap<Const>> = Vec::new();
                let mut i: usize = 0;
                while i < self.rows.len()
                    invariant
                        i <= self.rows.len(),
                        rs == relation(self.rows@),
                        self.parsed_query@.where_clause == Some(test@),
                        filter_resolves(rs.take(i as int), test@),
                        relation(out@) == kept(rs.take(i as int), test@),
                    decreases self.rows.len() - i,
                {
                    let row = &self.rows[i];
                    let ghost so_far = relation(out@);
                    proof {
                        assert(rs.take(i + 1).drop_last() =~= rs.take(i as int));
                        assert(rs.take(i + 1).last() == row@);
                    }
                    let left_value = self.get_column_value(row, &test.left);
                    let right_value = self.get_column_value(row, &test.right);
                    match (left_value, right_value) {
                        (Some(a), Some(b)) => {
                            if self.compare_values(&a, &test.comparison, &b) {
                                out.push(copy_row(row));
                                proof {
                                    assert(relation(out@) =~= so_far.push(row@));
                                }
                            }
                        },
                        _ => {
                            proof {
                                assert(!test_resolves(rs[i as int], test@));
                            }
                            return Err(ResolutionError::UnresolvedColumn);
                        },
                    }
                    proof {
                        assert forall|k: int| 0 <= k < i + 1 implies test_resolves(
                            #[trigger] rs.take(i + 1)[k],
                            test@,
                        ) by {
                            if k < i {
                                assert(rs.take(i as int)[k] == rs.take(i + 1)[k]);
                            }
                        }
                    }
                    i += 1;
                }
                proof {
                    assert(rs.take(self.rows.len() as int) =~= rs);
                }
                Ok(View { rows: out, parsed_query: self.parsed_query, database: self.database })
            },
        }
    }

    /// Selects the specified columns and constructs the final result set.
    pub fn select(self) -> (v: View<'a>)
        ensures
            v.relation() == project(self.relation(), selected_keys(self.parsed_query@.select)),
            v.same_context(&self),
    {
        let ghost rs = self.relation();
        let ghost keys = selected_keys(self.parsed_query@.select);
        let query = self.parsed_query;
        let mut out: Vec<TextMap<Const>> = Vec::new();
        let mut i: usize = 0;
        while i < self.rows.len()
            invariant
                i <= self.rows.len(),
                rs == relation(self.rows@),
                keys == selected_keys(query@.select),
                relation(out@) == project(rs.take(i as int), keys),
            decreases self.rows.len() - i,
        {
            let ghost so_far = relation(out@);
            out.push(project_row(&self.rows[i], &query.select));
            proof {
                assert(relation(out@) =~= so_far.push(rs[i as int].restrict(keys)));
                assert(project(rs.take(i + 1), keys) =~= project(rs.take(i as int), keys).push(
                    rs[i as int].restrict(keys),
                ));
            }
            i += 1;
        }
        proof {
            assert(rs.take(self.rows.len() as int) =~= rs);
        }
        View { rows: out, parsed_query: self.parsed_query, database: self.database }
    }

    /// Gets the value of an operand in a row: a constant is itself, a
    /// column is what the row holds under its qualified key.
    pub fn get_column_value(&self, row: &TextMap<Const>, value: &Value) -> (r: Option<Const>)
        ensures
            match lookup(row@, value@) {
                Some(v) => r matches Some(c) && c@ == v,
                None => r is None,
            },
    {
        match value {
            Value::Const(c) => Some(c.clone()),
            Value::Column(column) => {
                let key = qualified_name(column.table_name.as_str(), column.column_name.as_str());
                match row.get(key.as_str()) {
                    None => None,
                    Some(c) => Some(c.clone()),
                }
            },
        }
    }

    /// Compares two values based on the specified comparison operator.
    pub fn compare_values(&self, left: &Const, comparison: &Comparison, right: &Const) -> (r: bool)
        ensures
            r == compare(left@, *comparison, right@),
    {
        match (left, right) {
            (Const::Number(a), Const::Number(b)) => match comparison {
                Comparison::Eq => *a == *b,
                Comparison::Gt => *a > *b,
                Comparison::Lt => *a < *b,
                Comparison::Le => *a <= *b,
                Comparison::Ge => *a >= *b,
                Comparison::Ne => *a != *b,
            },
            (Const::String(a), Const::String(b)) => {
                let o = compare_text(a.as_str(), b.as_str());
                match comparison {
                    Comparison::Eq => o == TextOrder::Equal,
                    Comparison::Gt => o == TextOrder::Greater,
                    Comparison::Lt => o == TextOrder::Less,
                    Comparison::Le => o != TextOrder::Greater,
                    Comparison::Ge => o != TextOrder::Less,
                    Comparison::Ne => o != TextOrder::Equal,
                }
            },
            _ => false,
        }
    }

    /// Converts a table to a vector of rows, each row being a map from
    /// qualified keys to values.
    pub fn table_to_vec(&self, table_name: &str) -> (r: Result<Vec<TextMap<Const>>, ResolutionError>)
        ensures
            match source_of(self.database@, table_name@) {
                Ok(rows) => r matches Ok(v) && relation(v@) == rows,
                Err(e) => r matches Err(x) && x == e,
            },
    {
        let table = match self.database.table(table_name) {
            Some(t) => t,
            None => {
                return Err(ResolutionError::UnknownTable);
            },
        };
        let ghost stored = table@;
        let mut out: Vec<TextMap<Const>> = Vec::new();
        let n = table.len();
        let mut i: usize = 0;
        while i < n
            invariant
                i <= n,
                n == table@.len(),
                stored == table@,
                self.database@.contains_key(table_name@),
                stored == self.database@[table_name@],
                are_scalar_rows(stored.take(i as int)),
                relation(out@) == scan(table_name@, stored.take(i as int)),
            decreases n - i,
        {
            let ghost so_far = relation(out@);
            match qualify_row(table_name, table.row(i)) {
                Some(row) => {
                    out.push(row);
                },
                None => {
                    proof {
                        assert(!is_scalar_row(stored[i as int]));
                    }
                    return Err(ResolutionError::UnsupportedValue);
                },
            }
            proof {
                assert(relation(out@) =~= so_far.push(qualified_row(table_name@, stored[i as int])));
                assert(scan(table_name@, stored.take(i + 1)) =~= scan(
                    table_name@,
                    stored.take(i as int),
                ).push(qualified_row(table_name@, stored[i as int])));
                assert forall|k: int| 0 <= k < i + 1 implies is_scalar_row(
                    #[trigger] stored.take(i + 1)[k],
                ) by {
                    if k < i {
                        assert(stored.take(i as int)[k] == stored.take(i + 1)[k]);
                    }
                }
            }
            i += 1;
        }
        proof {
            assert(stored.take(n as int) =~= stored);
        }
        Ok(out)
    }
}

/// A stored row as a row of the working relation, if every column of it
/// holds a scalar.
pub fn qualify_row(table_name: &str, row: &Row) -> (r: Option<TextMap<Const>>)
    ensures
        match r {
            Some(m) => is_scalar_row(row@) && m@ == qualified_row(table_name@, row@),
            None => !is_scalar_row(row@),
        },
{
    let ghost t = table_name@;
    let mut r: TextMap<Const> = TextMap::new();
    let n = row.columns.len();
    let mut i: usize = 0;
    while i < n
        invariant
            i <= n,
            n == row.columns.keys().len(),
            t == table_name@,
            forall|j: int|
                0 <= j < i ==> row.columns@[#[trigger] row.columns.keys()[j]] is Scalar,
            forall|k: Seq<char>|
                #![trigger r@.contains_key(k)]
                r@.contains_key(k) <==> qualified_by(t, k) && row.columns.keys().take(
                    i as int,
                ).contains(column_of(t, k)),
            forall|k: Seq<char>|
                #[trigger] r@.contains_key(k) ==> CellModel::Scalar(r@[k])
                    == row.columns@[column_of(t, k)],
        decreases n - i,
    {
        let ghost before = r@;
        let ghost column = row.columns.keys()[i as int];
        let key = qualified_name(table_name, row.columns.key(i).as_str());
        let value = match row.columns.value(i) {
            Cell::Scalar(c) => c.clone(),
            Cell::Other => {
                proof {
                    assert(row@.columns.contains_key(column));
                    assert(row@.columns[column] is Other);
                }
                return None;
            },
        };
        r.insert(key, value);
        proof {
            let done = row.columns.keys().take(i as int);
            let next = row.columns.keys().take(i + 1);
            assert(next =~= done.push(column));
            assert(column_of(t, qualified(t, column)) =~= column);
            assert forall|k: Seq<char>| #![trigger r@.contains_key(k)]
                r@.contains_key(k) <==> qualified_by(t, k) && next.contains(column_of(t, k)) by {
                let c = column_of(t, k);
                if done.contains(c) {
                    let j = choose|j: int| 0 <= j < done.len() && done[j] == c;
                    assert(next[j] == c);
                }
                if c == column {
                    assert(next[i as int] == c);
                }
                if next.contains(c) {
                    let j = choose|j: int| 0 <= j < next.len() && next[j] == c;
                    if j < i {
                        assert(done[j] == c);
                    }
                }
                assert(before.contains_key(k) <==> qualified_by(t, k) && done.contains(c));
            }
            assert forall|k: Seq<char>| #[trigger] r@.contains_key(k) implies CellModel::Scalar(
                r@[k],
            ) == row.columns@[column_of(t, k)] by {
                if k != qualified(t, column) {
                    assert(before.contains_key(k));
                }
            }
        }
        i += 1;
    }
    let key = qualified_name(table_name, "id");
    let id = #[verifier::truncate]
    (row.id as i64);
    let ghost before = r@;
    r.insert(key, Const::Number(id));
    proof {
        let target = qualified_row(t, row@);
        let keys = row.columns.keys();
        assert(keys.take(n as int) =~= keys);
        row.columns.lemma_keys_domain();
        assert forall|c: Seq<char>| row@.columns.contains_key(c) implies (
        #[trigger] row@.columns[c]) is Scalar by {
            assert(row.columns@.contains_key(c));
            assert(keys.contains(c));
            let j = choose|j: int| 0 <= j < keys.len() && keys[j] == c;
            assert(row.columns@[row.columns.keys()[j]] is Scalar);
        }
        assert(column_of(t, qualified(t, "id"@)) =~= "id"@);
        assert forall|k: Seq<char>| r@.contains_key(k) <==> target.contains_key(k) by {
            assert(before.contains_key(k) <==> qualified_by(t, k) && keys.contains(
                column_of(t, k),
            ));
        }
        assert forall|k: Seq<char>| #[trigger] r@.contains_key(k) implies r@[k] == target[k] by {
            if k != qualified(t, "id"@) {
                assert(before.contains_key(k));
            }
        }
        assert(r@ =~= target);
    }
    Some(r)
}

} // verus!
