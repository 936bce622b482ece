use vstd::prelude::*;
use vstd::string::StringExecFns;

use crate::adb::{col_names, db_wf, find_col, find_table, table_names, tables_view, AColumn, AColumnV, ATable, ATableV, ADB};
use crate::seqs::lemma_first_pos_distinct;

verus! {

/// One schema edit.
#[derive(Clone, Debug)]
pub enum Operation {
    AddTable(ATable),
    RemoveTable(String),
    /// A table name and the column to add to it.
    AddColumn(String, AColumn),
    /// A table name and the name of the column to remove from it.
    RemoveColumn(String, String),
    /// A table name, the column as it was, and the column as it becomes.
    ChangeColumn(String, AColumn, AColumn),
}

pub enum OperationV {
    AddTable(ATableV),
    RemoveTable(Seq<char>),
    AddColumn(Seq<char>, AColumnV),
    RemoveColumn(Seq<char>, Seq<char>),
    ChangeColumn(Seq<char>, AColumnV, AColumnV),
}

impl View for Operation {
    type V = OperationV;

    open spec fn view(&self) -> OperationV {
        match self {
            Operation::AddTable(t) => OperationV::AddTable(t@),
            Operation::RemoveTable(n) => OperationV::RemoveTable(n@),
            Operation::AddColumn(t, c) => OperationV::AddColumn(t@, c@),
            Operation::RemoveColumn(t, c) => OperationV::RemoveColumn(t@, c@),
            Operation::ChangeColumn(t, a, b) => OperationV::ChangeColumn(t@, a@, b@),
        }
    }
}

pub open spec fn ops_view(ops: Seq<Operation>) -> Seq<OperationV> {
    ops.map_values(|o: Operation| o@)
}

/// An `AddColumn` for each column of `new` whose name `old` lacks, in the order of `new`.
pub open spec fn added_cols(old: Seq<AColumnV>, new: Seq<AColumnV>, table: Seq<char>) -> Seq<
    OperationV,
>
    decreases new.len(),
{
    if new.len() == 0 {
        seq![]
    } else {
        let r = added_cols(old, new.drop_last(), table);
        if find_col(old, new.last().name) is None {
            r.push(OperationV::AddColumn(table, new.last()))
        } else {
            r
        }
    }
}

/// A `RemoveColumn` for each column of `old` whose name `new` lacks, in the order of `old`.
pub open spec fn removed_cols(old: Seq<AColumnV>, new: Seq<AColumnV>, table: Seq<char>) -> Seq<
    OperationV,
>
    decreases old.len(),
{
    if old.len() == 0 {
        seq![]
    } else {
        let r = removed_cols(old.drop_last(), new, table);
        if find_col(new, old.last().name) is None {
            r.push(OperationV::RemoveColumn(table, old.last().name))
        } else {
            r
        }
    }
}

/// A `ChangeColumn` for each column of `new` whose namesake in `old` differs
/// from it in any field, in the order of `new`.
pub open spec fn changed_cols(old: Seq<AColumnV>, new: Seq<AColumnV>, table: Seq<char>) -> Seq<
    OperationV,
>
    decreases new.len(),
{
    if new.len() == 0 {
        seq![]
    } else {
        let r = changed_cols(old, new.drop_last(), table);
        match find_col(old, new.last().name) {
            Some(oc) => if oc != new.last() {
                r.push(OperationV::ChangeColumn(table, oc, new.last()))
            } else {
                r
            },
            None => r,
        }
    }
}

/// The edits that turn table `old` into table `new`.
pub open spec fn table_edits(old: ATableV, new: ATableV) -> Seq<OperationV> {
    added_cols(old.columns, new.columns, new.name) + removed_cols(old.columns, new.columns, old.name)
        + changed_cols(old.columns, new.columns, new.name)
}

/// An `AddTable` for each table of `new` whose name `old` lacks, in the order of `new`.
pub open spec fn added_tables(old: Seq<ATableV>, new: Seq<ATableV>) -> Seq<OperationV>
    decreases new.len(),
{
    if new.len() == 0 {
        seq![]
    } else {
        let r = added_tables(old, new.drop_last());
        if find_table(old, new.last().name) is None {
            r.push(OperationV::AddTable(new.last()))
        } else {
            r
        }
    }
}

/// A `RemoveTable` for each table of `old` whose name `new` lacks, in the order of `old`.
pub open spec fn removed_tables(old: Seq<ATableV>, new: Seq<ATableV>) -> Seq<OperationV>
    decreases old.len(),
{
    if old.len() == 0 {
        seq![]
    } else {
        let r = removed_tables(old.drop_last(), new);
        if find_table(new, old.last().name) is None {
            r.push(OperationV::RemoveTable(old.last().name))
        } else {
            r
        }
    }
}

/// For each table of `new` that `old` has too, in the order of `new`, the
/// edits between the two, one table after another.
pub open spec fn common_table_edits(old: Seq<ATableV>, new: Seq<ATableV>) -> Seq<OperationV>
    decreases new.len(),
{
    if new.len() == 0 {
        seq![]
    } else {
        let r = common_table_edits(old, new.drop_last());
        match find_table(old, new.last().name) {
            Some(ot) => r + table_edits(ot, new.last()),
            None => r,
        }
    }
}

/// The edits that turn snapshot `old` into snapshot `new`: whole tables first,
/// then the columns of the tables that both hold.
pub open spec fn schema_edits(old: Seq<ATableV>, new: Seq<ATableV>) -> Seq<OperationV> {
    added_tables(old, new) + removed_tables(old, new) + common_table_edits(old, new)
}

proof fn lemma_ops_push(ops: Seq<Operation>, o: Operation)
    ensures
        ops_view(ops.push(o)) == ops_view(ops).push(o@),
{
    assert(ops_view(ops.push(o)) =~= ops_view(ops).push(o@));
}

proof fn lemma_prefix_step<A>(s: Seq<A>, i: int)
    requires
        0 <= i < s.len(),
    ensures
        s.subrange(0, i + 1).drop_last() == s.subrange(0, i),
        s.subrange(0, i + 1).last() == s[i],
{
    assert(s.subrange(0, i + 1).drop_last() =~= s.subrange(0, i));
}

/// The column edits that turn table `old` into table `new`.
pub fn diff_table(old: &ATable, new: &ATable) -> (ops: Vec<Operation>)
    ensures
        ops_view(ops@) == table_edits(old@, new@),
{
    let mut ops: Vec<Operation> = Vec::new();
    let mut i: usize = 0;
    assert(ops_view(ops@) =~= seq![]);
    while i < new.columns.len()
        invariant
            i <= new.columns.len(),
            ops_view(ops@) == added_cols(old@.columns, new@.columns.subrange(0, i as int), new@.name),
        decreases new.columns.len() - i,
    {
        let c = &new.columns[i];
        proof {
            lemma_prefix_step(new@.columns, i as int);
        }
        if old.get_column(c.name()).is_none() {
            let op = Operation::AddColumn(new.name.clone(), c.duplicate());
            proof {
                lemma_ops_push(ops@, op);
            }
            ops.push(op);
        }
        i += 1;
    }
    assert(new@.columns.subrange(0, i as int) =~= new@.columns);
    let ghost added = ops_view(ops@);
    let mut i: usize = 0;
    assert(ops_view(ops@) =~= added + seq![]);
    while i < old.columns.len()
        invariant
            i <= old.columns.len(),
            ops_view(ops@) == added + removed_cols(
                old@.columns.subrange(0, i as int),
                new@.columns,
                old@.name,
            ),
        decreases old.columns.len() - i,
    {
        let c = &old.columns[i];
        proof {
            lemma_prefix_step(old@.columns, i as int);
        }
        if new.get_column(c.name()).is_none() {
            let op = Operation::RemoveColumn(old.name.clone(), String::from_str(c.name()));
            proof {
                lemma_ops_push(ops@, op);
            }
            ops.push(op);
            assert(ops_view(ops@) =~= added + removed_cols(
                old@.columns.subrange(0, i + 1),
                new@.columns,
                old@.name,
            ));
        }
        i += 1;
    }
    assert(old@.columns.subrange(0, i as int) =~= old@.columns);
    let ghost added_removed = ops_view(ops@);
    let mut i: usize = 0;
    assert(ops_view(ops@) =~= added_removed + seq![]);
    while i < new.columns.len()
        invariant
            i <= new.columns.len(),
            ops_view(ops@) == added_removed + changed_cols(
                old@.columns,
                new@.columns.subrange(0, i as int),
                new@.name,
            ),
        decreases new.columns.len() - i,
    {
        let c = &new.columns[i];
        proof {
            lemma_prefix_step(new@.columns, i as int);
        }
        match old.get_column(c.name()) {
            Some(oc) => {
                if !oc.same_structure(c) {
                    let op = Operation::ChangeColumn(new.name.clone(), oc.duplicate(), c.duplicate());
                    proof {
                        lemma_ops_push(ops@, op);
                    }
                    ops.push(op);
                    assert(ops_view(ops@) =~= added_removed + changed_cols(
                        old@.columns,
                        new@.columns.subrange(0, i + 1),
                        new@.name,
                    ));
                }
            },
            None => {},
        }
        i += 1;
    }
    assert(new@.columns.subrange(0, i as int) =~= new@.columns);
    assert(ops_view(ops@) =~= table_edits(old@, new@));
    ops
}

/// The edits that turn snapshot `old` into snapshot `new`.
pub fn diff(old: &ADB, new: &ADB) -> (ops: Vec<Operation>)
    ensures
        ops_view(ops@) == schema_edits(old@, new@),
{
    let old_tables = old.tables();
    let new_tables = new.tables();
    let mut ops: Vec<Operation> = Vec::new();
    let mut i: usize = 0;
    assert(ops_view(ops@) =~= seq![]);
    while i < new_tables.len()
        invariant
            i <= new_tables.len(),
            tables_view(new_tables@) == new@,
            tables_view(old_tables@) == old@,
            ops_view(ops@) == added_tables(old@, new@.subrange(0, i as int)),
        decreases new_tables.len() - i,
    {
        let t = &new_tables[i];
        proof {
            lemma_prefix_step(new@, i as int);
        }
        if old.get_table(t.name.as_str()).is_none() {
            let op = Operation::AddTable(t.duplicate());
            proof {
                lemma_ops_push(ops@, op);
            }
            ops.push(op);
        }
        i += 1;
    }
    assert(new@.subrange(0, i as int) =~= new@);
    let ghost added = ops_view(ops@);
    let mut i: usize = 0;
    assert(ops_view(ops@) =~= added + seq![]);
    while i < old_tables.len()
        invariant
            i <= old_tables.len(),
            tables_view(new_tables@) == new@,
            tables_view(old_tables@) == old@,
            ops_view(ops@) == added + removed_tables(old@.subrange(0, i as int), new@),
        decreases old_tables.len() - i,
    {
        let t = &old_tables[i];
        proof {
            lemma_prefix_step(old@, i as int);
        }
        if new.get_table(t.name.as_str()).is_none() {
            let op = Operation::RemoveTable(t.name.clone());
            proof {
                lemma_ops_push(ops@, op);
            }
            ops.push(op);
            assert(ops_view(ops@) =~= added + removed_tables(old@.subrange(0, i + 1), new@));
        }
        i += 1;
    }
    assert(old@.subrange(0, i as int) =~= old@);
    let ghost added_removed = ops_view(ops@);
    let mut i: usize = 0;
    assert(ops_view(ops@) =~= added_removed + seq![]);
    while i < new_tables.len()
        invariant
            i <= new_tables.len(),
            tables_view(new_tables@) == new@,
            tables_view(old_tables@) == old@,
            ops_view(ops@) == added_removed + common_table_edits(old@, new@.subrange(0, i as int)),
        decreases new_tables.len() - i,
    {
        let t = &new_tables[i];
        proof {
            lemma_prefix_step(new@, i as int);
        }
        match old.get_table(t.name.as_str()) {
            Some(ot) => {
                let mut more = diff_table(ot, t);
                let ghost before = ops@;
                ops.append(&mut more);
                assert(ops_view(ops@) =~= ops_view(before) + table_edits(ot@, t@));
                assert(ops_view(ops@) =~= added_removed + common_table_edits(
                    old@,
                    new@.subrange(0, i + 1),
                ));
            },
            None => {},
        }
        i += 1;
    }
    assert(new@.subrange(0, i as int) =~= new@);
    ops
}

proof fn lemma_no_added_cols(old: Seq<AColumnV>, new: Seq<AColumnV>, table: Seq<char>)
    requires
        forall|j: int| 0 <= j < new.len() ==> find_col(old, (#[trigger] new[j]).name) is Some,
    ensures
        added_cols(old, new, table) == Seq::<OperationV>::empty(),
    decreases new.len(),
{
    if new.len() > 0 {
        lemma_no_added_cols(old, new.drop_last(), table);
        assert(new.last() == new[new.len() - 1]);
    }
}

proof fn lemma_no_removed_cols(old: Seq<AColumnV>, new: Seq<AColumnV>, table: Seq<char>)
    requires
        forall|j: int| 0 <= j < old.len() ==> find_col(new, (#[trigger] old[j]).name) is Some,
    ensures
        removed_cols(old, new, table) == Seq::<OperationV>::empty(),
    decreases old.len(),
{
    if old.len() > 0 {
        lemma_no_removed_cols(old.drop_last(), new, table);
        assert(old.last() == old[old.len() - 1]);
    }
}

proof fn lemma_no_changed_cols(old: Seq<AColumnV>, new: Seq<AColumnV>, table: Seq<char>)
    requires
        forall|j: int| 0 <= j < new.len() ==> find_col(old, (#[trigger] new[j]).name) == Some(new[j]),
    ensures
        changed_cols(old, new, table) == Seq::<OperationV>::empty(),
    decreases new.len(),
{
    if new.len() > 0 {
        lemma_no_changed_cols(old, new.drop_last(), table);
        assert(new.last() == new[new.len() - 1]);
    }
}

/// A table with unique column names needs no edits to become itself.
proof fn lemma_table_edits_self(t: ATableV)
    requires
        t.wf(),
    ensures
        table_edits(t, t) == Seq::<OperationV>::empty(),
{
    let cols = t.columns;
    assert forall|j: int| 0 <= j < cols.len() implies find_col(cols, (#[trigger] cols[j]).name) == Some(cols[j]) by {
        assert(col_names(cols)[j] == cols[j].name);
        lemma_first_pos_distinct(col_names(cols), j);
    }
    lemma_no_added_cols(cols, cols, t.name);
    lemma_no_removed_cols(cols, cols, t.name);
    lemma_no_changed_cols(cols, cols, t.name);
}

proof fn lemma_no_added_tables(old: Seq<ATableV>, new: Seq<ATableV>)
    requires
        forall|i: int| 0 <= i < new.len() ==> find_table(old, (#[trigger] new[i]).name) is Some,
    ensures
        added_tables(old, new) == Seq::<OperationV>::empty(),
    decreases new.len(),
{
    if new.len() > 0 {
        lemma_no_added_tables(old, new.drop_last());
        assert(new.last() == new[new.len() - 1]);
    }
}

proof fn lemma_no_removed_tables(old: Seq<ATableV>, new: Seq<ATableV>)
    requires
        forall|i: int| 0 <= i < old.len() ==> find_table(new, (#[trigger] old[i]).name) is Some,
    ensures
        removed_tables(old, new) == Seq::<OperationV>::empty(),
    decreases old.len(),
{
    if old.len() > 0 {
        lemma_no_removed_tables(old.drop_last(), new);
        assert(old.last() == old[old.len() - 1]);
    }
}

proof fn lemma_no_common_edits(old: Seq<ATableV>, new: Seq<ATableV>)
    requires
        forall|i: int| 0 <= i < new.len() ==> find_table(old, (#[trigger] new[i]).name) == Some(new[i]) && new[i].wf(),
    ensures
        common_table_edits(old, new) == Seq::<OperationV>::empty(),
    decreases new.len(),
{
    if new.len() > 0 {
        lemma_no_common_edits(old, new.drop_last());
        let t = new[new.len() - 1];
        assert(new.last() == t);
        lemma_table_edits_self(t);
        assert(Seq::<OperationV>::empty() + Seq::<OperationV>::empty() =~= Seq::<OperationV>::empty());
    }
}

/// Diffing a snapshot against itself yields no edits.
pub proof fn lemma_diff_self(s: Seq<ATableV>)
    requires
        db_wf(s),
    ensures
        schema_edits(s, s) == Seq::<OperationV>::empty(),
{
    assert forall|i: int| 0 <= i < s.len() implies find_table(s, (#[trigger] s[i]).name) == Some(s[i]) by {
        assert(table_names(s)[i] == s[i].name);
        lemma_first_pos_distinct(table_names(s), i);
    }
    lemma_no_added_tables(s, s);
    lemma_no_removed_tables(s, s);
    lemma_no_common_edits(s, s);
    assert(Seq::<OperationV>::empty() + Seq::<OperationV>::empty() + Seq::<OperationV>::empty()
        =~= Seq::<OperationV>::empty());
}

} // verus!
