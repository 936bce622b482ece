use vstd::prelude::*;

use crate::adb::{
    col_names, db_wf, drop_col, find_col, find_table, lemma_put_keeps_distinct, put_col, put_table,
    table_names, AColumnV, ATableV,
};
use crate::diff::{
    added_cols, added_tables, changed_cols, common_table_edits, removed_cols, removed_tables,
    schema_edits, table_edits, OperationV,
};
use crate::seqs::{
    all_distinct, first_pos, lemma_first_pos, lemma_first_pos_at, lemma_first_pos_push,
    lemma_first_pos_remove,
};

verus! {

/// `db` without the table of the given name.
pub open spec fn drop_table(db: Seq<ATableV>, name: Seq<char>) -> Seq<ATableV> {
    let p = first_pos(table_names(db), name);
    if p < db.len() {
        db.remove(p)
    } else {
        db
    }
}

/// The effect of one edit on a snapshot. A column edit on a table that is
/// not there changes nothing.
pub open spec fn apply_op(db: Seq<ATableV>, op: OperationV) -> Seq<ATableV> {
    match op {
        OperationV::AddTable(t) => put_table(db, t),
        OperationV::RemoveTable(n) => drop_table(db, n),
        OperationV::AddColumn(tn, c) => match find_table(db, tn) {
            Some(t) => put_table(db, ATableV { name: tn, columns: put_col(t.columns, c) }),
            None => db,
        },
        OperationV::RemoveColumn(tn, cn) => match find_table(db, tn) {
            Some(t) => put_table(db, ATableV { name: tn, columns: drop_col(t.columns, cn) }),
            None => db,
        },
        OperationV::ChangeColumn(tn, _, c) => match find_table(db, tn) {
            Some(t) => put_table(db, ATableV { name: tn, columns: put_col(t.columns, c) }),
            None => db,
        },
    }
}

/// The effect of a sequence of edits, applied in order.
pub open spec fn apply_ops(db: Seq<ATableV>, ops: Seq<OperationV>) -> Seq<ATableV>
    decreases ops.len(),
{
    if ops.len() == 0 {
        db
    } else {
        apply_op(apply_ops(db, ops.drop_last()), ops.last())
    }
}

/// Two tables hold the same columns, compared in every field.
pub open spec fn same_table(a: ATableV, b: ATableV) -> bool {
    forall|cn: Seq<char>| #[trigger] find_col(a.columns, cn) == find_col(b.columns, cn)
}

/// Two snapshots hold the same tables, and those the same columns, compared
/// in every field; order does not matter.
pub open spec fn same_schema(a: Seq<ATableV>, b: Seq<ATableV>) -> bool {
    forall|n: Seq<char>|
        (#[trigger] find_table(a, n) is Some <==> find_table(b, n) is Some) && (find_table(a, n) is Some
            ==> same_table(find_table(a, n)->Some_0, find_table(b, n)->Some_0))
}

proof fn lemma_apply_push(db: Seq<ATableV>, ops: Seq<OperationV>, op: OperationV)
    ensures
        apply_ops(db, ops.push(op)) == apply_op(apply_ops(db, ops), op),
{
    assert(ops.push(op).drop_last() =~= ops);
}

proof fn lemma_apply_concat(db: Seq<ATableV>, a: Seq<OperationV>, b: Seq<OperationV>)
    ensures
        apply_ops(db, a + b) == apply_ops(apply_ops(db, a), b),
    decreases b.len(),
{
    if b.len() == 0 {
        assert(a + b =~= a);
    } else {
        lemma_apply_concat(db, a, b.drop_last());
        assert((a + b).drop_last() =~= a + b.drop_last());
        assert((a + b).last() == b.last());
    }
}

proof fn lemma_find_table_put(db: Seq<ATableV>, t: ATableV, n: Seq<char>)
    ensures
        find_table(put_table(db, t), n) == if n == t.name {
            Some(t)
        } else {
            find_table(db, n)
        },
{
    let names = table_names(db);
    let p = first_pos(names, t.name);
    lemma_first_pos(names, t.name);
    lemma_first_pos(names, n);
    if p < db.len() {
        assert(table_names(db.update(p, t)) =~= names);
        let q = first_pos(names, n);
        if n != t.name && q < db.len() {
            assert(q != p);
        }
    } else {
        assert(table_names(db.push(t)) =~= names.push(t.name));
        lemma_first_pos_push(names, t.name, n);
    }
}

proof fn lemma_put_table_wf(db: Seq<ATableV>, t: ATableV)
    requires
        db_wf(db),
        t.wf(),
    ensures
        db_wf(put_table(db, t)),
{
    let names = table_names(db);
    let p = first_pos(names, t.name);
    lemma_put_keeps_distinct(names, p, t.name);
    if p < db.len() {
        assert(table_names(db.update(p, t)) =~= names);
    } else {
        assert(table_names(db.push(t)) =~= names.push(t.name));
    }
}

proof fn lemma_find_table_drop(db: Seq<ATableV>, m: Seq<char>, n: Seq<char>)
    requires
        db_wf(db),
    ensures
        find_table(drop_table(db, m), n) == if n == m {
            None
        } else {
            find_table(db, n)
        },
        db_wf(drop_table(db, m)),
{
    let names = table_names(db);
    let p = first_pos(names, m);
    lemma_first_pos(names, m);
    lemma_first_pos(names, n);
    if p < db.len() {
        let d = db.remove(p);
        assert(table_names(d) =~= names.remove(p));
        lemma_first_pos_remove(names, p, n);
        let q = first_pos(names, n);
        if n != m && q > p && q < db.len() {
            assert(d[q - 1] == db[q]);
        }
        assert forall|i: int| 0 <= i < d.len() implies (#[trigger] d[i]).wf() by {
            let i0 = if i < p { i } else { i + 1 };
            assert(d[i] == db[i0]);
        }
    } else if n == m {
    }
}

proof fn lemma_find_col_put(cols: Seq<AColumnV>, c: AColumnV, n: Seq<char>)
    ensures
        find_col(put_col(cols, c), n) == if n == c.name {
            Some(c)
        } else {
            find_col(cols, n)
        },
{
    let names = col_names(cols);
    let p = first_pos(names, c.name);
    lemma_first_pos(names, c.name);
    lemma_first_pos(names, n);
    if p < cols.len() {
        assert(col_names(cols.update(p, c)) =~= names);
        let q = first_pos(names, n);
        if n != c.name && q < cols.len() {
            assert(q != p);
        }
    } else {
        assert(col_names(cols.push(c)) =~= names.push(c.name));
        lemma_first_pos_push(names, c.name, n);
    }
}

proof fn lemma_put_col_wf(cols: Seq<AColumnV>, c: AColumnV)
    requires
        all_distinct(col_names(cols)),
    ensures
        all_distinct(col_names(put_col(cols, c))),
{
    let names = col_names(cols);
    let p = first_pos(names, c.name);
    lemma_put_keeps_distinct(names, p, c.name);
    if p < cols.len() {
        assert(col_names(cols.update(p, c)) =~= names);
    } else {
        assert(col_names(cols.push(c)) =~= names.push(c.name));
    }
}

proof fn lemma_find_col_drop(cols: Seq<AColumnV>, m: Seq<char>, n: Seq<char>)
    requires
        all_distinct(col_names(cols)),
    ensures
        find_col(drop_col(cols, m), n) == if n == m {
            None
        } else {
            find_col(cols, n)
        },
        all_distinct(col_names(drop_col(cols, m))),
{
    let names = col_names(cols);
    let p = first_pos(names, m);
    lemma_first_pos(names, m);
    lemma_first_pos(names, n);
    if p < cols.len() {
        let d = cols.remove(p);
        assert(col_names(d) =~= names.remove(p));
        lemma_first_pos_remove(names, p, n);
        let q = first_pos(names, n);
        if n != m && q > p && q < cols.len() {
            assert(d[q - 1] == cols[q]);
        }
    }
}

proof fn lemma_last_table(pre: Seq<ATableV>)
    requires
        pre.len() > 0,
    ensures
        forall|n: Seq<char>| #[trigger] find_table(pre, n) == if find_table(pre.drop_last(), n) is Some {
            find_table(pre.drop_last(), n)
        } else if pre.last().name == n {
            Some(pre.last())
        } else {
            None::<ATableV>
        },
        db_wf(pre) ==> db_wf(pre.drop_last()) && find_table(pre.drop_last(), pre.last().name) is None,
{
    let s = pre.drop_last();
    let t = pre.last();
    assert(pre =~= s.push(t));
    assert(table_names(pre) =~= table_names(s).push(t.name));
    assert forall|n: Seq<char>| #[trigger] find_table(pre, n) == if find_table(s, n) is Some {
        find_table(s, n)
    } else if t.name == n {
        Some(t)
    } else {
        None::<ATableV>
    } by {
        lemma_first_pos_push(table_names(s), t.name, n);
        lemma_first_pos(table_names(s), n);
    }
    if db_wf(pre) {
        assert(table_names(s) =~= table_names(pre).drop_last());
        assert forall|i: int| 0 <= i < s.len() implies (#[trigger] s[i]).wf() by {
            assert(s[i] == pre[i]);
        }
        assert forall|j: int| 0 <= j < s.len() implies table_names(s)[j] != t.name by {
            assert(table_names(pre)[j] == table_names(s)[j]);
            assert(table_names(pre)[pre.len() - 1] == t.name);
        }
        lemma_first_pos_at(table_names(s), t.name, s.len() as int);
    }
}

proof fn lemma_last_col(pre: Seq<AColumnV>)
    requires
        pre.len() > 0,
    ensures
        forall|n: Seq<char>| #[trigger] find_col(pre, n) == if find_col(pre.drop_last(), n) is Some {
            find_col(pre.drop_last(), n)
        } else if pre.last().name == n {
            Some(pre.last())
        } else {
            None::<AColumnV>
        },
        all_distinct(col_names(pre)) ==> all_distinct(col_names(pre.drop_last())) && find_col(
            pre.drop_last(),
            pre.last().name,
        ) is None,
{
    let s = pre.drop_last();
    let t = pre.last();
    assert(pre =~= s.push(t));
    assert(col_names(pre) =~= col_names(s).push(t.name));
    assert forall|n: Seq<char>| #[trigger] find_col(pre, n) == if find_col(s, n) is Some {
        find_col(s, n)
    } else if t.name == n {
        Some(t)
    } else {
        None::<AColumnV>
    } by {
        lemma_first_pos_push(col_names(s), t.name, n);
        lemma_first_pos(col_names(s), n);
    }
    if all_distinct(col_names(pre)) {
        assert(col_names(s) =~= col_names(pre).drop_last());
        assert forall|j: int| 0 <= j < s.len() implies col_names(s)[j] != t.name by {
            assert(col_names(pre)[j] == col_names(s)[j]);
            assert(col_names(pre)[pre.len() - 1] == t.name);
        }
        lemma_first_pos_at(col_names(s), t.name, s.len() as int);
    }
}

proof fn lemma_found_wf(db: Seq<ATableV>, n: Seq<char>)
    requires
        db_wf(db),
        find_table(db, n) is Some,
    ensures
        find_table(db, n)->Some_0.wf(),
        find_table(db, n)->Some_0.name == n,
{
    lemma_first_pos(table_names(db), n);
    let p = first_pos(table_names(db), n);
    assert(db[p].wf());
}

proof fn lemma_replay_added_tables(old: Seq<ATableV>, pre: Seq<ATableV>)
    requires
        db_wf(old),
        db_wf(pre),
    ensures
        db_wf(apply_ops(old, added_tables(old, pre))),
        forall|n: Seq<char>| #[trigger] find_table(apply_ops(old, added_tables(old, pre)), n) == if find_table(old, n) is Some {
            find_table(old, n)
        } else {
            find_table(pre, n)
        },
    decreases pre.len(),
{
    if pre.len() > 0 {
        let s = pre.drop_last();
        let t = pre.last();
        lemma_last_table(pre);
        lemma_replay_added_tables(old, s);
        let d0 = apply_ops(old, added_tables(old, s));
        if find_table(old, t.name) is None {
            lemma_apply_push(old, added_tables(old, s), OperationV::AddTable(t));
            assert(pre[pre.len() - 1] == t);
            lemma_put_table_wf(d0, t);
            assert forall|n: Seq<char>| #[trigger] find_table(put_table(d0, t), n) == if find_table(old, n) is Some {
                find_table(old, n)
            } else {
                find_table(pre, n)
            } by {
                lemma_find_table_put(d0, t, n);
            }
        }
    }
}

proof fn lemma_replay_removed_tables(d: Seq<ATableV>, pre: Seq<ATableV>, new: Seq<ATableV>)
    requires
        db_wf(d),
    ensures
        db_wf(apply_ops(d, removed_tables(pre, new))),
        forall|n: Seq<char>| #[trigger] find_table(apply_ops(d, removed_tables(pre, new)), n) == if find_table(pre, n) is Some && find_table(new, n) is None {
            None
        } else {
            find_table(d, n)
        },
    decreases pre.len(),
{
    if pre.len() > 0 {
        let s = pre.drop_last();
        let t = pre.last();
        lemma_last_table(pre);
        lemma_replay_removed_tables(d, s, new);
        let d0 = apply_ops(d, removed_tables(s, new));
        if find_table(new, t.name) is None {
            lemma_apply_push(d, removed_tables(s, new), OperationV::RemoveTable(t.name));
            lemma_find_table_drop(d0, t.name, t.name);
            assert forall|n: Seq<char>| #[trigger] find_table(drop_table(d0, t.name), n) == if find_table(pre, n) is Some && find_table(new, n) is None {
                None
            } else {
                find_table(d, n)
            } by {
                lemma_find_table_drop(d0, t.name, n);
            }
        }
    }
}

/// The table named `tn` in `db`.
pub open spec fn table_of(db: Seq<ATableV>, tn: Seq<char>) -> ATableV {
    find_table(db, tn)->Some_0
}

proof fn lemma_replay_added_cols(d: Seq<ATableV>, tn: Seq<char>, oc: Seq<AColumnV>, pre: Seq<AColumnV>)
    requires
        db_wf(d),
        find_table(d, tn) is Some,
        table_of(d, tn).columns == oc,
        all_distinct(col_names(pre)),
    ensures
        db_wf(apply_ops(d, added_cols(oc, pre, tn))),
        find_table(apply_ops(d, added_cols(oc, pre, tn)), tn) is Some,
        forall|cn: Seq<char>| #[trigger] find_col(table_of(apply_ops(d, added_cols(oc, pre, tn)), tn).columns, cn) == if find_col(oc, cn) is Some {
            find_col(oc, cn)
        } else {
            find_col(pre, cn)
        },
        forall|n: Seq<char>| n != tn ==> #[trigger] find_table(apply_ops(d, added_cols(oc, pre, tn)), n) == find_table(d, n),
    decreases pre.len(),
{
    if pre.len() > 0 {
        let s = pre.drop_last();
        let c = pre.last();
        lemma_last_col(pre);
        lemma_replay_added_cols(d, tn, oc, s);
        let d0 = apply_ops(d, added_cols(oc, s, tn));
        if find_col(oc, c.name) is None {
            lemma_apply_push(d, added_cols(oc, s, tn), OperationV::AddColumn(tn, c));
            let t0 = table_of(d0, tn);
            let t1 = ATableV { name: tn, columns: put_col(t0.columns, c) };
            lemma_found_wf(d0, tn);
            lemma_put_col_wf(t0.columns, c);
            lemma_put_table_wf(d0, t1);
            lemma_find_table_put(d0, t1, tn);
            assert forall|cn: Seq<char>| #[trigger] find_col(t1.columns, cn) == if find_col(oc, cn) is Some {
                find_col(oc, cn)
            } else {
                find_col(pre, cn)
            } by {
                lemma_find_col_put(t0.columns, c, cn);
            }
            assert forall|n: Seq<char>| n != tn implies #[trigger] find_table(put_table(d0, t1), n) == find_table(d, n) by {
                lemma_find_table_put(d0, t1, n);
            }
        }
    }
}

proof fn lemma_replay_removed_cols(d: Seq<ATableV>, tn: Seq<char>, pre: Seq<AColumnV>, nc: Seq<AColumnV>)
    requires
        db_wf(d),
        find_table(d, tn) is Some,
    ensures
        db_wf(apply_ops(d, removed_cols(pre, nc, tn))),
        find_table(apply_ops(d, removed_cols(pre, nc, tn)), tn) is Some,
        forall|cn: Seq<char>| #[trigger] find_col(table_of(apply_ops(d, removed_cols(pre, nc, tn)), tn).columns, cn) == if find_col(pre, cn) is Some && find_col(nc, cn) is None {
            None
        } else {
            find_col(table_of(d, tn).columns, cn)
        },
        forall|n: Seq<char>| n != tn ==> #[trigger] find_table(apply_ops(d, removed_cols(pre, nc, tn)), n) == find_table(d, n),
    decreases pre.len(),
{
    if pre.len() > 0 {
        let s = pre.drop_last();
        let c = pre.last();
        lemma_last_col(pre);
        lemma_replay_removed_cols(d, tn, s, nc);
        let d0 = apply_ops(d, removed_cols(s, nc, tn));
        if find_col(nc, c.name) is None {
            lemma_apply_push(d, removed_cols(s, nc, tn), OperationV::RemoveColumn(tn, c.name));
            let t0 = table_of(d0, tn);
            let t1 = ATableV { name: tn, columns: drop_col(t0.columns, c.name) };
            lemma_found_wf(d0, tn);
            lemma_find_col_drop(t0.columns, c.name, c.name);
            lemma_put_table_wf(d0, t1);
            lemma_find_table_put(d0, t1, tn);
            assert forall|cn: Seq<char>| #[trigger] find_col(t1.columns, cn) == if find_col(pre, cn) is Some && find_col(nc, cn) is None {
                None
            } else {
                find_col(table_of(d, tn).columns, cn)
            } by {
                lemma_find_col_drop(t0.columns, c.name, cn);
            }
            assert forall|n: Seq<char>| n != tn implies #[trigger] find_table(put_table(d0, t1), n) == find_table(d, n) by {
                lemma_find_table_put(d0, t1, n);
            }
        }
    }
}

proof fn lemma_replay_changed_cols(d: Seq<ATableV>, tn: Seq<char>, oc: Seq<AColumnV>, pre: Seq<AColumnV>)
    requires
        db_wf(d),
        find_table(d, tn) is Some,
        all_distinct(col_names(pre)),
    ensures
        db_wf(apply_ops(d, changed_cols(oc, pre, tn))),
        find_table(apply_ops(d, changed_cols(oc, pre, tn)), tn) is Some,
        forall|cn: Seq<char>| #[trigger] find_col(table_of(apply_ops(d, changed_cols(oc, pre, tn)), tn).columns, cn) == if find_col(pre, cn) is Some && find_col(oc, cn) is Some && find_col(oc, cn) != find_col(pre, cn) {
            find_col(pre, cn)
        } else {
            find_col(table_of(d, tn).columns, cn)
        },
        forall|n: Seq<char>| n != tn ==> #[trigger] find_table(apply_ops(d, changed_cols(oc, pre, tn)), n) == find_table(d, n),
    decreases pre.len(),
{
    if pre.len() > 0 {
        let s = pre.drop_last();
        let c = pre.last();
        lemma_last_col(pre);
        lemma_replay_changed_cols(d, tn, oc, s);
        let d0 = apply_ops(d, changed_cols(oc, s, tn));
        if find_col(oc, c.name) is Some && find_col(oc, c.name)->Some_0 != c {
            let o = find_col(oc, c.name)->Some_0;
            lemma_apply_push(d, changed_cols(oc, s, tn), OperationV::ChangeColumn(tn, o, c));
            let t0 = table_of(d0, tn);
            let t1 = ATableV { name: tn, columns: put_col(t0.columns, c) };
            lemma_found_wf(d0, tn);
            lemma_put_col_wf(t0.columns, c);
            lemma_put_table_wf(d0, t1);
            lemma_find_table_put(d0, t1, tn);
            assert forall|cn: Seq<char>| #[trigger] find_col(t1.columns, cn) == if find_col(pre, cn) is Some && find_col(oc, cn) is Some && find_col(oc, cn) != find_col(pre, cn) {
                find_col(pre, cn)
            } else {
                find_col(table_of(d, tn).columns, cn)
            } by {
                lemma_find_col_put(t0.columns, c, cn);
            }
            assert forall|n: Seq<char>| n != tn implies #[trigger] find_table(put_table(d0, t1), n) == find_table(d, n) by {
                lemma_find_table_put(d0, t1, n);
            }
        } else {
            assert(changed_cols(oc, pre, tn) == changed_cols(oc, s, tn));
        }
    }
}

proof fn lemma_replay_table(d: Seq<ATableV>, ot: ATableV, t: ATableV)
    requires
        db_wf(d),
        find_table(d, t.name) == Some(ot),
        ot.name == t.name,
        ot.wf(),
        t.wf(),
    ensures
        db_wf(apply_ops(d, table_edits(ot, t))),
        find_table(apply_ops(d, table_edits(ot, t)), t.name) is Some,
        same_table(table_of(apply_ops(d, table_edits(ot, t)), t.name), t),
        forall|n: Seq<char>| n != t.name ==> #[trigger] find_table(apply_ops(d, table_edits(ot, t)), n) == find_table(d, n),
{
    let tn = t.name;
    let a = added_cols(ot.columns, t.columns, tn);
    let r = removed_cols(ot.columns, t.columns, tn);
    let c = changed_cols(ot.columns, t.columns, tn);
    lemma_apply_concat(d, a + r, c);
    lemma_apply_concat(d, a, r);
    lemma_replay_added_cols(d, tn, ot.columns, t.columns);
    let d1 = apply_ops(d, a);
    lemma_replay_removed_cols(d1, tn, ot.columns, t.columns);
    let d2 = apply_ops(d1, r);
    lemma_replay_changed_cols(d2, tn, ot.columns, t.columns);
    let d3 = apply_ops(d2, c);
    assert(apply_ops(d, table_edits(ot, t)) == d3);
    assert forall|cn: Seq<char>| #[trigger] find_col(table_of(d3, tn).columns, cn) == find_col(t.columns, cn) by {
        assert(find_col(table_of(d2, tn).columns, cn) == find_col(table_of(d1, tn).columns, cn) || (find_col(ot.columns, cn) is Some && find_col(t.columns, cn) is None));
    }
}

proof fn lemma_replay_common(d: Seq<ATableV>, old: Seq<ATableV>, pre: Seq<ATableV>)
    requires
        db_wf(d),
        db_wf(old),
        db_wf(pre),
        forall|n: Seq<char>| #[trigger] find_table(pre, n) is Some && find_table(old, n) is Some ==> find_table(d, n) == find_table(old, n),
    ensures
        db_wf(apply_ops(d, common_table_edits(old, pre))),
        forall|n: Seq<char>| find_table(pre, n) is Some && find_table(old, n) is Some ==> #[trigger] find_table(apply_ops(d, common_table_edits(old, pre)), n) is Some && same_table(table_of(apply_ops(d, common_table_edits(old, pre)), n), table_of(pre, n)),
        forall|n: Seq<char>| !(find_table(pre, n) is Some && find_table(old, n) is Some) ==> #[trigger] find_table(apply_ops(d, common_table_edits(old, pre)), n) == find_table(d, n),
    decreases pre.len(),
{
    if pre.len() > 0 {
        let s = pre.drop_last();
        let t = pre.last();
        lemma_last_table(pre);
        assert forall|n: Seq<char>| #[trigger] find_table(s, n) is Some && find_table(old, n) is Some implies find_table(d, n) == find_table(old, n) by {
            assert(find_table(pre, n) is Some);
        }
        lemma_replay_common(d, old, s);
        let d0 = apply_ops(d, common_table_edits(old, s));
        assert(pre[pre.len() - 1] == t);
        assert(find_table(pre, t.name) == Some(t));
        if find_table(old, t.name) is Some {
            let ot = table_of(old, t.name);
            lemma_found_wf(old, t.name);
            lemma_apply_concat(d, common_table_edits(old, s), table_edits(ot, t));
            assert(find_table(d0, t.name) == find_table(d, t.name));
            lemma_replay_table(d0, ot, t);
            let e = apply_ops(d0, table_edits(ot, t));
            assert(apply_ops(d, common_table_edits(old, pre)) == e);
            assert forall|n: Seq<char>| find_table(pre, n) is Some && find_table(old, n) is Some implies #[trigger] find_table(e, n) is Some && same_table(table_of(e, n), table_of(pre, n)) by {
                if n != t.name {
                    assert(find_table(e, n) == find_table(d0, n));
                    assert(find_table(s, n) == find_table(pre, n));
                }
            }
            assert forall|n: Seq<char>| !(find_table(pre, n) is Some && find_table(old, n) is Some) implies #[trigger] find_table(e, n) == find_table(d, n) by {
                assert(find_table(e, n) == find_table(d0, n));
            }
        } else {
            assert(common_table_edits(old, pre) == common_table_edits(old, s));
            assert forall|n: Seq<char>| find_table(pre, n) is Some && find_table(old, n) is Some implies #[trigger] find_table(d0, n) is Some && same_table(table_of(d0, n), table_of(pre, n)) by {
                assert(find_table(s, n) == find_table(pre, n));
            }
        }
    }
}

/// Replaying the edits that `diff` finds between two snapshots on the first
/// one gives the second: the same tables, holding the same columns, equal in
/// every field.
pub proof fn lemma_replay_diff(old: Seq<ATableV>, new: Seq<ATableV>)
    requires
        db_wf(old),
        db_wf(new),
    ensures
        same_schema(apply_ops(old, schema_edits(old, new)), new),
{
    let a = added_tables(old, new);
    let r = removed_tables(old, new);
    let c = common_table_edits(old, new);
    lemma_apply_concat(old, a + r, c);
    lemma_apply_concat(old, a, r);
    lemma_replay_added_tables(old, new);
    let d1 = apply_ops(old, a);
    lemma_replay_removed_tables(d1, old, new);
    let d2 = apply_ops(d1, r);
    lemma_replay_common(d2, old, new);
    let d3 = apply_ops(d2, c);
    assert(apply_ops(old, schema_edits(old, new)) == d3);
    assert forall|n: Seq<char>| (#[trigger] find_table(d3, n) is Some <==> find_table(new, n) is Some) && (find_table(d3, n) is Some ==> same_table(find_table(d3, n)->Some_0, find_table(new, n)->Some_0)) by {
        if find_table(new, n) is Some && find_table(old, n) is Some {
        } else {
            assert(find_table(d3, n) == find_table(d2, n));
        }
    }
}

} // verus!
