use vstd::prelude::*;
use vstd::string::StringExecFns;

use crate::seqs::{all_distinct, first_pos, lemma_first_pos, lemma_first_pos_at, lemma_first_pos_distinct};
use crate::replay::drop_table;
use crate::types::{Error, SqlType, SqlVal, SqlValV};

verus! {

/// Names a type that is not known where it is used.
#[derive(Clone, Debug, PartialEq, Eq, Hash)]
pub enum TypeKey {
    /// The type of the primary key of the table with the given name.
    PK(String),
}

impl View for TypeKey {
    /// The name of the table whose primary-key type is meant.
    type V = Seq<char>;

    open spec fn view(&self) -> Seq<char> {
        match self {
            TypeKey::PK(s) => s@,
        }
    }
}

/// How a key is written in messages: `PK(<table>)`.
pub open spec fn key_text(table: Seq<char>) -> Seq<char> {
    "PK("@ + table + ")"@
}

impl TypeKey {
    pub fn as_ref(&self) -> (r: &str)
        ensures
            r@ == self@,
    {
        match self {
            TypeKey::PK(s) => s.as_str(),
        }
    }

    pub fn same_key(&self, other: &TypeKey) -> (r: bool)
        ensures
            r == (self@ == other@),
    {
        match (self, other) {
            (TypeKey::PK(a), TypeKey::PK(b)) => *a == *b,
        }
    }

    pub fn duplicate(&self) -> (r: TypeKey)
        ensures
            r@ == self@,
    {
        match self {
            TypeKey::PK(s) => TypeKey::PK(s.clone()),
        }
    }

    /// The key as text, `PK(<table>)`.
    pub fn to_string(&self) -> (r: String)
        ensures
            r@ == key_text(self@),
    {
        let mut r = String::from_str("PK(");
        r.append(self.as_ref());
        r.append(")");
        r
    }
}

/// What was learnt of deferred types: each key is recorded at most once,
/// and the first type recorded for it stays.
pub struct TypeResolver {
    entries: Vec<(TypeKey, SqlType)>,
}

pub open spec fn lookup_in(e: Seq<(TypeKey, SqlType)>, k: Seq<char>) -> Option<SqlType>
    decreases e.len(),
{
    if e.len() == 0 {
        None
    } else if e.last().0@ == k {
        Some(e.last().1)
    } else {
        lookup_in(e.drop_last(), k)
    }
}

impl TypeResolver {
    /// The type recorded for key `k`, if any.
    pub closed spec fn lookup(&self, k: Seq<char>) -> Option<SqlType> {
        lookup_in(self.entries@, k)
    }

    pub fn new() -> (r: TypeResolver)
        ensures
            forall|k: Seq<char>| r.lookup(k) is None,
    {
        TypeResolver { entries: Vec::new() }
    }

    pub fn find_type(&self, key: &TypeKey) -> (r: Option<SqlType>)
        ensures
            r == self.lookup(key@),
    {
        let mut i: usize = self.entries.len();
        assert(self.entries@.subrange(0, i as int) =~= self.entries@);
        while i > 0
            invariant
                i <= self.entries.len(),
                lookup_in(self.entries@, key@) == lookup_in(self.entries@.subrange(0, i as int), key@),
            decreases i,
        {
            if self.entries[i - 1].0.same_key(key) {
                return Some(self.entries[i - 1].1);
            }
            assert(self.entries@.subrange(0, i as int).drop_last() =~= self.entries@.subrange(0, i - 1));
            i -= 1;
        }
        None
    }

    /// Records `ty` for `key` unless `key` is known already; tells whether it was new.
    pub fn insert(&mut self, key: TypeKey, ty: SqlType) -> (r: bool)
        ensures
            r == (old(self).lookup(key@) is None),
            forall|k: Seq<char>| #[trigger] final(self).lookup(k) == (if r && k == key@ {
                Some(ty)
            } else {
                old(self).lookup(k)
            }),
    {
        if self.find_type(&key).is_some() {
            false
        } else {
            self.entries.push((key, ty));
            assert(self.entries@.drop_last() =~= old(self).entries@);
            true
        }
    }

    /// Records `ty` as the primary-key type of the named table.
    pub fn insert_pk(&mut self, table: &str, ty: SqlType) -> (r: bool)
        ensures
            r == (old(self).lookup(table@) is None),
            forall|k: Seq<char>| #[trigger] final(self).lookup(k) == (if r && k == table@ {
                Some(ty)
            } else {
                old(self).lookup(k)
            }),
    {
        self.insert(TypeKey::PK(String::from_str(table)), ty)
    }
}

/// A column type: known, or given as the type of some key.
#[derive(Clone, Debug, PartialEq, Eq, Hash)]
pub enum DeferredSqlType {
    Known(SqlType),
    Deferred(TypeKey),
}

pub enum DeferredSqlTypeV {
    Known(SqlType),
    Deferred(Seq<char>),
}

impl View for DeferredSqlType {
    type V = DeferredSqlTypeV;

    open spec fn view(&self) -> DeferredSqlTypeV {
        match self {
            DeferredSqlType::Known(t) => DeferredSqlTypeV::Known(*t),
            DeferredSqlType::Deferred(k) => DeferredSqlTypeV::Deferred(k@),
        }
    }
}

impl DeferredSqlType {
    pub fn duplicate(&self) -> (r: DeferredSqlType)
        ensures
            r@ == self@,
    {
        match self {
            DeferredSqlType::Known(t) => DeferredSqlType::Known(*t),
            DeferredSqlType::Deferred(k) => DeferredSqlType::Deferred(k.duplicate()),
        }
    }

    pub fn same_type(&self, other: &DeferredSqlType) -> (r: bool)
        ensures
            r == (self@ == other@),
    {
        match self {
            DeferredSqlType::Known(a) => match other {
                DeferredSqlType::Known(b) => *a == *b,
                _ => false,
            },
            DeferredSqlType::Deferred(a) => match other {
                DeferredSqlType::Deferred(b) => a.same_key(b),
                _ => false,
            },
        }
    }

    /// The type, looked up in `resolver` where it is deferred.
    pub fn resolve(&self, resolver: &TypeResolver) -> (r: Result<SqlType, Error>)
        ensures
            match self@ {
                DeferredSqlTypeV::Known(t) => r == Ok::<SqlType, Error>(t),
                DeferredSqlTypeV::Deferred(k) => match resolver.lookup(k) {
                    Some(t) => r == Ok::<SqlType, Error>(t),
                    None => r matches Err(Error::UnknownSqlType { ty }) && ty@ == key_text(k),
                },
            },
    {
        match self {
            DeferredSqlType::Known(t) => Ok(*t),
            DeferredSqlType::Deferred(key) => match resolver.find_type(key) {
                Some(t) => Ok(t),
                None => Err(Error::UnknownSqlType { ty: key.to_string() }),
            },
        }
    }
}

pub open spec fn opt_val_view(v: Option<SqlVal>) -> Option<SqlValV> {
    match v {
        Some(x) => Some(x@),
        None => None,
    }
}

/// A column of a table.
#[derive(Clone, Debug)]
pub struct AColumn {
    name: String,
    sqltype: DeferredSqlType,
    nullable: bool,
    pk: bool,
    default: Option<SqlVal>,
}

pub struct AColumnV {
    pub name: Seq<char>,
    pub sqltype: DeferredSqlTypeV,
    pub nullable: bool,
    pub pk: bool,
    pub default: Option<SqlValV>,
}

impl View for AColumn {
    type V = AColumnV;

    closed spec fn view(&self) -> AColumnV {
        AColumnV {
            name: self.name@,
            sqltype: self.sqltype@,
            nullable: self.nullable,
            pk: self.pk,
            default: opt_val_view(self.default),
        }
    }
}

fn copy_default(v: &Option<SqlVal>) -> (r: Option<SqlVal>)
    ensures
        opt_val_view(r) == opt_val_view(*v),
{
    match v {
        Some(x) => Some(x.duplicate()),
        None => None,
    }
}

impl AColumn {
    pub fn new(
        name: &str,
        sqltype: DeferredSqlType,
        nullable: bool,
        pk: bool,
        default: Option<SqlVal>,
    ) -> (r: AColumn)
        ensures
            r@ == (AColumnV {
                name: name@,
                sqltype: sqltype@,
                nullable,
                pk,
                default: opt_val_view(default),
            }),
    {
        AColumn { name: String::from_str(name), sqltype, nullable, pk, default }
    }

    pub fn name(&self) -> (r: &str)
        ensures
            r@ == self@.name,
    {
        self.name.as_str()
    }

    pub fn nullable(&self) -> (r: bool)
        ensures
            r == self@.nullable,
    {
        self.nullable
    }

    pub fn is_pk(&self) -> (r: bool)
        ensures
            r == self@.pk,
    {
        self.pk
    }

    /// The column's type; an error where it is still deferred.
    pub fn sqltype(&self) -> (r: Result<SqlType, Error>)
        ensures
            match self@.sqltype {
                DeferredSqlTypeV::Known(t) => r == Ok::<SqlType, Error>(t),
                DeferredSqlTypeV::Deferred(k) => r matches Err(Error::UnknownSqlType { ty }) && ty@
                    == key_text(k),
            },
    {
        match &self.sqltype {
            DeferredSqlType::Known(t) => Ok(*t),
            DeferredSqlType::Deferred(k) => Err(Error::UnknownSqlType { ty: k.to_string() }),
        }
    }

    pub fn default(&self) -> (r: &Option<SqlVal>)
        ensures
            opt_val_view(*r) == self@.default,
    {
        &self.default
    }

    /// Replaces a deferred type by the type `resolver` records for its key;
    /// tells whether it did.
    pub fn resolve_type(&mut self, resolver: &TypeResolver) -> (progress: bool)
        ensures
            progress == (old(self)@.sqltype is Deferred && resolver.lookup(
                old(self)@.sqltype->Deferred_0,
            ) is Some),
            final(self)@ == (if progress {
                AColumnV {
                    sqltype: DeferredSqlTypeV::Known(
                        resolver.lookup(old(self)@.sqltype->Deferred_0)->Some_0,
                    ),
                    ..old(self)@
                }
            } else {
                old(self)@
            }),
    {
        let found = match &self.sqltype {
            DeferredSqlType::Known(_) => None,
            DeferredSqlType::Deferred(k) => resolver.find_type(k),
        };
        match found {
            Some(t) => {
                self.sqltype = DeferredSqlType::Known(t);
                true
            },
            None => false,
        }
    }

    pub fn duplicate(&self) -> (r: AColumn)
        ensures
            r@ == self@,
    {
        AColumn {
            name: self.name.clone(),
            sqltype: self.sqltype.duplicate(),
            nullable: self.nullable,
            pk: self.pk,
            default: copy_default(&self.default),
        }
    }

    /// Whether two columns agree in every field: name, type, nullability,
    /// primary-key flag and default.
    pub fn same_structure(&self, other: &AColumn) -> (r: bool)
        ensures
            r == (self@ == other@),
    {
        if self.name != other.name || !self.sqltype.same_type(&other.sqltype) || self.nullable
            != other.nullable || self.pk != other.pk {
            return false;
        }
        match &self.default {
            None => match &other.default {
                None => true,
                Some(_) => false,
            },
            Some(a) => match &other.default {
                None => false,
                Some(b) => a.same_value(b),
            },
        }
    }
}

pub open spec fn col_names(cols: Seq<AColumnV>) -> Seq<Seq<char>> {
    cols.map_values(|c: AColumnV| c.name)
}

pub open spec fn col_pks(cols: Seq<AColumnV>) -> Seq<bool> {
    cols.map_values(|c: AColumnV| c.pk)
}

/// The column of the given name.
pub open spec fn find_col(cols: Seq<AColumnV>, name: Seq<char>) -> Option<AColumnV> {
    let p = first_pos(col_names(cols), name);
    if p < cols.len() {
        Some(cols[p])
    } else {
        None
    }
}

/// `cols` with `c` in place of the column of the same name, or `c` added last.
pub open spec fn put_col(cols: Seq<AColumnV>, c: AColumnV) -> Seq<AColumnV> {
    let p = first_pos(col_names(cols), c.name);
    if p < cols.len() {
        cols.update(p, c)
    } else {
        cols.push(c)
    }
}

/// `cols` without the column of the given name.
pub open spec fn drop_col(cols: Seq<AColumnV>, name: Seq<char>) -> Seq<AColumnV> {
    let p = first_pos(col_names(cols), name);
    if p < cols.len() {
        cols.remove(p)
    } else {
        cols
    }
}

/// The primary-key column: the first column with the primary-key flag.
pub open spec fn pk_col(cols: Seq<AColumnV>) -> Option<AColumnV> {
    let p = first_pos(col_pks(cols), true);
    if p < cols.len() {
        Some(cols[p])
    } else {
        None
    }
}

pub proof fn lemma_put_keeps_distinct(names: Seq<Seq<char>>, p: int, n: Seq<char>)
    requires
        all_distinct(names),
        p == first_pos(names, n),
    ensures
        0 <= p <= names.len(),
        p < names.len() ==> names.update(p, n) =~= names,
        p == names.len() ==> all_distinct(names.push(n)),
{
    lemma_first_pos(names, n);
    if p < names.len() {
        assert(names.update(p, n) =~= names);
    }
}

proof fn lemma_remove_keeps_distinct(names: Seq<Seq<char>>, p: int)
    requires
        all_distinct(names),
        0 <= p < names.len(),
    ensures
        all_distinct(names.remove(p)),
{
    let r = names.remove(p);
    assert forall|i: int, j: int| 0 <= i < j < r.len() implies r[i] != r[j] by {
        let i0 = if i < p { i } else { i + 1 };
        let j0 = if j < p { j } else { j + 1 };
        assert(r[i] == names[i0] && r[j] == names[j0]);
    }
}

/// A table: a name and columns, told apart by name.
#[derive(Clone, Debug)]
pub struct ATable {
    pub name: String,
    pub columns: Vec<AColumn>,
}

pub struct ATableV {
    pub name: Seq<char>,
    pub columns: Seq<AColumnV>,
}

impl ATableV {
    /// Column names are unique.
    pub open spec fn wf(self) -> bool {
        all_distinct(col_names(self.columns))
    }
}

impl View for ATable {
    type V = ATableV;

    open spec fn view(&self) -> ATableV {
        ATableV { name: self.name@, columns: self.columns@.map_values(|c: AColumn| c@) }
    }
}

impl ATable {
    fn column_pos(&self, name: &String) -> (p: usize)
        ensures
            p == first_pos(col_names(self@.columns), name@),
    {
        let mut i: usize = 0;
        while i < self.columns.len()
            invariant
                i <= self.columns.len(),
                forall|j: int| 0 <= j < i ==> col_names(self@.columns)[j] != name@,
            decreases self.columns.len() - i,
        {
            if self.columns[i].name == *name {
                proof {
                    lemma_first_pos_at(col_names(self@.columns), name@, i as int);
                }
                return i;
            }
            i += 1;
        }
        proof {
            lemma_first_pos_at(col_names(self@.columns), name@, i as int);
        }
        i
    }

    pub fn get_column(&self, name: &str) -> (r: Option<&AColumn>)
        ensures
            match r {
                Some(c) => find_col(self@.columns, name@) == Some(c@),
                None => find_col(self@.columns, name@) is None,
            },
    {
        let p = self.column_pos(&String::from_str(name));
        if p < self.columns.len() {
            Some(&self.columns[p])
        } else {
            None
        }
    }

    /// Puts `col` in place of the column of the same name, or adds it.
    pub fn replace_column(&mut self, col: AColumn)
        requires
            old(self)@.wf(),
        ensures
            final(self)@.wf(),
            final(self)@ == (ATableV {
                name: old(self)@.name,
                columns: put_col(old(self)@.columns, col@),
            }),
    {
        let p = self.column_pos(&col.name);
        proof {
            lemma_put_keeps_distinct(col_names(self@.columns), p as int, col@.name);
        }
        if p < self.columns.len() {
            self.columns[p] = col;
            assert(self@.columns =~= old(self)@.columns.update(p as int, col@));
            assert(col_names(self@.columns) =~= col_names(old(self)@.columns).update(p as int, col@.name));
            assert(all_distinct(col_names(self@.columns)));
        } else {
            self.columns.push(col);
            assert(self@.columns =~= old(self)@.columns.push(col@));
            assert(col_names(self@.columns) =~= col_names(old(self)@.columns).push(col@.name));
            assert(all_distinct(col_names(self@.columns)));
        }
    }

    /// Removes the column of the given name, where there is one.
    pub fn remove_column(&mut self, name: &str)
        requires
            old(self)@.wf(),
        ensures
            final(self)@.wf(),
            final(self)@ == (ATableV {
                name: old(self)@.name,
                columns: drop_col(old(self)@.columns, name@),
            }),
    {
        let p = self.column_pos(&String::from_str(name));
        if p < self.columns.len() {
            self.columns.remove(p);
            proof {
                lemma_remove_keeps_distinct(col_names(old(self)@.columns), p as int);
            }
            assert(col_names(self@.columns) =~= col_names(old(self)@.columns).remove(p as int));
            assert(self@.columns =~= old(self)@.columns.remove(p as int));
        }
    }

    /// The primary-key column; an error naming the table where there is none.
    pub fn get_pk(&self) -> (r: Result<&AColumn, Error>)
        ensures
            match pk_col(self@.columns) {
                Some(c) => r matches Ok(rc) && rc@ == c,
                None => r matches Err(Error::NoPK { table }) && table@ == self@.name,
            },
    {
        let mut i: usize = 0;
        while i < self.columns.len()
            invariant
                i <= self.columns.len(),
                forall|j: int| 0 <= j < i ==> col_pks(self@.columns)[j] != true,
            decreases self.columns.len() - i,
        {
            if self.columns[i].pk {
                proof {
                    lemma_first_pos_at(col_pks(self@.columns), true, i as int);
                }
                return Ok(&self.columns[i]);
            }
            i += 1;
        }
        proof {
            lemma_first_pos_at(col_pks(self@.columns), true, i as int);
        }
        Err(Error::NoPK { table: self.name.clone() })
    }

    pub fn duplicate(&self) -> (r: ATable)
        ensures
            r@ == self@,
    {
        let mut columns: Vec<AColumn> = Vec::new();
        let mut i: usize = 0;
        while i < self.columns.len()
            invariant
                i <= self.columns.len(),
                columns.len() == i,
                forall|j: int| 0 <= j < i ==> columns@[j]@ == self.columns@[j]@,
            decreases self.columns.len() - i,
        {
            columns.push(self.columns[i].duplicate());
            i += 1;
        }
        let r = ATable { name: self.name.clone(), columns };
        assert(r@.columns =~= self@.columns);
        r
    }
}

pub open spec fn table_names(db: Seq<ATableV>) -> Seq<Seq<char>> {
    db.map_values(|t: ATableV| t.name)
}

/// The table of the given name.
pub open spec fn find_table(db: Seq<ATableV>, name: Seq<char>) -> Option<ATableV> {
    let p = first_pos(table_names(db), name);
    if p < db.len() {
        Some(db[p])
    } else {
        None
    }
}

/// `db` with `t` in place of the table of the same name, or `t` added last.
pub open spec fn put_table(db: Seq<ATableV>, t: ATableV) -> Seq<ATableV> {
    let p = first_pos(table_names(db), t.name);
    if p < db.len() {
        db.update(p, t)
    } else {
        db.push(t)
    }
}

/// Table names are unique, and so are column names within each table.
pub open spec fn db_wf(db: Seq<ATableV>) -> bool {
    &&& all_distinct(table_names(db))
    &&& forall|i: int| 0 <= i < db.len() ==> (#[trigger] db[i]).wf()
}

pub open spec fn tables_view(v: Seq<ATable>) -> Seq<ATableV> {
    v.map_values(|t: ATable| t@)
}

/// A schema snapshot: a set of tables told apart by name.
#[derive(Clone, Debug)]
pub struct ADB {
    tables: Vec<ATable>,
}

impl View for ADB {
    type V = Seq<ATableV>;

    closed spec fn view(&self) -> Seq<ATableV> {
        tables_view(self.tables@)
    }
}

impl ADB {
    pub open spec fn wf(&self) -> bool {
        db_wf(self@)
    }

    pub fn new() -> (r: ADB)
        ensures
            r@ == Seq::<ATableV>::empty(),
            r.wf(),
    {
        let r = ADB { tables: Vec::new() };
        assert(r@ =~= Seq::<ATableV>::empty());
        r
    }

    /// The tables, in the order they were added.
    pub fn tables(&self) -> (r: &Vec<ATable>)
        ensures
            tables_view(r@) == self@,
    {
        &self.tables
    }

    fn table_pos(&self, name: &String) -> (p: usize)
        ensures
            p == first_pos(table_names(self@), name@),
    {
        let mut i: usize = 0;
        while i < self.tables.len()
            invariant
                i <= self.tables.len(),
                forall|j: int| 0 <= j < i ==> table_names(self@)[j] != name@,
            decreases self.tables.len() - i,
        {
            if self.tables[i].name == *name {
                proof {
                    lemma_first_pos_at(table_names(self@), name@, i as int);
                }
                return i;
            }
            i += 1;
        }
        proof {
            lemma_first_pos_at(table_names(self@), name@, i as int);
        }
        i
    }

    pub fn get_table(&self, name: &str) -> (r: Option<&ATable>)
        ensures
            match r {
                Some(t) => find_table(self@, name@) == Some(t@),
                None => find_table(self@, name@) is None,
            },
    {
        let p = self.table_pos(&String::from_str(name));
        if p < self.tables.len() {
            Some(&self.tables[p])
        } else {
            None
        }
    }

    /// Puts `table` in place of the table of the same name, or adds it.
    pub fn replace_table(&mut self, table: ATable)
        requires
            old(self).wf(),
            table@.wf(),
        ensures
            final(self).wf(),
            final(self)@ == put_table(old(self)@, table@),
    {
        let p = self.table_pos(&table.name);
        proof {
            lemma_put_keeps_distinct(table_names(self@), p as int, table@.name);
        }
        if p < self.tables.len() {
            self.tables[p] = table;
            assert(self@ =~= old(self)@.update(p as int, table@));
            assert(table_names(self@) =~= table_names(old(self)@).update(p as int, table@.name));
        } else {
            self.tables.push(table);
            assert(self@ =~= old(self)@.push(table@));
            assert(table_names(self@) =~= table_names(old(self)@).push(table@.name));
        }
    }
}

/// The primary-key type of the named table, where it is known.
pub open spec fn pk_type(db: Seq<ATableV>, name: Seq<char>) -> Option<SqlType> {
    match find_table(db, name) {
        Some(t) => match pk_col(t.columns) {
            Some(c) => match c.sqltype {
                DeferredSqlTypeV::Known(x) => Some(x),
                DeferredSqlTypeV::Deferred(_) => None,
            },
            None => None,
        },
        None => None,
    }
}

pub open spec fn has_pk(t: ATableV) -> bool {
    pk_col(t.columns) is Some
}

/// The position of the first table without a primary key, or `db.len()`.
pub open spec fn first_without_pk(db: Seq<ATableV>) -> int {
    first_pos(db.map_values(|t: ATableV| has_pk(t)), false)
}

/// Column `b` is column `a`, but that a deferred type may have become known.
pub open spec fn col_grows(a: AColumnV, b: AColumnV) -> bool {
    &&& b.name == a.name
    &&& b.nullable == a.nullable
    &&& b.pk == a.pk
    &&& b.default == a.default
    &&& (b.sqltype == a.sqltype || (a.sqltype is Deferred && b.sqltype is Known))
}

/// Snapshot `b` is snapshot `a`, but that deferred types may have become known.
pub open spec fn db_grows(a: Seq<ATableV>, b: Seq<ATableV>) -> bool {
    &&& a.len() == b.len()
    &&& forall|i: int|
        0 <= i < a.len() ==> #[trigger] b[i].name == a[i].name && b[i].columns.len()
            == a[i].columns.len()
    &&& forall|i: int, j: int|
        0 <= i < a.len() && 0 <= j < a[i].columns.len() ==> col_grows(
            a[i].columns[j],
            #[trigger] b[i].columns[j],
        )
}

/// Each type that became known between `a` and `b` is, in `b`, the known
/// primary-key type of the table its key names.
pub open spec fn db_sound(a: Seq<ATableV>, b: Seq<ATableV>) -> bool {
    forall|i: int, j: int|
        0 <= i < a.len() && 0 <= j < a[i].columns.len() && a[i].columns[j].sqltype is Deferred
            && (#[trigger] b[i].columns[j]).sqltype is Known ==> pk_type(
            b,
            a[i].columns[j].sqltype->Deferred_0,
        ) == Some(b[i].columns[j].sqltype->Known_0)
}

/// `b` comes from `a` by resolving deferred types correctly.
pub open spec fn resolved_from(a: Seq<ATableV>, b: Seq<ATableV>) -> bool {
    db_grows(a, b) && db_sound(a, b)
}

/// No deferred type left in `db` names a table whose primary-key type is known.
pub open spec fn at_fixed_point(db: Seq<ATableV>) -> bool {
    forall|i: int, j: int|
        0 <= i < db.len() && 0 <= j < db[i].columns.len() && (#[trigger] db[i].columns[j]).sqltype is Deferred
            ==> pk_type(db, db[i].columns[j].sqltype->Deferred_0) is None
}

/// The type reached from key `k` by following primary-key references through
/// at most `fuel` further tables.
pub open spec fn chain_type(db: Seq<ATableV>, k: Seq<char>, fuel: nat) -> Option<SqlType>
    decreases fuel,
{
    match find_table(db, k) {
        Some(t) => match pk_col(t.columns) {
            Some(c) => match c.sqltype {
                DeferredSqlTypeV::Known(x) => Some(x),
                DeferredSqlTypeV::Deferred(k2) => if fuel == 0 {
                    None
                } else {
                    chain_type(db, k2, (fuel - 1) as nat)
                },
            },
            None => None,
        },
        None => None,
    }
}

/// Key `k` leads, through finitely many tables of `db`, to type `y`.
pub open spec fn reaches(db: Seq<ATableV>, k: Seq<char>, y: SqlType) -> bool {
    exists|f: nat| chain_type(db, k, f) == Some(y)
}

/// Key `k` leads to no known type, however far references are followed: the
/// table is missing, or the references run in a cycle.
pub open spec fn unreachable_key(db: Seq<ATableV>, k: Seq<char>) -> bool {
    forall|f: nat| #[trigger] chain_type(db, k, f) is None
}

/// Each deferred type of `a` is, in `b`, the type its key reaches in `a`, or
/// still deferred where its key reaches none.
pub open spec fn resolved_exactly(a: Seq<ATableV>, b: Seq<ATableV>) -> bool {
    &&& db_grows(a, b)
    &&& forall|i: int, j: int|
        0 <= i < a.len() && 0 <= j < a[i].columns.len() && (#[trigger] a[i].columns[j]).sqltype is Deferred
            ==> {
            let k = a[i].columns[j].sqltype->Deferred_0;
            let t = b[i].columns[j].sqltype;
            &&& t is Known ==> reaches(a, k, t->Known_0)
            &&& t is Deferred ==> unreachable_key(a, k)
        }
}

/// Every primary-key type known in `cur` is reached from its key in `orig`.
pub open spec fn grounded(orig: Seq<ATableV>, cur: Seq<ATableV>) -> bool {
    forall|k: Seq<char>| #[trigger] pk_type(cur, k) is Some ==> reaches(orig, k, pk_type(cur, k)->Some_0)
}

/// Every type that `r` records is the known primary-key type in `db` of its table.
pub open spec fn resolver_sound(r: TypeResolver, db: Seq<ATableV>) -> bool {
    forall|k: Seq<char>| #[trigger] r.lookup(k) is Some ==> pk_type(db, k) == r.lookup(k)
}

/// `r` records every primary-key type that is known in `db`.
pub open spec fn resolver_complete(r: TypeResolver, db: Seq<ATableV>) -> bool {
    forall|k: Seq<char>| #[trigger] pk_type(db, k) is Some ==> r.lookup(k) is Some
}

/// The column's type is deferred to a key that `r` records.
pub open spec fn resolvable(r: TypeResolver, a: AColumnV) -> bool {
    a.sqltype is Deferred && r.lookup(a.sqltype->Deferred_0) is Some
}

/// What one column becomes in a pass with resolver `r`.
pub open spec fn col_step(r: TypeResolver, a: AColumnV, b: AColumnV) -> bool {
    if a.sqltype is Deferred && r.lookup(a.sqltype->Deferred_0) is Some {
        b == AColumnV {
            sqltype: DeferredSqlTypeV::Known(r.lookup(a.sqltype->Deferred_0)->Some_0),
            ..a
        }
    } else {
        b == a
    }
}

pub open spec fn cols_deferred(cols: Seq<AColumnV>) -> nat
    decreases cols.len(),
{
    if cols.len() == 0 {
        0
    } else {
        cols_deferred(cols.drop_last()) + if cols.last().sqltype is Deferred {
            1nat
        } else {
            0nat
        }
    }
}

/// How many columns of `db` have a deferred type.
pub open spec fn db_deferred(db: Seq<ATableV>) -> nat
    decreases db.len(),
{
    if db.len() == 0 {
        0
    } else {
        db_deferred(db.drop_last()) + cols_deferred(db.last().columns)
    }
}

proof fn lemma_cols_deferred_le(a: Seq<AColumnV>, b: Seq<AColumnV>, w: int)
    requires
        a.len() == b.len(),
        forall|j: int| 0 <= j < a.len() && (#[trigger] b[j]).sqltype is Deferred ==> a[j].sqltype is Deferred,
    ensures
        cols_deferred(b) <= cols_deferred(a),
        0 <= w < a.len() && a[w].sqltype is Deferred && b[w].sqltype is Known ==> cols_deferred(b)
            < cols_deferred(a),
    decreases a.len(),
{
    if a.len() > 0 {
        lemma_cols_deferred_le(a.drop_last(), b.drop_last(), w);
        assert(b.last() == b[b.len() - 1]);
    }
}

proof fn lemma_db_deferred_le(a: Seq<ATableV>, b: Seq<ATableV>, w: int)
    requires
        a.len() == b.len(),
        forall|i: int| 0 <= i < a.len() ==> cols_deferred((#[trigger] b[i]).columns) <= cols_deferred(a[i].columns),
    ensures
        db_deferred(b) <= db_deferred(a),
        0 <= w < a.len() && cols_deferred(b[w].columns) < cols_deferred(a[w].columns) ==> db_deferred(b)
            < db_deferred(a),
    decreases a.len(),
{
    if a.len() > 0 {
        lemma_db_deferred_le(a.drop_last(), b.drop_last(), w);
        assert(b.last() == b[b.len() - 1]);
    }
}

/// Growing keeps names, primary-key flags and known types where they stand.
proof fn lemma_grows_keeps(a: Seq<ATableV>, b: Seq<ATableV>)
    requires
        db_grows(a, b),
    ensures
        table_names(a) == table_names(b),
        forall|i: int| 0 <= i < a.len() ==> col_names(a[i].columns) == col_names((#[trigger] b[i]).columns),
        forall|i: int| 0 <= i < a.len() ==> col_pks(a[i].columns) == col_pks((#[trigger] b[i]).columns),
        forall|k: Seq<char>| #[trigger] pk_type(a, k) is Some ==> pk_type(b, k) == pk_type(a, k),
        forall|i: int| 0 <= i < a.len() ==> has_pk(a[i]) == has_pk(#[trigger] b[i]),
{
    assert(table_names(a) =~= table_names(b));
    assert forall|i: int| 0 <= i < a.len() implies col_names(a[i].columns) == col_names((#[trigger] b[i]).columns) && col_pks(a[i].columns) == col_pks(b[i].columns) by {
        assert(b[i].name == a[i].name);
        assert forall|j: int| 0 <= j < a[i].columns.len() implies a[i].columns[j].name == b[i].columns[j].name && a[i].columns[j].pk == b[i].columns[j].pk by {
            assert(col_grows(a[i].columns[j], b[i].columns[j]));
        }
        assert(col_names(a[i].columns) =~= col_names(b[i].columns));
        assert(col_pks(a[i].columns) =~= col_pks(b[i].columns));
    }
    assert forall|k: Seq<char>| #[trigger] pk_type(a, k) is Some implies pk_type(b, k) == pk_type(a, k) by {
        assert(find_table(a, k) is Some);
        let p = first_pos(table_names(a), k);
        lemma_first_pos(table_names(a), k);
        assert(0 <= p < a.len());
        assert(b[p].name == a[p].name);
        assert(col_pks(a[p].columns) == col_pks(b[p].columns));
        assert(pk_col(a[p].columns) is Some);
        let q = first_pos(col_pks(a[p].columns), true);
        lemma_first_pos(col_pks(a[p].columns), true);
        assert(0 <= q < a[p].columns.len());
        assert(col_grows(a[p].columns[q], b[p].columns[q]));
    }
}

/// Resolving twice in a row is resolving once.
proof fn lemma_resolved_trans(a: Seq<ATableV>, b: Seq<ATableV>, c: Seq<ATableV>)
    requires
        resolved_from(a, b),
        resolved_from(b, c),
    ensures
        resolved_from(a, c),
{
    lemma_grows_keeps(b, c);
    assert forall|i: int| 0 <= i < a.len() implies #[trigger] c[i].name == a[i].name && c[i].columns.len() == a[i].columns.len() by {
        assert(b[i].name == a[i].name);
        assert(c[i].name == b[i].name);
    }
    assert forall|i: int, j: int| 0 <= i < a.len() && 0 <= j < a[i].columns.len() implies col_grows(a[i].columns[j], #[trigger] c[i].columns[j]) by {
        assert(b[i].name == a[i].name);
        assert(c[i].name == b[i].name);
        assert(b[i].columns.len() == a[i].columns.len());
        assert(col_grows(a[i].columns[j], b[i].columns[j]));
        assert(col_grows(b[i].columns[j], c[i].columns[j]));
    }
    assert forall|i: int, j: int| 0 <= i < a.len() && 0 <= j < a[i].columns.len() && a[i].columns[j].sqltype is Deferred && (#[trigger] c[i].columns[j]).sqltype is Known implies pk_type(c, a[i].columns[j].sqltype->Deferred_0) == Some(c[i].columns[j].sqltype->Known_0) by {
        assert(b[i].name == a[i].name);
        assert(c[i].name == b[i].name);
        assert(b[i].columns.len() == a[i].columns.len());
        assert(col_grows(a[i].columns[j], b[i].columns[j]));
        assert(col_grows(b[i].columns[j], c[i].columns[j]));
        if b[i].columns[j].sqltype is Known {
            assert(pk_type(b, a[i].columns[j].sqltype->Deferred_0) is Some);
        }
    }
}

impl ADB {
    fn register_pks(&self, resolver: &mut TypeResolver)
        requires
            self.wf(),
            forall|i: int| 0 <= i < self@.len() ==> has_pk(#[trigger] self@[i]),
            resolver_sound(*old(resolver), self@),
        ensures
            resolver_sound(*final(resolver), self@),
            resolver_complete(*final(resolver), self@),
    {
        let mut i: usize = 0;
        while i < self.tables.len()
            invariant
                i <= self.tables.len(),
                self.wf(),
                resolver_sound(*resolver, self@),
                forall|j: int| 0 <= j < i && pk_type(self@, #[trigger] self@[j].name) is Some ==> resolver.lookup(self@[j].name) is Some,
            decreases self.tables.len() - i,
        {
            let t = &self.tables[i];
            proof {
                assert(table_names(self@)[i as int] == self@[i as int].name);
                lemma_first_pos_distinct(table_names(self@), i as int);
            }
            match t.get_pk() {
                Ok(c) => match c.sqltype() {
                    Ok(ty) => {
                        let ghost before = *resolver;
                        resolver.insert_pk(t.name.as_str(), ty);
                        assert(pk_type(self@, self@[i as int].name) == Some(ty));
                        assert forall|k: Seq<char>| #[trigger] resolver.lookup(k) is Some implies pk_type(self@, k) == resolver.lookup(k) by {
                            assert(before.lookup(k) is Some ==> pk_type(self@, k) == before.lookup(k));
                        }
                        assert forall|j: int| 0 <= j <= i && pk_type(self@, #[trigger] self@[j].name) is Some implies resolver.lookup(self@[j].name) is Some by {
                            assert(before.lookup(self@[j].name) is Some ==> resolver.lookup(self@[j].name) is Some);
                        }
                    },
                    Err(_) => {},
                },
                Err(_) => {},
            }
            i += 1;
        }
        assert forall|k: Seq<char>| #[trigger] pk_type(self@, k) is Some implies resolver.lookup(k) is Some by {
            lemma_first_pos(table_names(self@), k);
            let p = first_pos(table_names(self@), k);
            assert(self@[p].name == k);
        }
    }
}

proof fn lemma_resolved_refl(a: Seq<ATableV>)
    ensures
        resolved_from(a, a),
{
}

impl ATable {
    /// The table with every deferred type whose key `resolver` records made
    /// known; tells whether any was.
    fn resolve_columns(&self, resolver: &TypeResolver) -> (r: (ATable, bool))
        ensures
            r.0@.name == self@.name,
            r.0@.columns.len() == self@.columns.len(),
            forall|j: int| 0 <= j < self@.columns.len() ==> col_step(*resolver, self@.columns[j], #[trigger] r.0@.columns[j]),
            r.1 == (exists|j: int| 0 <= j < self@.columns.len() && resolvable(*resolver, #[trigger] self@.columns[j])),
    {
        let mut columns: Vec<AColumn> = Vec::new();
        let mut changed = false;
        let mut j: usize = 0;
        while j < self.columns.len()
            invariant
                j <= self.columns.len(),
                columns.len() == j,
                forall|jj: int| 0 <= jj < j ==> col_step(*resolver, self@.columns[jj], #[trigger] columns@[jj]@),
                changed == (exists|jj: int| 0 <= jj < j && resolvable(*resolver, #[trigger] self@.columns[jj])),
            decreases self.columns.len() - j,
        {
            let mut c = self.columns[j].duplicate();
            let progress = c.resolve_type(resolver);
            proof {
                if progress {
                    assert(resolvable(*resolver, self@.columns[j as int]));
                }
            }
            changed = changed || progress;
            columns.push(c);
            j += 1;
        }
        let r = ATable { name: self.name.clone(), columns };
        assert forall|jj: int| 0 <= jj < self@.columns.len() implies col_step(*resolver, self@.columns[jj], #[trigger] r@.columns[jj]) by {
            assert(r@.columns[jj] == r.columns@[jj]@);
        }
        (r, changed)
    }
}

impl ADB {
    /// One pass: every deferred type whose key `resolver` records becomes known.
    fn resolve_pass(&self, resolver: &TypeResolver) -> (r: (Vec<ATable>, bool))
        requires
            resolver_sound(*resolver, self@),
            resolver_complete(*resolver, self@),
        ensures
            resolved_from(self@, tables_view(r.0@)),
            r.1 ==> db_deferred(tables_view(r.0@)) < db_deferred(self@),
            !r.1 ==> tables_view(r.0@) == self@ && at_fixed_point(self@),
            forall|i: int, j: int|
                0 <= i < self@.len() && 0 <= j < self@[i].columns.len() ==> col_step(
                    *resolver,
                    self@[i].columns[j],
                    #[trigger] tables_view(r.0@)[i].columns[j],
                ),
    {
        let mut tables: Vec<ATable> = Vec::new();
        let mut changed = false;
        let ghost mut wi: int = 0;
        let mut i: usize = 0;
        while i < self.tables.len()
            invariant
                i <= self.tables.len(),
                tables.len() == i,
                forall|ii: int| 0 <= ii < i ==> (#[trigger] tables@[ii])@.name == self@[ii].name && tables@[ii]@.columns.len() == self@[ii].columns.len(),
                forall|ii: int, jj: int| 0 <= ii < i && 0 <= jj < self@[ii].columns.len() ==> col_step(*resolver, self@[ii].columns[jj], #[trigger] tables@[ii]@.columns[jj]),
                changed ==> 0 <= wi < i && (exists|jj: int| 0 <= jj < self@[wi].columns.len() && resolvable(*resolver, #[trigger] self@[wi].columns[jj])),
                !changed ==> forall|ii: int, jj: int| 0 <= ii < i && 0 <= jj < self@[ii].columns.len() ==> !resolvable(*resolver, #[trigger] self@[ii].columns[jj]),
            decreases self.tables.len() - i,
        {
            let (t, progress) = self.tables[i].resolve_columns(resolver);
            assert(self.tables@[i as int]@ == self@[i as int]);
            if progress {
                proof {
                    wi = i as int;
                }
                changed = true;
            }
            tables.push(t);
            i += 1;
        }
        let ghost next = tables_view(tables@);
        proof {
            assert forall|ii: int| 0 <= ii < self@.len() implies #[trigger] next[ii].name == self@[ii].name && next[ii].columns.len() == self@[ii].columns.len() by {
                assert(next[ii] == tables@[ii]@);
            }
            assert forall|ii: int, jj: int| 0 <= ii < self@.len() && 0 <= jj < self@[ii].columns.len() implies col_step(*resolver, self@[ii].columns[jj], #[trigger] next[ii].columns[jj]) by {
                assert(next[ii] == tables@[ii]@);
            }
            assert forall|ii: int, jj: int| 0 <= ii < self@.len() && 0 <= jj < self@[ii].columns.len() implies col_grows(self@[ii].columns[jj], #[trigger] next[ii].columns[jj]) by {
                assert(col_step(*resolver, self@[ii].columns[jj], next[ii].columns[jj]));
            }
            assert(db_grows(self@, next));
            lemma_grows_keeps(self@, next);
            assert forall|ii: int, jj: int| 0 <= ii < self@.len() && 0 <= jj < self@[ii].columns.len() && self@[ii].columns[jj].sqltype is Deferred && (#[trigger] next[ii].columns[jj]).sqltype is Known implies pk_type(next, self@[ii].columns[jj].sqltype->Deferred_0) == Some(next[ii].columns[jj].sqltype->Known_0) by {
                assert(col_step(*resolver, self@[ii].columns[jj], next[ii].columns[jj]));
                let k = self@[ii].columns[jj].sqltype->Deferred_0;
                assert(resolver.lookup(k) is Some);
            }
            assert forall|ii: int| 0 <= ii < self@.len() implies cols_deferred((#[trigger] next[ii]).columns) <= cols_deferred(self@[ii].columns) && (ii == wi && changed ==> cols_deferred(next[ii].columns) < cols_deferred(self@[ii].columns)) by {
                let a = self@[ii].columns;
                let b = next[ii].columns;
                assert forall|j: int| 0 <= j < a.len() && (#[trigger] b[j]).sqltype is Deferred implies a[j].sqltype is Deferred by {
                    assert(col_step(*resolver, a[j], b[j]));
                }
                if ii == wi && changed {
                    let w = choose|jj: int| 0 <= jj < a.len() && resolvable(*resolver, #[trigger] a[jj]);
                    assert(col_step(*resolver, a[w], b[w]));
                    lemma_cols_deferred_le(a, b, w);
                } else {
                    lemma_cols_deferred_le(a, b, 0);
                }
            }
            lemma_db_deferred_le(self@, next, wi);
            if !changed {
                assert forall|ii: int| 0 <= ii < self@.len() implies #[trigger] next[ii] == self@[ii] by {
                    assert forall|jj: int| 0 <= jj < self@[ii].columns.len() implies next[ii].columns[jj] == self@[ii].columns[jj] by {
                        assert(col_step(*resolver, self@[ii].columns[jj], next[ii].columns[jj]));
                        assert(!resolvable(*resolver, self@[ii].columns[jj]));
                    }
                    assert(next[ii].columns =~= self@[ii].columns);
                }
                assert(next =~= self@);
                assert forall|ii: int, jj: int| 0 <= ii < self@.len() && 0 <= jj < self@[ii].columns.len() && (#[trigger] self@[ii].columns[jj]).sqltype is Deferred implies pk_type(self@, self@[ii].columns[jj].sqltype->Deferred_0) is None by {
                    assert(!resolvable(*resolver, self@[ii].columns[jj]));
                }
            }
        }
        (tables, changed)
    }

    /// Removes the table of the given name, where there is one.
    pub fn remove_table(&mut self, name: &str)
        requires
            old(self).wf(),
        ensures
            final(self).wf(),
            final(self)@ == drop_table(old(self)@, name@),
    {
        let p = self.table_pos(&String::from_str(name));
        if p < self.tables.len() {
            self.tables.remove(p);
            proof {
                lemma_remove_keeps_distinct(table_names(old(self)@), p as int);
            }
            assert(self@ =~= old(self)@.remove(p as int));
            assert(table_names(self@) =~= table_names(old(self)@).remove(p as int));
            assert forall|i: int| 0 <= i < self@.len() implies (#[trigger] self@[i]).wf() by {
                let i0 = if i < p { i } else { i + 1 };
                assert(self@[i] == old(self)@[i0]);
            }
        }
    }

    /// Makes known, pass after pass, every deferred type whose key's table has
    /// a known primary-key type, until a pass changes nothing. Types that stay
    /// deferred (a missing table, or keys that depend on each other in a
    /// cycle) are left as they are. Fails, changing nothing, where a table has
    /// no primary key.
    pub fn resolve_types(&mut self) -> (r: Result<(), Error>)
        requires
            old(self).wf(),
        ensures
            final(self).wf(),
            match r {
                Ok(_) => first_without_pk(old(self)@) == old(self)@.len() && resolved_exactly(
                    old(self)@,
                    final(self)@,
                ),
                Err(e) => {
                    &&& first_without_pk(old(self)@) < old(self)@.len()
                    &&& final(self)@ == old(self)@
                    &&& (e matches Error::NoPK { table } && table@ == old(
                        self,
                    )@[first_without_pk(old(self)@)].name)
                },
            },
    {
        let ghost flags = self@.map_values(|t: ATableV| has_pk(t));
        let mut i: usize = 0;
        while i < self.tables.len()
            invariant
                i <= self.tables.len(),
                flags == self@.map_values(|t: ATableV| has_pk(t)),
                self.wf(),
                self@ == old(self)@,
                forall|j: int| 0 <= j < i ==> has_pk(#[trigger] self@[j]),
            decreases self.tables.len() - i,
        {
            assert(self.tables@[i as int]@ == self@[i as int]);
            match self.tables[i].get_pk() {
                Ok(_) => {},
                Err(e) => {
                    proof {
                        assert(flags[i as int] == false);
                        lemma_first_pos_at(flags, false, i as int);
                    }
                    return Err(e);
                },
            }
            i += 1;
        }
        proof {
            lemma_first_pos_at(flags, false, i as int);
            lemma_resolved_refl(self@);
            assert forall|k: Seq<char>| #[trigger] pk_type(self@, k) is Some implies reaches(self@, k, pk_type(self@, k)->Some_0) by {
                assert(chain_type(self@, k, 0) == pk_type(self@, k));
            }
        }
        let ghost orig = self@;
        let mut resolver = TypeResolver::new();
        let mut changed = true;
        while changed
            invariant
                self.wf(),
                forall|j: int| 0 <= j < self@.len() ==> has_pk(#[trigger] self@[j]),
                resolver_sound(resolver, self@),
                resolved_from(orig, self@),
                grounded(orig, self@),
                !changed ==> at_fixed_point(self@),
            decreases db_deferred(self@) + if changed {
                1nat
            } else {
                0nat
            },
        {
            self.register_pks(&mut resolver);
            let (tables, progress) = self.resolve_pass(&resolver);
            let ghost before = self@;
            self.tables = tables;
            proof {
                lemma_grows_keeps(before, self@);
                lemma_pass_grounded(orig, before, self@, resolver);
                lemma_resolved_trans(orig, before, self@);
                assert forall|k: Seq<char>| #[trigger] resolver.lookup(k) is Some implies pk_type(self@, k) == resolver.lookup(k) by {
                    assert(pk_type(before, k) == resolver.lookup(k));
                }
                assert forall|j: int| 0 <= j < self@.len() implies has_pk(#[trigger] self@[j]) by {
                    assert(has_pk(before[j]));
                }
                assert forall|j: int| 0 <= j < self@.len() implies (#[trigger] self@[j]).wf() by {
                    assert(before[j].wf());
                }
            }
            changed = progress;
        }
        proof {
            lemma_fixed_point_exact(orig, self@);
        }
        Ok(())
    }
}

/// Every column type of `db` is known.
pub open spec fn all_known(db: Seq<ATableV>) -> bool {
    forall|i: int, j: int|
        0 <= i < db.len() && 0 <= j < db[i].columns.len() ==> (#[trigger] db[i].columns[j]).sqltype is Known
}

/// Resolving a snapshot whose column types are all known leaves it as it is,
/// so that resolving again after a complete resolution changes nothing.
pub proof fn lemma_resolve_known_unchanged(a: Seq<ATableV>, b: Seq<ATableV>)
    requires
        all_known(a),
        db_grows(a, b),
    ensures
        b == a,
{
    assert forall|i: int| 0 <= i < a.len() implies #[trigger] b[i] == a[i] by {
        assert(b[i].name == a[i].name);
        assert forall|j: int| 0 <= j < a[i].columns.len() implies b[i].columns[j] == a[i].columns[j] by {
            assert(col_grows(a[i].columns[j], b[i].columns[j]));
            assert(a[i].columns[j].sqltype is Known);
        }
        assert(b[i].columns =~= a[i].columns);
    }
    assert(b =~= a);
}

/// Following references further never changes a type once reached.
pub proof fn lemma_chain_more_fuel(db: Seq<ATableV>, k: Seq<char>, f: nat, g: nat)
    requires
        f <= g,
        chain_type(db, k, f) is Some,
    ensures
        chain_type(db, k, g) == chain_type(db, k, f),
    decreases f,
{
    let t = find_table(db, k)->Some_0;
    let c = pk_col(t.columns)->Some_0;
    if c.sqltype is Deferred {
        lemma_chain_more_fuel(db, c.sqltype->Deferred_0, (f - 1) as nat, (g - 1) as nat);
    }
}

/// A key reaches at most one type.
pub proof fn lemma_reaches_unique(db: Seq<ATableV>, k: Seq<char>, y: SqlType, z: SqlType)
    requires
        reaches(db, k, y),
        reaches(db, k, z),
    ensures
        y == z,
{
    let f = choose|f: nat| chain_type(db, k, f) == Some(y);
    let g = choose|g: nat| chain_type(db, k, g) == Some(z);
    if f <= g {
        lemma_chain_more_fuel(db, k, f, g);
    } else {
        lemma_chain_more_fuel(db, k, g, f);
    }
}

/// Growing from `orig` keeps the table and primary-key positions of `orig`.
proof fn lemma_grows_pk_pos(orig: Seq<ATableV>, cur: Seq<ATableV>, k: Seq<char>)
    requires
        db_grows(orig, cur),
    ensures
        find_table(orig, k) is Some == find_table(cur, k) is Some,
        find_table(orig, k) is Some ==> ({
            let p = first_pos(table_names(orig), k);
            let q = first_pos(col_pks(orig[p].columns), true);
            &&& p == first_pos(table_names(cur), k)
            &&& q == first_pos(col_pks(cur[p].columns), true)
            &&& 0 <= p < orig.len()
            &&& 0 <= q <= orig[p].columns.len()
            &&& pk_col(orig[p].columns) is Some == pk_col(cur[p].columns) is Some
            &&& q < orig[p].columns.len() ==> col_grows(orig[p].columns[q], cur[p].columns[q])
        }),
{
    lemma_grows_keeps(orig, cur);
    lemma_first_pos(table_names(orig), k);
    let p = first_pos(table_names(orig), k);
    if p < orig.len() {
        assert(cur[p].name == orig[p].name);
        assert(col_pks(orig[p].columns) == col_pks(cur[p].columns));
        lemma_first_pos(col_pks(orig[p].columns), true);
    }
}

/// A pass keeps every known primary-key type reachable in `orig`.
proof fn lemma_pass_grounded(
    orig: Seq<ATableV>,
    cur: Seq<ATableV>,
    next: Seq<ATableV>,
    r: TypeResolver,
)
    requires
        resolved_from(orig, cur),
        grounded(orig, cur),
        resolver_sound(r, cur),
        resolved_from(cur, next),
        forall|i: int, j: int|
            0 <= i < cur.len() && 0 <= j < cur[i].columns.len() ==> col_step(
                r,
                cur[i].columns[j],
                #[trigger] next[i].columns[j],
            ),
    ensures
        grounded(orig, next),
{
    lemma_resolved_trans(orig, cur, next);
    assert forall|k: Seq<char>| #[trigger] pk_type(next, k) is Some implies reaches(orig, k, pk_type(next, k)->Some_0) by {
        let y = pk_type(next, k)->Some_0;
        lemma_grows_pk_pos(cur, next, k);
        lemma_grows_pk_pos(orig, cur, k);
        let p = first_pos(table_names(cur), k);
        let q = first_pos(col_pks(cur[p].columns), true);
        let a = cur[p].columns[q];
        if a.sqltype is Known {
            assert(pk_type(cur, k) == Some(y));
        } else {
            let k2 = a.sqltype->Deferred_0;
            assert(col_step(r, a, next[p].columns[q]));
            assert(r.lookup(k2) == Some(y));
            assert(pk_type(cur, k2) == Some(y));
            let f = choose|f: nat| chain_type(orig, k2, f) == Some(y);
            assert(orig[p].columns[q].sqltype == a.sqltype);
            assert(chain_type(orig, k, f + 1) == Some(y));
        }
    }
}

/// At a fixed point reached from `orig`, every type a key reaches in `orig`
/// is known.
proof fn lemma_fixed_point_complete(orig: Seq<ATableV>, fin: Seq<ATableV>, k: Seq<char>, f: nat)
    requires
        resolved_from(orig, fin),
        at_fixed_point(fin),
        chain_type(orig, k, f) is Some,
    ensures
        pk_type(fin, k) == chain_type(orig, k, f),
    decreases f,
{
    lemma_grows_pk_pos(orig, fin, k);
    let p = first_pos(table_names(orig), k);
    let q = first_pos(col_pks(orig[p].columns), true);
    let a = orig[p].columns[q];
    let b = fin[p].columns[q];
    if a.sqltype is Deferred {
        let k2 = a.sqltype->Deferred_0;
        lemma_fixed_point_complete(orig, fin, k2, (f - 1) as nat);
        if b.sqltype is Deferred {
            assert(fin[p].columns[q] == b);
            assert(pk_type(fin, k2) is None);
        } else {
            assert(fin[p].columns[q] == b);
        }
    }
}

/// A resolution that is correct and at its fixed point is exact.
proof fn lemma_fixed_point_exact(orig: Seq<ATableV>, fin: Seq<ATableV>)
    requires
        resolved_from(orig, fin),
        grounded(orig, fin),
        at_fixed_point(fin),
    ensures
        resolved_exactly(orig, fin),
{
    assert forall|i: int, j: int|
        0 <= i < orig.len() && 0 <= j < orig[i].columns.len() && (#[trigger] orig[i].columns[j]).sqltype is Deferred
        implies {
            let k = orig[i].columns[j].sqltype->Deferred_0;
            let t = fin[i].columns[j].sqltype;
            &&& t is Known ==> reaches(orig, k, t->Known_0)
            &&& t is Deferred ==> unreachable_key(orig, k)
        } by {
        let k = orig[i].columns[j].sqltype->Deferred_0;
        assert(fin[i].name == orig[i].name);
        let b = fin[i].columns[j];
        assert(col_grows(orig[i].columns[j], b));
        if b.sqltype is Known {
            assert(pk_type(fin, k) == Some(b.sqltype->Known_0));
        } else {
            assert(pk_type(fin, k) is None);
            assert forall|f: nat| #[trigger] chain_type(orig, k, f) is None by {
                if chain_type(orig, k, f) is Some {
                    lemma_fixed_point_complete(orig, fin, k, f);
                }
            }
        }
    }
}

/// Resolution leaves a column deferred exactly where its key leads to no
/// known type: a missing table, or primary keys that refer to each other in
/// a cycle. Where the key does lead to a type, the column has that type.
pub proof fn lemma_resolution_outcome(orig: Seq<ATableV>, fin: Seq<ATableV>, i: int, j: int)
    requires
        resolved_exactly(orig, fin),
        0 <= i < orig.len(),
        0 <= j < orig[i].columns.len(),
        orig[i].columns[j].sqltype is Deferred,
    ensures
        fin[i].columns[j].sqltype is Deferred <==> unreachable_key(orig, orig[i].columns[j].sqltype->Deferred_0),
        forall|y: SqlType| reaches(orig, orig[i].columns[j].sqltype->Deferred_0, y) ==> fin[i].columns[j].sqltype == DeferredSqlTypeV::Known(y),
{
    let k = orig[i].columns[j].sqltype->Deferred_0;
    let t = fin[i].columns[j].sqltype;
    assert(col_grows(orig[i].columns[j], fin[i].columns[j]));
    assert forall|y: SqlType| reaches(orig, k, y) implies t == DeferredSqlTypeV::Known(y) by {
        let f = choose|f: nat| chain_type(orig, k, f) == Some(y);
        if t is Deferred {
            assert(chain_type(orig, k, f) is None);
        } else {
            lemma_reaches_unique(orig, k, y, t->Known_0);
        }
    }
    if t is Known {
        let f = choose|f: nat| chain_type(orig, k, f) == Some(t->Known_0);
        assert(chain_type(orig, k, f) is Some);
    }
}

} // verus!
