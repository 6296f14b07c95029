//! The schema catalog: databases, tables and their ordered column lists.
//!
//! The catalog maps a database name to a set of tables, and a table name to
//! its ordered columns. Entries are kept as association lists looked up by
//! first match; a well-formed catalog never holds two entries under one
//! name. Persisting the catalog (as JSON) and creating directories or table
//! files is left to the front end; this module holds the pure bookkeeping.

use vstd::prelude::*;
use crate::StorageError;

verus! {

/// One column: a name and a data type label (`"INT"` or `"TEXT"`; anything
/// else is an unsupported type).
pub struct Column {
    pub name: String,
    pub data_type: String,
}

/// A table schema: its ordered column list.
pub struct Table {
    pub columns: Vec<Column>,
}

/// A database: its tables, keyed by name.
pub struct Database {
    pub tables: Vec<(String, Table)>,
}

/// The catalog: all databases, keyed by name.
pub struct Catalog {
    pub databases: Vec<(String, Database)>,
}

/// First-match lookup in an association list.
pub open spec fn spec_lookup<T>(entries: Seq<(String, T)>, name: Seq<char>) -> Option<T>
    decreases entries.len(),
{
    if entries.len() == 0 {
        None
    } else if entries[0].0@ == name {
        Some(entries[0].1)
    } else {
        spec_lookup(entries.drop_first(), name)
    }
}

/// Index of the first entry under `name`, or `-1` if there is none.
pub open spec fn spec_find_index<T>(entries: Seq<(String, T)>, name: Seq<char>) -> int
    decreases entries.len(),
{
    if entries.len() == 0 {
        -1
    } else if entries[0].0@ == name {
        0
    } else if spec_find_index(entries.drop_first(), name) == -1 {
        -1
    } else {
        1 + spec_find_index(entries.drop_first(), name)
    }
}

/// The two lookup spec functions agree: a missing name has index `-1`, a
/// present one is found at its first occurrence.
pub proof fn lemma_lookup_find_index<T>(entries: Seq<(String, T)>, name: Seq<char>)
    ensures
        spec_lookup(entries, name) is None <==> spec_find_index(entries, name) == -1,
        spec_lookup(entries, name) is None <==> (forall|i: int|
            0 <= i < entries.len() ==> (#[trigger] entries[i].0)@ != name),
        spec_lookup(entries, name) is Some ==> {
            let i = spec_find_index(entries, name);
            &&& 0 <= i < entries.len()
            &&& entries[i].0@ == name
            &&& spec_lookup(entries, name) == Some(entries[i].1)
            &&& forall|j: int| 0 <= j < i ==> (#[trigger] entries[j].0)@ != name
        },
    decreases entries.len(),
{
    if entries.len() == 0 {
    } else if entries[0].0@ == name {
    } else {
        lemma_lookup_find_index(entries.drop_first(), name);
        let rest = entries.drop_first();
        assert forall|j: int| 0 <= j < rest.len() implies #[trigger] rest[j] == entries[j + 1] by {
            assert(rest[j] == entries[j + 1]);
        }
        if spec_lookup(entries, name) is None {
            assert forall|j: int| 0 <= j < entries.len() implies (#[trigger] entries[j].0)@ != name
            by {
                if j > 0 {
                    assert(entries[j] == rest[j - 1]);
                }
            }
        } else {
            let i = spec_find_index(entries, name);
            assert(entries[i] == rest[i - 1]);
            assert forall|j: int| 0 <= j < i implies (#[trigger] entries[j].0)@ != name by {
                if j > 0 {
                    assert(entries[j] == rest[j - 1]);
                }
            }
        }
    }
}

/// No two entries of the list share a name.
pub open spec fn entries_unique<T>(entries: Seq<(String, T)>) -> bool {
    forall|i: int, j: int|
        0 <= i < j < entries.len() ==> (#[trigger] entries[i].0)@ != (#[trigger] entries[j].0)@
}

impl Database {
    /// A database with no tables yet.
    pub fn new() -> (r: Database)
        ensures
            r.tables@ == Seq::<(String, Table)>::empty(),
    {
        Database { tables: Vec::new() }
    }

    /// Table names are unique.
    pub open spec fn wf(&self) -> bool {
        entries_unique(self.tables@)
    }
}

impl Catalog {
    /// An empty catalog, the starting point when none is persisted yet.
    pub fn new() -> (r: Catalog)
        ensures
            r.databases@ == Seq::<(String, Database)>::empty(),
            r.wf(),
    {
        Catalog { databases: Vec::new() }
    }

    /// Database names are unique, and so are the table names within each.
    pub open spec fn wf(&self) -> bool {
        &&& entries_unique(self.databases@)
        &&& forall|i: int|
            0 <= i < self.databases@.len() ==> (#[trigger] self.databases@[i].1).wf()
    }
}

/// First-match lookup of `name` in an association list.
pub fn lookup<'a, T>(entries: &'a Vec<(String, T)>, name: &String) -> (r: Option<&'a T>)
    ensures
        match r {
            Some(t) => spec_lookup(entries@, name@) == Some(*t),
            None => spec_lookup(entries@, name@) is None,
        },
{
    let n = entries.len();
    let mut i: usize = 0;
    proof {
        assert(entries@.skip(0) =~= entries@);
    }
    while i < n
        invariant
            i <= n,
            n == entries.len(),
            spec_lookup(entries@, name@) == spec_lookup(entries@.skip(i as int), name@),
        decreases n - i,
    {
        let e = &entries[i];
        proof {
            assert(entries@.skip(i as int)[0] == entries@[i as int]);
            assert(entries@.skip(i as int).drop_first() =~= entries@.skip(i as int + 1));
        }
        if e.0 == *name {
            return Some(&e.1);
        }
        i += 1;
    }
    proof {
        assert(entries@.skip(n as int) =~= Seq::<(String, T)>::empty());
    }
    None
}

/// Index of the first entry under `name`.
pub fn lookup_index<T>(entries: &Vec<(String, T)>, name: &String) -> (r: Option<usize>)
    ensures
        match r {
            Some(i) => i == spec_find_index(entries@, name@) && i < entries@.len()
                && entries@[i as int].0@ == name@
                && spec_lookup(entries@, name@) == Some(entries@[i as int].1),
            None => spec_lookup(entries@, name@) is None,
        },
{
    let n = entries.len();
    let mut i: usize = 0;
    proof {
        assert(entries@.skip(0) =~= entries@);
    }
    while i < n
        invariant
            i <= n,
            n == entries.len(),
            spec_lookup(entries@, name@) == spec_lookup(entries@.skip(i as int), name@),
            spec_find_index(entries@.skip(i as int), name@) >= 0 ==> spec_find_index(
                entries@,
                name@,
            ) == i + spec_find_index(entries@.skip(i as int), name@),
            forall|j: int| 0 <= j < i ==> (#[trigger] entries@[j].0)@ != name@,
        decreases n - i,
    {
        let e = &entries[i];
        proof {
            assert(entries@.skip(i as int)[0] == entries@[i as int]);
            assert(entries@.skip(i as int).drop_first() =~= entries@.skip(i as int + 1));
            lemma_lookup_find_index(entries@.skip(i as int + 1), name@);
        }
        if e.0 == *name {
            return Some(i);
        }
        i += 1;
    }
    proof {
        assert(entries@.skip(n as int) =~= Seq::<(String, T)>::empty());
    }
    None
}

/// Registers a new database under `db_name`.
///
/// Returns `false`, leaving the catalog unchanged, when the name is empty or
/// already taken; otherwise appends an empty database under that name.
pub fn create_database(catalog: &mut Catalog, db_name: &str) -> (created: bool)
    ensures
        created <==> db_name@.len() > 0 && spec_lookup(old(catalog).databases@, db_name@) is None,
        !created ==> *final(catalog) == *old(catalog),
        created ==> {
            &&& final(catalog).databases@.len() == old(catalog).databases@.len() + 1
            &&& final(catalog).databases@.subrange(0, old(catalog).databases@.len() as int)
                == old(catalog).databases@
            &&& final(catalog).databases@.last().0@ == db_name@
            &&& final(catalog).databases@.last().1.tables@ == Seq::<(String, Table)>::empty()
        },
        old(catalog).wf() ==> final(catalog).wf(),
{
    if db_name.is_empty() {
        return false;
    }
    let key = db_name.to_owned();
    if lookup(&catalog.databases, &key).is_some() {
        return false;
    }
    proof {
        lemma_lookup_find_index(catalog.databases@, db_name@);
    }
    let ghost old_entries = catalog.databases@;
    catalog.databases.push((key, Database::new()));
    proof {
        assert(catalog.databases@.subrange(0, old_entries.len() as int) =~= old_entries);
    }
    true
}

/// Registers a table with the given columns under an existing database.
///
/// Returns `false`, leaving the catalog unchanged, when the database does
/// not exist or the table name is already taken within it.
pub fn create_table(
    catalog: &mut Catalog,
    db_name: &str,
    table_name: &str,
    columns: Vec<Column>,
) -> (created: bool)
    ensures
        created <==> (spec_lookup(old(catalog).databases@, db_name@) matches Some(db)
            && spec_lookup(db.tables@, table_name@) is None),
        !created ==> *final(catalog) == *old(catalog),
        created ==> {
            let i = spec_find_index(old(catalog).databases@, db_name@);
            let db = old(catalog).databases@[i].1;
            &&& 0 <= i < old(catalog).databases@.len()
            &&& final(catalog).databases@.len() == old(catalog).databases@.len()
            &&& forall|j: int|
                0 <= j < old(catalog).databases@.len() && j != i
                    ==> #[trigger] final(catalog).databases@[j] == old(catalog).databases@[j]
            &&& final(catalog).databases@[i].0 == old(catalog).databases@[i].0
            &&& final(catalog).databases@[i].1.tables@.len() == db.tables@.len() + 1
            &&& final(catalog).databases@[i].1.tables@.subrange(0, db.tables@.len() as int)
                == db.tables@
            &&& final(catalog).databases@[i].1.tables@.last().0@ == table_name@
            &&& final(catalog).databases@[i].1.tables@.last().1.columns == columns
        },
        old(catalog).wf() ==> final(catalog).wf(),
{
    let key = db_name.to_owned();
    let i = match lookup_index(&catalog.databases, &key) {
        Some(i) => i,
        None => {
            return false;
        },
    };
    let tkey = table_name.to_owned();
    let ghost old_dbs = catalog.databases@;
    let ghost old_tables = catalog.databases@[i as int].1.tables@;
    if lookup(&catalog.databases[i].1.tables, &tkey).is_some() {
        return false;
    }
    proof {
        lemma_lookup_find_index(old_tables, table_name@);
    }
    {
        let entry = &mut catalog.databases[i];
        entry.1.tables.push((tkey, Table { columns }));
    }
    proof {
        assert(catalog.databases@[i as int].1.tables@.subrange(0, old_tables.len() as int)
            =~= old_tables);
        if old(catalog).wf() {
            assert forall|a: int, b: int|
                0 <= a < b < catalog.databases@.len() implies (#[trigger] catalog.databases@[a].0)@
                != (#[trigger] catalog.databases@[b].0)@ by {
                assert(old_dbs[a].0 == catalog.databases@[a].0 || a == i);
                assert(old_dbs[b].0 == catalog.databases@[b].0 || b == i);
            }
            assert forall|a: int|
                0 <= a < catalog.databases@.len() implies (#[trigger] catalog.databases@[a].1).wf()
            by {
                if a != i {
                    assert(catalog.databases@[a] == old_dbs[a]);
                } else {
                    lemma_lookup_find_index(old_tables, table_name@);
                    assert forall|s: int, t: int|
                        0 <= s < t < catalog.databases@[a].1.tables@.len() implies (
                        #[trigger] catalog.databases@[a].1.tables@[s].0)@ != (
                        #[trigger] catalog.databases@[a].1.tables@[t].0)@ by {
                        assert(catalog.databases@[a].1.tables@[s] == old_tables[s]);
                    }
                }
            }
        }
    }
    true
}

/// Resolves the ordered column list of `db_name.table_name`.
///
/// A missing database or table yields `NotFound`.
pub fn get_schema<'a>(catalog: &'a Catalog, db_name: &str, table_name: &str) -> (r: Result<
    &'a Vec<Column>,
    StorageError,
>)
    ensures
        match r {
            Ok(cols) => spec_lookup(catalog.databases@, db_name@) matches Some(db)
                && spec_lookup(db.tables@, table_name@) matches Some(t) && cols == t.columns,
            Err(e) => e == StorageError::NotFound && (spec_lookup(catalog.databases@, db_name@)
                is None || (spec_lookup(catalog.databases@, db_name@) matches Some(db)
                && spec_lookup(db.tables@, table_name@) is None)),
        },
{
    let key = db_name.to_owned();
    let db = match lookup(&catalog.databases, &key) {
        Some(db) => db,
        None => {
            return Err(StorageError::NotFound);
        },
    };
    let tkey = table_name.to_owned();
    match lookup(&db.tables, &tkey) {
        Some(t) => Ok(&t.columns),
        None => Err(StorageError::NotFound),
    }
}

} // verus!
