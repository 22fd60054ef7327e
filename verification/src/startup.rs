//! Decisions at startup: where the database lies, whether it can be used, and how
//! its schema is brought up to date.

use crate::rows::views;
use crate::text::same_text;
use vstd::prelude::*;

verus! {

/// The directory under which the database lies.
#[derive(PartialEq, Eq, Structural)]
pub enum Root {
    /// The directory that the environment names.
    Override,
    /// The data directory of the user.
    DataDir,
    /// The working directory.
    WorkingDir,
}

/// A directory: where it starts, and the names that lead on from there.
pub struct StorageDir {
    pub root: Root,
    pub below: Vec<String>,
}

/// What is known of a database file after a look at it.
pub enum Probe {
    /// It could not be opened, for this reason.
    NotOpened(String),
    /// It was opened, but its integrity could not be checked, for this reason.
    NotChecked(String),
    /// Its integrity was checked, with this result.
    Checked(String),
}

/// What to do with a database file.
pub enum Verdict {
    /// Use it.
    Use,
    /// Set it aside and start with a fresh one, after this warning.
    StartFresh(String),
}

/// A step that brings the schema up to date.
#[derive(PartialEq, Eq, Structural)]
pub enum Migration {
    /// Create the tables of entries and sessions and the indexes of entries by time,
    /// unless they exist.
    CreateBase,
    /// Add the column `session_id` to the entries.
    AddSessionColumn,
    /// Create the index of entries by session, unless it exists.
    IndexSessions,
    /// Create the table of mementos and its index, unless they exist.
    CreateMementos,
}

/// The warning about a database file that is set aside, if it is.
pub open spec fn warning(probe: Probe) -> Option<Seq<char>> {
    match probe {
        Probe::NotOpened(reason) => Some(
            "contextor: failed to open database ("@ + reason@ + "), starting fresh"@,
        ),
        Probe::NotChecked(reason) => Some(
            "contextor: could not run integrity check ("@ + reason@ + "), starting fresh"@,
        ),
        Probe::Checked(result) => if result@ == "ok"@ {
            None
        } else {
            Some(
                "contextor: database integrity check failed ("@ + result@ + "), starting fresh"@,
            )
        },
    }
}

/// The steps for a table of entries with the given columns; none if there is no
/// such table.
pub open spec fn migrations(columns: Seq<Seq<char>>) -> Seq<Migration> {
    let rest = seq![Migration::IndexSessions, Migration::CreateMementos];
    if columns.contains("session_id"@) {
        seq![Migration::CreateBase] + rest
    } else {
        seq![Migration::CreateBase, Migration::AddSessionColumn] + rest
    }
}

/// A table: its columns, and its rows, each with what it holds in each column;
/// `None` where that is NULL.
#[verifier::ext_equal]
pub struct TableModel<V> {
    pub columns: Seq<Seq<char>>,
    pub rows: Seq<Map<Seq<char>, Option<V>>>,
}

/// A database: the tables that exist, and the names of the indexes.
#[verifier::ext_equal]
pub struct SchemaModel<V> {
    pub entries: Option<TableModel<V>>,
    pub sessions: Option<TableModel<V>>,
    pub mementos: Option<TableModel<V>>,
    pub indexes: Set<Seq<char>>,
}

/// A table after it was created with the given columns, unless it exists.
pub open spec fn created<V>(
    table: Option<TableModel<V>>,
    columns: Seq<Seq<char>>,
) -> Option<TableModel<V>> {
    match table {
        Some(t) => Some(t),
        None => Some(TableModel { columns, rows: Seq::empty() }),
    }
}

/// A table with one column more, which is NULL in every row.
pub open spec fn with_column<V>(table: TableModel<V>, column: Seq<char>) -> TableModel<V> {
    TableModel {
        columns: table.columns.push(column),
        rows: Seq::new(table.rows.len(), |i: int| table.rows[i].insert(column, None)),
    }
}

/// The columns with which the table of entries is created.
pub open spec fn base_columns() -> Seq<Seq<char>> {
    seq!["id"@, "theme"@, "content"@, "vector"@, "stored_at"@, "metadata"@]
}

/// The columns with which the table of sessions is created.
pub open spec fn session_columns() -> Seq<Seq<char>> {
    seq![
        "id"@,
        "title"@,
        "created_at"@,
        "updated_at"@,
        "message_count"@,
        "rolling_summary"@,
    ]
}

/// The columns with which the table of mementos is created.
pub open spec fn memento_columns() -> Seq<Seq<char>> {
    seq![
        "id"@,
        "theme"@,
        "content"@,
        "vector"@,
        "stored_at"@,
        "archived_at"@,
        "metadata"@,
        "session_id"@,
    ]
}

/// What a step makes of a database. The program carries each step out with
/// statements of SQL; that the database does with them what is said here is
/// outside of this library.
pub open spec fn after_step<V>(db: SchemaModel<V>, step: Migration) -> SchemaModel<V> {
    match step {
        Migration::CreateBase => SchemaModel {
            entries: created(db.entries, base_columns()),
            sessions: created(db.sessions, session_columns()),
            indexes: db.indexes.insert("idx_theme_stored_at"@).insert("idx_stored_at"@),
            ..db
        },
        Migration::AddSessionColumn => SchemaModel {
            entries: match db.entries {
                Some(t) => Some(with_column(t, "session_id"@)),
                None => None,
            },
            ..db
        },
        Migration::IndexSessions => SchemaModel {
            indexes: db.indexes.insert("idx_session_id"@),
            ..db
        },
        Migration::CreateMementos => SchemaModel {
            mementos: created(db.mementos, memento_columns()),
            indexes: db.indexes.insert("idx_memento_theme_archived"@),
            ..db
        },
    }
}

/// What steps, one after the other, make of a database.
pub open spec fn after_steps<V>(db: SchemaModel<V>, steps: Seq<Migration>) -> SchemaModel<V>
    decreases steps.len(),
{
    if steps.len() == 0 {
        db
    } else {
        after_step(after_steps(db, steps.drop_last()), steps.last())
    }
}

/// The columns of the table of entries; none if there is no such table.
pub open spec fn entry_columns<V>(db: SchemaModel<V>) -> Seq<Seq<char>> {
    match db.entries {
        Some(t) => t.columns,
        None => Seq::empty(),
    }
}

/// A database that was brought up to date.
pub open spec fn migrated<V>(db: SchemaModel<V>) -> SchemaModel<V> {
    after_steps(db, migrations(entry_columns(db)))
}

/// `before`, then `middle`, then `after`.
fn joined(before: &str, middle: &str, after: &str) -> (text: String)
    ensures
        text@ == before@ + middle@ + after@,
{
    let mut text: String = before.to_string();
    text.append(middle);
    text.append(after);
    text
}

/// Where the database lies: in `memory` under the directory that the environment
/// names, if it names one, and else in `jarvis/memory` under the data directory of
/// the user or, if that is not known, under the working directory.
pub fn resolve_storage_path(has_override: bool, has_data_dir: bool) -> (dir: StorageDir)
    ensures
        dir.root == (if has_override {
            Root::Override
        } else if has_data_dir {
            Root::DataDir
        } else {
            Root::WorkingDir
        }),
        has_override ==> dir.below@.len() == 1 && dir.below@[0]@ == "memory"@,
        !has_override ==> dir.below@.len() == 2 && dir.below@[0]@ == "jarvis"@
            && dir.below@[1]@ == "memory"@,
{
    let mut below: Vec<String> = Vec::new();
    if has_override {
        below.push("memory".to_string());
        StorageDir { root: Root::Override, below }
    } else {
        below.push("jarvis".to_string());
        below.push("memory".to_string());
        let root: Root = if has_data_dir {
            Root::DataDir
        } else {
            Root::WorkingDir
        };
        StorageDir { root, below }
    }
}

/// Decides whether a database file can be used: it can if it was opened and the
/// check of its integrity says `ok`.
pub fn open_or_recover(probe: Probe) -> (verdict: Verdict)
    ensures
        match verdict {
            Verdict::Use => warning(probe) is None,
            Verdict::StartFresh(text) => warning(probe) == Some(text@),
        },
{
    match probe {
        Probe::NotOpened(reason) => {
            let text: String = joined(
                "contextor: failed to open database (",
                reason.as_str(),
                "), starting fresh",
            );
            Verdict::StartFresh(text)
        },
        Probe::NotChecked(reason) => {
            let text: String = joined(
                "contextor: could not run integrity check (",
                reason.as_str(),
                "), starting fresh",
            );
            Verdict::StartFresh(text)
        },
        Probe::Checked(result) => {
            if same_text(result.as_str(), "ok") {
                Verdict::Use
            } else {
                let text: String = joined(
                    "contextor: database integrity check failed (",
                    result.as_str(),
                    "), starting fresh",
                );
                Verdict::StartFresh(text)
            }
        },
    }
}

/// Decides how the schema is brought up to date, from the columns of the table of
/// entries; there are none if there is no such table. The column for sessions
/// cannot be added twice.
pub fn migrate(columns: &Vec<String>) -> (steps: Vec<Migration>)
    ensures
        steps@ == migrations(views(columns@)),
{
    let mut found: bool = false;
    let mut i: usize = 0;
    while i < columns.len() && !found
        invariant
            i <= columns@.len(),
            found ==> views(columns@).contains("session_id"@),
            !found ==> forall|k: int| 0 <= k < i ==> #[trigger] views(columns@)[k] != "session_id"@,
        decreases columns.len() - i,
    {
        if same_text(columns[i].as_str(), "session_id") {
            assert(views(columns@)[i as int] == "session_id"@);
            found = true;
        }
        i = i + 1;
    }
    let mut steps: Vec<Migration> = Vec::new();
    steps.push(Migration::CreateBase);
    if !found {
        steps.push(Migration::AddSessionColumn);
    }
    steps.push(Migration::IndexSessions);
    steps.push(Migration::CreateMementos);
    assert(steps@ =~= migrations(views(columns@)));
    steps
}

proof fn lemma_four_steps<V>(
    db: SchemaModel<V>,
    a: Migration,
    b: Migration,
    c: Migration,
    d: Migration,
)
    ensures
        after_steps(db, seq![a, b, c]) == after_step(after_step(after_step(db, a), b), c),
        after_steps(db, seq![a, b, c, d]) == after_step(
            after_step(after_step(after_step(db, a), b), c),
            d,
        ),
{
    reveal_with_fuel(after_steps, 5);
    assert(seq![a, b, c, d].drop_last() =~= seq![a, b, c]);
    assert(seq![a, b, c].drop_last() =~= seq![a, b]);
    assert(seq![a, b].drop_last() =~= seq![a]);
    assert(seq![a].drop_last() =~= Seq::empty());
}

/// The steps one by one.
proof fn lemma_migrated<V>(db: SchemaModel<V>)
    ensures
        ({
            let base = after_step(db, Migration::CreateBase);
            let column = if entry_columns(db).contains("session_id"@) {
                base
            } else {
                after_step(base, Migration::AddSessionColumn)
            };
            migrated(db) == after_step(
                after_step(column, Migration::IndexSessions),
                Migration::CreateMementos,
            )
        }),
{
    let columns = entry_columns(db);
    lemma_four_steps(
        db,
        Migration::CreateBase,
        Migration::AddSessionColumn,
        Migration::IndexSessions,
        Migration::CreateMementos,
    );
    lemma_four_steps(
        db,
        Migration::CreateBase,
        Migration::IndexSessions,
        Migration::CreateMementos,
        Migration::CreateMementos,
    );
    if columns.contains("session_id"@) {
        assert(migrations(columns) =~= seq![
            Migration::CreateBase,
            Migration::IndexSessions,
            Migration::CreateMementos,
        ]);
    } else {
        assert(migrations(columns) =~= seq![
            Migration::CreateBase,
            Migration::AddSessionColumn,
            Migration::IndexSessions,
            Migration::CreateMementos,
        ]);
    }
}

/// A database that is brought up to date has all three tables, and the entries
/// have a column for sessions. No row is lost or added, and each holds in every
/// column what it held before; where the column for sessions is new, it is NULL.
/// This is so for an empty database, for an old one, and for one that was up to
/// date already.
pub proof fn law_migrate_keeps_rows<V>(db: SchemaModel<V>)
    ensures
        migrated(db).entries is Some,
        migrated(db).sessions is Some,
        migrated(db).mementos is Some,
        entry_columns(migrated(db)).contains("session_id"@),
        db.sessions is Some ==> migrated(db).sessions == db.sessions,
        db.mementos is Some ==> migrated(db).mementos == db.mementos,
        match db.entries {
            Some(t) => {
                let after = migrated(db).entries->0;
                &&& after.rows.len() == t.rows.len()
                &&& forall|i: int, column: Seq<char>|
                    0 <= i < t.rows.len() && t.columns.contains(column)
                        ==> #[trigger] after.rows[i][column] == t.rows[i][column]
                &&& !t.columns.contains("session_id"@) ==> forall|i: int|
                    0 <= i < t.rows.len() ==> (#[trigger] after.rows[i])["session_id"@] is None
            },
            None => migrated(db).entries->0.rows.len() == 0,
        },
{
    lemma_migrated(db);
    let columns = entry_columns(migrated(db));
    if !entry_columns(db).contains("session_id"@) {
        assert(columns[columns.len() - 1] == "session_id"@);
    }
}

/// Bringing a database up to date again changes nothing.
pub proof fn law_migrate_twice<V>(db: SchemaModel<V>)
    ensures
        migrated(migrated(db)) == migrated(db),
{
    let once = migrated(db);
    law_migrate_keeps_rows(db);
    lemma_migrated(db);
    lemma_migrated(once);
    assert(migrated(once) =~= once);
}

/// A database file is used exactly if it was opened and its integrity was checked with
/// the result `ok`; else the warning tells what was wrong, and why.
pub proof fn law_when_to_start_fresh(probe: Probe)
    ensures
        warning(probe) is None <==> probe is Checked && probe->Checked_0@ == "ok"@,
        probe is NotOpened ==> warning(probe) == Some(
            "contextor: failed to open database ("@ + probe->NotOpened_0@ + "), starting fresh"@,
        ),
        probe is NotChecked ==> warning(probe) == Some(
            "contextor: could not run integrity check ("@ + probe->NotChecked_0@
                + "), starting fresh"@,
        ),
        probe is Checked && probe->Checked_0@ != "ok"@ ==> warning(probe) == Some(
            "contextor: database integrity check failed ("@ + probe->Checked_0@
                + "), starting fresh"@,
        ),
{
}

/// The column for sessions is added exactly if the entries do not have it, after the
/// table was created and before its index is; the table of mementos comes last.
pub proof fn law_migration_steps(columns: Seq<Seq<char>>)
    ensures
        ({
            let steps = migrations(columns);
            let n = steps.len();
            let has_column = exists|i: int|
                0 <= i < columns.len() && #[trigger] columns[i] == "session_id"@;
            &&& n == if has_column {
                3int
            } else {
                4
            }
            &&& steps[0] == Migration::CreateBase
            &&& !has_column ==> steps[1] == Migration::AddSessionColumn
            &&& steps[n - 2] == Migration::IndexSessions
            &&& steps[n - 1] == Migration::CreateMementos
        }),
{
}

} // verus!
