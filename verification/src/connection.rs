//! Database connection: a pager and the schema catalog over it, and the
//! statements that change the schema, end transactions or ask a PRAGMA,
//! which it runs itself.

use vstd::prelude::*;

use crate::ast::Statement;
use crate::constants::DEFAULT_PAGE_SIZE;
use crate::error::SqlliteError;
use crate::io::{Vfs, VfsFile};
use crate::pager::{JournalMode, Pager, PagerFlags};
use crate::pragma::{execute_pragma, opt_text, pragma_effect};
use crate::schema::{lowercase, Schema};
use crate::text::same_str;
use crate::tree::pager_ready;
use crate::types::Value;
use crate::vdbe::{Event, Vdbe};
use std::path::Path;

verus! {

/// std's `Path::new`: the path that a string names. Nothing is claimed of
/// the result: the library only hands it to the VFS.
#[verifier::external_body]
fn path_of(s: &str) -> &Path {
    Path::new(s)
}

/// A database connection.
pub struct Connection<F: VfsFile> {
    pager: Pager<F>,
    schema: Schema,
    changes: i64,
    last_rowid: i64,
    in_transaction: bool,
}

/// Whether a statement is one that the connection runs itself: it changes
/// the schema, opens or ends a transaction, or is a PRAGMA.
pub open spec fn runs_itself(stmt: Statement) -> bool {
    match stmt {
        Statement::Select(_) | Statement::Insert(_) | Statement::Update(_) | Statement::Delete(
            _,
        ) => false,
        _ => true,
    }
}

impl<F: VfsFile> Connection<F> {
    pub closed spec fn spec_pager(&self) -> Pager<F> {
        self.pager
    }

    pub closed spec fn spec_schema(&self) -> Schema {
        self.schema
    }

    pub closed spec fn spec_changes(&self) -> i64 {
        self.changes
    }

    pub closed spec fn spec_last_rowid(&self) -> i64 {
        self.last_rowid
    }

    pub closed spec fn spec_in_transaction(&self) -> bool {
        self.in_transaction
    }

    /// The pager is ready for b-trees and the catalog is well formed.
    pub closed spec fn wf(&self) -> bool {
        pager_ready(&self.pager) && self.schema.wf()
    }

    /// A commit can advance the change counter and the schema cookie.
    pub open spec fn counters_below_limit(&self) -> bool {
        &&& self.spec_pager().spec_header().change_counter < u32::MAX
        &&& self.spec_schema().spec_cookie() < u32::MAX
    }

    /// Opens a connection to the database at `path` (`:memory:` for one in
    /// memory), with the schema table made in its catalog.
    pub fn open<V: Vfs<File = F>>(vfs: &V, path: &str) -> (r: Result<Self, SqlliteError>)
        ensures
            r matches Ok(c) ==> {
                &&& c.wf()
                &&& !c.spec_in_transaction()
                &&& c.spec_schema().has_schema_btree()
                &&& c.spec_schema().table_keys().contains(lowercase("sqlite_schema"@))
                &&& c.spec_schema().spec_cookie() == 0
            },
            path@ == ":memory:"@ ==> (r matches Ok(c) && c.spec_pager().spec_page_size()
                == DEFAULT_PAGE_SIZE && c.spec_pager().spec_journal_mode() == JournalMode::Delete),
    {
        let memory = same_str(path, ":memory:");
        let flags = PagerFlags { omit_journal: false, memory, read_only: false };
        let mut pager = if memory {
            match Pager::open(vfs, None, flags) {
                Ok(p) => p,
                Err(e) => return Err(e),
            }
        } else {
            match Pager::open(vfs, Some(path_of(path)), flags) {
                Ok(p) => p,
                Err(e) => return Err(e),
            }
        };
        let mut schema = Schema::new();
        match schema.init_schema_table(&mut pager) {
            Ok(()) => {},
            Err(e) => return Err(e),
        }
        Ok(Self { pager, schema, changes: 0, last_rowid: 0, in_transaction: false })
    }

    /// Opens a connection to a database in memory.
    pub fn open_in_memory<V: Vfs<File = F>>(vfs: &V) -> (r: Result<Self, SqlliteError>)
        ensures
            r matches Ok(c) ==> c.wf() && !c.spec_in_transaction()
                && c.spec_schema().has_schema_btree(),
            r matches Ok(c) && c.spec_pager().spec_page_size() == DEFAULT_PAGE_SIZE
                && c.spec_pager().spec_journal_mode() == JournalMode::Delete,
    {
        proof {
            reveal_strlit(":memory:");
        }
        Self::open(vfs, ":memory:")
    }

    /// Runs the next instruction of the prepared statement `vdbe` on this
    /// connection's pager and catalog.
    pub fn exec_next(&mut self, vdbe: &mut Vdbe) -> (r: Result<Event, SqlliteError>)
        requires
            old(self).wf(),
            old(vdbe).wf(),
            !old(vdbe).spec_halted(),
            old(vdbe).spec_pc() < old(vdbe).code().len(),
        ensures
            final(self).wf(),
            final(vdbe).wf(),
            final(vdbe).code() == old(vdbe).code(),
            final(self).spec_schema() == old(self).spec_schema(),
            final(self).spec_changes() == old(self).spec_changes(),
            final(self).spec_last_rowid() == old(self).spec_last_rowid(),
    {
        vdbe.exec_next(&mut self.pager, &self.schema)
    }

    /// Records what a finished statement did: the rows it changed and the
    /// last rowid it inserted.
    pub fn finish_statement(&mut self, vdbe: &Vdbe)
        ensures
            final(self).spec_changes() == vdbe.spec_changes(),
            final(self).spec_last_rowid() == vdbe.spec_last_rowid(),
            final(self).spec_schema() == old(self).spec_schema(),
            final(self).spec_pager() == old(self).spec_pager(),
            final(self).spec_in_transaction() == old(self).spec_in_transaction(),
            old(self).wf() ==> final(self).wf(),
    {
        self.changes = vdbe.changes();
        self.last_rowid = vdbe.last_insert_rowid();
    }

    pub fn changes(&self) -> (n: i64)
        ensures
            n == self.spec_changes(),
    {
        self.changes
    }

    pub fn last_insert_rowid(&self) -> (id: i64)
        ensures
            id == self.spec_last_rowid(),
    {
        self.last_rowid
    }

    pub fn pager(&self) -> (p: &Pager<F>)
        ensures
            *p == self.spec_pager(),
    {
        &self.pager
    }

    pub fn schema(&self) -> (s: &Schema)
        ensures
            *s == self.spec_schema(),
    {
        &self.schema
    }

    /// Commits the open transaction, if any, and ends it.
    pub fn commit(&mut self) -> (r: Result<(), SqlliteError>)
        requires
            old(self).wf(),
            old(self).counters_below_limit(),
        ensures
            final(self).wf(),
            final(self).spec_schema() == old(self).spec_schema(),
            r is Ok ==> !final(self).spec_in_transaction() && !final(self).spec_pager().spec_in_transaction(),
            r is Err ==> final(self).spec_in_transaction() == old(self).spec_in_transaction(),
    {
        match self.pager.commit() {
            Ok(()) => {},
            Err(e) => return Err(e),
        }
        self.in_transaction = false;
        Ok(())
    }

    /// Rolls the open transaction back, if any, and ends it.
    pub fn rollback(&mut self) -> (r: Result<(), SqlliteError>)
        requires
            old(self).wf(),
        ensures
            r is Ok,
            final(self).wf(),
            final(self).spec_schema() == old(self).spec_schema(),
            !final(self).spec_in_transaction(),
            !final(self).spec_pager().spec_in_transaction(),
    {
        match self.pager.rollback() {
            Ok(()) => {},
            Err(e) => return Err(e),
        }
        self.in_transaction = false;
        Ok(())
    }

    /// Runs a statement that the connection runs itself: CREATE TABLE,
    /// CREATE INDEX and DROP TABLE each in a transaction that is committed
    /// after, BEGIN, COMMIT, ROLLBACK, and a PRAGMA with the text of its
    /// value; the rows of a PRAGMA are its answer. A SELECT, INSERT, UPDATE
    /// or DELETE is left to the statement compiler: `None`, with nothing
    /// changed.
    pub fn execute_statement(&mut self, stmt: &Statement, pragma_value: Option<&str>) -> (r: Option<
        Result<Vec<Vec<Value>>, SqlliteError>,
    >)
        requires
            old(self).wf(),
            old(self).counters_below_limit(),
        ensures
            final(self).wf(),
            !runs_itself(*stmt) <==> r is None,
            r is None ==> *final(self) == *old(self),
            match *stmt {
                Statement::Begin => (r matches Some(Ok(rows)) && rows@.len() == 0)
                    && final(self).spec_in_transaction() && final(self).spec_pager().spec_in_transaction(),
                Statement::Rollback => (r matches Some(Ok(rows)) && rows@.len() == 0) && !final(self).spec_in_transaction(),
                Statement::Commit => r matches Some(Ok(_)) ==> !final(self).spec_in_transaction(),
                Statement::CreateTable(c) => r matches Some(Ok(rows)) ==> rows@.len() == 0
                    && final(self).spec_schema().table_keys().contains(lowercase(c.name@))
                    && !final(self).spec_pager().spec_in_transaction(),
                Statement::CreateIndex(c) => r matches Some(Ok(rows)) ==> rows@.len() == 0
                    && final(self).spec_schema().index_keys().contains(lowercase(c.name@))
                    && !final(self).spec_pager().spec_in_transaction(),
                Statement::DropTable(d) => r matches Some(Ok(rows)) ==> rows@.len() == 0
                    && !final(self).spec_schema().table_keys().contains(lowercase(d.name@))
                    && !final(self).spec_pager().spec_in_transaction(),
                Statement::Pragma(p) => final(self).spec_schema() == old(self).spec_schema() && (
                r matches Some(rows) && pragma_effect(
                    p.name@,
                    opt_text(pragma_value),
                    &old(self).spec_pager(),
                    &final(self).spec_pager(),
                    &old(self).spec_schema(),
                    rows,
                )),
                _ => true,
            },
    {
        match stmt {
            Statement::CreateTable(create) => {
                let _ = self.pager.begin();
                match self.schema.create_table(&mut self.pager, create) {
                    Ok(()) => {},
                    Err(e) => return Some(Err(e)),
                }
                match self.pager.commit() {
                    Ok(()) => {},
                    Err(e) => return Some(Err(e)),
                }
                proof {
                    let key = lowercase(create.name@);
                    if old(self).spec_schema().table_keys().contains(key) {
                        assert(self.schema.table_keys().contains(key));
                    } else {
                        let n = old(self).spec_schema().table_keys().len() as int;
                        assert(self.schema.table_keys()[n] == key);
                    }
                }
                Some(Ok(Vec::new()))
            },
            Statement::CreateIndex(create) => {
                let _ = self.pager.begin();
                match self.schema.create_index(&mut self.pager, create) {
                    Ok(()) => {},
                    Err(e) => return Some(Err(e)),
                }
                match self.pager.commit() {
                    Ok(()) => {},
                    Err(e) => return Some(Err(e)),
                }
                proof {
                    let key = lowercase(create.name@);
                    if old(self).spec_schema().index_keys().contains(key) {
                        assert(self.schema.index_keys().contains(key));
                    } else {
                        let n = old(self).spec_schema().index_keys().len() as int;
                        assert(self.schema.index_keys()[n] == key);
                    }
                }
                Some(Ok(Vec::new()))
            },
            Statement::DropTable(drop) => {
                let _ = self.pager.begin();
                let ghost before = self.schema.table_keys();
                match self.schema.drop_table(drop.name.as_str(), drop.if_exists) {
                    Ok(()) => {},
                    Err(e) => return Some(Err(e)),
                }
                proof {
                    let key = lowercase(drop.name@);
                    if before.contains(key) {
                        let i = choose|i: int|
                            0 <= i < before.len() && #[trigger] before[i] == key
                                && self.schema.table_keys() == before.remove(i);
                        old(self).spec_schema().lemma_wf_keys_distinct();
                        if self.schema.table_keys().contains(key) {
                            let j = choose|j: int|
                                0 <= j < self.schema.table_keys().len()
                                    && #[trigger] self.schema.table_keys()[j] == key;
                            if j < i {
                                assert(before[j] == key);
                            } else {
                                assert(before[j + 1] == key);
                            }
                        }
                    }
                }
                match self.pager.commit() {
                    Ok(()) => {},
                    Err(e) => return Some(Err(e)),
                }
                Some(Ok(Vec::new()))
            },
            Statement::Begin => {
                let _ = self.pager.begin();
                self.in_transaction = true;
                Some(Ok(Vec::new()))
            },
            Statement::Commit => match self.commit() {
                Ok(()) => Some(Ok(Vec::new())),
                Err(e) => Some(Err(e)),
            },
            Statement::Rollback => match self.rollback() {
                Ok(()) => Some(Ok(Vec::new())),
                Err(e) => Some(Err(e)),
            },
            Statement::Pragma(p) => Some(
                execute_pragma(p.name.as_str(), pragma_value, &mut self.pager, &self.schema),
            ),
            Statement::Select(_) | Statement::Insert(_) | Statement::Update(_) | Statement::Delete(
                _,
            ) => None,
        }
    }
}

} // verus!
