//! The trusted boundary to the Python parser: source text in, statement
//! model out, and the scan entry point built on it.

use vstd::prelude::*;

use crate::imports::{
    collect_imports, imports_of_stmts, records_view, ImportAlias, ImportRecord, PyStmt,
};
use rustpython_parser::ast::Alias;
use rustpython_parser::ast::Stmt;
use rustpython_parser::ast::StmtImportFrom;

verus! {

/// A file that could not be parsed (or, at the caller, not read).
#[derive(Debug)]
pub struct ScanError {
    /// The file the failure belongs to.
    pub file: String,
    /// A human-readable reason.
    pub reason: String,
}

#[verifier::external_type_specification]
#[verifier::external_body]
pub struct ExTextRange(rustpython_parser::text_size::TextRange);

#[verifier::external_type_specification]
#[verifier::external_body]
#[verifier::reject_recursive_types(R)]
pub struct ExStmt<R>(Stmt<R>);

#[verifier::external_type_specification]
#[verifier::external_body]
#[verifier::reject_recursive_types(R)]
pub struct ExAlias<R>(Alias<R>);

#[verifier::external_type_specification]
#[verifier::external_body]
#[verifier::reject_recursive_types(R)]
pub struct ExStmtImportFrom<R>(StmtImportFrom<R>);

/// What parsing a source text yields: the statement model of its module,
/// or nothing when the text does not parse.  The parser is deterministic,
/// so this is a function of the text alone.
pub uninterp spec fn module_stmts_of(source: Seq<char>) -> Option<Seq<PyStmt>>;

/// Relies on rustpython_parser::parse with module mode: on success the
/// result is the module's top-level statements, translated to the
/// statement model; the same text always parses the same way.
/// `file_name` only labels error messages.
#[verifier::external_body]
fn parse_source_stmts(source: &str, file_name: &str) -> (r: Result<Vec<PyStmt>, String>)
    ensures
        r matches Ok(stmts) ==> module_stmts_of(source@) == Some(stmts@),
        r is Err ==> module_stmts_of(source@) is None,
{
    match rustpython_parser::parse(source, rustpython_parser::Mode::Module, file_name) {
        Ok(rustpython_parser::ast::Mod::Module(m)) => Ok(convert_stmts(m.body)),
        Ok(_) => Err("parser returned a non-module tree".to_string()),
        Err(e) => Err(format!("{e:?}")),
    }
}

/// Relies on rustpython_ast's statement enum: each statement is moved into
/// the statement model, one arm per container kind; nested bodies recurse.
#[verifier::external_body]
fn convert_stmt(s: Stmt) -> (r: PyStmt) {
    match s {
        Stmt::Import(x) => PyStmt::Import(convert_aliases(x.names)),
        Stmt::ImportFrom(x) => convert_from(x),
        Stmt::If(x) => convert_branch(x.body, x.orelse),
        Stmt::While(x) => convert_branch(x.body, x.orelse),
        Stmt::For(x) => convert_branch(x.body, x.orelse),
        Stmt::AsyncFor(x) => convert_branch(x.body, x.orelse),
        Stmt::FunctionDef(x) => PyStmt::Scope { body: convert_stmts(x.body) },
        Stmt::AsyncFunctionDef(x) => PyStmt::Scope { body: convert_stmts(x.body) },
        Stmt::ClassDef(x) => PyStmt::Scope { body: convert_stmts(x.body) },
        _ => PyStmt::Other,
    }
}

/// Relies on rustpython_ast's two-armed statements (`if`/`else`,
/// `while`/`else`, `for`/`else`, `async for`/`else`): both bodies are
/// translated.
#[verifier::external_body]
fn convert_branch(body: Vec<Stmt>, orelse: Vec<Stmt>) -> (r: PyStmt) {
    PyStmt::Branch { body: convert_stmts(body), orelse: convert_stmts(orelse) }
}

/// Relies on rustpython_ast's from-import node: the source module, the
/// aliases and the relative level are moved over.
#[verifier::external_body]
fn convert_from(x: StmtImportFrom) -> (r: PyStmt) {
    PyStmt::ImportFrom {
        module: x.module.map(|m| m.to_string()),
        names: convert_aliases(x.names),
        level: x.level.map_or(0, |l| l.to_u32()),
    }
}

/// Relies on rustpython_ast's statement list layout: statements are
/// translated in order.
#[verifier::external_body]
fn convert_stmts(v: Vec<Stmt>) -> (r: Vec<PyStmt>) {
    v.into_iter().map(convert_stmt).collect()
}

/// Relies on rustpython_ast's alias node: `name` and `asname` are moved
/// over unchanged.
#[verifier::external_body]
fn convert_aliases(v: Vec<Alias>) -> (r: Vec<ImportAlias>) {
    v.into_iter()
        .map(|a| ImportAlias { name: a.name.to_string(), asname: a.asname.map(|n| n.to_string()) })
        .collect()
}

/// Scans one source file's text: parses it as a module and collects every
/// import record in source order.  The records are exactly the imports of
/// the text's statement model; a text the parser refuses is a `ScanError`
/// naming the file.
pub fn scan_source(source: &str, file_name: &str) -> (r: Result<Vec<ImportRecord>, ScanError>)
    ensures
        r matches Ok(recs) ==> match module_stmts_of(source@) {
            Some(ss) => records_view(recs@) == imports_of_stmts(ss),
            None => false,
        },
        r matches Err(e) ==> module_stmts_of(source@) is None && e.file@ == file_name@,
{
    match parse_source_stmts(source, file_name) {
        Ok(stmts) => {
            let recs = collect_imports(&stmts);
            Ok(recs)
        }
        Err(reason) => Err(ScanError { file: file_name.to_owned(), reason }),
    }
}

} // verus!
