//! The statements and meta commands of the command line: what a line of
//! text asks for, and what carrying it out does to the table.
use crate::btree::LEAF_NODE_MAX_CELLS;
use crate::row::{parse_row, Row, RowView, SyntaxErr};
use crate::search::{
    has_key, is_insertion_point, lemma_insertion_point, lemma_probe_bounds, lemma_search_correct,
    ordered, probe,
};
use crate::table::{
    executed_insert, insert_result, inserted_row, lemma_cursor_released, row_views, Cursor,
    ExecuteResult, Table,
};
use vstd::prelude::*;
use vstd::string::*;

verus! {

/// A statement, ready to be carried out.
#[derive(Debug)]
pub enum StatementType {
    StatementInsert(Row),
    StatementSelect,
}

/// What a line of text is as a statement.
#[derive(Debug)]
pub enum PrepareResult {
    PrepareSuccess(StatementType),
    PrepareUnRecognizedStatement,
    PrepareSyntaxError(SyntaxErr),
}

/// What a line of text is as a meta command, once the library has done its
/// part of it.
#[derive(Debug, Clone, Copy, PartialEq, Eq)]
pub enum MetaCommandResult {
    /// `.exit`: the table was closed; its file is to be stored, and the
    /// program ends.
    MetaCommandExit,
    /// `.constants`: the constants of the layout are to be shown.
    MetaCommandConstants,
    MetaCommandUnrecognizedCommand,
}

/// What carrying out a statement gave.
#[derive(Debug)]
pub enum Executed {
    /// An insert, and how it ended.
    Inserted(ExecuteResult),
    /// A select, and the rows of the table in the order of their cells.
    Selected(Vec<Row>),
}

/// `text` begins with `prefix`.
pub open spec fn has_prefix(text: Seq<u8>, prefix: Seq<u8>) -> bool {
    prefix.len() <= text.len() && text.subrange(0, prefix.len() as int) == prefix
}

/// Whether `text` begins with `prefix`.
pub fn starts_with(text: &[u8], prefix: &[u8]) -> (r: bool)
    ensures
        r == has_prefix(text@, prefix@),
{
    if prefix.len() > text.len() {
        return false;
    }
    let mut i: usize = 0;
    while i < prefix.len()
        invariant
            i <= prefix.len() <= text.len(),
            text@.subrange(0, i as int) == prefix@.subrange(0, i as int),
        decreases prefix.len() - i,
    {
        if text[i] != prefix[i] {
            assert(text@.subrange(0, prefix.len() as int)[i as int] != prefix@[i as int]);
            return false;
        }
        i += 1;
        assert(text@.subrange(0, i as int) =~= prefix@.subrange(0, i as int)) by {
            assert(text@.subrange(0, i as int).drop_last() =~= text@.subrange(0, i - 1));
            assert(prefix@.subrange(0, i as int).drop_last() =~= prefix@.subrange(0, i - 1));
        }
    }
    assert(prefix@.subrange(0, prefix.len() as int) =~= prefix@);
    true
}

/// Whether `text` is `word`.
pub fn is_word(text: &[u8], word: &[u8]) -> (r: bool)
    ensures
        r == (text@ == word@),
{
    assert(text@.subrange(0, text@.len() as int) =~= text@);
    text.len() == word.len() && starts_with(text, word)
}

/// Whether a line is a meta command: it begins with a dot.
pub fn is_meta_command(input: &str) -> (r: bool)
    ensures
        r == has_prefix(input.spec_bytes(), ".".spec_bytes()),
{
    starts_with(input.as_bytes(), ".".as_bytes())
}

/// What a line of text is as a statement. A line that begins with `insert`
/// is an insert statement, or a syntax error where its fields are not those
/// of a row; the line `select` is a select statement; any other line is no
/// statement.
pub open spec fn prepared(text: Seq<u8>) -> PreparedView {
    if has_prefix(text, "insert".spec_bytes()) {
        match parse_row(text) {
            Ok(row) => PreparedView::Insert(row),
            Err(e) => PreparedView::SyntaxError(e),
        }
    } else if text == "select".spec_bytes() {
        PreparedView::Select
    } else {
        PreparedView::Unrecognized
    }
}

/// What a prepared line is.
pub enum PreparedView {
    Insert(RowView),
    Select,
    SyntaxError(SyntaxErr),
    Unrecognized,
}

impl View for PrepareResult {
    type V = PreparedView;

    open spec fn view(&self) -> PreparedView {
        match *self {
            PrepareResult::PrepareSuccess(StatementType::StatementInsert(row)) => PreparedView::Insert(
                row@,
            ),
            PrepareResult::PrepareSuccess(StatementType::StatementSelect) => PreparedView::Select,
            PrepareResult::PrepareSyntaxError(e) => PreparedView::SyntaxError(e),
            PrepareResult::PrepareUnRecognizedStatement => PreparedView::Unrecognized,
        }
    }
}

/// Reads a line of text as a statement.
pub fn prepare_statement(input: &str) -> (r: PrepareResult)
    ensures
        r@ == prepared(input.spec_bytes()),
{
    let text: &[u8] = input.as_bytes();
    if starts_with(text, "insert".as_bytes()) {
        let statement: Row = match Row::new(input) {
            Ok(row) => row,
            Err(syntax_err) => { return PrepareResult::PrepareSyntaxError(syntax_err); },
        };
        return PrepareResult::PrepareSuccess(StatementType::StatementInsert(statement));
    }
    if is_word(text, "select".as_bytes()) {
        return PrepareResult::PrepareSuccess(StatementType::StatementSelect);
    }
    PrepareResult::PrepareUnRecognizedStatement
}

/// Carries out the library's part of a meta command. `.exit` closes the
/// table; `.constants` and any other line leave it as it is.
pub fn do_meta_command(input: &str, tbl: &mut Table) -> (r: MetaCommandResult)
    requires
        old(tbl).wf(),
    ensures
        final(tbl).wf(),
        r == (if input.spec_bytes() == ".exit".spec_bytes() {
            MetaCommandResult::MetaCommandExit
        } else if input.spec_bytes() == ".constants".spec_bytes() {
            MetaCommandResult::MetaCommandConstants
        } else {
            MetaCommandResult::MetaCommandUnrecognizedCommand
        }),
        final(tbl)@ == (if r == MetaCommandResult::MetaCommandExit {
            old(tbl)@.closed()
        } else {
            old(tbl)@
        }),
{
    let text: &[u8] = input.as_bytes();
    if is_word(text, ".exit".as_bytes()) {
        tbl.db_close();
        MetaCommandResult::MetaCommandExit
    } else if is_word(text, ".constants".as_bytes()) {
        MetaCommandResult::MetaCommandConstants
    } else {
        MetaCommandResult::MetaCommandUnrecognizedCommand
    }
}

/// Carries out a statement. An insert puts the row at the place that binary
/// search finds for its key; a select reads the rows from the first cell
/// on.
pub fn execute_statement(statement: StatementType, tbl: &mut Table) -> (r: Executed)
    requires
        old(tbl).wf(),
    ensures
        final(tbl).wf(),
        match statement {
            StatementType::StatementInsert(row) => {
                let keys = old(tbl)@.keys();
                let at = probe(keys, row@.id, 0, keys.len() as int);
                &&& r matches Executed::Inserted(result)
                &&& result == insert_result(keys, at, row@.id)
                &&& result != ExecuteResult::ExecuteSuccess ==> final(tbl)@ == old(tbl)@
                &&& final(tbl)@ == executed_insert(old(tbl)@, row@)
                &&& result == ExecuteResult::ExecuteSuccess ==> {
                    &&& final(tbl)@.keys() == keys.insert(at, row@.id)
                    &&& final(tbl)@.rows() == old(tbl)@.rows().insert(at, inserted_row(row@))
                }
                &&& ordered(keys) ==> {
                    &&& ordered(final(tbl)@.keys())
                    &&& is_insertion_point(keys, row@.id, at)
                    &&& has_key(keys, row@.id) ==> result != ExecuteResult::ExecuteSuccess
                    &&& has_key(keys, row@.id) && keys.len() < LEAF_NODE_MAX_CELLS ==> result
                        == ExecuteResult::ExecuteDuplicateKey
                }
            },
            StatementType::StatementSelect => {
                &&& r matches Executed::Selected(rows)
                &&& rows@.len() == old(tbl)@.num_cells()
                &&& row_views(rows@) == old(tbl)@.rows()
                &&& final(tbl)@ == old(tbl)@
            },
        },
{
    broadcast use lemma_cursor_released;

    match statement {
        StatementType::StatementInsert(row) => {
            proof {
                if ordered(tbl@.keys()) {
                    lemma_search_correct(tbl@.keys(), row@.id);
                    lemma_insertion_point(
                        tbl@.keys(),
                        row@.id,
                        probe(tbl@.keys(), row@.id, 0, tbl@.keys().len() as int),
                    );
                }
                lemma_probe_bounds(tbl@.keys(), row@.id, 0, tbl@.keys().len() as int);
            }
            let mut cursor: Cursor = tbl.find(row.id());
            let result: ExecuteResult = cursor.insert(row);
            Executed::Inserted(result)
        },
        StatementType::StatementSelect => {
            let mut cursor: Cursor = Cursor::table_start(tbl);
            let rows: Vec<Row> = cursor.select();
            Executed::Selected(rows)
        },
    }
}

} // verus!
