//! The table: one leaf page behind a pager, and the cursor that reads and
//! fills it.
use crate::btree::{
    empty_leaf, lemma_empty_leaf, get_leaf_node_key, get_leaf_node_num_cells, initialize_leaf_node, is_leaf,
    is_leaf_node, leaf_cells, leaf_inserted, leaf_keys, leaf_node_value, leaf_num_cells, leaf_rows,
    leaf_value, leaf_with_value, lemma_layout, lemma_leaf_inserted, make_room, set_leaf_node_key,
    set_leaf_node_num_cells, Page, LEAF_NODE_MAX_CELLS,
};
use crate::pager::{
    file_with_page, lemma_file_with_page, lemma_resident_count_none, lemma_resident_count_update,
    Pager, PagerView, StorageFault, PAGE_SIZE, TABLE_MAX_PAGE,
};
use crate::row::{
    lemma_row_bytes_len, lemma_row_round_trip, row_bytes, row_of_bytes, Row, RowView, ROW_SIZE,
};
use crate::search::{
    has_key, is_insertion_point, lemma_insert_keeps_order, lemma_insertion_point,
    lemma_probe_bounds, lemma_search_correct, ordered, probe,
};
use vstd::prelude::*;

verus! {

/// What a table is: the number of its root page, and its pager.
#[verifier::ext_equal]
pub struct TableView {
    pub root_page_num: nat,
    pub pager: PagerView,
}

impl TableView {
    /// The table's invariant: the root is page 0, it is in its slot, and it
    /// can be read as a leaf.
    pub open spec fn wf(self) -> bool {
        &&& self.pager.wf()
        &&& self.root_page_num == 0
        &&& self.pager.resident(0)
        &&& is_leaf(self.root())
    }

    /// The bytes of the root page.
    pub open spec fn root(self) -> Seq<u8> {
        self.pager.page(self.root_page_num as int)
    }

    /// The number of rows in the table.
    pub open spec fn num_cells(self) -> u32 {
        leaf_num_cells(self.root())
    }

    /// The cells of the table, in the order in which they are stored.
    pub open spec fn cells(self) -> Seq<Seq<u8>> {
        leaf_cells(self.root())
    }

    /// The keys of the table, in the order in which they are stored.
    pub open spec fn keys(self) -> Seq<u32> {
        leaf_keys(self.root())
    }

    /// The rows of the table, in the order in which they are stored.
    pub open spec fn rows(self) -> Seq<RowView> {
        leaf_rows(self.root())
    }

    /// The table with `page` as its root page.
    pub open spec fn with_root(self, page: Seq<u8>) -> TableView {
        TableView { pager: self.pager.with_page(self.root_page_num as int, page), ..self }
    }

    /// The table with every page that is in its slot among the first `upto`
    /// written to the file, in the order of the page numbers.
    pub open spec fn flushed(self, upto: int) -> TableView
        decreases upto,
    {
        if upto <= 0 {
            self
        } else {
            let before = self.flushed(upto - 1);
            if before.pager.resident(upto - 1) {
                TableView { pager: before.pager.flushed(upto - 1), ..before }
            } else {
                before
            }
        }
    }

    /// The table after it was closed: every page that is in its slot has
    /// been written to the file.
    pub open spec fn closed(self) -> TableView {
        self.flushed(TABLE_MAX_PAGE as int)
    }
}

/// The table that opens over the bytes of a data file. A file of no bytes
/// gives a table with a fresh leaf as its root; any other file must be a
/// whole number of pages whose first can be read as a leaf.
pub open spec fn opened(file: Seq<u8>) -> Result<TableView, StorageFault> {
    let pager = PagerView {
        slots: Seq::new(TABLE_MAX_PAGE as nat, |i: int| None::<Seq<u8>>),
        file: file,
        file_length: file.len(),
        num_pages: file.len() / (PAGE_SIZE as nat),
    };
    if file.len() % (PAGE_SIZE as nat) != 0 {
        Err(StorageFault::CorruptFile)
    } else if file.len() == 0 {
        Ok(TableView { root_page_num: 0, pager: pager.with_page(0, empty_leaf()) })
    } else if is_leaf(file.subrange(0, PAGE_SIZE as int)) {
        Ok(TableView { root_page_num: 0, pager: pager.with_page(0, file.subrange(0, PAGE_SIZE as int)) })
    } else {
        Err(StorageFault::CorruptLeaf)
    }
}

/// One table of rows, kept in the single leaf page that is its root.
#[derive(Debug)]
pub struct Table {
    root_page_num: usize,
    pager: Pager,
}

impl View for Table {
    type V = TableView;

    closed spec fn view(&self) -> TableView {
        TableView { root_page_num: self.root_page_num as nat, pager: self.pager@ }
    }
}

impl Table {
    /// The table's invariant.
    pub open spec fn wf(&self) -> bool {
        self@.wf()
    }

    /// Opens the table that the bytes of a data file hold.
    pub fn db_open(file: Vec<u8>) -> (r: Result<Table, StorageFault>)
        ensures
            match r {
                Ok(table) => opened(file@) == Ok::<TableView, StorageFault>(table@) && table.wf(),
                Err(e) => opened(file@) == Err::<TableView, StorageFault>(e),
            },
    {
        let mut pager: Pager = match Pager::open(file) {
            Ok(pager) => pager,
            Err(e) => { return Err(e); },
        };
        let is_new: bool = pager.num_pages() == 0;
        let page: &mut Page = pager.get_page(0).unwrap();
        if is_new {
            initialize_leaf_node(page);
        } else if !is_leaf_node(page) {
            return Err(StorageFault::CorruptLeaf);
        }
        let table = Table { root_page_num: 0, pager };
        Ok(table)
    }

    /// Closes the table: writes every page that is in its slot to the file,
    /// in the order of the page numbers. The pages stay in their slots.
    pub fn db_close(&mut self)
        requires
            old(self).wf(),
        ensures
            final(self)@ == old(self)@.closed(),
            final(self).wf(),
            final(self)@.root() == old(self)@.root(),
            opened(final(self)@.pager.file) is Ok,
            opened(final(self)@.pager.file)->Ok_0.root() == old(self)@.root(),
    {
        proof {
            lemma_flushed(old(self)@, TABLE_MAX_PAGE as int);
            lemma_reopen(old(self)@);
        }
        let mut i: usize = 0;
        while i < TABLE_MAX_PAGE
            invariant
                i <= TABLE_MAX_PAGE,
                old(self).wf(),
                self@ == old(self)@.flushed(i as int),
                self.wf(),
            decreases TABLE_MAX_PAGE - i,
        {
            if self.pager.is_resident(i) {
                self.pager.flush(i).unwrap();
            }
            i += 1;
            proof {
                lemma_flushed(old(self)@, i as int);
            }
        }
    }

    /// The root page, open for writing.
    fn root_page(&mut self) -> (page: &mut Page)
        requires
            old(self).wf(),
        ensures
            page@ == old(self)@.root(),
            is_leaf(page@),
            final(self)@ == old(self)@.with_root(final(page)@),
            is_leaf(final(page)@) ==> old(self)@.with_root(final(page)@).wf(),
    {
        self.pager.get_page(self.root_page_num).unwrap()
    }

    /// Finds the place of `key` in the table.
    pub fn find<'a>(&'a mut self, key: u32) -> (cursor: Cursor<'a>)
        requires
            old(self).wf(),
        ensures
            cursor.wf(),
            cursor.table()@ == old(self)@,
            *final(cursor.table()) == *final(self),
            cursor@ == (CursorView {
                page_num: old(self)@.root_page_num,
                cell_num: probe(old(self)@.keys(), key, 0, old(self)@.keys().len() as int) as u32,
                end_of_table: false,
            }),
            cursor@.cell_num <= old(self)@.num_cells(),
            ordered(old(self)@.keys()) ==> is_insertion_point(
                old(self)@.keys(),
                key,
                cursor@.cell_num as int,
            ),
    {
        Cursor::leaf_node_find(self, key)
    }

    /// The bytes of the data file, as the last close has left them.
    pub fn file(&self) -> (file: &Vec<u8>)
        ensures
            file@ == self@.pager.file,
    {
        self.pager.file()
    }
}

/// How an insert ended.
#[derive(Debug, Clone, Copy, PartialEq, Eq)]
pub enum ExecuteResult {
    ExecuteSuccess,
    ExecuteTableFull,
    ExecuteDuplicateKey,
}

/// How an insert of `key` at the cell `cell` ends in a leaf with the given
/// keys: a full leaf takes no row; else a key that the cell already holds is
/// not inserted again; else the insert succeeds.
pub open spec fn insert_result(keys: Seq<u32>, cell: int, key: u32) -> ExecuteResult {
    if keys.len() >= LEAF_NODE_MAX_CELLS {
        ExecuteResult::ExecuteTableFull
    } else if 0 <= cell < keys.len() && keys[cell] == key {
        ExecuteResult::ExecuteDuplicateKey
    } else {
        ExecuteResult::ExecuteSuccess
    }
}

/// The row that the table holds once `row` was inserted: the row that its
/// fixed-width form holds.
pub open spec fn inserted_row(row: RowView) -> RowView {
    row_of_bytes(row_bytes(row))
}

/// The table once `row` was inserted at the cell `cell`.
pub open spec fn inserted(table: TableView, cell: int, row: RowView) -> TableView {
    table.with_root(leaf_inserted(table.root(), cell, row.id, row_bytes(row)))
}

/// The table once an insert of `row` was carried out at the place that
/// binary search finds for its key: the table with the row where the insert
/// succeeds, else the table as it was.
pub open spec fn executed_insert(table: TableView, row: RowView) -> TableView {
    let at = probe(table.keys(), row.id, 0, table.keys().len() as int);
    if insert_result(table.keys(), at, row.id) == ExecuteResult::ExecuteSuccess {
        inserted(table, at, row)
    } else {
        table
    }
}

/// The table once the rows were inserted one after the other, each at the
/// place that binary search finds for its key.
pub open spec fn executed_inserts(table: TableView, rows: Seq<RowView>) -> TableView
    decreases rows.len(),
{
    if rows.len() == 0 {
        table
    } else {
        executed_insert(executed_inserts(table, rows.drop_last()), rows.last())
    }
}

/// The cell behind the last that a scan from `cell` reads: the scan reads
/// the cell it stands on, and goes on up to the last cell of the leaf.
pub open spec fn scan_stop(page: Seq<u8>, cell: int) -> int {
    if cell < leaf_num_cells(page) {
        leaf_num_cells(page) as int
    } else {
        cell + 1
    }
}

/// The rows that a scan reads from a cursor at `cell`: none where the
/// cursor is at the end, else those of the cells up to `scan_stop`.
pub open spec fn scanned(page: Seq<u8>, cell: int, end_of_table: bool) -> Seq<RowView> {
    if end_of_table {
        Seq::empty()
    } else {
        Seq::new(
            (scan_stop(page, cell) - cell) as nat,
            |i: int| row_of_bytes(leaf_value(page, cell + i)),
        )
    }
}

/// What each of the rows is.
pub open spec fn row_views(rows: Seq<Row>) -> Seq<RowView> {
    Seq::new(rows.len(), |i: int| rows[i]@)
}

/// Where a cursor stands: on which page, at which cell, and whether it has
/// run past the last cell.
pub struct CursorView {
    pub page_num: nat,
    pub cell_num: u32,
    pub end_of_table: bool,
}

/// A position in a table, through which the table is read and filled.
#[derive(Debug)]
pub struct Cursor<'a> {
    table: &'a mut Table,
    page_num: usize,
    cell_num: u32,
    end_of_table: bool,
}

impl<'a> View for Cursor<'a> {
    type V = CursorView;

    closed spec fn view(&self) -> CursorView {
        CursorView {
            page_num: self.page_num as nat,
            cell_num: self.cell_num,
            end_of_table: self.end_of_table,
        }
    }
}

impl<'a> Cursor<'a> {
    /// The table that the cursor stands in.
    pub closed spec fn table(&self) -> &'a mut Table {
        self.table
    }

    /// The cursor's invariant: its table is well formed, and it stands on
    /// the root page.
    pub open spec fn wf(&self) -> bool {
        &&& self.table().wf()
        &&& self@.page_num == self.table()@.root_page_num
    }

    /// A cursor at the first cell of the table. It is at the end at once
    /// where the table has no rows.
    pub fn table_start(table: &'a mut Table) -> (cursor: Cursor<'a>)
        requires
            old(table).wf(),
        ensures
            cursor.wf(),
            cursor.table()@ == old(table)@,
            *final(cursor.table()) == *final(table),
            cursor@ == (CursorView {
                page_num: old(table)@.root_page_num,
                cell_num: 0,
                end_of_table: old(table)@.num_cells() == 0,
            }),
    {
        let root_page_num: usize = table.root_page_num;
        let page: &mut Page = table.root_page();
        let num_cells: u32 = get_leaf_node_num_cells(page);
        let end_of_table: bool = num_cells == 0;
        proof {
            lemma_same_root(old(table)@);
        }
        Cursor { table, page_num: root_page_num, cell_num: 0, end_of_table }
    }

    /// A cursor behind the last cell of the table, where a row is appended.
    pub fn table_end(table: &'a mut Table) -> (cursor: Cursor<'a>)
        requires
            old(table).wf(),
        ensures
            cursor.wf(),
            cursor.table()@ == old(table)@,
            *final(cursor.table()) == *final(table),
            cursor@ == (CursorView {
                page_num: old(table)@.root_page_num,
                cell_num: old(table)@.num_cells(),
                end_of_table: true,
            }),
    {
        let root_page_num: usize = table.root_page_num;
        let page: &mut Page = table.root_page();
        let num_cells: u32 = get_leaf_node_num_cells(page);
        proof {
            lemma_same_root(old(table)@);
        }
        Cursor { table, page_num: root_page_num, cell_num: num_cells, end_of_table: true }
    }

    /// A cursor at the cell where binary search for `key` stops. Among keys
    /// in order that is the place of `key`: the cell that holds it, or the
    /// cell before which it is to be inserted.
    pub fn leaf_node_find(table: &'a mut Table, key: u32) -> (cursor: Cursor<'a>)
        requires
            old(table).wf(),
        ensures
            cursor.wf(),
            cursor.table()@ == old(table)@,
            *final(cursor.table()) == *final(table),
            cursor@ == (CursorView {
                page_num: old(table)@.root_page_num,
                cell_num: probe(old(table)@.keys(), key, 0, old(table)@.keys().len() as int) as u32,
                end_of_table: false,
            }),
            cursor@.cell_num <= old(table)@.num_cells(),
            ordered(old(table)@.keys()) ==> is_insertion_point(
                old(table)@.keys(),
                key,
                cursor@.cell_num as int,
            ),
    {
        let mut min_index: u32 = 0;
        let page_num: usize = table.root_page_num;
        let page: &mut Page = table.root_page();
        let mut one_past_max_index: u32 = get_leaf_node_num_cells(page);
        let ghost keys = leaf_keys(page@);
        proof {
            lemma_layout();
            lemma_same_root(old(table)@);
        }
        while one_past_max_index != min_index
            invariant_except_break
                min_index <= one_past_max_index <= keys.len(),
                probe(keys, key, min_index as int, one_past_max_index as int) == probe(
                    keys,
                    key,
                    0,
                    keys.len() as int,
                ),
            invariant
                page@.len() == PAGE_SIZE,
                keys == leaf_keys(page@),
                keys.len() <= LEAF_NODE_MAX_CELLS,
                LEAF_NODE_MAX_CELLS == 13,
            ensures
                min_index == probe(keys, key, 0, keys.len() as int),
            decreases one_past_max_index - min_index,
        {
            let index: u32 = (one_past_max_index + min_index) / 2;
            let key_at_index: u32 = get_leaf_node_key(page, index);
            if key == key_at_index {
                min_index = index;
                break ;
            }
            if key_at_index < key {
                min_index = index + 1;
            } else {
                one_past_max_index = index;
            }
        }
        proof {
            lemma_probe_bounds(keys, key, 0, keys.len() as int);
            if ordered(keys) {
                lemma_search_correct(keys, key);
            }
        }
        Cursor { table, page_num, cell_num: min_index, end_of_table: false }
    }

    /// The number of the page that the cursor stands on.
    pub fn page_num(&self) -> (page_num: usize)
        ensures
            page_num == self@.page_num,
    {
        self.page_num
    }

    /// The index of the cell that the cursor stands on.
    pub fn cell_num(&self) -> (cell_num: u32)
        ensures
            cell_num == self@.cell_num,
    {
        self.cell_num
    }

    /// Whether the cursor has run past the last cell.
    pub fn end_of_table(&self) -> (end_of_table: bool)
        ensures
            end_of_table == self@.end_of_table,
    {
        self.end_of_table
    }

    /// Moves the cursor to the next cell. The cursor is at the end once it
    /// has reached the number of cells of the leaf.
    pub fn advance(&mut self)
        requires
            old(self).wf(),
            old(self)@.cell_num < u32::MAX,
        ensures
            final(self).wf(),
            final(self).table()@ == old(self).table()@,
            *final(final(self).table()) == *final(old(self).table()),
            final(self)@ == (CursorView {
                cell_num: (old(self)@.cell_num + 1) as u32,
                end_of_table: old(self)@.end_of_table || old(self)@.cell_num + 1 >= old(
                    self,
                ).table()@.num_cells(),
                ..old(self)@
            }),
    {
        self.cell_num += 1;
        let page: &mut Page = self.table.root_page();
        if self.cell_num >= get_leaf_node_num_cells(page) {
            self.end_of_table = true;
        }
        proof {
            lemma_same_root(old(self).table()@);
        }
    }

    /// The row bytes of the cell that the cursor stands on, open for
    /// writing: what is written there is written into the table.
    pub fn value(&mut self) -> (slot: &mut [u8])
        requires
            old(self).wf(),
            old(self)@.cell_num < LEAF_NODE_MAX_CELLS,
        ensures
            slot@ == leaf_value(old(self).table()@.root(), old(self)@.cell_num as int),
            slot@.len() == ROW_SIZE,
            final(self)@ == old(self)@,
            *final(final(self).table()) == *final(old(self).table()),
            final(self).table()@ == old(self).table()@.with_root(
                leaf_with_value(old(self).table()@.root(), old(self)@.cell_num as int, final(slot)@),
            ),
            final(slot)@.len() == ROW_SIZE ==> final(self).wf(),
    {
        proof {
            lemma_layout();
        }
        let page: &mut Page = self.table.root_page();
        leaf_node_value(page, self.cell_num)
    }

    /// Inserts `row` at the cell that the cursor stands on. A full leaf takes
    /// no row; a key that the cell already holds is not inserted again; in
    /// both cases the table stays as it is. Else the cells from the cursor on
    /// move one cell to the right and the row takes the free cell.
    pub fn insert(&mut self, row: Row) -> (result: ExecuteResult)
        requires
            old(self).wf(),
            old(self)@.cell_num <= old(self).table()@.num_cells(),
        ensures
            final(self).wf(),
            final(self)@ == old(self)@,
            *final(final(self).table()) == *final(old(self).table()),
            result == insert_result(old(self).table()@.keys(), old(self)@.cell_num as int, row@.id),
            result != ExecuteResult::ExecuteSuccess ==> final(self).table()@ == old(self).table()@,
            result == ExecuteResult::ExecuteSuccess ==> {
                &&& final(self).table()@ == inserted(
                    old(self).table()@,
                    old(self)@.cell_num as int,
                    row@,
                )
                &&& final(self).table()@.keys() == old(self).table()@.keys().insert(
                    old(self)@.cell_num as int,
                    row@.id,
                )
                &&& final(self).table()@.rows() == old(self).table()@.rows().insert(
                    old(self)@.cell_num as int,
                    inserted_row(row@),
                )
                &&& row@.unpadded() ==> inserted_row(row@) == row@
                &&& ordered(old(self).table()@.keys()) && is_insertion_point(
                    old(self).table()@.keys(),
                    row@.id,
                    old(self)@.cell_num as int,
                ) ==> ordered(final(self).table()@.keys())
            },
    {
        let ghost before = old(self).table()@;
        let ghost cell = old(self)@.cell_num as int;
        proof {
            lemma_layout();
            lemma_same_root(before);
            use_type_invariant(&row);
        }
        let page: &mut Page = self.table.root_page();
        let num_cells: u32 = get_leaf_node_num_cells(page);
        if num_cells as usize >= LEAF_NODE_MAX_CELLS {
            return ExecuteResult::ExecuteTableFull;
        }
        if self.cell_num < num_cells && row.id() == get_leaf_node_key(page, self.cell_num) {
            return ExecuteResult::ExecuteDuplicateKey;
        }
        if self.cell_num < num_cells {
            make_room(page, self.cell_num);
        }
        set_leaf_node_num_cells(page, num_cells + 1);
        set_leaf_node_key(page, self.cell_num, row.id());
        let ghost keyed = page@;
        proof {
            lemma_leaf_inserted(before.root(), cell, row@.id, row_bytes(row@));
            assert(leaf_with_value(keyed, cell, row_bytes(row@)) =~= leaf_inserted(
                before.root(),
                cell,
                row@.id,
                row_bytes(row@),
            ));
            assert(before.with_root(keyed).with_root(leaf_with_value(keyed, cell, row_bytes(row@)))
                =~= before.with_root(leaf_with_value(keyed, cell, row_bytes(row@)))) by {
                assert(before.pager.slots.update(0, Some(keyed)).update(
                    0,
                    Some(leaf_with_value(keyed, cell, row_bytes(row@))),
                ) =~= before.pager.slots.update(
                    0,
                    Some(leaf_with_value(keyed, cell, row_bytes(row@))),
                ));
            }
        }
        row.serialize(self.value());
        proof {
            if row@.unpadded() {
                lemma_row_round_trip(row@);
            }
            if ordered(before.keys()) && is_insertion_point(before.keys(), row@.id, cell) {
                lemma_insert_keeps_order(before.keys(), row@.id, cell);
            }
        }
        ExecuteResult::ExecuteSuccess
    }

    /// Reads the rows from the cursor on, in the order of the cells, and
    /// leaves the cursor at the end.
    pub fn select(&mut self) -> (rows: Vec<Row>)
        requires
            old(self).wf(),
            !old(self)@.end_of_table ==> old(self)@.cell_num < LEAF_NODE_MAX_CELLS,
        ensures
            final(self).wf(),
            final(self).table()@ == old(self).table()@,
            *final(final(self).table()) == *final(old(self).table()),
            row_views(rows@) == scanned(
                old(self).table()@.root(),
                old(self)@.cell_num as int,
                old(self)@.end_of_table,
            ),
            rows@.len() == (if old(self)@.end_of_table {
                0
            } else {
                scan_stop(old(self).table()@.root(), old(self)@.cell_num as int) - old(
                    self,
                )@.cell_num
            }),
            final(self)@ == (CursorView {
                cell_num: if old(self)@.end_of_table {
                    old(self)@.cell_num
                } else {
                    scan_stop(old(self).table()@.root(), old(self)@.cell_num as int) as u32
                },
                end_of_table: true,
                ..old(self)@
            }),
            old(self)@.cell_num <= old(self).table()@.num_cells() && (old(self)@.end_of_table <==> old(
                self,
            )@.cell_num == old(self).table()@.num_cells()) ==> row_views(rows@) == old(
                self,
            ).table()@.rows().subrange(
                old(self)@.cell_num as int,
                old(self).table()@.num_cells() as int,
            ),
    {
        let ghost root = old(self).table()@.root();
        let ghost first = old(self)@.cell_num as int;
        let ghost stop = scan_stop(root, first);
        let mut rows: Vec<Row> = Vec::new();
        proof {
            lemma_layout();
        }
        while !self.end_of_table
            invariant
                self.wf(),
                is_leaf(root),
                self.table()@ == old(self).table()@,
                *final(self.table()) == *final(old(self).table()),
                self@.page_num == old(self)@.page_num,
                root == old(self).table()@.root(),
                first == old(self)@.cell_num,
                stop == scan_stop(root, first),
                LEAF_NODE_MAX_CELLS == 13,
                old(self).wf(),
                !old(self)@.end_of_table ==> first < LEAF_NODE_MAX_CELLS,
                old(self)@.end_of_table ==> self@ == old(self)@,
                !old(self)@.end_of_table ==> first <= self@.cell_num <= stop && (self@.end_of_table
                    <==> self@.cell_num == stop),
                rows@.len() == self@.cell_num - first,
                forall|i: int| 0 <= i < rows@.len() ==> (#[trigger] rows@[i])@ == row_of_bytes(
                    leaf_value(root, first + i),
                ),
            decreases stop - self@.cell_num,
        {
            let ghost at = self@.cell_num as int;
            let ghost here = self.table()@;
            let row_slot: &mut [u8] = self.value();
            let row: Row = Row::deserialize(row_slot);
            proof {
                lemma_layout();
                assert(leaf_with_value(root, at, leaf_value(root, at)) =~= root);
                lemma_same_root(here);
            }
            rows.push(row);
            self.advance();
        }
        assert(row_views(rows@) =~= scanned(root, first, old(self)@.end_of_table));
        proof {
            let n = leaf_num_cells(root) as int;
            if first <= n && (old(self)@.end_of_table <==> first == n) {
                assert(row_views(rows@) =~= leaf_rows(root).subrange(first, n));
            }
        }
        rows
    }
}

/// A cursor that is no longer used leaves its table as the cursor last saw
/// it.
pub broadcast proof fn lemma_cursor_released<'a>(cursor: Cursor<'a>)
    requires
        #[trigger] has_resolved(cursor),
    ensures
        *cursor.table() == *final(cursor.table()),
{
}

/// A table whose root page is put back as it is, is the table.
pub proof fn lemma_same_root(v: TableView)
    requires
        v.wf(),
    ensures
        v.with_root(v.root()) == v,
{
    assert(v.pager.slots.update(0, Some(v.root())) =~= v.pager.slots);
}

/// A table that gets a leaf as its root page stays a table, with that leaf
/// as its root.
pub proof fn lemma_with_root(v: TableView, page: Seq<u8>)
    requires
        v.wf(),
        is_leaf(page),
    ensures
        v.with_root(page).wf(),
        v.with_root(page).root() == page,
{
    lemma_resident_count_update(v.pager.slots, 0, page);
}

/// What one insert at the place of its key does to a table whose keys are in
/// order: the keys stay in order; a key that was there is not inserted
/// again; a new key is there afterwards, at its place, unless the table was
/// full.
pub proof fn lemma_executed_insert(v: TableView, row: RowView)
    requires
        v.wf(),
        row.wf(),
        ordered(v.keys()),
    ensures
        executed_insert(v, row).wf(),
        ordered(executed_insert(v, row).keys()),
        has_key(v.keys(), row.id) ==> executed_insert(v, row) == v,
        v.keys().len() >= LEAF_NODE_MAX_CELLS ==> executed_insert(v, row) == v,
        !has_key(v.keys(), row.id) && v.keys().len() < LEAF_NODE_MAX_CELLS ==> {
            let at = probe(v.keys(), row.id, 0, v.keys().len() as int);
            &&& is_insertion_point(v.keys(), row.id, at)
            &&& executed_insert(v, row).keys() == v.keys().insert(at, row.id)
            &&& executed_insert(v, row).rows() == v.rows().insert(at, inserted_row(row))
            &&& has_key(executed_insert(v, row).keys(), row.id)
        },
{
    let keys = v.keys();
    let at = probe(keys, row.id, 0, keys.len() as int);
    lemma_search_correct(keys, row.id);
    lemma_insertion_point(keys, row.id, at);
    if insert_result(keys, at, row.id) == ExecuteResult::ExecuteSuccess {
        lemma_layout();
        lemma_row_bytes_len(row);
        lemma_leaf_inserted(v.root(), at, row.id, row_bytes(row));
        lemma_with_root(v, leaf_inserted(v.root(), at, row.id, row_bytes(row)));
        lemma_insert_keeps_order(keys, row.id, at);
        assert(keys.insert(at, row.id)[at] == row.id);
    }
}

/// Sortedness after any sequence of inserts: rows inserted one after the
/// other into a table whose keys are in order, each at the place of its key,
/// leave a table whose keys are in order.
pub proof fn lemma_executed_inserts(v: TableView, rows: Seq<RowView>)
    requires
        v.wf(),
        ordered(v.keys()),
        forall|i: int| 0 <= i < rows.len() ==> (#[trigger] rows[i]).wf(),
    ensures
        executed_inserts(v, rows).wf(),
        ordered(executed_inserts(v, rows).keys()),
    decreases rows.len(),
{
    if rows.len() > 0 {
        lemma_executed_inserts(v, rows.drop_last());
        lemma_executed_insert(executed_inserts(v, rows.drop_last()), rows.last());
    }
}

/// A table opened over a file of no bytes has no row, so its keys are in
/// order.
pub proof fn lemma_opened_empty()
    ensures
        opened(Seq::<u8>::empty()) is Ok,
        opened(Seq::<u8>::empty())->Ok_0.wf(),
        opened(Seq::<u8>::empty())->Ok_0.keys() == Seq::<u32>::empty(),
        ordered(opened(Seq::<u8>::empty())->Ok_0.keys()),
{
    let file = Seq::<u8>::empty();
    let fresh = PagerView {
        slots: Seq::new(TABLE_MAX_PAGE as nat, |i: int| None::<Seq<u8>>),
        file: file,
        file_length: file.len(),
        num_pages: file.len() / (PAGE_SIZE as nat),
    };
    lemma_resident_count_none(fresh.slots);
    lemma_resident_count_update(fresh.slots, 0, empty_leaf());
    lemma_empty_leaf();
    assert(opened(file)->Ok_0.keys() =~= Seq::<u32>::empty());
}

/// The file holds the bytes `page` at the place of page `page_num`.
pub open spec fn file_holds(file: Seq<u8>, page_num: int, page: Seq<u8>) -> bool {
    &&& (page_num + 1) * PAGE_SIZE <= file.len()
    &&& file.subrange(page_num * PAGE_SIZE, (page_num + 1) * PAGE_SIZE) == page
}

/// What closing writes. After the first `upto` pages were flushed, the table
/// is as before but for its file: the file is a whole number of pages, and
/// it holds each page that is in its slot at the place of that page.
pub proof fn lemma_flushed(v: TableView, upto: int)
    requires
        v.wf(),
        0 <= upto <= TABLE_MAX_PAGE,
    ensures
        v.flushed(upto).wf(),
        v.flushed(upto).root_page_num == v.root_page_num,
        v.flushed(upto).pager.slots == v.pager.slots,
        v.flushed(upto).pager.file_length == v.pager.file_length,
        v.flushed(upto).pager.num_pages == v.pager.num_pages,
        v.flushed(upto).pager.file.len() >= v.pager.file.len(),
        forall|n: int|
            0 <= n < upto && v.pager.resident(n) ==> #[trigger] file_holds(
                v.flushed(upto).pager.file,
                n,
                v.pager.slots[n]->0,
            ),
    decreases upto,
{
    if upto > 0 {
        lemma_flushed(v, upto - 1);
        let before = v.flushed(upto - 1);
        let after = v.flushed(upto);
        let k = upto - 1;
        if before.pager.resident(k) {
            let page = before.pager.slots[k]->0;
            lemma_file_with_page(before.pager.file, k, page);
            assert(after.pager.file == file_with_page(before.pager.file, k, page));
            assert(after.pager.file.subrange(k * PAGE_SIZE, (k + 1) * PAGE_SIZE) =~= page);
            assert forall|n: int| 0 <= n < upto && v.pager.resident(n) implies #[trigger] file_holds(
                after.pager.file,
                n,
                v.pager.slots[n]->0,
            ) by {
                if n < k {
                    assert(file_holds(before.pager.file, n, v.pager.slots[n]->0));
                    assert(after.pager.file.subrange(n * PAGE_SIZE, (n + 1) * PAGE_SIZE)
                        =~= before.pager.file.subrange(n * PAGE_SIZE, (n + 1) * PAGE_SIZE));
                }
            }
        } else {
            assert forall|n: int| 0 <= n < upto && v.pager.resident(n) implies #[trigger] file_holds(
                after.pager.file,
                n,
                v.pager.slots[n]->0,
            ) by {
                assert(file_holds(before.pager.file, n, v.pager.slots[n]->0));
            }
        }
    }
}

/// Durability: a table that is closed and opened again from the bytes of
/// its file has the root page, and so the keys and rows, that it had before.
pub proof fn lemma_reopen(v: TableView)
    requires
        v.wf(),
    ensures
        opened(v.closed().pager.file) is Ok,
        opened(v.closed().pager.file)->Ok_0.wf(),
        opened(v.closed().pager.file)->Ok_0.root() == v.root(),
        opened(v.closed().pager.file)->Ok_0.cells() == v.cells(),
        opened(v.closed().pager.file)->Ok_0.keys() == v.keys(),
        opened(v.closed().pager.file)->Ok_0.rows() == v.rows(),
{
    lemma_flushed(v, TABLE_MAX_PAGE as int);
    let file = v.closed().pager.file;
    assert(file_holds(file, 0, v.pager.slots[0]->0));
    let fresh = PagerView {
        slots: Seq::new(TABLE_MAX_PAGE as nat, |i: int| None::<Seq<u8>>),
        file: file,
        file_length: file.len(),
        num_pages: file.len() / (PAGE_SIZE as nat),
    };
    lemma_resident_count_none(fresh.slots);
    lemma_resident_count_update(fresh.slots, 0, v.root());
}

} // verus!
