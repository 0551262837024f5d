//! The layout of a leaf node: a page read as a small header and an array
//! of cells, each a key and a row.
use crate::codec::{
    overwrite, read_u32_le, rotate_right, rotated_right, u32_from_le, u32_to_le, write_u32_le,
    zero_range, zeros,
};
use crate::codec::lemma_u32_le_round_trip;
use crate::pager::PAGE_SIZE;
use crate::row::{row_of_bytes, RowView, ROW_SIZE};
use vstd::arithmetic::div_mod::lemma_fundamental_div_mod_converse;
use vstd::prelude::*;

verus! {

pub const NODE_TYPE_SIZE: usize = 1;
pub const NODE_TYPE_OFFSET: usize = 0;
pub const IS_ROOT_SIZE: usize = 1;
pub const IS_ROOT_OFFSET: usize = NODE_TYPE_SIZE;
pub const PARENT_POINTER_SIZE: usize = 4;
pub const PARENT_POINTER_OFFSET: usize = IS_ROOT_OFFSET + IS_ROOT_SIZE;
pub const COMMON_NODE_HEADER_SIZE: usize = NODE_TYPE_SIZE + IS_ROOT_SIZE + PARENT_POINTER_SIZE;

pub const LEAF_NODE_NUM_CELLS_SIZE: usize = 4;
pub const LEAF_NODE_NUM_CELLS_OFFSET: usize = COMMON_NODE_HEADER_SIZE;
pub const LEAF_NODE_HEADER_SIZE: usize = COMMON_NODE_HEADER_SIZE + LEAF_NODE_NUM_CELLS_SIZE;

pub const LEAF_NODE_KEY_SIZE: usize = 4;
pub const LEAF_NODE_KEY_OFFSET: usize = 0;
pub const LEAF_NODE_VALUE_SIZE: usize = ROW_SIZE;
pub const LEAF_NODE_VALUE_OFFSET: usize = LEAF_NODE_KEY_OFFSET + LEAF_NODE_KEY_SIZE;
pub const LEAF_NODE_CELL_SIZE: usize = LEAF_NODE_KEY_SIZE + LEAF_NODE_VALUE_SIZE;
pub const LEAF_NODE_SPACE_FOR_CELLS: usize = PAGE_SIZE - LEAF_NODE_HEADER_SIZE;
/// As many cells as fit: `LEAF_NODE_SPACE_FOR_CELLS / LEAF_NODE_CELL_SIZE`.
pub const LEAF_NODE_MAX_CELLS: usize = 13;

/// The tag in the first byte of an internal node.
pub const NODE_TAG_INTERNAL: u8 = 1;
/// The tag in the first byte of a leaf node.
pub const NODE_TAG_LEAF: u8 = 2;

/// A page: `PAGE_SIZE` bytes.
pub type Page = Vec<u8>;

/// The kind of a node, as its first byte tells it.
#[derive(Debug, Clone, Copy, PartialEq, Eq)]
pub enum NodeType {
    Iternal,
    Leaf,
}

/// The numbers of the layout: a header of 10 bytes, then up to 13 cells of
/// 295 bytes each, which leaves 251 bytes of a page unused.
pub proof fn lemma_layout()
    ensures
        ROW_SIZE == 291,
        COMMON_NODE_HEADER_SIZE == 6,
        LEAF_NODE_NUM_CELLS_OFFSET == 6,
        LEAF_NODE_HEADER_SIZE == 10,
        LEAF_NODE_VALUE_OFFSET == 4,
        LEAF_NODE_VALUE_SIZE == 291,
        LEAF_NODE_CELL_SIZE == 295,
        LEAF_NODE_SPACE_FOR_CELLS == 4086,
        LEAF_NODE_MAX_CELLS == LEAF_NODE_SPACE_FOR_CELLS / LEAF_NODE_CELL_SIZE,
        forall|cell: int| #[trigger] cell_offset(cell) == 10 + 295 * cell,
{
    assert(ROW_SIZE == 291);
    assert(LEAF_NODE_HEADER_SIZE == 10);
    assert(LEAF_NODE_CELL_SIZE == 295);
    assert(LEAF_NODE_SPACE_FOR_CELLS == 4086);
    lemma_fundamental_div_mod_converse(4086, 295, 13, 251);
}

/// Where the cell with index `cell` starts in a page.
pub open spec fn cell_offset(cell: int) -> int {
    LEAF_NODE_HEADER_SIZE + cell * LEAF_NODE_CELL_SIZE
}

/// The node-type tag of a page.
pub open spec fn node_tag(page: Seq<u8>) -> u8 {
    page[NODE_TYPE_OFFSET as int]
}

/// The number of cells that the header of a leaf page records.
pub open spec fn leaf_num_cells(page: Seq<u8>) -> u32 {
    u32_from_le(
        page.subrange(
            LEAF_NODE_NUM_CELLS_OFFSET as int,
            LEAF_NODE_NUM_CELLS_OFFSET + LEAF_NODE_NUM_CELLS_SIZE,
        ),
    )
}

/// The bytes of the cell with index `cell`: its key, then its row.
pub open spec fn leaf_cell(page: Seq<u8>, cell: int) -> Seq<u8> {
    page.subrange(cell_offset(cell), cell_offset(cell + 1))
}

/// The key of the cell with index `cell`.
pub open spec fn leaf_key(page: Seq<u8>, cell: int) -> u32 {
    u32_from_le(page.subrange(cell_offset(cell), cell_offset(cell) + LEAF_NODE_KEY_SIZE))
}

/// The row bytes of the cell with index `cell`.
pub open spec fn leaf_value(page: Seq<u8>, cell: int) -> Seq<u8> {
    page.subrange(cell_offset(cell) + LEAF_NODE_VALUE_OFFSET, cell_offset(cell + 1))
}

/// The bytes of a cell that holds `row` under `key`.
pub open spec fn cell_bytes(key: u32, row: Seq<u8>) -> Seq<u8> {
    u32_to_le(key) + row
}

/// The key that the bytes of a cell hold.
pub open spec fn cell_key(cell: Seq<u8>) -> u32 {
    u32_from_le(cell.subrange(0, LEAF_NODE_KEY_SIZE as int))
}

/// The row that the bytes of a cell hold.
pub open spec fn cell_row(cell: Seq<u8>) -> RowView {
    row_of_bytes(cell.subrange(LEAF_NODE_VALUE_OFFSET as int, LEAF_NODE_CELL_SIZE as int))
}

/// The populated cells of a leaf page, in their order.
pub open spec fn leaf_cells(page: Seq<u8>) -> Seq<Seq<u8>> {
    Seq::new(leaf_num_cells(page) as nat, |i: int| leaf_cell(page, i))
}

/// The keys of the populated cells of a leaf page, in their order.
pub open spec fn leaf_keys(page: Seq<u8>) -> Seq<u32> {
    Seq::new(leaf_num_cells(page) as nat, |i: int| leaf_key(page, i))
}

/// The rows of the populated cells of a leaf page, in their order.
pub open spec fn leaf_rows(page: Seq<u8>) -> Seq<RowView> {
    Seq::new(leaf_num_cells(page) as nat, |i: int| row_of_bytes(leaf_value(page, i)))
}

/// A page that can be read as a leaf: it has the size of a page, the tag of
/// a leaf, and no more cells than fit.
pub open spec fn is_leaf(page: Seq<u8>) -> bool {
    &&& page.len() == PAGE_SIZE
    &&& node_tag(page) == NODE_TAG_LEAF
    &&& leaf_num_cells(page) <= LEAF_NODE_MAX_CELLS
}

/// A leaf page with the cells from `cell` on moved one cell to the right,
/// and the cell behind the last of them in the place of `cell`.
pub open spec fn leaf_with_room(page: Seq<u8>, cell: int) -> Seq<u8> {
    rotated_right(
        page,
        cell_offset(cell),
        cell_offset(leaf_num_cells(page) + 1),
        LEAF_NODE_CELL_SIZE as int,
    )
}

/// A page with `value` as the row bytes of the cell with index `cell`.
pub open spec fn leaf_with_value(page: Seq<u8>, cell: int, value: Seq<u8>) -> Seq<u8> {
    page.subrange(0, cell_offset(cell) + LEAF_NODE_VALUE_OFFSET) + value + page.subrange(
        cell_offset(cell + 1),
        page.len() as int,
    )
}

/// A leaf page after a cell with `key` and the row bytes `row` was inserted
/// at index `cell`: the header counts one cell more, the cells before `cell`
/// stay, the new cell follows, then the cells that were at `cell` and behind
/// it, and what lies behind the cells stays.
pub open spec fn leaf_inserted(page: Seq<u8>, cell: int, key: u32, row: Seq<u8>) -> Seq<u8> {
    let n = leaf_num_cells(page);
    page.subrange(0, LEAF_NODE_NUM_CELLS_OFFSET as int) + u32_to_le((n + 1) as u32) + page.subrange(
        LEAF_NODE_HEADER_SIZE as int,
        cell_offset(cell),
    ) + cell_bytes(key, row) + page.subrange(cell_offset(cell), cell_offset(n as int)) + page.subrange(
        cell_offset(n + 1),
        page.len() as int,
    )
}

/// The key and the row of a cell are the two parts of the cell's bytes.
pub proof fn lemma_leaf_cell(page: Seq<u8>, cell: int)
    requires
        page.len() == PAGE_SIZE,
        0 <= cell < LEAF_NODE_MAX_CELLS,
    ensures
        leaf_cell(page, cell).len() == LEAF_NODE_CELL_SIZE,
        leaf_key(page, cell) == cell_key(leaf_cell(page, cell)),
        leaf_value(page, cell) == leaf_cell(page, cell).subrange(
            LEAF_NODE_VALUE_OFFSET as int,
            LEAF_NODE_CELL_SIZE as int,
        ),
        row_of_bytes(leaf_value(page, cell)) == cell_row(leaf_cell(page, cell)),
{
    lemma_layout();
    let c = leaf_cell(page, cell);
    assert(page.subrange(cell_offset(cell), cell_offset(cell) + LEAF_NODE_KEY_SIZE) =~= c.subrange(
        0,
        LEAF_NODE_KEY_SIZE as int,
    ));
    assert(leaf_value(page, cell) =~= c.subrange(
        LEAF_NODE_VALUE_OFFSET as int,
        LEAF_NODE_CELL_SIZE as int,
    ));
}

/// What inserting a cell does to a leaf: it stays a leaf, it has one cell
/// more, and its cells, keys and rows are those of before with the new one
/// at index `cell`.
pub proof fn lemma_leaf_inserted(page: Seq<u8>, cell: int, key: u32, row: Seq<u8>)
    requires
        is_leaf(page),
        leaf_num_cells(page) < LEAF_NODE_MAX_CELLS,
        0 <= cell <= leaf_num_cells(page),
        row.len() == ROW_SIZE,
    ensures
        is_leaf(leaf_inserted(page, cell, key, row)),
        leaf_num_cells(leaf_inserted(page, cell, key, row)) == leaf_num_cells(page) + 1,
        leaf_cells(leaf_inserted(page, cell, key, row)) == leaf_cells(page).insert(
            cell,
            cell_bytes(key, row),
        ),
        leaf_keys(leaf_inserted(page, cell, key, row)) == leaf_keys(page).insert(cell, key),
        leaf_rows(leaf_inserted(page, cell, key, row)) == leaf_rows(page).insert(
            cell,
            row_of_bytes(row),
        ),
{
    lemma_layout();
    let n = leaf_num_cells(page);
    let after = leaf_inserted(page, cell, key, row);
    lemma_u32_le_round_trip((n + 1) as u32);
    lemma_u32_le_round_trip(key);
    assert(after.len() == PAGE_SIZE);
    assert(after.subrange(
        LEAF_NODE_NUM_CELLS_OFFSET as int,
        LEAF_NODE_NUM_CELLS_OFFSET + LEAF_NODE_NUM_CELLS_SIZE,
    ) =~= u32_to_le((n + 1) as u32));
    assert(leaf_num_cells(after) == n + 1);
    let new_cell = cell_bytes(key, row);
    assert(new_cell.subrange(0, LEAF_NODE_KEY_SIZE as int) =~= u32_to_le(key));
    assert(new_cell.subrange(LEAF_NODE_VALUE_OFFSET as int, LEAF_NODE_CELL_SIZE as int) =~= row);
    assert forall|i: int| 0 <= i < n + 1 implies #[trigger] leaf_cell(after, i) == leaf_cells(
        page,
    ).insert(cell, new_cell)[i] by {
        if i < cell {
            assert(leaf_cell(after, i) =~= leaf_cell(page, i));
        } else if i == cell {
            assert(leaf_cell(after, i) =~= new_cell);
        } else {
            assert(leaf_cell(after, i) =~= leaf_cell(page, i - 1));
        }
    }
    assert(leaf_cells(after) =~= leaf_cells(page).insert(cell, new_cell));
    assert forall|i: int| 0 <= i < n + 1 implies #[trigger] leaf_key(after, i) == leaf_keys(
        page,
    ).insert(cell, key)[i] by {
        lemma_leaf_cell(after, i);
        assert(leaf_cell(after, i) == leaf_cells(page).insert(cell, new_cell)[i]);
        if i < cell {
            lemma_leaf_cell(page, i);
        } else if i > cell {
            lemma_leaf_cell(page, i - 1);
        }
    }
    assert forall|i: int| 0 <= i < n + 1 implies row_of_bytes(#[trigger] leaf_value(after, i))
        == leaf_rows(page).insert(cell, row_of_bytes(row))[i] by {
        lemma_leaf_cell(after, i);
        assert(leaf_cell(after, i) == leaf_cells(page).insert(cell, new_cell)[i]);
        if i < cell {
            lemma_leaf_cell(page, i);
        } else if i > cell {
            lemma_leaf_cell(page, i - 1);
        }
    }
    assert(leaf_keys(after) =~= leaf_keys(page).insert(cell, key));
    assert(leaf_rows(after) =~= leaf_rows(page).insert(cell, row_of_bytes(row)));
}

/// A fresh leaf: all zero but for the tag, so with no cell.
pub open spec fn empty_leaf() -> Seq<u8> {
    zeros(PAGE_SIZE as nat).update(NODE_TYPE_OFFSET as int, NODE_TAG_LEAF)
}

/// A fresh leaf is a leaf with no cell.
pub proof fn lemma_empty_leaf()
    ensures
        is_leaf(empty_leaf()),
        leaf_num_cells(empty_leaf()) == 0,
{
    lemma_layout();
}

impl NodeType {
    /// The tag that stands for this kind in the first byte of a node.
    pub open spec fn tag(self) -> u8 {
        match self {
            NodeType::Iternal => NODE_TAG_INTERNAL,
            NodeType::Leaf => NODE_TAG_LEAF,
        }
    }

    /// The kind that a tag stands for.
    pub fn from_u8(num: u8) -> (node_type: NodeType)
        requires
            num == NODE_TAG_INTERNAL || num == NODE_TAG_LEAF,
        ensures
            node_type.tag() == num,
    {
        if num == NODE_TAG_INTERNAL {
            NodeType::Iternal
        } else {
            NodeType::Leaf
        }
    }

    /// The tag that stands for this kind.
    pub fn to_u8(&self) -> (num: u8)
        ensures
            num == self.tag(),
    {
        match self {
            NodeType::Iternal => NODE_TAG_INTERNAL,
            NodeType::Leaf => NODE_TAG_LEAF,
        }
    }
}

/// The kind of node that a page holds.
pub fn get_node_type(page: &Page) -> (node_type: NodeType)
    requires
        page.len() == PAGE_SIZE,
        node_tag(page@) == NODE_TAG_INTERNAL || node_tag(page@) == NODE_TAG_LEAF,
    ensures
        node_type.tag() == node_tag(page@),
{
    NodeType::from_u8(page[NODE_TYPE_OFFSET])
}

/// Stamps a page as a node of the given kind.
pub fn set_node_type(page: &mut Page, node_type: NodeType)
    requires
        old(page).len() == PAGE_SIZE,
    ensures
        final(page)@ == old(page)@.update(NODE_TYPE_OFFSET as int, node_type.tag()),
{
    page[NODE_TYPE_OFFSET] = node_type.to_u8();
}

/// Whether a page can be read as a leaf.
pub fn is_leaf_node(page: &Page) -> (r: bool)
    ensures
        r == is_leaf(page@),
{
    proof {
        lemma_layout();
    }
    page.len() == PAGE_SIZE && page[NODE_TYPE_OFFSET] == NODE_TAG_LEAF
        && get_leaf_node_num_cells(page) <= LEAF_NODE_MAX_CELLS as u32
}

/// Makes a page a fresh leaf: zero everywhere, then the tag of a leaf.
pub fn initialize_leaf_node(page: &mut Page)
    requires
        old(page).len() == PAGE_SIZE,
    ensures
        final(page)@ == empty_leaf(),
        is_leaf(final(page)@),
        leaf_num_cells(final(page)@) == 0,
{
    zero_range(page.as_mut_slice(), 0, PAGE_SIZE);
    set_node_type(page, NodeType::Leaf);
    proof {
        assert(page@ =~= empty_leaf());
        lemma_empty_leaf();
    }
}

/// Opens an empty slot at `cell_num`: the cells from there on move one cell
/// to the right, none is lost, and the cells before stay.
pub fn make_room(page: &mut Page, cell_num: u32)
    requires
        old(page).len() == PAGE_SIZE,
        leaf_num_cells(old(page)@) < LEAF_NODE_MAX_CELLS,
        cell_num <= leaf_num_cells(old(page)@),
    ensures
        final(page)@ == leaf_with_room(old(page)@, cell_num as int),
{
    proof {
        lemma_layout();
    }
    let num_cell: u32 = get_leaf_node_num_cells(page);
    let idx_1: usize = leaf_node_offset(cell_num);
    let idx_2: usize = leaf_node_offset(num_cell + 1);
    rotate_right(page.as_mut_slice(), idx_1, idx_2, LEAF_NODE_CELL_SIZE);
}

/// The number of cells in the header of a leaf page.
pub fn get_leaf_node_num_cells(page: &Page) -> (n: u32)
    requires
        page.len() == PAGE_SIZE,
    ensures
        n == leaf_num_cells(page@),
{
    read_u32_le(page.as_slice(), LEAF_NODE_NUM_CELLS_OFFSET)
}

/// Records `cell_num` as the number of cells in the header of a leaf page.
pub fn set_leaf_node_num_cells(page: &mut Page, cell_num: u32)
    requires
        old(page).len() == PAGE_SIZE,
    ensures
        final(page)@ == overwrite(old(page)@, LEAF_NODE_NUM_CELLS_OFFSET as int, u32_to_le(cell_num)),
{
    write_u32_le(page.as_mut_slice(), LEAF_NODE_NUM_CELLS_OFFSET, cell_num);
}

/// Where the cell with index `cell_num` starts in a page.
pub fn leaf_node_offset(cell_num: u32) -> (offset: usize)
    requires
        cell_num <= LEAF_NODE_MAX_CELLS,
    ensures
        offset == cell_offset(cell_num as int),
{
    proof {
        lemma_layout();
    }
    LEAF_NODE_HEADER_SIZE + cell_num as usize * LEAF_NODE_CELL_SIZE
}

/// The key of the cell with index `cell_num`.
pub fn get_leaf_node_key(page: &Page, cell_num: u32) -> (key: u32)
    requires
        page.len() == PAGE_SIZE,
        cell_num < LEAF_NODE_MAX_CELLS,
    ensures
        key == leaf_key(page@, cell_num as int),
{
    proof {
        lemma_layout();
    }
    read_u32_le(page.as_slice(), leaf_node_offset(cell_num) + LEAF_NODE_KEY_OFFSET)
}

/// Stores `key` as the key of the cell with index `cell_num`.
pub fn set_leaf_node_key(page: &mut Page, cell_num: u32, key: u32)
    requires
        old(page).len() == PAGE_SIZE,
        cell_num < LEAF_NODE_MAX_CELLS,
    ensures
        final(page)@ == overwrite(old(page)@, cell_offset(cell_num as int), u32_to_le(key)),
{
    proof {
        lemma_layout();
    }
    let at: usize = leaf_node_offset(cell_num) + LEAF_NODE_KEY_OFFSET;
    write_u32_le(page.as_mut_slice(), at, key);
}

/// The row bytes of the cell with index `cell_num`, open for writing: what
/// is written there is written into the page.
pub fn leaf_node_value(page: &mut Page, cell_num: u32) -> (slot: &mut [u8])
    requires
        old(page).len() == PAGE_SIZE,
        cell_num < LEAF_NODE_MAX_CELLS,
    ensures
        slot@ == leaf_value(old(page)@, cell_num as int),
        slot@.len() == ROW_SIZE,
        final(page)@ == leaf_with_value(old(page)@, cell_num as int, final(slot)@),
{
    proof {
        lemma_layout();
    }
    let at: usize = leaf_node_offset(cell_num) + LEAF_NODE_VALUE_OFFSET;
    let whole: &mut [u8] = page.as_mut_slice();
    let (_, tail) = whole.split_at_mut(at);
    let (slot, _) = tail.split_at_mut(LEAF_NODE_VALUE_SIZE);
    slot
}

} // verus!
