//! Sizes and offsets of the on-disk row and node layouts.
use vstd::prelude::*;

verus! {

pub const ID_SIZE: usize = 4;
pub const USERNAME_SIZE: usize = 32;
pub const EMAIL_SIZE: usize = 255;
pub const ID_OFFSET: usize = 0;
pub const USERNAME_OFFSET: usize = ID_OFFSET + ID_SIZE;
pub const EMAIL_OFFSET: usize = USERNAME_OFFSET + USERNAME_SIZE;
pub const ROW_SIZE: usize = ID_SIZE + USERNAME_SIZE + EMAIL_SIZE;

pub const PAGE_SIZE: usize = 4096;
pub const TABLE_MAX_PAGES: usize = 100;

/// Common node header: node type, is-root flag, parent page number.
pub const NODE_TYPE_SIZE: usize = 1;
pub const NODE_TYPE_OFFSET: usize = 0;
pub const IS_ROOT_SIZE: usize = 1;
pub const IS_ROOT_OFFSET: usize = NODE_TYPE_SIZE;
pub const PARENT_POINTER_SIZE: usize = 8;
pub const PARENT_POINTER_OFFSET: usize = IS_ROOT_OFFSET + IS_ROOT_SIZE;
pub const COMMON_NODE_HEADER_SIZE: usize = NODE_TYPE_SIZE + IS_ROOT_SIZE + PARENT_POINTER_SIZE;

/// Leaf header: common header, number of cells, next leaf page number.
pub const LEAF_NODE_NUM_CELLS_SIZE: usize = 8;
pub const LEAF_NODE_NUM_CELLS_OFFSET: usize = COMMON_NODE_HEADER_SIZE;
pub const LEAF_NODE_NEXT_LEAF_SIZE: usize = 8;
pub const LEAF_NODE_NEXT_LEAF_OFFSET: usize = LEAF_NODE_NUM_CELLS_OFFSET + LEAF_NODE_NUM_CELLS_SIZE;
pub const LEAF_NODE_HEADER_SIZE: usize = COMMON_NODE_HEADER_SIZE + LEAF_NODE_NUM_CELLS_SIZE
    + LEAF_NODE_NEXT_LEAF_SIZE;

/// Leaf body: an array of (key, row) cells.
pub const LEAF_NODE_KEY_SIZE: usize = 4;
pub const LEAF_NODE_VALUE_SIZE: usize = ROW_SIZE;
pub const LEAF_NODE_CELL_SIZE: usize = LEAF_NODE_KEY_SIZE + LEAF_NODE_VALUE_SIZE;
pub const LEAF_NODE_SPACE_FOR_CELLS: usize = PAGE_SIZE - LEAF_NODE_HEADER_SIZE;
pub const LEAF_NODE_MAX_CELLS: usize = LEAF_NODE_SPACE_FOR_CELLS / LEAF_NODE_CELL_SIZE;
pub const LEAF_NODE_RIGHT_SPLIT_COUNT: usize = (LEAF_NODE_MAX_CELLS + 1 + 1) / 2;
pub const LEAF_NODE_LEFT_SPLIT_COUNT: usize = (LEAF_NODE_MAX_CELLS + 1) - LEAF_NODE_RIGHT_SPLIT_COUNT;

/// Internal header: common header, number of keys, right child page number.
pub const INTERNAL_NODE_NUM_KEYS_SIZE: usize = 8;
pub const INTERNAL_NODE_NUM_KEYS_OFFSET: usize = COMMON_NODE_HEADER_SIZE;
pub const INTERNAL_NODE_RIGHT_CHILD_SIZE: usize = 8;
pub const INTERNAL_NODE_RIGHT_CHILD_OFFSET: usize = INTERNAL_NODE_NUM_KEYS_OFFSET
    + INTERNAL_NODE_NUM_KEYS_SIZE;
pub const INTERNAL_NODE_HEADER_SIZE: usize = COMMON_NODE_HEADER_SIZE + INTERNAL_NODE_NUM_KEYS_SIZE
    + INTERNAL_NODE_RIGHT_CHILD_SIZE;

/// Internal body: an array of (child page number, key) cells.
pub const INTERNAL_NODE_CHILD_SIZE: usize = 8;
pub const INTERNAL_NODE_KEY_SIZE: usize = 4;
pub const INTERNAL_NODE_CELL_SIZE: usize = INTERNAL_NODE_CHILD_SIZE + INTERNAL_NODE_KEY_SIZE;
pub const INTERNAL_NODE_MAX_CELLS: usize = (PAGE_SIZE - INTERNAL_NODE_HEADER_SIZE)
    / INTERNAL_NODE_CELL_SIZE;

/// Node type tags as stored in the first byte of a page.
pub const NODE_TAG_INTERNAL: u8 = 0;
pub const NODE_TAG_LEAF: u8 = 1;

pub proof fn lemma_layout_values()
    ensures
        ROW_SIZE == 291,
        COMMON_NODE_HEADER_SIZE == 10,
        LEAF_NODE_HEADER_SIZE == 26,
        LEAF_NODE_CELL_SIZE == 295,
        LEAF_NODE_MAX_CELLS == 13,
        LEAF_NODE_RIGHT_SPLIT_COUNT == 7,
        LEAF_NODE_LEFT_SPLIT_COUNT == 7,
        INTERNAL_NODE_HEADER_SIZE == 26,
        INTERNAL_NODE_CELL_SIZE == 12,
        INTERNAL_NODE_MAX_CELLS == 339,
{
}

} // verus!
