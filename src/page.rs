//! A page: a fixed-size byte buffer read as a leaf or an internal node.
//!
//! Every field lives at a fixed offset; integers are stored little-endian,
//! page numbers and counts in eight bytes.
use vstd::prelude::*;
use vstd::bytes::*;
use vstd::slice::slice_subrange;
use crate::layout::{
    ROW_SIZE,
    lemma_layout_values,
    PAGE_SIZE, NODE_TYPE_OFFSET, IS_ROOT_OFFSET, PARENT_POINTER_OFFSET, LEAF_NODE_NUM_CELLS_OFFSET, LEAF_NODE_NEXT_LEAF_OFFSET, LEAF_NODE_HEADER_SIZE, LEAF_NODE_KEY_SIZE, LEAF_NODE_CELL_SIZE, LEAF_NODE_MAX_CELLS, INTERNAL_NODE_NUM_KEYS_OFFSET, INTERNAL_NODE_RIGHT_CHILD_OFFSET, INTERNAL_NODE_HEADER_SIZE, INTERNAL_NODE_CHILD_SIZE, INTERNAL_NODE_CELL_SIZE, INTERNAL_NODE_MAX_CELLS, NODE_TAG_INTERNAL, NODE_TAG_LEAF,
};

verus! {

// ---------------------------------------------------------------------------
// Byte-level model
// ---------------------------------------------------------------------------

/// The four bytes at `off`, read as a little-endian `u32`.
pub open spec fn u32_at(s: Seq<u8>, off: int) -> u32 {
    spec_u32_from_le_bytes(s.subrange(off, off + 4))
}

/// The eight bytes at `off`, read as a little-endian `u64`.
pub open spec fn u64_at(s: Seq<u8>, off: int) -> u64 {
    spec_u64_from_le_bytes(s.subrange(off, off + 8))
}

/// `a` and `b` have one length and agree everywhere outside `[lo, hi)`.
pub open spec fn unchanged_outside(a: Seq<u8>, b: Seq<u8>, lo: int, hi: int) -> bool {
    &&& a.len() == b.len()
    &&& forall|i: int| 0 <= i < a.len() && !(lo <= i < hi) ==> a[i] == b[i]
}

pub proof fn lemma_frame_subrange(a: Seq<u8>, b: Seq<u8>, lo: int, hi: int, x: int, y: int)
    requires
        unchanged_outside(a, b, lo, hi),
        0 <= x <= y <= a.len(),
        y <= lo || hi <= x,
    ensures
        a.subrange(x, y) == b.subrange(x, y),
{
    assert(a.subrange(x, y) =~= b.subrange(x, y));
}

pub proof fn lemma_subrange_of_subrange(s: Seq<u8>, a: int, b: int, x: int, y: int)
    requires
        0 <= a <= b <= s.len(),
        0 <= x <= y <= b - a,
    ensures
        s.subrange(a, b).subrange(x, y) == s.subrange(a + x, a + y),
{
    assert(s.subrange(a, b).subrange(x, y) =~= s.subrange(a + x, a + y));
}

// ---------------------------------------------------------------------------
// Node model over the bytes of a page
// ---------------------------------------------------------------------------

pub open spec fn node_tag(s: Seq<u8>) -> u8 {
    s[NODE_TYPE_OFFSET as int]
}

pub open spec fn is_leaf(s: Seq<u8>) -> bool {
    node_tag(s) == NODE_TAG_LEAF
}

pub open spec fn is_internal(s: Seq<u8>) -> bool {
    node_tag(s) == NODE_TAG_INTERNAL
}

pub open spec fn is_root(s: Seq<u8>) -> bool {
    s[IS_ROOT_OFFSET as int] != 0
}

pub open spec fn parent_of(s: Seq<u8>) -> u64 {
    u64_at(s, PARENT_POINTER_OFFSET as int)
}

pub open spec fn leaf_num_cells(s: Seq<u8>) -> u64 {
    u64_at(s, LEAF_NODE_NUM_CELLS_OFFSET as int)
}

pub open spec fn leaf_next(s: Seq<u8>) -> u64 {
    u64_at(s, LEAF_NODE_NEXT_LEAF_OFFSET as int)
}

pub open spec fn leaf_cell_offset(i: int) -> int {
    LEAF_NODE_HEADER_SIZE + i * LEAF_NODE_CELL_SIZE
}

/// The bytes of leaf slot `i`: a key and a serialized row.
pub open spec fn leaf_slot(s: Seq<u8>, i: int) -> Seq<u8> {
    s.subrange(leaf_cell_offset(i), leaf_cell_offset(i) + LEAF_NODE_CELL_SIZE)
}

pub open spec fn cell_key(c: Seq<u8>) -> u32 {
    spec_u32_from_le_bytes(c.subrange(0, LEAF_NODE_KEY_SIZE as int))
}

pub open spec fn cell_value(c: Seq<u8>) -> Seq<u8> {
    c.subrange(LEAF_NODE_KEY_SIZE as int, LEAF_NODE_CELL_SIZE as int)
}

/// The cells in use in a leaf, in slot order.
pub open spec fn leaf_cells(s: Seq<u8>) -> Seq<Seq<u8>> {
    Seq::new(leaf_num_cells(s) as nat, |i: int| leaf_slot(s, i))
}

pub open spec fn cells_keys(cells: Seq<Seq<u8>>) -> Seq<u32> {
    Seq::new(cells.len(), |i: int| cell_key(cells[i]))
}

/// The keys of a leaf, in slot order.
pub open spec fn leaf_keys(s: Seq<u8>) -> Seq<u32> {
    cells_keys(leaf_cells(s))
}

/// Every slot of a leaf (in use or not) is the same in `a` and `b`.
pub open spec fn same_leaf_slots(a: Seq<u8>, b: Seq<u8>) -> bool {
    forall|i: int| 0 <= i < LEAF_NODE_MAX_CELLS ==> #[trigger] leaf_slot(a, i) == leaf_slot(b, i)
}

pub open spec fn same_common_header(a: Seq<u8>, b: Seq<u8>) -> bool {
    &&& node_tag(a) == node_tag(b)
    &&& is_root(a) == is_root(b)
    &&& parent_of(a) == parent_of(b)
}

pub open spec fn internal_num_keys(s: Seq<u8>) -> u64 {
    u64_at(s, INTERNAL_NODE_NUM_KEYS_OFFSET as int)
}

pub open spec fn internal_right_child(s: Seq<u8>) -> u64 {
    u64_at(s, INTERNAL_NODE_RIGHT_CHILD_OFFSET as int)
}

pub open spec fn internal_cell_offset(i: int) -> int {
    INTERNAL_NODE_HEADER_SIZE + i * INTERNAL_NODE_CELL_SIZE
}

pub open spec fn internal_slot(s: Seq<u8>, i: int) -> Seq<u8> {
    s.subrange(internal_cell_offset(i), internal_cell_offset(i) + INTERNAL_NODE_CELL_SIZE)
}

pub open spec fn internal_cell_child(s: Seq<u8>, i: int) -> u64 {
    spec_u64_from_le_bytes(internal_slot(s, i).subrange(0, INTERNAL_NODE_CHILD_SIZE as int))
}

pub open spec fn internal_key(s: Seq<u8>, i: int) -> u32 {
    spec_u32_from_le_bytes(
        internal_slot(s, i).subrange(INTERNAL_NODE_CHILD_SIZE as int, INTERNAL_NODE_CELL_SIZE as int),
    )
}

/// Child `i` of an internal node; position `num_keys` is the right child.
pub open spec fn internal_child(s: Seq<u8>, i: int) -> u64 {
    if i == internal_num_keys(s) {
        internal_right_child(s)
    } else {
        internal_cell_child(s, i)
    }
}

pub open spec fn internal_keys(s: Seq<u8>) -> Seq<u32> {
    Seq::new(internal_num_keys(s) as nat, |i: int| internal_key(s, i))
}

/// All children of an internal node, the right child last.
pub open spec fn internal_children(s: Seq<u8>) -> Seq<u64> {
    Seq::new(internal_num_keys(s) as nat + 1, |i: int| internal_child(s, i))
}

/// Every internal slot (in use or not) is the same in `a` and `b`.
pub open spec fn same_internal_slots(a: Seq<u8>, b: Seq<u8>) -> bool {
    forall|i: int|
        0 <= i < INTERNAL_NODE_MAX_CELLS ==> #[trigger] internal_slot(a, i) == internal_slot(b, i)
}

pub open spec fn strictly_ascending(keys: Seq<u32>) -> bool {
    forall|i: int, j: int| 0 <= i < j < keys.len() ==> keys[i] < keys[j]
}

/// The largest key of a node: its last key.
pub open spec fn node_max_key(s: Seq<u8>) -> u32 {
    if is_leaf(s) {
        leaf_keys(s).last()
    } else {
        internal_keys(s).last()
    }
}

/// What a write confined to `[lo, hi)` leaves unchanged, field by field.
pub proof fn lemma_fields_frame(a: Seq<u8>, b: Seq<u8>, lo: int, hi: int)
    requires
        a.len() == PAGE_SIZE,
        unchanged_outside(a, b, lo, hi),
        0 <= lo <= hi <= PAGE_SIZE,
    ensures
        hi <= 0 || 1 <= lo ==> node_tag(a) == node_tag(b),
        hi <= 1 || 2 <= lo ==> is_root(a) == is_root(b),
        hi <= 2 || 10 <= lo ==> parent_of(a) == parent_of(b),
        hi <= 10 || 18 <= lo ==> leaf_num_cells(a) == leaf_num_cells(b) && internal_num_keys(a)
            == internal_num_keys(b),
        hi <= 18 || 26 <= lo ==> leaf_next(a) == leaf_next(b) && internal_right_child(a)
            == internal_right_child(b),
        forall|j: int|
            0 <= j < LEAF_NODE_MAX_CELLS && (hi <= leaf_cell_offset(j) || leaf_cell_offset(j)
                + LEAF_NODE_CELL_SIZE <= lo) ==> #[trigger] leaf_slot(a, j) == leaf_slot(b, j),
        forall|j: int|
            0 <= j < INTERNAL_NODE_MAX_CELLS && (hi <= internal_cell_offset(j)
                || internal_cell_offset(j) + INTERNAL_NODE_CELL_SIZE <= lo) ==> #[trigger] internal_slot(
                a,
                j,
            ) == internal_slot(b, j),
{
    lemma_layout_values();
    if hi <= 2 || 10 <= lo {
        lemma_frame_subrange(a, b, lo, hi, 2, 10);
    }
    if hi <= 10 || 18 <= lo {
        lemma_frame_subrange(a, b, lo, hi, 10, 18);
    }
    if hi <= 18 || 26 <= lo {
        lemma_frame_subrange(a, b, lo, hi, 18, 26);
    }
    assert forall|j: int|
        0 <= j < LEAF_NODE_MAX_CELLS && (hi <= leaf_cell_offset(j) || leaf_cell_offset(j)
            + LEAF_NODE_CELL_SIZE <= lo) implies #[trigger] leaf_slot(a, j) == leaf_slot(b, j) by {
        lemma_frame_subrange(
            a,
            b,
            lo,
            hi,
            leaf_cell_offset(j),
            leaf_cell_offset(j) + LEAF_NODE_CELL_SIZE,
        );
    }
    assert forall|j: int|
        0 <= j < INTERNAL_NODE_MAX_CELLS && (hi <= internal_cell_offset(j)
            || internal_cell_offset(j) + INTERNAL_NODE_CELL_SIZE <= lo) implies #[trigger] internal_slot(
        a,
        j,
    ) == internal_slot(b, j) by {
        lemma_frame_subrange(
            a,
            b,
            lo,
            hi,
            internal_cell_offset(j),
            internal_cell_offset(j) + INTERNAL_NODE_CELL_SIZE,
        );
    }
}

pub proof fn lemma_leaf_slots_disjoint(i: int, j: int)
    requires
        0 <= i,
        0 <= j,
        i != j,
    ensures
        leaf_cell_offset(j) + LEAF_NODE_CELL_SIZE <= leaf_cell_offset(i) || leaf_cell_offset(i)
            + LEAF_NODE_CELL_SIZE <= leaf_cell_offset(j),
{
    lemma_layout_values();
    if j < i {
        assert(j * 295 + 295 <= i * 295) by (nonlinear_arith)
            requires
                j < i,
        ;
    } else {
        assert(i * 295 + 295 <= j * 295) by (nonlinear_arith)
            requires
                i < j,
        ;
    }
}

pub proof fn lemma_internal_slots_disjoint(i: int, j: int)
    requires
        0 <= i,
        0 <= j,
        i != j,
    ensures
        internal_cell_offset(j) + INTERNAL_NODE_CELL_SIZE <= internal_cell_offset(i)
            || internal_cell_offset(i) + INTERNAL_NODE_CELL_SIZE <= internal_cell_offset(j),
{
    lemma_layout_values();
    if j < i {
        assert(j * 12 + 12 <= i * 12) by (nonlinear_arith)
            requires
                j < i,
        ;
    } else {
        assert(i * 12 + 12 <= j * 12) by (nonlinear_arith)
            requires
                i < j,
        ;
    }
}

// ---------------------------------------------------------------------------
// Page
// ---------------------------------------------------------------------------

/// The two kinds of node a page can hold.
#[allow(non_camel_case_types)]
#[derive(PartialEq, Eq, Structural, Clone, Copy, Debug)]
pub enum NodeType {
    NODE_INTERNAL,
    NODE_LEAF,
}

pub open spec fn node_type_tag(t: NodeType) -> u8 {
    match t {
        NodeType::NODE_INTERNAL => NODE_TAG_INTERNAL,
        NodeType::NODE_LEAF => NODE_TAG_LEAF,
    }
}

/// A page of `PAGE_SIZE` bytes.
pub struct Page {
    buf: Vec<u8>,
}

impl View for Page {
    type V = Seq<u8>;

    closed spec fn view(&self) -> Seq<u8> {
        self.buf@
    }
}

impl Page {
    pub open spec fn wf(&self) -> bool {
        self@.len() == PAGE_SIZE
    }

    /// A page of zero bytes.
    pub fn new() -> (p: Page)
        ensures
            p.wf(),
            forall|i: int| 0 <= i < PAGE_SIZE ==> p@[i] == 0u8,
    {
        Page { buf: vec![0u8; PAGE_SIZE] }
    }

    /// A page holding a copy of `bytes`.
    pub fn from_bytes(bytes: &[u8]) -> (p: Page)
        requires
            bytes@.len() == PAGE_SIZE,
        ensures
            p@ == bytes@,
            p.wf(),
    {
        Page { buf: vstd::slice::slice_to_vec(bytes) }
    }

    /// A copy of this page's bytes.
    pub fn to_bytes(&self) -> (r: Vec<u8>)
        ensures
            r@ == self@,
    {
        self.buf.clone()
    }

    /// A copy of this page.
    pub fn copy(&self) -> (p: Page)
        ensures
            p@ == self@,
    {
        Page { buf: self.buf.clone() }
    }

    pub fn read_bytes(&self, off: usize, len: usize) -> (r: Vec<u8>)
        requires
            self.wf(),
            off + len <= PAGE_SIZE,
        ensures
            r@ == self@.subrange(off as int, off + len),
    {
        vstd::slice::slice_to_vec(slice_subrange(self.buf.as_slice(), off, off + len))
    }

    pub fn write_bytes(&mut self, off: usize, src: &[u8])
        requires
            old(self).wf(),
            off + src@.len() <= PAGE_SIZE,
        ensures
            final(self).wf(),
            final(self)@.subrange(off as int, off + src@.len()) == src@,
            unchanged_outside(old(self)@, final(self)@, off as int, off + src@.len()),
    {
        let n = src.len();
        let mut k: usize = 0;
        while k < n
            invariant
                n == src@.len(),
                self.wf(),
                off + n <= PAGE_SIZE,
                k <= n,
                unchanged_outside(old(self)@, self@, off as int, off + k),
                forall|j: int| 0 <= j < k ==> self@[off + j] == src@[j],
            decreases n - k,
        {
            self.buf.set(off + k, src[k]);
            k = k + 1;
        }
        assert(self@.subrange(off as int, off + n) =~= src@);
    }

    pub fn read_u8(&self, off: usize) -> (r: u8)
        requires
            self.wf(),
            off < PAGE_SIZE,
        ensures
            r == self@[off as int],
    {
        self.buf[off]
    }

    pub fn write_u8(&mut self, off: usize, v: u8)
        requires
            old(self).wf(),
            off < PAGE_SIZE,
        ensures
            final(self).wf(),
            final(self)@ == old(self)@.update(off as int, v),
            unchanged_outside(old(self)@, final(self)@, off as int, off + 1),
    {
        self.buf.set(off, v);
    }

    pub fn read_u32(&self, off: usize) -> (r: u32)
        requires
            self.wf(),
            off + 4 <= PAGE_SIZE,
        ensures
            r == u32_at(self@, off as int),
    {
        u32_from_le_bytes(slice_subrange(self.buf.as_slice(), off, off + 4))
    }

    pub fn write_u32(&mut self, off: usize, v: u32)
        requires
            old(self).wf(),
            off + 4 <= PAGE_SIZE,
        ensures
            final(self).wf(),
            u32_at(final(self)@, off as int) == v,
            unchanged_outside(old(self)@, final(self)@, off as int, off + 4),
    {
        let b = u32_to_le_bytes(v);
        self.write_bytes(off, b.as_slice());
        proof {
            lemma_auto_spec_u32_to_from_le_bytes();
        }
    }

    pub fn read_u64(&self, off: usize) -> (r: u64)
        requires
            self.wf(),
            off + 8 <= PAGE_SIZE,
        ensures
            r == u64_at(self@, off as int),
    {
        u64_from_le_bytes(slice_subrange(self.buf.as_slice(), off, off + 8))
    }

    pub fn write_u64(&mut self, off: usize, v: u64)
        requires
            old(self).wf(),
            off + 8 <= PAGE_SIZE,
        ensures
            final(self).wf(),
            u64_at(final(self)@, off as int) == v,
            unchanged_outside(old(self)@, final(self)@, off as int, off + 8),
    {
        let b = u64_to_le_bytes(v);
        self.write_bytes(off, b.as_slice());
        proof {
            lemma_auto_spec_u64_to_from_le_bytes();
        }
    }
}


impl Page {
    // -- common header -----------------------------------------------------

    pub fn get_node_type(&self) -> (r: NodeType)
        requires
            self.wf(),
        ensures
            (r == NodeType::NODE_LEAF) == is_leaf(self@),
    {
        if self.read_u8(NODE_TYPE_OFFSET) == NODE_TAG_LEAF {
            NodeType::NODE_LEAF
        } else {
            NodeType::NODE_INTERNAL
        }
    }

    pub fn is_leaf_node(&self) -> (r: bool)
        requires
            self.wf(),
        ensures
            r == is_leaf(self@),
    {
        self.read_u8(NODE_TYPE_OFFSET) == NODE_TAG_LEAF
    }

    pub fn set_node_type(&mut self, node_type: NodeType)
        requires
            old(self).wf(),
        ensures
            final(self).wf(),
            node_tag(final(self)@) == node_type_tag(node_type),
            is_root(final(self)@) == is_root(old(self)@),
            parent_of(final(self)@) == parent_of(old(self)@),
            leaf_num_cells(final(self)@) == leaf_num_cells(old(self)@),
            leaf_next(final(self)@) == leaf_next(old(self)@),
            same_leaf_slots(old(self)@, final(self)@),
            same_internal_slots(old(self)@, final(self)@),
    {
        let tag = match node_type {
            NodeType::NODE_INTERNAL => NODE_TAG_INTERNAL,
            NodeType::NODE_LEAF => NODE_TAG_LEAF,
        };
        self.write_u8(NODE_TYPE_OFFSET, tag);
        proof {
            lemma_fields_frame(old(self)@, self@, 0, 1);
        }
    }

    pub fn is_node_root(&self) -> (r: bool)
        requires
            self.wf(),
        ensures
            r == is_root(self@),
    {
        self.read_u8(IS_ROOT_OFFSET) != 0
    }

    pub fn set_node_root(&mut self, is_root_node: bool)
        requires
            old(self).wf(),
        ensures
            final(self).wf(),
            is_root(final(self)@) == is_root_node,
            node_tag(final(self)@) == node_tag(old(self)@),
            parent_of(final(self)@) == parent_of(old(self)@),
            leaf_num_cells(final(self)@) == leaf_num_cells(old(self)@),
            leaf_next(final(self)@) == leaf_next(old(self)@),
            same_leaf_slots(old(self)@, final(self)@),
            same_internal_slots(old(self)@, final(self)@),
    {
        self.write_u8(IS_ROOT_OFFSET, if is_root_node { 1u8 } else { 0u8 });
        proof {
            lemma_fields_frame(old(self)@, self@, 1, 2);
        }
    }

    pub fn get_parent(&self) -> (r: u64)
        requires
            self.wf(),
        ensures
            r == parent_of(self@),
    {
        self.read_u64(PARENT_POINTER_OFFSET)
    }

    pub fn set_parent(&mut self, parent: u64)
        requires
            old(self).wf(),
        ensures
            final(self).wf(),
            parent_of(final(self)@) == parent,
            node_tag(final(self)@) == node_tag(old(self)@),
            is_root(final(self)@) == is_root(old(self)@),
            leaf_num_cells(final(self)@) == leaf_num_cells(old(self)@),
            leaf_next(final(self)@) == leaf_next(old(self)@),
            same_leaf_slots(old(self)@, final(self)@),
            same_internal_slots(old(self)@, final(self)@),
    {
        self.write_u64(PARENT_POINTER_OFFSET, parent);
        proof {
            lemma_fields_frame(old(self)@, self@, 2, 10);
        }
    }

    // -- leaf header -------------------------------------------------------

    pub fn leaf_node_num_cells(&self) -> (r: u64)
        requires
            self.wf(),
        ensures
            r == leaf_num_cells(self@),
    {
        self.read_u64(LEAF_NODE_NUM_CELLS_OFFSET)
    }

    /// Sets the leaf cell count, which shares its bytes with the internal key count.
    pub fn set_leaf_node_num_cells(&mut self, num_cells: u64)
        requires
            old(self).wf(),
        ensures
            final(self).wf(),
            leaf_num_cells(final(self)@) == num_cells,
            internal_num_keys(final(self)@) == num_cells,
            same_common_header(old(self)@, final(self)@),
            leaf_next(final(self)@) == leaf_next(old(self)@),
            same_leaf_slots(old(self)@, final(self)@),
            same_internal_slots(old(self)@, final(self)@),
    {
        self.write_u64(LEAF_NODE_NUM_CELLS_OFFSET, num_cells);
        proof {
            lemma_fields_frame(old(self)@, self@, 10, 18);
        }
    }

    pub fn leaf_node_next_leaf(&self) -> (r: u64)
        requires
            self.wf(),
        ensures
            r == leaf_next(self@),
    {
        self.read_u64(LEAF_NODE_NEXT_LEAF_OFFSET)
    }

    /// Sets the next-leaf link, which shares its bytes with the right child.
    pub fn set_leaf_node_next_leaf(&mut self, next: u64)
        requires
            old(self).wf(),
        ensures
            final(self).wf(),
            leaf_next(final(self)@) == next,
            internal_right_child(final(self)@) == next,
            same_common_header(old(self)@, final(self)@),
            leaf_num_cells(final(self)@) == leaf_num_cells(old(self)@),
            same_leaf_slots(old(self)@, final(self)@),
            same_internal_slots(old(self)@, final(self)@),
    {
        self.write_u64(LEAF_NODE_NEXT_LEAF_OFFSET, next);
        proof {
            lemma_fields_frame(old(self)@, self@, 18, 26);
        }
    }

    pub fn is_full(&self) -> (r: bool)
        requires
            self.wf(),
        ensures
            r == (leaf_num_cells(self@) >= LEAF_NODE_MAX_CELLS),
    {
        self.leaf_node_num_cells() >= LEAF_NODE_MAX_CELLS as u64
    }

    // -- leaf cells ---------------------------------------------------------

    /// Byte offset of leaf cell `cell_num` within the page.
    pub fn leaf_node_cell(&self, cell_num: usize) -> (r: usize)
        requires
            cell_num < LEAF_NODE_MAX_CELLS,
        ensures
            r == leaf_cell_offset(cell_num as int),
            r + LEAF_NODE_CELL_SIZE <= PAGE_SIZE,
    {
        proof {
            lemma_layout_values();
        }
        LEAF_NODE_HEADER_SIZE + cell_num * LEAF_NODE_CELL_SIZE
    }

    /// Byte offset of the row stored in leaf cell `cell_num`.
    pub fn leaf_node_value(&self, cell_num: usize) -> (r: usize)
        requires
            cell_num < LEAF_NODE_MAX_CELLS,
        ensures
            r == leaf_cell_offset(cell_num as int) + LEAF_NODE_KEY_SIZE,
            r + ROW_SIZE <= PAGE_SIZE,
    {
        self.leaf_node_cell(cell_num) + LEAF_NODE_KEY_SIZE
    }

    pub fn leaf_node_key(&self, cell_num: usize) -> (r: u32)
        requires
            self.wf(),
            cell_num < LEAF_NODE_MAX_CELLS,
        ensures
            r == cell_key(leaf_slot(self@, cell_num as int)),
    {
        let off = self.leaf_node_cell(cell_num);
        let r = self.read_u32(off);
        proof {
            lemma_subrange_of_subrange(self@, off as int, off + LEAF_NODE_CELL_SIZE, 0, 4);
        }
        r
    }

    /// The bytes of leaf cell `cell_num`: its key and its row.
    pub fn read_leaf_cell(&self, cell_num: usize) -> (r: Vec<u8>)
        requires
            self.wf(),
            cell_num < LEAF_NODE_MAX_CELLS,
        ensures
            r@ == leaf_slot(self@, cell_num as int),
    {
        let off = self.leaf_node_cell(cell_num);
        self.read_bytes(off, LEAF_NODE_CELL_SIZE)
    }

    pub fn write_leaf_cell(&mut self, cell_num: usize, cell: &[u8])
        requires
            old(self).wf(),
            cell_num < LEAF_NODE_MAX_CELLS,
            cell@.len() == LEAF_NODE_CELL_SIZE,
        ensures
            final(self).wf(),
            leaf_slot(final(self)@, cell_num as int) == cell@,
            forall|j: int|
                0 <= j < LEAF_NODE_MAX_CELLS && j != cell_num ==> #[trigger] leaf_slot(
                    final(self)@,
                    j,
                ) == leaf_slot(old(self)@, j),
            same_common_header(old(self)@, final(self)@),
            leaf_num_cells(final(self)@) == leaf_num_cells(old(self)@),
            leaf_next(final(self)@) == leaf_next(old(self)@),
    {
        let off = self.leaf_node_cell(cell_num);
        self.write_bytes(off, cell);
        proof {
            lemma_fields_frame(old(self)@, self@, off as int, off + LEAF_NODE_CELL_SIZE);
            assert forall|j: int| 0 <= j < LEAF_NODE_MAX_CELLS && j != cell_num implies #[trigger] leaf_slot(
                self@,
                j,
            ) == leaf_slot(old(self)@, j) by {
                lemma_leaf_slots_disjoint(cell_num as int, j);
            }
        }
    }

    // -- internal header ---------------------------------------------------

    pub fn get_internal_node_num_keys(&self) -> (r: u64)
        requires
            self.wf(),
        ensures
            r == internal_num_keys(self@),
    {
        self.read_u64(INTERNAL_NODE_NUM_KEYS_OFFSET)
    }

    /// Sets the internal key count, which shares its bytes with the leaf cell count.
    pub fn set_internal_node_num_keys(&mut self, num_keys: u64)
        requires
            old(self).wf(),
        ensures
            final(self).wf(),
            internal_num_keys(final(self)@) == num_keys,
            leaf_num_cells(final(self)@) == num_keys,
            same_common_header(old(self)@, final(self)@),
            internal_right_child(final(self)@) == internal_right_child(old(self)@),
            same_leaf_slots(old(self)@, final(self)@),
            same_internal_slots(old(self)@, final(self)@),
    {
        self.set_leaf_node_num_cells(num_keys);
    }

    /// Byte offset of the right-child field within the page.
    pub fn internal_node_right_child(&self) -> (r: usize)
        ensures
            r == INTERNAL_NODE_RIGHT_CHILD_OFFSET,
    {
        INTERNAL_NODE_RIGHT_CHILD_OFFSET
    }

    pub fn get_internal_node_right_child(&self) -> (r: u64)
        requires
            self.wf(),
        ensures
            r == internal_right_child(self@),
    {
        self.read_u64(self.internal_node_right_child())
    }

    /// Sets the right child, which shares its bytes with the next-leaf link.
    pub fn set_internal_node_right_child(&mut self, right_child: u64)
        requires
            old(self).wf(),
        ensures
            final(self).wf(),
            internal_right_child(final(self)@) == right_child,
            leaf_next(final(self)@) == right_child,
            same_common_header(old(self)@, final(self)@),
            internal_num_keys(final(self)@) == internal_num_keys(old(self)@),
            same_leaf_slots(old(self)@, final(self)@),
            same_internal_slots(old(self)@, final(self)@),
    {
        self.set_leaf_node_next_leaf(right_child);
    }

    // -- internal cells ----------------------------------------------------

    /// Byte offset of internal cell `cell_num` within the page.
    pub fn internal_node_cell(&self, cell_num: usize) -> (r: usize)
        requires
            cell_num < INTERNAL_NODE_MAX_CELLS,
        ensures
            r == internal_cell_offset(cell_num as int),
            r + INTERNAL_NODE_CELL_SIZE <= PAGE_SIZE,
    {
        proof {
            lemma_layout_values();
        }
        INTERNAL_NODE_HEADER_SIZE + cell_num * INTERNAL_NODE_CELL_SIZE
    }

    pub fn get_internal_node_cell(&self, cell_num: usize) -> (r: u64)
        requires
            self.wf(),
            cell_num < INTERNAL_NODE_MAX_CELLS,
        ensures
            r == internal_cell_child(self@, cell_num as int),
    {
        let off = self.internal_node_cell(cell_num);
        let r = self.read_u64(off);
        proof {
            lemma_subrange_of_subrange(self@, off as int, off + INTERNAL_NODE_CELL_SIZE, 0, 8);
        }
        r
    }

    /// Sets the child page number stored in internal cell `cell_num`.
    pub fn set_internal_node_cell(&mut self, cell_num: usize, page_num: u64)
        requires
            old(self).wf(),
            cell_num < INTERNAL_NODE_MAX_CELLS,
        ensures
            final(self).wf(),
            internal_cell_child(final(self)@, cell_num as int) == page_num,
            internal_key(final(self)@, cell_num as int) == internal_key(old(self)@, cell_num as int),
            forall|j: int|
                0 <= j < INTERNAL_NODE_MAX_CELLS && j != cell_num ==> #[trigger] internal_slot(
                    final(self)@,
                    j,
                ) == internal_slot(old(self)@, j),
            same_common_header(old(self)@, final(self)@),
            internal_num_keys(final(self)@) == internal_num_keys(old(self)@),
            internal_right_child(final(self)@) == internal_right_child(old(self)@),
    {
        let off = self.internal_node_cell(cell_num);
        self.write_u64(off, page_num);
        proof {
            let (a, b) = (old(self)@, self@);
            lemma_fields_frame(a, b, off as int, off + 8);
            assert forall|j: int|
                0 <= j < INTERNAL_NODE_MAX_CELLS && j != cell_num implies #[trigger] internal_slot(b, j)
                == internal_slot(a, j) by {
                lemma_internal_slots_disjoint(cell_num as int, j);
            }
            lemma_subrange_of_subrange(b, off as int, off + INTERNAL_NODE_CELL_SIZE, 0, 8);
            lemma_subrange_of_subrange(a, off as int, off + INTERNAL_NODE_CELL_SIZE, 8, 12);
            lemma_subrange_of_subrange(b, off as int, off + INTERNAL_NODE_CELL_SIZE, 8, 12);
            lemma_frame_subrange(a, b, off as int, off + 8, off + 8, off + 12);
        }
    }

    pub fn get_internal_node_key(&self, key_num: usize) -> (r: u32)
        requires
            self.wf(),
            key_num < INTERNAL_NODE_MAX_CELLS,
        ensures
            r == internal_key(self@, key_num as int),
    {
        let off = self.internal_node_cell(key_num);
        let r = self.read_u32(off + INTERNAL_NODE_CHILD_SIZE);
        proof {
            lemma_subrange_of_subrange(self@, off as int, off + INTERNAL_NODE_CELL_SIZE, 8, 12);
        }
        r
    }

    pub fn set_internal_node_key(&mut self, key_num: usize, key_val: u32)
        requires
            old(self).wf(),
            key_num < INTERNAL_NODE_MAX_CELLS,
        ensures
            final(self).wf(),
            internal_key(final(self)@, key_num as int) == key_val,
            internal_cell_child(final(self)@, key_num as int) == internal_cell_child(
                old(self)@,
                key_num as int,
            ),
            forall|j: int|
                0 <= j < INTERNAL_NODE_MAX_CELLS && j != key_num ==> #[trigger] internal_slot(
                    final(self)@,
                    j,
                ) == internal_slot(old(self)@, j),
            same_common_header(old(self)@, final(self)@),
            internal_num_keys(final(self)@) == internal_num_keys(old(self)@),
            internal_right_child(final(self)@) == internal_right_child(old(self)@),
    {
        let off = self.internal_node_cell(key_num);
        self.write_u32(off + INTERNAL_NODE_CHILD_SIZE, key_val);
        proof {
            let (a, b) = (old(self)@, self@);
            lemma_fields_frame(a, b, off + 8, off + 12);
            assert forall|j: int|
                0 <= j < INTERNAL_NODE_MAX_CELLS && j != key_num implies #[trigger] internal_slot(b, j)
                == internal_slot(a, j) by {
                lemma_internal_slots_disjoint(key_num as int, j);
            }
            lemma_subrange_of_subrange(b, off as int, off + INTERNAL_NODE_CELL_SIZE, 8, 12);
            lemma_subrange_of_subrange(a, off as int, off + INTERNAL_NODE_CELL_SIZE, 0, 8);
            lemma_subrange_of_subrange(b, off as int, off + INTERNAL_NODE_CELL_SIZE, 0, 8);
            lemma_frame_subrange(a, b, off + 8, off + 12, off as int, off + 8);
        }
    }

    /// Child `child_num` of an internal node; `num_keys` names the right child.
    pub fn get_internal_node_child(&self, child_num: usize) -> (r: u64)
        requires
            self.wf(),
            child_num <= internal_num_keys(self@) <= INTERNAL_NODE_MAX_CELLS,
        ensures
            r == internal_child(self@, child_num as int),
    {
        let num_keys = self.get_internal_node_num_keys();
        if child_num as u64 == num_keys {
            self.get_internal_node_right_child()
        } else {
            self.get_internal_node_cell(child_num)
        }
    }

    /// Sets child `child_num`; `num_keys` names the right child.
    pub fn set_internal_node_child(&mut self, child_num: usize, child_page_num: u64)
        requires
            old(self).wf(),
            child_num <= internal_num_keys(old(self)@) <= INTERNAL_NODE_MAX_CELLS,
        ensures
            final(self).wf(),
            internal_child(final(self)@, child_num as int) == child_page_num,
            forall|j: int|
                0 <= j <= internal_num_keys(old(self)@) && j != child_num ==> #[trigger] internal_child(
                    final(self)@,
                    j,
                ) == internal_child(old(self)@, j),
            internal_keys(final(self)@) == internal_keys(old(self)@),
            same_common_header(old(self)@, final(self)@),
            internal_num_keys(final(self)@) == internal_num_keys(old(self)@),
    {
        let num_keys = self.get_internal_node_num_keys();
        if child_num as u64 == num_keys {
            self.set_internal_node_right_child(child_page_num);
            assert(internal_keys(self@) =~= internal_keys(old(self)@));
        } else {
            self.set_internal_node_cell(child_num, child_page_num);
            assert(internal_keys(self@) =~= internal_keys(old(self)@)) by {
                assert forall|j: int| 0 <= j < internal_num_keys(self@) implies internal_key(self@, j)
                    == internal_key(old(self)@, j) by {
                    if j != child_num {
                        assert(internal_slot(self@, j) == internal_slot(old(self)@, j));
                    }
                }
            }
            assert forall|j: int|
                0 <= j <= internal_num_keys(old(self)@) && j != child_num implies #[trigger] internal_child(
                self@,
                j,
            ) == internal_child(old(self)@, j) by {
                if j < internal_num_keys(old(self)@) {
                    assert(internal_slot(self@, j) == internal_slot(old(self)@, j));
                }
            }
        }
    }

    /// The largest key of a non-empty node: its last key.
    pub fn get_node_max_key(&self) -> (r: u32)
        requires
            self.wf(),
            is_leaf(self@) ==> 0 < leaf_num_cells(self@) <= LEAF_NODE_MAX_CELLS,
            !is_leaf(self@) ==> 0 < internal_num_keys(self@) <= INTERNAL_NODE_MAX_CELLS,
        ensures
            r == node_max_key(self@),
    {
        if self.is_leaf_node() {
            let n = self.leaf_node_num_cells();
            self.leaf_node_key((n - 1) as usize)
        } else {
            let n = self.get_internal_node_num_keys();
            self.get_internal_node_key((n - 1) as usize)
        }
    }

    // -- whole-node initialisation ----------------------------------------

    /// Makes this page an empty, non-root leaf with no next leaf.
    pub fn initialize_leaf_node(&mut self)
        requires
            old(self).wf(),
        ensures
            final(self).wf(),
            is_leaf(final(self)@),
            !is_root(final(self)@),
            leaf_num_cells(final(self)@) == 0,
            leaf_next(final(self)@) == 0,
            parent_of(final(self)@) == parent_of(old(self)@),
    {
        self.set_node_type(NodeType::NODE_LEAF);
        self.set_node_root(false);
        self.set_leaf_node_num_cells(0);
        self.set_leaf_node_next_leaf(0);
    }

    /// Makes this page an internal, non-root node with no keys.
    pub fn initialize_internal_node(&mut self)
        requires
            old(self).wf(),
        ensures
            final(self).wf(),
            is_internal(final(self)@),
            !is_root(final(self)@),
            internal_num_keys(final(self)@) == 0,
            parent_of(final(self)@) == parent_of(old(self)@),
    {
        self.set_node_type(NodeType::NODE_INTERNAL);
        self.set_node_root(false);
        self.set_internal_node_num_keys(0);
    }
}

} // verus!
