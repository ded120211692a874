//! The node protocol: well-formedness of a node, search within a node, and
//! rewriting a leaf's cell array.
use vstd::prelude::*;
use crate::layout::{
    PAGE_SIZE, LEAF_NODE_MAX_CELLS, LEAF_NODE_CELL_SIZE, INTERNAL_NODE_MAX_CELLS, NODE_TAG_INTERNAL, lemma_layout_values,
};
use crate::page::{
    Page, is_leaf, is_internal, parent_of, leaf_num_cells, leaf_next, leaf_slot,
    leaf_cells, leaf_keys, cells_keys, cell_key, same_common_header, internal_num_keys,
    internal_keys, internal_children, internal_right_child, strictly_ascending,
    internal_cell_child, internal_key, internal_slot,
};

verus! {

/// The first index whose key is at least `key`; the length if there is none.
pub open spec fn lower_bound(keys: Seq<u32>, key: u32) -> nat
    decreases keys.len(),
{
    if keys.len() == 0 {
        0
    } else if keys[0] >= key {
        0
    } else {
        1 + lower_bound(keys.drop_first(), key)
    }
}

pub proof fn lemma_lower_bound(keys: Seq<u32>, key: u32, r: int)
    requires
        0 <= r <= keys.len(),
        forall|j: int| 0 <= j < r ==> keys[j] < key,
        r < keys.len() ==> keys[r] >= key,
    ensures
        lower_bound(keys, key) == r,
    decreases r,
{
    if r > 0 {
        lemma_lower_bound(keys.drop_first(), key, r - 1);
    }
}

/// A leaf as stored: a leaf tag, at most `LEAF_NODE_MAX_CELLS` cells, keys
/// strictly ascending, and links to pages below `num_pages`.
pub open spec fn leaf_wf(s: Seq<u8>, num_pages: nat) -> bool {
    &&& is_leaf(s)
    &&& leaf_num_cells(s) <= LEAF_NODE_MAX_CELLS
    &&& strictly_ascending(leaf_keys(s))
    &&& leaf_next(s) < num_pages
}

/// An internal node as stored: an internal tag, at most
/// `INTERNAL_NODE_MAX_CELLS` keys strictly ascending, and children below
/// `num_pages`.
pub open spec fn internal_wf(s: Seq<u8>, num_pages: nat) -> bool {
    &&& is_internal(s)
    &&& internal_num_keys(s) <= INTERNAL_NODE_MAX_CELLS
    &&& strictly_ascending(internal_keys(s))
    &&& forall|i: int| 0 <= i < internal_children(s).len() ==> #[trigger] internal_children(s)[i] < num_pages
}

/// A page that holds a well-formed node of a file of `num_pages` pages.
pub open spec fn node_wf(s: Seq<u8>, num_pages: nat) -> bool {
    &&& s.len() == PAGE_SIZE
    &&& parent_of(s) < num_pages
    &&& (leaf_wf(s, num_pages) || internal_wf(s, num_pages))
}

/// The views of a sequence of byte vectors.
pub open spec fn cells_view(v: Seq<Vec<u8>>) -> Seq<Seq<u8>> {
    Seq::new(v.len(), |i: int| v[i]@)
}

/// Index of `key` in a leaf, or the index where it would be inserted.
pub fn leaf_node_find(page: &Page, key: u32) -> (r: usize)
    requires
        page.wf(),
        leaf_num_cells(page@) <= LEAF_NODE_MAX_CELLS,
    ensures
        r <= leaf_num_cells(page@),
        strictly_ascending(leaf_keys(page@)) ==> r == lower_bound(leaf_keys(page@), key),
{
    let ghost keys = leaf_keys(page@);
    let num_cells = page.leaf_node_num_cells() as usize;
    let mut min_index: usize = 0;
    let mut one_past_max_index: usize = num_cells;
    while one_past_max_index != min_index
        invariant
            num_cells == keys.len(),
            num_cells <= LEAF_NODE_MAX_CELLS,
            keys == leaf_keys(page@),
            page.wf(),
            min_index <= one_past_max_index <= num_cells,
            strictly_ascending(keys) ==> forall|j: int| 0 <= j < min_index ==> keys[j] < key,
            strictly_ascending(keys) ==> forall|j: int|
                one_past_max_index <= j < num_cells ==> keys[j] >= key,
        decreases one_past_max_index - min_index,
    {
        let index = min_index + (one_past_max_index - min_index) / 2;
        let key_at_index = page.leaf_node_key(index);
        assert(keys[index as int] == key_at_index);
        if key_at_index == key {
            proof {
                if strictly_ascending(keys) {
                    assert forall|j: int| 0 <= j < index implies keys[j] < key by {
                        assert(keys[j] < keys[index as int]);
                    }
                    lemma_lower_bound(keys, key, index as int);
                }
            }
            return index;
        } else if key_at_index > key {
            proof {
                if strictly_ascending(keys) {
                    assert forall|j: int| index <= j < num_cells implies keys[j] >= key by {
                        if j > index {
                            assert(keys[index as int] < keys[j]);
                        }
                    }
                }
            }
            one_past_max_index = index;
        } else {
            proof {
                if strictly_ascending(keys) {
                    assert forall|j: int| 0 <= j < index + 1 implies keys[j] < key by {
                        if j < index {
                            assert(keys[j] < keys[index as int]);
                        }
                    }
                }
            }
            min_index = index + 1;
        }
    }
    proof {
        if strictly_ascending(keys) {
            lemma_lower_bound(keys, key, min_index as int);
        }
    }
    min_index
}

/// Index of the child of an internal node to follow for `key`: the first
/// key at least `key`, or `num_keys` (the right child) if there is none.
pub fn internal_node_find_child(page: &Page, key: u32) -> (r: usize)
    requires
        page.wf(),
        internal_num_keys(page@) <= INTERNAL_NODE_MAX_CELLS,
    ensures
        r <= internal_num_keys(page@),
        strictly_ascending(internal_keys(page@)) ==> r == lower_bound(internal_keys(page@), key),
{
    let ghost keys = internal_keys(page@);
    let num_keys = page.get_internal_node_num_keys() as usize;
    let mut min_index: usize = 0;
    let mut max_index: usize = num_keys;
    while min_index != max_index
        invariant
            num_keys == keys.len(),
            num_keys <= INTERNAL_NODE_MAX_CELLS,
            keys == internal_keys(page@),
            page.wf(),
            min_index <= max_index <= num_keys,
            strictly_ascending(keys) ==> forall|j: int| 0 <= j < min_index ==> keys[j] < key,
            strictly_ascending(keys) ==> forall|j: int| max_index <= j < num_keys ==> keys[j] >= key,
        decreases max_index - min_index,
    {
        let index = min_index + (max_index - min_index) / 2;
        let key_to_right = page.get_internal_node_key(index);
        assert(keys[index as int] == key_to_right);
        if key_to_right >= key {
            proof {
                if strictly_ascending(keys) {
                    assert forall|j: int| index <= j < num_keys implies keys[j] >= key by {
                        if j > index {
                            assert(keys[index as int] < keys[j]);
                        }
                    }
                }
            }
            max_index = index;
        } else {
            proof {
                if strictly_ascending(keys) {
                    assert forall|j: int| 0 <= j < index + 1 implies keys[j] < key by {
                        if j < index {
                            assert(keys[j] < keys[index as int]);
                        }
                    }
                }
            }
            min_index = index + 1;
        }
    }
    proof {
        if strictly_ascending(keys) {
            lemma_lower_bound(keys, key, min_index as int);
        }
    }
    min_index
}

/// The cells in use in a leaf, copied out.
pub fn read_leaf_cells(page: &Page) -> (r: Vec<Vec<u8>>)
    requires
        page.wf(),
        leaf_num_cells(page@) <= LEAF_NODE_MAX_CELLS,
    ensures
        cells_view(r@) == leaf_cells(page@),
        forall|i: int| 0 <= i < r@.len() ==> #[trigger] r@[i]@.len() == LEAF_NODE_CELL_SIZE,
{
    proof {
        lemma_layout_values();
    }
    let n = page.leaf_node_num_cells() as usize;
    let mut out: Vec<Vec<u8>> = Vec::new();
    let mut i: usize = 0;
    while i < n
        invariant
            n == leaf_num_cells(page@),
            n <= LEAF_NODE_MAX_CELLS,
            page.wf(),
            i <= n,
            out@.len() == i,
            forall|j: int| 0 <= j < i ==> #[trigger] out@[j]@ == leaf_slot(page@, j),
        decreases n - i,
    {
        let c = page.read_leaf_cell(i);
        out.push(c);
        i = i + 1;
    }
    assert(cells_view(out@) =~= leaf_cells(page@));
    out
}

/// Replaces the cells of a leaf by `cells`; the header but for the count is kept.
pub fn write_leaf_cells(page: &mut Page, cells: &Vec<Vec<u8>>)
    requires
        old(page).wf(),
        cells@.len() <= LEAF_NODE_MAX_CELLS,
        forall|i: int| 0 <= i < cells@.len() ==> #[trigger] cells@[i]@.len() == LEAF_NODE_CELL_SIZE,
    ensures
        final(page).wf(),
        leaf_cells(final(page)@) == cells_view(cells@),
        same_common_header(old(page)@, final(page)@),
        leaf_next(final(page)@) == leaf_next(old(page)@),
{
    let n = cells.len();
    let mut i: usize = 0;
    while i < n
        invariant
            n == cells@.len(),
            n <= LEAF_NODE_MAX_CELLS,
            forall|k: int| 0 <= k < cells@.len() ==> #[trigger] cells@[k]@.len() == LEAF_NODE_CELL_SIZE,
            page.wf(),
            i <= n,
            forall|j: int| 0 <= j < i ==> #[trigger] leaf_slot(page@, j) == cells@[j]@,
            same_common_header(old(page)@, page@),
            leaf_next(page@) == leaf_next(old(page)@),
        decreases n - i,
    {
        page.write_leaf_cell(i, cells[i].as_slice());
        i = i + 1;
    }
    let ghost before = page@;
    page.set_leaf_node_num_cells(n as u64);
    assert(leaf_cells(page@) =~= cells_view(cells@)) by {
        assert forall|j: int| 0 <= j < n implies leaf_slot(page@, j) == cells@[j]@ by {
            assert(leaf_slot(page@, j) == leaf_slot(before, j));
        }
    }
}

/// Inserting a key at its `lower_bound` position into strictly ascending
/// keys that lack it keeps them strictly ascending.
pub proof fn lemma_insert_keeps_ascending(keys: Seq<u32>, pos: int, key: u32)
    requires
        strictly_ascending(keys),
        0 <= pos <= keys.len(),
        forall|j: int| 0 <= j < pos ==> keys[j] < key,
        forall|j: int| pos <= j < keys.len() ==> keys[j] > key,
    ensures
        strictly_ascending(keys.insert(pos, key)),
{
    let r = keys.insert(pos, key);
    assert forall|i: int, j: int| 0 <= i < j < r.len() implies r[i] < r[j] by {
        if j < pos {
        } else if j == pos {
        } else if i < pos {
        } else if i == pos {
        } else {
        }
    }
}

/// The keys of a sequence of cells are the cells' keys, in order.
pub proof fn lemma_cells_keys_insert(cells: Seq<Seq<u8>>, pos: int, c: Seq<u8>)
    requires
        0 <= pos <= cells.len(),
    ensures
        cells_keys(cells.insert(pos, c)) == cells_keys(cells).insert(pos, cell_key(c)),
{
    assert(cells_keys(cells.insert(pos, c)) =~= cells_keys(cells).insert(pos, cell_key(c)));
}

pub proof fn lemma_cells_keys_subrange(cells: Seq<Seq<u8>>, lo: int, hi: int)
    requires
        0 <= lo <= hi <= cells.len(),
    ensures
        cells_keys(cells.subrange(lo, hi)) == cells_keys(cells).subrange(lo, hi),
{
    assert(cells_keys(cells.subrange(lo, hi)) =~= cells_keys(cells).subrange(lo, hi));
}

/// Whether a page holds a well-formed node of a file of `num_pages` pages.
pub fn node_is_wf(page: &Page, num_pages: u64) -> (r: bool)
    requires
        page.wf(),
    ensures
        r == node_wf(page@, num_pages as nat),
{
    if page.get_parent() >= num_pages {
        return false;
    }
    if page.is_leaf_node() {
        let n = page.leaf_node_num_cells();
        if n > LEAF_NODE_MAX_CELLS as u64 || page.leaf_node_next_leaf() >= num_pages {
            return false;
        }
        let ghost keys = leaf_keys(page@);
        let mut i: usize = 1;
        while i < n as usize
            invariant
                n == leaf_num_cells(page@),
                n <= LEAF_NODE_MAX_CELLS,
                keys == leaf_keys(page@),
                page.wf(),
                is_leaf(page@),
                1 <= i,
                forall|a: int, b: int| 0 <= a < b < i && b < n ==> keys[a] < keys[b],
            decreases n - i,
        {
            let k0 = page.leaf_node_key(i - 1);
            let k1 = page.leaf_node_key(i);
            assert(keys[i - 1] == k0 && keys[i as int] == k1);
            if k0 >= k1 {
                assert(!strictly_ascending(keys)) by {
                    assert(0 <= i - 1 < i < keys.len());
                }
                return false;
            }
            proof {
                assert forall|a: int, b: int| 0 <= a < b < i + 1 && b < n implies keys[a] < keys[b] by {
                    if b == i && a < i - 1 {
                        assert(keys[a] < keys[i - 1]);
                    }
                }
            }
            i = i + 1;
        }
        true
    } else if page.read_u8(0) == NODE_TAG_INTERNAL {
        let n = page.get_internal_node_num_keys();
        if n > INTERNAL_NODE_MAX_CELLS as u64 {
            return false;
        }
        let ghost keys = internal_keys(page@);
        let ghost children = internal_children(page@);
        let mut i: usize = 0;
        while i < n as usize
            invariant
                n == internal_num_keys(page@),
                n <= INTERNAL_NODE_MAX_CELLS,
                keys == internal_keys(page@),
                children == internal_children(page@),
                page.wf(),
                is_internal(page@),
                i <= n,
                forall|a: int, b: int| 0 <= a < b < i ==> keys[a] < keys[b],
                forall|a: int| 0 <= a < i ==> children[a] < num_pages,
            decreases n - i,
        {
            let c = page.get_internal_node_cell(i);
            assert(children[i as int] == c);
            if c >= num_pages {
                assert(!internal_wf(page@, num_pages as nat)) by {
                    assert(0 <= i < children.len());
                }
                return false;
            }
            if i > 0 {
                let k0 = page.get_internal_node_key(i - 1);
                let k1 = page.get_internal_node_key(i);
                assert(keys[i - 1] == k0 && keys[i as int] == k1);
                if k0 >= k1 {
                    assert(!strictly_ascending(keys)) by {
                        assert(0 <= i - 1 < i < keys.len());
                    }
                    return false;
                }
            }
            proof {
                assert forall|a: int, b: int| 0 <= a < b < i + 1 implies keys[a] < keys[b] by {
                    if b == i && a < i - 1 {
                        assert(keys[a] < keys[i - 1]);
                    }
                }
            }
            i = i + 1;
        }
        let rc = page.get_internal_node_right_child();
        assert(children[n as int] == rc);
        if rc >= num_pages {
            return false;
        }
        proof {
            assert forall|a: int| 0 <= a < children.len() implies #[trigger] children[a] < num_pages by {
            }
        }
        true
    } else {
        false
    }
}

/// Inserts `(child, key)` as internal cell `idx`, shifting cells
/// `[idx, num_keys)` one slot right.
pub fn internal_node_insert_cell(page: &mut Page, idx: usize, child: u64, key: u32)
    requires
        old(page).wf(),
        internal_num_keys(old(page)@) < INTERNAL_NODE_MAX_CELLS,
        idx <= internal_num_keys(old(page)@),
    ensures
        final(page).wf(),
        internal_num_keys(final(page)@) == internal_num_keys(old(page)@) + 1,
        internal_keys(final(page)@) == internal_keys(old(page)@).insert(idx as int, key),
        internal_children(final(page)@) == internal_children(old(page)@).insert(idx as int, child),
        same_common_header(old(page)@, final(page)@),
{
    let ghost s0 = page@;
    let nk = page.get_internal_node_num_keys() as usize;
    let mut j: usize = nk;
    while j > idx
        invariant
            page.wf(),
            nk == internal_num_keys(s0),
            nk < INTERNAL_NODE_MAX_CELLS,
            idx <= j <= nk,
            internal_num_keys(page@) == nk,
            internal_right_child(page@) == internal_right_child(s0),
            same_common_header(s0, page@),
            forall|k: int|
                0 <= k < j ==> #[trigger] internal_cell_child(page@, k) == internal_cell_child(s0, k),
            forall|k: int| 0 <= k < j ==> #[trigger] internal_key(page@, k) == internal_key(s0, k),
            forall|k: int|
                j < k <= nk ==> #[trigger] internal_cell_child(page@, k) == internal_cell_child(
                    s0,
                    k - 1,
                ),
            forall|k: int| j < k <= nk ==> #[trigger] internal_key(page@, k) == internal_key(s0, k - 1),
        decreases j,
    {
        let c = page.get_internal_node_cell(j - 1);
        let k = page.get_internal_node_key(j - 1);
        let ghost s1 = page@;
        page.set_internal_node_cell(j, c);
        let ghost s2 = page@;
        page.set_internal_node_key(j, k);
        proof {
            assert forall|m: int| 0 <= m <= nk && m != j implies #[trigger] internal_cell_child(page@, m)
                == internal_cell_child(s1, m) by {
                assert(internal_slot(page@, m) == internal_slot(s2, m));
                assert(internal_slot(s2, m) == internal_slot(s1, m));
            }
            assert forall|m: int| 0 <= m <= nk && m != j implies #[trigger] internal_key(page@, m)
                == internal_key(s1, m) by {
                assert(internal_slot(page@, m) == internal_slot(s2, m));
                assert(internal_slot(s2, m) == internal_slot(s1, m));
            }
            assert(internal_cell_child(page@, j as int) == internal_cell_child(s0, j - 1));
            assert(internal_key(page@, j as int) == internal_key(s0, j - 1));
        }
        j = j - 1;
    }
    let ghost s1 = page@;
    page.set_internal_node_cell(idx, child);
    let ghost s2 = page@;
    page.set_internal_node_key(idx, key);
    let ghost s3 = page@;
    page.set_internal_node_num_keys((nk + 1) as u64);
    proof {
        assert forall|m: int| 0 <= m <= nk && m != idx implies #[trigger] internal_cell_child(
            page@,
            m,
        ) == internal_cell_child(s1, m) by {
            assert(internal_slot(page@, m) == internal_slot(s3, m));
            assert(internal_slot(s3, m) == internal_slot(s2, m));
            assert(internal_slot(s2, m) == internal_slot(s1, m));
        }
        assert forall|m: int| 0 <= m <= nk && m != idx implies #[trigger] internal_key(page@, m)
            == internal_key(s1, m) by {
            assert(internal_slot(page@, m) == internal_slot(s3, m));
            assert(internal_slot(s3, m) == internal_slot(s2, m));
            assert(internal_slot(s2, m) == internal_slot(s1, m));
        }
        assert(internal_slot(page@, idx as int) == internal_slot(s3, idx as int));
        assert(internal_key(page@, idx as int) == key);
        assert(internal_cell_child(page@, idx as int) == child);
        assert forall|m: int| 0 <= m < nk + 1 implies internal_keys(page@)[m] == internal_keys(
            s0,
        ).insert(idx as int, key)[m] by {
            if m < idx {
                assert(internal_key(s1, m) == internal_key(s0, m));
            } else if m > idx {
                assert(internal_key(s1, m) == internal_key(s0, m - 1));
            }
        }
        assert(internal_keys(page@) =~= internal_keys(s0).insert(idx as int, key));
        assert forall|m: int| 0 <= m < nk + 2 implies internal_children(page@)[m]
            == internal_children(s0).insert(idx as int, child)[m] by {
            if m < idx {
                assert(internal_cell_child(s1, m) == internal_cell_child(s0, m));
            } else if m > idx && m <= nk {
                assert(internal_cell_child(s1, m) == internal_cell_child(s0, m - 1));
            }
        }
        assert(internal_children(page@) =~= internal_children(s0).insert(idx as int, child));
    }
}

/// Appends `(child, key)` as cell `num_keys` and makes `right_child` the
/// new right child.
pub fn internal_node_append_cell(page: &mut Page, child: u64, key: u32, right_child: u64)
    requires
        old(page).wf(),
        internal_num_keys(old(page)@) < INTERNAL_NODE_MAX_CELLS,
        internal_right_child(old(page)@) == child,
    ensures
        final(page).wf(),
        internal_num_keys(final(page)@) == internal_num_keys(old(page)@) + 1,
        internal_keys(final(page)@) == internal_keys(old(page)@).push(key),
        internal_children(final(page)@) == internal_children(old(page)@).push(right_child),
        same_common_header(old(page)@, final(page)@),
{
    let ghost s0 = page@;
    let nk = page.get_internal_node_num_keys() as usize;
    page.set_internal_node_cell(nk, child);
    let ghost s1 = page@;
    page.set_internal_node_key(nk, key);
    let ghost s2 = page@;
    page.set_internal_node_num_keys((nk + 1) as u64);
    let ghost s3 = page@;
    page.set_internal_node_right_child(right_child);
    proof {
        assert forall|m: int| 0 <= m <= nk implies internal_cell_child(page@, m)
            == (if m == nk { child } else { internal_cell_child(s0, m) }) && internal_key(page@, m)
            == (if m == nk { key } else { internal_key(s0, m) }) by {
            assert(internal_slot(page@, m) == internal_slot(s3, m));
            assert(internal_slot(s3, m) == internal_slot(s2, m));
            if m != nk {
                assert(internal_slot(s2, m) == internal_slot(s1, m));
                assert(internal_slot(s1, m) == internal_slot(s0, m));
            }
        }
        assert(internal_keys(page@) =~= internal_keys(s0).push(key));
        assert(internal_children(page@) =~= internal_children(s0).push(right_child));
    }
}

} // verus!
