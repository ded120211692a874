//! The shape and order of the trees that this engine builds: a root leaf
//! alone, or an internal root over a chain of leaves whose key ranges its
//! keys separate.
use vstd::prelude::*;
use vstd::bytes::{spec_u32_to_le_bytes, lemma_auto_spec_u32_to_from_le_bytes};
use crate::layout::{LEAF_NODE_MAX_CELLS, TABLE_MAX_PAGES, lemma_layout_values};
use crate::page::{
    is_leaf, is_internal, is_root, parent_of, leaf_num_cells, leaf_next, leaf_cells, leaf_keys,
    cells_keys, cell_key, internal_keys, internal_children, internal_child, node_max_key, strictly_ascending, cell_value,
    internal_right_child,
};
use crate::node::{lower_bound, node_wf, leaf_wf};
use crate::btree::{
    tree_wf, descend, find_spec, lemma_lower_bound_props, leaf_insert_outcome, leaf_split_outcome,
    chain_cells, leftmost_leaf, table_cells, table_rows, keys_after_update,
};
use crate::row::{RowValue, row_image, row_fits};

verus! {

/// Child `i` of the root is a non-empty leaf under the root, linked to
/// the next child (the last to none), whose largest key is the root's key
/// `i` and whose keys all exceed the root's key `i - 1`.
pub open spec fn child_ok(pages: Seq<Seq<u8>>, keys: Seq<u32>, ch: Seq<u64>, i: int) -> bool {
    let s = pages[ch[i] as int];
    &&& is_leaf(s)
    &&& leaf_num_cells(s) > 0
    &&& parent_of(s) == 0
    &&& leaf_next(s) == (if i + 1 < ch.len() {
        ch[i + 1]
    } else {
        0
    })
    &&& i < keys.len() ==> node_max_key(s) == keys[i]
    &&& i > 0 ==> forall|k: int| 0 <= k < leaf_keys(s).len() ==> keys[i - 1] < #[trigger] leaf_keys(s)[k]
}

/// The trees this engine builds: either the root is a leaf and the only
/// page, with no next leaf; or the root is internal, every other page is
/// one of its children, and every child is as `child_ok` says.
pub open spec fn tree_ordered(pages: Seq<Seq<u8>>) -> bool {
    let root = pages[0];
    if is_leaf(root) {
        pages.len() == 1 && leaf_next(root) == 0
    } else {
        let keys = internal_keys(root);
        let ch = internal_children(root);
        &&& pages.len() == ch.len() + 1
        &&& forall|i: int| 0 <= i < ch.len() ==> 1 <= #[trigger] ch[i] < pages.len()
        &&& forall|n: int| 1 <= n < pages.len() ==> #[trigger] is_child(ch, n)
        &&& forall|i: int| 0 <= i < ch.len() ==> #[trigger] child_ok(pages, keys, ch, i)
    }
}

pub open spec fn is_child(ch: Seq<u64>, n: int) -> bool {
    exists|i: int| 0 <= i < ch.len() && ch[i] == n
}

/// The key of a cell image is the key it was made with.
pub proof fn lemma_cell_image_key(key: u32, row: RowValue)
    ensures
        cell_key(spec_u32_to_le_bytes(key) + row_image(row)) == key,
{
    lemma_auto_spec_u32_to_from_le_bytes();
    lemma_layout_values();
    let c = spec_u32_to_le_bytes(key) + row_image(row);
    assert(c.subrange(0, 4) =~= spec_u32_to_le_bytes(key));
}

/// The keys of a strictly ascending leaf are at most its last key.
pub proof fn lemma_at_most_last(keys: Seq<u32>, k: int)
    requires
        strictly_ascending(keys),
        0 <= k < keys.len(),
    ensures
        keys[k] <= keys.last(),
{
    if k < keys.len() - 1 {
        assert(keys[k] < keys[keys.len() - 1]);
    }
}

/// The root's children are distinct pages.
pub proof fn lemma_children_distinct(pages: Seq<Seq<u8>>, i: int, j: int)
    requires
        tree_wf(pages),
        tree_ordered(pages),
        !is_leaf(pages[0]),
        0 <= i < j < internal_children(pages[0]).len(),
    ensures
        internal_children(pages[0])[i] != internal_children(pages[0])[j],
{
    let keys = internal_keys(pages[0]);
    let ch = internal_children(pages[0]);
    assert(node_wf(pages[0], pages.len()));
    if ch[i] == ch[j] {
        assert(child_ok(pages, keys, ch, i));
        assert(child_ok(pages, keys, ch, j));
        let s = pages[ch[i] as int];
        assert(1 <= ch[i] < pages.len());
        assert(node_wf(s, pages.len()));
        let lk = leaf_keys(s);
        assert(lk.len() > 0);
        lemma_at_most_last(lk, 0);
        assert(lk[0] <= keys[i]);
        assert(keys[j - 1] < lk[0]);
        if i < j - 1 {
            assert(keys[i] < keys[j - 1]);
        }
    }
}

/// In an ordered tree with an internal root, a search for `key` lands on
/// the root's child at the key's `lower_bound` among the root's keys.
pub proof fn lemma_find_in_ordered(pages: Seq<Seq<u8>>, key: u32)
    requires
        tree_wf(pages),
        tree_ordered(pages),
    ensures
        is_leaf(pages[0]) ==> find_spec(pages, key) == Some((0nat, lower_bound(leaf_keys(pages[0]), key))),
        !is_leaf(pages[0]) ==> {
            let j = lower_bound(internal_keys(pages[0]), key);
            let p = internal_children(pages[0])[j as int];
            &&& j < internal_children(pages[0]).len()
            &&& find_spec(pages, key) == Some((p as nat, lower_bound(leaf_keys(pages[p as int]), key)))
        },
{
    if !is_leaf(pages[0]) {
        let keys = internal_keys(pages[0]);
        let ch = internal_children(pages[0]);
        let j = lower_bound(keys, key);
        lemma_lower_bound_props(keys, key);
        assert(node_wf(pages[0], pages.len()));
        assert(ch[j as int] == internal_child(pages[0], j as int));
        assert(child_ok(pages, keys, ch, j as int));
        let p = ch[j as int];
        assert(descend(pages, p as nat, key, (TABLE_MAX_PAGES - 1) as nat) == Some(p as nat));
    }
}

/// The leaf page that a search for `key` reaches (0 where it reaches none).
pub open spec fn found_leaf(pages: Seq<Seq<u8>>, key: u32) -> nat {
    match find_spec(pages, key) {
        Some((p, _)) => p,
        None => 0,
    }
}

/// The cell index that a search for `key` reaches (0 where it reaches none).
pub open spec fn found_cell(pages: Seq<Seq<u8>>, key: u32) -> nat {
    match find_spec(pages, key) {
        Some((_, c)) => c,
        None => 0,
    }
}

/// One successful insert of `cell` under `key`, as `Table::insert` reports it.
pub open spec fn insert_step(old: Seq<Seq<u8>>, new: Seq<Seq<u8>>, key: u32, cell: Seq<u8>) -> bool {
    &&& cell_key(cell) == key
    &&& find_spec(old, key) matches Some((p, c)) && {
        &&& (c == leaf_keys(old[p as int]).len() || leaf_keys(old[p as int])[c as int] != key)
        &&& if leaf_num_cells(old[p as int]) < LEAF_NODE_MAX_CELLS {
            leaf_insert_outcome(old, new, p as int, c as int, cell)
        } else {
            leaf_split_outcome(old, new, p as int, c as int, cell)
        }
    }
}

/// Facts on the keys of a leaf with a new key at its `lower_bound`.
proof fn lemma_inserted_keys(old_leaf: Seq<u8>, num_pages: nat, key: u32, cell: Seq<u8>)
    requires
        old_leaf.len() == crate::layout::PAGE_SIZE,
        leaf_wf(old_leaf, num_pages),
        cell_key(cell) == key,
        lower_bound(leaf_keys(old_leaf), key) == leaf_keys(old_leaf).len() || leaf_keys(
            old_leaf,
        )[lower_bound(leaf_keys(old_leaf), key) as int] != key,
    ensures
        ({
            let c = lower_bound(leaf_keys(old_leaf), key) as int;
            let all = leaf_cells(old_leaf).insert(c, cell);
            &&& c <= leaf_keys(old_leaf).len()
            &&& cells_keys(all) == leaf_keys(old_leaf).insert(c, key)
            &&& strictly_ascending(cells_keys(all))
            &&& all.len() == leaf_keys(old_leaf).len() + 1
        }),
{
    let c = lower_bound(leaf_keys(old_leaf), key) as int;
    lemma_lower_bound_props(leaf_keys(old_leaf), key);
    crate::node::lemma_cells_keys_insert(leaf_cells(old_leaf), c, cell);
    crate::btree::lemma_insert_at_lower_bound(leaf_keys(old_leaf), key);
}

/// Inserting into an ordered tree keeps it ordered.
pub proof fn lemma_insert_keeps_order(old: Seq<Seq<u8>>, new: Seq<Seq<u8>>, key: u32, cell: Seq<u8>)
    requires
        tree_wf(old),
        tree_ordered(old),
        tree_wf(new),
        insert_step(old, new, key, cell),
    ensures
        tree_ordered(new),
{
    lemma_layout_values();
    lemma_find_in_ordered(old, key);
    let (p, c) = find_spec(old, key)->0;
    let p = p as int;
    let c = c as int;
    crate::btree::lemma_descend_leaf(old, 0, key, TABLE_MAX_PAGES as nat);
    assert(node_wf(old[p], old.len()));
    assert(node_wf(old[0], old.len()));
    lemma_inserted_keys(old[p], old.len(), key, cell);
    let lk = leaf_keys(old[p]);
    let all = leaf_cells(old[p]).insert(c, cell);
    if is_leaf(old[0]) {
        assert(p == 0);
        if leaf_num_cells(old[p]) < LEAF_NODE_MAX_CELLS {
            assert(tree_ordered(new));
        } else {
            lemma_root_split_ordered(old, new, key, cell);
        }
    } else {
        if leaf_num_cells(old[p]) < LEAF_NODE_MAX_CELLS {
            lemma_room_ordered(old, new, key, cell);
        } else {
            lemma_child_split_ordered(old, new, key, cell);
        }
    }
}

proof fn lemma_root_split_ordered(old: Seq<Seq<u8>>, new: Seq<Seq<u8>>, key: u32, cell: Seq<u8>)
    requires
        tree_wf(old),
        tree_ordered(old),
        tree_wf(new),
        insert_step(old, new, key, cell),
        is_leaf(old[0]),
        found_leaf(old, key) == 0,
        leaf_num_cells(old[0]) >= LEAF_NODE_MAX_CELLS,
    ensures
        tree_ordered(new),
{
    lemma_layout_values();
    let c = found_cell(old, key) as int;
    assert(node_wf(old[0], old.len()));
    lemma_find_in_ordered(old, key);
    lemma_inserted_keys(old[0], old.len(), key, cell);
    let all = leaf_cells(old[0]).insert(c, cell);
    let ak = cells_keys(all);
    assert(all.len() == 14);
    let keys = internal_keys(new[0]);
    let ch = internal_children(new[0]);
    assert(ch =~= seq![2u64, 1u64]);
    crate::node::lemma_cells_keys_subrange(all, 0, 7);
    crate::node::lemma_cells_keys_subrange(all, 7, 14);
    assert(leaf_keys(new[2]) == ak.subrange(0, 7));
    assert(leaf_keys(new[1]) == ak.subrange(7, 14));
    assert(child_ok(new, keys, ch, 0));
    assert forall|k: int| 0 <= k < leaf_keys(new[1]).len() implies keys[0] < #[trigger] leaf_keys(new[1])[k] by {
        assert(ak[6] < ak[7 + k]);
    }
    assert(child_ok(new, keys, ch, 1));
    assert forall|i: int| 0 <= i < ch.len() implies #[trigger] child_ok(new, keys, ch, i) by {}
    assert forall|n: int| 1 <= n < new.len() implies #[trigger] is_child(ch, n) by {
        if n == 1 {
            assert(ch[1] == 1);
        } else {
            assert(ch[0] == 2);
        }
    }
}

proof fn lemma_room_ordered(old: Seq<Seq<u8>>, new: Seq<Seq<u8>>, key: u32, cell: Seq<u8>)
    requires
        tree_wf(old),
        tree_ordered(old),
        tree_wf(new),
        insert_step(old, new, key, cell),
        !is_leaf(old[0]),
        leaf_num_cells(old[found_leaf(old, key) as int]) < LEAF_NODE_MAX_CELLS,
    ensures
        tree_ordered(new),
{
    lemma_layout_values();
    lemma_find_in_ordered(old, key);
    let keys = internal_keys(old[0]);
    let ch = internal_children(old[0]);
    let j = lower_bound(keys, key) as int;
    lemma_lower_bound_props(keys, key);
    let p = ch[j] as int;
    let c = found_cell(old, key) as int;
    assert(node_wf(old[0], old.len()));
    assert(child_ok(old, keys, ch, j));
    assert(node_wf(old[p], old.len()));
    lemma_inserted_keys(old[p], old.len(), key, cell);
    let lk = leaf_keys(old[p]);
    lemma_lower_bound_props(lk, key);
    assert(new[0] == old[0]);
    let nk = leaf_keys(new[p]);
    crate::node::lemma_cells_keys_insert(leaf_cells(old[p]), c, cell);
    assert(nk == lk.insert(c, key));
    if j < keys.len() {
        if c == lk.len() {
            lemma_at_most_last(lk, lk.len() - 1);
            assert(lk.last() < key);
            assert(node_max_key(old[p]) == keys[j]);
        }
        assert(nk.last() == lk.last());
    }
    assert(child_ok(new, keys, ch, j)) by {
        if j > 0 {
            assert forall|k: int| 0 <= k < nk.len() implies keys[j - 1] < #[trigger] nk[k] by {
                if k < c {
                    assert(nk[k] == lk[k]);
                } else if k > c {
                    assert(nk[k] == lk[k - 1]);
                }
            }
        }
    }
    assert forall|i: int| 0 <= i < ch.len() implies #[trigger] child_ok(new, keys, ch, i) by {
        if i != j {
            if i < j {
                lemma_children_distinct(old, i, j);
            } else {
                lemma_children_distinct(old, j, i);
            }
            assert(child_ok(old, keys, ch, i));
            assert(new[ch[i] as int] == old[ch[i] as int]);
        }
    }
    assert forall|n: int| 1 <= n < new.len() implies #[trigger] is_child(ch, n) by {
        assert(is_child(ch, n));
    }
}

proof fn lemma_child_split_ordered(old: Seq<Seq<u8>>, new: Seq<Seq<u8>>, key: u32, cell: Seq<u8>)
    requires
        tree_wf(old),
        tree_ordered(old),
        tree_wf(new),
        insert_step(old, new, key, cell),
        !is_leaf(old[0]),
        leaf_num_cells(old[found_leaf(old, key) as int]) >= LEAF_NODE_MAX_CELLS,
    ensures
        tree_ordered(new),
{
    lemma_lower_bound_props(internal_keys(old[0]), key);
    if lower_bound(internal_keys(old[0]), key) < internal_keys(old[0]).len() {
        lemma_middle_split_ordered(old, new, key, cell);
    } else {
        lemma_right_split_ordered(old, new, key, cell);
    }
}

#[verifier::rlimit(60)]
proof fn lemma_middle_split_ordered(old: Seq<Seq<u8>>, new: Seq<Seq<u8>>, key: u32, cell: Seq<u8>)
    requires
        tree_wf(old),
        tree_ordered(old),
        tree_wf(new),
        insert_step(old, new, key, cell),
        !is_leaf(old[0]),
        leaf_num_cells(old[found_leaf(old, key) as int]) >= LEAF_NODE_MAX_CELLS,
        lower_bound(internal_keys(old[0]), key) < internal_keys(old[0]).len(),
    ensures
        tree_ordered(new),
{
    lemma_layout_values();
    lemma_find_in_ordered(old, key);
    let keys = internal_keys(old[0]);
    let ch = internal_children(old[0]);
    let nkeys = keys.len() as int;
    let j = lower_bound(keys, key) as int;
    lemma_lower_bound_props(keys, key);
    let p = ch[j] as int;
    let c = found_cell(old, key) as int;
    let r = old.len() as int;
    assert(node_wf(old[0], old.len()));
    assert(child_ok(old, keys, ch, j));
    assert(node_wf(old[p], old.len()));
    assert(!is_root(old[p]));
    assert(parent_of(old[p]) == 0);
    lemma_inserted_keys(old[p], old.len(), key, cell);
    let lk = leaf_keys(old[p]);
    lemma_lower_bound_props(lk, key);
    let all = leaf_cells(old[p]).insert(c, cell);
    let ak = cells_keys(all);
    assert(all.len() == 14);
    crate::node::lemma_cells_keys_subrange(all, 0, 7);
    crate::node::lemma_cells_keys_subrange(all, 7, 14);
    assert(leaf_keys(new[p]) == ak.subrange(0, 7));
    assert(leaf_keys(new[r]) == ak.subrange(7, 14));
    let new_max = ak[6];
    let child_max = ak[13];
    assert(node_max_key(new[p]) == new_max);
    assert(node_max_key(new[r]) == child_max);
    assert(new_max < child_max);
    let old_max = node_max_key(old[p]);
    assert(old_max == lk.last());
    // the keys of the split leaf all exceed the root key before it
    assert forall|k: int| 0 <= k < 14 && j > 0 implies keys[j - 1] < #[trigger] ak[k] by {
        if k < c {
            assert(ak[k] == lk[k]);
        } else if k > c {
            assert(ak[k] == lk[k - 1]);
        }
    }
    let keys2 = internal_keys(new[0]);
    let ch2 = internal_children(new[0]);
    assert(node_wf(new[0], new.len()));
    // the split leaf lies before the right child
    assert(old_max == keys[j]);
    assert forall|i: int| 0 <= i < j implies keys[i] < old_max by {
        assert(keys[i] < keys[j]);
    }
    crate::node::lemma_lower_bound(keys, old_max, j);
    let k1 = keys.update(j, new_max);
    if c == lk.len() {
        lemma_at_most_last(lk, lk.len() - 1);
    }
    assert(child_max == old_max) by {
        assert(c < 13);
        assert(ak[13] == lk[12]);
    }
    lemma_children_distinct(old, j, nkeys);
    let rc = ch[nkeys] as int;
    assert(child_ok(old, keys, ch, nkeys));
    assert(node_wf(old[rc], old.len()));
    let rk = leaf_keys(old[rc]);
    lemma_at_most_last(rk, 0);
    assert(keys[nkeys - 1] < rk[0]);
    if j < nkeys - 1 {
        assert(keys[j] < keys[nkeys - 1]);
    }
    let right_max = node_max_key(old[rc]);
    assert(child_max <= right_max);
    assert forall|i: int| 0 <= i < j + 1 implies k1[i] < child_max by {
        if i < j {
            assert(keys[i] < keys[j]);
        }
    }
    crate::node::lemma_lower_bound(k1, child_max, j + 1);
    assert(keys2 == k1.insert(j + 1, old_max));
    assert(ch2 == ch.insert(j + 1, r as u64));
    assert forall|i: int| 0 <= i < ch2.len() implies #[trigger] child_ok(new, keys2, ch2, i) by {
        if i < j {
            lemma_children_distinct(old, i, j);
            assert(child_ok(old, keys, ch, i));
            assert(new[ch[i] as int] == old[ch[i] as int]);
            assert(ch2[i] == ch[i]);
            assert(ch2[i + 1] == ch[i + 1]);
        } else if i == j {
            assert(ch2[j] == p);
            assert(ch2[j + 1] == r);
            if j > 0 {
                assert forall|k: int| 0 <= k < leaf_keys(new[p]).len() implies keys2[j - 1] < #[trigger] leaf_keys(new[p])[k] by {
                    assert(leaf_keys(new[p])[k] == ak[k]);
                }
            }
        } else if i == j + 1 {
            assert(ch2[j + 1] == r);
            assert(ch2[j + 2] == ch[j + 1]);
            assert(leaf_next(old[p]) == ch[j + 1]);
            assert forall|k: int| 0 <= k < leaf_keys(new[r]).len() implies keys2[j] < #[trigger] leaf_keys(new[r])[k] by {
                assert(leaf_keys(new[r])[k] == ak[7 + k]);
                assert(ak[6] < ak[7 + k]);
            }
        } else {
            lemma_children_distinct(old, j, i - 1);
            assert(child_ok(old, keys, ch, i - 1));
            assert(ch2[i] == ch[i - 1]);
            assert(new[ch[i - 1] as int] == old[ch[i - 1] as int]);
            if i + 1 < ch2.len() {
                assert(ch2[i + 1] == ch[i]);
            }
            if i < keys2.len() {
                assert(keys2[i] == keys[i - 1]);
            }
            assert(keys2[i - 1] == keys[i - 2]);
        }
    }
    assert forall|n: int| 1 <= n < new.len() implies #[trigger] is_child(ch2, n) by {
        if n == r {
            assert(ch2[j + 1] == r);
        } else {
            assert(is_child(ch, n));
            let i = choose|i: int| 0 <= i < ch.len() && ch[i] == n;
            if i <= j {
                assert(ch2[i] == n);
            } else {
                assert(ch2[i + 1] == n);
            }
        }
    }
    assert forall|i: int| 0 <= i < ch2.len() implies 1 <= #[trigger] ch2[i] < new.len() by {
        if i < j + 1 {
            assert(ch2[i] == ch[i]);
        } else if i > j + 1 {
            assert(ch2[i] == ch[i - 1]);
        }
    }
}

#[verifier::rlimit(60)]
proof fn lemma_right_split_ordered(old: Seq<Seq<u8>>, new: Seq<Seq<u8>>, key: u32, cell: Seq<u8>)
    requires
        tree_wf(old),
        tree_ordered(old),
        tree_wf(new),
        insert_step(old, new, key, cell),
        !is_leaf(old[0]),
        leaf_num_cells(old[found_leaf(old, key) as int]) >= LEAF_NODE_MAX_CELLS,
        lower_bound(internal_keys(old[0]), key) >= internal_keys(old[0]).len(),
    ensures
        tree_ordered(new),
{
    lemma_layout_values();
    lemma_find_in_ordered(old, key);
    let keys = internal_keys(old[0]);
    let ch = internal_children(old[0]);
    let nkeys = keys.len() as int;
    let j = lower_bound(keys, key) as int;
    lemma_lower_bound_props(keys, key);
    let p = ch[j] as int;
    let c = found_cell(old, key) as int;
    let r = old.len() as int;
    assert(node_wf(old[0], old.len()));
    assert(child_ok(old, keys, ch, j));
    assert(node_wf(old[p], old.len()));
    assert(!is_root(old[p]));
    assert(parent_of(old[p]) == 0);
    lemma_inserted_keys(old[p], old.len(), key, cell);
    let lk = leaf_keys(old[p]);
    lemma_lower_bound_props(lk, key);
    let all = leaf_cells(old[p]).insert(c, cell);
    let ak = cells_keys(all);
    assert(all.len() == 14);
    crate::node::lemma_cells_keys_subrange(all, 0, 7);
    crate::node::lemma_cells_keys_subrange(all, 7, 14);
    assert(leaf_keys(new[p]) == ak.subrange(0, 7));
    assert(leaf_keys(new[r]) == ak.subrange(7, 14));
    let new_max = ak[6];
    let child_max = ak[13];
    assert(node_max_key(new[p]) == new_max);
    assert(node_max_key(new[r]) == child_max);
    assert(new_max < child_max);
    let old_max = node_max_key(old[p]);
    assert(old_max == lk.last());
    // the keys of the split leaf all exceed the root key before it
    assert forall|k: int| 0 <= k < 14 && j > 0 implies keys[j - 1] < #[trigger] ak[k] by {
        if k < c {
            assert(ak[k] == lk[k]);
        } else if k > c {
            assert(ak[k] == lk[k - 1]);
        }
    }
    let keys2 = internal_keys(new[0]);
    let ch2 = internal_children(new[0]);
    assert(node_wf(new[0], new.len()));
    // the split leaf is the right child
    assert(j == nkeys);
    assert forall|i: int| 0 <= i < nkeys implies keys[i] < old_max by {
        lemma_at_most_last(lk, 0);
        if i < nkeys - 1 {
            assert(keys[i] < keys[nkeys - 1]);
        }
        assert(keys[nkeys - 1] < lk[0]);
    }
    crate::node::lemma_lower_bound(keys, old_max, nkeys);
    assert(internal_child(old[0], nkeys) == ch[nkeys]);
    assert(keys2 == keys.push(new_max));
    assert(ch2 == ch.push(r as u64));
    assert forall|i: int| 0 <= i < ch2.len() implies #[trigger] child_ok(new, keys2, ch2, i) by {
        if i < j {
            lemma_children_distinct(old, i, j);
            assert(child_ok(old, keys, ch, i));
            assert(new[ch[i] as int] == old[ch[i] as int]);
            assert(ch2[i] == ch[i]);
            assert(ch2[i + 1] == ch[i + 1]);
        } else if i == j {
            if j > 0 {
                assert forall|k: int| 0 <= k < leaf_keys(new[p]).len() implies keys2[j - 1] < #[trigger] leaf_keys(new[p])[k] by {
                    assert(leaf_keys(new[p])[k] == ak[k]);
                }
            }
        } else {
            assert(leaf_next(old[p]) == 0);
            assert forall|k: int| 0 <= k < leaf_keys(new[r]).len() implies keys2[j] < #[trigger] leaf_keys(new[r])[k] by {
                assert(leaf_keys(new[r])[k] == ak[7 + k]);
                assert(ak[6] < ak[7 + k]);
            }
        }
    }
    assert forall|n: int| 1 <= n < new.len() implies #[trigger] is_child(ch2, n) by {
        if n == r {
            assert(ch2[j + 1] == r);
        } else {
            assert(is_child(ch, n));
            let i = choose|i: int| 0 <= i < ch.len() && ch[i] == n;
            assert(ch2[i] == n);
        }
    }
    assert forall|i: int| 0 <= i < ch2.len() implies 1 <= #[trigger] ch2[i] < new.len() by {
        if i < j + 1 {
            assert(ch2[i] == ch[i]);
        }
    }
}

/// In an ordered tree with an internal root, each child's largest key is
/// the root's key for it, and the right child's largest key exceeds the
/// root's last key.
pub proof fn lemma_separator_keys(pages: Seq<Seq<u8>>)
    requires
        tree_wf(pages),
        tree_ordered(pages),
        !is_leaf(pages[0]),
    ensures
        ({
            let keys = internal_keys(pages[0]);
            let ch = internal_children(pages[0]);
            &&& ch.len() == keys.len() + 1
            &&& forall|i: int| 0 <= i < keys.len() ==> node_max_key(pages[#[trigger] ch[i] as int]) == keys[i]
            &&& keys.len() > 0 ==> node_max_key(pages[ch[keys.len() as int] as int]) > keys.last()
        }),
{
    let keys = internal_keys(pages[0]);
    let ch = internal_children(pages[0]);
    let nk = keys.len() as int;
    assert forall|i: int| 0 <= i < keys.len() implies node_max_key(pages[#[trigger] ch[i] as int]) == keys[i] by {
        assert(child_ok(pages, keys, ch, i));
    }
    if nk > 0 {
        assert(child_ok(pages, keys, ch, nk));
        let s = pages[ch[nk] as int];
        let lk = leaf_keys(s);
        assert(node_wf(s, pages.len()));
        assert(lk.len() > 0);
        assert(keys[nk - 1] < lk[lk.len() - 1]);
    }
}

/// In an ordered tree every page but the root has the root as its
/// parent, and the root is an internal node that lists it as a child.
pub proof fn lemma_parent_links(pages: Seq<Seq<u8>>)
    requires
        tree_wf(pages),
        tree_ordered(pages),
    ensures
        forall|n: int|
            1 <= n < pages.len() ==> {
                &&& parent_of(#[trigger] pages[n]) == 0
                &&& is_internal(pages[0])
                &&& internal_children(pages[0]).contains(n as u64)
            },
{
    assert forall|n: int| 1 <= n < pages.len() implies {
        &&& parent_of(#[trigger] pages[n]) == 0
        &&& is_internal(pages[0])
        &&& internal_children(pages[0]).contains(n as u64)
    } by {
        let keys = internal_keys(pages[0]);
        let ch = internal_children(pages[0]);
        assert(is_child(ch, n));
        let i = choose|i: int| 0 <= i < ch.len() && ch[i] == n;
        assert(child_ok(pages, keys, ch, i));
        assert(node_wf(pages[0], pages.len()));
    }
}

/// In an ordered tree, a search for a key that a leaf holds reaches that
/// leaf and the key's cell.
pub proof fn lemma_find_present(pages: Seq<Seq<u8>>, key: u32, q: int, k: int)
    requires
        tree_wf(pages),
        tree_ordered(pages),
        0 <= q < pages.len(),
        is_leaf(pages[q]),
        0 <= k < leaf_keys(pages[q]).len(),
        leaf_keys(pages[q])[k] == key,
    ensures
        find_spec(pages, key) == Some((q as nat, k as nat)),
{
    lemma_find_in_ordered(pages, key);
    let lk = leaf_keys(pages[q]);
    assert(node_wf(pages[q], pages.len()));
    assert forall|m: int| 0 <= m < k implies lk[m] < key by {
        assert(lk[m] < lk[k]);
    }
    crate::node::lemma_lower_bound(lk, key, k);
    if !is_leaf(pages[0]) {
        let keys = internal_keys(pages[0]);
        let ch = internal_children(pages[0]);
        assert(node_wf(pages[0], pages.len()));
        assert(q != 0);
        assert(is_child(ch, q));
        let i = choose|i: int| 0 <= i < ch.len() && ch[i] == q;
        assert(child_ok(pages, keys, ch, i));
        assert forall|m: int| 0 <= m < i implies keys[m] < key by {
            assert(keys[i - 1] < lk[k]);
            if m < i - 1 {
                assert(keys[m] < keys[i - 1]);
            }
        }
        if i < keys.len() {
            lemma_at_most_last(lk, k);
        }
        crate::node::lemma_lower_bound(keys, key, i);
    }
}

/// After `key` goes into an ordered tree, a search for `key` finds it: a
/// second insert of the same key meets it.
pub proof fn lemma_inserted_key_found(old: Seq<Seq<u8>>, new: Seq<Seq<u8>>, key: u32, cell: Seq<u8>)
    requires
        tree_wf(old),
        tree_ordered(old),
        tree_wf(new),
        insert_step(old, new, key, cell),
    ensures
        tree_ordered(new),
        find_spec(new, key) matches Some((p, c)) && c < leaf_keys(new[p as int]).len()
            && leaf_keys(new[p as int])[c as int] == key,
{
    lemma_insert_keeps_order(old, new, key, cell);
    let p = found_leaf(old, key) as int;
    let c = found_cell(old, key) as int;
    crate::btree::lemma_descend_leaf(old, 0, key, TABLE_MAX_PAGES as nat);
    assert(node_wf(old[p], old.len()));
    lemma_lower_bound_props(leaf_keys(old[p]), key);
    crate::btree::lemma_insert_stores_cell(old, new, p, c, cell);
    let q = choose|q: int| 0 <= q < new.len() && is_leaf(new[q]) && leaf_cells(new[q]).contains(cell);
    let k = choose|k: int| 0 <= k < leaf_cells(new[q]).len() && leaf_cells(new[q])[k] == cell;
    assert(leaf_keys(new[q])[k] == key);
    lemma_find_present(new, key, q, k);
}

/// The cells of the root's children from child `i` on, child by child.
pub open spec fn children_cells(pages: Seq<Seq<u8>>, ch: Seq<u64>, i: int) -> Seq<Seq<u8>>
    decreases ch.len() - i,
{
    if i < 0 || i >= ch.len() {
        Seq::empty()
    } else {
        leaf_cells(pages[ch[i] as int]) + children_cells(pages, ch, i + 1)
    }
}

proof fn lemma_chain_is_children(pages: Seq<Seq<u8>>, i: int, fuel: nat)
    requires
        tree_wf(pages),
        tree_ordered(pages),
        !is_leaf(pages[0]),
        0 <= i < internal_children(pages[0]).len(),
        fuel >= internal_children(pages[0]).len() - i,
    ensures
        chain_cells(pages, internal_children(pages[0])[i] as nat, fuel) == children_cells(
            pages,
            internal_children(pages[0]),
            i,
        ),
    decreases internal_children(pages[0]).len() - i,
{
    let keys = internal_keys(pages[0]);
    let ch = internal_children(pages[0]);
    assert(child_ok(pages, keys, ch, i));
    if i + 1 < ch.len() {
        lemma_chain_is_children(pages, i + 1, (fuel - 1) as nat);
        assert(1 <= ch[i + 1]);
    } else {
        assert(children_cells(pages, ch, i + 1) =~= Seq::<Seq<u8>>::empty());
        assert(leaf_cells(pages[ch[i] as int]) + Seq::<Seq<u8>>::empty() =~= leaf_cells(pages[ch[i] as int]));
    }
}

proof fn lemma_children_ascending(pages: Seq<Seq<u8>>, i: int)
    requires
        tree_wf(pages),
        tree_ordered(pages),
        !is_leaf(pages[0]),
        0 <= i <= internal_children(pages[0]).len(),
    ensures
        ({
            let keys = internal_keys(pages[0]);
            let ks = cells_keys(children_cells(pages, internal_children(pages[0]), i));
            &&& strictly_ascending(ks)
            &&& i > 0 ==> forall|k: int| 0 <= k < ks.len() ==> keys[i - 1] < #[trigger] ks[k]
        }),
    decreases internal_children(pages[0]).len() - i,
{
    let keys = internal_keys(pages[0]);
    let ch = internal_children(pages[0]);
    assert(node_wf(pages[0], pages.len()));
    if i < ch.len() {
        lemma_children_ascending(pages, i + 1);
        assert(child_ok(pages, keys, ch, i));
        let s = pages[ch[i] as int];
        assert(node_wf(s, pages.len()));
        let a = leaf_keys(s);
        let b = cells_keys(children_cells(pages, ch, i + 1));
        let ks = cells_keys(children_cells(pages, ch, i));
        assert(ks =~= a + b);
        assert forall|x: int, y: int| 0 <= x < y < ks.len() implies ks[x] < ks[y] by {
            if y < a.len() {
                assert(a[x] < a[y]);
            } else if x >= a.len() {
                assert(b[x - a.len()] < b[y - a.len()]);
            } else {
                lemma_at_most_last(a, x);
                assert(b[y - a.len()] > keys[i]);
            }
        }
        if i > 0 {
            assert forall|k: int| 0 <= k < ks.len() implies keys[i - 1] < #[trigger] ks[k] by {
                if k >= a.len() {
                    assert(keys[i - 1] < keys[i]);
                    assert(b[k - a.len()] > keys[i]);
                } else {
                    assert(a[k] == ks[k]);
                }
            }
        }
    } else {
        assert(cells_keys(children_cells(pages, ch, i)) =~= Seq::<u32>::empty());
    }
}

proof fn lemma_children_contain(pages: Seq<Seq<u8>>, ch: Seq<u64>, i: int, m: int, x: Seq<u8>)
    requires
        0 <= i <= m < ch.len(),
        leaf_cells(pages[ch[m] as int]).contains(x),
    ensures
        children_cells(pages, ch, i).contains(x),
    decreases m - i,
{
    let here = leaf_cells(pages[ch[i] as int]);
    let rest = children_cells(pages, ch, i + 1);
    if i == m {
        let k = choose|k: int| 0 <= k < here.len() && here[k] == x;
        assert((here + rest)[k] == x);
    } else {
        lemma_children_contain(pages, ch, i + 1, m, x);
        let k = choose|k: int| 0 <= k < rest.len() && rest[k] == x;
        assert((here + rest)[here.len() + k] == x);
    }
}

/// In an ordered tree, a scan visits every cell of every leaf, with keys
/// strictly ascending, so each key exactly once.
pub proof fn lemma_scan_order(pages: Seq<Seq<u8>>)
    requires
        tree_wf(pages),
        tree_ordered(pages),
    ensures
        strictly_ascending(cells_keys(table_cells(pages))),
        forall|n: int, x: Seq<u8>|
            0 <= n < pages.len() && is_leaf(pages[n]) && #[trigger] leaf_cells(pages[n]).contains(x)
                ==> table_cells(pages).contains(x),
{
    lemma_layout_values();
    assert(node_wf(pages[0], pages.len()));
    if is_leaf(pages[0]) {
        assert(leftmost_leaf(pages, 0, TABLE_MAX_PAGES as nat) == Some(0nat));
        assert(table_cells(pages) == leaf_cells(pages[0]));
    } else {
        let keys = internal_keys(pages[0]);
        let ch = internal_children(pages[0]);
        assert(child_ok(pages, keys, ch, 0));
        assert(internal_child(pages[0], 0) == ch[0]);
        assert(leftmost_leaf(pages, ch[0] as nat, (TABLE_MAX_PAGES - 1) as nat) == Some(ch[0] as nat));
        assert(leftmost_leaf(pages, 0, TABLE_MAX_PAGES as nat) == Some(ch[0] as nat));
        lemma_chain_is_children(pages, 0, TABLE_MAX_PAGES as nat);
        assert(table_cells(pages) == children_cells(pages, ch, 0));
        lemma_children_ascending(pages, 0);
        assert forall|n: int, x: Seq<u8>|
            0 <= n < pages.len() && is_leaf(pages[n]) && #[trigger] leaf_cells(pages[n]).contains(x)
                implies table_cells(pages).contains(x) by {
            assert(n != 0);
            assert(is_child(ch, n));
            let m = choose|m: int| 0 <= m < ch.len() && ch[m] == n;
            lemma_children_contain(pages, ch, 0, m, x);
        }
    }
}

/// After a row goes into an ordered tree, a scan yields it.
pub proof fn lemma_insert_then_scan(old: Seq<Seq<u8>>, new: Seq<Seq<u8>>, row: RowValue)
    requires
        tree_wf(old),
        tree_ordered(old),
        tree_wf(new),
        row_fits(row),
        insert_step(old, new, row.0, spec_u32_to_le_bytes(row.0) + row_image(row)),
    ensures
        table_rows(new).contains(row),
{
    lemma_layout_values();
    let cell = spec_u32_to_le_bytes(row.0) + row_image(row);
    lemma_inserted_key_found(old, new, row.0, cell);
    let p = found_leaf(old, row.0) as int;
    let c = found_cell(old, row.0) as int;
    crate::btree::lemma_descend_leaf(old, 0, row.0, TABLE_MAX_PAGES as nat);
    assert(node_wf(old[p], old.len()));
    lemma_lower_bound_props(leaf_keys(old[p]), row.0);
    crate::btree::lemma_insert_stores_cell(old, new, p, c, cell);
    let q = choose|q: int| 0 <= q < new.len() && is_leaf(new[q]) && leaf_cells(new[q]).contains(cell);
    lemma_scan_order(new);
    assert(table_cells(new).contains(cell));
    let i = choose|i: int| 0 <= i < table_cells(new).len() && table_cells(new)[i] == cell;
    lemma_auto_spec_u32_to_from_le_bytes();
    assert(cell_value(cell) =~= row_image(row));
    crate::row::lemma_row_image_round_trip(row);
    assert(table_rows(new)[i] == row);
}

/// In an ordered tree, splitting the full non-root leaf that a search for
/// `key` reaches meets the conditions that the parent update checks: the
/// parent is the internal root, the updated key stays between its
/// neighbours, the right child is a non-empty leaf, and the new child's
/// key finds a free place.
pub proof fn lemma_split_checks_pass(pages: Seq<Seq<u8>>, key: u32, cell: Seq<u8>)
    requires
        tree_wf(pages),
        tree_ordered(pages),
        cell_key(cell) == key,
        find_spec(pages, key) matches Some((p, c)) && {
            &&& !is_root(pages[p as int])
            &&& leaf_num_cells(pages[p as int]) >= LEAF_NODE_MAX_CELLS
            &&& (c == leaf_keys(pages[p as int]).len() || leaf_keys(pages[p as int])[c as int] != key)
        },
    ensures
        ({
            let p = found_leaf(pages, key) as int;
            let c = found_cell(pages, key) as int;
            let all = leaf_cells(pages[p]).insert(c, cell);
            let keys = internal_keys(pages[0]);
            let ch = internal_children(pages[0]);
            let nk = keys.len() as int;
            let old_max = node_max_key(pages[p]);
            let new_max = cell_key(all[6]);
            let child_max = cell_key(all[13]);
            let i = lower_bound(keys, old_max) as int;
            let rc = internal_right_child(pages[0]);
            let right_max = if rc == p as u64 {
                new_max
            } else {
                node_max_key(pages[rc as int])
            };
            let k1 = keys_after_update(keys, old_max, new_max);
            &&& parent_of(pages[p]) == 0
            &&& !is_leaf(pages[0])
            &&& i < nk ==> (i == 0 || keys[i - 1] < new_max) && (i + 1 >= nk || new_max < keys[i + 1])
            &&& rc != p as u64 ==> is_leaf(pages[rc as int]) && leaf_num_cells(pages[rc as int]) > 0
            &&& child_max > right_max ==> (nk == 0 || k1[nk - 1] < right_max)
            &&& !(child_max > right_max) ==> (lower_bound(k1, child_max) >= nk || k1[lower_bound(
                k1,
                child_max,
            ) as int] != child_max)
        }),
{
    lemma_layout_values();
    lemma_find_in_ordered(pages, key);
    let p = found_leaf(pages, key) as int;
    let c = found_cell(pages, key) as int;
    assert(node_wf(pages[0], pages.len()));
    crate::btree::lemma_descend_leaf(pages, 0, key, TABLE_MAX_PAGES as nat);
    assert(node_wf(pages[p], pages.len()));
    assert(p != 0);
    assert(!is_leaf(pages[0]));
    let keys = internal_keys(pages[0]);
    let ch = internal_children(pages[0]);
    let nk = keys.len() as int;
    let j = lower_bound(keys, key) as int;
    lemma_lower_bound_props(keys, key);
    assert(ch[j] == p);
    assert(child_ok(pages, keys, ch, j));
    lemma_inserted_keys(pages[p], pages.len(), key, cell);
    let lk = leaf_keys(pages[p]);
    lemma_lower_bound_props(lk, key);
    let all = leaf_cells(pages[p]).insert(c, cell);
    let ak = cells_keys(all);
    assert(all.len() == 14);
    let old_max = node_max_key(pages[p]);
    let new_max = ak[6];
    let child_max = ak[13];
    assert(old_max == lk.last());
    assert forall|k: int| 0 <= k < 14 && j > 0 implies keys[j - 1] < #[trigger] ak[k] by {
        if k < c {
            assert(ak[k] == lk[k]);
        } else if k > c {
            assert(ak[k] == lk[k - 1]);
        }
    }
    assert(new_max < child_max);
    let rc = internal_right_child(pages[0]);
    assert(ch[nk] == rc);
    if j < nk {
        assert(old_max == keys[j]);
        assert forall|m: int| 0 <= m < j implies keys[m] < old_max by {
            assert(keys[m] < keys[j]);
        }
        crate::node::lemma_lower_bound(keys, old_max, j);
        if c == lk.len() {
            lemma_at_most_last(lk, lk.len() - 1);
        }
        assert(child_max == old_max) by {
            assert(c < 13);
            assert(ak[13] == lk[12]);
        }
        assert(new_max < old_max);
        if j + 1 < nk {
            assert(keys[j] < keys[j + 1]);
        }
        lemma_children_distinct(pages, j, nk);
        assert(child_ok(pages, keys, ch, nk));
        assert(node_wf(pages[rc as int], pages.len()));
        let rk = leaf_keys(pages[rc as int]);
        lemma_at_most_last(rk, 0);
        assert(keys[nk - 1] < rk[0]);
        if j < nk - 1 {
            assert(keys[j] < keys[nk - 1]);
        }
        let k1 = keys.update(j, new_max);
        assert forall|m: int| 0 <= m < j + 1 implies k1[m] < child_max by {
            if m < j {
                assert(keys[m] < keys[j]);
            }
        }
        crate::node::lemma_lower_bound(k1, child_max, j + 1);
        if j + 1 < nk {
            assert(k1[j + 1] == keys[j + 1]);
        }
    } else {
        assert forall|m: int| 0 <= m < nk implies keys[m] < old_max by {
            lemma_at_most_last(lk, 0);
            if m < nk - 1 {
                assert(keys[m] < keys[nk - 1]);
            }
            assert(keys[nk - 1] < lk[0]);
        }
        crate::node::lemma_lower_bound(keys, old_max, nk);
        if nk > 0 {
            assert(keys[nk - 1] < ak[6]);
        }
    }
}

} // verus!
