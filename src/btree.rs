//! The table: a B+tree of rows keyed by id, rooted at page 0, over the
//! page cache.
use vstd::prelude::*;
use vstd::bytes::{spec_u32_to_le_bytes, u32_to_le_bytes, lemma_auto_spec_u32_to_from_le_bytes};
use crate::layout::{
    PAGE_SIZE, TABLE_MAX_PAGES, LEAF_NODE_MAX_CELLS, LEAF_NODE_CELL_SIZE, LEAF_NODE_KEY_SIZE,
    INTERNAL_NODE_MAX_CELLS, LEAF_NODE_LEFT_SPLIT_COUNT, LEAF_NODE_RIGHT_SPLIT_COUNT, lemma_layout_values,
};
use crate::page::{
    Page, is_leaf, is_internal, is_root, parent_of, leaf_num_cells, leaf_next, leaf_cells, leaf_keys,
    cells_keys, cell_key, internal_num_keys, internal_keys, internal_children, internal_child,
    internal_right_child,
    strictly_ascending, internal_slot, internal_key, internal_cell_child, node_max_key, cell_value,
};
use crate::node::{
    lower_bound, node_wf, internal_wf, cells_view, leaf_node_find, internal_node_find_child,
    read_leaf_cells, write_leaf_cells, node_is_wf, lemma_insert_keeps_ascending,
    lemma_cells_keys_insert, lemma_cells_keys_subrange, internal_node_insert_cell,
    internal_node_append_cell,
};
use crate::pager::{Pager, OpenError, image_pages};
use crate::order::{
    insert_step, tree_ordered, child_ok, is_child, lemma_cell_image_key, lemma_insert_keeps_order,
    lemma_split_checks_pass,
};
use crate::row::{Row, RowValue, row_fits, row_image, serialize_row, decode_row_image, image_is_text};

verus! {

/// The outcome of a statement run against the table.
#[allow(non_camel_case_types)]
#[derive(PartialEq, Eq, Structural, Clone, Copy, Debug)]
pub enum ExecuteResult {
    EXECUTE_SUCCESS,
    EXECUTE_FAIL,
    EXECUTE_TABLE_FULL,
    EXECUTE_DUPLICATE_KEY,
}

/// A well-formed file: between one and `TABLE_MAX_PAGES` pages, each a
/// well-formed node, page 0 the only root.
pub open spec fn tree_wf(pages: Seq<Seq<u8>>) -> bool {
    &&& 1 <= pages.len() <= TABLE_MAX_PAGES
    &&& forall|n: int| 0 <= n < pages.len() ==> #[trigger] node_wf(pages[n], pages.len())
    &&& is_root(pages[0])
    &&& forall|n: int| 1 <= n < pages.len() ==> !is_root(#[trigger] pages[n])
}

/// The leaf that a search for `key` reaches from page `n` within `fuel`
/// levels, following at each internal node the child at the key's
/// `lower_bound`.
pub open spec fn descend(pages: Seq<Seq<u8>>, n: nat, key: u32, fuel: nat) -> Option<nat>
    decreases fuel,
{
    if fuel == 0 || n >= pages.len() {
        None
    } else if is_leaf(pages[n as int]) {
        Some(n)
    } else {
        descend(
            pages,
            internal_child(pages[n as int], lower_bound(internal_keys(pages[n as int]), key) as int)
                as nat,
            key,
            (fuel - 1) as nat,
        )
    }
}

/// Where `key` is or would go: a leaf page and a cell index within it.
pub open spec fn find_spec(pages: Seq<Seq<u8>>, key: u32) -> Option<(nat, nat)> {
    match descend(pages, 0, key, TABLE_MAX_PAGES as nat) {
        Some(p) => Some((p, lower_bound(leaf_keys(pages[p as int]), key))),
        None => None,
    }
}

/// Two pages with one cell count and the same slots have the same cells.
pub proof fn lemma_same_leaf_cells(a: Seq<u8>, b: Seq<u8>)
    requires
        leaf_num_cells(a) == leaf_num_cells(b),
        leaf_num_cells(a) <= LEAF_NODE_MAX_CELLS,
        crate::page::same_leaf_slots(a, b),
    ensures
        leaf_cells(a) == leaf_cells(b),
{
    assert(leaf_cells(a) =~= leaf_cells(b));
}

/// A search ends at a leaf of the file.
pub proof fn lemma_descend_leaf(pages: Seq<Seq<u8>>, n: nat, key: u32, fuel: nat)
    ensures
        descend(pages, n, key, fuel) matches Some(p) ==> p < pages.len() && is_leaf(
            pages[p as int],
        ),
    decreases fuel,
{
    if fuel > 0 && n < pages.len() && !is_leaf(pages[n as int]) {
        lemma_descend_leaf(
            pages,
            internal_child(pages[n as int], lower_bound(internal_keys(pages[n as int]), key) as int)
                as nat,
            key,
            (fuel - 1) as nat,
        );
    }
}

/// The on-disk image of a leaf cell holding `row` under `key`.
pub open spec fn cell_image(key: u32, row: crate::row::RowValue) -> Seq<u8> {
    spec_u32_to_le_bytes(key) + row_image(row)
}

pub proof fn lemma_node_wf_grow(s: Seq<u8>, np: nat, np2: nat)
    requires
        node_wf(s, np),
        np <= np2,
    ensures
        node_wf(s, np2),
{
    if internal_wf(s, np) {
        assert forall|i: int| 0 <= i < internal_children(s).len() implies #[trigger] internal_children(
            s,
        )[i] < np2 by {
            assert(internal_children(s)[i] < np);
        }
    }
}

pub proof fn lemma_lower_bound_props(keys: Seq<u32>, key: u32)
    ensures
        lower_bound(keys, key) <= keys.len(),
        forall|j: int| 0 <= j < lower_bound(keys, key) ==> keys[j] < key,
        lower_bound(keys, key) < keys.len() ==> keys[lower_bound(keys, key) as int] >= key,
    decreases keys.len(),
{
    if keys.len() > 0 && keys[0] < key {
        let t = keys.drop_first();
        lemma_lower_bound_props(t, key);
        assert forall|j: int| 0 <= j < lower_bound(keys, key) implies keys[j] < key by {
            if j > 0 {
                assert(keys[j] == t[j - 1]);
            }
        }
    }
}

/// The bytes of a leaf cell holding `row` under `key`.
pub fn leaf_cell_image(key: u32, row: &Row) -> (r: Vec<u8>)
    requires
        row@.1.len() <= crate::layout::USERNAME_SIZE,
        row@.2.len() <= crate::layout::EMAIL_SIZE,
    ensures
        r@ == cell_image(key, row@),
        r@.len() == LEAF_NODE_CELL_SIZE,
        cell_key(r@) == key,
{
    proof {
        lemma_layout_values();
        lemma_auto_spec_u32_to_from_le_bytes();
    }
    let mut out = u32_to_le_bytes(key);
    let mut body = serialize_row(row);
    out.append(&mut body);
    assert(out@.subrange(0, 4) =~= spec_u32_to_le_bytes(key));
    out
}

/// The table: the page cache and the root's page number.
pub struct Table {
    root_page_num: usize,
    pager: Pager,
    internal_max_cells: usize,
}

impl Table {
    /// The content of every page of the file.
    pub closed spec fn view(&self) -> Seq<Seq<u8>> {
        self.pager.view()
    }

    /// Whether page `n` is loaded in the cache.
    pub closed spec fn is_resident(&self, n: int) -> bool {
        self.pager.is_resident(n)
    }

    /// How many keys an internal node may hold before it counts as full.
    pub closed spec fn internal_capacity(&self) -> nat {
        self.internal_max_cells as nat
    }

    pub closed spec fn wf(&self) -> bool {
        &&& self.pager.wf()
        &&& self.root_page_num == 0
        &&& tree_wf(self.pager.view())
        &&& 1 <= self.internal_max_cells <= INTERNAL_NODE_MAX_CELLS
    }

    /// A well-formed table's pages form a well-formed file of whole pages.
    pub proof fn lemma_wf_tree(&self)
        requires
            self.wf(),
        ensures
            tree_wf(self.view()),
            forall|n: int| 0 <= n < self.view().len() ==> (#[trigger] self.view()[n]).len() == PAGE_SIZE,
            self.view().len() <= TABLE_MAX_PAGES,
    {
        self.pager.lemma_view_pages();
    }

    /// Page `page_num`, if it is loaded in the cache.
    pub fn get_page_view(&self, page_num: usize) -> (r: Option<&Page>)
        requires
            self.wf(),
            page_num < TABLE_MAX_PAGES,
        ensures
            r is Some == self.is_resident(page_num as int),
            r matches Some(p) ==> p@ == self.view()[page_num as int] && p.wf(),
    {
        self.pager.get_page_view(page_num)
    }

    /// Opens the image of a database file, with the internal-node capacity
    /// that the page size allows.
    pub fn open(file: Vec<u8>) -> (r: Result<Table, OpenError>)
        ensures
            r is Ok == (file@.len() % (PAGE_SIZE as nat) == 0 && file@.len() / (PAGE_SIZE as nat)
                <= TABLE_MAX_PAGES && (file@.len() == 0 || (tree_wf(image_pages(file@))
                && tree_ordered(image_pages(file@))))),
            r matches Ok(t) ==> tree_ordered(t.view()),
            r matches Ok(t) ==> t.wf() && t.internal_capacity() == INTERNAL_NODE_MAX_CELLS,
            r matches Ok(t) ==> file@.len() > 0 ==> t.view() == image_pages(file@),
            r matches Ok(t) ==> file@.len() == 0 ==> t.view().len() == 1 && leaf_cells(t.view()[0])
                == Seq::<Seq<u8>>::empty() && tree_ordered(t.view()),
            (r == Err::<Table, OpenError>(OpenError::CorruptFile)) == (file@.len() % (
            PAGE_SIZE as nat) != 0),
    {
        proof {
            lemma_layout_values();
        }
        Self::open_with_capacity(file, INTERNAL_NODE_MAX_CELLS)
    }

    /// Opens the image of a database file; an internal node counts as full
    /// once it holds `internal_max_cells` keys.
    pub fn open_with_capacity(file: Vec<u8>, internal_max_cells: usize) -> (r: Result<
        Table,
        OpenError,
    >)
        requires
            1 <= internal_max_cells <= INTERNAL_NODE_MAX_CELLS,
        ensures
            r is Ok == (file@.len() % (PAGE_SIZE as nat) == 0 && file@.len() / (PAGE_SIZE as nat)
                <= TABLE_MAX_PAGES && (file@.len() == 0 || (tree_wf(image_pages(file@))
                && tree_ordered(image_pages(file@))))),
            r matches Ok(t) ==> tree_ordered(t.view()),
            r matches Ok(t) ==> t.wf() && t.internal_capacity() == internal_max_cells,
            r matches Ok(t) ==> file@.len() > 0 ==> t.view() == image_pages(file@),
            r matches Ok(t) ==> file@.len() == 0 ==> t.view().len() == 1 && leaf_cells(t.view()[0])
                == Seq::<Seq<u8>>::empty() && tree_ordered(t.view()),
            (r == Err::<Table, OpenError>(OpenError::CorruptFile)) == (file@.len() % (
            PAGE_SIZE as nat) != 0),
    {
        let ghost image = file@;
        let mut pager = match Pager::new(file) {
            Ok(p) => p,
            Err(e) => {
                return Err(e);
            },
        };
        proof {
            pager.lemma_view_pages();
        }
        let num_pages = pager.num_pages();
        if num_pages > TABLE_MAX_PAGES {
            return Err(OpenError::TooManyPages);
        }
        if num_pages == 0 {
            let root_page_num = pager.allocate_page();
            let mut root = pager.read_page(root_page_num);
            root.initialize_leaf_node();
            root.set_node_root(true);
            root.set_parent(0);
            pager.write_page(root_page_num, root);
            let t = Table { root_page_num: 0, pager, internal_max_cells };
            proof {
                let v = t.view();
                assert(leaf_keys(v[0]) =~= Seq::<u32>::empty());
                assert(node_wf(v[0], 1));
                assert(leaf_cells(v[0]) =~= Seq::<Seq<u8>>::empty());
            }
            return Ok(t);
        }
        let mut n: usize = 0;
        while n < num_pages
            invariant
                pager.wf(),
                num_pages == pager.view().len(),
                pager.view() == image_pages(image),
                image.len() % (PAGE_SIZE as nat) == 0,
                image.len() > 0,
                image == file@,
                1 <= num_pages <= TABLE_MAX_PAGES,
                n <= num_pages,
                forall|k: int| 0 <= k < n ==> #[trigger] node_wf(pager.view()[k], num_pages as nat),
                n > 0 ==> is_root(pager.view()[0]),
                forall|k: int| 1 <= k < n ==> !is_root(#[trigger] pager.view()[k]),
            decreases num_pages - n,
        {
            let page = pager.read_page(n);
            if !node_is_wf(&page, num_pages as u64) {
                assert(!tree_wf(image_pages(image))) by {
                    let pages = image_pages(image);
                    assert(pages.len() == num_pages);
                    assert(!node_wf(pages[n as int], pages.len()));
                }
                return Err(OpenError::CorruptNode);
            }
            if page.is_node_root() != (n == 0) {
                assert(!tree_wf(image_pages(image))) by {
                    if n > 0 {
                        assert(is_root(image_pages(image)[n as int]));
                    }
                }
                return Err(OpenError::CorruptNode);
            }
            n = n + 1;
        }
        let mut t = Table { root_page_num: 0, pager, internal_max_cells };
        if !t.tree_is_ordered() {
            return Err(OpenError::CorruptNode);
        }
        Ok(t)
    }
    /// The leaf page and cell index where `key` is, or where it would be
    /// inserted; `None` if the search does not reach a leaf within
    /// `TABLE_MAX_PAGES` levels.
    pub fn find(&mut self, key: u32) -> (r: Option<(usize, usize)>)
        requires
            old(self).wf(),
        ensures
            final(self).wf(),
            final(self).view() == old(self).view(),
            final(self).internal_capacity() == old(self).internal_capacity(),
            r is None == find_spec(old(self).view(), key) is None,
            r matches Some((p, c)) ==> find_spec(old(self).view(), key) == Some((p as nat, c as nat)),
    {
        let ghost pages = self.view();
        let mut page_num: usize = self.root_page_num;
        let mut fuel: usize = TABLE_MAX_PAGES;
        while fuel > 0
            invariant
                self.wf(),
                self.view() == pages,
                self.internal_capacity() == old(self).internal_capacity(),
                old(self).view() == pages,
                page_num < pages.len(),
                fuel <= TABLE_MAX_PAGES,
                descend(pages, 0, key, TABLE_MAX_PAGES as nat) == descend(
                    pages,
                    page_num as nat,
                    key,
                    fuel as nat,
                ),
            decreases fuel,
        {
            let page = self.pager.read_page(page_num);
            assert(node_wf(pages[page_num as int], pages.len()));
            if page.is_leaf_node() {
                let c = leaf_node_find(&page, key);
                return Some((page_num, c));
            }
            let idx = internal_node_find_child(&page, key);
            let child = page.get_internal_node_child(idx);
            assert(internal_children(page@)[idx as int] == child);
            page_num = child as usize;
            fuel = fuel - 1;
        }
        None
    }
}

/// Inserting at a key's `lower_bound` position into strictly ascending keys
/// that lack the key keeps them strictly ascending.
pub proof fn lemma_insert_at_lower_bound(keys: Seq<u32>, key: u32)
    requires
        strictly_ascending(keys),
        lower_bound(keys, key) == keys.len() || keys[lower_bound(keys, key) as int] != key,
    ensures
        strictly_ascending(keys.insert(lower_bound(keys, key) as int, key)),
{
    lemma_lower_bound_props(keys, key);
    let c = lower_bound(keys, key) as int;
    assert forall|j: int| c <= j < keys.len() implies keys[j] > key by {
        if j > c {
            assert(keys[c] < keys[j]);
        }
    }
    lemma_insert_keeps_ascending(keys, c, key);
}

pub proof fn lemma_ascending_subrange(keys: Seq<u32>, lo: int, hi: int)
    requires
        strictly_ascending(keys),
        0 <= lo <= hi <= keys.len(),
    ensures
        strictly_ascending(keys.subrange(lo, hi)),
{
    assert forall|i: int, j: int| 0 <= i < j < hi - lo implies keys.subrange(lo, hi)[i]
        < keys.subrange(lo, hi)[j] by {
        assert(keys[lo + i] < keys[lo + j]);
    }
}

/// The file after `cell` went into leaf `p` at index `c`, with room to spare.
pub open spec fn leaf_insert_outcome(
    old: Seq<Seq<u8>>,
    new: Seq<Seq<u8>>,
    p: int,
    c: int,
    cell: Seq<u8>,
) -> bool {
    &&& new.len() == old.len()
    &&& forall|q: int| 0 <= q < old.len() && q != p ==> new[q] == old[q]
    &&& is_leaf(new[p])
    &&& leaf_cells(new[p]) == leaf_cells(old[p]).insert(c, cell)
    &&& leaf_next(new[p]) == leaf_next(old[p])
    &&& parent_of(new[p]) == parent_of(old[p])
    &&& is_root(new[p]) == is_root(old[p])
}

/// The cells of a full leaf `p` with `cell` inserted at index `c`.
pub open spec fn split_cells(old: Seq<Seq<u8>>, p: int, c: int, cell: Seq<u8>) -> Seq<Seq<u8>> {
    leaf_cells(old[p]).insert(c, cell)
}

/// The file after the full leaf `p` split around `cell` inserted at `c`:
/// the lower cells stay on the left, the upper ones go to a new page at the
/// end, which follows the left one in the leaf chain. A root leaf moves its
/// lower half to a second new page and becomes an internal root over both.
pub open spec fn leaf_split_outcome(
    old: Seq<Seq<u8>>,
    new: Seq<Seq<u8>>,
    p: int,
    c: int,
    cell: Seq<u8>,
) -> bool {
    let all = split_cells(old, p, c, cell);
    let right = old.len() as int;
    let left = if is_root(old[p]) {
        old.len() + 1int
    } else {
        p
    };
    &&& new.len() == old.len() + (if is_root(old[p]) {
        2int
    } else {
        1int
    })
    &&& is_leaf(new[left]) && is_leaf(new[right])
    &&& leaf_cells(new[left]) == all.subrange(0, LEAF_NODE_LEFT_SPLIT_COUNT as int)
    &&& leaf_cells(new[right]) == all.subrange(
        LEAF_NODE_LEFT_SPLIT_COUNT as int,
        LEAF_NODE_MAX_CELLS + 1,
    )
    &&& leaf_next(new[left]) == right
    &&& leaf_next(new[right]) == leaf_next(old[p])
    &&& is_root(old[p]) ==> {
        &&& is_internal(new[p])
        &&& is_root(new[p])
        &&& internal_keys(new[p]) == seq![cell_key(all[LEAF_NODE_LEFT_SPLIT_COUNT - 1])]
        &&& internal_children(new[p]) == seq![left as u64, right as u64]
        &&& parent_of(new[left]) == 0
        &&& parent_of(new[right]) == 0
        &&& forall|q: int| 0 <= q < old.len() && q != p ==> new[q] == old[q]
    }
    &&& !is_root(old[p]) ==> {
        let par = parent_of(old[p]) as int;
        let rc = internal_right_child(old[par]);
        let right_max = if rc == p as u64 {
            node_max_key(new[p])
        } else {
            node_max_key(old[rc as int])
        };
        let k1 = keys_after_update(internal_keys(old[par]), node_max_key(old[p]), node_max_key(new[p]));
        &&& parent_of(new[right]) == parent_of(old[p])
        &&& parent_of(new[p]) == parent_of(old[p])
        &&& is_internal(new[par])
        &&& is_root(new[par]) == is_root(old[par])
        &&& parent_of(new[par]) == parent_of(old[par])
        &&& internal_keys(new[par]) == keys_after_insert(k1, node_max_key(new[right]), right_max)
        &&& internal_children(new[par]) == children_after_insert(
            k1,
            internal_children(old[par]),
            right as u64,
            node_max_key(new[right]),
            right_max,
        )
        &&& internal_num_keys(new[parent_of(old[p]) as int]) == internal_num_keys(
            old[parent_of(old[p]) as int],
        ) + 1
        &&& internal_children(new[parent_of(old[p]) as int]).contains(right as u64)
        &&& forall|q: int|
            0 <= q < old.len() && q != p && q != parent_of(old[p]) ==> new[q] == old[q]
    }
}

/// A position in the leaf sequence: a leaf page and a cell within it.
pub struct Cursor {
    pub page_num: usize,
    pub cell_num: usize,
    pub end_of_table: bool,
}

impl Cursor {
    /// Inserts `value` under `key` at this cursor's position, which a search
    /// for `key` returned and which does not hold `key`; a full leaf splits.
    pub fn leaf_node_insert(&self, table: &mut Table, key: u32, value: &Row) -> (r: ExecuteResult)
        requires
            old(table).wf(),
            row_fits(value@),
            find_spec(old(table).view(), key) == Some((self.page_num as nat, self.cell_num as nat)),
            self.cell_num == leaf_keys(old(table).view()[self.page_num as int]).len()
                || leaf_keys(old(table).view()[self.page_num as int])[self.cell_num as int] != key,
        ensures
            final(table).wf(),
            final(table).internal_capacity() == old(table).internal_capacity(),
            r != ExecuteResult::EXECUTE_SUCCESS ==> final(table).view() == old(table).view(),
            r != ExecuteResult::EXECUTE_DUPLICATE_KEY,
            ({
                let leaf = old(table).view()[self.page_num as int];
                let parent = old(table).view()[parent_of(leaf) as int];
                leaf_num_cells(leaf) >= LEAF_NODE_MAX_CELLS && !is_root(leaf) && old(table).view().len() + 1 <= TABLE_MAX_PAGES && !is_leaf(parent)
                    && internal_num_keys(parent) >= old(table).internal_capacity() ==> r
                    == ExecuteResult::EXECUTE_TABLE_FULL
            }),
            tree_ordered(old(table).view()) && r == ExecuteResult::EXECUTE_FAIL ==> old(
                table,
            ).view().len() + (if is_root(old(table).view()[self.page_num as int]) {
                2int
            } else {
                1int
            }) > TABLE_MAX_PAGES,
            leaf_num_cells(old(table).view()[self.page_num as int]) < LEAF_NODE_MAX_CELLS ==> r
                == ExecuteResult::EXECUTE_SUCCESS && leaf_insert_outcome(
                old(table).view(),
                final(table).view(),
                self.page_num as int,
                self.cell_num as int,
                cell_image(key, value@),
            ),
            leaf_num_cells(old(table).view()[self.page_num as int]) >= LEAF_NODE_MAX_CELLS && r
                == ExecuteResult::EXECUTE_SUCCESS ==> leaf_split_outcome(
                old(table).view(),
                final(table).view(),
                self.page_num as int,
                self.cell_num as int,
                cell_image(key, value@),
            ),
            r == ExecuteResult::EXECUTE_TABLE_FULL ==> {
                let leaf = old(table).view()[self.page_num as int];
                &&& leaf_num_cells(leaf) >= LEAF_NODE_MAX_CELLS
                &&& !is_root(leaf)
                &&& internal_num_keys(old(table).view()[parent_of(leaf) as int])
                    >= old(table).internal_capacity()
            },
    {
        let ghost pages = table.view();
        let p = self.page_num;
        let c = self.cell_num;
        proof {
            lemma_descend_leaf(pages, 0, key, TABLE_MAX_PAGES as nat);
            table.pager.lemma_view_pages();
            assert(node_wf(pages[p as int], pages.len()));
            lemma_layout_values();
        }
        let mut page = table.pager.read_page(p);
        if page.is_full() {
            return self.leaf_node_split_and_insert(table, key, value);
        }
        let mut cells = read_leaf_cells(&page);
        let cell = leaf_cell_image(key, value);
        let ghost cell_v = cell@;
        let ghost before = cells@;
        proof {
            lemma_lower_bound_props(leaf_keys(pages[p as int]), key);
        }
        cells.insert(c, cell);
        proof {
            assert(cells_view(cells@) =~= cells_view(before).insert(c as int, cell_v));
            let keys = leaf_keys(pages[p as int]);
            lemma_cells_keys_insert(leaf_cells(pages[p as int]), c as int, cell_v);
            lemma_insert_at_lower_bound(keys, key);
        }
        write_leaf_cells(&mut page, &cells);
        table.pager.write_page(p, page);
        proof {
            let new = table.view();
            assert forall|n: int| 0 <= n < new.len() implies #[trigger] node_wf(new[n], new.len()) by {
                if n != p {
                    assert(node_wf(pages[n], pages.len()));
                }
            }
            assert forall|n: int| 1 <= n < new.len() implies !is_root(#[trigger] new[n]) by {
                assert(!is_root(pages[n]));
            }
        }
        ExecuteResult::EXECUTE_SUCCESS
    }
}

/// A new internal root over `left_child_page_num` (whose largest key is
/// `left_max_key`) and `right_child_page_num`, in place of `old_root`.
pub fn create_new_node(
    old_root: &Page,
    left_child_page_num: u64,
    left_max_key: u32,
    right_child_page_num: u64,
) -> (root: Page)
    requires
        old_root.wf(),
    ensures
        root.wf(),
        is_internal(root@),
        is_root(root@),
        parent_of(root@) == parent_of(old_root@),
        internal_keys(root@) == seq![left_max_key],
        internal_children(root@) == seq![left_child_page_num, right_child_page_num],
{
    proof {
        lemma_layout_values();
    }
    let mut root = old_root.copy();
    root.initialize_internal_node();
    root.set_node_root(true);
    root.set_internal_node_num_keys(1);
    let ghost s0 = root@;
    root.set_internal_node_child(0, left_child_page_num);
    root.set_internal_node_key(0, left_max_key);
    let ghost s1 = root@;
    root.set_internal_node_right_child(right_child_page_num);
    proof {
        lemma_layout_values();
        assert(internal_slot(root@, 0) == internal_slot(s1, 0));
        assert(internal_keys(root@) =~= seq![left_max_key]);
        assert(internal_children(root@) =~= seq![left_child_page_num, right_child_page_num]);
    }
    root
}

/// Internal keys after the key that a search for `old_key` reaches, if
/// any, became `new_key`.
pub open spec fn keys_after_update(keys: Seq<u32>, old_key: u32, new_key: u32) -> Seq<u32> {
    let i = lower_bound(keys, old_key);
    if i < keys.len() {
        keys.update(i as int, new_key)
    } else {
        keys
    }
}

/// Internal keys after adding a child whose largest key is `child_max`,
/// where the right child's largest key is `right_max`.
pub open spec fn keys_after_insert(keys: Seq<u32>, child_max: u32, right_max: u32) -> Seq<u32> {
    if child_max > right_max {
        keys.push(right_max)
    } else {
        keys.insert(lower_bound(keys, child_max) as int, child_max)
    }
}

/// Internal children after adding `child`, as `keys_after_insert` places it.
pub open spec fn children_after_insert(
    keys: Seq<u32>,
    children: Seq<u64>,
    child: u64,
    child_max: u32,
    right_max: u32,
) -> Seq<u64> {
    if child_max > right_max {
        children.push(child)
    } else {
        children.insert(lower_bound(keys, child_max) as int, child)
    }
}

/// The two halves of the full leaf `old_leaf` with `cell` inserted at `c`:
/// the lower half keeps the old header and links to `new_page_num`; the
/// upper half is a fresh leaf under `right_parent` that takes over the old
/// next link.
pub fn split_leaf_pages(
    old_leaf: &Page,
    c: usize,
    cell: Vec<u8>,
    new_page_num: u64,
    right_parent: u64,
) -> (r: (Page, Page))
    requires
        old_leaf.wf(),
        is_leaf(old_leaf@),
        leaf_num_cells(old_leaf@) == LEAF_NODE_MAX_CELLS,
        strictly_ascending(leaf_keys(old_leaf@)),
        c == lower_bound(leaf_keys(old_leaf@), cell_key(cell@)),
        c == LEAF_NODE_MAX_CELLS || leaf_keys(old_leaf@)[c as int] != cell_key(cell@),
        cell@.len() == LEAF_NODE_CELL_SIZE,
    ensures
        ({
            let (left, right) = r;
            let all = leaf_cells(old_leaf@).insert(c as int, cell@);
            &&& left.wf() && right.wf()
            &&& is_leaf(left@) && is_leaf(right@)
            &&& leaf_cells(left@) == all.subrange(0, LEAF_NODE_LEFT_SPLIT_COUNT as int)
            &&& leaf_cells(right@) == all.subrange(
                LEAF_NODE_LEFT_SPLIT_COUNT as int,
                LEAF_NODE_MAX_CELLS + 1,
            )
            &&& leaf_num_cells(left@) == LEAF_NODE_LEFT_SPLIT_COUNT
            &&& leaf_num_cells(right@) == LEAF_NODE_RIGHT_SPLIT_COUNT
            &&& strictly_ascending(leaf_keys(left@))
            &&& strictly_ascending(leaf_keys(right@))
            &&& leaf_next(left@) == new_page_num
            &&& leaf_next(right@) == leaf_next(old_leaf@)
            &&& is_root(left@) == is_root(old_leaf@)
            &&& parent_of(left@) == parent_of(old_leaf@)
            &&& !is_root(right@)
            &&& parent_of(right@) == right_parent
            &&& node_max_key(left@) == cell_key(all[LEAF_NODE_LEFT_SPLIT_COUNT - 1])
            &&& node_max_key(right@) == cell_key(all[LEAF_NODE_MAX_CELLS as int])
        }),
{
    proof {
        lemma_layout_values();
    }
    let ghost key = cell_key(cell@);
    let mut cells = read_leaf_cells(old_leaf);
    let ghost cell_v = cell@;
    let ghost before = cells@;
    proof {
        lemma_lower_bound_props(leaf_keys(old_leaf@), key);
    }
    cells.insert(c, cell);
    let ghost all = cells_view(cells@);
    proof {
        assert(all =~= cells_view(before).insert(c as int, cell_v));
        lemma_cells_keys_insert(leaf_cells(old_leaf@), c as int, cell_v);
        lemma_insert_at_lower_bound(leaf_keys(old_leaf@), key);
    }
    let right_cells = cells.split_off(LEAF_NODE_LEFT_SPLIT_COUNT);
    proof {
        assert(cells_view(cells@) =~= all.subrange(0, 7));
        assert(cells_view(right_cells@) =~= all.subrange(7, 14));
        lemma_cells_keys_subrange(all, 0, 7);
        lemma_cells_keys_subrange(all, 7, 14);
        lemma_ascending_subrange(cells_keys(all), 0, 7);
        lemma_ascending_subrange(cells_keys(all), 7, 14);
    }
    let mut right = Page::new();
    right.initialize_leaf_node();
    right.set_parent(right_parent);
    right.set_leaf_node_next_leaf(old_leaf.leaf_node_next_leaf());
    write_leaf_cells(&mut right, &right_cells);
    let mut left = old_leaf.copy();
    write_leaf_cells(&mut left, &cells);
    let ghost left0 = left@;
    left.set_leaf_node_next_leaf(new_page_num);
    proof {
        lemma_same_leaf_cells(left0, left@);
        assert(leaf_keys(left@) == cells_keys(all.subrange(0, 7)));
        assert(leaf_keys(right@) == cells_keys(all.subrange(7, 14)));
    }
    (left, right)
}

/// Adds the child `child_page_num`, whose largest key is `child_max_key`,
/// to the internal node `parent`, whose right child's largest key is
/// `right_max_key`: past the right child if its key is larger, else at
/// the key's place among the cells. `false`, and no change that counts,
/// where the keys would not stay strictly ascending.
pub fn internal_node_insert(
    parent: &mut Page,
    child_page_num: u64,
    child_max_key: u32,
    right_max_key: u32,
) -> (ok: bool)
    requires
        old(parent).wf(),
        is_internal(old(parent)@),
        internal_num_keys(old(parent)@) < INTERNAL_NODE_MAX_CELLS,
        strictly_ascending(internal_keys(old(parent)@)),
    ensures
        final(parent).wf(),
        ok == ({
            let keys = internal_keys(old(parent)@);
            let lb = lower_bound(keys, child_max_key) as int;
            if child_max_key > right_max_key {
                keys.len() == 0 || keys[keys.len() - 1] < right_max_key
            } else {
                lb >= keys.len() || keys[lb] != child_max_key
            }
        }),
        ok ==> {
            &&& is_internal(final(parent)@)
            &&& internal_num_keys(final(parent)@) == internal_num_keys(old(parent)@) + 1
            &&& strictly_ascending(internal_keys(final(parent)@))
            &&& internal_children(final(parent)@).contains(child_page_num)
            &&& forall|k: int|
                0 <= k < internal_children(final(parent)@).len() ==> #[trigger] internal_children(
                    final(parent)@,
                )[k] == child_page_num || internal_children(old(parent)@).contains(
                    internal_children(final(parent)@)[k],
                )
            &&& is_root(final(parent)@) == is_root(old(parent)@)
            &&& parent_of(final(parent)@) == parent_of(old(parent)@)
            &&& internal_keys(final(parent)@) == keys_after_insert(
                internal_keys(old(parent)@),
                child_max_key,
                right_max_key,
            )
            &&& internal_children(final(parent)@) == children_after_insert(
                internal_keys(old(parent)@),
                internal_children(old(parent)@),
                child_page_num,
                child_max_key,
                right_max_key,
            )
        },
{
    let ghost pk = internal_keys(parent@);
    let ghost pc = internal_children(parent@);
    let nk = parent.get_internal_node_num_keys();
    let rc = parent.get_internal_node_right_child();
    assert(pc[nk as int] == rc);
    if child_max_key > right_max_key {
        if nk > 0 && parent.get_internal_node_key((nk - 1) as usize) >= right_max_key {
            assert(pk[nk - 1] >= right_max_key);
            return false;
        }
        internal_node_append_cell(parent, rc, right_max_key, child_page_num);
        proof {
            assert(internal_children(parent@)[nk + 1] == child_page_num);
            assert forall|a: int, b: int| 0 <= a < b < nk + 1 implies internal_keys(parent@)[a]
                < internal_keys(parent@)[b] by {
                if b == nk && a < nk - 1 {
                    assert(pk[a] < pk[nk - 1]);
                }
            }
            assert forall|k: int| 0 <= k < internal_children(parent@).len() implies #[trigger] internal_children(
                parent@,
            )[k] == child_page_num || pc.contains(internal_children(parent@)[k]) by {
                if k < nk + 1 {
                    assert(pc[k] == internal_children(parent@)[k]);
                }
            }
        }
    } else {
        let idx = internal_node_find_child(parent, child_max_key);
        if (idx as u64) < nk && parent.get_internal_node_key(idx) == child_max_key {
            assert(pk[idx as int] == child_max_key);
            return false;
        }
        internal_node_insert_cell(parent, idx, child_page_num, child_max_key);
        proof {
            lemma_insert_at_lower_bound(pk, child_max_key);
            assert(internal_children(parent@)[idx as int] == child_page_num);
            assert forall|k: int| 0 <= k < internal_children(parent@).len() implies #[trigger] internal_children(
                parent@,
            )[k] == child_page_num || pc.contains(internal_children(parent@)[k]) by {
                if k < idx {
                    assert(pc[k] == internal_children(parent@)[k]);
                } else if k > idx {
                    assert(pc[k - 1] == internal_children(parent@)[k]);
                }
            }
        }
    }
    true
}

/// Overwrites with `new_key` the key of the cell that a search for
/// `old_key` reaches, where there is one; `false`, and no change, where
/// the keys would not stay strictly ascending.
pub fn update_internal_node_key(parent: &mut Page, old_key: u32, new_key: u32) -> (ok: bool)
    requires
        old(parent).wf(),
        is_internal(old(parent)@),
        internal_num_keys(old(parent)@) <= INTERNAL_NODE_MAX_CELLS,
        strictly_ascending(internal_keys(old(parent)@)),
    ensures
        final(parent).wf(),
        !ok ==> final(parent)@ == old(parent)@,
        ok == ({
            let keys = internal_keys(old(parent)@);
            let i = lower_bound(keys, old_key) as int;
            i < keys.len() ==> (i == 0 || keys[i - 1] < new_key) && (i + 1 >= keys.len() || new_key
                < keys[i + 1])
        }),
        ok ==> {
            &&& is_internal(final(parent)@)
            &&& internal_num_keys(final(parent)@) == internal_num_keys(old(parent)@)
            &&& strictly_ascending(internal_keys(final(parent)@))
            &&& internal_children(final(parent)@) == internal_children(old(parent)@)
            &&& is_root(final(parent)@) == is_root(old(parent)@)
            &&& parent_of(final(parent)@) == parent_of(old(parent)@)
            &&& internal_keys(final(parent)@) == keys_after_update(
                internal_keys(old(parent)@),
                old_key,
                new_key,
            )
        },
{
    let ghost pk0 = internal_keys(parent@);
    let ghost pc0 = internal_children(parent@);
    let nk = parent.get_internal_node_num_keys() as usize;
    let i = internal_node_find_child(parent, old_key);
    if i < nk {
        if i > 0 && parent.get_internal_node_key(i - 1) >= new_key {
            assert(pk0[i - 1] >= new_key);
            return false;
        }
        if i + 1 < nk && parent.get_internal_node_key(i + 1) <= new_key {
            assert(pk0[i + 1] <= new_key);
            return false;
        }
        let ghost s0 = parent@;
        parent.set_internal_node_key(i, new_key);
        proof {
            assert forall|m: int| 0 <= m < nk && m != i implies internal_key(parent@, m)
                == internal_key(s0, m) && internal_cell_child(parent@, m) == internal_cell_child(s0, m) by {
                assert(internal_slot(parent@, m) == internal_slot(s0, m));
            }
            assert(internal_keys(parent@) =~= pk0.update(i as int, new_key));
            assert(internal_children(parent@) =~= pc0);
            assert forall|a: int, b: int| 0 <= a < b < nk implies internal_keys(parent@)[a]
                < internal_keys(parent@)[b] by {
                if a == i {
                    assert(pk0[i + 1] <= pk0[b]);
                } else if b == i {
                    assert(pk0[a] <= pk0[i - 1]);
                } else {
                    assert(pk0[a] < pk0[b]);
                }
            }
        }
    }
    true
}

impl Cursor {
    /// Splits the full leaf at this cursor into two halves around the new
    /// cell, then records the new leaf in the parent, or grows a new root.
    fn leaf_node_split_and_insert(&self, table: &mut Table, key: u32, value: &Row) -> (r:
        ExecuteResult)
        requires
            old(table).wf(),
            row_fits(value@),
            find_spec(old(table).view(), key) == Some((self.page_num as nat, self.cell_num as nat)),
            self.cell_num == leaf_keys(old(table).view()[self.page_num as int]).len()
                || leaf_keys(old(table).view()[self.page_num as int])[self.cell_num as int] != key,
            leaf_num_cells(old(table).view()[self.page_num as int]) >= LEAF_NODE_MAX_CELLS,
        ensures
            final(table).wf(),
            final(table).internal_capacity() == old(table).internal_capacity(),
            r != ExecuteResult::EXECUTE_SUCCESS ==> final(table).view() == old(table).view(),
            r != ExecuteResult::EXECUTE_DUPLICATE_KEY,
            r == ExecuteResult::EXECUTE_SUCCESS ==> leaf_split_outcome(
                old(table).view(),
                final(table).view(),
                self.page_num as int,
                self.cell_num as int,
                cell_image(key, value@),
            ),
            r == ExecuteResult::EXECUTE_TABLE_FULL ==> {
                let leaf = old(table).view()[self.page_num as int];
                &&& !is_root(leaf)
                &&& internal_num_keys(old(table).view()[parent_of(leaf) as int])
                    >= old(table).internal_capacity()
            },
            ({
                let leaf = old(table).view()[self.page_num as int];
                let parent = old(table).view()[parent_of(leaf) as int];
                !is_root(leaf) && old(table).view().len() + 1 <= TABLE_MAX_PAGES && !is_leaf(parent)
                    && internal_num_keys(parent) >= old(table).internal_capacity() ==> r
                    == ExecuteResult::EXECUTE_TABLE_FULL
            }),
            tree_ordered(old(table).view()) && r == ExecuteResult::EXECUTE_FAIL ==> old(
                table,
            ).view().len() + (if is_root(old(table).view()[self.page_num as int]) {
                2int
            } else {
                1int
            }) > TABLE_MAX_PAGES,
    {
        let ghost pages = table.view();
        let p = self.page_num;
        let c = self.cell_num;
        proof {
            lemma_descend_leaf(pages, 0, key, TABLE_MAX_PAGES as nat);
            table.pager.lemma_view_pages();
            assert(node_wf(pages[p as int], pages.len()));
            lemma_layout_values();
        }
        let np = table.pager.get_unused_page_num();
        let old_leaf = table.pager.read_page(p);
        let is_root_leaf = old_leaf.is_node_root();
        if np + (if is_root_leaf { 2usize } else { 1usize }) > TABLE_MAX_PAGES {
            return ExecuteResult::EXECUTE_FAIL;
        }
        let old_max = old_leaf.get_node_max_key();
        let old_parent = old_leaf.get_parent();
        let cell = leaf_cell_image(key, value);
        let ghost cell_v = cell@;
        let (mut left, right) = split_leaf_pages(
            &old_leaf,
            c,
            cell,
            np as u64,
            if is_root_leaf { 0 } else { old_parent },
        );
        let new_max = left.get_node_max_key();
        if is_root_leaf {
            let ghost left1 = left@;
            left.set_node_root(false);
            let ghost left2 = left@;
            left.set_parent(0);
            proof {
                lemma_same_leaf_cells(left1, left2);
                lemma_same_leaf_cells(left2, left@);
            }
            let root = create_new_node(&old_leaf, (np + 1) as u64, new_max, np as u64);
            let r_num = table.pager.allocate_page();
            let l_num = table.pager.allocate_page();
            table.pager.write_page(r_num, right);
            table.pager.write_page(l_num, left);
            table.pager.write_page(p, root);
            proof {
                let new = table.view();
                assert(p == 0) by {
                    if p != 0 {
                        assert(!is_root(pages[p as int]));
                    }
                }
                assert forall|n: int| 0 <= n < new.len() implies #[trigger] node_wf(new[n], new.len()) by {
                    if n < pages.len() && n != p {
                        assert(node_wf(pages[n], pages.len()));
                        lemma_node_wf_grow(pages[n], pages.len(), new.len());
                    } else if n == p {
                        assert(internal_children(new[n])[0] < new.len());
                        assert(internal_children(new[n])[1] < new.len());
                        assert(internal_keys(new[n]).len() == 1);
                        assert(internal_wf(new[n], new.len()));
                    }
                }
                assert forall|n: int| 1 <= n < new.len() implies !is_root(#[trigger] new[n]) by {
                    if n < pages.len() {
                        assert(!is_root(pages[n]));
                    }
                }
            }
            return ExecuteResult::EXECUTE_SUCCESS;
        }
        proof {
            if tree_ordered(pages) {
                lemma_cell_image_key(key, value@);
                lemma_split_checks_pass(pages, key, cell_v);
            }
        }
        let parent_num = old_parent as usize;
        let mut parent = table.pager.read_page(parent_num);
        assert(node_wf(pages[parent_num as int], pages.len()));
        if parent.is_leaf_node() {
            return ExecuteResult::EXECUTE_FAIL;
        }
        if parent.get_internal_node_num_keys() >= table.internal_max_cells as u64 {
            return ExecuteResult::EXECUTE_TABLE_FULL;
        }
        let ghost pc0 = internal_children(parent@);
        if !update_internal_node_key(&mut parent, old_max, new_max) {
            return ExecuteResult::EXECUTE_FAIL;
        }
        let rc = parent.get_internal_node_right_child();
        assert(internal_children(parent@)[internal_num_keys(parent@) as int] == rc);
        let right_max: u32 = if rc == p as u64 {
            new_max
        } else {
            let rp = table.pager.read_page(rc as usize);
            assert(node_wf(pages[rc as int], pages.len()));
            if rp.is_leaf_node() {
                if rp.leaf_node_num_cells() == 0 {
                    return ExecuteResult::EXECUTE_FAIL;
                }
            } else {
                if rp.get_internal_node_num_keys() == 0 {
                    return ExecuteResult::EXECUTE_FAIL;
                }
            }
            rp.get_node_max_key()
        };
        let child_max = right.get_node_max_key();
        if !internal_node_insert(&mut parent, np as u64, child_max, right_max) {
            return ExecuteResult::EXECUTE_FAIL;
        }
        let r_num = table.pager.allocate_page();
        table.pager.write_page(r_num, right);
        table.pager.write_page(p, left);
        table.pager.write_page(parent_num, parent);
        proof {
            let new = table.view();
            assert(parent_num != p);
            assert forall|n: int| 0 <= n < new.len() implies #[trigger] node_wf(new[n], new.len()) by {
                if n < pages.len() && n != p && n != parent_num {
                    assert(node_wf(pages[n], pages.len()));
                    lemma_node_wf_grow(pages[n], pages.len(), new.len());
                } else if n == parent_num {
                    assert forall|k: int| 0 <= k < internal_children(new[n]).len() implies #[trigger] internal_children(
                        new[n],
                    )[k] < new.len() by {
                        let x = internal_children(new[n])[k];
                        if x != np as u64 {
                            let j = choose|j: int| 0 <= j < pc0.len() && pc0[j] == x;
                            assert(pc0[j] < pages.len());
                        }
                    }
                    assert(internal_wf(new[n], new.len()));
                }
            }
            assert forall|n: int| 1 <= n < new.len() implies !is_root(#[trigger] new[n]) by {
                if n < pages.len() {
                    assert(!is_root(pages[n]));
                }
            }
        }
        ExecuteResult::EXECUTE_SUCCESS
    }
}

/// The leaf reached from page `n` by following child 0 down, within `fuel` levels.
pub open spec fn leftmost_leaf(pages: Seq<Seq<u8>>, n: nat, fuel: nat) -> Option<nat>
    decreases fuel,
{
    if fuel == 0 || n >= pages.len() {
        None
    } else if is_leaf(pages[n as int]) {
        Some(n)
    } else {
        leftmost_leaf(pages, internal_child(pages[n as int], 0) as nat, (fuel - 1) as nat)
    }
}

/// The cells of the leaf chain from leaf `n`, following next links for at
/// most `fuel` leaves.
pub open spec fn chain_cells(pages: Seq<Seq<u8>>, n: nat, fuel: nat) -> Seq<Seq<u8>>
    decreases fuel,
{
    if fuel == 0 || n >= pages.len() || !is_leaf(pages[n as int]) {
        Seq::empty()
    } else if leaf_next(pages[n as int]) == 0 {
        leaf_cells(pages[n as int])
    } else {
        leaf_cells(pages[n as int]) + chain_cells(
            pages,
            leaf_next(pages[n as int]) as nat,
            (fuel - 1) as nat,
        )
    }
}

/// The cells that a scan visits, in order: the leaf chain from the
/// leftmost leaf.
pub open spec fn table_cells(pages: Seq<Seq<u8>>) -> Seq<Seq<u8>> {
    match leftmost_leaf(pages, 0, TABLE_MAX_PAGES as nat) {
        Some(l) => chain_cells(pages, l, TABLE_MAX_PAGES as nat),
        None => Seq::empty(),
    }
}

/// The rows that a scan yields, in order.
pub open spec fn table_rows(pages: Seq<Seq<u8>>) -> Seq<RowValue> {
    Seq::new(table_cells(pages).len(), |i: int| decode_row_image(cell_value(table_cells(pages)[i])))
}

/// Whether every cell that a scan visits holds UTF-8 strings.
pub open spec fn table_is_text(pages: Seq<Seq<u8>>) -> bool {
    forall|i: int| 0 <= i < table_cells(pages).len() ==> image_is_text(cell_value(#[trigger] table_cells(pages)[i]))
}

pub open spec fn rows_view(rows: Seq<Row>) -> Seq<RowValue> {
    Seq::new(rows.len(), |i: int| rows[i]@)
}

impl Table {
    /// Inserts `row` under its id.
    pub fn insert(&mut self, row: &Row) -> (r: ExecuteResult)
        requires
            old(self).wf(),
        ensures
            final(self).wf(),
            final(self).internal_capacity() == old(self).internal_capacity(),
            r != ExecuteResult::EXECUTE_SUCCESS ==> final(self).view() == old(self).view(),
            !row_fits(row@) ==> r == ExecuteResult::EXECUTE_FAIL,
            row_fits(row@) && find_spec(old(self).view(), row.id) is None ==> r
                == ExecuteResult::EXECUTE_FAIL,
            tree_ordered(old(self).view()) ==> tree_ordered(final(self).view()),
            row_fits(row@) && tree_ordered(old(self).view()) ==> (find_spec(old(self).view(), row.id)
                matches Some((p, c)) && {
                let leaf = old(self).view()[p as int];
                let keys = leaf_keys(leaf);
                let parent = old(self).view()[parent_of(leaf) as int];
                &&& !(c < keys.len() && keys[c as int] == row.id)
                &&& leaf_num_cells(leaf) < LEAF_NODE_MAX_CELLS || (old(self).view().len() + (if is_root(
                    leaf,
                ) {
                    2int
                } else {
                    1int
                }) <= TABLE_MAX_PAGES && (is_root(leaf) || internal_num_keys(parent)
                    < old(self).internal_capacity()))
            } ==> r == ExecuteResult::EXECUTE_SUCCESS),
            row_fits(row@) ==> (find_spec(old(self).view(), row.id) matches Some((p, c)) && {
                let leaf = old(self).view()[p as int];
                let keys = leaf_keys(leaf);
                let parent = old(self).view()[parent_of(leaf) as int];
                !(c < keys.len() && keys[c as int] == row.id) && leaf_num_cells(leaf)
                    >= LEAF_NODE_MAX_CELLS && !is_root(leaf) && old(self).view().len() + 1
                    <= TABLE_MAX_PAGES && !is_leaf(parent) && internal_num_keys(parent)
                    >= old(self).internal_capacity()
            } ==> r == ExecuteResult::EXECUTE_TABLE_FULL),
            row_fits(row@) && tree_ordered(old(self).view()) && r == ExecuteResult::EXECUTE_FAIL ==> (
            find_spec(old(self).view(), row.id) matches Some((p, c)) && {
                let leaf = old(self).view()[p as int];
                &&& leaf_num_cells(leaf) >= LEAF_NODE_MAX_CELLS
                &&& old(self).view().len() + (if is_root(leaf) {
                    2int
                } else {
                    1int
                }) > TABLE_MAX_PAGES
            }),
            r == ExecuteResult::EXECUTE_SUCCESS ==> insert_step(
                old(self).view(),
                final(self).view(),
                row.id,
                cell_image(row.id, row@),
            ),
            row_fits(row@) ==> (find_spec(old(self).view(), row.id) matches Some((p, c)) ==> {
                let leaf = old(self).view()[p as int];
                let keys = leaf_keys(leaf);
                let cell = cell_image(row.id, row@);
                &&& (r == ExecuteResult::EXECUTE_DUPLICATE_KEY) == (c < keys.len() && keys[c as int]
                    == row.id)
                &&& r != ExecuteResult::EXECUTE_DUPLICATE_KEY && leaf_num_cells(leaf)
                    < LEAF_NODE_MAX_CELLS ==> r == ExecuteResult::EXECUTE_SUCCESS
                    && leaf_insert_outcome(old(self).view(), final(self).view(), p as int, c as int, cell)
                &&& r == ExecuteResult::EXECUTE_SUCCESS && leaf_num_cells(leaf) >= LEAF_NODE_MAX_CELLS
                    ==> leaf_split_outcome(old(self).view(), final(self).view(), p as int, c as int, cell)
                &&& r == ExecuteResult::EXECUTE_TABLE_FULL ==> {
                    &&& leaf_num_cells(leaf) >= LEAF_NODE_MAX_CELLS
                    &&& !is_root(leaf)
                    &&& internal_num_keys(old(self).view()[parent_of(leaf) as int])
                        >= old(self).internal_capacity()
                }
            }),
    {
        if !row.fits() {
            return ExecuteResult::EXECUTE_FAIL;
        }
        let ghost pages = self.view();
        proof {
            if tree_ordered(pages) {
                self.pager.lemma_view_pages();
                crate::order::lemma_find_in_ordered(pages, row.id);
            }
        }
        let (page_num, cell_num) = match self.find(row.id) {
            Some(pc) => pc,
            None => {
                return ExecuteResult::EXECUTE_FAIL;
            },
        };
        proof {
            lemma_descend_leaf(pages, 0, row.id, TABLE_MAX_PAGES as nat);
            assert(node_wf(pages[page_num as int], pages.len()));
            lemma_lower_bound_props(leaf_keys(pages[page_num as int]), row.id);
        }
        let page = self.pager.read_page(page_num);
        if cell_num < page.leaf_node_num_cells() as usize {
            let key_at_index = page.leaf_node_key(cell_num);
            assert(leaf_keys(pages[page_num as int])[cell_num as int] == key_at_index);
            if key_at_index == row.id {
                return ExecuteResult::EXECUTE_DUPLICATE_KEY;
            }
        }
        let cursor = Cursor { page_num, cell_num, end_of_table: false };
        proof {
            lemma_cell_image_key(row.id, row@);
        }
        let r = cursor.leaf_node_insert(self, row.id, row);
        proof {
            if r == ExecuteResult::EXECUTE_SUCCESS && tree_ordered(pages) {
                self.pager.lemma_view_pages();
                lemma_insert_keeps_order(pages, self.view(), row.id, cell_image(row.id, row@));
            }
        }
        r
    }

    /// The cells of the leaf chain from the leftmost leaf, in order.
    fn collect_cells(&mut self, first_leaf: usize) -> (r: Vec<Vec<u8>>)
        requires
            old(self).wf(),
            leftmost_leaf(old(self).view(), 0, TABLE_MAX_PAGES as nat) == Some(first_leaf as nat),
        ensures
            final(self).wf(),
            final(self).view() == old(self).view(),
            final(self).internal_capacity() == old(self).internal_capacity(),
            cells_view(r@) == table_cells(old(self).view()),
            forall|i: int| 0 <= i < r@.len() ==> #[trigger] r@[i]@.len() == LEAF_NODE_CELL_SIZE,
    {
        let ghost pages = self.view();
        let mut out: Vec<Vec<u8>> = Vec::new();
        let mut page_num = first_leaf;
        let mut fuel: usize = TABLE_MAX_PAGES;
        let mut done = false;
        proof {
            self.pager.lemma_view_pages();
            lemma_layout_values();
            assert(cells_view(out@) + chain_cells(pages, page_num as nat, fuel as nat) =~= table_cells(pages));
        }
        while !done && fuel > 0 && page_num < self.pager.num_pages()
            invariant
                self.wf(),
                self.view() == pages,
                self.internal_capacity() == old(self).internal_capacity(),
                old(self).view() == pages,
                fuel <= TABLE_MAX_PAGES,
                pages.len() <= TABLE_MAX_PAGES,
                done ==> cells_view(out@) == table_cells(pages),
                !done ==> cells_view(out@) + chain_cells(pages, page_num as nat, fuel as nat)
                    == table_cells(pages),
                forall|i: int| 0 <= i < out@.len() ==> #[trigger] out@[i]@.len() == LEAF_NODE_CELL_SIZE,
            decreases fuel + (if done { 0int } else { 1int }),
        {
            let page = self.pager.read_page(page_num);
            if !page.is_leaf_node() {
                assert(chain_cells(pages, page_num as nat, fuel as nat) =~= Seq::<Seq<u8>>::empty());
                assert(cells_view(out@) =~= table_cells(pages));
                done = true;
            } else {
                proof {
                    assert(node_wf(pages[page_num as int], pages.len()));
                }
                let ghost before = out@;
                let mut cells = read_leaf_cells(&page);
                let ghost leaf = cells@;
                out.append(&mut cells);
                proof {
                    assert(cells_view(out@) =~= cells_view(before) + cells_view(leaf));
                }
                let next = page.leaf_node_next_leaf();
                if next == 0 {
                    done = true;
                } else {
                    page_num = next as usize;
                    fuel = fuel - 1;
                    if fuel == 0 {
                        assert(chain_cells(pages, page_num as nat, 0) =~= Seq::<Seq<u8>>::empty());
                    }
                }
            }
        }
        proof {
            if !done {
                assert(chain_cells(pages, page_num as nat, fuel as nat) =~= Seq::<Seq<u8>>::empty());
                assert(cells_view(out@) + Seq::<Seq<u8>>::empty() =~= cells_view(out@));
            }
        }
        out
    }

    /// Every row, in ascending id order; `None` if a stored string is not
    /// valid UTF-8.
    pub fn scan(&mut self) -> (r: Option<Vec<Row>>)
        requires
            old(self).wf(),
        ensures
            final(self).wf(),
            final(self).view() == old(self).view(),
            final(self).internal_capacity() == old(self).internal_capacity(),
            r is Some == table_is_text(old(self).view()),
            r matches Some(rows) ==> rows_view(rows@) == table_rows(old(self).view()),
    {
        let ghost pages = self.view();
        let mut rows: Vec<Row> = Vec::new();
        let start = match Cursor::table_start(self) {
            Some(c) => c,
            None => {
                assert(rows_view(rows@) =~= table_rows(pages));
                return Some(rows);
            },
        };
        let cells = self.collect_cells(start.page_num);
        let mut i: usize = 0;
        while i < cells.len()
            invariant
                self.wf(),
                self.view() == pages,
                self.internal_capacity() == old(self).internal_capacity(),
                old(self).view() == pages,
                cells_view(cells@) == table_cells(pages),
                forall|k: int| 0 <= k < cells@.len() ==> #[trigger] cells@[k]@.len() == LEAF_NODE_CELL_SIZE,
                i <= cells@.len(),
                rows@.len() == i,
                forall|k: int| 0 <= k < i ==> #[trigger] rows@[k]@ == decode_row_image(cell_value(cells@[k]@)),
                forall|k: int| 0 <= k < i ==> image_is_text(cell_value(#[trigger] cells@[k]@)),
            decreases cells@.len() - i,
        {
            proof {
                lemma_layout_values();
            }
            let value = vstd::slice::slice_subrange(cells[i].as_slice(), LEAF_NODE_KEY_SIZE, LEAF_NODE_CELL_SIZE);
            match crate::row::deserialize_row(value) {
                Some(row) => {
                    rows.push(row);
                },
                None => {
                    assert(!table_is_text(pages)) by {
                        assert(table_cells(pages)[i as int] == cells@[i as int]@);
                    }
                    return None;
                },
            }
            i = i + 1;
        }
        proof {
            assert(rows_view(rows@) =~= table_rows(pages)) by {
                assert forall|k: int| 0 <= k < rows@.len() implies rows_view(rows@)[k] == table_rows(pages)[k] by {
                    assert(table_cells(pages)[k] == cells@[k]@);
                }
            }
            assert forall|k: int| 0 <= k < table_cells(pages).len() implies image_is_text(cell_value(#[trigger] table_cells(pages)[k])) by {
                assert(table_cells(pages)[k] == cells@[k]@);
            }
        }
        Some(rows)
    }

    /// The pages to write back on close, each with its page number: every
    /// page of the file, in order, so that the file afterwards holds the
    /// table's pages exactly.
    pub fn close(&mut self) -> (r: Vec<(usize, Vec<u8>)>)
        requires
            old(self).wf(),
        ensures
            final(self).wf(),
            final(self).view() == old(self).view(),
            final(self).internal_capacity() == old(self).internal_capacity(),
            r@.len() == old(self).view().len(),
            forall|i: int| 0 <= i < r@.len() ==> (#[trigger] r@[i]).0 == i && r@[i].1@ == old(
                self,
            ).view()[i],
    {
        let ghost pages = self.view();
        let mut out: Vec<(usize, Vec<u8>)> = Vec::new();
        let num_pages = self.pager.num_pages();
        let mut n: usize = 0;
        while n < num_pages
            invariant
                self.wf(),
                self.view() == pages,
                old(self).view() == pages,
                self.internal_capacity() == old(self).internal_capacity(),
                num_pages == pages.len(),
                num_pages <= TABLE_MAX_PAGES,
                n <= num_pages,
                out@.len() == n,
                forall|i: int| 0 <= i < n ==> (#[trigger] out@[i]).0 == i && out@[i].1@ == pages[i],
            decreases num_pages - n,
        {
            let page = self.pager.read_page(n);
            out.push((n, page.to_bytes()));
            n = n + 1;
        }
        out
    }
}

impl Cursor {
    /// A cursor at the first cell of the leftmost leaf; `None` if following
    /// child 0 down does not reach a leaf.
    pub fn table_start(table: &mut Table) -> (r: Option<Cursor>)
        requires
            old(table).wf(),
        ensures
            final(table).wf(),
            final(table).view() == old(table).view(),
            final(table).internal_capacity() == old(table).internal_capacity(),
            r is None == leftmost_leaf(old(table).view(), 0, TABLE_MAX_PAGES as nat) is None,
            r matches Some(c) ==> {
                &&& leftmost_leaf(old(table).view(), 0, TABLE_MAX_PAGES as nat) == Some(c.page_num as nat)
                &&& c.cell_num == 0
                &&& c.end_of_table == (leaf_num_cells(old(table).view()[c.page_num as int]) == 0)
            },
    {
        let ghost pages = table.view();
        let mut page_num: usize = table.root_page_num;
        let mut fuel: usize = TABLE_MAX_PAGES;
        while fuel > 0
            invariant
                table.wf(),
                table.view() == pages,
                table.internal_capacity() == old(table).internal_capacity(),
                old(table).view() == pages,
                page_num < pages.len(),
                fuel <= TABLE_MAX_PAGES,
                leftmost_leaf(pages, 0, TABLE_MAX_PAGES as nat) == leftmost_leaf(
                    pages,
                    page_num as nat,
                    fuel as nat,
                ),
            decreases fuel,
        {
            let page = table.pager.read_page(page_num);
            assert(node_wf(pages[page_num as int], pages.len()));
            if page.is_leaf_node() {
                let num_cells = page.leaf_node_num_cells();
                return Some(Cursor { page_num, cell_num: 0, end_of_table: num_cells == 0 });
            }
            let child = page.get_internal_node_child(0);
            assert(internal_children(page@)[0] == child);
            page_num = child as usize;
            fuel = fuel - 1;
        }
        None
    }

    /// Moves to the next cell: within the leaf, else to the first cell of
    /// the next leaf; past the last leaf the cursor is at the end.
    pub fn advance(&mut self, table: &mut Table)
        requires
            old(table).wf(),
            old(self).page_num < old(table).view().len(),
            is_leaf(old(table).view()[old(self).page_num as int]),
            old(self).cell_num < leaf_num_cells(old(table).view()[old(self).page_num as int]),
        ensures
            final(table).wf(),
            final(table).view() == old(table).view(),
            final(table).internal_capacity() == old(table).internal_capacity(),
            ({
                let leaf = old(table).view()[old(self).page_num as int];
                if old(self).cell_num + 1 < leaf_num_cells(leaf) {
                    *final(self) == Cursor { cell_num: (old(self).cell_num + 1) as usize, ..*old(self) }
                } else if leaf_next(leaf) == 0 {
                    *final(self) == Cursor { cell_num: (old(self).cell_num + 1) as usize, end_of_table: true, ..*old(self) }
                } else {
                    *final(self) == Cursor { page_num: leaf_next(leaf) as usize, cell_num: 0, end_of_table: false }
                }
            }),
    {
        let ghost pages = table.view();
        proof {
            assert(node_wf(pages[self.page_num as int], pages.len()));
        }
        let page = table.pager.read_page(self.page_num);
        let num_cells = page.leaf_node_num_cells() as usize;
        if self.cell_num + 1 < num_cells {
            self.cell_num = self.cell_num + 1;
        } else {
            let next = page.leaf_node_next_leaf();
            if next == 0 {
                self.cell_num = self.cell_num + 1;
                self.end_of_table = true;
            } else {
                self.page_num = next as usize;
                self.cell_num = 0;
                self.end_of_table = false;
            }
        }
    }

    /// The cursor's page, if it is loaded in the cache.
    pub fn get_page_view<'a>(&self, table: &'a Table) -> (r: Option<&'a Page>)
        requires
            table.wf(),
            self.page_num < TABLE_MAX_PAGES,
        ensures
            r is Some == table.is_resident(self.page_num as int),
            r matches Some(p) ==> p@ == table.view()[self.page_num as int],
    {
        table.get_page_view(self.page_num)
    }

    /// A copy of the cursor's page, loading it first.
    pub fn get_page(&self, table: &mut Table) -> (r: Page)
        requires
            old(table).wf(),
            self.page_num < old(table).view().len(),
        ensures
            final(table).wf(),
            final(table).view() == old(table).view(),
            final(table).internal_capacity() == old(table).internal_capacity(),
            r@ == old(table).view()[self.page_num as int],
            r.wf(),
    {
        table.pager.read_page(self.page_num)
    }

    /// The row at the cursor; `None` if a string there is not valid UTF-8.
    pub fn cursor_value(&self, table: &mut Table) -> (r: Option<Row>)
        requires
            old(table).wf(),
            self.page_num < old(table).view().len(),
            is_leaf(old(table).view()[self.page_num as int]),
            self.cell_num < leaf_num_cells(old(table).view()[self.page_num as int]),
        ensures
            final(table).wf(),
            final(table).view() == old(table).view(),
            final(table).internal_capacity() == old(table).internal_capacity(),
            ({
                let cell = leaf_cells(old(table).view()[self.page_num as int])[self.cell_num as int];
                &&& r is Some == image_is_text(cell_value(cell))
                &&& r matches Some(row) ==> row@ == decode_row_image(cell_value(cell))
            }),
    {
        let ghost pages = table.view();
        proof {
            assert(node_wf(pages[self.page_num as int], pages.len()));
            lemma_layout_values();
        }
        let page = table.pager.read_page(self.page_num);
        let off = page.leaf_node_value(self.cell_num);
        let bytes = page.read_bytes(off, crate::layout::ROW_SIZE);
        proof {
            crate::page::lemma_subrange_of_subrange(
                page@,
                crate::page::leaf_cell_offset(self.cell_num as int),
                crate::page::leaf_cell_offset(self.cell_num as int) + LEAF_NODE_CELL_SIZE,
                4,
                LEAF_NODE_CELL_SIZE as int,
            );
        }
        crate::row::deserialize_row(bytes.as_slice())
    }
}

/// The bytes of a file whose pages are `pages`, in order.
pub open spec fn concat_pages(pages: Seq<Seq<u8>>) -> Seq<u8>
    decreases pages.len(),
{
    if pages.len() == 0 {
        Seq::empty()
    } else {
        concat_pages(pages.drop_last()) + pages.last()
    }
}

proof fn lemma_concat_pages(pages: Seq<Seq<u8>>)
    requires
        forall|n: int| 0 <= n < pages.len() ==> (#[trigger] pages[n]).len() == PAGE_SIZE,
    ensures
        concat_pages(pages).len() == pages.len() * PAGE_SIZE,
        forall|n: int|
            0 <= n < pages.len() ==> #[trigger] concat_pages(pages).subrange(
                n * PAGE_SIZE,
                (n + 1) * PAGE_SIZE,
            ) == pages[n],
    decreases pages.len(),
{
    if pages.len() > 0 {
        let init = pages.drop_last();
        lemma_concat_pages(init);
        let c = concat_pages(pages);
        let ci = concat_pages(init);
        assert forall|n: int| 0 <= n < pages.len() implies #[trigger] c.subrange(
            n * PAGE_SIZE,
            (n + 1) * PAGE_SIZE,
        ) == pages[n] by {
            if n < init.len() {
                assert(c.subrange(n * PAGE_SIZE, (n + 1) * PAGE_SIZE) =~= ci.subrange(
                    n * PAGE_SIZE,
                    (n + 1) * PAGE_SIZE,
                ));
            } else {
                assert(c.subrange(n * PAGE_SIZE, (n + 1) * PAGE_SIZE) =~= pages.last());
            }
        }
    }
}

/// Writing every page of a well-formed table to a file and reading that
/// file back gives the same pages; as `open` and `scan` depend on the pages
/// alone, reopening scans the same rows.
pub proof fn lemma_file_image_round_trip(pages: Seq<Seq<u8>>)
    requires
        tree_wf(pages),
        forall|n: int| 0 <= n < pages.len() ==> (#[trigger] pages[n]).len() == PAGE_SIZE,
    ensures
        concat_pages(pages).len() % (PAGE_SIZE as nat) == 0,
        concat_pages(pages).len() / (PAGE_SIZE as nat) <= TABLE_MAX_PAGES,
        concat_pages(pages).len() > 0,
        image_pages(concat_pages(pages)) == pages,
        tree_wf(image_pages(concat_pages(pages))),
        table_rows(image_pages(concat_pages(pages))) == table_rows(pages),
{
    lemma_concat_pages(pages);
    let c = concat_pages(pages);
    let k = pages.len();
    assert(c.len() % 4096 == 0 && c.len() / 4096 == k) by (nonlinear_arith)
        requires
            c.len() == k * 4096,
    ;
    assert(image_pages(c) =~= pages);
}

/// In a well-formed table every leaf holds at most `LEAF_NODE_MAX_CELLS`
/// cells with strictly ascending, hence unique, keys.
pub proof fn lemma_leaf_keys_ascending(t: &Table, n: int)
    requires
        t.wf(),
        0 <= n < t.view().len(),
        is_leaf(t.view()[n]),
    ensures
        strictly_ascending(leaf_keys(t.view()[n])),
        leaf_num_cells(t.view()[n]) <= LEAF_NODE_MAX_CELLS,
{
    assert(node_wf(t.view()[n], t.view().len()));
}

/// In a well-formed table every internal node has strictly ascending keys
/// and children within the file.
pub proof fn lemma_internal_keys_ascending(t: &Table, n: int)
    requires
        t.wf(),
        0 <= n < t.view().len(),
        !is_leaf(t.view()[n]),
    ensures
        strictly_ascending(internal_keys(t.view()[n])),
        forall|i: int|
            0 <= i < internal_children(t.view()[n]).len() ==> #[trigger] internal_children(
                t.view()[n],
            )[i] < t.view().len(),
{
    assert(node_wf(t.view()[n], t.view().len()));
}

/// In a well-formed table page 0 is the root and no other page is.
pub proof fn lemma_single_root(t: &Table)
    requires
        t.wf(),
    ensures
        t.view().len() >= 1,
        is_root(t.view()[0]),
        forall|n: int| 0 <= n < t.view().len() && is_root(#[trigger] t.view()[n]) ==> n == 0,
{
}

/// A split keeps every cell of the full leaf and the new one, in order:
/// the left half followed by the right half is the old cells with the new
/// cell at its place, and their keys stay strictly ascending.
pub proof fn lemma_split_keeps_cells(
    old: Seq<Seq<u8>>,
    new: Seq<Seq<u8>>,
    p: int,
    cell: Seq<u8>,
)
    requires
        0 <= p < old.len(),
        is_leaf(old[p]),
        leaf_num_cells(old[p]) == LEAF_NODE_MAX_CELLS,
        strictly_ascending(leaf_keys(old[p])),
        leaf_keys(old[p]).len() == LEAF_NODE_MAX_CELLS,
        lower_bound(leaf_keys(old[p]), cell_key(cell)) == LEAF_NODE_MAX_CELLS || leaf_keys(
            old[p],
        )[lower_bound(leaf_keys(old[p]), cell_key(cell)) as int] != cell_key(cell),
        leaf_split_outcome(old, new, p, lower_bound(leaf_keys(old[p]), cell_key(cell)) as int, cell),
    ensures
        ({
            let c = lower_bound(leaf_keys(old[p]), cell_key(cell)) as int;
            let left = if is_root(old[p]) {
                old.len() + 1int
            } else {
                p
            };
            let right = old.len() as int;
            let both = leaf_cells(new[left]) + leaf_cells(new[right]);
            &&& both == leaf_cells(old[p]).insert(c, cell)
            &&& both.len() == leaf_num_cells(old[p]) + 1
            &&& strictly_ascending(cells_keys(both))
            &&& leaf_next(new[left]) == right
        }),
{
    lemma_layout_values();
    let c = lower_bound(leaf_keys(old[p]), cell_key(cell)) as int;
    let all = leaf_cells(old[p]).insert(c, cell);
    lemma_lower_bound_props(leaf_keys(old[p]), cell_key(cell));
    assert(all.subrange(0, 7) + all.subrange(7, 14) =~= all);
    lemma_cells_keys_insert(leaf_cells(old[p]), c, cell);
    lemma_insert_at_lower_bound(leaf_keys(old[p]), cell_key(cell));
}

/// When the root leaf splits, the root becomes an internal node with one
/// key over exactly two leaves, the left one linked to the right one.
pub proof fn lemma_root_split_shape(
    old: Seq<Seq<u8>>,
    new: Seq<Seq<u8>>,
    c: int,
    cell: Seq<u8>,
)
    requires
        tree_wf(old),
        is_root(old[0]),
        leaf_num_cells(old[0]) == LEAF_NODE_MAX_CELLS,
        0 <= c <= LEAF_NODE_MAX_CELLS,
        leaf_split_outcome(old, new, 0, c, cell),
    ensures
        is_internal(new[0]),
        is_root(new[0]),
        internal_keys(new[0]).len() == 1,
        internal_children(new[0]).len() == 2,
        is_leaf(new[internal_children(new[0])[0] as int]),
        is_leaf(new[internal_children(new[0])[1] as int]),
        leaf_next(new[internal_children(new[0])[0] as int]) == internal_children(new[0])[1],
        leaf_cells(new[internal_children(new[0])[0] as int]).len() + leaf_cells(
            new[internal_children(new[0])[1] as int],
        ).len() == leaf_cells(old[0]).len() + 1,
{
    lemma_layout_values();
}

/// After a successful insert the new cell is stored in a leaf.
pub proof fn lemma_insert_stores_cell(
    old: Seq<Seq<u8>>,
    new: Seq<Seq<u8>>,
    p: int,
    c: int,
    cell: Seq<u8>,
)
    requires
        0 <= p < old.len(),
        0 <= c <= leaf_cells(old[p]).len(),
        leaf_insert_outcome(old, new, p, c, cell) || (leaf_num_cells(old[p]) == LEAF_NODE_MAX_CELLS
            && leaf_split_outcome(old, new, p, c, cell)),
    ensures
        exists|q: int| 0 <= q < new.len() && is_leaf(new[q]) && leaf_cells(new[q]).contains(cell),
{
    lemma_layout_values();
    let all = leaf_cells(old[p]).insert(c, cell);
    if leaf_insert_outcome(old, new, p, c, cell) {
        assert(leaf_cells(new[p])[c] == cell);
    } else {
        let right = old.len() as int;
        let left = if is_root(old[p]) {
            old.len() + 1int
        } else {
            p
        };
        assert(all[c] == cell);
        if c < 7 {
            assert(leaf_cells(new[left])[c] == cell);
        } else {
            assert(leaf_cells(new[right])[c - 7] == cell);
        }
    }
}

/// One line of the tree diagram, with its indentation level.
#[derive(PartialEq, Eq, Structural, Clone, Copy, Debug)]
pub enum TreeLine {
    /// A leaf and its number of cells.
    Leaf(usize, u64),
    /// A key stored in a leaf.
    LeafKey(usize, u32),
    /// An internal node and its number of keys.
    Internal(usize, u64),
    /// A key of an internal node, after the child it bounds.
    InternalKey(usize, u32),
}

/// The diagram of the subtree at page `n`, drawn at `level`, at most
/// `fuel` levels deep: a node's line, then for a leaf its keys, for an
/// internal node each child followed by its key, then the right child.
pub open spec fn node_lines(pages: Seq<Seq<u8>>, n: nat, level: nat, fuel: nat) -> Seq<TreeLine>
    decreases fuel, 1nat, 0nat,
{
    if fuel == 0 || n >= pages.len() {
        Seq::empty()
    } else if is_leaf(pages[n as int]) {
        seq![TreeLine::Leaf(level as usize, leaf_num_cells(pages[n as int]))] + Seq::new(
            leaf_keys(pages[n as int]).len(),
            |i: int| TreeLine::LeafKey((level + 1) as usize, leaf_keys(pages[n as int])[i]),
        )
    } else {
        let s = pages[n as int];
        seq![TreeLine::Internal(level as usize, internal_num_keys(s))] + children_lines(
            pages,
            n,
            level,
            fuel,
            internal_num_keys(s) as nat,
        ) + node_lines(pages, internal_right_child(s) as nat, level + 1, (fuel - 1) as nat)
    }
}

/// The diagrams of the first `i` children of internal page `n`, each
/// followed by its key.
pub open spec fn children_lines(pages: Seq<Seq<u8>>, n: nat, level: nat, fuel: nat, i: nat) -> Seq<
    TreeLine,
>
    decreases fuel, 0nat, i,
{
    if i == 0 || fuel == 0 || n >= pages.len() {
        Seq::empty()
    } else {
        let s = pages[n as int];
        children_lines(pages, n, level, fuel, (i - 1) as nat) + node_lines(
            pages,
            internal_cell_child(s, i - 1) as nat,
            level + 1,
            (fuel - 1) as nat,
        ) + seq![TreeLine::InternalKey((level + 1) as usize, internal_key(s, i - 1))]
    }
}

impl Table {
    fn print_tree_node(&mut self, page_num: u64, level: usize, fuel: usize, out: &mut Vec<TreeLine>)
        requires
            old(self).wf(),
            level + fuel <= TABLE_MAX_PAGES,
        ensures
            final(self).wf(),
            final(self).view() == old(self).view(),
            final(self).internal_capacity() == old(self).internal_capacity(),
            final(out)@ == old(out)@ + node_lines(old(self).view(), page_num as nat, level as nat, fuel as nat),
        decreases fuel,
    {
        let ghost pages = self.view();
        proof {
            self.pager.lemma_view_pages();
        }
        if fuel == 0 || page_num >= self.pager.num_pages() as u64 {
            assert(out@ =~= out@ + Seq::<TreeLine>::empty());
            return;
        }
        let ghost start = out@;
        let n = page_num as usize;
        let page = self.pager.read_page(n);
        assert(node_wf(pages[n as int], pages.len()));
        if page.is_leaf_node() {
            let num_cells = page.leaf_node_num_cells();
            out.push(TreeLine::Leaf(level, num_cells));
            let mut i: usize = 0;
            while i < num_cells as usize
                invariant
                    self.wf(),
                    self.view() == pages,
                    page@ == pages[n as int],
                    page.wf(),
                    num_cells == leaf_num_cells(pages[n as int]),
                    num_cells <= LEAF_NODE_MAX_CELLS,
                    level < TABLE_MAX_PAGES,
                    i <= num_cells,
                    out@ == start + seq![TreeLine::Leaf(level, num_cells)] + Seq::new(
                        i as nat,
                        |k: int| TreeLine::LeafKey((level + 1) as usize, leaf_keys(pages[n as int])[k]),
                    ),
                decreases num_cells - i,
            {
                let key = page.leaf_node_key(i);
                out.push(TreeLine::LeafKey(level + 1, key));
                proof {
                    assert(leaf_keys(pages[n as int])[i as int] == key);
                    assert(Seq::new(
                        (i + 1) as nat,
                        |k: int| TreeLine::LeafKey((level + 1) as usize, leaf_keys(pages[n as int])[k]),
                    ) =~= Seq::new(
                        i as nat,
                        |k: int| TreeLine::LeafKey((level + 1) as usize, leaf_keys(pages[n as int])[k]),
                    ).push(TreeLine::LeafKey((level + 1) as usize, key)));
                }
                i = i + 1;
            }
            proof {
                assert(out@ =~= start + node_lines(pages, page_num as nat, level as nat, fuel as nat));
            }
        } else {
            let num_keys = page.get_internal_node_num_keys();
            out.push(TreeLine::Internal(level, num_keys));
            let mut i: usize = 0;
            while i < num_keys as usize
                invariant
                    self.wf(),
                    self.view() == pages,
                    self.internal_capacity() == old(self).internal_capacity(),
                    page@ == pages[n as int],
                    page.wf(),
                    !is_leaf(pages[n as int]),
                    num_keys == internal_num_keys(pages[n as int]),
                    num_keys <= INTERNAL_NODE_MAX_CELLS,
                    n < pages.len(),
                    0 < fuel,
                    level + fuel <= TABLE_MAX_PAGES,
                    i <= num_keys,
                    out@ == start + seq![TreeLine::Internal(level, num_keys)] + children_lines(
                        pages,
                        n as nat,
                        level as nat,
                        fuel as nat,
                        i as nat,
                    ),
                decreases num_keys - i,
            {
                let child = page.get_internal_node_cell(i);
                self.print_tree_node(child, level + 1, fuel - 1, out);
                let key = page.get_internal_node_key(i);
                out.push(TreeLine::InternalKey(level + 1, key));
                proof {
                    assert(out@ =~= start + seq![TreeLine::Internal(level, num_keys)] + children_lines(
                        pages,
                        n as nat,
                        level as nat,
                        fuel as nat,
                        (i + 1) as nat,
                    ));
                }
                i = i + 1;
            }
            let right = page.get_internal_node_right_child();
            self.print_tree_node(right, level + 1, fuel - 1, out);
            proof {
                assert(out@ =~= start + node_lines(pages, page_num as nat, level as nat, fuel as nat));
            }
        }
    }

    /// The tree drawn from the root down: each node, a leaf's keys, and an
    /// internal node's children each followed by its key.
    pub fn print_tree(&mut self) -> (r: Vec<TreeLine>)
        requires
            old(self).wf(),
        ensures
            final(self).wf(),
            final(self).view() == old(self).view(),
            final(self).internal_capacity() == old(self).internal_capacity(),
            r@ == node_lines(old(self).view(), 0, 0, TABLE_MAX_PAGES as nat),
    {
        let mut out: Vec<TreeLine> = Vec::new();
        self.print_tree_node(self.root_page_num as u64, 0, TABLE_MAX_PAGES, &mut out);
        assert(out@ =~= Seq::<TreeLine>::empty() + node_lines(self.view(), 0, 0, TABLE_MAX_PAGES as nat));
        out
    }
}

impl Table {
    /// Whether the table has the ordered shape that this engine builds.
    fn tree_is_ordered(&mut self) -> (r: bool)
        requires
            old(self).wf(),
        ensures
            final(self).wf(),
            final(self).view() == old(self).view(),
            final(self).internal_capacity() == old(self).internal_capacity(),
            r == tree_ordered(old(self).view()),
    {
        let ghost pages = self.view();
        proof {
            self.pager.lemma_view_pages();
        }
        let num_pages = self.pager.num_pages();
        let root = self.pager.read_page(0);
        assert(node_wf(pages[0], pages.len()));
        if root.is_leaf_node() {
            return num_pages == 1 && root.leaf_node_next_leaf() == 0;
        }
        let ghost keys = internal_keys(pages[0]);
        let ghost ch = internal_children(pages[0]);
        let nk = root.get_internal_node_num_keys() as usize;
        if num_pages != nk + 2 {
            return false;
        }
        let mut seen: Vec<bool> = vec![false; num_pages];
        let mut i: usize = 0;
        while i <= nk
            invariant
                self.wf(),
                self.view() == pages,
                self.internal_capacity() == old(self).internal_capacity(),
                old(self).view() == pages,
                root@ == pages[0],
                root.wf(),
                !is_leaf(pages[0]),
                keys == internal_keys(pages[0]),
                ch == internal_children(pages[0]),
                nk == keys.len(),
                nk <= INTERNAL_NODE_MAX_CELLS,
                num_pages == pages.len(),
                num_pages == nk + 2,
                i <= nk + 1,
                seen@.len() == num_pages,
                forall|k: int| 0 <= k < i ==> 1 <= #[trigger] ch[k] < pages.len(),
                forall|k: int| 0 <= k < i ==> #[trigger] child_ok(pages, keys, ch, k),
                forall|n: int| 0 <= n < num_pages ==> (#[trigger] seen@[n] <==> exists|k: int| 0 <= k < i && ch[k] == n),
            decreases nk + 1 - i,
        {
            let c = root.get_internal_node_child(i);
            assert(ch[i as int] == c);
            assert(node_wf(pages[0], pages.len()));
            assert(internal_wf(pages[0], pages.len()));
            assert(c < num_pages);
            if c == 0 {
                assert(!tree_ordered(pages)) by {
                    assert(0 <= i < ch.len() && !(1 <= ch[i as int]));
                }
                return false;
            }
            let page = self.pager.read_page(c as usize);
            assert(node_wf(pages[c as int], pages.len()));
            if !page.is_leaf_node() {
                assert(!tree_ordered(pages)) by {
                    assert(!child_ok(pages, keys, ch, i as int));
                }
                return false;
            }
            let n = page.leaf_node_num_cells();
            if n == 0 || page.get_parent() != 0 {
                assert(!tree_ordered(pages)) by {
                    assert(!child_ok(pages, keys, ch, i as int));
                }
                return false;
            }
            let expected_next: u64 = if i < nk {
                let nc = root.get_internal_node_child(i + 1);
                assert(ch[i + 1] == nc);
                nc
            } else {
                0
            };
            if page.leaf_node_next_leaf() != expected_next {
                assert(!tree_ordered(pages)) by {
                    assert(!child_ok(pages, keys, ch, i as int));
                }
                return false;
            }
            if i < nk {
                let key = root.get_internal_node_key(i);
                assert(keys[i as int] == key);
                if page.get_node_max_key() != key {
                    assert(!tree_ordered(pages)) by {
                        assert(!child_ok(pages, keys, ch, i as int));
                    }
                    return false;
                }
            }
            if i > 0 {
                let prev = root.get_internal_node_key(i - 1);
                assert(keys[i - 1] == prev);
                let first = page.leaf_node_key(0);
                let ghost lk = leaf_keys(pages[c as int]);
                assert(lk[0] == first);
                if first <= prev {
                    assert(!tree_ordered(pages)) by {
                        assert(!child_ok(pages, keys, ch, i as int));
                    }
                    return false;
                }
                proof {
                    assert forall|k: int| 0 <= k < lk.len() implies keys[i - 1] < #[trigger] lk[k] by {
                        if k > 0 {
                            assert(lk[0] < lk[k]);
                        }
                    }
                }
            }
            assert(child_ok(pages, keys, ch, i as int));
            let ghost seen0 = seen@;
            seen.set(c as usize, true);
            proof {
                assert forall|m: int| 0 <= m < num_pages implies (#[trigger] seen@[m] <==> exists|k: int|
                    0 <= k < i + 1 && ch[k] == m) by {
                    if m == c {
                        assert(ch[i as int] == m);
                    } else {
                        if seen@[m] {
                            assert(seen0[m]);
                        }
                        if exists|k: int| 0 <= k < i + 1 && ch[k] == m {
                            let k = choose|k: int| 0 <= k < i + 1 && ch[k] == m;
                            assert(k != i);
                        }
                    }
                }
            }
            i = i + 1;
        }
        let mut n: usize = 1;
        while n < num_pages
            invariant
                self.wf(),
                self.view() == pages,
                self.internal_capacity() == old(self).internal_capacity(),
                old(self).view() == pages,
                !is_leaf(pages[0]),
                keys == internal_keys(pages[0]),
                num_pages == ch.len() + 1,
                forall|k: int| 0 <= k < ch.len() ==> 1 <= #[trigger] ch[k] < pages.len(),
                forall|k: int| 0 <= k < ch.len() ==> #[trigger] child_ok(pages, keys, ch, k),
                num_pages == pages.len(),
                seen@.len() == num_pages,
                1 <= n <= num_pages,
                ch == internal_children(pages[0]),
                forall|m: int| 0 <= m < num_pages ==> (#[trigger] seen@[m] <==> is_child(ch, m)),
                forall|m: int| 1 <= m < n ==> #[trigger] is_child(ch, m),
            decreases num_pages - n,
        {
            if !seen[n] {
                assert(!is_child(ch, n as int));
                return false;
            }
            n = n + 1;
        }
        true
    }
}

} // verus!
