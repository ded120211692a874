use minidb::btree::{ExecuteResult, Table, TreeLine};
use minidb::layout::{INTERNAL_NODE_MAX_CELLS, LEAF_NODE_MAX_CELLS, PAGE_SIZE};
use minidb::page::{NodeType, Page};
use minidb::pager::{OpenError, Pager};
use minidb::row::Row;

fn row(id: u32, username: &str, email: &str) -> Row {
    Row { id, username: username.to_string(), email: email.to_string() }
}

fn numbered(id: u32) -> Row {
    row(id, &format!("user{}", id), &format!("person{}@example.com", id))
}

/// Writes the pages that closing the table hands back over `file`.
fn flush(table: &mut Table, mut file: Vec<u8>) -> Vec<u8> {
    for (n, bytes) in table.close() {
        let end = (n + 1) * PAGE_SIZE;
        if file.len() < end {
            file.resize(end, 0);
        }
        file[n * PAGE_SIZE..end].copy_from_slice(&bytes);
    }
    file
}

fn ids(table: &mut Table) -> Vec<u32> {
    table.scan().unwrap().iter().map(|r| r.id).collect()
}

fn pages(table: &mut Table) -> Vec<Page> {
    let file = flush(table, Vec::new());
    file.chunks(PAGE_SIZE).map(Page::from_bytes).collect()
}

#[test]
fn fresh_file_single_row_survives_reopen() {
    let mut table = Table::open(Vec::new()).unwrap();
    assert_eq!(table.insert(&row(1, "user1", "person1@example.com")), ExecuteResult::EXECUTE_SUCCESS);
    let rows = table.scan().unwrap();
    assert_eq!(rows.len(), 1);
    assert_eq!((rows[0].id, rows[0].username.as_str(), rows[0].email.as_str()), (1, "user1", "person1@example.com"));
    let file = flush(&mut table, Vec::new());
    assert_eq!(file.len(), PAGE_SIZE);
    let mut reopened = Table::open(file).unwrap();
    let rows = reopened.scan().unwrap();
    assert_eq!(rows.len(), 1);
    assert_eq!((rows[0].id, rows[0].username.as_str(), rows[0].email.as_str()), (1, "user1", "person1@example.com"));
}

#[test]
fn fourteen_sequential_inserts_split_the_root() {
    let mut table = Table::open(Vec::new()).unwrap();
    for id in 1..=14 {
        assert_eq!(table.insert(&numbered(id)), ExecuteResult::EXECUTE_SUCCESS);
    }
    let pages = pages(&mut table);
    assert_eq!(pages.len(), 3);
    let root = &pages[0];
    assert_eq!(root.get_node_type(), NodeType::NODE_INTERNAL);
    assert!(root.is_node_root());
    assert_eq!(root.get_internal_node_num_keys(), 1);
    let left = root.get_internal_node_child(0) as usize;
    let right = root.get_internal_node_child(1) as usize;
    assert_eq!((left, right), (2, 1));
    assert_eq!(root.get_node_max_key(), 7);
    assert!(pages[left].is_leaf_node() && pages[right].is_leaf_node());
    assert_eq!(pages[left].leaf_node_num_cells(), 7);
    assert_eq!(pages[right].leaf_node_num_cells(), 7);
    assert_eq!(pages[left].leaf_node_next_leaf(), right as u64);
    assert_eq!(pages[right].leaf_node_next_leaf(), 0);
    assert_eq!(pages[left].get_parent(), 0);
    assert_eq!(pages[right].get_parent(), 0);
    assert!(!pages[left].is_node_root() && !pages[right].is_node_root());
    assert_eq!(pages[right].get_node_max_key(), 14);
    assert_eq!(ids(&mut table), (1..=14).collect::<Vec<u32>>());
}

#[test]
fn duplicate_key_is_refused() {
    let mut table = Table::open(Vec::new()).unwrap();
    assert_eq!(table.insert(&numbered(1)), ExecuteResult::EXECUTE_SUCCESS);
    assert_eq!(table.insert(&numbered(1)), ExecuteResult::EXECUTE_DUPLICATE_KEY);
    assert_eq!(ids(&mut table), vec![1]);
}

#[test]
fn duplicate_key_is_refused_after_split() {
    let mut table = Table::open(Vec::new()).unwrap();
    for id in 1..=20 {
        assert_eq!(table.insert(&numbered(id)), ExecuteResult::EXECUTE_SUCCESS);
    }
    for id in 1..=20 {
        assert_eq!(table.insert(&numbered(id)), ExecuteResult::EXECUTE_DUPLICATE_KEY);
    }
    assert_eq!(ids(&mut table), (1..=20).collect::<Vec<u32>>());
}

#[test]
fn username_of_33_bytes_is_refused() {
    let mut table = Table::open(Vec::new()).unwrap();
    let long = "a".repeat(33);
    assert_eq!(table.insert(&row(1, &long, "e")), ExecuteResult::EXECUTE_FAIL);
    assert_eq!(table.insert(&row(1, "u", &"e".repeat(256))), ExecuteResult::EXECUTE_FAIL);
    assert_eq!(table.insert(&row(1, "nul\0", "e")), ExecuteResult::EXECUTE_FAIL);
    assert_eq!(table.scan().unwrap().len(), 0);
}

#[test]
fn thirty_shuffled_inserts_scan_sorted() {
    let mut table = Table::open(Vec::new()).unwrap();
    let mut order: Vec<u32> = (1..=30).collect();
    let mut seed: u32 = 12345;
    for i in (1..order.len()).rev() {
        seed = seed.wrapping_mul(1103515245).wrapping_add(12345);
        let j = (seed >> 16) as usize % (i + 1);
        order.swap(i, j);
    }
    for id in &order {
        assert_eq!(table.insert(&numbered(*id)), ExecuteResult::EXECUTE_SUCCESS);
    }
    assert_eq!(ids(&mut table), (1..=30).collect::<Vec<u32>>());
    let pages = pages(&mut table);
    let root = &pages[0];
    assert_eq!(root.get_node_type(), NodeType::NODE_INTERNAL);
    let n = root.get_internal_node_num_keys() as usize;
    let mut total = 0;
    let mut last_key = 0;
    for i in 0..=n {
        let child = &pages[root.get_internal_node_child(i) as usize];
        assert!(child.is_leaf_node());
        assert_eq!(child.get_parent(), 0);
        total += child.leaf_node_num_cells();
        if i < n {
            let key = {
                let off = root.internal_node_cell(i) + 8;
                u32::from_le_bytes(root.read_bytes(off, 4).try_into().unwrap())
            };
            assert_eq!(child.get_node_max_key(), key);
            assert!(key > last_key);
            last_key = key;
        } else {
            assert!(child.get_node_max_key() > last_key);
        }
    }
    assert_eq!(total, 30);
}

#[test]
fn internal_node_at_capacity_reports_table_full() {
    let mut table = Table::open_with_capacity(Vec::new(), 1).unwrap();
    for id in 1..=20 {
        assert_eq!(table.insert(&numbered(id)), ExecuteResult::EXECUTE_SUCCESS);
    }
    let before = flush(&mut table, Vec::new());
    assert_eq!(table.insert(&numbered(21)), ExecuteResult::EXECUTE_TABLE_FULL);
    assert_eq!(flush(&mut table, Vec::new()), before);
    assert_eq!(ids(&mut table), (1..=20).collect::<Vec<u32>>());
    assert_eq!(table.insert(&numbered(3)), ExecuteResult::EXECUTE_DUPLICATE_KEY);
}

#[test]
fn maximum_length_strings_survive_reopen() {
    let username = "u".repeat(32);
    let email = "é".repeat(127) + "x";
    assert_eq!(email.len(), 255);
    let mut table = Table::open(Vec::new()).unwrap();
    assert_eq!(table.insert(&row(7, &username, &email)), ExecuteResult::EXECUTE_SUCCESS);
    let mut reopened = Table::open(flush(&mut table, Vec::new())).unwrap();
    let rows = reopened.scan().unwrap();
    assert_eq!(rows.len(), 1);
    assert_eq!(rows[0].username, username);
    assert_eq!(rows[0].email, email);
}

#[test]
fn many_rows_survive_reopen() {
    let mut table = Table::open(Vec::new()).unwrap();
    for id in (1..=40).rev() {
        assert_eq!(table.insert(&numbered(id * 3)), ExecuteResult::EXECUTE_SUCCESS);
    }
    let expected = ids(&mut table);
    assert_eq!(expected, (1..=40).map(|i| i * 3).collect::<Vec<u32>>());
    let file = flush(&mut table, Vec::new());
    let mut reopened = Table::open(file.clone()).unwrap();
    assert_eq!(ids(&mut reopened), expected);
    assert_eq!(reopened.insert(&numbered(1)), ExecuteResult::EXECUTE_SUCCESS);
    let mut again = Table::open(flush(&mut reopened, file)).unwrap();
    let mut with_one = vec![1];
    with_one.extend(expected);
    assert_eq!(ids(&mut again), with_one);
}

#[test]
fn empty_table_scans_empty() {
    let mut table = Table::open(Vec::new()).unwrap();
    assert_eq!(table.scan().unwrap().len(), 0);
    assert_eq!(table.find(5), Some((0, 0)));
}

#[test]
fn file_not_a_whole_number_of_pages_is_corrupt() {
    assert_eq!(Table::open(vec![0u8; PAGE_SIZE + 1]).err(), Some(OpenError::CorruptFile));
    assert_eq!(Table::open(vec![0u8; 101 * PAGE_SIZE]).err(), Some(OpenError::TooManyPages));
}

#[test]
fn malformed_page_is_refused() {
    let mut table = Table::open(Vec::new()).unwrap();
    assert_eq!(table.insert(&numbered(2)), ExecuteResult::EXECUTE_SUCCESS);
    assert_eq!(table.insert(&numbered(1)), ExecuteResult::EXECUTE_SUCCESS);
    let mut file = flush(&mut table, Vec::new());
    // swap the two keys so that they are out of order
    let a = 26;
    let b = 26 + 295;
    for k in 0..4 {
        file.swap(a + k, b + k);
    }
    assert_eq!(Table::open(file).err(), Some(OpenError::CorruptNode));
    let mut two_roots = flush(&mut table, Vec::new());
    two_roots.extend(flush(&mut table, Vec::new()));
    assert_eq!(Table::open(two_roots).err(), Some(OpenError::CorruptNode));
}

#[test]
fn find_reports_position_in_leaf() {
    let mut table = Table::open(Vec::new()).unwrap();
    for id in [10, 20, 30] {
        assert_eq!(table.insert(&numbered(id)), ExecuteResult::EXECUTE_SUCCESS);
    }
    assert_eq!(table.find(5), Some((0, 0)));
    assert_eq!(table.find(10), Some((0, 0)));
    assert_eq!(table.find(25), Some((0, 2)));
    assert_eq!(table.find(40), Some((0, 3)));
}

#[test]
fn layout_constants() {
    assert_eq!(LEAF_NODE_MAX_CELLS, 13);
    assert_eq!(INTERNAL_NODE_MAX_CELLS, 339);
}

#[test]
fn tree_diagram_after_root_split() {
    let mut table = Table::open(Vec::new()).unwrap();
    for id in 1..=14 {
        assert_eq!(table.insert(&numbered(id)), ExecuteResult::EXECUTE_SUCCESS);
    }
    let lines = table.print_tree();
    let mut expected = vec![TreeLine::Internal(0, 1), TreeLine::Leaf(1, 7)];
    expected.extend((1..=7).map(|k| TreeLine::LeafKey(2, k)));
    expected.push(TreeLine::InternalKey(1, 7));
    expected.push(TreeLine::Leaf(1, 7));
    expected.extend((8..=14).map(|k| TreeLine::LeafKey(2, k)));
    assert_eq!(lines, expected);
    let mut small = Table::open(Vec::new()).unwrap();
    assert_eq!(small.insert(&numbered(3)), ExecuteResult::EXECUTE_SUCCESS);
    assert_eq!(small.print_tree(), vec![TreeLine::Leaf(0, 1), TreeLine::LeafKey(1, 3)]);
}

#[test]
fn inserted_row_is_scanned_and_second_insert_is_duplicate() {
    let mut table = Table::open(Vec::new()).unwrap();
    for id in [50, 10, 40, 20, 30, 60, 70, 80, 90, 100, 110, 120, 130, 5, 15, 25] {
        assert_eq!(table.insert(&numbered(id)), ExecuteResult::EXECUTE_SUCCESS);
        let rows = table.scan().unwrap();
        assert!(rows.iter().any(|r| r.id == id && r.username == format!("user{}", id)));
        assert_eq!(table.insert(&numbered(id)), ExecuteResult::EXECUTE_DUPLICATE_KEY);
    }
    let all = ids(&mut table);
    let mut sorted = all.clone();
    sorted.sort();
    assert_eq!(all, sorted);
    assert_eq!(all.len(), 16);
}

#[test]
fn separator_key_out_of_place_is_refused() {
    let mut table = Table::open(Vec::new()).unwrap();
    for id in 1..=14 {
        assert_eq!(table.insert(&numbered(id)), ExecuteResult::EXECUTE_SUCCESS);
    }
    let good = flush(&mut table, Vec::new());
    assert!(Table::open(good.clone()).is_ok());
    let mut bad = good.clone();
    bad[26 + 8..26 + 12].copy_from_slice(&3u32.to_le_bytes());
    assert_eq!(Table::open(bad).err(), Some(OpenError::CorruptNode));
    let mut unlinked = good;
    let left = 2 * PAGE_SIZE;
    unlinked[left + 18..left + 26].copy_from_slice(&0u64.to_le_bytes());
    assert_eq!(Table::open(unlinked).err(), Some(OpenError::CorruptNode));
}

#[test]
fn running_out_of_pages_fails_without_change() {
    let mut table = Table::open(Vec::new()).unwrap();
    let mut id = 1;
    let last = loop {
        let r = table.insert(&numbered(id));
        if r != ExecuteResult::EXECUTE_SUCCESS {
            break r;
        }
        id += 1;
        assert!(id < 5000);
    };
    assert_eq!(last, ExecuteResult::EXECUTE_FAIL);
    let before = flush(&mut table, Vec::new());
    assert_eq!(before.len(), 100 * PAGE_SIZE);
    assert_eq!(table.insert(&numbered(id)), ExecuteResult::EXECUTE_FAIL);
    assert_eq!(flush(&mut table, Vec::new()), before);
    assert_eq!(ids(&mut table), (1..id).collect::<Vec<u32>>());
    assert_eq!(table.insert(&numbered(1)), ExecuteResult::EXECUTE_DUPLICATE_KEY);
}

#[test]
fn pager_opens_a_file_larger_than_the_cache() {
    let pager = Pager::new(vec![0u8; 101 * PAGE_SIZE]).ok().unwrap();
    assert_eq!(pager.num_pages(), 101);
    assert_eq!(pager.get_unused_page_num(), 101);
    assert!(Pager::new(vec![0u8; 3 * PAGE_SIZE + 7]).is_err());
}

#[test]
fn close_returns_every_page_in_order() {
    let mut table = Table::open(Vec::new()).unwrap();
    for id in 1..=14 {
        assert_eq!(table.insert(&numbered(id)), ExecuteResult::EXECUTE_SUCCESS);
    }
    let closed = table.close();
    assert_eq!(closed.iter().map(|(n, _)| *n).collect::<Vec<usize>>(), vec![0, 1, 2]);
    assert!(closed.iter().all(|(_, b)| b.len() == PAGE_SIZE));
}
