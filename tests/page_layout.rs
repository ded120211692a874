use minidb::btree::{Cursor, ExecuteResult, Table};
use minidb::node::{internal_node_find_child, leaf_node_find};
use minidb::page::{NodeType, Page};
use minidb::row::{deserialize_row, serialize_row, Row};

#[test]
fn row_image_is_padded_and_trimmed() {
    let r = Row { id: 0x01020304, username: "bob".to_string(), email: "b@x".to_string() };
    let bytes = serialize_row(&r);
    assert_eq!(bytes.len(), 291);
    assert_eq!(&bytes[0..4], &[4, 3, 2, 1]);
    assert_eq!(&bytes[4..7], b"bob");
    assert!(bytes[7..36].iter().all(|b| *b == 0));
    assert_eq!(&bytes[36..39], b"b@x");
    assert!(bytes[39..].iter().all(|b| *b == 0));
    let back = deserialize_row(&bytes).unwrap();
    assert_eq!((back.id, back.username.as_str(), back.email.as_str()), (0x01020304, "bob", "b@x"));
}

#[test]
fn empty_strings_read_back_empty() {
    let r = Row { id: 9, username: String::new(), email: String::new() };
    let back = deserialize_row(&serialize_row(&r)).unwrap();
    assert_eq!((back.username.as_str(), back.email.as_str()), ("", ""));
}

#[test]
fn invalid_utf8_image_reads_as_none() {
    let mut bytes = vec![0u8; 291];
    bytes[4] = 0xff;
    assert!(deserialize_row(&bytes).is_none());
}

#[test]
fn row_fits_checks_sizes() {
    assert!(Row { id: 1, username: "a".repeat(32), email: "b".repeat(255) }.fits());
    assert!(!Row { id: 1, username: "a".repeat(33), email: String::new() }.fits());
    assert!(!Row { id: 1, username: String::new(), email: "b".repeat(256) }.fits());
}

#[test]
fn header_fields_round_trip() {
    let mut p = Page::new();
    p.initialize_leaf_node();
    assert_eq!(p.get_node_type(), NodeType::NODE_LEAF);
    assert!(!p.is_node_root());
    p.set_node_root(true);
    p.set_parent(42);
    p.set_leaf_node_num_cells(3);
    p.set_leaf_node_next_leaf(9);
    assert!(p.is_node_root());
    assert_eq!(p.get_parent(), 42);
    assert_eq!(p.leaf_node_num_cells(), 3);
    assert_eq!(p.leaf_node_next_leaf(), 9);
    assert_eq!(p.read_bytes(2, 8), vec![42, 0, 0, 0, 0, 0, 0, 0]);
    assert!(p.is_full() == false);
    p.set_leaf_node_num_cells(13);
    assert!(p.is_full());
}

#[test]
fn cell_offsets() {
    let p = Page::new();
    assert_eq!(p.leaf_node_cell(0), 26);
    assert_eq!(p.leaf_node_cell(2), 26 + 2 * 295);
    assert_eq!(p.leaf_node_value(1), 26 + 295 + 4);
    assert_eq!(p.internal_node_cell(0), 26);
    assert_eq!(p.internal_node_cell(3), 26 + 36);
    assert_eq!(p.internal_node_right_child(), 18);
}

#[test]
fn internal_children_alias_right_child() {
    let mut p = Page::new();
    p.initialize_internal_node();
    assert_eq!(p.get_node_type(), NodeType::NODE_INTERNAL);
    p.set_internal_node_num_keys(2);
    p.set_internal_node_child(0, 5);
    p.set_internal_node_key(0, 10);
    p.set_internal_node_child(1, 6);
    p.set_internal_node_key(1, 20);
    p.set_internal_node_child(2, 7);
    assert_eq!(p.get_internal_node_right_child(), 7);
    assert_eq!(p.get_internal_node_cell(1), 6);
    assert_eq!(p.get_internal_node_key(1), 20);
    assert_eq!(p.get_node_max_key(), 20);
    assert_eq!(internal_node_find_child(&p, 5), 0);
    assert_eq!(internal_node_find_child(&p, 10), 0);
    assert_eq!(internal_node_find_child(&p, 11), 1);
    assert_eq!(internal_node_find_child(&p, 21), 2);
}

#[test]
fn leaf_search_finds_index_or_insertion_point() {
    let mut table = Table::open(Vec::new()).unwrap();
    for id in [3, 5, 8] {
        let r = Row { id, username: "u".to_string(), email: "e".to_string() };
        assert_eq!(table.insert(&r), ExecuteResult::EXECUTE_SUCCESS);
    }
    let bytes = table.close().into_iter().find(|(n, _)| *n == 0).unwrap().1;
    let leaf = Page::from_bytes(&bytes);
    assert_eq!(leaf_node_find(&leaf, 5), 1);
    assert_eq!(leaf_node_find(&leaf, 6), 2);
    assert_eq!(leaf_node_find(&leaf, 9), 3);
    assert_eq!(leaf.get_node_max_key(), 8);
    assert_eq!(leaf.leaf_node_key(2), 8);
}

#[test]
fn cursor_walks_every_row() {
    let mut table = Table::open(Vec::new()).unwrap();
    for id in (1..=20).rev() {
        let r = Row { id, username: format!("u{}", id), email: "e".to_string() };
        assert_eq!(table.insert(&r), ExecuteResult::EXECUTE_SUCCESS);
    }
    let mut cursor = Cursor::table_start(&mut table).unwrap();
    let mut seen = Vec::new();
    while !cursor.end_of_table {
        let r = cursor.cursor_value(&mut table).unwrap();
        assert_eq!(r.username, format!("u{}", r.id));
        seen.push(r.id);
        cursor.advance(&mut table);
    }
    assert_eq!(seen, (1..=20).collect::<Vec<u32>>());
}

#[test]
fn cursor_page_accessors() {
    let mut table = Table::open(Vec::new()).unwrap();
    let r = Row { id: 4, username: "u".to_string(), email: "e".to_string() };
    assert_eq!(table.insert(&r), ExecuteResult::EXECUTE_SUCCESS);
    let cursor = Cursor::table_start(&mut table).unwrap();
    assert_eq!((cursor.page_num, cursor.cell_num, cursor.end_of_table), (0, 0, false));
    let page = cursor.get_page(&mut table);
    assert!(page.is_leaf_node());
    assert_eq!(page.leaf_node_num_cells(), 1);
    let view = cursor.get_page_view(&table).unwrap();
    assert_eq!(view.leaf_node_key(0), 4);
    assert_eq!(table.get_page_view(1).is_none(), true);
}

#[test]
fn empty_table_cursor_starts_at_end() {
    let mut table = Table::open(Vec::new()).unwrap();
    let cursor = Cursor::table_start(&mut table).unwrap();
    assert!(cursor.end_of_table);
}
