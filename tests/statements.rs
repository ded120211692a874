use minidb::btree::{ExecuteResult, Table};
use minidb::statement::{parse_id, prepare_statement, split_on_spaces, PrepareResult, StatementType};

#[test]
fn negative_id_is_refused_and_table_unchanged() {
    let mut table = Table::open(Vec::new()).unwrap();
    assert_eq!(prepare_statement("insert -1 a b").err(), Some(PrepareResult::PREPARE_NEGATIVE_ID));
    assert_eq!(table.scan().unwrap().len(), 0);
}

#[test]
fn long_username_is_refused_by_prepare() {
    let command = format!("insert 1 {} e@x", "a".repeat(33));
    assert_eq!(prepare_statement(&command).err(), Some(PrepareResult::PREPARE_STRING_TOO_LONG));
    let command = format!("insert 1 u {}", "e".repeat(256));
    assert_eq!(prepare_statement(&command).err(), Some(PrepareResult::PREPARE_STRING_TOO_LONG));
    let command = format!("insert 1 {} {}", "a".repeat(32), "e".repeat(255));
    assert!(prepare_statement(&command).is_ok());
}

#[test]
fn insert_statement_carries_its_row() {
    let st = prepare_statement("insert 1 user1 person1@example.com").ok().unwrap();
    assert_eq!(st.stmt_type, StatementType::STATEMENT_INSERT);
    let row = st.row_to_insert.unwrap();
    assert_eq!((row.id, row.username.as_str(), row.email.as_str()), (1, "user1", "person1@example.com"));
    let mut table = Table::open(Vec::new()).unwrap();
    assert_eq!(table.insert(&row), ExecuteResult::EXECUTE_SUCCESS);
}

#[test]
fn select_and_unknown_statements() {
    let st = prepare_statement("select").ok().unwrap();
    assert_eq!(st.stmt_type, StatementType::STATEMENT_SELECT);
    assert!(st.row_to_insert.is_none());
    assert_eq!(prepare_statement("update 1").err(), Some(PrepareResult::PREPARE_UNRECOGNIZED_STATEMENT));
    assert_eq!(prepare_statement("insert 1 a").err(), Some(PrepareResult::PREPARE_SYNTAX_ERROR));
    assert_eq!(prepare_statement("insert x a b").err(), Some(PrepareResult::PREPARE_SYNTAX_ERROR));
}

#[test]
fn ids_parse_within_i32() {
    assert_eq!(parse_id(b"42"), Some(42));
    assert_eq!(parse_id(b"+7"), Some(7));
    assert_eq!(parse_id(b"-2147483648"), Some(-2147483648));
    assert_eq!(parse_id(b"2147483647"), Some(2147483647));
    assert_eq!(parse_id(b"2147483648"), None);
    assert_eq!(parse_id(b"99999999999999999999"), None);
    assert_eq!(parse_id(b""), None);
    assert_eq!(parse_id(b"-"), None);
    assert_eq!(parse_id(b"1a"), None);
}

#[test]
fn pieces_split_at_each_space() {
    let pieces = split_on_spaces(b"insert  1 a");
    assert_eq!(pieces, vec![b"insert".to_vec(), Vec::new(), b"1".to_vec(), b"a".to_vec()]);
    assert_eq!(split_on_spaces(b""), vec![Vec::<u8>::new()]);
}

#[test]
fn multibyte_fields_prepare() {
    let st = prepare_statement("insert 3 zoë é@x.fr").ok().unwrap();
    let row = st.row_to_insert.unwrap();
    assert_eq!((row.id, row.username.as_str(), row.email.as_str()), (3, "zoë", "é@x.fr"));
}
