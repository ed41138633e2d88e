use rs_sqlite::components::cursor::Cursor;
use rs_sqlite::components::pager::Pager;
use rs_sqlite::components::row::Row;
use rs_sqlite::components::table::Table;
use rs_sqlite::consts::{
    EMAIL_SIZE, LEAF_NODE_MAX_CELLS, PAGE_SIZE, ROWS_PER_PAGE, ROW_SIZE, TABLE_MAX_PAGES,
    TABLE_MAX_ROWS, USERNAME_SIZE,
};
use rs_sqlite::encoding::{u32_from_le, u32_to_le};
use rs_sqlite::errors::{ExecuteError, MetaCommandError, ParseError};
use rs_sqlite::parser::{parse_u32, split_whitespace, trim};
use rs_sqlite::util::{
    do_meta_command, execute_statement, get_page, get_row_slice, initialize_leaf_node,
    leaf_node_insert, leaf_node_key, leaf_node_key_mut, leaf_node_keys, leaf_node_num_cells,
    leaf_node_value_mut, prepare_statement, set_leaf_node_num_cells, set_node_is_root,
    MetaCommand,
};
use rs_sqlite::{handle_input, process_input, NodeType, Response, Statement};

fn row(id: u32, username: &str, email: &str) -> Row {
    let mut u = [0u8; USERNAME_SIZE];
    u[..username.len()].copy_from_slice(username.as_bytes());
    let mut e = [0u8; EMAIL_SIZE];
    e[..email.len()].copy_from_slice(email.as_bytes());
    Row { id, username: u, email: e }
}

fn inserted(input: &str) -> Row {
    match prepare_statement(input) {
        Ok(Statement::Insert { row_to_insert }) => row_to_insert,
        _ => panic!("not an insert: {}", input),
    }
}

fn parse_error(input: &str) -> ParseError {
    match prepare_statement(input) {
        Err(e) => e,
        Ok(_) => panic!("parsed: {}", input),
    }
}

#[test]
fn layout_constants() {
    assert_eq!(ROW_SIZE, 291);
    assert_eq!(ROWS_PER_PAGE, 14);
    assert_eq!(TABLE_MAX_ROWS, 1400);
    assert_eq!(LEAF_NODE_MAX_CELLS, 13);
}

#[test]
fn prepare_insert_row_fields() {
    let r = inserted("insert 7 alice alice@example.com");
    assert_eq!(r.id, 7);
    assert_eq!(&r.username[..5], b"alice");
    assert!(r.username[5..].iter().all(|&b| b == 0));
    assert_eq!(&r.email[..17], b"alice@example.com");
    assert!(r.email[17..].iter().all(|&b| b == 0));
}

#[test]
fn prepare_select_forms() {
    assert!(matches!(prepare_statement("select"), Ok(Statement::Select)));
    assert!(matches!(prepare_statement("select * from t"), Ok(Statement::Select)));
    assert_eq!(parse_error("selectx"), ParseError::UnrecognizedStatement);
    assert_eq!(parse_error("update 1 a b"), ParseError::UnrecognizedStatement);
}

#[test]
fn prepare_insert_needs_space_after_keyword() {
    assert_eq!(parse_error("insert\t1 a b"), ParseError::UnrecognizedStatement);
    assert_eq!(parse_error("inserts 1 a b"), ParseError::UnrecognizedStatement);
}

#[test]
fn prepare_insert_syntax_errors() {
    assert_eq!(parse_error("insert"), ParseError::SyntaxError);
    assert_eq!(parse_error("insert 1 a"), ParseError::SyntaxError);
    assert_eq!(parse_error("insert abc a b"), ParseError::SyntaxError);
    assert_eq!(parse_error("insert 12x a b"), ParseError::SyntaxError);
    assert_eq!(parse_error("insert + a b"), ParseError::SyntaxError);
    assert_eq!(parse_error("insert 4294967296 a b"), ParseError::SyntaxError);
}

#[test]
fn prepare_insert_id_forms() {
    assert_eq!(inserted("insert 4294967295 a b").id, u32::MAX);
    assert_eq!(inserted("insert +5 a b").id, 5);
    assert_eq!(inserted("insert 007 a b").id, 7);
    assert_eq!(inserted("insert 0 a b").id, 0);
    assert_eq!(parse_error("insert -0 a b"), ParseError::NegativeId);
    assert_eq!(parse_error("insert -x a b"), ParseError::NegativeId);
}

#[test]
fn prepare_negative_id_before_string_length() {
    let long = "a".repeat(40);
    assert_eq!(parse_error(&format!("insert -1 {} b", long)), ParseError::NegativeId);
    assert_eq!(parse_error(&format!("insert x {} b", long)), ParseError::SyntaxError);
}

#[test]
fn prepare_string_lengths_are_bytes() {
    // "é" takes two bytes in UTF-8: 16 of them make 32 bytes, 17 make 34.
    let ok = "é".repeat(16);
    let r = inserted(&format!("insert 1 {} b", ok));
    assert_eq!(&r.username[..], ok.as_bytes());
    let too_long = "é".repeat(17);
    assert_eq!(parse_error(&format!("insert 1 {} b", too_long)), ParseError::StringTooLong);
    assert_eq!(parse_error(&format!("insert 1 a {}", "b".repeat(256))), ParseError::StringTooLong);
}

#[test]
fn prepare_extra_words_and_whitespace() {
    let r = inserted("insert   9 \t bob   bob@x.org  trailing words");
    assert_eq!(r.id, 9);
    assert_eq!(&r.username[..3], b"bob");
    assert_eq!(r.username[3], 0);
    assert_eq!(&r.email[..9], b"bob@x.org");
}

#[test]
fn prepare_unicode_whitespace_separates_words() {
    let r = inserted("insert 3\u{3000}carol\u{a0}carol@x.org");
    assert_eq!(r.id, 3);
    assert_eq!(&r.username[..5], b"carol");
    assert_eq!(r.username[5], 0);
    assert_eq!(&r.email[..11], b"carol@x.org");
    let r = inserted("insert 4\u{2003}dave\u{85}d@x");
    assert_eq!(r.id, 4);
    assert_eq!(&r.username[..4], b"dave");
    assert_eq!(&r.email[..3], b"d@x");
}

#[test]
fn split_whitespace_ranges() {
    let s = "  ab\u{3000}c \n d ";
    let b = s.as_bytes();
    let words: Vec<&str> = split_whitespace(b).iter().map(|&(i, j)| &s[i..j]).collect();
    assert_eq!(words, s.split_whitespace().collect::<Vec<_>>());
    assert_eq!(words, vec!["ab", "c", "d"]);
    assert!(split_whitespace(b"").is_empty());
    assert!(split_whitespace(b" \t ").is_empty());
}

#[test]
fn trim_matches_str_trim() {
    for s in ["", "   ", "  a b  ", "\u{3000}x\u{a0}", "\t\nselect\r\n", "\u{2029}", "é "] {
        assert_eq!(trim(s), s.trim());
    }
}

#[test]
fn parse_u32_matches_std() {
    for s in ["0", "42", "+42", "4294967295", "4294967296", "", "+", "-1", "1a", "99999999999999999999", "00012"] {
        assert_eq!(parse_u32(s.as_bytes()), s.parse::<u32>().ok(), "{}", s);
    }
}

#[test]
fn le_bytes_roundtrip() {
    for x in [0u32, 1, 255, 256, 0x0102_0304, u32::MAX] {
        let b = u32_to_le(x);
        assert_eq!(b, x.to_le_bytes());
        assert_eq!(u32_from_le(&b), x);
    }
}

#[test]
fn row_serialize_deserialize_roundtrip() {
    let r = row(0x0102_0304, "user", "user@mail");
    let mut buf = vec![0xaau8; ROW_SIZE + 5];
    r.serialize(&mut buf);
    assert_eq!(&buf[..4], &0x0102_0304u32.to_ne_bytes());
    assert_eq!(&buf[4..8], b"user");
    assert_eq!(&buf[36..45], b"user@mail");
    assert_eq!(&buf[ROW_SIZE..], &[0xaa; 5]);
    let back = Row::deserialize(&buf);
    assert_eq!(back.id, 0x0102_0304);
    assert_eq!(back.username, r.username);
    assert_eq!(back.email, r.email);
}

#[test]
fn row_texts() {
    let r = row(1, "ann", "ann@x");
    assert_eq!(r.username_text(), "ann");
    assert_eq!(r.email_text(), "ann@x");
    let mut bad = row(2, "", "");
    bad.username[0] = 0xff;
    bad.email[0] = 0xc3;
    assert_eq!(bad.username_text(), "Error parsing username.");
    assert_eq!(bad.email_text(), "Error parsing Email.");
    let mut full = row(3, "", "");
    full.username = [b'z'; USERNAME_SIZE];
    assert_eq!(full.username_text(), "z".repeat(USERNAME_SIZE));
}

#[test]
fn leaf_node_header_functions() {
    let mut node = [0xffu8; PAGE_SIZE];
    initialize_leaf_node(&mut node);
    assert_eq!(node[0], NodeType::Leaf.to_byte());
    assert_eq!(node[1], 0);
    assert_eq!(leaf_node_num_cells(&node), 0);
    assert_eq!(node[2], 0xff);
    set_node_is_root(&mut node, true);
    assert_eq!(node[1], 1);
    set_leaf_node_num_cells(&mut node, 0x0a0b0c0d);
    assert_eq!(&node[6..10], &[0x0d, 0x0c, 0x0b, 0x0a]);
    assert_eq!(leaf_node_num_cells(&node), 0x0a0b0c0d);
    assert_eq!(NodeType::Internal.to_byte(), 0);
}

#[test]
fn leaf_node_cell_slices() {
    let mut node = [0u8; PAGE_SIZE];
    leaf_node_key_mut(&mut node, 2).copy_from_slice(&77u32.to_le_bytes());
    assert_eq!(&node[10 + 2 * 295..10 + 2 * 295 + 4], &77u32.to_le_bytes());
    assert_eq!(leaf_node_key(&node, 2), 77);
    let value = leaf_node_value_mut(&mut node, 1);
    assert_eq!(value.len(), ROW_SIZE);
    value[0] = 9;
    assert_eq!(node[10 + 295 + 4], 9);
}

#[test]
fn leaf_node_insert_appends_cells() {
    let mut node = [0u8; PAGE_SIZE];
    initialize_leaf_node(&mut node);
    for i in 0..3u32 {
        leaf_node_insert(&mut node, i as usize, 100 + i, &row(i, "u", "e"));
    }
    assert_eq!(leaf_node_num_cells(&node), 3);
    assert_eq!(leaf_node_keys(&node), vec![100, 101, 102]);
    let start = 10 + 295 + 4;
    let back = Row::deserialize(&node[start..start + ROW_SIZE]);
    assert_eq!(back.id, 1);
}

#[test]
fn leaf_node_insert_before_last_cell_moves_bytes() {
    let mut node = [0u8; PAGE_SIZE];
    initialize_leaf_node(&mut node);
    leaf_node_insert(&mut node, 0, 1, &row(1, "a", "a"));
    leaf_node_insert(&mut node, 1, 2, &row(2, "b", "b"));
    let before = node;
    leaf_node_insert(&mut node, 0, 3, &row(3, "c", "c"));
    // The bytes from 10 + 0 + 295 up to the end of the second cell move by one cell.
    let (src_start, src_end) = (10 + 295, 10 + 2 * 295);
    assert_eq!(&node[src_start + 295..src_end + 295], &before[src_start..src_end]);
    assert_eq!(leaf_node_num_cells(&node), 3);
    assert_eq!(leaf_node_key(&node, 0), 3);
}

#[test]
fn pager_and_get_page() {
    let mut pager = Pager::open(Vec::new());
    assert_eq!(pager.num_pages, 0);
    assert_eq!(pager.pages.len(), TABLE_MAX_PAGES);
    let page = get_page(&mut pager, 5);
    assert!(page.iter().all(|&b| b == 0));
    page[7] = 3;
    assert_eq!(pager.num_pages, 6);
    assert_eq!(get_page(&mut pager, 5)[7], 3);
    get_page(&mut pager, 2);
    assert_eq!(pager.num_pages, 6);
}

#[test]
fn pager_open_caches_nothing_and_get_page_reads_the_file() {
    let mut contents = vec![1u8; PAGE_SIZE];
    contents.extend_from_slice(&[2u8; 10]);
    let mut pager = Pager::open(contents);
    assert_eq!(pager.num_pages, 0);
    assert_eq!(pager.file_length, PAGE_SIZE as u64 + 10);
    assert!(pager.pages.iter().all(|p| p.is_none()));
    let p1 = get_page(&mut pager, 1);
    assert_eq!(p1[9], 2);
    assert_eq!(p1[10], 0);
    assert_eq!(pager.num_pages, 2);
    assert!(pager.pages[0].is_none());
    assert!(get_page(&mut pager, 0).iter().all(|&b| b == 1));
    assert!(get_page(&mut pager, 3).iter().all(|&b| b == 0));
    assert_eq!(pager.num_pages, 4);
}

#[test]
fn cursor_walks_across_pages() {
    let mut table = Table::new();
    for i in 0..16 {
        assert_eq!(handle_input(&format!("insert {} u e", i), &mut table), None);
    }
    let mut cursor = Cursor::table_start(&table);
    let mut ids = Vec::new();
    while !cursor.end_of_table {
        ids.push(Row::deserialize(cursor.value(&mut table)).id);
        cursor.advance(&table);
    }
    assert_eq!(ids, (0..16).collect::<Vec<u32>>());
    assert_eq!((cursor.page_num, cursor.cell_num), (1, 2));
    let end = Cursor::table_end(&table);
    assert_eq!((end.page_num, end.cell_num, end.end_of_table), (1, 2, true));
    let empty = Table::new();
    assert!(Cursor::table_start(&empty).end_of_table);
}

#[test]
fn execute_select_returns_rows_in_order() {
    let mut table = Table::new();
    for (i, name) in ["x", "y", "z"].iter().enumerate() {
        let st = Statement::Insert { row_to_insert: row(i as u32 * 10, name, "m") };
        assert_eq!(execute_statement(st, &mut table).unwrap().len(), 0);
    }
    let rows = execute_statement(Statement::Select, &mut table).unwrap();
    assert_eq!(rows.iter().map(|r| r.id).collect::<Vec<_>>(), vec![0, 10, 20]);
    assert_eq!(rows[2].username_text(), "z");
    assert_eq!(table.num_rows, 3);
}

#[test]
fn execute_insert_into_full_table() {
    let mut table = Table::new();
    for i in 0..TABLE_MAX_ROWS as u32 {
        execute_statement(Statement::Insert { row_to_insert: row(i, "a", "b") }, &mut table).unwrap();
    }
    let r = execute_statement(Statement::Insert { row_to_insert: row(0, "a", "b") }, &mut table);
    assert!(matches!(r, Err(ExecuteError::TableFull)));
    assert_eq!(table.num_rows, TABLE_MAX_ROWS);
    assert_eq!(Row::deserialize(get_row_slice(&table, 1399)).id, 1399);
}

#[test]
fn get_row_slice_offsets() {
    let mut table = Table::new();
    for i in 0..15 {
        handle_input(&format!("insert {} n{} e", i, i), &mut table);
    }
    let r14 = Row::deserialize(get_row_slice(&table, 14));
    assert_eq!(r14.id, 14);
    assert_eq!(r14.username_text(), "n14");
    assert_eq!(table.pager.num_pages, 2);
}

#[test]
fn rows_of_an_opened_file_are_read_lazily() {
    let mut table = Table::new();
    for i in 0..20 {
        handle_input(&format!("insert {} u{} e{}", i, i, i), &mut table);
    }
    let mut reopened = Table::db_open(table.db_close());
    // Rows are read from the file bytes while no page is cached.
    assert_eq!(Row::deserialize(get_row_slice(&reopened, 15)).username_text(), "u15");
    assert_eq!(reopened.pager.num_pages, 0);
    assert_eq!(handle_input("insert 20 u20 e20", &mut reopened), None);
    assert_eq!(reopened.pager.num_pages, 2);
    assert!(reopened.pager.pages[0].is_none());
    match process_input("select", &mut reopened) {
        Response::Executed(rows) => {
            assert_eq!(rows.len(), 21);
            assert_eq!(rows[3].email_text(), "e3");
            assert_eq!(rows[20].username_text(), "u20");
        }
        _ => panic!("select not executed"),
    }
    assert!(reopened.pager.pages[0].is_some());
}

#[test]
fn db_close_then_db_open_keeps_rows() {
    let mut table = Table::new();
    for i in 0..17 {
        handle_input(&format!("insert {} user{} mail{}", i, i, i), &mut table);
    }
    let contents = table.db_close();
    assert_eq!(contents.len(), PAGE_SIZE + 3 * ROW_SIZE);
    let reopened = Table::db_open(contents);
    assert_eq!(reopened.num_rows, 17);
    assert_eq!(reopened.pager.num_pages, 0);
    for i in 0..17 {
        let r = Row::deserialize(get_row_slice(&reopened, i));
        assert_eq!(r.id, i as u32);
        assert_eq!(r.username_text(), format!("user{}", i));
    }
    assert_eq!(Table::new().db_close().len(), 0);
    assert_eq!(Table::db_open(Vec::new()).num_rows, 0);
}

#[test]
fn db_open_counts_whole_rows_only() {
    let contents = vec![0u8; 2 * ROW_SIZE + 100];
    assert_eq!(Table::db_open(contents).num_rows, 2);
    let contents = vec![0u8; PAGE_SIZE * 2];
    assert_eq!(Table::db_open(contents).num_rows, 28);
    let contents = vec![0u8; PAGE_SIZE * (TABLE_MAX_PAGES + 3)];
    assert_eq!(Table::db_open(contents).num_rows, TABLE_MAX_ROWS);
}

#[test]
fn meta_commands() {
    assert_eq!(do_meta_command(".exit"), Ok(MetaCommand::Exit));
    assert_eq!(do_meta_command(".exit2"), Err(MetaCommandError::Unrecognized));
    assert_eq!(do_meta_command(".help"), Err(MetaCommandError::Unrecognized));
}

#[test]
fn handle_input_messages() {
    let mut table = Table::new();
    assert_eq!(handle_input("", &mut table), None);
    assert_eq!(handle_input("  \n", &mut table), None);
    assert_eq!(
        handle_input("  .tables \n", &mut table),
        Some("Unrecognized command: '.tables'".to_string())
    );
    assert_eq!(
        handle_input("foo bar\n", &mut table),
        Some("Unrecognized keyword at start of 'foo bar'.".to_string())
    );
    assert_eq!(
        handle_input("insert x a b", &mut table),
        Some("Syntax error. Could not parse statement.".to_string())
    );
    assert_eq!(handle_input(".exit", &mut table), None);
    assert_eq!(handle_input("select", &mut table), None);
    assert_eq!(table.num_rows, 0);
}

#[test]
fn process_input_responses() {
    let mut table = Table::new();
    assert!(matches!(process_input(" \t", &mut table), Response::Nothing));
    assert!(matches!(process_input(".exit\n", &mut table), Response::Exit));
    match process_input("insert 1 a b\n", &mut table) {
        Response::Executed(rows) => assert!(rows.is_empty()),
        _ => panic!("insert not executed"),
    }
    match process_input("insert 2 c d", &mut table) {
        Response::Executed(rows) => assert!(rows.is_empty()),
        _ => panic!("insert not executed"),
    }
    match process_input("select", &mut table) {
        Response::Executed(rows) => {
            assert_eq!(rows.iter().map(|r| r.id).collect::<Vec<_>>(), vec![1, 2]);
            assert_eq!(rows[1].email_text(), "d");
        }
        _ => panic!("select not executed"),
    }
    match process_input(".nope", &mut table) {
        Response::Message(m) => assert_eq!(m, "Unrecognized command: '.nope'"),
        _ => panic!("no message"),
    }
}

fn same_table(a: &Table, b: &Table) -> bool {
    a.num_rows == b.num_rows
        && a.pager.file == b.pager.file
        && a.pager.file_length == b.pager.file_length
        && a.pager.num_pages == b.pager.num_pages
        && a.pager.pages == b.pager.pages
}

#[test]
fn surrounding_whitespace_does_not_change_the_outcome() {
    let mut t1 = Table::new();
    let mut t2 = Table::new();
    let lines = [
        "insert 1 a b\n",
        "  insert 2 c d \t\n",
        "\u{3000}select\u{a0}",
        " .tables\n",
        "\n",
        "insert -1 a b \n",
        "foo bar \r\n",
        "\u{2028}insert 3 e f\u{85}",
        "select\n",
    ];
    for line in lines.iter() {
        let m1 = handle_input(line, &mut t1);
        let m2 = handle_input(line.trim(), &mut t2);
        assert_eq!(m1, m2, "line {:?}", line);
        assert!(same_table(&t1, &t2), "line {:?}", line);
    }
    assert_eq!(t1.num_rows, 3);
}

#[test]
fn lines_without_a_statement_leave_the_table_untouched() {
    let mut source = Table::new();
    for line in ["insert 1 a b", "insert 2 c d"].iter() {
        assert_eq!(handle_input(line, &mut source), None);
    }
    let mut table = Table::db_open(source.db_close());
    assert_eq!(table.num_rows, 2);
    assert!(table.pager.pages.iter().all(|p| p.is_none()));
    let before = Table::db_open(source.db_close());
    assert_eq!(handle_input("   \n", &mut table), None);
    assert!(same_table(&table, &before));
    assert_eq!(
        handle_input(".tables\n", &mut table),
        Some("Unrecognized command: '.tables'".to_string())
    );
    assert!(same_table(&table, &before));
    assert_eq!(
        handle_input("insert 3 a", &mut table),
        Some("Syntax error. Could not parse statement.".to_string())
    );
    assert!(same_table(&table, &before));
    assert!(matches!(process_input(".exit", &mut table), Response::Exit));
    assert!(same_table(&table, &before));
    assert_eq!(handle_input("select", &mut table), None);
    assert!(table.pager.pages[0].is_some());
    assert_eq!(table.num_rows, 2);
}
